use vstd::prelude::*;

use crate::directive::DisabledSet;
use crate::errors::{LintError, LintErrorView};
use crate::tree::ParsedFile;

pub mod multiple_items;
pub mod no_assignment_inside_condition;
pub mod no_long_array_syntax;

verus! {

/// The 1-based line number for a 0-based row.
pub open spec fn line_of(row: usize) -> usize {
    if row == usize::MAX {
        row
    } else {
        (row + 1) as usize
    }
}

/// One finding per row, all with one message, at the rows' 1-based lines.
pub open spec fn findings_from_rows(path: Seq<char>, msg: Seq<char>, rows: Seq<usize>) -> Seq<
    LintErrorView,
> {
    rows.map(|i: int, row: usize| LintErrorView { message: msg, file: path, line: line_of(row) })
}

/// The polymorphic contract every rule implements: an applicability test
/// against the file's disabled set, and a check that reports the rule's
/// findings for one parsed file.
pub trait Lint: Sized {
    /// The rule's fixed name, as written in a disable directive.
    spec fn name_spec(&self) -> Seq<char>;

    /// Exactly the findings the rule reports for a file with this path and
    /// source text.
    spec fn findings_spec(&self, path: Seq<char>, source: Seq<char>) -> Seq<LintErrorView>;

    /// A rule applies to a file unless its name is in the file's disabled
    /// set.
    fn should_apply(&self, disabled: &DisabledSet) -> (r: bool)
        ensures
            r == !disabled@.contains(self.name_spec()),
    ;

    /// Scan the tree and report one finding per violation.
    fn check(&self, parsed: &ParsedFile) -> (r: Vec<LintError>)
        ensures
            r.deep_view() == self.findings_spec(parsed.path_view(), parsed.source_view()),
    ;
}

/// Build the findings for the rows of `rows` from position `start` on.
pub(crate) fn errors_at_rows(path: &String, msg: &str, rows: &Vec<usize>, start: usize) -> (r: Vec<
    LintError,
>)
    requires
        start <= rows@.len(),
    ensures
        r.deep_view() == findings_from_rows(path@, msg@, rows@.skip(start as int)),
{
    let n = rows.len();
    let mut out: Vec<LintError> = Vec::new();
    let mut i: usize = start;
    proof {
        assert(out.deep_view() =~= findings_from_rows(path@, msg@, rows@.subrange(
            start as int, start as int)));
    }
    while i < n
        invariant
            start <= i <= n,
            n == rows@.len(),
            out.deep_view() == findings_from_rows(path@, msg@, rows@.subrange(
                start as int, i as int)),
        decreases n - i,
    {
        let row = rows[i];
        let line: usize = if row == usize::MAX {
            row
        } else {
            row + 1
        };
        let ghost old_dv = out.deep_view();
        out.push(LintError { message: String::from_str(msg), file: path.clone(), line });
        proof {
            assert(out.deep_view() =~= old_dv.push(LintErrorView {
                message: msg@,
                file: path@,
                line: line_of(rows@[i as int]),
            }));
            assert(out.deep_view() =~= findings_from_rows(path@, msg@, rows@.subrange(
                start as int, i + 1)));
        }
        i = i + 1;
    }
    proof {
        assert(rows@.subrange(start as int, n as int) =~= rows@.skip(start as int));
    }
    out
}

} // verus!
