use vstd::prelude::*;

pub mod directive;
pub mod errors;
pub mod lints;
pub mod report;
pub mod tree;

use crate::errors::{LintError, LintErrorView};
use crate::lints::multiple_items::MultipleItems;
use crate::lints::no_assignment_inside_condition::NoAssignmentInsideCondition;
use crate::lints::no_long_array_syntax::NoLongArraySyntax;
use crate::lints::Lint;
use crate::tree::ParsedFile;

verus! {

/// True when a file name carries the `.php` source extension.
pub open spec fn has_php_extension(name: Seq<char>) -> bool {
    name.len() >= 4 && name.subrange(name.len() - 4, name.len() as int) == ".php"@
}

/// A directory entry qualifies for linting only when its name ends in `.php`.
/// The caller is responsible for checking that the entry is a regular file.
pub fn should_lint(file_name: &str) -> (r: bool)
    ensures
        r == has_php_extension(file_name@),
{
    proof {
        reveal_strlit(".php");
    }
    let n: usize = file_name.unicode_len();
    if n < 4 {
        return false;
    }
    let r = file_name.get_char(n - 4) == '.' && file_name.get_char(n - 3) == 'p'
        && file_name.get_char(n - 2) == 'h' && file_name.get_char(n - 1) == 'p';
    proof {
        let s = file_name@.subrange(n - 4, n as int);
        assert(s[0] == file_name@[n - 4]);
        assert(s[1] == file_name@[n - 3]);
        assert(s[2] == file_name@[n - 2]);
        assert(s[3] == file_name@[n - 1]);
        if r {
            assert(s =~= ".php"@);
        }
    }
    r
}

/// The set of rule names a file's leading comment run disables.
pub open spec fn file_disabled(source: Seq<char>) -> Set<Seq<char>> {
    directive::disabled_lints_spec(tree::leading_comment_texts(source))
}

/// A rule's contribution to a file's findings: everything when it applies,
/// nothing when the file disables it.
pub open spec fn gated(applies: bool, findings: Seq<LintErrorView>) -> Seq<LintErrorView> {
    if applies {
        findings
    } else {
        Seq::<LintErrorView>::empty()
    }
}

/// Every finding for one file, in registry order: multiple items first,
/// then long array syntax, then assignment inside condition.
pub open spec fn file_findings(path: Seq<char>, source: Seq<char>) -> Seq<LintErrorView> {
    let disabled = file_disabled(source);
    gated(
        !disabled.contains((MultipleItems).name_spec()),
        (MultipleItems).findings_spec(path, source),
    ) + gated(
        !disabled.contains((NoLongArraySyntax).name_spec()),
        (NoLongArraySyntax).findings_spec(path, source),
    ) + gated(
        !disabled.contains((NoAssignmentInsideCondition).name_spec()),
        (NoAssignmentInsideCondition).findings_spec(path, source),
    )
}

/// Move every finding of `v` to the end of `out`.
fn append_findings(out: &mut Vec<LintError>, v: Vec<LintError>)
    ensures
        final(out).deep_view() == old(out).deep_view() + v.deep_view(),
{
    let ghost old_dv = out.deep_view();
    let ghost v_dv = v.deep_view();
    let ghost v_vals = v@;
    let mut v = v;
    out.append(&mut v);
    proof {
        assert forall|j: int| 0 <= j < out.deep_view().len() implies out.deep_view()[j] == (old_dv
            + v_dv)[j] by {
            if j < old_dv.len() {
                assert(out@[j] == old(out)@[j]);
            } else {
                assert(out@[j] == v_vals[j - old_dv.len()]);
            }
        }
        assert(out.deep_view() =~= old_dv + v_dv);
    }
}

/// Run every applicable registry rule, in registry order, against one
/// parsed file, collecting the findings in that order.
pub fn lint_parsed(parsed: &ParsedFile) -> (r: Vec<LintError>)
    ensures
        r.deep_view() == file_findings(parsed.path_view(), parsed.source_view()),
{
    let ghost path = parsed.path_view();
    let ghost source = parsed.source_view();
    let disabled = directive::get_disabled_lints(parsed);
    let mut out: Vec<LintError> = Vec::new();
    let rule_items = MultipleItems;
    if rule_items.should_apply(&disabled) {
        let v = rule_items.check(parsed);
        append_findings(&mut out, v);
    }
    proof {
        assert(out.deep_view() =~= gated(
            !file_disabled(source).contains((MultipleItems).name_spec()),
            (MultipleItems).findings_spec(path, source),
        ));
    }
    let ghost part1 = out.deep_view();
    let rule_arrays = NoLongArraySyntax;
    if rule_arrays.should_apply(&disabled) {
        let v = rule_arrays.check(parsed);
        append_findings(&mut out, v);
    }
    proof {
        assert(out.deep_view() =~= part1 + gated(
            !file_disabled(source).contains((NoLongArraySyntax).name_spec()),
            (NoLongArraySyntax).findings_spec(path, source),
        ));
    }
    let ghost part2 = out.deep_view();
    let rule_conditions = NoAssignmentInsideCondition;
    if rule_conditions.should_apply(&disabled) {
        let v = rule_conditions.check(parsed);
        append_findings(&mut out, v);
    }
    proof {
        assert(out.deep_view() =~= part2 + gated(
            !file_disabled(source).contains((NoAssignmentInsideCondition).name_spec()),
            (NoAssignmentInsideCondition).findings_spec(path, source),
        ));
        assert(out.deep_view() =~= file_findings(path, source));
    }
    out
}

/// Analyze one file: parse its text, extract the disabled set, and run
/// every applicable rule in registry order. `None` exactly when the parser
/// yields no tree for the text.
pub fn procces(path: String, source: String) -> (r: Option<Vec<LintError>>)
    ensures
        r is Some <==> tree::php_parse_ok(source@),
        r is Some ==> r->Some_0.deep_view() == file_findings(path@, source@),
{
    match ParsedFile::parse(path, source) {
        None => None,
        Some(parsed) => Some(lint_parsed(&parsed)),
    }
}

/// The views of a list of (path, source text) pairs.
pub open spec fn views_of(files: Seq<(String, String)>) -> Seq<(Seq<char>, Seq<char>)> {
    files.map(|i: int, f: (String, String)| (f.0@, f.1@))
}

/// Every finding of a source tree, in discovery order: per file, nothing
/// when the file does not parse, else that file's findings.
pub open spec fn tree_findings(files: Seq<(Seq<char>, Seq<char>)>) -> Seq<LintErrorView>
    decreases files.len(),
{
    if files.len() == 0 {
        Seq::<LintErrorView>::empty()
    } else {
        tree_findings(files.drop_last()) + (if tree::php_parse_ok(files.last().1) {
            file_findings(files.last().0, files.last().1)
        } else {
            Seq::<LintErrorView>::empty()
        })
    }
}

/// The final report of a source tree: its findings in the sorted order.
pub open spec fn tree_report(files: Seq<(Seq<char>, Seq<char>)>) -> Seq<LintErrorView> {
    report::sort_spec(tree_findings(files))
}

/// Analyze a whole list of discovered files, one after the other, and sort
/// the collected findings into the report order. A file that does not parse
/// contributes nothing.
pub fn lint_files(files: &Vec<(String, String)>) -> (r: Vec<LintError>)
    ensures
        r.deep_view() == tree_report(views_of(files@)),
{
    let ghost fv = views_of(files@);
    let n = files.len();
    let mut all: Vec<LintError> = Vec::new();
    let mut i: usize = 0;
    proof {
        assert(fv.take(0) =~= Seq::<(Seq<char>, Seq<char>)>::empty());
        assert(all.deep_view() =~= tree_findings(fv.take(0)));
    }
    while i < n
        invariant
            i <= n,
            n == files@.len(),
            fv == views_of(files@),
            all.deep_view() == tree_findings(fv.take(i as int)),
        decreases n - i,
    {
        proof {
            assert(fv[i as int] == (files@[i as int].0@, files@[i as int].1@));
            assert(fv.take(i + 1).drop_last() =~= fv.take(i as int));
            assert(fv.take(i + 1).last() == fv[i as int]);
        }
        let path = files[i].0.clone();
        let source = files[i].1.clone();
        match procces(path, source) {
            None => {
                proof {
                    assert(all.deep_view() + Seq::<LintErrorView>::empty() =~= all.deep_view());
                }
            },
            Some(v) => {
                append_findings(&mut all, v);
            },
        }
        i = i + 1;
    }
    proof {
        assert(fv.take(n as int) =~= fv);
    }
    report::sort_findings(all)
}

/// Idempotence: the report is a function of the discovered files' paths and
/// contents alone, so two runs over an unmodified tree yield the identical
/// ordered report.
pub proof fn lemma_idempotence(
    files: Seq<(Seq<char>, Seq<char>)>,
    r1: Seq<LintErrorView>,
    r2: Seq<LintErrorView>,
)
    requires
        r1 == tree_report(files),
        r2 == tree_report(files),
    ensures
        r1 == r2,
{
}

/// Every finding a file yields carries that file's path and a line number
/// of at least one.
pub proof fn lemma_findings_well_formed(path: Seq<char>, source: Seq<char>)
    ensures
        forall|i: int| 0 <= i < file_findings(path, source).len() ==> (#[trigger] file_findings(
            path,
            source,
        )[i]).line >= 1 && file_findings(path, source)[i].file == path,
{
    let disabled = file_disabled(source);
    let a = gated(
        !disabled.contains((MultipleItems).name_spec()),
        (MultipleItems).findings_spec(path, source),
    );
    let b = gated(
        !disabled.contains((NoLongArraySyntax).name_spec()),
        (NoLongArraySyntax).findings_spec(path, source),
    );
    let c = gated(
        !disabled.contains((NoAssignmentInsideCondition).name_spec()),
        (NoAssignmentInsideCondition).findings_spec(path, source),
    );
    assert forall|i: int| 0 <= i < file_findings(path, source).len() implies (
    #[trigger] file_findings(path, source)[i]).line >= 1 && file_findings(path, source)[i].file
        == path by {
        let e = file_findings(path, source)[i];
        if i < a.len() {
            assert(e == a[i]);
        } else if i < a.len() + b.len() {
            assert(e == b[i - a.len()]);
        } else {
            assert(e == c[i - a.len() - b.len()]);
        }
    }
}

/// Suppression totality: a rule whose name is in the file's disabled set
/// contributes no finding at all; findings are told apart by their message,
/// which no two rules share.
pub proof fn lemma_suppression_totality(path: Seq<char>, source: Seq<char>)
    ensures
        file_disabled(source).contains("multiple-items"@) ==> forall|i: int|
            0 <= i < file_findings(path, source).len() ==> (#[trigger] file_findings(
                path,
                source,
            )[i]).message != "multiple items"@,
        file_disabled(source).contains("no-long-array-syntax"@) ==> forall|i: int|
            0 <= i < file_findings(path, source).len() ==> (#[trigger] file_findings(
                path,
                source,
            )[i]).message != "long array syntax"@,
        file_disabled(source).contains("no-assignment-inside-condition"@) ==> forall|i: int|
            0 <= i < file_findings(path, source).len() ==> (#[trigger] file_findings(
                path,
                source,
            )[i]).message != "assignment syntax in condition"@,
{
    reveal_strlit("multiple items");
    reveal_strlit("long array syntax");
    reveal_strlit("assignment syntax in condition");
    let disabled = file_disabled(source);
    let a = gated(
        !disabled.contains((MultipleItems).name_spec()),
        (MultipleItems).findings_spec(path, source),
    );
    let b = gated(
        !disabled.contains((NoLongArraySyntax).name_spec()),
        (NoLongArraySyntax).findings_spec(path, source),
    );
    let c = gated(
        !disabled.contains((NoAssignmentInsideCondition).name_spec()),
        (NoAssignmentInsideCondition).findings_spec(path, source),
    );
    assert forall|i: int| 0 <= i < file_findings(path, source).len() implies {
        let e = #[trigger] file_findings(path, source)[i];
        (e.message == "multiple items"@ || e.message == "long array syntax"@ || e.message
            == "assignment syntax in condition"@) && (e.message == "multiple items"@ ==> a.len()
            > 0) && (e.message == "long array syntax"@ ==> b.len() > 0) && (e.message
            == "assignment syntax in condition"@ ==> c.len() > 0)
    } by {
        let e = file_findings(path, source)[i];
        if i < a.len() {
            assert(e == a[i]);
            assert(e.message == "multiple items"@);
        } else if i < a.len() + b.len() {
            assert(e == b[i - a.len()]);
            assert(e.message == "long array syntax"@);
        } else {
            assert(e == c[i - a.len() - b.len()]);
            assert(e.message == "assignment syntax in condition"@);
        }
        assert("multiple items"@.len() == 14);
        assert("long array syntax"@.len() == 17);
        assert("assignment syntax in condition"@.len() == 30);
    }
}

} // verus!
