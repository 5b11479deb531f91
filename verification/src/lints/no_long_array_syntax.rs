use vstd::prelude::*;

use crate::directive::DisabledSet;
use crate::errors::{LintError, LintErrorView};
use crate::lints::{errors_at_rows, findings_from_rows, Lint};
use crate::tree;
use crate::tree::ParsedFile;

verus! {

/// Reports every array-construction expression that uses the verbose
/// `array(...)` keyword form, in file order.
pub struct NoLongArraySyntax;

impl Lint for NoLongArraySyntax {
    open spec fn name_spec(&self) -> Seq<char> {
        "no-long-array-syntax"@
    }

    open spec fn findings_spec(&self, path: Seq<char>, source: Seq<char>) -> Seq<LintErrorView> {
        findings_from_rows(path, "long array syntax"@, tree::long_array_rows(source))
    }

    fn should_apply(&self, disabled: &DisabledSet) -> (r: bool) {
        let name = String::from_str("no-long-array-syntax");
        !disabled.contains(&name)
    }

    fn check(&self, parsed: &ParsedFile) -> (r: Vec<LintError>) {
        let rows = tree::long_array_query_rows(parsed);
        proof {
            assert(rows@.skip(0) =~= tree::long_array_rows(parsed.source_view()));
        }
        errors_at_rows(parsed.path(), "long array syntax", &rows, 0)
    }
}

} // verus!
