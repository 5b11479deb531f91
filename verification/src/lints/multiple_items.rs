use vstd::prelude::*;

use crate::directive::DisabledSet;
use crate::errors::{LintError, LintErrorView};
use crate::lints::{errors_at_rows, findings_from_rows, Lint};
use crate::tree;
use crate::tree::ParsedFile;

verus! {

/// Every row of an item-declaration match except the first: the first
/// declaration is the file's primary item and is exempt.
pub open spec fn reported_item_rows(rows: Seq<usize>) -> Seq<usize> {
    if rows.len() == 0 {
        rows
    } else {
        rows.skip(1)
    }
}

/// Reports every class, trait or interface declaration after the file's
/// first one, in file order.
pub struct MultipleItems;

impl Lint for MultipleItems {
    open spec fn name_spec(&self) -> Seq<char> {
        "multiple-items"@
    }

    open spec fn findings_spec(&self, path: Seq<char>, source: Seq<char>) -> Seq<LintErrorView> {
        findings_from_rows(
            path,
            "multiple items"@,
            reported_item_rows(tree::item_declaration_rows(source)),
        )
    }

    fn should_apply(&self, disabled: &DisabledSet) -> (r: bool) {
        let name = String::from_str("multiple-items");
        !disabled.contains(&name)
    }

    fn check(&self, parsed: &ParsedFile) -> (r: Vec<LintError>) {
        let rows = tree::item_query_rows(parsed);
        let start: usize = if rows.len() == 0 {
            0
        } else {
            1
        };
        proof {
            assert(rows@.skip(start as int) =~= reported_item_rows(tree::item_declaration_rows(
                parsed.source_view())));
        }
        errors_at_rows(parsed.path(), "multiple items", &rows, start)
    }
}

} // verus!
