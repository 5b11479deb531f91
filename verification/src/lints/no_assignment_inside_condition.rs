use vstd::prelude::*;

use crate::directive::DisabledSet;
use crate::errors::{LintError, LintErrorView};
use crate::lints::{errors_at_rows, findings_from_rows, Lint};
use crate::tree;
use crate::tree::ParsedFile;

verus! {

/// The row of the first assignment in each condition that has one, in file
/// order: later assignments in the same condition are not reported again.
pub open spec fn first_assignment_rows(conds: Seq<Seq<usize>>) -> Seq<usize>
    decreases conds.len(),
{
    if conds.len() == 0 {
        Seq::<usize>::empty()
    } else {
        let rest = first_assignment_rows(conds.drop_last());
        if conds.last().len() > 0 {
            rest.push(conds.last()[0])
        } else {
            rest
        }
    }
}

/// Reports the first assignment expression found inside each `if`
/// statement's condition, and only the first per condition.
pub struct NoAssignmentInsideCondition;

impl Lint for NoAssignmentInsideCondition {
    open spec fn name_spec(&self) -> Seq<char> {
        "no-assignment-inside-condition"@
    }

    open spec fn findings_spec(&self, path: Seq<char>, source: Seq<char>) -> Seq<LintErrorView> {
        findings_from_rows(
            path,
            "assignment syntax in condition"@,
            first_assignment_rows(tree::condition_assignment_rows(source)),
        )
    }

    fn should_apply(&self, disabled: &DisabledSet) -> (r: bool) {
        let name = String::from_str("no-assignment-inside-condition");
        !disabled.contains(&name)
    }

    fn check(&self, parsed: &ParsedFile) -> (r: Vec<LintError>) {
        let conds = tree::condition_assignment_query_rows(parsed);
        let ghost cv = conds.deep_view();
        let n = conds.len();
        let mut firsts: Vec<usize> = Vec::new();
        let mut i: usize = 0;
        proof {
            assert(cv.take(0) =~= Seq::<Seq<usize>>::empty());
            assert(firsts@ =~= first_assignment_rows(cv.take(0)));
        }
        while i < n
            invariant
                i <= n,
                n == conds@.len(),
                cv == conds.deep_view(),
                firsts@ == first_assignment_rows(cv.take(i as int)),
            decreases n - i,
        {
            proof {
                assert(cv[i as int] == conds@[i as int]@);
                assert(cv.take(i + 1).drop_last() =~= cv.take(i as int));
                assert(cv.take(i + 1).last() == cv[i as int]);
            }
            let cond = &conds[i];
            if cond.len() > 0 {
                firsts.push(cond[0]);
            }
            i = i + 1;
        }
        proof {
            assert(cv.take(n as int) =~= cv);
            assert(firsts@.skip(0) =~= first_assignment_rows(tree::condition_assignment_rows(
                parsed.source_view())));
        }
        errors_at_rows(parsed.path(), "assignment syntax in condition", &firsts, 0)
    }
}

} // verus!
