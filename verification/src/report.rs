use vstd::prelude::*;

use crate::errors::{error_le, lemma_error_le_total, lemma_error_le_trans, LintError, LintErrorView};

verus! {

/// The final report's order: non-decreasing in the error model's total
/// order, file path first, line number second.
pub open spec fn sorted_findings(s: Seq<LintErrorView>) -> bool {
    forall|i: int, j: int| 0 <= i < j < s.len() ==> error_le(s[i], s[j])
}

/// Insertion of one finding into a report: it goes after every finding
/// that does not come strictly after it, so equal keys keep their
/// first-come order.
pub open spec fn insert_sorted(e: LintErrorView, s: Seq<LintErrorView>) -> Seq<LintErrorView>
    decreases s.len(),
{
    if s.len() == 0 {
        seq![e]
    } else if error_le(s.last(), e) {
        s.push(e)
    } else {
        insert_sorted(e, s.drop_last()).push(s.last())
    }
}

/// The sorted report of a finding list: a stable insertion sort in the
/// error model's total order.
pub open spec fn sort_spec(s: Seq<LintErrorView>) -> Seq<LintErrorView>
    decreases s.len(),
{
    if s.len() == 0 {
        s
    } else {
        insert_sorted(s.last(), sort_spec(s.drop_last()))
    }
}

/// Where the insertion lands: before the first element that comes strictly
/// after `e`, counted from the end.
proof fn lemma_insert_at(e: LintErrorView, s: Seq<LintErrorView>, j: int)
    requires
        0 <= j <= s.len(),
        j == 0 || error_le(s[j - 1], e),
        forall|k: int| j <= k < s.len() ==> !error_le(s[k], e),
    ensures
        insert_sorted(e, s) == s.take(j).push(e) + s.skip(j),
    decreases s.len(),
{
    if s.len() == 0 {
        assert(insert_sorted(e, s) =~= s.take(0).push(e) + s.skip(0));
    } else if j == s.len() {
        assert(error_le(s.last(), e));
        assert(s.take(j) =~= s);
        assert(s.skip(j) =~= Seq::<LintErrorView>::empty());
        assert(insert_sorted(e, s) =~= s.take(j).push(e) + s.skip(j));
    } else {
        assert(!error_le(s.last(), e));
        let d = s.drop_last();
        lemma_insert_at(e, d, j);
        assert(d.take(j) =~= s.take(j));
        assert((d.take(j).push(e) + d.skip(j)).push(s.last()) =~= s.take(j).push(e) + s.skip(j));
    }
}

/// What insertion does to a report: one longer, same contents plus `e`,
/// and still sorted.
proof fn lemma_insert_sorted_props(e: LintErrorView, s: Seq<LintErrorView>)
    ensures
        insert_sorted(e, s).len() == s.len() + 1,
        insert_sorted(e, s).to_multiset() == s.to_multiset().insert(e),
        sorted_findings(s) ==> sorted_findings(insert_sorted(e, s)),
        forall|x: LintErrorView| #[trigger] insert_sorted(e, s).contains(x) ==> x == e
            || s.contains(x),
    decreases s.len(),
{
    broadcast use vstd::seq_lib::group_to_multiset_ensures;

    if s.len() == 0 {
        assert(insert_sorted(e, s) =~= Seq::<LintErrorView>::empty().push(e));
        assert(Seq::<LintErrorView>::empty().push(e).to_multiset() =~= Seq::<
            LintErrorView,
        >::empty().to_multiset().insert(e));
        assert forall|x: LintErrorView| #[trigger] insert_sorted(e, s).contains(x) implies x == e
            || s.contains(x) by {
            let k = choose|k: int| 0 <= k < insert_sorted(e, s).len() && insert_sorted(e, s)[k]
                == x;
            assert(insert_sorted(e, s)[0] == e);
        }
    } else if error_le(s.last(), e) {
        assert(insert_sorted(e, s) == s.push(e));
        if sorted_findings(s) {
            assert forall|i: int, j: int| 0 <= i < j < s.push(e).len() implies error_le(
                s.push(e)[i],
                s.push(e)[j],
            ) by {
                if j < s.len() {
                } else {
                    assert(s.push(e)[j] == e);
                    if i < s.len() - 1 {
                        assert(error_le(s[i], s[s.len() - 1]));
                        lemma_error_le_trans(s[i], s[s.len() - 1], e);
                    }
                }
            }
        }
        assert forall|x: LintErrorView| #[trigger] insert_sorted(e, s).contains(x) implies x == e
            || s.contains(x) by {
            let k = choose|k: int| 0 <= k < insert_sorted(e, s).len() && insert_sorted(e, s)[k]
                == x;
            if k < s.len() {
                assert(s[k] == x);
            }
        }
    } else {
        let d = s.drop_last();
        lemma_insert_sorted_props(e, d);
        let t = insert_sorted(e, d);
        assert(insert_sorted(e, s) == t.push(s.last()));
        assert(d.push(s.last()) =~= s);
        assert(s.to_multiset() == d.to_multiset().insert(s.last()));
        assert(t.push(s.last()).to_multiset() == t.to_multiset().insert(s.last()));
        assert(t.push(s.last()).to_multiset() =~= s.to_multiset().insert(e));
        if sorted_findings(s) {
            assert forall|i: int, j: int| 0 <= i < j < d.len() implies error_le(d[i], d[j]) by {
                assert(d[i] == s[i]);
                assert(d[j] == s[j]);
            }
            assert(sorted_findings(d));
            assert(sorted_findings(t));
            lemma_error_le_total(s.last(), e);
            assert(error_le(e, s.last()));
            assert forall|i: int, j: int| 0 <= i < j < t.push(s.last()).len() implies error_le(
                t.push(s.last())[i],
                t.push(s.last())[j],
            ) by {
                if j < t.len() {
                } else {
                    assert(t.push(s.last())[j] == s.last());
                    let x = t[i];
                    assert(t.contains(x));
                    if x == e {
                        assert(error_le(x, s.last()));
                    } else {
                        assert(d.contains(x));
                        let k = choose|k: int| 0 <= k < d.len() && d[k] == x;
                        assert(error_le(s[k], s[s.len() - 1]));
                        assert(error_le(x, s.last()));
                    }
                }
            }
        }
        assert forall|x: LintErrorView| #[trigger] insert_sorted(e, s).contains(x) implies x == e
            || s.contains(x) by {
            let k = choose|k: int| 0 <= k < insert_sorted(e, s).len() && insert_sorted(e, s)[k]
                == x;
            if k < t.len() {
                assert(t[k] == x);
                assert(t.contains(x));
                if x != e {
                    let m = choose|m: int| 0 <= m < d.len() && d[m] == x;
                    assert(s[m] == x);
                }
            } else {
                assert(x == s.last());
                assert(s[s.len() - 1] == x);
            }
        }
    }
}

/// The sorted report holds the same findings, sorted.
pub proof fn lemma_sort_spec_props(s: Seq<LintErrorView>)
    ensures
        sort_spec(s).len() == s.len(),
        sort_spec(s).to_multiset() == s.to_multiset(),
        sorted_findings(sort_spec(s)),
    decreases s.len(),
{
    broadcast use vstd::seq_lib::group_to_multiset_ensures;

    if s.len() == 0 {
    } else {
        let d = s.drop_last();
        lemma_sort_spec_props(d);
        lemma_insert_sorted_props(s.last(), sort_spec(d));
        assert(d.push(s.last()) =~= s);
        assert(s.to_multiset() == d.to_multiset().insert(s.last()));
        assert(sort_spec(s).to_multiset() =~= s.to_multiset());
    }
}

/// The findings that carry one (file, line) key, in their original order.
pub open spec fn key_filter(s: Seq<LintErrorView>, f: Seq<char>, l: usize) -> Seq<LintErrorView> {
    s.filter(|e: LintErrorView| e.file == f && e.line == l)
}

/// Two findings with one key precede each other in the error model's order.
proof fn lemma_same_key_le(a: LintErrorView, b: LintErrorView)
    requires
        a.file == b.file,
        a.line == b.line,
    ensures
        error_le(a, b),
{
}

/// Inserting never crosses a finding of the same key, so each key's filter
/// gains `e` at its end exactly when `e` carries that key.
proof fn lemma_insert_key_filter(e: LintErrorView, s: Seq<LintErrorView>, f: Seq<char>, l: usize)
    ensures
        key_filter(insert_sorted(e, s), f, l) == key_filter(s, f, l) + (if e.file == f && e.line
            == l {
            seq![e]
        } else {
            Seq::<LintErrorView>::empty()
        }),
    decreases s.len(),
{
    reveal(Seq::filter);
    let p = |x: LintErrorView| x.file == f && x.line == l;
    let tail: Seq<LintErrorView> = if e.file == f && e.line == l {
        seq![e]
    } else {
        Seq::<LintErrorView>::empty()
    };
    if s.len() == 0 {
        let one = insert_sorted(e, s);
        assert(one =~= Seq::<LintErrorView>::empty().push(e));
        assert(one.drop_last() =~= Seq::<LintErrorView>::empty());
        assert(one.filter(p) == if p(e) {
            one.drop_last().filter(p).push(e)
        } else {
            one.drop_last().filter(p)
        });
        assert(key_filter(insert_sorted(e, s), f, l) =~= key_filter(s, f, l) + tail);
    } else if error_le(s.last(), e) {
        let x = s.push(e);
        assert(insert_sorted(e, s) == x);
        assert(x.drop_last() =~= s);
        assert(x.last() == e);
        assert(x.filter(p) == if p(e) {
            s.filter(p).push(e)
        } else {
            s.filter(p)
        });
        assert(key_filter(insert_sorted(e, s), f, l) =~= key_filter(s, f, l) + tail);
    } else {
        let d = s.drop_last();
        lemma_insert_key_filter(e, d, f, l);
        let t = insert_sorted(e, d);
        let x = t.push(s.last());
        assert(insert_sorted(e, s) == x);
        assert(x.drop_last() =~= t);
        assert(x.last() == s.last());
        assert(x.filter(p) == if p(s.last()) {
            t.filter(p).push(s.last())
        } else {
            t.filter(p)
        });
        assert(s.drop_last() == d);
        assert(s.filter(p) == if p(s.last()) {
            d.filter(p).push(s.last())
        } else {
            d.filter(p)
        });
        if p(e) && p(s.last()) {
            lemma_same_key_le(s.last(), e);
            assert(false);
        }
        if p(s.last()) {
            assert(tail =~= Seq::<LintErrorView>::empty());
            assert(t.filter(p) == d.filter(p) + tail);
            assert(t.filter(p) =~= d.filter(p));
            assert(x.filter(p) =~= s.filter(p) + tail);
        } else {
            assert(x.filter(p) == t.filter(p));
            assert(x.filter(p) =~= s.filter(p) + tail);
        }
        assert(key_filter(insert_sorted(e, s), f, l) =~= key_filter(s, f, l) + tail);
    }
}

/// Stability: for every (file, line) key, the sorted report lists that
/// key's findings in exactly their first-come order.
pub proof fn lemma_sort_spec_stable(s: Seq<LintErrorView>, f: Seq<char>, l: usize)
    ensures
        key_filter(sort_spec(s), f, l) == key_filter(s, f, l),
    decreases s.len(),
{
    reveal(Seq::filter);
    let p = |x: LintErrorView| x.file == f && x.line == l;
    if s.len() > 0 {
        let d = s.drop_last();
        lemma_sort_spec_stable(d, f, l);
        lemma_insert_key_filter(s.last(), sort_spec(d), f, l);
        let tail: Seq<LintErrorView> = if s.last().file == f && s.last().line == l {
            seq![s.last()]
        } else {
            Seq::<LintErrorView>::empty()
        };
        assert(key_filter(sort_spec(s), f, l) == key_filter(d, f, l) + tail);
        assert(s.filter(p) == if p(s.last()) {
            d.filter(p).push(s.last())
        } else {
            d.filter(p)
        });
        assert(key_filter(sort_spec(s), f, l) =~= key_filter(s, f, l));
    }
}

/// `key_filter` taken off the front: the head contributes itself exactly
/// when it carries the key.
proof fn lemma_key_filter_head(s: Seq<LintErrorView>, f: Seq<char>, l: usize)
    requires
        s.len() > 0,
    ensures
        key_filter(s, f, l) == (if s[0].file == f && s[0].line == l {
            seq![s[0]]
        } else {
            Seq::<LintErrorView>::empty()
        }) + key_filter(s.drop_first(), f, l),
    decreases s.len(),
{
    reveal(Seq::filter);
    let p = |x: LintErrorView| x.file == f && x.line == l;
    let head: Seq<LintErrorView> = if p(s[0]) {
        seq![s[0]]
    } else {
        Seq::<LintErrorView>::empty()
    };
    if s.len() == 1 {
        assert(s.drop_last() =~= Seq::<LintErrorView>::empty());
        assert(s.drop_first() =~= Seq::<LintErrorView>::empty());
        assert(s.last() == s[0]);
        assert(s.filter(p) == if p(s[0]) {
            Seq::<LintErrorView>::empty().filter(p).push(s[0])
        } else {
            Seq::<LintErrorView>::empty().filter(p)
        });
        assert(key_filter(s, f, l) =~= head + key_filter(s.drop_first(), f, l));
    } else {
        let d = s.drop_last();
        lemma_key_filter_head(d, f, l);
        assert(d[0] == s[0]);
        let t = s.drop_first();
        assert(t.len() > 0);
        assert(t.drop_last() =~= d.drop_first());
        assert(t.last() == s.last());
        assert(s.filter(p) == if p(s.last()) {
            d.filter(p).push(s.last())
        } else {
            d.filter(p)
        });
        assert(t.filter(p) == if p(t.last()) {
            t.drop_last().filter(p).push(t.last())
        } else {
            t.drop_last().filter(p)
        });
        if p(s.last()) {
            assert(s.filter(p) =~= head + (d.drop_first().filter(p).push(s.last())));
            assert(key_filter(s, f, l) =~= head + key_filter(t, f, l));
        } else {
            assert(key_filter(s, f, l) =~= head + key_filter(t, f, l));
        }
    }
}

/// Whatever a key's filter holds, the list holds.
proof fn lemma_key_filter_sub(s: Seq<LintErrorView>, f: Seq<char>, l: usize, x: LintErrorView)
    requires
        key_filter(s, f, l).contains(x),
    ensures
        s.contains(x),
    decreases s.len(),
{
    reveal(Seq::filter);
    let p = |e: LintErrorView| e.file == f && e.line == l;
    assert(s.len() > 0);
    let d = s.drop_last();
    assert(s.filter(p) == if p(s.last()) {
        d.filter(p).push(s.last())
    } else {
        d.filter(p)
    });
    let k = choose|k: int| 0 <= k < s.filter(p).len() && s.filter(p)[k] == x;
    if k < d.filter(p).len() {
        assert(d.filter(p)[k] == x);
        assert(d.filter(p).contains(x));
        lemma_key_filter_sub(d, f, l, x);
        let m = choose|m: int| 0 <= m < d.len() && d[m] == x;
        assert(s[m] == x);
    } else {
        assert(x == s.last());
        assert(s[s.len() - 1] == x);
    }
}

/// Keys are ordered: mutual `error_le` means one (file, line) key.
proof fn lemma_key_antisym(a: LintErrorView, b: LintErrorView)
    requires
        error_le(a, b),
        error_le(b, a),
    ensures
        a.file == b.file,
        a.line == b.line,
{
    crate::errors::lemma_seq_lt_asym(a.file, b.file);
}

/// Two sorted reports that agree on every key's findings are one report.
proof fn lemma_sorted_key_filters_unique(x: Seq<LintErrorView>, y: Seq<LintErrorView>)
    requires
        sorted_findings(x),
        sorted_findings(y),
        forall|f: Seq<char>, l: usize| #[trigger] key_filter(x, f, l) == key_filter(y, f, l),
    ensures
        x == y,
    decreases x.len() + y.len(),
{
    reveal(Seq::filter);
    if x.len() == 0 && y.len() == 0 {
        assert(x =~= y);
    } else if x.len() == 0 {
        let b = y[0];
        lemma_key_filter_head(y, b.file, b.line);
        assert(key_filter(y, b.file, b.line).len() > 0);
        assert(key_filter(x, b.file, b.line).len() == 0);
        assert(false);
    } else if y.len() == 0 {
        let a = x[0];
        lemma_key_filter_head(x, a.file, a.line);
        assert(key_filter(y, a.file, a.line).len() == 0);
        assert(false);
    } else {
        let a = x[0];
        let b = y[0];
        lemma_key_filter_head(x, a.file, a.line);
        lemma_key_filter_head(y, b.file, b.line);
        assert(key_filter(x, a.file, a.line)[0] == a);
        assert(key_filter(y, b.file, b.line)[0] == b);
        assert(key_filter(y, a.file, a.line)[0] == a);
        assert(key_filter(y, a.file, a.line).contains(a));
        lemma_key_filter_sub(y, a.file, a.line, a);
        assert(key_filter(x, b.file, b.line).contains(b));
        lemma_key_filter_sub(x, b.file, b.line, b);
        let ka = choose|k: int| 0 <= k < y.len() && y[k] == a;
        let kb = choose|k: int| 0 <= k < x.len() && x[k] == b;
        if ka > 0 {
            assert(error_le(y[0], y[ka]));
        }
        if kb > 0 {
            assert(error_le(x[0], x[kb]));
        }
        if a != b {
            assert(error_le(b, a));
            assert(error_le(a, b));
            lemma_key_antisym(a, b);
            assert(key_filter(y, a.file, a.line)[0] == b);
            assert(false);
        }
        assert(a == b);
        let xt = x.drop_first();
        let yt = y.drop_first();
        assert forall|i: int, j: int| 0 <= i < j < xt.len() implies error_le(xt[i], xt[j]) by {
            assert(xt[i] == x[i + 1]);
            assert(xt[j] == x[j + 1]);
        }
        assert forall|i: int, j: int| 0 <= i < j < yt.len() implies error_le(yt[i], yt[j]) by {
            assert(yt[i] == y[i + 1]);
            assert(yt[j] == y[j + 1]);
        }
        assert forall|f: Seq<char>, l: usize| #[trigger] key_filter(xt, f, l) == key_filter(
            yt,
            f,
            l,
        ) by {
            lemma_key_filter_head(x, f, l);
            lemma_key_filter_head(y, f, l);
            let head: Seq<LintErrorView> = if a.file == f && a.line == l {
                seq![a]
            } else {
                Seq::<LintErrorView>::empty()
            };
            assert(key_filter(x, f, l) == head + key_filter(xt, f, l));
            assert(key_filter(y, f, l) == head + key_filter(yt, f, l));
            assert(key_filter(xt, f, l) =~= (head + key_filter(xt, f, l)).skip(
                head.len() as int,
            ));
            assert(key_filter(yt, f, l) =~= (head + key_filter(yt, f, l)).skip(
                head.len() as int,
            ));
        }
        lemma_sorted_key_filters_unique(xt, yt);
        assert(x =~= seq![a] + xt);
        assert(y =~= seq![b] + yt);
    }
}

/// Concurrency independence: two collected finding lists that agree, key by
/// key, on each key's findings and their order — as every interleaving of
/// the per-file batches does, since findings of one file share its path and
/// arrive in their file's order — sort to the identical report, whatever
/// the worker count or arrival order.
pub proof fn lemma_report_order_independent(v1: Seq<LintErrorView>, v2: Seq<LintErrorView>)
    requires
        forall|f: Seq<char>, l: usize| #[trigger] key_filter(v1, f, l) == key_filter(v2, f, l),
    ensures
        sort_spec(v1) == sort_spec(v2),
{
    lemma_sort_spec_props(v1);
    lemma_sort_spec_props(v2);
    assert forall|f: Seq<char>, l: usize| #[trigger] key_filter(sort_spec(v1), f, l)
        == key_filter(sort_spec(v2), f, l) by {
        lemma_sort_spec_stable(v1, f, l);
        lemma_sort_spec_stable(v2, f, l);
    }
    lemma_sorted_key_filters_unique(sort_spec(v1), sort_spec(v2));
}

/// The findings that carry one file path, in their original order.
pub open spec fn file_filter(s: Seq<LintErrorView>, f: Seq<char>) -> Seq<LintErrorView> {
    s.filter(|e: LintErrorView| e.file == f)
}

/// A key's findings are found inside its file's findings.
proof fn lemma_key_of_file_filter(s: Seq<LintErrorView>, f: Seq<char>, l: usize)
    ensures
        key_filter(s, f, l) == key_filter(file_filter(s, f), f, l),
    decreases s.len(),
{
    reveal(Seq::filter);
    let pk = |e: LintErrorView| e.file == f && e.line == l;
    let pf = |e: LintErrorView| e.file == f;
    if s.len() == 0 {
        assert(s.filter(pf).filter(pk) =~= s.filter(pk));
    } else {
        let d = s.drop_last();
        lemma_key_of_file_filter(d, f, l);
        assert(s.filter(pf) == if pf(s.last()) {
            d.filter(pf).push(s.last())
        } else {
            d.filter(pf)
        });
        assert(s.filter(pk) == if pk(s.last()) {
            d.filter(pk).push(s.last())
        } else {
            d.filter(pk)
        });
        if pf(s.last()) {
            let t = d.filter(pf).push(s.last());
            assert(t.drop_last() =~= d.filter(pf));
            assert(t.last() == s.last());
            assert(t.filter(pk) == if pk(s.last()) {
                d.filter(pf).filter(pk).push(s.last())
            } else {
                d.filter(pf).filter(pk)
            });
        }
        assert(key_filter(s, f, l) =~= key_filter(file_filter(s, f), f, l));
    }
}

/// Concurrency independence, file by file: two collected finding lists in
/// which every file's findings appear in that file's own order — as in any
/// drain of a channel whose per-file producers send in order — sort to the
/// identical report, whatever the worker count or arrival interleaving.
pub proof fn lemma_report_worker_count_independent(v1: Seq<LintErrorView>, v2: Seq<LintErrorView>)
    requires
        forall|f: Seq<char>| #[trigger] file_filter(v1, f) == file_filter(v2, f),
    ensures
        sort_spec(v1) == sort_spec(v2),
{
    assert forall|f: Seq<char>, l: usize| #[trigger] key_filter(v1, f, l) == key_filter(
        v2,
        f,
        l,
    ) by {
        lemma_key_of_file_filter(v1, f, l);
        lemma_key_of_file_filter(v2, f, l);
        assert(file_filter(v1, f) == file_filter(v2, f));
    }
    lemma_report_order_independent(v1, v2);
}

/// Put one finding where it belongs in an already sorted report.
fn insert_finding(out: &mut Vec<LintError>, e: LintError)
    ensures
        final(out).deep_view() == insert_sorted(e.deep_view(), old(out).deep_view()),
{
    let ghost s = out.deep_view();
    let ghost ev = e.deep_view();
    let n = out.len();
    let mut j: usize = n;
    loop
        invariant
            j <= n,
            n == out@.len(),
            s == out.deep_view(),
            ev == e.deep_view(),
            forall|k: int| j <= k < n ==> !error_le(s[k], ev),
        ensures
            j <= n,
            j == 0 || error_le(s[j - 1], ev),
            forall|k: int| j <= k < n ==> !error_le(s[k], ev),
        decreases j,
    {
        if j == 0 {
            break;
        }
        proof {
            assert(out@[j - 1].deep_view() == s[j - 1]);
        }
        if out[j - 1].le(&e) {
            break;
        }
        proof {
            assert(!error_le(s[j - 1], ev));
        }
        j = j - 1;
    }
    proof {
        if j > 0 {
            assert(out@[j - 1].deep_view() == s[j - 1]);
        }
        lemma_insert_at(ev, s, j as int);
    }
    out.insert(j, e);
    proof {
        assert forall|k: int| 0 <= k < out.deep_view().len() implies out.deep_view()[k]
            == (s.take(j as int).push(ev) + s.skip(j as int))[k] by {
            assert(out@[k] == old(out)@.insert(j as int, e)[k]);
            if k < j {
                assert(out@[k] == old(out)@[k]);
            } else if k == j {
                assert(out@[k] == e);
            } else {
                assert(out@[k] == old(out)@[k - 1]);
            }
        }
        assert(out.deep_view() =~= insert_sorted(ev, s));
    }
}

/// Sort a finding list into the report order: by file path, then line
/// number, equal keys keeping their first-come order.
pub fn sort_findings(v: Vec<LintError>) -> (r: Vec<LintError>)
    ensures
        r.deep_view() == sort_spec(v.deep_view()),
        sorted_findings(r.deep_view()),
        r.deep_view().to_multiset() == v.deep_view().to_multiset(),
        forall|f: Seq<char>, l: usize| #[trigger] key_filter(r.deep_view(), f, l) == key_filter(
            v.deep_view(),
            f,
            l,
        ),
{
    let ghost s = v.deep_view();
    let mut w = v;
    let mut out: Vec<LintError> = Vec::new();
    let ghost i_done: int = 0;
    proof {
        assert(w.deep_view() =~= s.skip(0));
        assert(s.take(0) =~= Seq::<LintErrorView>::empty());
        assert(out.deep_view() =~= sort_spec(s.take(0)));
    }
    while w.len() > 0
        invariant
            0 <= i_done <= s.len(),
            w@.len() == s.len() - i_done,
            w.deep_view() == s.skip(i_done),
            out.deep_view() == sort_spec(s.take(i_done)),
        decreases w@.len(),
    {
        let ghost wv = w@;
        let ghost wdv = w.deep_view();
        let e = w.remove(0);
        proof {
            assert(e.deep_view() == s.skip(i_done)[0]);
            assert(s.skip(i_done)[0] == s[i_done]);
            assert forall|k: int| 0 <= k < w.deep_view().len() implies w.deep_view()[k] == s.skip(
                i_done + 1,
            )[k] by {
                assert(w@[k] == wv.remove(0)[k]);
                assert(wv.remove(0)[k] == wv[k + 1]);
                assert(wdv[k + 1] == wv[k + 1].deep_view());
                assert(wdv[k + 1] == s.skip(i_done)[k + 1]);
                assert(s.skip(i_done)[k + 1] == s[i_done + 1 + k]);
                assert(s.skip(i_done + 1)[k] == s[i_done + 1 + k]);
            }
            assert(w.deep_view() =~= s.skip(i_done + 1));
        }
        insert_finding(&mut out, e);
        proof {
            let t = s.take(i_done + 1);
            assert(t.len() > 0);
            assert(t.last() == s[i_done]);
            assert(t.drop_last() =~= s.take(i_done));
            assert(out.deep_view() == insert_sorted(s[i_done], sort_spec(s.take(i_done))));
            assert(sort_spec(t) == insert_sorted(t.last(), sort_spec(t.drop_last())));
            assert(out.deep_view() == sort_spec(s.take(i_done + 1)));
        }
        proof {
            i_done = i_done + 1;
        }
    }
    proof {
        assert(s.take(i_done) =~= s);
        lemma_sort_spec_props(s);
        assert forall|f: Seq<char>, l: usize| #[trigger] key_filter(out.deep_view(), f, l)
            == key_filter(s, f, l) by {
            lemma_sort_spec_stable(s, f, l);
        }
    }
    out
}

} // verus!
