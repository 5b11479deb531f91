use vstd::prelude::*;

use crate::tree;
use crate::tree::ParsedFile;

verus! {

/// The whitespace characters stripped around each rule name in a directive.
pub open spec fn is_lint_space(c: char) -> bool {
    c == ' ' || c == '\t' || c == '\r' || c == '\n'
}

/// A sequence with its leading whitespace removed.
pub open spec fn trim_start_spec(s: Seq<char>) -> Seq<char>
    decreases s.len(),
{
    if s.len() > 0 && is_lint_space(s[0]) {
        trim_start_spec(s.drop_first())
    } else {
        s
    }
}

/// A sequence with its trailing whitespace removed.
pub open spec fn trim_end_spec(s: Seq<char>) -> Seq<char>
    decreases s.len(),
{
    if s.len() > 0 && is_lint_space(s.last()) {
        trim_end_spec(s.drop_last())
    } else {
        s
    }
}

/// A sequence with both leading and trailing whitespace removed.
pub open spec fn trim_spec(s: Seq<char>) -> Seq<char> {
    trim_end_spec(trim_start_spec(s))
}

/// The marker substring that introduces a disable directive in a comment.
pub open spec fn marker() -> Seq<char> {
    "linter-ignore:"@
}

/// The marker occurs in `s` starting at position `i`.
pub open spec fn marker_at(s: Seq<char>, i: int) -> bool {
    0 <= i && i + marker().len() <= s.len() && s.subrange(i, i + marker().len()) == marker()
}

/// The position of the first occurrence of the marker in `s`, or `-1`.
pub open spec fn first_marker(s: Seq<char>) -> int
    decreases s.len(),
{
    if s.len() == 0 || s.len() < marker().len() {
        -1
    } else if s.subrange(0, marker().len() as int) == marker() {
        0
    } else {
        let r = first_marker(s.drop_first());
        if r < 0 {
            -1
        } else {
            r + 1
        }
    }
}

/// The pieces of `s` between commas, in order. A sequence with no comma is
/// one piece; every comma separates two pieces.
pub open spec fn split_commas(s: Seq<char>) -> Seq<Seq<char>>
    decreases s.len(),
{
    if s.len() == 0 {
        seq![Seq::<char>::empty()]
    } else if s[0] == ',' {
        seq![Seq::<char>::empty()] + split_commas(s.drop_first())
    } else {
        let rest = split_commas(s.drop_first());
        seq![seq![s[0]] + rest[0]] + rest.drop_first()
    }
}

/// The trimmed, non-empty pieces of a piece list, in order.
pub open spec fn kept_pieces(ps: Seq<Seq<char>>) -> Seq<Seq<char>>
    decreases ps.len(),
{
    if ps.len() == 0 {
        Seq::<Seq<char>>::empty()
    } else {
        let rest = kept_pieces(ps.drop_last());
        if trim_spec(ps.last()).len() > 0 {
            rest.push(trim_spec(ps.last()))
        } else {
            rest
        }
    }
}

/// The rule names one comment disables, in the order they are written:
/// nothing without the marker; with it, the trimmed non-empty pieces of the
/// comma-separated list after the first marker.
pub open spec fn comment_disabled(c: Seq<char>) -> Seq<Seq<char>> {
    let k = first_marker(c);
    if k < 0 {
        Seq::<Seq<char>>::empty()
    } else {
        kept_pieces(split_commas(c.skip(k + marker().len())))
    }
}

/// The set of rule names disabled by a run of leading comments: the union of
/// every comment's list.
pub open spec fn disabled_lints_spec(comments: Seq<Seq<char>>) -> Set<Seq<char>> {
    Set::new(
        |n: Seq<char>|
            exists|i: int| 0 <= i < comments.len() && comment_disabled(comments[i]).contains(n),
    )
}

/// The set of rule names disabled for one file, scoped to that file.
pub struct DisabledSet {
    names: Vec<String>,
}

impl View for DisabledSet {
    type V = Set<Seq<char>>;

    closed spec fn view(&self) -> Set<Seq<char>> {
        Set::new(
            |n: Seq<char>| exists|j: int| 0 <= j < self.names@.len() && self.names@[j]@ == n,
        )
    }
}

impl DisabledSet {
    /// The set that disables nothing.
    pub fn empty() -> (r: DisabledSet)
        ensures
            r@ == Set::<Seq<char>>::empty(),
    {
        let r = DisabledSet { names: Vec::new() };
        proof {
            assert(r@ =~= Set::<Seq<char>>::empty());
        }
        r
    }

    /// Membership test, by string equality.
    pub fn contains(&self, name: &String) -> (r: bool)
        ensures
            r == self@.contains(name@),
    {
        let n = self.names.len();
        let mut j: usize = 0;
        while j < n
            invariant
                j <= n,
                n == self.names@.len(),
                forall|jj: int| 0 <= jj < j ==> self.names@[jj]@ != name@,
            decreases n - j,
        {
            if self.names[j] == *name {
                proof {
                    assert(self.names@[j as int]@ == name@);
                    assert(exists|jj: int|
                        0 <= jj < self.names@.len() && self.names@[jj]@ == name@);
                }
                return true;
            }
            j = j + 1;
        }
        false
    }
}

/// A character-by-character test for whitespace the directive parser strips.
fn is_space_char(c: char) -> (r: bool)
    ensures
        r == is_lint_space(c),
{
    c == ' ' || c == '\t' || c == '\r' || c == '\n'
}

/// `trim_start_spec` drops exactly the leading run of whitespace.
proof fn lemma_trim_start(s: Seq<char>, lo: int)
    requires
        0 <= lo <= s.len(),
        forall|j: int| 0 <= j < lo ==> is_lint_space(s[j]),
        lo == s.len() || !is_lint_space(s[lo]),
    ensures
        trim_start_spec(s) == s.skip(lo),
    decreases lo,
{
    if lo == 0 {
        assert(s.skip(0) =~= s);
    } else {
        assert(is_lint_space(s[0]));
        lemma_trim_start(s.drop_first(), lo - 1);
        assert(s.drop_first().skip(lo - 1) =~= s.skip(lo));
    }
}

/// `trim_end_spec` drops exactly the trailing run of whitespace.
proof fn lemma_trim_end(s: Seq<char>, hi: int)
    requires
        0 <= hi <= s.len(),
        forall|j: int| hi <= j < s.len() ==> is_lint_space(s[j]),
        hi == 0 || !is_lint_space(s[hi - 1]),
    ensures
        trim_end_spec(s) == s.take(hi),
    decreases s.len(),
{
    if s.len() > 0 && is_lint_space(s.last()) {
        assert(hi < s.len());
        lemma_trim_end(s.drop_last(), hi);
        assert(s.drop_last().take(hi) =~= s.take(hi));
    } else {
        assert(hi == s.len());
        assert(s.take(hi) =~= s);
    }
}

/// Trim the whitespace from both ends of a string.
pub fn trim_str(s: &str) -> (r: String)
    ensures
        r@ == trim_spec(s@),
{
    let n: usize = s.unicode_len();
    let mut lo: usize = 0;
    while lo < n && is_space_char(s.get_char(lo))
        invariant
            lo <= n,
            n == s@.len(),
            forall|j: int| 0 <= j < lo ==> is_lint_space(s@[j]),
        decreases n - lo,
    {
        lo = lo + 1;
    }
    if lo == n {
        proof {
            lemma_trim_start(s@, n as int);
            assert(s@.skip(n as int).len() == 0);
            assert(trim_end_spec(s@.skip(n as int)) == s@.skip(n as int));
            assert(trim_spec(s@) =~= Seq::<char>::empty());
        }
        return String::new();
    }
    let mut hi: usize = n;
    while hi > lo && is_space_char(s.get_char(hi - 1))
        invariant
            lo <= hi <= n,
            n == s@.len(),
            forall|j: int| hi <= j < n ==> is_lint_space(s@[j]),
        decreases hi,
    {
        hi = hi - 1;
    }
    proof {
        lemma_trim_start(s@, lo as int);
        let t = s@.skip(lo as int);
        assert(hi > lo);
        assert(!is_lint_space(s@[hi - 1]));
        assert forall|j: int| hi - lo <= j < t.len() implies is_lint_space(t[j]) by {
            assert(t[j] == s@[j + lo]);
        }
        assert(t[hi - lo - 1] == s@[hi - 1]);
        lemma_trim_end(t, hi - lo);
        assert(t.take(hi - lo) =~= s@.subrange(lo as int, hi as int));
    }
    String::from_str(s.substring_char(lo, hi))
}

/// Whether `pat` occurs in `s` at position `i`.
fn pattern_match_at(s: &str, i: usize, pat: &str, pat_len: usize) -> (r: bool)
    requires
        pat_len == pat@.len(),
        i + pat_len <= s@.len(),
        s@.len() <= usize::MAX,
    ensures
        r == (s@.subrange(i as int, i + pat@.len()) == pat@),
{
    let mut j: usize = 0;
    while j < pat_len
        invariant
            j <= pat_len,
            pat_len == pat@.len(),
            i + pat_len <= s@.len(),
            s@.len() <= usize::MAX,
            forall|jj: int| 0 <= jj < j ==> s@[i + jj] == pat@[jj],
        decreases pat_len - j,
    {
        if s.get_char(i + j) != pat.get_char(j) {
            proof {
                assert(s@.subrange(i as int, i + pat@.len())[j as int] == s@[i + j]);
            }
            return false;
        }
        j = j + 1;
    }
    proof {
        assert(s@.subrange(i as int, i + pat@.len()) =~= pat@);
    }
    true
}

/// A first occurrence seen by a scan is the first occurrence of the spec.
proof fn lemma_first_marker_found(s: Seq<char>, k: int)
    requires
        marker_at(s, k),
        forall|j: int| 0 <= j < k ==> !marker_at(s, j),
    ensures
        first_marker(s) == k,
    decreases k,
{
    reveal_strlit("linter-ignore:");
    if k == 0 {
        assert(s.subrange(0, marker().len() as int) == marker());
    } else {
        assert(!marker_at(s, 0));
        assert(s.len() >= marker().len());
        assert(s.subrange(0, marker().len() as int) != marker());
        let t = s.drop_first();
        assert(t.subrange(k - 1, k - 1 + marker().len()) =~= s.subrange(k as int, k + marker().len()));
        assert(marker_at(t, k - 1));
        assert forall|j: int| 0 <= j < k - 1 implies !marker_at(t, j) by {
            assert(t.subrange(j, j + marker().len()) =~= s.subrange(j + 1, j + 1 + marker().len()));
            assert(!marker_at(s, j + 1));
        }
        lemma_first_marker_found(t, k - 1);
    }
}

/// When no position carries the marker, the spec finds none either.
proof fn lemma_first_marker_none(s: Seq<char>)
    requires
        forall|j: int| 0 <= j ==> !marker_at(s, j),
    ensures
        first_marker(s) == -1,
    decreases s.len(),
{
    reveal_strlit("linter-ignore:");
    if s.len() >= marker().len() {
        assert(!marker_at(s, 0));
        assert(s.subrange(0, marker().len() as int) != marker());
        let t = s.drop_first();
        assert forall|j: int| 0 <= j implies !marker_at(t, j) by {
            if j + marker().len() <= t.len() {
                assert(t.subrange(j, j + marker().len()) =~= s.subrange(j + 1, j + 1 + marker().len()));
                assert(!marker_at(s, j + 1));
            }
        }
        lemma_first_marker_none(t);
    }
}

/// Scan for the first occurrence of the directive marker.
fn find_marker(s: &str) -> (r: Option<usize>)
    ensures
        match r {
            Some(k) => first_marker(s@) == k && marker_at(s@, k as int),
            None => first_marker(s@) == -1,
        },
{
    let pat = "linter-ignore:";
    proof {
        reveal_strlit("linter-ignore:");
    }
    let n: usize = s.unicode_len();
    if n < 14 {
        proof {
            lemma_first_marker_none(s@);
        }
        return None;
    }
    let mut i: usize = 0;
    while i <= n - 14
        invariant
            14 <= n == s@.len(),
            i <= n - 14 + 1,
            pat@ == marker(),
            marker().len() == 14,
            forall|j: int| 0 <= j < i ==> !marker_at(s@, j),
        decreases n - i,
    {
        proof {
            reveal_strlit("linter-ignore:");
        }
        if pattern_match_at(s, i, pat, 14) {
            proof {
                lemma_first_marker_found(s@, i as int);
            }
            return Some(i);
        }
        i = i + 1;
    }
    proof {
        assert forall|j: int| 0 <= j implies !marker_at(s@, j) by {
            if j <= n - 14 {
                assert(!marker_at(s@, j));
            }
        }
        lemma_first_marker_none(s@);
    }
    None
}

/// Splitting a comma-free sequence yields that one piece.
proof fn lemma_split_no_comma(s: Seq<char>)
    requires
        forall|j: int| 0 <= j < s.len() ==> s[j] != ',',
    ensures
        split_commas(s) == seq![s],
    decreases s.len(),
{
    reveal_with_fuel(split_commas, 2);
    if s.len() == 0 {
        assert(s =~= Seq::<char>::empty());
        assert(split_commas(s) =~~= seq![s]);
    } else {
        let t = s.drop_first();
        lemma_split_no_comma(t);
        assert(seq![s[0]] + t =~= s);
        assert(split_commas(s) =~~= seq![s]);
    }
}

/// Splitting at the first comma peels off the piece before it.
proof fn lemma_split_first_comma(s: Seq<char>, k: int)
    requires
        0 <= k < s.len(),
        s[k] == ',',
        forall|j: int| 0 <= j < k ==> s[j] != ',',
    ensures
        split_commas(s) == seq![s.take(k)] + split_commas(s.skip(k + 1)),
    decreases k,
{
    reveal_with_fuel(split_commas, 2);
    if k == 0 {
        assert(s.take(0) =~= Seq::<char>::empty());
        assert(s.skip(1) =~= s.drop_first());
        assert(split_commas(s) =~~= seq![s.take(0)] + split_commas(s.skip(1)));
    } else {
        let t = s.drop_first();
        assert(t[k - 1] == s[k]);
        lemma_split_first_comma(t, k - 1);
        assert(seq![s[0]] + t.take(k - 1) =~= s.take(k));
        assert(t.skip(k) =~= s.skip(k + 1));
        assert(split_commas(s).drop_first() =~~= (seq![s.take(k)] + split_commas(s.skip(k + 1))).drop_first());
        assert(split_commas(s)[0] == seq![s[0]] + split_commas(t)[0]);
        assert(split_commas(s) =~~= seq![s.take(k)] + split_commas(s.skip(k + 1)));
    }
}

/// `kept_pieces` distributes over list concatenation.
proof fn lemma_kept_pieces_concat(a: Seq<Seq<char>>, b: Seq<Seq<char>>)
    ensures
        kept_pieces(a + b) == kept_pieces(a) + kept_pieces(b),
    decreases b.len(),
{
    if b.len() == 0 {
        assert(a + b =~= a);
        assert(kept_pieces(a) + kept_pieces(b) =~= kept_pieces(a));
    } else {
        lemma_kept_pieces_concat(a, b.drop_last());
        assert((a + b).drop_last() =~= a + b.drop_last());
        assert((a + b).last() == b.last());
        if trim_spec(b.last()).len() > 0 {
            assert(kept_pieces(a + b) =~= kept_pieces(a) + kept_pieces(b));
        } else {
            assert(kept_pieces(a + b) =~= kept_pieces(a) + kept_pieces(b));
        }
    }
}

/// What one piece contributes to `kept_pieces`.
proof fn lemma_kept_one(p: Seq<char>)
    ensures
        trim_spec(p).len() > 0 ==> kept_pieces(seq![p]) == seq![trim_spec(p)],
        trim_spec(p).len() == 0 ==> kept_pieces(seq![p]) == Seq::<Seq<char>>::empty(),
{
    reveal_with_fuel(kept_pieces, 2);
    let ps = seq![p];
    assert(ps.drop_last() =~= Seq::<Seq<char>>::empty());
    assert(ps.last() == p);
    assert(kept_pieces(ps.drop_last()) == Seq::<Seq<char>>::empty());
    if trim_spec(p).len() > 0 {
        assert(kept_pieces(ps) =~~= seq![trim_spec(p)]);
    } else {
        assert(kept_pieces(ps) =~~= Seq::<Seq<char>>::empty());
    }
}

/// The trimmed, non-empty names in the comma-separated list held in `rest`,
/// in order.
fn split_and_keep(rest: &str) -> (r: Vec<String>)
    ensures
        r.deep_view() == kept_pieces(split_commas(rest@)),
{
    let n: usize = rest.unicode_len();
    let mut out: Vec<String> = Vec::new();
    let mut start: usize = 0;
    let mut i: usize = 0;
    proof {
        assert(rest@.skip(0) =~= rest@);
        assert(out.deep_view() =~= Seq::<Seq<char>>::empty());
    }
    while i < n
        invariant
            start <= i <= n,
            n == rest@.len(),
            forall|j: int| start <= j < i ==> rest@[j] != ',',
            out.deep_view() + kept_pieces(split_commas(rest@.skip(start as int)))
                == kept_pieces(split_commas(rest@)),
        decreases n - i,
    {
        if rest.get_char(i) == ',' {
            let ghost t = rest@.skip(start as int);
            proof {
                assert(t[i - start] == rest@[i as int]);
                assert forall|j: int| 0 <= j < i - start implies t[j] != ',' by {
                    assert(t[j] == rest@[j + start]);
                }
                lemma_split_first_comma(t, i - start);
                lemma_kept_pieces_concat(seq![t.take(i - start)], split_commas(t.skip(i - start + 1)));
                assert(seq![t.take(i - start)] + split_commas(t.skip(i - start + 1))
                    =~= split_commas(t));
                lemma_kept_one(t.take(i - start));
                assert(t.take(i - start) =~= rest@.subrange(start as int, i as int));
                assert(t.skip(i - start + 1) =~= rest@.skip(i + 1));
            }
            let piece = rest.substring_char(start, i);
            let trimmed = trim_str(piece);
            if trimmed.as_str().unicode_len() > 0 {
                let ghost old_out = out.deep_view();
                out.push(trimmed);
                proof {
                    assert(out.deep_view() =~= old_out.push(trim_spec(rest@.subrange(
                        start as int, i as int))));
                    assert(old_out.push(trim_spec(rest@.subrange(start as int, i as int)))
                        =~= old_out + seq![trim_spec(rest@.subrange(start as int, i as int))]);
                }
            }
            start = i + 1;
        }
        i = i + 1;
    }
    let ghost t = rest@.skip(start as int);
    proof {
        assert forall|j: int| 0 <= j < t.len() implies t[j] != ',' by {
            assert(t[j] == rest@[j + start]);
        }
        lemma_split_no_comma(t);
        lemma_kept_one(t);
        assert(t =~= rest@.subrange(start as int, n as int));
    }
    let piece = rest.substring_char(start, n);
    let trimmed = trim_str(piece);
    if trimmed.as_str().unicode_len() > 0 {
        let ghost old_out = out.deep_view();
        out.push(trimmed);
        proof {
            assert(out.deep_view() =~= old_out + seq![trim_spec(rest@.subrange(
                start as int, n as int))]);
        }
    }
    out
}

/// The names one comment disables, in the order they are written.
fn comment_disabled_names(c: &String) -> (r: Vec<String>)
    ensures
        r.deep_view() == comment_disabled(c@),
{
    proof {
        reveal_strlit("linter-ignore:");
    }
    match find_marker(c.as_str()) {
        None => Vec::new(),
        Some(k) => {
            let n: usize = c.as_str().unicode_len();
            let rest = c.as_str().substring_char(k + 14, n);
            split_and_keep(rest)
        },
    }
}

/// Every rule name disabled by a run of comments, in order of appearance.
pub open spec fn all_names(comments: Seq<Seq<char>>) -> Seq<Seq<char>>
    decreases comments.len(),
{
    if comments.len() == 0 {
        Seq::<Seq<char>>::empty()
    } else {
        all_names(comments.drop_last()) + comment_disabled(comments.last())
    }
}

/// Membership in the collected name list is membership in some comment's
/// list: the union semantics of `disabled_lints_spec`.
proof fn lemma_all_names_membership(cs: Seq<Seq<char>>, x: Seq<char>)
    ensures
        all_names(cs).contains(x) <==> exists|i: int|
            0 <= i < cs.len() && comment_disabled(cs[i]).contains(x),
    decreases cs.len(),
{
    if cs.len() > 0 {
        lemma_all_names_membership(cs.drop_last(), x);
        let a = all_names(cs.drop_last());
        let b = comment_disabled(cs.last());
        if (a + b).contains(x) {
            let j = choose|j: int| 0 <= j < (a + b).len() && (a + b)[j] == x;
            if j < a.len() {
                assert(a[j] == x);
                assert(a.contains(x));
            } else {
                assert(b[j - a.len()] == x);
                assert(b.contains(x));
            }
        }
        if a.contains(x) {
            let j = choose|j: int| 0 <= j < a.len() && a[j] == x;
            assert((a + b)[j] == x);
            assert((a + b).contains(x));
        }
        if b.contains(x) {
            let j = choose|j: int| 0 <= j < b.len() && b[j] == x;
            assert((a + b)[a.len() + j] == x);
            assert((a + b).contains(x));
        }
        assert forall|i: int| 0 <= i < cs.len() && comment_disabled(cs[i]).contains(x)
            implies all_names(cs).contains(x) by {
            if i < cs.len() - 1 {
                assert(cs.drop_last()[i] == cs[i]);
            } else {
                assert(cs.last() == cs[i]);
            }
        }
    }
}

/// Scan the file's leading comment run and collect every rule name that a
/// `linter-ignore:` directive in it disables. Multiple directive comments
/// union their lists.
pub fn get_disabled_lints(parsed: &ParsedFile) -> (r: DisabledSet)
    ensures
        r@ == disabled_lints_spec(tree::leading_comment_texts(parsed.source_view())),
{
    let comments = tree::leading_comments(parsed);
    let ghost cs = comments.deep_view();
    let mut names: Vec<String> = Vec::new();
    let mut k: usize = 0;
    let n = comments.len();
    proof {
        assert(cs.take(0) =~= Seq::<Seq<char>>::empty());
        assert(names.deep_view() =~= all_names(cs.take(0)));
    }
    while k < n
        invariant
            k <= n,
            n == comments@.len(),
            cs == comments.deep_view(),
            names.deep_view() == all_names(cs.take(k as int)),
        decreases n - k,
    {
        let mut list = comment_disabled_names(&comments[k]);
        let ghost old_names = names@;
        let ghost list_view = list.deep_view();
        let ghost list_vals = list@;
        proof {
            assert(comments@[k as int]@ == cs[k as int]);
        }
        names.append(&mut list);
        proof {
            assert(names.deep_view() =~= old_names.map(
                |i: int, s: String| s@,
            ) + list_view) by {
                assert(names@ == old_names + list_vals);
                assert(names.deep_view().len() == old_names.len() + list_view.len());
                assert forall|j: int| 0 <= j < names.deep_view().len()
                    implies names.deep_view()[j] == (old_names.map(|i: int, s: String| s@)
                    + list_view)[j] by {
                    if j < old_names.len() {
                        assert(names@[j] == old_names[j]);
                    } else {
                        assert(names@[j] == list_vals[j - old_names.len()]);
                        assert(list_view[j - old_names.len()] == list_vals[j - old_names.len()]@);
                    }
                }
            }
            assert(old_names.map(|i: int, s: String| s@) =~= all_names(cs.take(k as int)));
            assert(cs.take(k + 1).drop_last() =~= cs.take(k as int));
            assert(cs.take(k + 1).last() == cs[k as int]);
            assert(names.deep_view() =~= all_names(cs.take(k + 1)));
        }
        k = k + 1;
    }
    let r = DisabledSet { names };
    proof {
        assert(cs.take(n as int) =~= cs);
        assert forall|x: Seq<char>| r@.contains(x) implies disabled_lints_spec(cs).contains(x) by {
            let j = choose|j: int| 0 <= j < r.names@.len() && r.names@[j]@ == x;
            assert(r.names.deep_view()[j] == x);
            assert(all_names(cs).contains(x));
            lemma_all_names_membership(cs, x);
        }
        assert forall|x: Seq<char>| disabled_lints_spec(cs).contains(x) implies r@.contains(x) by {
            lemma_all_names_membership(cs, x);
            assert(all_names(cs).contains(x));
            let j = choose|j: int| 0 <= j < all_names(cs).len() && all_names(cs)[j] == x;
            assert(r.names.deep_view()[j] == x);
            assert(r.names@[j]@ == x);
        }
        assert(r@ =~= disabled_lints_spec(cs));
    }
    r
}

} // verus!
