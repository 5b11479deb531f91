use vstd::prelude::*;

verus! {

/// A single reported rule violation: a human-readable message, the path of
/// the offending file, and a 1-based line number.
pub struct LintError {
    pub message: String,
    pub file: String,
    pub line: usize,
}

/// The mathematical value of a `LintError`: the same three attributes over
/// character sequences.
pub struct LintErrorView {
    pub message: Seq<char>,
    pub file: Seq<char>,
    pub line: usize,
}

impl DeepView for LintError {
    type V = LintErrorView;

    open spec fn deep_view(&self) -> LintErrorView {
        LintErrorView { message: self.message@, file: self.file@, line: self.line }
    }
}

/// Strict lexicographic order on character sequences, by Unicode scalar value.
pub open spec fn seq_lt(a: Seq<char>, b: Seq<char>) -> bool
    decreases a.len(),
{
    if b.len() == 0 {
        false
    } else if a.len() == 0 {
        true
    } else if (a[0] as u32) < (b[0] as u32) {
        true
    } else if (a[0] as u32) > (b[0] as u32) {
        false
    } else {
        seq_lt(a.drop_first(), b.drop_first())
    }
}

/// The error model's total order: primary key the file path (lexical),
/// secondary key the line number.
pub open spec fn error_le(a: LintErrorView, b: LintErrorView) -> bool {
    seq_lt(a.file, b.file) || (a.file == b.file && a.line <= b.line)
}

/// Two characters with the same Unicode scalar value are the same character.
proof fn lemma_char_eq(c: char, d: char)
    requires
        c as u32 == d as u32,
    ensures
        c == d,
{
    vstd::utf8::char_u32_cast(c, c as u32);
    vstd::utf8::char_u32_cast(d, d as u32);
}

/// Two sequences on which `seq_lt` holds in neither direction are equal.
pub proof fn lemma_seq_lt_connex(a: Seq<char>, b: Seq<char>)
    ensures
        seq_lt(a, b) || seq_lt(b, a) || a == b,
    decreases a.len(),
{
    if b.len() == 0 {
        if a.len() == 0 {
            assert(a =~= b);
        }
    } else if a.len() == 0 {
    } else if (a[0] as u32) < (b[0] as u32) || (a[0] as u32) > (b[0] as u32) {
    } else {
        lemma_seq_lt_connex(a.drop_first(), b.drop_first());
        if !seq_lt(a, b) && !seq_lt(b, a) {
            assert(a.drop_first() == b.drop_first());
            assert(a.drop_first().len() == a.len() - 1);
            assert(b.drop_first().len() == b.len() - 1);
            lemma_char_eq(a[0], b[0]);
            assert forall|i: int| 0 <= i < a.len() implies a[i] == b[i] by {
                if i > 0 {
                    assert(a[i] == a.drop_first()[i - 1]);
                    assert(b[i] == b.drop_first()[i - 1]);
                }
            }
            assert(a =~= b);
        }
    }
}

/// `seq_lt` is transitive.
pub proof fn lemma_seq_lt_trans(a: Seq<char>, b: Seq<char>, c: Seq<char>)
    requires
        seq_lt(a, b),
        seq_lt(b, c),
    ensures
        seq_lt(a, c),
    decreases a.len(),
{
    if a.len() == 0 || b.len() == 0 || c.len() == 0 {
    } else if (a[0] as u32) == (b[0] as u32) && (b[0] as u32) == (c[0] as u32) {
        lemma_seq_lt_trans(a.drop_first(), b.drop_first(), c.drop_first());
    }
}

/// `seq_lt` never holds in both directions at once.
pub proof fn lemma_seq_lt_asym(a: Seq<char>, b: Seq<char>)
    ensures
        !(seq_lt(a, b) && seq_lt(b, a)),
    decreases a.len(),
{
    if a.len() > 0 && b.len() > 0 && (a[0] as u32) == (b[0] as u32) {
        lemma_seq_lt_asym(a.drop_first(), b.drop_first());
    }
}

/// `error_le` is a total order on findings (up to key equality).
pub proof fn lemma_error_le_total(a: LintErrorView, b: LintErrorView)
    ensures
        error_le(a, b) || error_le(b, a),
{
    lemma_seq_lt_connex(a.file, b.file);
}

/// `error_le` is transitive.
pub proof fn lemma_error_le_trans(a: LintErrorView, b: LintErrorView, c: LintErrorView)
    requires
        error_le(a, b),
        error_le(b, c),
    ensures
        error_le(a, c),
{
    if seq_lt(a.file, b.file) && seq_lt(b.file, c.file) {
        lemma_seq_lt_trans(a.file, b.file, c.file);
    }
}

/// Strict lexicographic comparison of two strings, char by char.
pub fn str_lt(a: &str, b: &str) -> (r: bool)
    ensures
        r == seq_lt(a@, b@),
{
    let la: usize = a.unicode_len();
    let lb: usize = b.unicode_len();
    let mut i: usize = 0;
    proof {
        assert(a@.skip(0) =~= a@);
        assert(b@.skip(0) =~= b@);
    }
    loop
        invariant
            i <= la,
            i <= lb,
            la == a@.len(),
            lb == b@.len(),
            seq_lt(a@, b@) == seq_lt(a@.skip(i as int), b@.skip(i as int)),
        decreases la - i,
    {
        proof {
            assert(a@.skip(i as int).len() == la - i);
            assert(b@.skip(i as int).len() == lb - i);
        }
        if i == lb {
            return false;
        }
        if i == la {
            return true;
        }
        let ca = a.get_char(i);
        let cb = b.get_char(i);
        proof {
            assert(a@.skip(i as int)[0] == a@[i as int]);
            assert(b@.skip(i as int)[0] == b@[i as int]);
        }
        if (ca as u32) < (cb as u32) {
            return true;
        }
        if (ca as u32) > (cb as u32) {
            return false;
        }
        proof {
            assert(a@.skip(i as int).drop_first() =~= a@.skip(i + 1));
            assert(b@.skip(i as int).drop_first() =~= b@.skip(i + 1));
        }
        i = i + 1;
    }
}

impl LintError {
    /// Comparison in the error model's total order.
    pub fn le(&self, other: &LintError) -> (r: bool)
        ensures
            r == error_le(self.deep_view(), other.deep_view()),
    {
        if str_lt(self.file.as_str(), other.file.as_str()) {
            true
        } else if str_lt(other.file.as_str(), self.file.as_str()) {
            false
        } else {
            proof {
                lemma_seq_lt_connex(self.file@, other.file@);
            }
            self.line <= other.line
        }
    }

    /// Text rendering of a finding: `{message} at {file}:{line}`.
    pub fn render(&self) -> (r: String)
        ensures
            r@ == rendered(self.deep_view()),
    {
        let mut s = self.message.clone();
        s.append(" at ");
        s.append(self.file.as_str());
        s.append(":");
        let d = usize_to_string(self.line);
        s.append(d.as_str());
        proof {
            assert(s@ =~= rendered(self.deep_view()));
        }
        s
    }
}

/// The rendered text of a finding.
pub open spec fn rendered(e: LintErrorView) -> Seq<char> {
    e.message + " at "@ + e.file + ":"@ + dec_str(e.line as nat)
}

/// The character for one decimal digit.
pub open spec fn digit_char(d: nat) -> char {
    if d == 0 {
        '0'
    } else if d == 1 {
        '1'
    } else if d == 2 {
        '2'
    } else if d == 3 {
        '3'
    } else if d == 4 {
        '4'
    } else if d == 5 {
        '5'
    } else if d == 6 {
        '6'
    } else if d == 7 {
        '7'
    } else if d == 8 {
        '8'
    } else {
        '9'
    }
}

/// The decimal rendering of a natural number, most significant digit first.
pub open spec fn dec_str(n: nat) -> Seq<char>
    decreases n,
{
    if n < 10 {
        seq![digit_char(n)]
    } else {
        dec_str(n / 10).push(digit_char(n % 10))
    }
}

/// The one-character string for a decimal digit.
fn digit_str(d: usize) -> (r: &'static str)
    requires
        d < 10,
    ensures
        r@ =~= seq![digit_char(d as nat)],
{
    proof {
        reveal_strlit("0");
        reveal_strlit("1");
        reveal_strlit("2");
        reveal_strlit("3");
        reveal_strlit("4");
        reveal_strlit("5");
        reveal_strlit("6");
        reveal_strlit("7");
        reveal_strlit("8");
        reveal_strlit("9");
    }
    if d == 0 {
        "0"
    } else if d == 1 {
        "1"
    } else if d == 2 {
        "2"
    } else if d == 3 {
        "3"
    } else if d == 4 {
        "4"
    } else if d == 5 {
        "5"
    } else if d == 6 {
        "6"
    } else if d == 7 {
        "7"
    } else if d == 8 {
        "8"
    } else {
        "9"
    }
}

/// Decimal rendering of a machine integer.
pub fn usize_to_string(n: usize) -> (r: String)
    ensures
        r@ == dec_str(n as nat),
    decreases n,
{
    if n < 10 {
        String::from_str(digit_str(n))
    } else {
        let high = usize_to_string(n / 10);
        let r = high.concat(digit_str(n % 10));
        proof {
            assert(r@ =~= dec_str((n / 10) as nat).push(digit_char((n % 10) as nat)));
        }
        r
    }
}

} // verus!
