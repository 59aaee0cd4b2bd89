//! Character-level string helpers shared by the rest of the library:
//! building strings, rendering and parsing decimal numbers, and the
//! lexicographic order that string-keyed maps are sorted by.

use vstd::prelude::*;

verus! {

/// Whether `c` is an ASCII decimal digit.
pub open spec fn is_digit(c: char) -> bool {
    '0' <= c && c <= '9'
}

/// The numeric value of an ASCII decimal digit.
pub open spec fn digit_value(c: char) -> nat {
    ((c as int) - 48) as nat
}

/// The digit character for a value below ten.
pub open spec fn digit_char(d: nat) -> char {
    (d + 48) as char
}

/// Whether every character of `s` is an ASCII digit.
pub open spec fn all_digits(s: Seq<char>) -> bool {
    forall|i: int| 0 <= i < s.len() ==> #[trigger] is_digit(s[i])
}

/// The number that a string of decimal digits denotes.
pub open spec fn digits_value(s: Seq<char>) -> nat
    decreases s.len(),
{
    if s.len() == 0 {
        0
    } else {
        digits_value(s.drop_last()) * 10 + digit_value(s.last())
    }
}

/// The shortest decimal rendering of `n`.
pub open spec fn decimal(n: nat) -> Seq<char>
    decreases n,
{
    if n < 10 {
        seq![digit_char(n)]
    } else {
        decimal(n / 10).push(digit_char(n % 10))
    }
}

/// What `usize::from_str` gives for `s`: an optional `+` sign followed by
/// at least one ASCII digit, denoting a number that fits in `usize`.
pub open spec fn parse_usize(s: Seq<char>) -> Option<nat> {
    let body = if s.len() > 0 && s[0] == '+' {
        s.drop_first()
    } else {
        s
    };
    if body.len() > 0 && all_digits(body) && digits_value(body) <= usize::MAX {
        Some(digits_value(body))
    } else {
        None
    }
}

/// The same for `u64::from_str`.
pub open spec fn parse_u64(s: Seq<char>) -> Option<nat> {
    let body = if s.len() > 0 && s[0] == '+' {
        s.drop_first()
    } else {
        s
    };
    if body.len() > 0 && all_digits(body) && digits_value(body) <= u64::MAX {
        Some(digits_value(body))
    } else {
        None
    }
}

/// Strict lexicographic order on character sequences, by scalar value.
/// For strings this is the order of their UTF-8 bytes, which is the order
/// `String` and `str` compare by.
pub open spec fn seq_lt(a: Seq<char>, b: Seq<char>) -> bool
    decreases a.len(),
{
    if a.len() == 0 {
        b.len() > 0
    } else if b.len() == 0 {
        false
    } else if a[0] != b[0] {
        (a[0] as int) < (b[0] as int)
    } else {
        seq_lt(a.drop_first(), b.drop_first())
    }
}

/// Whether `p` is a prefix of `s`.
pub open spec fn is_prefix(p: Seq<char>, s: Seq<char>) -> bool {
    p.len() <= s.len() && s.subrange(0, p.len() as int) == p
}

pub proof fn lemma_seq_lt_irreflexive(a: Seq<char>)
    ensures
        !seq_lt(a, a),
    decreases a.len(),
{
    if a.len() > 0 {
        lemma_seq_lt_irreflexive(a.drop_first());
    }
}

pub proof fn lemma_seq_lt_transitive(a: Seq<char>, b: Seq<char>, c: Seq<char>)
    requires
        seq_lt(a, b),
        seq_lt(b, c),
    ensures
        seq_lt(a, c),
    decreases a.len(),
{
    if a.len() > 0 && b.len() > 0 && c.len() > 0 {
        if a[0] == b[0] && b[0] == c[0] {
            lemma_seq_lt_transitive(a.drop_first(), b.drop_first(), c.drop_first());
        }
    }
}

pub proof fn lemma_seq_lt_total(a: Seq<char>, b: Seq<char>)
    ensures
        a == b || seq_lt(a, b) || seq_lt(b, a),
    decreases a.len(),
{
    if a.len() > 0 && b.len() > 0 {
        if a[0] == b[0] {
            lemma_seq_lt_total(a.drop_first(), b.drop_first());
            if a.drop_first() == b.drop_first() {
                assert(a =~= seq![a[0]] + a.drop_first());
                assert(b =~= seq![b[0]] + b.drop_first());
            }
        } else {
            assert(a[0] as int != b[0] as int);
        }
    } else if a.len() == 0 && b.len() == 0 {
        assert(a =~= b);
    }
}

pub proof fn lemma_seq_lt_asymmetric(a: Seq<char>, b: Seq<char>)
    requires
        seq_lt(a, b),
    ensures
        !seq_lt(b, a),
{
    if seq_lt(b, a) {
        lemma_seq_lt_transitive(a, b, a);
        lemma_seq_lt_irreflexive(a);
    }
}

proof fn lemma_digits_value_push(s: Seq<char>, c: char)
    ensures
        digits_value(s.push(c)) == digits_value(s) * 10 + digit_value(c),
{
    assert(s.push(c).drop_last() =~= s);
}

pub proof fn lemma_decimal_digits(n: nat)
    ensures
        decimal(n).len() > 0,
        all_digits(decimal(n)),
        digits_value(decimal(n)) == n,
    decreases n,
{
    if n < 10 {
        assert(digit_value(digit_char(n)) == n);
        assert(seq![digit_char(n)].drop_last() =~= Seq::<char>::empty());
        assert(digits_value(Seq::<char>::empty()) == 0);
        assert(digits_value(seq![digit_char(n)]) == digit_value(digit_char(n)));
    } else {
        lemma_decimal_digits(n / 10);
        lemma_digits_value_push(decimal(n / 10), digit_char(n % 10));
        assert(digit_value(digit_char(n % 10)) == n % 10);
        let s = decimal(n / 10).push(digit_char(n % 10));
        assert forall|i: int| 0 <= i < s.len() implies #[trigger] is_digit(s[i]) by {
            if i < s.len() - 1 {
                assert(s[i] == decimal(n / 10)[i]);
            }
        }
    }
}

/// Appends one character to a string.
///
/// Calls `String::push`; the contract claims that the string afterwards is
/// the old string followed by `c`, as std documents.
#[verifier::external_body]
pub(crate) fn push_char(s: &mut String, c: char)
    ensures
        final(s)@ == old(s)@.push(c),
{
    s.push(c);
}

/// A string holding exactly the given characters.
pub fn string_from_chars(cs: &[char]) -> (r: String)
    ensures
        r@ == cs@,
{
    let mut out = String::new();
    let mut i: usize = 0;
    while i < cs.len()
        invariant
            i <= cs@.len(),
            out@ == cs@.subrange(0, i as int),
        decreases cs@.len() - i,
    {
        push_char(&mut out, cs[i]);
        assert(cs@.subrange(0, i as int).push(cs@[i as int]) =~= cs@.subrange(0, i + 1));
        i = i + 1;
    }
    assert(cs@.subrange(0, cs@.len() as int) =~= cs@);
    out
}

/// A copy of a string slice as an owned string.
pub fn to_owned_string(s: &str) -> (r: String)
    ensures
        r@ == s@,
{
    s.to_owned()
}

/// Appends a string slice to a string.
pub fn push_str(s: &mut String, t: &str)
    ensures
        final(s)@ == old(s)@ + t@,
{
    let cs = chars_of(t);
    let mut i: usize = 0;
    while i < cs.len()
        invariant
            i <= cs@.len(),
            cs@ == t@,
            s@ == old(s)@ + cs@.subrange(0, i as int),
        decreases cs@.len() - i,
    {
        push_char(s, cs[i]);
        assert(cs@.subrange(0, i as int).push(cs@[i as int]) =~= cs@.subrange(0, i + 1));
        assert((old(s)@ + cs@.subrange(0, i as int)).push(cs@[i as int]) =~= old(s)@ + cs@.subrange(0, i + 1));
        i = i + 1;
    }
    assert(cs@.subrange(0, cs@.len() as int) =~= cs@);
}

/// Whether `s` begins with `prefix`.
pub fn str_starts_with(s: &str, prefix: &str) -> (r: bool)
    ensures
        r == is_prefix(prefix@, s@),
{
    let cs = chars_of(s);
    let ps = chars_of(prefix);
    if ps.len() > cs.len() {
        return false;
    }
    let mut i: usize = 0;
    while i < ps.len()
        invariant
            i <= ps@.len() <= cs@.len(),
            cs@ == s@,
            ps@ == prefix@,
            forall|j: int| 0 <= j < i ==> cs@[j] == ps@[j],
        decreases ps@.len() - i,
    {
        if cs[i] != ps[i] {
            assert(s@.subrange(0, prefix@.len() as int)[i as int] != prefix@[i as int]);
            return false;
        }
        i = i + 1;
    }
    assert(s@.subrange(0, prefix@.len() as int) =~= prefix@);
    true
}

/// The concatenation of two string slices.
pub fn concat(a: &str, b: &str) -> (r: String)
    ensures
        r@ == a@ + b@,
{
    let mut out = to_owned_string(a);
    push_str(&mut out, b);
    out
}

/// The characters of a string, in order.
pub fn chars_of(s: &str) -> (r: Vec<char>)
    ensures
        r@ == s@,
{
    let mut out: Vec<char> = Vec::new();
    for c in it: s.chars()
        invariant
            out@ == it.seq().take(it.index() as int),
            it.seq() == s@,
    {
        out.push(c);
    }
    out
}

/// The decimal rendering of `n`, as `u64::to_string` gives it.
pub fn u64_to_string(n: u64) -> (r: String)
    ensures
        r@ == decimal(n as nat),
    decreases n,
{
    if n < 10 {
        let mut out = String::new();
        let d: u8 = n as u8;
        let c: char = (48u8 + d) as char;
        assert(c == digit_char(n as nat));
        push_char(&mut out, c);
        out
    } else {
        let mut out = u64_to_string(n / 10);
        let d: u8 = (n % 10) as u8;
        let c: char = (48u8 + d) as char;
        assert(c == digit_char((n % 10) as nat));
        push_char(&mut out, c);
        out
    }
}

/// The decimal rendering of `n`, as `usize::to_string` gives it.
pub fn usize_to_string(n: usize) -> (r: String)
    ensures
        r@ == decimal(n as nat),
{
    u64_to_string(n as u64)
}

/// Parses a decimal number as `usize::from_str` does.
pub fn parse_usize_str(s: &str) -> (r: Option<usize>)
    ensures
        match r {
            Some(n) => parse_usize(s@) == Some(n as nat),
            None => parse_usize(s@) is None,
        },
{
    match parse_digits(s, usize::MAX as u64) {
        Some(n) => Some(n as usize),
        None => None,
    }
}

/// Parses a decimal number as `u64::from_str` does.
pub fn parse_u64_str(s: &str) -> (r: Option<u64>)
    ensures
        match r {
            Some(n) => parse_u64(s@) == Some(n as nat),
            None => parse_u64(s@) is None,
        },
{
    parse_digits(s, u64::MAX)
}

proof fn lemma_digits_value_grows(s: Seq<char>, t: Seq<char>)
    requires
        all_digits(s + t),
    ensures
        digits_value(s + t) >= digits_value(s),
    decreases t.len(),
{
    if t.len() > 0 {
        assert((s + t).drop_last() =~= s + t.drop_last());
        assert forall|i: int| 0 <= i < (s + t.drop_last()).len() implies #[trigger] is_digit((s + t.drop_last())[i]) by {
            assert((s + t.drop_last())[i] == (s + t)[i]);
        }
        lemma_digits_value_grows(s, t.drop_last());
    } else {
        assert(s + t =~= s);
    }
}

/// Parses an optional `+` and then decimal digits whose value is at most `max`.
fn parse_digits(s: &str, max: u64) -> (r: Option<u64>)
    ensures
        ({
            let body = if s@.len() > 0 && s@[0] == '+' {
                s@.drop_first()
            } else {
                s@
            };
            match r {
                Some(n) => body.len() > 0 && all_digits(body) && digits_value(body) <= max
                    && n == digits_value(body),
                None => !(body.len() > 0 && all_digits(body) && digits_value(body) <= max),
            }
        }),
{
    let cs = chars_of(s);
    let ghost sv = s@;
    let mut start: usize = 0;
    if cs.len() > 0 && cs[0] == '+' {
        start = 1;
    }
    let ghost body = if sv.len() > 0 && sv[0] == '+' {
        sv.drop_first()
    } else {
        sv
    };
    assert(body =~= cs@.subrange(start as int, cs@.len() as int));
    if start >= cs.len() {
        return None;
    }
    let mut acc: u64 = 0;
    let mut i: usize = start;
    while i < cs.len()
        invariant
            start <= i <= cs@.len(),
            cs@ == sv,
            sv == s@,
            body == (if sv.len() > 0 && sv[0] == '+' { sv.drop_first() } else { sv }),
            body =~= cs@.subrange(start as int, cs@.len() as int),
            all_digits(cs@.subrange(start as int, i as int)),
            acc == digits_value(cs@.subrange(start as int, i as int)),
            acc <= max,
        decreases cs@.len() - i,
    {
        let c = cs[i];
        let prefix = Ghost(cs@.subrange(start as int, i as int));
        assert(cs@.subrange(start as int, i + 1) =~= prefix@.push(c));
        if !('0' <= c && c <= '9') {
            assert(!is_digit(body[i - start]));
            assert(!all_digits(body));
            return None;
        }
        let d: u64 = ((c as u32) - 48u32) as u64;
        assert(d == digit_value(c));
        proof {
            lemma_digits_value_push(prefix@, c);
        }
        let next: u128 = (acc as u128) * 10 + (d as u128);
        if next > max as u128 {
            proof {
                let whole = cs@.subrange(start as int, cs@.len() as int);
                let rest = cs@.subrange(i + 1, cs@.len() as int);
                assert(whole =~= prefix@.push(c) + rest);
                if all_digits(whole) {
                    lemma_digits_value_grows(prefix@.push(c), rest);
                }
            }
            return None;
        }
        acc = next as u64;
        assert forall|j: int| 0 <= j < prefix@.push(c).len() implies #[trigger] is_digit(prefix@.push(c)[j]) by {
            if j < prefix@.len() {
                assert(prefix@.push(c)[j] == prefix@[j]);
            }
        }
        i = i + 1;
    }
    Some(acc)
}

/// Whether `a` sorts strictly before `b`.
pub fn str_lt(a: &str, b: &str) -> (r: bool)
    ensures
        r == seq_lt(a@, b@),
{
    let x = chars_of(a);
    let y = chars_of(b);
    let mut i: usize = 0;
    assert(x@.subrange(0, x@.len() as int) =~= x@);
    assert(y@.subrange(0, y@.len() as int) =~= y@);
    while i < x.len() && i < y.len()
        invariant
            i <= x@.len(),
            i <= y@.len(),
            x@ == a@,
            y@ == b@,
            x@.subrange(0, i as int) == y@.subrange(0, i as int),
            seq_lt(x@, y@) == seq_lt(x@.subrange(i as int, x@.len() as int), y@.subrange(i as int, y@.len() as int)),
        decreases x@.len() - i,
    {
        let xa = x[i];
        let yb = y[i];
        let ghost xs = x@.subrange(i as int, x@.len() as int);
        let ghost ys = y@.subrange(i as int, y@.len() as int);
        assert(xs[0] == xa && ys[0] == yb);
        if xa != yb {
            assert(xs[0] != ys[0]);
            return xa < yb;
        }
        assert(xs.drop_first() =~= x@.subrange(i + 1, x@.len() as int));
        assert(ys.drop_first() =~= y@.subrange(i + 1, y@.len() as int));
        assert(x@.subrange(0, i + 1) =~= x@.subrange(0, i as int).push(x@[i as int]));
        assert(y@.subrange(0, i + 1) =~= y@.subrange(0, i as int).push(y@[i as int]));
        i = i + 1;
    }
    i == x.len() && i < y.len()
}

/// Whether two strings are equal.
pub fn str_eq(a: &str, b: &str) -> (r: bool)
    ensures
        r == (a@ == b@),
{
    proof {
        lemma_seq_lt_total(a@, b@);
        lemma_seq_lt_irreflexive(a@);
    }
    !str_lt(a, b) && !str_lt(b, a)
}

} // verus!
