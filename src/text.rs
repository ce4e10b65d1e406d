//! Text helpers: characters of a string, number syntax, and flag words.

use vstd::prelude::*;

verus! {

/// The characters of `s`, one by one.
pub fn chars_of(s: &str) -> (r: Vec<char>)
    ensures
        r@ == s@,
{
    let mut out: Vec<char> = Vec::new();
    for c in it: s.chars()
        invariant
            out@ == it.seq().take(it.index() as int),
    {
        out.push(c);
    }
    out
}

/// Relies on `String: FromIterator<char>`: the string holds the given characters in order.
#[verifier::external_body]
pub(crate) fn string_of(cs: &[char], lo: usize, hi: usize) -> (r: String)
    requires
        lo <= hi <= cs@.len(),
    ensures
        r@ == cs@.subrange(lo as int, hi as int),
{
    cs[lo..hi].iter().collect()
}

/// `prefix` followed by `cs[lo..hi]`, as a string.
pub fn prefixed(prefix: &[char], cs: &[char], lo: usize, hi: usize) -> (r: String)
    requires
        lo <= hi <= cs@.len(),
    ensures
        r@ == prefix@ + cs@.subrange(lo as int, hi as int),
{
    let mut out: Vec<char> = Vec::new();
    let mut i: usize = 0;
    while i < prefix.len()
        invariant
            i <= prefix@.len(),
            out@ == prefix@.subrange(0, i as int),
        decreases prefix.len() - i,
    {
        out.push(prefix[i]);
        i += 1;
    }
    let mut k: usize = lo;
    while k < hi
        invariant
            lo <= k <= hi <= cs@.len(),
            out@ == prefix@ + cs@.subrange(lo as int, k as int),
        decreases hi - k,
    {
        out.push(cs[k]);
        k += 1;
    }
    let n = out.len();
    assert(out@.subrange(0, n as int) =~= out@);
    string_of(out.as_slice(), 0, n)
}

pub open spec fn is_digit(c: char) -> bool {
    '0' <= c && c <= '9'
}

pub open spec fn all_digits(s: Seq<char>) -> bool {
    forall|i: int| 0 <= i < s.len() ==> is_digit(#[trigger] s[i])
}

/// The number that a string of decimal digits denotes.
pub open spec fn digits_value(s: Seq<char>) -> nat
    decreases s.len(),
{
    if s.len() == 0 {
        0
    } else {
        digits_value(s.drop_last()) * 10 + ((s.last() as u32 - '0' as u32) as nat)
    }
}

/// `s` without one leading `+` or `-`.
pub open spec fn unsigned_part(s: Seq<char>) -> Seq<char> {
    if s.len() > 0 && (s[0] == '+' || s[0] == '-') {
        s.drop_first()
    } else {
        s
    }
}

/// The integer that `s` denotes in base 10: an optional sign, then one digit or more.
pub open spec fn decimal_integer(s: Seq<char>) -> Option<int> {
    let d = unsigned_part(s);
    if d.len() > 0 && all_digits(d) {
        if s[0] == '-' {
            Some(-(digits_value(d) as int))
        } else {
            Some(digits_value(d) as int)
        }
    } else {
        None
    }
}

/// The signed 64-bit integer that `s` denotes, where it denotes one in range.
pub open spec fn i64_text(s: Seq<char>) -> Option<int> {
    match decimal_integer(s) {
        Some(v) => if i64::MIN <= v <= i64::MAX {
            Some(v)
        } else {
            None
        },
        None => None,
    }
}

/// Relies on `<i64 as FromStr>::from_str`: an optional `+` or `-` followed by
/// decimal digits, and nothing else, is read when the number fits in an `i64`.
#[verifier::external_body]
pub(crate) fn parse_i64(s: &str) -> (r: Option<i64>)
    ensures
        r is Some <==> i64_text(s@) is Some,
        r is Some ==> r->0 as int == i64_text(s@)->0,
{
    s.parse::<i64>().ok()
}

/// Case-folding of a string to lower case.
pub uninterp spec fn lower_of(s: Seq<char>) -> Seq<char>;

/// Relies on `str::to_lowercase`: the result depends on the characters alone,
/// and an empty string stays empty.
#[verifier::external_body]
pub(crate) fn lowercase(s: &str) -> (r: String)
    ensures
        r@ == lower_of(s@),
        s@.len() == 0 ==> r@.len() == 0,
{
    s.to_lowercase()
}

/// The words, already in lower case, that a flag value reads as true.
pub open spec fn is_true_word(s: Seq<char>) -> bool {
    s == seq!['t', 'r', 'u', 'e'] || s == seq!['1'] || s == seq!['y', 'e', 's']
}

/// Whether lower-cased text names a true flag value.
pub fn true_word(lowered: &str) -> (r: bool)
    ensures
        r == is_true_word(lowered@),
{
    let c = chars_of(lowered);
    let r = (c.len() == 4 && c[0] == 't' && c[1] == 'r' && c[2] == 'u' && c[3] == 'e') || (
    c.len() == 1 && c[0] == '1') || (c.len() == 3 && c[0] == 'y' && c[1] == 'e' && c[2] == 's');
    proof {
        if c.len() == 4 && c[0] == 't' && c[1] == 'r' && c[2] == 'u' && c[3] == 'e' {
            assert(c@ =~= seq!['t', 'r', 'u', 'e']);
        }
        if c.len() == 1 && c[0] == '1' {
            assert(c@ =~= seq!['1']);
        }
        if c.len() == 3 && c[0] == 'y' && c[1] == 'e' && c[2] == 's' {
            assert(c@ =~= seq!['y', 'e', 's']);
        }
    }
    r
}

/// Reads text as a flag value: true for `true`, `1` or `yes` in any case, else false.
pub fn flag_text(s: &str) -> (r: bool)
    ensures
        r == is_true_word(lower_of(s@)),
{
    let l = lowercase(s);
    true_word(l.as_str())
}

pub open spec fn ascii_lower(c: char) -> char {
    if 'A' <= c && c <= 'Z' {
        ((c as u8) + 32) as char
    } else {
        c
    }
}

/// Whether `s` equals the lower-case ASCII word `w`, ignoring ASCII case.
pub open spec fn eq_ignore_case(s: Seq<char>, w: Seq<char>) -> bool {
    s.len() == w.len() && forall|i: int| 0 <= i < s.len() ==> ascii_lower(#[trigger] s[i]) == w[i]
}

/// Digits, optionally with one point, holding at least one digit.
pub open spec fn is_mantissa(m: Seq<char>) -> bool {
    (m.len() > 0 && all_digits(m)) || exists|d: int|
        0 <= d < m.len() && m.len() > 1 && m[d] == '.' && all_digits(#[trigger] m.subrange(0, d))
            && all_digits(m.subrange(d + 1, m.len() as int))
}

/// An exponent after the `e`: an optional sign, then one digit or more.
pub open spec fn is_exponent(e: Seq<char>) -> bool {
    unsigned_part(e).len() > 0 && all_digits(unsigned_part(e))
}

pub open spec fn is_number(b: Seq<char>) -> bool {
    is_mantissa(b) || exists|p: int|
        0 <= p < b.len() && (b[p] == 'e' || b[p] == 'E') && is_mantissa(#[trigger] b.subrange(0, p))
            && is_exponent(b.subrange(p + 1, b.len() as int))
}

/// The text that a decimal floating-point number may be written as: an optional
/// sign, then `inf`, `infinity` or `nan` in any case, or digits with an optional
/// point and an optional exponent.
pub open spec fn is_float_text(s: Seq<char>) -> bool {
    let b = unsigned_part(s);
    eq_ignore_case(b, seq!['i', 'n', 'f']) || eq_ignore_case(b, seq!['i', 'n', 'f', 'i', 'n', 'i', 't', 'y'])
        || eq_ignore_case(b, seq!['n', 'a', 'n']) || is_number(b)
}

fn lower_ascii(c: char) -> (r: char)
    ensures
        r == ascii_lower(c),
{
    if 'A' <= c && c <= 'Z' {
        ((c as u8) + 32) as char
    } else {
        c
    }
}

fn word_ignore_case(s: &[char], lo: usize, w: &[char]) -> (r: bool)
    requires
        lo <= s@.len(),
    ensures
        r == eq_ignore_case(s@.subrange(lo as int, s@.len() as int), w@),
{
    if s.len() - lo != w.len() {
        return false;
    }
    let mut k: usize = lo;
    while k < s.len()
        invariant
            lo <= k <= s@.len(),
            lo + w@.len() == s@.len(),
            forall|j: int| 0 <= j < k - lo ==> ascii_lower(s@[lo + j]) == w@[j],
        decreases s.len() - k,
    {
        if lower_ascii(s[k]) != w[k - lo] {
            assert(ascii_lower(s@.subrange(lo as int, s@.len() as int)[k - lo]) != w@[k - lo]);
            return false;
        }
        k += 1;
    }
    true
}

fn digits_between(s: &[char], lo: usize, hi: usize) -> (r: bool)
    requires
        lo <= hi <= s@.len(),
    ensures
        r == all_digits(s@.subrange(lo as int, hi as int)),
{
    let mut i: usize = lo;
    while i < hi
        invariant
            lo <= i <= hi <= s@.len(),
            forall|j: int| lo <= j < i ==> is_digit(s@[j]),
        decreases hi - i,
    {
        if !('0' <= s[i] && s[i] <= '9') {
            assert(!is_digit(s@.subrange(lo as int, hi as int)[i - lo]));
            return false;
        }
        i += 1;
    }
    assert forall|j: int| 0 <= j < hi - lo implies is_digit(#[trigger] s@.subrange(lo as int, hi as int)[j]) by {
        assert(s@.subrange(lo as int, hi as int)[j] == s@[lo + j]);
    }
    true
}

fn mantissa_between(s: &[char], lo: usize, hi: usize) -> (r: bool)
    requires
        lo <= hi <= s@.len(),
    ensures
        r == is_mantissa(s@.subrange(lo as int, hi as int)),
{
    let ghost m = s@.subrange(lo as int, hi as int);
    let mut d: usize = lo;
    while d < hi && s[d] != '.'
        invariant
            lo <= d <= hi <= s@.len(),
            forall|j: int| lo <= j < d ==> s@[j] != '.',
        decreases hi - d,
    {
        d += 1;
    }
    if d == hi {
        let r = hi > lo && digits_between(s, lo, hi);
        proof {
            if !r {
                assert forall|k: int| 0 <= k < m.len() && m.len() > 1 && m[k] == '.' implies !all_digits(
                    #[trigger] m.subrange(0, k),
                ) || !all_digits(m.subrange(k + 1, m.len() as int)) by {
                    assert(m[k] == s@[lo + k]);
                }
            }
        }
        r
    } else {
        let a = digits_between(s, lo, d);
        let b = digits_between(s, d + 1, hi);
        let r = hi - lo > 1 && a && b;
        proof {
            let k = d - lo;
            assert(m.subrange(0, k) =~= s@.subrange(lo as int, d as int));
            assert(m.subrange(k + 1, m.len() as int) =~= s@.subrange(d + 1, hi as int));
            assert(m[k] == '.');
            assert(!all_digits(m));
            if !r {
                assert forall|k2: int| 0 <= k2 < m.len() && m.len() > 1 && m[k2] == '.' implies !all_digits(
                    #[trigger] m.subrange(0, k2),
                ) || !all_digits(m.subrange(k2 + 1, m.len() as int)) by {
                    assert(m[k2] == s@[lo + k2]);
                    if k2 < k {
                        assert(m.subrange(k2 + 1, m.len() as int)[k - k2 - 1] == '.');
                    } else if k2 > k {
                        assert(m.subrange(0, k2)[k] == '.');
                    }
                }
            }
        }
        r
    }
}

fn exponent_between(s: &[char], lo: usize, hi: usize) -> (r: bool)
    requires
        lo <= hi <= s@.len(),
    ensures
        r == is_exponent(s@.subrange(lo as int, hi as int)),
{
    let ghost e = s@.subrange(lo as int, hi as int);
    let start: usize = if lo < hi && (s[lo] == '+' || s[lo] == '-') {
        lo + 1
    } else {
        lo
    };
    assert(unsigned_part(e) =~= s@.subrange(start as int, hi as int));
    start < hi && digits_between(s, start, hi)
}

proof fn lemma_no_exponent_mark(b: Seq<char>, c: Seq<char>, lo: int)
    requires
        0 <= lo <= c.len(),
        b == c.subrange(lo, c.len() as int),
        forall|j: int| lo <= j < c.len() ==> c[j] != 'e' && c[j] != 'E',
    ensures
        is_number(b) == is_mantissa(b),
{
    assert forall|q: int| 0 <= q < b.len() && (b[q] == 'e' || b[q] == 'E') implies !is_mantissa(
        #[trigger] b.subrange(0, q),
    ) || !is_exponent(b.subrange(q + 1, b.len() as int)) by {
        assert(b[q] == c[lo + q]);
    }
}

proof fn lemma_mark_breaks_mantissa(m: Seq<char>, k: int)
    requires
        0 <= k < m.len(),
        m[k] == 'e' || m[k] == 'E',
    ensures
        !is_mantissa(m),
{
    if is_mantissa(m) {
        if all_digits(m) {
            assert(!is_digit(m[k]));
        } else {
            let d = choose|d: int|
                0 <= d < m.len() && m.len() > 1 && m[d] == '.' && all_digits(#[trigger] m.subrange(0, d))
                    && all_digits(m.subrange(d + 1, m.len() as int));
            if k < d {
                assert(!is_digit(m.subrange(0, d)[k]));
            } else {
                assert(!is_digit(m.subrange(d + 1, m.len() as int)[k - d - 1]));
            }
        }
    }
}

proof fn lemma_first_exponent_mark(b: Seq<char>, c: Seq<char>, lo: int, p: int)
    requires
        0 <= lo <= p < c.len(),
        b == c.subrange(lo, c.len() as int),
        c[p] == 'e' || c[p] == 'E',
        forall|j: int| lo <= j < p ==> c[j] != 'e' && c[j] != 'E',
    ensures
        is_number(b) == (is_mantissa(c.subrange(lo, p)) && is_exponent(c.subrange(p + 1, c.len() as int))),
{
    let k = p - lo;
    assert(b.subrange(0, k) =~= c.subrange(lo, p));
    assert(b.subrange(k + 1, b.len() as int) =~= c.subrange(p + 1, c.len() as int));
    assert(b[k] == c[p]);
    lemma_mark_breaks_mantissa(b, k);
    assert forall|q: int| 0 <= q < b.len() && (b[q] == 'e' || b[q] == 'E') && q != k implies !is_mantissa(
        #[trigger] b.subrange(0, q),
    ) by {
        assert(b[q] == c[lo + q]);
        if q > k {
            assert(b.subrange(0, q)[k] == b[k]);
            lemma_mark_breaks_mantissa(b.subrange(0, q), k);
        }
    }
}

/// Whether `s` is text that a decimal floating-point number may be written as.
pub fn float_text(s: &str) -> (r: bool)
    ensures
        r == is_float_text(s@),
{
    let c = chars_of(s);
    let n = c.len();
    let lo: usize = if n > 0 && (c[0] == '+' || c[0] == '-') {
        1
    } else {
        0
    };
    let ghost b = unsigned_part(s@);
    assert(b =~= c@.subrange(lo as int, n as int));
    let inf: [char; 3] = ['i', 'n', 'f'];
    let infinity: [char; 8] = ['i', 'n', 'f', 'i', 'n', 'i', 't', 'y'];
    let nan: [char; 3] = ['n', 'a', 'n'];
    assert(inf@ =~= seq!['i', 'n', 'f']);
    assert(infinity@ =~= seq!['i', 'n', 'f', 'i', 'n', 'i', 't', 'y']);
    assert(nan@ =~= seq!['n', 'a', 'n']);
    if word_ignore_case(c.as_slice(), lo, inf.as_slice()) || word_ignore_case(c.as_slice(), lo, infinity.as_slice())
        || word_ignore_case(c.as_slice(), lo, nan.as_slice()) {
        return true;
    }
    let mut p: usize = lo;
    while p < n && c[p] != 'e' && c[p] != 'E'
        invariant
            lo <= p <= n == c@.len(),
            forall|j: int| lo <= j < p ==> c@[j] != 'e' && c@[j] != 'E',
        decreases n - p,
    {
        p += 1;
    }
    if p == n {
        let r = mantissa_between(c.as_slice(), lo, n);
        proof {
            lemma_no_exponent_mark(b, c@, lo as int);
        }
        r
    } else {
        let r = mantissa_between(c.as_slice(), lo, p) && exponent_between(c.as_slice(), p + 1, n);
        proof {
            lemma_first_exponent_mark(b, c@, lo as int, p as int);
        }
        r
    }
}

} // verus!
