use vstd::prelude::*;
use vstd::std_specs::iter::IteratorSpec;

verus! {

/// Unicode `White_Space` characters, as `char::is_whitespace` recognises them.
pub open spec fn is_space(c: char) -> bool {
    ('\u{9}' <= c && c <= '\u{d}') || c == ' ' || c == '\u{85}' || c == '\u{a0}' || c == '\u{1680}'
        || ('\u{2000}' <= c && c <= '\u{200a}') || c == '\u{2028}' || c == '\u{2029}'
        || c == '\u{202f}' || c == '\u{205f}' || c == '\u{3000}'
}

pub fn is_space_char(c: char) -> (r: bool)
    ensures
        r == is_space(c),
{
    ('\u{9}' <= c && c <= '\u{d}') || c == ' ' || c == '\u{85}' || c == '\u{a0}' || c == '\u{1680}'
        || ('\u{2000}' <= c && c <= '\u{200a}') || c == '\u{2028}' || c == '\u{2029}'
        || c == '\u{202f}' || c == '\u{205f}' || c == '\u{3000}'
}

/// The characters of `s`, in order.
pub fn chars_of(s: &str) -> (r: Vec<char>)
    ensures
        r@ == s@,
{
    let mut out: Vec<char> = Vec::new();
    for c in it: s.chars()
        invariant
            it.seq() == s@,
            out@ == it.seq().take(it.index() as int),
    {
        out.push(c);
    }
    out
}

} // verus!

verus! {

pub open spec fn is_digit(c: char) -> bool {
    '0' <= c && c <= '9'
}

/// The decimal digit for `d < 10`.
pub open spec fn digit_char(d: nat) -> char {
    if d == 0 {
        '0'
    } else if d == 1 {
        '1'
    } else if d == 2 {
        '2'
    } else if d == 3 {
        '3'
    } else if d == 4 {
        '4'
    } else if d == 5 {
        '5'
    } else if d == 6 {
        '6'
    } else if d == 7 {
        '7'
    } else if d == 8 {
        '8'
    } else {
        '9'
    }
}

/// `n` written in decimal, without leading zeros.
pub open spec fn decimal(n: nat) -> Seq<char>
    decreases n,
{
    if n < 10 {
        seq![digit_char(n)]
    } else {
        decimal(n / 10).push(digit_char(n % 10))
    }
}

pub open spec fn all_digits(s: Seq<char>) -> bool {
    forall|i: int| 0 <= i < s.len() ==> is_digit(#[trigger] s[i])
}

pub open spec fn digit_value(c: char) -> nat {
    (c as int - '0' as int) as nat
}

/// The number that a run of decimal digits spells, most significant first.
pub open spec fn digits_value(s: Seq<char>) -> nat
    decreases s.len(),
{
    if s.len() == 0 {
        0
    } else {
        10 * digits_value(s.drop_last()) + digit_value(s.last())
    }
}

/// Index of the first character of `s` that is `a` or `b`; `s.len()` when there is none.
pub open spec fn find_either(s: Seq<char>, a: char, b: char) -> int
    decreases s.len(),
{
    if s.len() == 0 {
        0
    } else if s[0] == a || s[0] == b {
        0
    } else {
        1 + find_either(s.drop_first(), a, b)
    }
}

pub proof fn lemma_find_either(s: Seq<char>, a: char, b: char, i: int)
    requires
        0 <= i <= s.len(),
        forall|j: int| 0 <= j < i ==> s[j] != a && s[j] != b,
        i < s.len() ==> (s[i] == a || s[i] == b),
    ensures
        find_either(s, a, b) == i,
    decreases s.len(),
{
    if s.len() > 0 && i > 0 {
        assert(s[0] != a && s[0] != b);
        assert forall|j: int| 0 <= j < i - 1 implies s.drop_first()[j] != a && s.drop_first()[j]
            != b by {
            assert(s.drop_first()[j] == s[j + 1]);
        }
        lemma_find_either(s.drop_first(), a, b, i - 1);
    }
}

/// Position of the first `a` or `b` in `s[lo..hi]`, relative to `lo`.
pub fn find_either_in(s: &Vec<char>, lo: usize, hi: usize, a: char, b: char) -> (r: usize)
    requires
        lo <= hi <= s.len(),
    ensures
        r == find_either(s@.subrange(lo as int, hi as int), a, b),
        r <= hi - lo,
{
    let mut i: usize = lo;
    while i < hi && s[i] != a && s[i] != b
        invariant
            lo <= i <= hi <= s.len(),
            forall|j: int| lo <= j < i ==> s@[j] != a && s@[j] != b,
        decreases hi - i,
    {
        i = i + 1;
    }
    proof {
        lemma_find_either(s@.subrange(lo as int, hi as int), a, b, (i - lo) as int);
    }
    i - lo
}

/// Why text is not an unsigned decimal integer (the kinds that `u32::from_str` reports).
#[derive(Debug, Clone, Copy, PartialEq, Eq, Structural)]
pub enum IntError {
    Empty,
    InvalidDigit,
    PosOverflow,
}

/// What `u32::from_str` returns: an optional `+`, then at least one decimal digit, the value
/// within `u32`. An overflow before the first non-digit is reported as such.
pub open spec fn parse_u32_spec(s: Seq<char>) -> Result<u32, IntError> {
    let body = if s.len() > 0 && s[0] == '+' {
        s.drop_first()
    } else {
        s
    };
    let k = first_non_digit(body);
    if s.len() == 0 {
        Err(IntError::Empty)
    } else if body.len() == 0 {
        Err(IntError::InvalidDigit)
    } else if digits_value(body.take(k)) > u32::MAX {
        Err(IntError::PosOverflow)
    } else if k < body.len() {
        Err(IntError::InvalidDigit)
    } else {
        Ok(digits_value(body) as u32)
    }
}

/// Index of the first character of `s` that is not a decimal digit; `s.len()` when all are.
pub open spec fn first_non_digit(s: Seq<char>) -> int
    decreases s.len(),
{
    if s.len() == 0 {
        0
    } else if !is_digit(s[0]) {
        0
    } else {
        1 + first_non_digit(s.drop_first())
    }
}

proof fn lemma_first_non_digit(s: Seq<char>, i: int)
    requires
        0 <= i <= s.len(),
        forall|j: int| 0 <= j < i ==> is_digit(s[j]),
        i < s.len() ==> !is_digit(s[i]),
    ensures
        first_non_digit(s) == i,
    decreases s.len(),
{
    if s.len() > 0 && i > 0 {
        assert(is_digit(s[0]));
        assert forall|j: int| 0 <= j < i - 1 implies is_digit(s.drop_first()[j]) by {
            assert(s.drop_first()[j] == s[j + 1]);
        }
        lemma_first_non_digit(s.drop_first(), i - 1);
    }
}

proof fn lemma_capped_step(x: nat, d: nat)
    requires
        d <= 9,
    ensures
        ({
            let cap = u32::MAX as nat + 1;
            let c = if x > cap { cap } else { x };
            let y = 10 * c + d;
            (if y > cap { cap } else { y }) == (if 10 * x + d > cap { cap } else { 10 * x + d })
        }),
{
}

/// Parses `s[lo..hi]` as `u32::from_str` would.
pub fn parse_u32(s: &Vec<char>, lo: usize, hi: usize) -> (r: Result<u32, IntError>)
    requires
        lo <= hi <= s.len(),
    ensures
        r == parse_u32_spec(s@.subrange(lo as int, hi as int)),
{
    let ghost whole = s@.subrange(lo as int, hi as int);
    if lo == hi {
        return Err(IntError::Empty);
    }
    let start: usize = if s[lo] == '+' { lo + 1 } else { lo };
    let ghost body = s@.subrange(start as int, hi as int);
    assert(body == (if whole.len() > 0 && whole[0] == '+' { whole.drop_first() } else { whole }));
    if start == hi {
        return Err(IntError::InvalidDigit);
    }
    let cap: u64 = u32::MAX as u64 + 1;
    let mut value: u64 = 0;
    let mut i: usize = start;
    while i < hi && '0' <= s[i] && s[i] <= '9'
        invariant
            start <= i <= hi <= s.len(),
            body == s@.subrange(start as int, hi as int),
            cap == u32::MAX as u64 + 1,
            value <= cap,
            forall|j: int| start <= j < i ==> is_digit(s@[j]),
            value == (if digits_value(body.take(i - start)) > cap as nat {
                cap as nat
            } else {
                digits_value(body.take(i - start))
            }),
        decreases hi - i,
    {
        let d: u64 = (s[i] as u64) - ('0' as u64);
        proof {
            let t = body.take(i - start + 1);
            assert(t.drop_last() == body.take(i - start));
            assert(t.last() == s@[i as int]);
            lemma_capped_step(digits_value(body.take(i - start)), d as nat);
        }
        let next: u64 = 10 * value + d;
        value = if next > cap { cap } else { next };
        i = i + 1;
    }
    proof {
        lemma_first_non_digit(body, i - start);
    }
    if value > u32::MAX as u64 {
        Err(IntError::PosOverflow)
    } else if i < hi {
        Err(IntError::InvalidDigit)
    } else {
        assert(body.take(i - start) == body);
        Ok(value as u32)
    }
}

} // verus!

verus! {

/// `s` is the lower-case ASCII word `w`, in any mixture of case.
pub open spec fn is_word(s: Seq<char>, w: Seq<char>) -> bool {
    &&& s.len() == w.len()
    &&& forall|i: int|
        0 <= i < s.len() ==> s[i] == w[i] || s[i] as u32 + 32 == (#[trigger] w[i]) as u32 as int
}

/// Digits with at most one `.` among them, and at least one digit.
pub open spec fn is_mantissa(m: Seq<char>) -> bool {
    let p = find_either(m, '.', '.');
    if p == m.len() {
        m.len() > 0 && all_digits(m)
    } else {
        all_digits(m.take(p)) && all_digits(m.skip(p + 1)) && m.len() > 1
    }
}

/// An optional sign and at least one digit.
pub open spec fn is_exponent(x: Seq<char>) -> bool {
    let y = if x.len() > 0 && (x[0] == '+' || x[0] == '-') {
        x.drop_first()
    } else {
        x
    };
    y.len() > 0 && all_digits(y)
}

/// The text that `f64::from_str` accepts: an optional sign, then `inf`, `infinity` or `nan`
/// in any case, or a decimal number with an optional exponent marked by `e` or `E`.
pub open spec fn is_float_literal(s: Seq<char>) -> bool {
    let b = if s.len() > 0 && (s[0] == '+' || s[0] == '-') {
        s.drop_first()
    } else {
        s
    };
    let e = find_either(b, 'e', 'E');
    ||| is_word(b, seq!['i', 'n', 'f'])
    ||| is_word(b, seq!['i', 'n', 'f', 'i', 'n', 'i', 't', 'y'])
    ||| is_word(b, seq!['n', 'a', 'n'])
    ||| is_mantissa(b.take(e)) && (e == b.len() || is_exponent(b.skip(e + 1)))
}

fn all_digits_in(s: &Vec<char>, lo: usize, hi: usize) -> (r: bool)
    requires
        lo <= hi <= s.len(),
    ensures
        r == all_digits(s@.subrange(lo as int, hi as int)),
{
    let mut i: usize = lo;
    while i < hi && '0' <= s[i] && s[i] <= '9'
        invariant
            lo <= i <= hi <= s.len(),
            forall|j: int| lo <= j < i ==> is_digit(s@[j]),
        decreases hi - i,
    {
        i = i + 1;
    }
    proof {
        if i < hi {
            assert(!is_digit(s@.subrange(lo as int, hi as int)[i - lo]));
        }
    }
    i == hi
}

fn is_word_in(s: &Vec<char>, lo: usize, hi: usize, w: &Vec<char>) -> (r: bool)
    requires
        lo <= hi <= s.len(),
        forall|i: int| 0 <= i < w.len() ==> 'a' <= #[trigger] w@[i] <= 'z',
    ensures
        r == is_word(s@.subrange(lo as int, hi as int), w@),
{
    if hi - lo != w.len() {
        return false;
    }
    let mut i: usize = 0;
    while i < w.len() && (s[lo + i] == w[i] || s[lo + i] as u32 == (w[i] as u32) - 32)
        invariant
            i <= w.len() == hi - lo,
            lo <= hi <= s.len(),
            forall|k: int| 0 <= k < w.len() ==> 'a' <= #[trigger] w@[k] <= 'z',
            forall|j: int|
                0 <= j < i ==> s@[lo + j] == w@[j] || s@[lo + j] as u32 + 32 == w@[j] as u32 as int,
        decreases w.len() - i,
    {
        i = i + 1;
    }
    proof {
        let t = s@.subrange(lo as int, hi as int);
        if i < w.len() {
            assert(!(t[i as int] == w@[i as int] || t[i as int] as u32 + 32 == w@[i as int] as u32 as int));
        } else {
            assert forall|j: int| 0 <= j < t.len() implies t[j] == w@[j] || t[j] as u32 + 32
                == (#[trigger] w@[j]) as u32 as int by {
                assert(t[j] == s@[lo + j]);
            }
        }
    }
    i == w.len()
}

fn is_mantissa_in(s: &Vec<char>, lo: usize, hi: usize) -> (r: bool)
    requires
        lo <= hi <= s.len(),
    ensures
        r == is_mantissa(s@.subrange(lo as int, hi as int)),
{
    let ghost m = s@.subrange(lo as int, hi as int);
    let p = find_either_in(s, lo, hi, '.', '.');
    if p == hi - lo {
        hi > lo && all_digits_in(s, lo, hi)
    } else {
        assert(m.take(p as int) == s@.subrange(lo as int, lo + p));
        assert(m.skip(p + 1) == s@.subrange(lo + p + 1, hi as int));
        all_digits_in(s, lo, lo + p) && all_digits_in(s, lo + p + 1, hi) && hi - lo > 1
    }
}

fn is_exponent_in(s: &Vec<char>, lo: usize, hi: usize) -> (r: bool)
    requires
        lo <= hi <= s.len(),
    ensures
        r == is_exponent(s@.subrange(lo as int, hi as int)),
{
    let ghost x = s@.subrange(lo as int, hi as int);
    let start: usize = if lo < hi && (s[lo] == '+' || s[lo] == '-') { lo + 1 } else { lo };
    assert(s@.subrange(start as int, hi as int) == (if x.len() > 0 && (x[0] == '+' || x[0] == '-') {
        x.drop_first()
    } else {
        x
    }));
    start < hi && all_digits_in(s, start, hi)
}

/// Whether `s` is a number that `f64::from_str` accepts.
pub fn is_float_text(s: &Vec<char>) -> (r: bool)
    ensures
        r == is_float_literal(s@),
{
    let n = s.len();
    let start: usize = if n > 0 && (s[0] == '+' || s[0] == '-') { 1 } else { 0 };
    let ghost b = s@.subrange(start as int, n as int);
    assert(b == (if s@.len() > 0 && (s@[0] == '+' || s@[0] == '-') {
        s@.drop_first()
    } else {
        s@
    }));
    let inf: Vec<char> = vec!['i', 'n', 'f'];
    let infinity: Vec<char> = vec!['i', 'n', 'f', 'i', 'n', 'i', 't', 'y'];
    let nan: Vec<char> = vec!['n', 'a', 'n'];
    assert(inf@ == seq!['i', 'n', 'f']);
    assert(infinity@ == seq!['i', 'n', 'f', 'i', 'n', 'i', 't', 'y']);
    assert(nan@ == seq!['n', 'a', 'n']);
    if is_word_in(s, start, n, &inf) || is_word_in(s, start, n, &infinity) || is_word_in(
        s,
        start,
        n,
        &nan,
    ) {
        return true;
    }
    let e = start + find_either_in(s, start, n, 'e', 'E');
    assert(b.take(e - start) == s@.subrange(start as int, e as int));
    if !is_mantissa_in(s, start, e) {
        return false;
    }
    if e == n {
        true
    } else {
        assert(b.skip(e - start + 1) == s@.subrange(e + 1, n as int));
        is_exponent_in(s, e + 1, n)
    }
}

} // verus!
