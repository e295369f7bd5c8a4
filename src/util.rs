use vstd::prelude::*;
use vstd::string::StringExecFns;


use crate::dice::trim_end;
use crate::text::{chars_of, decimal, digit_char, is_space, is_space_char};

verus! {

pub const MILLIS_PER_SECOND: u64 = 1000;

pub const SECONDS_PER_MINUTE: u64 = 60;

pub const MINUTES_PER_HOUR: u64 = 60;

pub const MILLIS_PER_MINUTE: u64 = MILLIS_PER_SECOND * SECONDS_PER_MINUTE;

pub const MILLIS_PER_HOUR: u64 = MILLIS_PER_MINUTE * MINUTES_PER_HOUR;

/// Relies on `String`'s `FromIterator<char>`: the characters in order.
#[verifier::external_body]
pub(crate) fn string_of(chars: &Vec<char>) -> (r: String)
    ensures
        r@ == chars@,
{
    chars.iter().collect()
}

/// The characters that Discord reads as Markdown and that a backslash escapes.
pub open spec fn is_markdown(c: char) -> bool {
    c == '\\' || c == '_' || c == '*' || c == '~' || c == '`' || c == '|'
}

/// `s` with a backslash before each Markdown character.
pub open spec fn backslashed(s: Seq<char>) -> Seq<char>
    decreases s.len(),
{
    if s.len() == 0 {
        seq![]
    } else if is_markdown(s.last()) {
        backslashed(s.drop_last()) + seq!['\\', s.last()]
    } else {
        backslashed(s.drop_last()).push(s.last())
    }
}

/// Square brackets, which a backslash cannot escape, swapped for look-alikes.
pub open spec fn bracket_free(c: char) -> char {
    if c == '[' {
        '\u{2045}'
    } else if c == ']' {
        '\u{2046}'
    } else {
        c
    }
}

/// `s` made safe to show verbatim in a Discord message.
pub open spec fn escaped(s: Seq<char>) -> Seq<char> {
    backslashed(s).map_values(|c: char| bracket_free(c))
}

/// Relies on regex's `Regex::replace_all` with the pattern ``([\\_*~`|])`` and the
/// replacement `\$0`: every match, a single Markdown character, gets a backslash before it.
#[verifier::external_body]
fn escape_markdown(s: &str) -> (r: String)
    ensures
        r@ == backslashed(s@),
{
    let re = regex::Regex::new(r"([\\_*~`|])").unwrap();
    re.replace_all(s, r"\$0").into_owned()
}

/// Escapes a string for Discord: a backslash before each Markdown character, and square
/// brackets replaced by similar-looking characters.
pub fn escape_str(s: &str) -> (r: String)
    ensures
        r@ == escaped(s@),
{
    let marked = escape_markdown(s);
    let chars = chars_of(marked.as_str());
    let mut out: Vec<char> = Vec::new();
    let mut i: usize = 0;
    while i < chars.len()
        invariant
            i <= chars.len(),
            out@ == chars@.take(i as int).map_values(|c: char| bracket_free(c)),
        decreases chars.len() - i,
    {
        let c = chars[i];
        let d = if c == '[' {
            '\u{2045}'
        } else if c == ']' {
            '\u{2046}'
        } else {
            c
        };
        out.push(d);
        proof {
            assert(chars@.take(i + 1).map_values(|c: char| bracket_free(c)) =~= chars@.take(
                i as int,
            ).map_values(|c: char| bracket_free(c)).push(d));
        }
        i = i + 1;
    }
    assert(chars@.take(i as int) == chars@);
    string_of(&out)
}

/// `None` for an empty string, the string itself otherwise.
pub fn none_on_empty(s: &str) -> (r: Option<&str>)
    ensures
        r is None <==> s@.len() == 0,
        r matches Some(t) ==> t == s,
{
    if s.is_empty() {
        None
    } else {
        Some(s)
    }
}

/// `n` in decimal, padded with a zero to at least two digits (`{:02}`).
pub open spec fn two_digits(n: nat) -> Seq<char> {
    if n < 10 {
        seq!['0'] + decimal(n)
    } else {
        decimal(n)
    }
}

/// `hh:mm:ss` from an hour on, `mm:ss` below it.
pub open spec fn timecode(ms: nat) -> Seq<char> {
    if ms >= MILLIS_PER_HOUR {
        two_digits(ms / MILLIS_PER_HOUR as nat) + seq![':'] + two_digits(
            (ms / MILLIS_PER_MINUTE as nat) % MINUTES_PER_HOUR as nat,
        ) + seq![':'] + two_digits((ms / MILLIS_PER_SECOND as nat) % SECONDS_PER_MINUTE as nat)
    } else {
        two_digits(ms / MILLIS_PER_MINUTE as nat) + seq![':'] + two_digits(
            (ms / MILLIS_PER_SECOND as nat) % SECONDS_PER_MINUTE as nat,
        )
    }
}

fn digit_of(d: u64) -> (c: char)
    requires
        d < 10,
    ensures
        c == digit_char(d as nat),
{
    if d == 0 {
        '0'
    } else if d == 1 {
        '1'
    } else if d == 2 {
        '2'
    } else if d == 3 {
        '3'
    } else if d == 4 {
        '4'
    } else if d == 5 {
        '5'
    } else if d == 6 {
        '6'
    } else if d == 7 {
        '7'
    } else if d == 8 {
        '8'
    } else {
        '9'
    }
}

/// Appends `n` in decimal.
pub(crate) fn push_decimal(out: &mut Vec<char>, n: u64)
    ensures
        final(out)@ == old(out)@ + decimal(n as nat),
    decreases n,
{
    if n >= 10 {
        push_decimal(out, n / 10);
    }
    out.push(digit_of(n % 10));
    proof {
        if n < 10 {
            assert(n % 10 == n);
        }
    }
}

fn push_two_digits(out: &mut Vec<char>, n: u64)
    ensures
        final(out)@ == old(out)@ + two_digits(n as nat),
{
    if n < 10 {
        out.push('0');
    }
    push_decimal(out, n);
}

/// Formats a duration in milliseconds as a timecode.
pub fn display_timecode(millis: u64) -> (r: String)
    ensures
        r@ == timecode(millis as nat),
{
    let mut out: Vec<char> = Vec::new();
    if millis >= MILLIS_PER_HOUR {
        push_two_digits(&mut out, millis / MILLIS_PER_HOUR);
        out.push(':');
        push_two_digits(&mut out, (millis / MILLIS_PER_MINUTE) % MINUTES_PER_HOUR);
        out.push(':');
        push_two_digits(&mut out, (millis / MILLIS_PER_SECOND) % SECONDS_PER_MINUTE);
    } else {
        push_two_digits(&mut out, millis / MILLIS_PER_MINUTE);
        out.push(':');
        push_two_digits(&mut out, (millis / MILLIS_PER_SECOND) % SECONDS_PER_MINUTE);
    }
    string_of(&out)
}

/// The number of bytes that UTF-8 takes for `c`.
pub open spec fn utf8_len(c: char) -> nat {
    if (c as u32) < 0x80 {
        1
    } else if (c as u32) < 0x800 {
        2
    } else if (c as u32) < 0x10000 {
        3
    } else {
        4
    }
}

/// The length of `s` in UTF-8 bytes, as `str::len` counts it.
pub open spec fn byte_len(s: Seq<char>) -> nat
    decreases s.len(),
{
    if s.len() == 0 {
        0
    } else {
        byte_len(s.drop_last()) + utf8_len(s.last())
    }
}

/// `k` bytes into `s` lies between two characters.
pub open spec fn is_char_boundary(s: Seq<char>, k: nat) -> bool {
    exists|i: int| 0 <= i <= s.len() && byte_len(s.take(i)) == k
}

/// The number of characters in the first `k` bytes of `s`, where that is a boundary.
pub open spec fn chars_in_bytes(s: Seq<char>, k: nat) -> int {
    choose|i: int| 0 <= i <= s.len() && byte_len(s.take(i)) == k
}

/// What `push_chopped_str` appends: `s` escaped when it fits in `max_len` bytes; otherwise its
/// first `max_len - 1` bytes, escaped, without trailing whitespace, and an ellipsis.
pub open spec fn chopped(s: Seq<char>, max_len: nat) -> Seq<char> {
    if byte_len(s) > max_len {
        trim_end(escaped(s.take(chars_in_bytes(s, (max_len - 1) as nat)))).push('\u{2026}')
    } else {
        escaped(s)
    }
}

proof fn lemma_byte_len_grows(s: Seq<char>, a: int, b: int)
    requires
        0 <= a < b <= s.len(),
    ensures
        byte_len(s.take(a)) < byte_len(s.take(b)),
    decreases b - a,
{
    assert(s.take(b).drop_last() == s.take(b - 1));
    if a < b - 1 {
        lemma_byte_len_grows(s, a, b - 1);
    }
}

fn utf8_len_of(c: char) -> (r: usize)
    ensures
        r == utf8_len(c),
{
    if (c as u32) < 0x80 {
        1
    } else if (c as u32) < 0x800 {
        2
    } else if (c as u32) < 0x10000 {
        3
    } else {
        4
    }
}

/// The longest prefix of `s` that fits in `k` bytes: its length in characters and in bytes.
fn prefix_within(s: &Vec<char>, k: usize) -> (r: (usize, usize))
    ensures
        r.0 <= s.len(),
        r.1 == byte_len(s@.take(r.0 as int)),
        r.1 <= k,
        r.0 < s.len() ==> byte_len(s@.take(r.0 + 1)) > k,
{
    let mut i: usize = 0;
    let mut b: usize = 0;
    assert(s@.take(0) == Seq::<char>::empty());
    while i < s.len() && utf8_len_of(s[i]) <= k - b
        invariant
            i <= s.len(),
            b <= k,
            b == byte_len(s@.take(i as int)),
        decreases s.len() - i,
    {
        assert(s@.take(i + 1).drop_last() == s@.take(i as int));
        b = b + utf8_len_of(s[i]);
        i = i + 1;
    }
    if i < s.len() {
        assert(s@.take(i + 1).drop_last() == s@.take(i as int));
    }
    (i, b)
}

/// Appends `new_str` escaped, cut to `max_len` bytes with an ellipsis when it is longer.
pub fn push_chopped_str(base: &mut String, new_str: &str, max_len: usize)
    requires
        byte_len(new_str@) > max_len ==> max_len >= 1 && is_char_boundary(
            new_str@,
            (max_len - 1) as nat,
        ),
    ensures
        final(base)@ == old(base)@ + chopped(new_str@, max_len as nat),
{
    let s = chars_of(new_str);
    let (whole, _) = prefix_within(&s, max_len);
    if whole < s.len() {
        proof {
            if whole + 1 < s.len() {
                lemma_byte_len_grows(s@, whole + 1, s@.len() as int);
            }
            assert(s@.take(s@.len() as int) == s@);
        }
        let (j, b) = prefix_within(&s, max_len - 1);
        proof {
            let i = chars_in_bytes(s@, (max_len - 1) as nat);
            assert(0 <= i <= s@.len() && byte_len(s@.take(i)) == max_len - 1);
            if i < j {
                lemma_byte_len_grows(s@, i, j as int);
            } else if i > j {
                if j + 1 < i {
                    lemma_byte_len_grows(s@, j + 1, i);
                }
            }
            assert(i == j);
        }
        let mut head: Vec<char> = Vec::new();
        let mut k: usize = 0;
        while k < j
            invariant
                k <= j <= s.len(),
                head@ == s@.take(k as int),
            decreases j - k,
        {
            head.push(s[k]);
            assert(s@.take(k + 1) == s@.take(k as int).push(s@[k as int]));
            k = k + 1;
        }
        let head_text = string_of(&head);
        let esc = escape_str(head_text.as_str());
        let ec = chars_of(esc.as_str());
        let mut hi: usize = ec.len();
        while hi > 0 && is_space_char(ec[hi - 1])
            invariant
                hi <= ec.len(),
                forall|q: int| hi <= q < ec.len() ==> is_space(ec@[q]),
            decreases hi,
        {
            hi = hi - 1;
        }
        proof {
            crate::dice::lemma_trim_end(ec@, hi as int);
        }
        let mut kept: Vec<char> = Vec::new();
        let mut q: usize = 0;
        while q < hi
            invariant
                q <= hi <= ec.len(),
                kept@ == ec@.take(q as int),
            decreases hi - q,
        {
            kept.push(ec[q]);
            assert(ec@.take(q + 1) == ec@.take(q as int).push(ec@[q as int]));
            q = q + 1;
        }
        kept.push('\u{2026}');
        let tail = string_of(&kept);
        base.append(tail.as_str());
    } else {
        proof {
            assert(s@.take(s@.len() as int) == s@);
            if byte_len(s@) > max_len {
                assert(whole == s.len());
            }
        }
        let esc = escape_str(new_str);
        base.append(esc.as_str());
    }
}

/// `s` escaped and cut to `max_len` bytes, as `push_chopped_str` appends it.
pub fn chop_str(s: &str, max_len: usize) -> (r: String)
    requires
        byte_len(s@) > max_len ==> max_len >= 1 && is_char_boundary(s@, (max_len - 1) as nat),
    ensures
        r@ == chopped(s@, max_len as nat),
{
    let mut base = String::new();
    push_chopped_str(&mut base, s, max_len);
    assert(base@ == Seq::<char>::empty() + chopped(s@, max_len as nat));
    assert(Seq::<char>::empty() + chopped(s@, max_len as nat) == chopped(s@, max_len as nat));
    base
}

} // verus!
