use vstd::prelude::*;

use crate::dice::{trim, trim_bounds};
use crate::eval::{evaluate_roll_rpn, expr_of, is_outcome, roll_views, rolls_fit, run, Term};
use crate::expr::{dice_wf, items, parse_roll_command, program_of, Evaluable, Item};
use crate::text::{chars_of, find_either, find_either_in};
use crate::util::string_of;

verus! {

/// The character that starts the note a user attaches to a roll.
pub const ANNOTATION_CHAR: char = '!';

/// A command split at its first `!`: the trimmed text before it, and the trimmed note after
/// it when there is one.
pub open spec fn annotation_split(s: Seq<char>) -> (Seq<char>, Option<Seq<char>>) {
    let i = find_either(s, '!', '!');
    if i == s.len() {
        (trim(s), None)
    } else {
        (trim(s.take(i)), Some(trim(s.skip(i + 1))))
    }
}

/// `s[lo..hi]` without surrounding whitespace.
fn trimmed(s: &Vec<char>, lo: usize, hi: usize) -> (r: Vec<char>)
    requires
        lo <= hi <= s.len(),
    ensures
        r@ == trim(s@.subrange(lo as int, hi as int)),
{
    let part = slice_of(s, lo, hi);
    let (a, b) = trim_bounds(&part);
    slice_of(&part, a, b)
}

fn slice_of(s: &Vec<char>, lo: usize, hi: usize) -> (r: Vec<char>)
    requires
        lo <= hi <= s.len(),
    ensures
        r@ == s@.subrange(lo as int, hi as int),
{
    let mut out: Vec<char> = Vec::new();
    let mut i: usize = lo;
    while i < hi
        invariant
            lo <= i <= hi <= s.len(),
            out@ == s@.subrange(lo as int, i as int),
        decreases hi - i,
    {
        out.push(s[i]);
        assert(s@.subrange(lo as int, i + 1) == s@.subrange(lo as int, i as int).push(s@[i as int]));
        i = i + 1;
    }
    out
}

fn split_chars(s: &Vec<char>) -> (r: (Vec<char>, Option<Vec<char>>))
    ensures
        r.0@ == annotation_split(s@).0,
        r.1 is Some == annotation_split(s@).1 is Some,
        r.1 matches Some(a) ==> a@ == annotation_split(s@).1->Some_0,
{
    let n = s.len();
    let i = find_either_in(s, 0, n, ANNOTATION_CHAR, ANNOTATION_CHAR);
    assert(s@.subrange(0, n as int) == s@);
    if i == n {
        (trimmed(s, 0, n), None)
    } else {
        assert(s@.take(i as int) == s@.subrange(0, i as int));
        assert(s@.skip(i + 1) == s@.subrange(i + 1, n as int));
        (trimmed(s, 0, i), Some(trimmed(s, i + 1, n)))
    }
}

/// Splits a roll command from the note after its first `!`.
pub fn split_annotation(command: &str) -> (r: (String, Option<String>))
    ensures
        r.0@ == annotation_split(command@).0,
        r.1 is Some == annotation_split(command@).1 is Some,
        r.1 matches Some(a) ==> a@ == annotation_split(command@).1->Some_0,
{
    let chars = chars_of(command);
    let (c, a) = split_chars(&chars);
    let note = match a {
        Some(v) => Some(string_of(&v)),
        None => None,
    };
    (string_of(&c), note)
}

/// What a saved roll becomes with the extra text given when it is run: the extra command is
/// applied to the saved one in parentheses, and the extra note follows the saved name.
pub open spec fn combined_roll(name: Seq<char>, command: Seq<char>, extra: Option<Seq<char>>) -> (
    Seq<char>,
    Seq<char>,
) {
    match extra {
        None => (command, name),
        Some(e) => {
            let (c, a) = annotation_split(e);
            let cmd = if c.len() > 0 {
                seq!['('] + command + seq![')', ' '] + c
            } else {
                command
            };
            let reason = match a {
                Some(note) => if note.len() > 0 {
                    name + seq![';', ' '] + note
                } else {
                    name
                },
                None => name,
            };
            (cmd, reason)
        },
    }
}

pub open spec fn text_of(o: Option<&str>) -> Option<Seq<char>> {
    match o {
        Some(a) => Some(a@),
        None => None,
    }
}

/// The command and the reason to run for a saved roll `name` holding `command`, with the
/// extra command and note that the user added, if any.
pub fn combine_saved_roll(name: &str, command: &str, additional: Option<&str>) -> (r: (
    String,
    String,
))
    ensures
        (r.0@, r.1@) == combined_roll(name@, command@, text_of(additional)),
{
    let name_chars = chars_of(name);
    let command_chars = chars_of(command);
    match additional {
        None => (string_of(&command_chars), string_of(&name_chars)),
        Some(extra) => {
            let (c, a) = split_chars(&chars_of(extra));
            let mut cmd: Vec<char> = Vec::new();
            if c.len() > 0 {
                cmd.push('(');
                let mut i: usize = 0;
                while i < command_chars.len()
                    invariant
                        i <= command_chars.len(),
                        cmd@ == seq!['('] + command_chars@.take(i as int),
                    decreases command_chars.len() - i,
                {
                    cmd.push(command_chars[i]);
                    assert(command_chars@.take(i + 1) == command_chars@.take(i as int).push(
                        command_chars@[i as int],
                    ));
                    i = i + 1;
                }
                assert(command_chars@.take(i as int) == command_chars@);
                cmd.push(')');
                cmd.push(' ');
                let ghost head = cmd@;
                let mut j: usize = 0;
                while j < c.len()
                    invariant
                        j <= c.len(),
                        cmd@ == head + c@.take(j as int),
                    decreases c.len() - j,
                {
                    cmd.push(c[j]);
                    assert(c@.take(j + 1) == c@.take(j as int).push(c@[j as int]));
                    j = j + 1;
                }
                assert(c@.take(j as int) == c@);
                assert(head == seq!['('] + command@ + seq![')', ' ']);
            } else {
                cmd = command_chars;
            }
            let mut reason: Vec<char> = name_chars;
            match a {
                Some(note) => {
                    if note.len() > 0 {
                        reason.push(';');
                        reason.push(' ');
                        let ghost head = reason@;
                        let mut k: usize = 0;
                        while k < note.len()
                            invariant
                                k <= note.len(),
                                reason@ == head + note@.take(k as int),
                            decreases note.len() - k,
                        {
                            reason.push(note[k]);
                            assert(note@.take(k + 1) == note@.take(k as int).push(note@[k as int]));
                            k = k + 1;
                        }
                        assert(note@.take(k as int) == note@);
                    }
                },
                None => {},
            }
            (string_of(&cmd), string_of(&reason))
        },
    }
}

/// Whether a roll's faces are worth a full breakdown: several dice terms, or one with five
/// or more dice.
pub fn shows_roll_breakdown(dice_rolls: &Vec<Vec<u32>>) -> (r: bool)
    ensures
        r == (dice_rolls@.len() > 1 || (dice_rolls@.len() == 1 && dice_rolls@[0]@.len() >= 5)),
{
    dice_rolls.len() > 1 || (dice_rolls.len() == 1 && dice_rolls[0].len() >= 5)
}

/// Runs one program `count` times, keeping each resulting term; `None` when the program does
/// not evaluate (then no run does, as the dice do not affect that).
pub fn evaluate_batch(rpn: &Vec<Evaluable>, count: u32) -> (r: Option<Vec<Term>>)
    requires
        dice_wf(items(rpn@)),
    ensures
        r is Some <==> (count == 0 || crate::expr::depth(items(rpn@)) == Some(1nat)),
        r matches Some(ts) ==> ts@.len() == count && forall|k: int|
            0 <= k < ts@.len() ==> is_outcome(items(rpn@), #[trigger] ts@[k]),
{
    let mut results: Vec<Term> = Vec::new();
    let mut i: u32 = 0;
    while i < count
        invariant
            dice_wf(items(rpn@)),
            i <= count,
            results@.len() == i,
            i > 0 ==> crate::expr::depth(items(rpn@)) == Some(1nat),
            forall|k: int| 0 <= k < results@.len() ==> is_outcome(items(rpn@), #[trigger] results@[k]),
        decreases count - i,
    {
        match evaluate_roll_rpn(rpn) {
            Some((t, rolls)) => {
                let ghost rv = roll_views(rolls@);
                assert(rolls_fit(items(rpn@), rv) && run(items(rpn@), rv) == Some(
                    seq![expr_of(t)],
                ));
                assert(is_outcome(items(rpn@), t));
                results.push(t);
                assert forall|k: int| 0 <= k < results@.len() implies is_outcome(
                    items(rpn@),
                    #[trigger] results@[k],
                ) by {
                    if k == results@.len() - 1 {
                        assert(results@[k] == t);
                    }
                }
            },
            None => {
                return None;
            },
        }
        i = i + 1;
    }
    Some(results)
}

/// The lower-case form of `s`, as `str::to_lowercase` gives it.
pub uninterp spec fn lower_of(s: Seq<char>) -> Seq<char>;

/// Relies on `str::to_lowercase`: the result depends on the characters of `s` alone.
#[verifier::external_body]
fn lowercase(s: &str) -> (r: String)
    ensures
        r@ == lower_of(s@),
{
    s.to_lowercase()
}

/// A roll command saved under a name by one user of one server.
#[derive(Debug, Clone, PartialEq, Eq)]
pub struct SavedRoll {
    pub guild_id: i64,
    pub user_id: i64,
    pub name: String,
    pub command: String,
}

/// Why a roll command cannot be saved.
#[derive(Debug, Clone, Copy, PartialEq, Eq, Structural)]
pub enum SaveRollError {
    /// The command holds a `!` note; the saved name serves as the note instead.
    Annotated,
    /// The command is empty or does not parse.
    Invalid,
}

/// Checks a roll command for saving and builds its record: the name in lower case, the
/// command trimmed.
pub fn new_saved_roll(guild_id: i64, user_id: i64, identifier: &str, command: &str) -> (r: Result<
    SavedRoll,
    SaveRollError,
>)
    ensures
        ({
            let c = trim(command@);
            if find_either(c, '!', '!') < c.len() {
                r == Err::<SavedRoll, SaveRollError>(SaveRollError::Annotated)
            } else if c.len() == 0 || program_of(c) is None {
                r == Err::<SavedRoll, SaveRollError>(SaveRollError::Invalid)
            } else {
                r matches Ok(saved) && saved.guild_id == guild_id && saved.user_id == user_id
                    && saved.name@ == lower_of(identifier@) && saved.command@ == c
            }
        }),
{
    let chars = chars_of(command);
    let n = chars.len();
    let c = trimmed(&chars, 0, n);
    assert(chars@.subrange(0, n as int) == chars@);
    if find_either_in(&c, 0, c.len(), ANNOTATION_CHAR, ANNOTATION_CHAR) < c.len() {
        assert(c@.subrange(0, c@.len() as int) == c@);
        return Err(SaveRollError::Annotated);
    }
    assert(c@.subrange(0, c@.len() as int) == c@);
    let text = string_of(&c);
    if c.len() == 0 || parse_roll_command(text.as_str()).is_err() {
        return Err(SaveRollError::Invalid);
    }
    Ok(SavedRoll { guild_id, user_id, name: lowercase(identifier), command: text })
}

/// The most dice that one dice term of a command may roll. Parsing accepts any count; the
/// command layer refuses a program above this bound before rolling it.
pub const MAX_DICE_PER_TERM: u32 = 10000;

/// Every dice term of `p` rolls at most `max_count` dice.
pub open spec fn dice_at_most(p: Seq<Item>, max_count: u32) -> bool {
    forall|i: int| 0 <= i < p.len() ==> (#[trigger] p[i] is Dice ==> p[i]->Dice_0.count <= max_count)
}

/// Whether every dice term of the program rolls at most `max_count` dice.
pub fn dice_within(rpn: &Vec<Evaluable>, max_count: u32) -> (r: bool)
    ensures
        r == dice_at_most(items(rpn@), max_count),
{
    let mut i: usize = 0;
    while i < rpn.len()
        invariant
            i <= rpn.len(),
            forall|j: int|
                0 <= j < i ==> (#[trigger] items(rpn@)[j] is Dice ==> items(rpn@)[j]->Dice_0.count
                    <= max_count),
        decreases rpn.len() - i,
    {
        match &rpn[i] {
            Evaluable::Dice(d) => {
                if d.count > max_count {
                    assert(items(rpn@)[i as int] is Dice);
                    return false;
                }
            },
            _ => {},
        }
        i = i + 1;
    }
    true
}

} // verus!
