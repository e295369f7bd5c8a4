use vstd::prelude::*;

use crate::dice::{
    count_or_one, modifier_spec, parse_dice_spec, sorted_faces, sum, trim, trim_end, trim_start,
    Dice, DiceModifier,
};
use crate::eval::{rolls_fit, run, Expr};
use crate::expr::{
    depth, is_operator_symbol, items, operator_of, program_of, scan, shunt, shunt_all, tokens_of,
    Evaluable, Item,
};
use crate::text::{
    all_digits, decimal, digit_char, digit_value, digits_value, find_either, first_non_digit,
    is_digit, is_float_literal, is_space, parse_u32_spec,
};

verus! {

proof fn lemma_digit_char(d: nat)
    requires
        d < 10,
    ensures
        digit_value(digit_char(d)) == d,
        is_digit(digit_char(d)),
{
}

proof fn lemma_decimal(n: nat)
    ensures
        decimal(n).len() > 0,
        all_digits(decimal(n)),
        digits_value(decimal(n)) == n,
        decimal(n)[0] != '+',
    decreases n,
{
    lemma_digit_char(n % 10);
    if n < 10 {
        assert(n % 10 == n);
        assert(decimal(n).drop_last() =~= Seq::<char>::empty());
        assert(digits_value(Seq::<char>::empty()) == 0);
        assert(decimal(n).last() == digit_char(n));
        assert(digits_value(decimal(n)) == 10 * digits_value(decimal(n).drop_last())
            + digit_value(decimal(n).last()));
    } else {
        lemma_decimal(n / 10);
        let s = decimal(n);
        assert(n == 10 * (n / 10) + n % 10);
        assert(decimal(n).last() == digit_char(n % 10));
        assert(decimal(n).drop_last() == decimal(n / 10));
        assert(digits_value(decimal(n)) == 10 * digits_value(decimal(n).drop_last())
            + digit_value(decimal(n).last()));
        assert(s.drop_last() == decimal(n / 10));
        assert forall|i: int| 0 <= i < s.len() implies is_digit(#[trigger] s[i]) by {
            if i < s.len() - 1 {
                assert(s[i] == decimal(n / 10)[i]);
            }
        }
    }
}

proof fn lemma_first_non_digit_all(s: Seq<char>)
    requires
        all_digits(s),
    ensures
        first_non_digit(s) == s.len(),
    decreases s.len(),
{
    if s.len() > 0 {
        assert(is_digit(s[0]));
        assert forall|i: int| 0 <= i < s.drop_first().len() implies is_digit(
            #[trigger] s.drop_first()[i],
        ) by {
            assert(s.drop_first()[i] == s[i + 1]);
        }
        lemma_first_non_digit_all(s.drop_first());
    }
}

proof fn lemma_parse_decimal(n: nat)
    requires
        n <= u32::MAX,
    ensures
        parse_u32_spec(decimal(n)) == Ok::<u32, crate::text::IntError>(n as u32),
        count_or_one(decimal(n)) == Ok::<u32, crate::text::IntError>(n as u32),
{
    lemma_decimal(n);
    lemma_first_non_digit_all(decimal(n));
    assert(decimal(n).take(decimal(n).len() as int) == decimal(n));
}

proof fn lemma_find_absent(s: Seq<char>, a: char, b: char)
    requires
        forall|i: int| 0 <= i < s.len() ==> s[i] != a && s[i] != b,
    ensures
        find_either(s, a, b) == s.len(),
    decreases s.len(),
{
    if s.len() > 0 {
        assert forall|i: int| 0 <= i < s.drop_first().len() implies s.drop_first()[i] != a
            && s.drop_first()[i] != b by {
            assert(s.drop_first()[i] == s[i + 1]);
        }
        lemma_find_absent(s.drop_first(), a, b);
    }
}

proof fn lemma_find_concat(s: Seq<char>, t: Seq<char>, a: char, b: char)
    requires
        forall|i: int| 0 <= i < s.len() ==> s[i] != a && s[i] != b,
        t.len() > 0,
        t[0] == a,
    ensures
        find_either(s + t, a, b) == s.len(),
    decreases s.len(),
{
    if s.len() == 0 {
        assert(s + t == t);
    } else {
        assert((s + t).drop_first() == s.drop_first() + t);
        assert forall|i: int| 0 <= i < s.drop_first().len() implies s.drop_first()[i] != a
            && s.drop_first()[i] != b by {
            assert(s.drop_first()[i] == s[i + 1]);
        }
        lemma_find_concat(s.drop_first(), t, a, b);
    }
}

proof fn lemma_trim_unspaced(s: Seq<char>)
    requires
        forall|i: int| 0 <= i < s.len() ==> !is_space(s[i]),
    ensures
        trim(s) == s,
{
    if s.len() > 0 {
        assert(!is_space(s[0]) && !is_space(s.last()));
    }
    assert(trim_start(s) == s);
    assert(trim_end(s) == s);
}

/// `NdS`: `n` dice of `s` faces.
pub open spec fn dice_text(n: nat, s: nat) -> Seq<char> {
    decimal(n) + seq!['d'] + decimal(s)
}

/// `NdSbK` or `NdSwK`: `n` dice of `s` faces, keeping `k` of them; `marker` is `b` or `w`.
pub open spec fn dice_text_kept(n: nat, s: nat, marker: char, k: nat) -> Seq<char> {
    decimal(n) + seq!['d'] + decimal(s) + seq![marker] + decimal(k)
}

proof fn lemma_digits_not(s: Seq<char>, c: char)
    requires
        all_digits(s),
        !is_digit(c),
    ensures
        forall|i: int| 0 <= i < s.len() ==> s[i] != c,
{
    assert forall|i: int| 0 <= i < s.len() implies s[i] != c by {
        assert(is_digit(s[i]));
    }
}

/// Dice notation without a modifier reads as dice exactly when there is at least one die and
/// there are at least two faces.
pub proof fn lemma_plain_dice_accepted(n: nat, s: nat)
    requires
        n <= u32::MAX,
        s <= u32::MAX,
    ensures
        parse_dice_spec(dice_text(n, s)) is Ok <==> n >= 1 && s >= 2,
        parse_dice_spec(dice_text(n, s)) is Ok ==> parse_dice_spec(dice_text(n, s)) == Ok::<
            Dice,
            crate::dice::ParseDiceError,
        >(Dice { size: s as u32, count: n as u32, modifier: None }),
{
    let t = dice_text(n, s);
    lemma_decimal(n);
    lemma_decimal(s);
    lemma_parse_decimal(n);
    lemma_parse_decimal(s);
    lemma_digits_not(decimal(n), 'd');
    lemma_digits_not(decimal(n), 'D');
    lemma_digits_not(decimal(s), 'b');
    lemma_digits_not(decimal(s), 'B');
    lemma_digits_not(decimal(s), 'w');
    lemma_digits_not(decimal(s), 'W');
    assert forall|i: int| 0 <= i < t.len() implies !is_space(t[i]) by {
        if i < decimal(n).len() {
            assert(t[i] == decimal(n)[i]);
            assert(is_digit(decimal(n)[i]));
        } else if i > decimal(n).len() {
            assert(t[i] == decimal(s)[i - decimal(n).len() - 1]);
            assert(is_digit(decimal(s)[i - decimal(n).len() - 1]));
        }
    }
    lemma_trim_unspaced(t);
    assert(t == decimal(n) + (seq!['d'] + decimal(s)));
    lemma_find_concat(decimal(n), seq!['d'] + decimal(s), 'd', 'D');
    let di = decimal(n).len() as int;
    assert(t.take(di) == decimal(n));
    assert(t.skip(di + 1) == decimal(s));
    lemma_find_absent(decimal(s), 'b', 'B');
    lemma_find_absent(decimal(s), 'w', 'W');
    assert(decimal(s).take(decimal(s).len() as int) == decimal(s));
}

/// Dice notation with a `b` or `w` modifier reads as dice exactly when there is at least one
/// die, there are at least two faces, and the number kept is between 1 and the number of dice.
pub proof fn lemma_kept_dice_accepted(n: nat, s: nat, marker: char, k: nat)
    requires
        n <= u32::MAX,
        s <= u32::MAX,
        k <= u32::MAX,
        marker == 'b' || marker == 'w',
    ensures
        parse_dice_spec(dice_text_kept(n, s, marker, k)) is Ok <==> n >= 1 && s >= 2 && 1 <= k
            <= n,
        parse_dice_spec(dice_text_kept(n, s, marker, k)) is Ok ==> parse_dice_spec(
            dice_text_kept(n, s, marker, k),
        ) == Ok::<Dice, crate::dice::ParseDiceError>(
            Dice {
                size: s as u32,
                count: n as u32,
                modifier: Some(
                    if marker == 'b' {
                        DiceModifier::Best(k as u32)
                    } else {
                        DiceModifier::Worst(k as u32)
                    },
                ),
            },
        ),
{
    let t = dice_text_kept(n, s, marker, k);
    lemma_decimal(n);
    lemma_decimal(s);
    lemma_decimal(k);
    lemma_parse_decimal(n);
    lemma_parse_decimal(s);
    lemma_parse_decimal(k);
    lemma_digits_not(decimal(n), 'd');
    lemma_digits_not(decimal(n), 'D');
    lemma_digits_not(decimal(s), 'b');
    lemma_digits_not(decimal(s), 'B');
    lemma_digits_not(decimal(s), 'w');
    lemma_digits_not(decimal(s), 'W');
    lemma_digits_not(decimal(k), 'b');
    lemma_digits_not(decimal(k), 'B');
    lemma_digits_not(decimal(k), 'w');
    lemma_digits_not(decimal(k), 'W');
    let ln = decimal(n).len() as int;
    let ls = decimal(s).len() as int;
    assert forall|i: int| 0 <= i < t.len() implies !is_space(t[i]) by {
        if i < ln {
            assert(t[i] == decimal(n)[i]);
            assert(is_digit(decimal(n)[i]));
        } else if ln < i < ln + 1 + ls {
            assert(t[i] == decimal(s)[i - ln - 1]);
            assert(is_digit(decimal(s)[i - ln - 1]));
        } else if i > ln + 1 + ls {
            assert(t[i] == decimal(k)[i - ln - 2 - ls]);
            assert(is_digit(decimal(k)[i - ln - 2 - ls]));
        }
    }
    lemma_trim_unspaced(t);
    let rest = decimal(s) + seq![marker] + decimal(k);
    assert(t == decimal(n) + (seq!['d'] + rest));
    lemma_find_concat(decimal(n), seq!['d'] + rest, 'd', 'D');
    assert(t.take(ln) == decimal(n));
    assert(t.skip(ln + 1) == rest);
    assert(rest == decimal(s) + (seq![marker] + decimal(k)));
    let other = if marker == 'b' {
        'w'
    } else {
        'b'
    };
    let other_up = if marker == 'b' {
        'W'
    } else {
        'B'
    };
    let up = if marker == 'b' {
        'B'
    } else {
        'W'
    };
    lemma_find_concat(decimal(s), seq![marker] + decimal(k), marker, up);
    assert forall|i: int| 0 <= i < rest.len() implies rest[i] != other && rest[i] != other_up by {
        if i < ls {
            assert(rest[i] == decimal(s)[i]);
        } else if i > ls {
            assert(rest[i] == decimal(k)[i - ls - 1]);
        }
    }
    lemma_find_absent(rest, other, other_up);
    assert(rest.take(ls) == decimal(s));
    assert(rest.skip(ls + 1) == decimal(k));
    if marker == 'b' {
        assert(find_either(rest, 'b', 'B') == ls);
    } else {
        assert(find_either(rest, 'b', 'B') == rest.len());
        assert(find_either(rest, 'w', 'W') == ls);
    }
    assert(modifier_spec(rest, n as u32) == (if k as u32 > n as u32 || k == 0 {
        Err::<Option<DiceModifier>, crate::dice::ParseDiceError>(crate::dice::ParseDiceError::Value)
    } else if marker == 'b' {
        Ok(Some(DiceModifier::Best(k as u32)))
    } else {
        Ok(Some(DiceModifier::Worst(k as u32)))
    }));
}

proof fn lemma_scan_word(t: Seq<char>)
    requires
        forall|i: int| 0 <= i < t.len() ==> !is_space(t[i]) && !is_operator_symbol(t[i]),
    ensures
        scan(t) == (Seq::<Seq<char>>::empty(), t),
    decreases t.len(),
{
    if t.len() > 0 {
        lemma_scan_word(t.drop_last());
        assert(t.drop_last().push(t.last()) == t);
    }
}

/// A token of digits and letters that holds a `d` (and no `.` or `e`) is a program of one
/// dice term when it reads as dice, and no program otherwise.
proof fn lemma_dice_word_program(t: Seq<char>, j: int)
    requires
        t.len() > 0,
        is_digit(t[0]),
        0 <= j < t.len(),
        t[j] == 'd',
        forall|i: int|
            0 <= i < t.len() ==> !is_space(t[i]) && !is_operator_symbol(t[i]) && t[i] != '.'
                && t[i] != 'e' && t[i] != 'E',
    ensures
        program_of(t) == (if parse_dice_spec(t) is Ok {
            Some(seq![Item::Dice(parse_dice_spec(t)->Ok_0)])
        } else {
            None::<Seq<Item>>
        }),
{
    lemma_scan_word(t);
    assert(tokens_of(t) == seq![t]);
    assert(seq![t].drop_last() == Seq::<Seq<char>>::empty());
    assert(seq![t].last() == t);
    assert(shunt_all(seq![t].drop_last()) == Some(
        (Seq::<Item>::empty(), Seq::<crate::expr::Operator>::empty()),
    ));
    assert(shunt_all(seq![t]) == shunt(Seq::empty(), Seq::empty(), t));
    assert(!(t[0] == '+' || t[0] == '-'));
    lemma_find_absent(t, 'e', 'E');
    lemma_find_absent(t, '.', '.');
    assert(t.take(t.len() as int) == t);
    assert(!all_digits(t)) by {
        assert(!is_digit(t[j]));
    }
    assert(!is_float_literal(t));
    if t.len() == 1 {
        assert(operator_of(t[0]) is None);
    }
    let single = seq![Item::Dice(parse_dice_spec(t)->Ok_0)];
    assert(Seq::<Item>::empty().push(Item::Dice(parse_dice_spec(t)->Ok_0)) == single);
    assert(single.drop_last() =~= Seq::<Item>::empty());
    assert(depth(Seq::<Item>::empty()) == Some(0nat));
    assert(single.last() is Dice);
    assert(depth(single) == Some(1nat));
}

proof fn lemma_dice_chars(n: nat, s: nat, t: Seq<char>)
    requires
        t == decimal(n) + seq!['d'] + decimal(s),
    ensures
        t[decimal(n).len() as int] == 'd',
        forall|i: int|
            0 <= i < t.len() && i != decimal(n).len() ==> is_digit(#[trigger] t[i]),
{
    lemma_decimal(n);
    lemma_decimal(s);
    assert forall|i: int| 0 <= i < t.len() && i != decimal(n).len() implies is_digit(
        #[trigger] t[i],
    ) by {
        if i < decimal(n).len() {
            assert(t[i] == decimal(n)[i]);
        } else {
            assert(t[i] == decimal(s)[i - decimal(n).len() - 1]);
        }
    }
}

/// A command that is one dice term `NdS` parses exactly when there is at least one die and
/// there are at least two faces.
pub proof fn lemma_plain_dice_parses(n: nat, s: nat)
    requires
        n <= u32::MAX,
        s <= u32::MAX,
    ensures
        program_of(dice_text(n, s)) is Some <==> n >= 1 && s >= 2,
        program_of(dice_text(n, s)) is Some ==> program_of(dice_text(n, s)) == Some(
            seq![Item::Dice(Dice { size: s as u32, count: n as u32, modifier: None })],
        ),
{
    let t = dice_text(n, s);
    lemma_decimal(n);
    lemma_dice_chars(n, s, t);
    assert(t[0] == decimal(n)[0]);
    lemma_dice_word_program(t, decimal(n).len() as int);
    lemma_plain_dice_accepted(n, s);
}

/// A command that is one dice term `NdSbK` or `NdSwK` parses exactly when there is at least
/// one die, there are at least two faces, and between 1 and `N` dice are kept.
pub proof fn lemma_kept_dice_parses(n: nat, s: nat, marker: char, k: nat)
    requires
        n <= u32::MAX,
        s <= u32::MAX,
        k <= u32::MAX,
        marker == 'b' || marker == 'w',
    ensures
        program_of(dice_text_kept(n, s, marker, k)) is Some <==> n >= 1 && s >= 2 && 1 <= k
            <= n,
        program_of(dice_text_kept(n, s, marker, k)) is Some ==> program_of(
            dice_text_kept(n, s, marker, k),
        ) == Some(
            seq![
                Item::Dice(
                    Dice {
                        size: s as u32,
                        count: n as u32,
                        modifier: Some(
                            if marker == 'b' {
                                DiceModifier::Best(k as u32)
                            } else {
                                DiceModifier::Worst(k as u32)
                            },
                        ),
                    },
                ),
            ],
        ),
{
    let t = dice_text_kept(n, s, marker, k);
    let u = dice_text(n, s);
    lemma_decimal(n);
    lemma_decimal(k);
    lemma_dice_chars(n, s, u);
    assert(t == u + seq![marker] + decimal(k));
    assert forall|i: int|
        0 <= i < t.len() implies !is_space(t[i]) && !is_operator_symbol(t[i]) && t[i] != '.'
        && t[i] != 'e' && t[i] != 'E' by {
        if i < u.len() {
            assert(t[i] == u[i]);
            if i != decimal(n).len() {
                assert(is_digit(u[i]));
            }
        } else if i > u.len() {
            assert(t[i] == decimal(k)[i - u.len() - 1]);
            assert(is_digit(decimal(k)[i - u.len() - 1]));
        }
    }
    assert(t[0] == decimal(n)[0]);
    assert(t[decimal(n).len() as int] == 'd');
    lemma_dice_word_program(t, decimal(n).len() as int);
    lemma_kept_dice_accepted(n, s, marker, k);
}

/// `NdSb` or `NdSw`: `n` dice of `s` faces, keeping one; `marker` is `b` or `w`.
pub open spec fn dice_text_marked(n: nat, s: nat, marker: char) -> Seq<char> {
    decimal(n) + seq!['d'] + decimal(s) + seq![marker]
}

/// Dice notation with a `b` or `w` marker and no keep count keeps one die, and reads as dice
/// exactly when there is at least one die and there are at least two faces.
pub proof fn lemma_marked_dice_accepted(n: nat, s: nat, marker: char)
    requires
        n <= u32::MAX,
        s <= u32::MAX,
        marker == 'b' || marker == 'w',
    ensures
        parse_dice_spec(dice_text_marked(n, s, marker)) is Ok <==> n >= 1 && s >= 2,
        parse_dice_spec(dice_text_marked(n, s, marker)) is Ok ==> parse_dice_spec(
            dice_text_marked(n, s, marker),
        ) == Ok::<Dice, crate::dice::ParseDiceError>(
            Dice {
                size: s as u32,
                count: n as u32,
                modifier: Some(
                    if marker == 'b' {
                        DiceModifier::Best(1)
                    } else {
                        DiceModifier::Worst(1)
                    },
                ),
            },
        ),
{
    let t = dice_text_marked(n, s, marker);
    lemma_decimal(n);
    lemma_decimal(s);
    lemma_parse_decimal(n);
    lemma_parse_decimal(s);
    lemma_digits_not(decimal(n), 'd');
    lemma_digits_not(decimal(n), 'D');
    lemma_digits_not(decimal(s), 'b');
    lemma_digits_not(decimal(s), 'B');
    lemma_digits_not(decimal(s), 'w');
    lemma_digits_not(decimal(s), 'W');
    let ln = decimal(n).len() as int;
    let ls = decimal(s).len() as int;
    assert forall|i: int| 0 <= i < t.len() implies !is_space(t[i]) by {
        if i < ln {
            assert(t[i] == decimal(n)[i]);
            assert(is_digit(decimal(n)[i]));
        } else if ln < i < ln + 1 + ls {
            assert(t[i] == decimal(s)[i - ln - 1]);
            assert(is_digit(decimal(s)[i - ln - 1]));
        }
    }
    lemma_trim_unspaced(t);
    let rest = decimal(s) + seq![marker];
    assert(t == decimal(n) + (seq!['d'] + rest));
    lemma_find_concat(decimal(n), seq!['d'] + rest, 'd', 'D');
    assert(t.take(ln) == decimal(n));
    assert(t.skip(ln + 1) == rest);
    let other = if marker == 'b' {
        'w'
    } else {
        'b'
    };
    let other_up = if marker == 'b' {
        'W'
    } else {
        'B'
    };
    let up = if marker == 'b' {
        'B'
    } else {
        'W'
    };
    lemma_find_concat(decimal(s), seq![marker], marker, up);
    assert forall|i: int| 0 <= i < rest.len() implies rest[i] != other && rest[i] != other_up by {
        if i < ls {
            assert(rest[i] == decimal(s)[i]);
        }
    }
    lemma_find_absent(rest, other, other_up);
    assert(rest.take(ls) == decimal(s));
    assert(rest.skip(ls + 1) =~= Seq::<char>::empty());
    if marker == 'b' {
        assert(find_either(rest, 'b', 'B') == ls);
    } else {
        assert(find_either(rest, 'b', 'B') == rest.len());
        assert(find_either(rest, 'w', 'W') == ls);
    }
    assert(modifier_spec(rest, n as u32) == (if 1 > n as u32 {
        Err::<Option<DiceModifier>, crate::dice::ParseDiceError>(crate::dice::ParseDiceError::Value)
    } else if marker == 'b' {
        Ok(Some(DiceModifier::Best(1)))
    } else {
        Ok(Some(DiceModifier::Worst(1)))
    }));
}

/// A command that is one dice term `NdSb` or `NdSw` parses exactly when there is at least one
/// die and there are at least two faces; its program is that single term, keeping one die.
pub proof fn lemma_marked_dice_parses(n: nat, s: nat, marker: char)
    requires
        n <= u32::MAX,
        s <= u32::MAX,
        marker == 'b' || marker == 'w',
    ensures
        program_of(dice_text_marked(n, s, marker)) is Some <==> n >= 1 && s >= 2,
        program_of(dice_text_marked(n, s, marker)) is Some ==> program_of(
            dice_text_marked(n, s, marker),
        ) == Some(
            seq![
                Item::Dice(
                    Dice {
                        size: s as u32,
                        count: n as u32,
                        modifier: Some(
                            if marker == 'b' {
                                DiceModifier::Best(1)
                            } else {
                                DiceModifier::Worst(1)
                            },
                        ),
                    },
                ),
            ],
        ),
{
    let t = dice_text_marked(n, s, marker);
    let u = dice_text(n, s);
    lemma_decimal(n);
    lemma_dice_chars(n, s, u);
    assert(t == u + seq![marker]);
    assert forall|i: int|
        0 <= i < t.len() implies !is_space(t[i]) && !is_operator_symbol(t[i]) && t[i] != '.'
        && t[i] != 'e' && t[i] != 'E' by {
        if i < u.len() {
            assert(t[i] == u[i]);
            if i != decimal(n).len() {
                assert(is_digit(u[i]));
            }
        }
    }
    assert(t[0] == decimal(n)[0]);
    assert(t[decimal(n).len() as int] == 'd');
    lemma_dice_word_program(t, decimal(n).len() as int);
    lemma_marked_dice_accepted(n, s, marker);
}

proof fn lemma_sort_two(a: u32, b: u32)
    ensures
        sorted_faces(seq![a, b]) == (if a <= b {
            seq![a, b]
        } else {
            seq![b, a]
        }),
{
    assert(seq![a, b].drop_last() =~= seq![a]);
    assert(seq![a].drop_last() =~= Seq::<u32>::empty());
    assert(sorted_faces(Seq::<u32>::empty()) =~= Seq::<u32>::empty());
    assert(crate::dice::insert_sorted(a, Seq::<u32>::empty()) =~= seq![a]);
    assert(crate::dice::insert_sorted(b, Seq::<u32>::empty()) =~= seq![b]);
    assert(sorted_faces(seq![a]) =~= seq![a]);
    assert(seq![a].drop_first() =~= Seq::<u32>::empty());
    let srt = crate::dice::insert_sorted(b, seq![a]);
    if b <= a {
        assert(srt =~= seq![b, a]);
    } else {
        assert(srt =~= seq![a, b]);
    }
}

/// `2d20b` counts the higher of its two faces.
pub proof fn lemma_best_of_two(a: u32, b: u32)
    ensures
        (Dice { size: 20, count: 2, modifier: Some(DiceModifier::Best(1)) }).total_of(seq![a, b])
            == if a >= b {
            a
        } else {
            b
        },
{
    lemma_sort_two(a, b);
    let srt = sorted_faces(seq![a, b]);
    assert(srt.skip(1) =~= seq![srt[1]]);
    assert(seq![srt[1]].drop_last() =~= Seq::<u32>::empty());
    assert(sum(Seq::<u32>::empty()) == 0);
    assert(sum(seq![srt[1]]) == srt[1]);
}

/// `3d10w2` counts the two lowest of its three faces.
pub proof fn lemma_worst_two_of_three(a: u32, b: u32, c: u32)
    ensures
        (Dice { size: 10, count: 3, modifier: Some(DiceModifier::Worst(2)) }).total_of(
            seq![a, b, c],
        ) == a + b + c - (if a >= b && a >= c {
            a
        } else if b >= c {
            b
        } else {
            c
        }),
{
    let r = seq![a, b, c];
    lemma_sort_two(a, b);
    assert(r.drop_last() =~= seq![a, b]);
    let s2 = sorted_faces(seq![a, b]);
    let srt = sorted_faces(r);
    assert(srt == crate::dice::insert_sorted(c, s2));
    assert(s2.drop_first() =~= seq![s2[1]]);
    assert(seq![s2[1]].drop_first() =~= Seq::<u32>::empty());
    assert(crate::dice::insert_sorted(c, Seq::<u32>::empty()) =~= seq![c]);
    if c <= s2[0] {
        assert(srt =~= seq![c, s2[0], s2[1]]);
    } else if c <= s2[1] {
        assert(crate::dice::insert_sorted(c, seq![s2[1]]) =~= seq![c, s2[1]]);
        assert(srt =~= seq![s2[0], c, s2[1]]);
    } else {
        assert(crate::dice::insert_sorted(c, seq![s2[1]]) =~= seq![s2[1], c]);
        assert(srt =~= seq![s2[0], s2[1], c]);
    }
    let low = srt.take(2);
    assert(low =~= seq![srt[0], srt[1]]);
    assert(low.drop_last() =~= seq![srt[0]]);
    assert(seq![srt[0]].drop_last() =~= Seq::<u32>::empty());
    assert(sum(Seq::<u32>::empty()) == 0);
    assert(sum(seq![srt[0]]) == srt[0]);
    assert(sum(low) == srt[0] + srt[1]);
}

/// Evaluating the program of `2d20b` rolls two d20 and yields the higher face.
pub proof fn lemma_best_of_two_evaluates(rolls: Seq<Seq<u32>>)
    requires
        rolls_fit(
            seq![Item::Dice(Dice { size: 20, count: 2, modifier: Some(DiceModifier::Best(1)) })],
            rolls,
        ),
    ensures
        rolls.len() == 1,
        rolls[0].len() == 2,
        1 <= rolls[0][0] <= 20 && 1 <= rolls[0][1] <= 20,
        run(
            seq![Item::Dice(Dice { size: 20, count: 2, modifier: Some(DiceModifier::Best(1)) })],
            rolls,
        ) == Some(
            seq![
                Expr::Rolled(
                    if rolls[0][0] >= rolls[0][1] {
                        rolls[0][0] as int
                    } else {
                        rolls[0][1] as int
                    },
                ),
            ],
        ),
{
    let d = Dice { size: 20, count: 2, modifier: Some(DiceModifier::Best(1)) };
    let p = seq![Item::Dice(d)];
    assert(p.drop_last() =~= Seq::<Item>::empty());
    assert(p.last() == Item::Dice(d));
    assert(rolls.len() > 0 && rolls_fit(p.drop_last(), rolls.drop_last()));
    assert(rolls_fit(Seq::<Item>::empty(), rolls.drop_last()));
    assert(rolls.drop_last().len() == 0);
    assert(rolls.last() == rolls[0]);
    let r = rolls[0];
    assert(r =~= seq![r[0], r[1]]);
    lemma_best_of_two(r[0], r[1]);
    assert(run(Seq::<Item>::empty(), rolls.drop_last()) == Some(Seq::<Expr>::empty()));
    assert(Seq::<Expr>::empty().push(Expr::Rolled(d.total_of(r))) =~= seq![
        Expr::Rolled(d.total_of(r)),
    ]);
}

/// Evaluating the program of `3d10w2` rolls three d10 and yields the sum of the two lowest.
pub proof fn lemma_worst_two_of_three_evaluates(rolls: Seq<Seq<u32>>)
    requires
        rolls_fit(
            seq![Item::Dice(Dice { size: 10, count: 3, modifier: Some(DiceModifier::Worst(2)) })],
            rolls,
        ),
    ensures
        rolls.len() == 1,
        rolls[0].len() == 3,
        forall|i: int| 0 <= i < 3 ==> 1 <= #[trigger] rolls[0][i] <= 10,
        run(
            seq![Item::Dice(Dice { size: 10, count: 3, modifier: Some(DiceModifier::Worst(2)) })],
            rolls,
        ) == Some(
            seq![
                Expr::Rolled(
                    rolls[0][0] + rolls[0][1] + rolls[0][2] - (if rolls[0][0] >= rolls[0][1]
                        && rolls[0][0] >= rolls[0][2] {
                        rolls[0][0] as int
                    } else if rolls[0][1] >= rolls[0][2] {
                        rolls[0][1] as int
                    } else {
                        rolls[0][2] as int
                    }),
                ),
            ],
        ),
{
    let d = Dice { size: 10, count: 3, modifier: Some(DiceModifier::Worst(2)) };
    let p = seq![Item::Dice(d)];
    assert(p.drop_last() =~= Seq::<Item>::empty());
    assert(p.last() == Item::Dice(d));
    assert(rolls.len() > 0 && rolls_fit(p.drop_last(), rolls.drop_last()));
    assert(rolls_fit(Seq::<Item>::empty(), rolls.drop_last()));
    assert(rolls.drop_last().len() == 0);
    assert(rolls.last() == rolls[0]);
    let r = rolls[0];
    assert(r =~= seq![r[0], r[1], r[2]]);
    lemma_worst_two_of_three(r[0], r[1], r[2]);
    assert(run(Seq::<Item>::empty(), rolls.drop_last()) == Some(Seq::<Expr>::empty()));
    assert(Seq::<Expr>::empty().push(Expr::Rolled(d.total_of(r))) =~= seq![
        Expr::Rolled(d.total_of(r)),
    ]);
}

/// `e` with every dice total replaced by zero: what an evaluation is regardless of the faces
/// rolled.
pub open spec fn shape(e: Expr) -> Expr
    decreases e,
{
    match e {
        Expr::Rolled(_) => Expr::Rolled(0),
        Expr::Num(t) => Expr::Num(t),
        Expr::Apply(op, l, r) => Expr::Apply(op, Box::new(shape(*l)), Box::new(shape(*r))),
    }
}

pub open spec fn shapes(st: Seq<Expr>) -> Seq<Expr> {
    st.map_values(|e: Expr| shape(e))
}

/// The number of dice terms in `p`.
pub open spec fn dice_count(p: Seq<Item>) -> nat
    decreases p.len(),
{
    if p.len() == 0 {
        0
    } else {
        dice_count(p.drop_last()) + if p.last() is Dice {
            1nat
        } else {
            0nat
        }
    }
}

/// Parsing is a function of the command: two parses of one command give equal programs.
pub proof fn lemma_parse_deterministic(command: Seq<char>, p1: Seq<Evaluable>, p2: Seq<Evaluable>)
    requires
        program_of(command) == Some(items(p1)),
        program_of(command) == Some(items(p2)),
    ensures
        items(p1) == items(p2),
{
}

/// Two evaluations of one program differ only in the faces rolled and the totals they give:
/// both succeed or both fail, keep one roll per dice term and roll the same number of dice
/// for each, and build expressions of the same shape. Without dice they are equal.
pub proof fn lemma_evaluation_shape(p: Seq<Item>, r1: Seq<Seq<u32>>, r2: Seq<Seq<u32>>)
    requires
        rolls_fit(p, r1),
        rolls_fit(p, r2),
    ensures
        r1.len() == r2.len() == dice_count(p),
        dice_count(p) == 0 ==> r1 == r2 && run(p, r1) == run(p, r2),
        forall|k: int| 0 <= k < r1.len() ==> (#[trigger] r1[k]).len() == r2[k].len(),
        run(p, r1) is Some <==> run(p, r2) is Some,
        run(p, r1) is Some ==> shapes(run(p, r1)->Some_0) == shapes(run(p, r2)->Some_0),
    decreases p.len(),
{
    if p.len() > 0 {
        let q = p.drop_last();
        match p.last() {
            Item::Dice(d) => {
                lemma_evaluation_shape(q, r1.drop_last(), r2.drop_last());
                assert forall|k: int| 0 <= k < r1.len() implies (#[trigger] r1[k]).len()
                    == r2[k].len() by {
                    if k < r1.len() - 1 {
                        assert(r1[k] == r1.drop_last()[k]);
                        assert(r2[k] == r2.drop_last()[k]);
                    }
                }
                if run(p, r1) is Some {
                    let s1 = run(q, r1.drop_last())->Some_0;
                    let s2 = run(q, r2.drop_last())->Some_0;
                    let e1 = Expr::Rolled(d.total_of(r1.last()));
                    let e2 = Expr::Rolled(d.total_of(r2.last()));
                    assert(shapes(s1.push(e1)) =~= shapes(s1).push(shape(e1)));
                    assert(shapes(s2.push(e2)) =~= shapes(s2).push(shape(e2)));
                }
            },
            Item::Num(t) => {
                lemma_evaluation_shape(q, r1, r2);
                if run(p, r1) is Some {
                    let s1 = run(q, r1)->Some_0;
                    let s2 = run(q, r2)->Some_0;
                    assert(shapes(s1.push(Expr::Num(t))) =~= shapes(s1).push(Expr::Num(t)));
                    assert(shapes(s2.push(Expr::Num(t))) =~= shapes(s2).push(Expr::Num(t)));
                }
            },
            Item::Operator(o) => {
                lemma_evaluation_shape(q, r1, r2);
                if run(q, r1) is Some {
                    let s1 = run(q, r1)->Some_0;
                    let s2 = run(q, r2)->Some_0;
                    assert(s1.len() == shapes(s1).len());
                    assert(s2.len() == shapes(s2).len());
                    if run(p, r1) is Some {
                        let n = s1.len();
                        assert(shapes(s1)[n - 2] == shape(s1[n - 2]));
                        assert(shapes(s2)[n - 2] == shape(s2[n - 2]));
                        assert(shapes(s1)[n - 1] == shape(s1[n - 1]));
                        assert(shapes(s2)[n - 1] == shape(s2[n - 1]));
                        let a1 = Expr::Apply(o.op, Box::new(s1[n - 2]), Box::new(s1[n - 1]));
                        let a2 = Expr::Apply(o.op, Box::new(s2[n - 2]), Box::new(s2[n - 1]));
                        assert(shapes(s1.take(n - 2).push(a1)) =~= shapes(s1).take(n - 2).push(
                            shape(a1),
                        ));
                        assert(shapes(s2.take(n - 2).push(a2)) =~= shapes(s2).take(n - 2).push(
                            shape(a2),
                        ));
                        assert(shapes(s1).take(n - 2) == shapes(s2).take(n - 2));
                    }
                }
            },
        }
    }
}

} // verus!
