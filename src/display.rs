use vstd::prelude::*;

use crate::text::decimal;
use crate::util::{push_decimal, string_of};

verus! {

/// The faces of one roll, separated by spaces.
pub open spec fn faces_text(r: Seq<u32>) -> Seq<char>
    decreases r.len(),
{
    if r.len() == 0 {
        seq![]
    } else if r.len() == 1 {
        decimal(r[0] as nat)
    } else {
        faces_text(r.drop_last()).push(' ') + decimal(r.last() as nat)
    }
}

/// One roll: its faces, in brackets when there are several.
pub open spec fn roll_text(r: Seq<u32>) -> Seq<char> {
    if r.len() > 1 {
        seq!['['] + faces_text(r) + seq![']']
    } else {
        faces_text(r)
    }
}

/// The rolls, separated by spaces.
pub open spec fn rolls_join(rs: Seq<Seq<u32>>) -> Seq<char>
    decreases rs.len(),
{
    if rs.len() == 0 {
        seq![]
    } else if rs.len() == 1 {
        roll_text(rs[0])
    } else {
        rolls_join(rs.drop_last()).push(' ') + roll_text(rs.last())
    }
}

/// The rolls of an evaluation as inline code: nothing when there are none, brackets round
/// the whole when there are several.
pub open spec fn rolls_text(rs: Seq<Seq<u32>>) -> Seq<char> {
    if rs.len() == 0 {
        seq![]
    } else if rs.len() > 1 {
        seq!['`', '['] + rolls_join(rs) + seq![']', '`']
    } else {
        seq!['`'] + rolls_join(rs) + seq!['`']
    }
}

fn push_roll(out: &mut Vec<char>, r: &Vec<u32>)
    ensures
        final(out)@ == old(out)@ + roll_text(r@),
{
    let ghost start = out@;
    if r.len() > 1 {
        out.push('[');
    }
    let ghost mid = out@;
    let mut j: usize = 0;
    while j < r.len()
        invariant
            j <= r.len(),
            out@ == mid + faces_text(r@.take(j as int)),
        decreases r.len() - j,
    {
        let ghost before = out@;
        proof {
            assert(r@.take(j + 1).drop_last() == r@.take(j as int));
            assert(r@.take(j + 1).last() == r@[j as int]);
            if j == 0 {
                assert(r@.take(1)[0] == r@[0]);
            }
        }
        if j > 0 {
            out.push(' ');
        }
        push_decimal(out, r[j] as u64);
        proof {
            if j == 0 {
                assert(r@.take(0) == Seq::<u32>::empty());
                assert(out@ == mid + faces_text(r@.take(1)));
            } else {
                assert(out@ == mid + faces_text(r@.take(j + 1)));
            }
        }
        j = j + 1;
    }
    assert(r@.take(j as int) == r@);
    if r.len() > 1 {
        out.push(']');
    }
}

/// Shows the faces of each dice term, as in `` `[[3 5] 12]` ``.
pub fn display_rolls(dice_rolls: &[Vec<u32>]) -> (r: String)
    ensures
        r@ == rolls_text(dice_rolls@.map_values(|v: Vec<u32>| v@)),
{
    let ghost views = dice_rolls@.map_values(|v: Vec<u32>| v@);
    let mut out: Vec<char> = Vec::new();
    let n = dice_rolls.len();
    if n == 0 {
        return string_of(&out);
    }
    out.push('`');
    if n > 1 {
        out.push('[');
    }
    let ghost mid = out@;
    let mut i: usize = 0;
    while i < n
        invariant
            n == dice_rolls@.len(),
            views == dice_rolls@.map_values(|v: Vec<u32>| v@),
            i <= n,
            out@ == mid + rolls_join(views.take(i as int)),
        decreases n - i,
    {
        proof {
            assert(views.take(i + 1).drop_last() == views.take(i as int));
            assert(views.take(i + 1).last() == dice_rolls@[i as int]@);
            if i == 0 {
                assert(views.take(1)[0] == dice_rolls@[0]@);
            }
        }
        if i > 0 {
            out.push(' ');
        }
        push_roll(&mut out, &dice_rolls[i]);
        proof {
            if i == 0 {
                assert(views.take(0) == Seq::<Seq<u32>>::empty());
                assert(out@ == mid + rolls_join(views.take(1)));
            } else {
                assert(out@ == mid + rolls_join(views.take(i + 1)));
            }
        }
        i = i + 1;
    }
    assert(views.take(n as int) == views);
    if n > 1 {
        out.push(']');
    }
    out.push('`');
    string_of(&out)
}

} // verus!
