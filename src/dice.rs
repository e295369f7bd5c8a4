use vstd::prelude::*;

use crate::text::{
    chars_of, find_either, find_either_in, is_space, is_space_char, parse_u32, parse_u32_spec,
    IntError,
};

verus! {

/// Which of the rolled dice count towards a term's total.
#[derive(Debug, Clone, Copy, PartialEq, Eq, Structural)]
pub enum DiceModifier {
    /// Keep the `n` highest faces.
    Best(u32),
    /// Keep the `n` lowest faces.
    Worst(u32),
}

/// A dice term such as `3d10w2`: `count` dice with faces `1..=size`.
///
/// Parsing sets no upper bound on `count` or `size`; a caller that must bound the work of a
/// roll checks `count` before rolling.
#[derive(Debug, Clone, Copy, PartialEq, Eq, Structural)]
pub struct Dice {
    pub size: u32,
    pub count: u32,
    pub modifier: Option<DiceModifier>,
}

/// Why a token is not a dice term.
#[derive(Debug, Clone, Copy, PartialEq, Eq, Structural)]
pub enum ParseDiceError {
    /// The die size or the keep count is not an unsigned integer.
    Int(IntError),
    /// The token has no `d`, an unreadable count, or both a `b` and a `w`.
    Format,
    /// A number is out of range: count below 1, size below 2, or a keep count
    /// outside `1..=count`.
    Value,
}

impl DiceModifier {
    pub open spec fn kept(self) -> u32 {
        match self {
            DiceModifier::Best(n) => n,
            DiceModifier::Worst(n) => n,
        }
    }
}

impl Dice {
    /// At least one die, at least two faces, and a keep count within `1..=count`.
    pub open spec fn wf(self) -> bool {
        &&& self.count >= 1
        &&& self.size >= 2
        &&& match self.modifier {
            Some(m) => 1 <= m.kept() <= self.count,
            None => true,
        }
    }
}

/// `s` without its leading whitespace.
pub open spec fn trim_start(s: Seq<char>) -> Seq<char>
    decreases s.len(),
{
    if s.len() > 0 && is_space(s[0]) {
        trim_start(s.drop_first())
    } else {
        s
    }
}

/// `s` without its trailing whitespace.
pub open spec fn trim_end(s: Seq<char>) -> Seq<char>
    decreases s.len(),
{
    if s.len() > 0 && is_space(s.last()) {
        trim_end(s.drop_last())
    } else {
        s
    }
}

pub open spec fn trim(s: Seq<char>) -> Seq<char> {
    trim_end(trim_start(s))
}

/// An optional number that defaults to 1 when its text is empty.
pub open spec fn count_or_one(s: Seq<char>) -> Result<u32, IntError> {
    if s.len() == 0 {
        Ok(1u32)
    } else {
        parse_u32_spec(s)
    }
}

/// The modifier written after the die size, from the marker on (`b2`, `w`, or nothing).
pub open spec fn modifier_spec(rest: Seq<char>, count: u32) -> Result<
    Option<DiceModifier>,
    ParseDiceError,
> {
    let bi = find_either(rest, 'b', 'B');
    let mi = if bi < rest.len() {
        bi
    } else {
        find_either(rest, 'w', 'W')
    };
    if mi == rest.len() {
        Ok(None)
    } else {
        match count_or_one(rest.skip(mi + 1)) {
            Err(e) => Err(ParseDiceError::Int(e)),
            Ok(n) => if n > count || n == 0 {
                Err(ParseDiceError::Value)
            } else if bi < rest.len() {
                Ok(Some(DiceModifier::Best(n)))
            } else {
                Ok(Some(DiceModifier::Worst(n)))
            },
        }
    }
}

/// Dice notation `[count]d<size>[(b|w)[keep]]`, read without regard to case or surrounding
/// whitespace.
pub open spec fn parse_dice_spec(s: Seq<char>) -> Result<Dice, ParseDiceError> {
    let t = trim(s);
    let di = find_either(t, 'd', 'D');
    if di == t.len() {
        Err(ParseDiceError::Format)
    } else {
        match count_or_one(t.take(di)) {
            Err(_) => Err(ParseDiceError::Format),
            Ok(count) => {
                let rest = t.skip(di + 1);
                let bi = find_either(rest, 'b', 'B');
                let wi = find_either(rest, 'w', 'W');
                if bi < rest.len() && wi < rest.len() {
                    Err(ParseDiceError::Format)
                } else {
                    let mi = if bi < rest.len() {
                        bi
                    } else {
                        wi
                    };
                    match parse_u32_spec(rest.take(mi)) {
                        Err(e) => Err(ParseDiceError::Int(e)),
                        Ok(size) => match modifier_spec(rest, count) {
                            Err(e) => Err(e),
                            Ok(modifier) => if count < 1 || size < 2 {
                                Err(ParseDiceError::Value)
                            } else {
                                Ok(Dice { size, count, modifier })
                            },
                        },
                    }
                }
            },
        }
    }
}

proof fn lemma_trim_start(s: Seq<char>, lo: int)
    requires
        0 <= lo <= s.len(),
        forall|j: int| 0 <= j < lo ==> is_space(s[j]),
        lo < s.len() ==> !is_space(s[lo]),
    ensures
        trim_start(s) == s.skip(lo),
    decreases s.len(),
{
    if lo > 0 {
        assert forall|j: int| 0 <= j < lo - 1 implies is_space(s.drop_first()[j]) by {
            assert(s.drop_first()[j] == s[j + 1]);
        }
        lemma_trim_start(s.drop_first(), lo - 1);
        assert(s.drop_first().skip(lo - 1) == s.skip(lo));
    } else {
        assert(s.skip(0) == s);
    }
}

pub(crate) proof fn lemma_trim_end(s: Seq<char>, hi: int)
    requires
        0 <= hi <= s.len(),
        forall|j: int| hi <= j < s.len() ==> is_space(s[j]),
        hi > 0 ==> !is_space(s[hi - 1]),
    ensures
        trim_end(s) == s.take(hi),
    decreases s.len(),
{
    if hi < s.len() {
        lemma_trim_end(s.drop_last(), hi);
        assert(s.drop_last().take(hi) == s.take(hi));
    } else {
        assert(s.take(hi) == s);
    }
}

/// The bounds `lo..hi` of `s` without surrounding whitespace.
pub(crate) fn trim_bounds(s: &Vec<char>) -> (r: (usize, usize))
    ensures
        r.0 <= r.1 <= s.len(),
        s@.subrange(r.0 as int, r.1 as int) == trim(s@),
{
    let mut lo: usize = 0;
    while lo < s.len() && is_space_char(s[lo])
        invariant
            lo <= s.len(),
            forall|j: int| 0 <= j < lo ==> is_space(s@[j]),
        decreases s.len() - lo,
    {
        lo = lo + 1;
    }
    let mut hi: usize = s.len();
    while hi > lo && is_space_char(s[hi - 1])
        invariant
            lo <= hi <= s.len(),
            forall|j: int| hi <= j < s.len() ==> is_space(s@[j]),
        decreases hi,
    {
        hi = hi - 1;
    }
    proof {
        lemma_trim_start(s@, lo as int);
        let t = s@.skip(lo as int);
        assert forall|j: int| hi - lo <= j < t.len() implies is_space(t[j]) by {
            assert(t[j] == s@[j + lo]);
        }
        lemma_trim_end(t, hi - lo);
        assert(t.take(hi - lo) == s@.subrange(lo as int, hi as int));
    }
    (lo, hi)
}

fn count_or_one_in(s: &Vec<char>, lo: usize, hi: usize) -> (r: Result<u32, IntError>)
    requires
        lo <= hi <= s.len(),
    ensures
        r == count_or_one(s@.subrange(lo as int, hi as int)),
{
    if lo == hi {
        Ok(1)
    } else {
        parse_u32(s, lo, hi)
    }
}

impl Dice {
    /// Reads dice notation from a run of characters.
    pub fn parse_chars(s: &Vec<char>) -> (r: Result<Dice, ParseDiceError>)
        ensures
            r == parse_dice_spec(s@),
            r is Ok ==> r->Ok_0.wf(),
    {
        let (lo, hi) = trim_bounds(s);
        let ghost t = s@.subrange(lo as int, hi as int);
        let di = lo + find_either_in(s, lo, hi, 'd', 'D');
        if di == hi {
            return Err(ParseDiceError::Format);
        }
        assert(t.take(di - lo) == s@.subrange(lo as int, di as int));
        let count = match count_or_one_in(s, lo, di) {
            Err(_) => {
                return Err(ParseDiceError::Format);
            },
            Ok(c) => c,
        };
        let rlo = di + 1;
        let ghost rest = s@.subrange(rlo as int, hi as int);
        assert(t.skip(di - lo + 1) == rest);
        let bi = find_either_in(s, rlo, hi, 'b', 'B');
        let wi = find_either_in(s, rlo, hi, 'w', 'W');
        let rlen = hi - rlo;
        if bi < rlen && wi < rlen {
            return Err(ParseDiceError::Format);
        }
        let mi = if bi < rlen {
            bi
        } else {
            wi
        };
        assert(rest.take(mi as int) == s@.subrange(rlo as int, (rlo + mi) as int));
        let size = match parse_u32(s, rlo, rlo + mi) {
            Err(e) => {
                return Err(ParseDiceError::Int(e));
            },
            Ok(v) => v,
        };
        let modifier = if mi == rlen {
            None
        } else {
            assert(rest.skip(mi + 1) == s@.subrange((rlo + mi + 1) as int, hi as int));
            let n = match count_or_one_in(s, rlo + mi + 1, hi) {
                Err(e) => {
                    return Err(ParseDiceError::Int(e));
                },
                Ok(v) => v,
            };
            if n > count || n == 0 {
                return Err(ParseDiceError::Value);
            }
            if bi < rlen {
                Some(DiceModifier::Best(n))
            } else {
                Some(DiceModifier::Worst(n))
            }
        };
        if count < 1 || size < 2 {
            return Err(ParseDiceError::Value);
        }
        Ok(Dice { size, count, modifier })
    }
}

/// The sum of the faces in `s`.
pub open spec fn sum(s: Seq<u32>) -> int
    decreases s.len(),
{
    if s.len() == 0 {
        0
    } else {
        sum(s.drop_last()) + s.last()
    }
}

/// `x` placed into the ascending `s` before the first face that is not below it.
pub open spec fn insert_sorted(x: u32, s: Seq<u32>) -> Seq<u32>
    decreases s.len(),
{
    if s.len() == 0 {
        seq![x]
    } else if x <= s[0] {
        seq![x] + s
    } else {
        seq![s[0]] + insert_sorted(x, s.drop_first())
    }
}

/// The faces of `s` in ascending order.
pub open spec fn sorted_faces(s: Seq<u32>) -> Seq<u32>
    decreases s.len(),
{
    if s.len() == 0 {
        seq![]
    } else {
        insert_sorted(s.last(), sorted_faces(s.drop_last()))
    }
}

impl Dice {
    /// The value of a roll of these dice that showed `rolls`: every face, the `n`
    /// highest, or the `n` lowest, added up.
    pub open spec fn total_of(self, rolls: Seq<u32>) -> int {
        match self.modifier {
            None => sum(rolls),
            Some(DiceModifier::Best(n)) => sum(
                sorted_faces(rolls).skip(rolls.len() - n),
            ),
            Some(DiceModifier::Worst(n)) => sum(sorted_faces(rolls).take(n as int)),
        }
    }

    /// `rolls` is what a roll of these dice can show.
    pub open spec fn fits(self, rolls: Seq<u32>) -> bool {
        &&& rolls.len() == self.count
        &&& forall|i: int| 0 <= i < rolls.len() ==> 1 <= #[trigger] rolls[i] <= self.size
    }
}

/// No face of `s` is above a later one.
pub open spec fn ascending(s: Seq<u32>) -> bool {
    forall|i: int, j: int| 0 <= i < j < s.len() ==> s[i] <= s[j]
}

proof fn lemma_singleton_then(a: u32, t: Seq<u32>)
    ensures
        (seq![a] + t).to_multiset() =~= t.to_multiset().insert(a),
{
    broadcast use vstd::seq_lib::lemma_multiset_commutative;
    broadcast use vstd::multiset::group_multiset_axioms;
    broadcast use vstd::seq_lib::group_to_multiset_ensures;

    assert(seq![a] =~= Seq::<u32>::empty().push(a));
    assert(Seq::<u32>::empty().to_multiset() =~= vstd::multiset::Multiset::empty());
}

proof fn lemma_insert_sorted_props(x: u32, s: Seq<u32>)
    requires
        ascending(s),
    ensures
        ascending(insert_sorted(x, s)),
        insert_sorted(x, s).to_multiset() =~= s.to_multiset().insert(x),
        forall|k: int|
            0 <= k < insert_sorted(x, s).len() ==> #[trigger] insert_sorted(x, s)[k] == x
                || s.contains(insert_sorted(x, s)[k]),
    decreases s.len(),
{
    lemma_insert_sorted_len(x, s);
    if s.len() == 0 {
        lemma_singleton_then(x, s);
        assert(seq![x] + s =~= seq![x]);
    } else if x <= s[0] {
        lemma_singleton_then(x, s);
        let r = seq![x] + s;
        assert forall|k: int| 0 <= k < r.len() && k > 0 implies s.contains(#[trigger] r[k]) by {
            assert(r[k] == s[k - 1]);
        }
    } else {
        let rest = s.drop_first();
        lemma_insert_sorted_props(x, rest);
        let t = insert_sorted(x, rest);
        let r = seq![s[0]] + t;
        lemma_singleton_then(s[0], t);
        lemma_singleton_then(s[0], rest);
        assert(s =~= seq![s[0]] + rest);
        assert forall|k: int| 0 <= k < t.len() implies s[0] <= #[trigger] t[k] by {
            if t[k] != x {
                let j = choose|j: int| 0 <= j < rest.len() && rest[j] == t[k];
                assert(rest[j] == s[j + 1]);
            }
        }
        assert forall|i: int, j: int| 0 <= i < j < r.len() implies r[i] <= r[j] by {
            if i == 0 {
                assert(r[j] == t[j - 1]);
            } else {
                assert(r[i] == t[i - 1] && r[j] == t[j - 1]);
            }
        }
        assert forall|k: int| 0 <= k < r.len() implies #[trigger] r[k] == x || s.contains(r[k]) by {
            if k == 0 {
                assert(s[0] == r[0]);
            } else {
                assert(r[k] == t[k - 1]);
                if r[k] != x {
                    let j = choose|j: int| 0 <= j < rest.len() && rest[j] == r[k];
                    assert(s[j + 1] == r[k]);
                }
            }
        }
    }
}

/// `sorted_faces(s)` is `s` in ascending order: it is ascending and holds the same faces,
/// each as often as `s` does.
pub proof fn lemma_sorted_faces(s: Seq<u32>)
    ensures
        ascending(sorted_faces(s)),
        sorted_faces(s).to_multiset() =~= s.to_multiset(),
    decreases s.len(),
{
    broadcast use vstd::seq_lib::group_to_multiset_ensures;

    if s.len() == 0 {
        assert(sorted_faces(s) =~= s);
    } else {
        lemma_sorted_faces(s.drop_last());
        lemma_insert_sorted_props(s.last(), sorted_faces(s.drop_last()));
        assert(s =~= s.drop_last().push(s.last()));
    }
}

proof fn lemma_insert_sorted(x: u32, s: Seq<u32>, p: int)
    requires
        0 <= p <= s.len(),
        forall|j: int| 0 <= j < p ==> s[j] < x,
        p < s.len() ==> x <= s[p],
    ensures
        insert_sorted(x, s) == s.insert(p, x),
    decreases s.len(),
{
    if s.len() == 0 {
        assert(s.insert(p, x) == seq![x]);
    } else if p == 0 {
        assert(s.insert(0, x) == seq![x] + s);
    } else {
        assert forall|j: int| 0 <= j < p - 1 implies s.drop_first()[j] < x by {
            assert(s.drop_first()[j] == s[j + 1]);
        }
        lemma_insert_sorted(x, s.drop_first(), p - 1);
        assert(seq![s[0]] + s.drop_first().insert(p - 1, x) == s.insert(p, x));
    }
}

proof fn lemma_insert_sorted_len(x: u32, s: Seq<u32>)
    ensures
        insert_sorted(x, s).len() == s.len() + 1,
    decreases s.len(),
{
    if s.len() > 0 {
        lemma_insert_sorted_len(x, s.drop_first());
    }
}

proof fn lemma_sorted_faces_len(s: Seq<u32>)
    ensures
        sorted_faces(s).len() == s.len(),
    decreases s.len(),
{
    if s.len() > 0 {
        lemma_sorted_faces_len(s.drop_last());
        lemma_insert_sorted_len(s.last(), sorted_faces(s.drop_last()));
    }
}

/// A copy of `rolls` in ascending order.
fn sorted_copy(rolls: &Vec<u32>) -> (r: Vec<u32>)
    ensures
        r@ == sorted_faces(rolls@),
{
    let mut out: Vec<u32> = Vec::new();
    let mut i: usize = 0;
    while i < rolls.len()
        invariant
            i <= rolls.len(),
            out@ == sorted_faces(rolls@.take(i as int)),
        decreases rolls.len() - i,
    {
        let x = rolls[i];
        let mut p: usize = 0;
        while p < out.len() && out[p] < x
            invariant
                p <= out.len(),
                forall|j: int| 0 <= j < p ==> out@[j] < x,
            decreases out.len() - p,
        {
            p = p + 1;
        }
        proof {
            lemma_insert_sorted(x, out@, p as int);
            assert(rolls@.take(i + 1).drop_last() == rolls@.take(i as int));
        }
        out.insert(p, x);
        i = i + 1;
    }
    assert(rolls@.take(i as int) == rolls@);
    out
}

/// The sum of `s[lo..hi]`.
fn sum_range(s: &Vec<u32>, lo: usize, hi: usize) -> (r: u64)
    requires
        lo <= hi <= s.len(),
        hi - lo <= u32::MAX,
    ensures
        r == sum(s@.subrange(lo as int, hi as int)),
{
    let mut acc: u64 = 0;
    let mut i: usize = lo;
    while i < hi
        invariant
            lo <= i <= hi <= s.len(),
            hi - lo <= u32::MAX,
            acc == sum(s@.subrange(lo as int, i as int)),
            acc <= (i - lo) * (u32::MAX as int),
        decreases hi - i,
    {
        proof {
            assert(s@.subrange(lo as int, i + 1).drop_last() == s@.subrange(lo as int, i as int));
            let k = (i - lo) as int;
            assert((k + 1) * (u32::MAX as int) <= (u32::MAX as int) * (u32::MAX as int))
                by (nonlinear_arith)
                requires
                    k + 1 <= u32::MAX,
            ;
            assert((k + 1) * (u32::MAX as int) == k * (u32::MAX as int) + u32::MAX)
                by (nonlinear_arith);
        }
        acc = acc + s[i] as u64;
        i = i + 1;
    }
    acc
}

/// Relies on rand 0.8's `Uniform::new_inclusive(1, size)` sampled with `thread_rng`: a
/// value in `1..=size` (it panics only when the low bound exceeds the high one).
#[verifier::external_body]
fn roll_die(size: u32) -> (r: u32)
    requires
        size >= 1,
    ensures
        1 <= r <= size,
{
    let mut rng = rand::thread_rng();
    rand::Rng::sample(&mut rng, rand::distributions::Uniform::new_inclusive(1, size))
}

impl Dice {
    /// The total of a roll that showed `rolls`: all faces, or the kept ones.
    pub fn total(&self, rolls: &Vec<u32>) -> (r: u64)
        requires
            self.wf(),
            rolls@.len() == self.count,
        ensures
            r == self.total_of(rolls@),
    {
        match self.modifier {
            None => {
                assert(rolls@.subrange(0, rolls@.len() as int) == rolls@);
                sum_range(rolls, 0, rolls.len())
            },
            Some(DiceModifier::Best(n)) => {
                let sorted = sorted_copy(rolls);
                proof {
                    lemma_sorted_faces_len(rolls@);
                    assert(sorted@.subrange(rolls.len() - n, sorted@.len() as int) == sorted@.skip(
                        rolls.len() - n,
                    ));
                }
                sum_range(&sorted, rolls.len() - n as usize, sorted.len())
            },
            Some(DiceModifier::Worst(n)) => {
                let sorted = sorted_copy(rolls);
                proof {
                    lemma_sorted_faces_len(rolls@);
                    assert(sorted@.subrange(0, n as int) == sorted@.take(n as int));
                }
                sum_range(&sorted, 0, n as usize)
            },
        }
    }

    /// Rolls the dice: one face per die, in the order rolled, and the term's total.
    pub fn eval(&self) -> (r: (Vec<u32>, u64))
        requires
            self.wf(),
        ensures
            self.fits(r.0@),
            r.1 == self.total_of(r.0@),
    {
        let mut rolls: Vec<u32> = Vec::new();
        let mut i: u32 = 0;
        while i < self.count
            invariant
                self.wf(),
                i <= self.count,
                rolls@.len() == i,
                forall|j: int| 0 <= j < rolls@.len() ==> 1 <= #[trigger] rolls@[j] <= self.size,
            decreases self.count - i,
        {
            rolls.push(roll_die(self.size));
            i = i + 1;
        }
        let total = self.total(&rolls);
        (rolls, total)
    }
}

impl std::str::FromStr for Dice {
    type Err = ParseDiceError;

    fn from_str(s: &str) -> (r: Result<Dice, ParseDiceError>)
        ensures
            r == parse_dice_spec(s@),
            r is Ok ==> r->Ok_0.wf(),
    {
        Dice::parse_chars(&chars_of(s))
    }
}

} // verus!
