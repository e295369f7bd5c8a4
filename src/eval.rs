use vstd::prelude::*;

use crate::dice::Dice;
use crate::expr::{depth, dice_wf, items, lemma_depth_stuck, Evaluable, Item, OperatorType};

verus! {

/// An evaluated expression: numbers, dice totals, and the operators that combine them.
/// The arithmetic itself is floating point and is left to the caller.
#[derive(Debug, PartialEq)]
pub enum Term {
    /// A number, as the text of its literal.
    Num(Vec<char>),
    /// The total of a rolled dice term.
    Rolled(u64),
    /// An operator applied to its left and its right operand.
    Apply(OperatorType, Box<Term>, Box<Term>),
}

/// What a term stands for.
pub enum Expr {
    Num(Seq<char>),
    Rolled(int),
    Apply(OperatorType, Box<Expr>, Box<Expr>),
}

pub open spec fn expr_of(t: Term) -> Expr
    decreases t,
{
    match t {
        Term::Num(v) => Expr::Num(v@),
        Term::Rolled(n) => Expr::Rolled(n as int),
        Term::Apply(op, l, r) => Expr::Apply(op, Box::new(expr_of(*l)), Box::new(expr_of(*r))),
    }
}

pub open spec fn exprs_of(ts: Seq<Term>) -> Seq<Expr> {
    ts.map_values(|t: Term| expr_of(t))
}

pub open spec fn roll_views(rs: Seq<Vec<u32>>) -> Seq<Seq<u32>> {
    rs.map_values(|r: Vec<u32>| r@)
}

/// `rolls` holds, in program order, one roll for each dice term of `p`, each of a length
/// and with faces that the term allows.
pub open spec fn rolls_fit(p: Seq<Item>, rolls: Seq<Seq<u32>>) -> bool
    decreases p.len(),
{
    if p.len() == 0 {
        rolls.len() == 0
    } else {
        match p.last() {
            Item::Dice(d) => rolls.len() > 0 && d.fits(rolls.last()) && rolls_fit(
                p.drop_last(),
                rolls.drop_last(),
            ),
            _ => rolls_fit(p.drop_last(), rolls),
        }
    }
}

/// The operand stack after running `p` with the dice showing `rolls`; `None` when an
/// operator finds fewer than two operands, or is a parenthesis.
pub open spec fn run(p: Seq<Item>, rolls: Seq<Seq<u32>>) -> Option<Seq<Expr>>
    decreases p.len(),
{
    if p.len() == 0 {
        Some(seq![])
    } else {
        match p.last() {
            Item::Dice(d) => match run(p.drop_last(), rolls.drop_last()) {
                Some(st) => Some(st.push(Expr::Rolled(d.total_of(rolls.last())))),
                None => None,
            },
            Item::Num(t) => match run(p.drop_last(), rolls) {
                Some(st) => Some(st.push(Expr::Num(t))),
                None => None,
            },
            Item::Operator(o) => match run(p.drop_last(), rolls) {
                Some(st) => if st.len() < 2 || o.op == OperatorType::ParenthesisLeft || o.op
                    == OperatorType::ParenthesisRight {
                    None
                } else {
                    Some(
                        st.take(st.len() - 2).push(
                            Expr::Apply(o.op, Box::new(st[st.len() - 2]), Box::new(st.last())),
                        ),
                    )
                },
                None => None,
            },
        }
    }
}

/// `t` is what one evaluation of `p` can give, for some faces that its dice may show.
pub open spec fn is_outcome(p: Seq<Item>, t: Term) -> bool {
    exists|rolls: Seq<Seq<u32>>| rolls_fit(p, rolls) && run(p, rolls) == Some(seq![expr_of(t)])
}

proof fn lemma_push_view<A, B>(s: Seq<A>, x: A, f: spec_fn(A) -> B)
    ensures
        s.push(x).map_values(f) == s.map_values(f).push(f(x)),
{
    assert(s.push(x).map_values(f) =~= s.map_values(f).push(f(x)));
}

proof fn lemma_pop_view<A, B>(s: Seq<A>, f: spec_fn(A) -> B)
    requires
        s.len() > 0,
    ensures
        s.drop_last().map_values(f) == s.map_values(f).drop_last(),
{
    assert(s.drop_last().map_values(f) =~= s.map_values(f).drop_last());
}

/// Runs a postfix program once, rolling its dice: the single term left on the stack and
/// the faces of each dice term in program order. `None` when an operator lacks operands or
/// when more or fewer than one value remains.
pub fn evaluate_roll_rpn(rpn: &Vec<Evaluable>) -> (r: Option<(Term, Vec<Vec<u32>>)>)
    requires
        dice_wf(items(rpn@)),
    ensures
        r is Some <==> depth(items(rpn@)) == Some(1nat),
        r matches Some((t, rolls)) ==> rolls_fit(items(rpn@), roll_views(rolls@)) && run(
            items(rpn@),
            roll_views(rolls@),
        ) == Some(seq![expr_of(t)]),
{
    let ghost p = items(rpn@);
    let mut rolls: Vec<Vec<u32>> = Vec::new();
    let mut stack: Vec<Term> = Vec::new();
    let mut i: usize = 0;
    while i < rpn.len()
        invariant
            i <= rpn.len(),
            p == items(rpn@),
            dice_wf(p),
            rolls_fit(p.take(i as int), roll_views(rolls@)),
            run(p.take(i as int), roll_views(rolls@)) == Some(exprs_of(stack@)),
            depth(p.take(i as int)) == Some(stack@.len() as nat),
        decreases rpn.len() - i,
    {
        let ghost q = p.take(i + 1);
        let ghost rolls0 = roll_views(rolls@);
        let ghost stack0 = exprs_of(stack@);
        proof {
            assert(q.drop_last() == p.take(i as int));
            assert(q.last() == rpn@[i as int]@);
        }
        match &rpn[i] {
            Evaluable::Dice(d) => {
                assert(p[i as int] is Dice);
                let (faces, total) = d.eval();
                proof {
                    lemma_push_view(rolls@, faces, |r: Vec<u32>| r@);
                    lemma_push_view(stack@, Term::Rolled(total), |t: Term| expr_of(t));
                    assert(roll_views(rolls@.push(faces)).drop_last() == rolls0);
                }
                rolls.push(faces);
                stack.push(Term::Rolled(total));
            },
            Evaluable::Num(t) => {
                let t2 = t.clone();
                proof {
                    lemma_push_view(stack@, Term::Num(t2), |t: Term| expr_of(t));
                }
                stack.push(Term::Num(t2));
            },
            Evaluable::Operator(o) => {
                if stack.len() < 2 || o.op == OperatorType::ParenthesisLeft || o.op
                    == OperatorType::ParenthesisRight {
                    proof {
                        lemma_depth_stuck(p, i + 1);
                    }
                    return None;
                }
                let right = stack.pop().unwrap();
                let left = stack.pop().unwrap();
                let term = Term::Apply(o.op, Box::new(left), Box::new(right));
                proof {
                    lemma_push_view(stack@, left, |t: Term| expr_of(t));
                    lemma_push_view(stack@.push(left), right, |t: Term| expr_of(t));
                    lemma_push_view(stack@, term, |t: Term| expr_of(t));
                    assert(stack0 == exprs_of(stack@.push(left).push(right)));
                    assert(stack0.take(stack0.len() - 2) == exprs_of(stack@));
                }
                stack.push(term);
            },
        }
        i = i + 1;
    }
    assert(p.take(i as int) == p);
    if stack.len() != 1 {
        return None;
    }
    let t = stack.pop().unwrap();
    proof {
        assert(exprs_of(seq![t]) == seq![expr_of(t)]);
        assert(stack@.push(t) == seq![t]);
    }
    Some((t, rolls))
}

} // verus!
