use vstd::prelude::*;

use crate::dice::{parse_dice_spec, Dice};
use crate::text::{chars_of, is_float_literal, is_float_text, is_space, is_space_char};

verus! {

/// The arithmetic operators and the grouping parentheses.
#[derive(Debug, Clone, Copy, PartialEq, Eq, Structural)]
pub enum OperatorType {
    Exponent,
    Multiply,
    Divide,
    Add,
    Subtract,
    ParenthesisLeft,
    ParenthesisRight,
}

/// An operator with its parsing properties. `functional` is false for parentheses, which
/// group and compute nothing.
#[derive(Debug, Clone, Copy, PartialEq, Eq, Structural)]
pub struct Operator {
    pub op: OperatorType,
    pub functional: bool,
    pub precedence: u8,
    pub associates_left: bool,
}

/// One element of a program in postfix order.
#[derive(Debug, Clone, PartialEq)]
pub enum Evaluable {
    /// A number, as the text of a literal that `f64::from_str` accepts.
    Num(Vec<char>),
    Dice(Dice),
    Operator(Operator),
}

/// What an element of a program stands for.
pub enum Item {
    Num(Seq<char>),
    Dice(Dice),
    Operator(Operator),
}

impl View for Evaluable {
    type V = Item;

    open spec fn view(&self) -> Item {
        match self {
            Evaluable::Num(t) => Item::Num(t@),
            Evaluable::Dice(d) => Item::Dice(*d),
            Evaluable::Operator(o) => Item::Operator(*o),
        }
    }
}

/// The items of a program.
pub open spec fn items(p: Seq<Evaluable>) -> Seq<Item> {
    p.map_values(|e: Evaluable| e@)
}

/// Every dice term of the program is well formed.
pub open spec fn dice_wf(p: Seq<Item>) -> bool {
    forall|i: int| 0 <= i < p.len() ==> (#[trigger] p[i] is Dice ==> p[i]->Dice_0.wf())
}

/// The characters that stand for an operator or a parenthesis.
pub open spec fn is_operator_symbol(c: char) -> bool {
    c == '^' || c == '*' || c == '\u{d7}' || c == 'x' || c == '/' || c == '\u{f7}' || c == '+'
        || c == '-' || c == '(' || c == ')'
}

pub open spec fn operator(op: OperatorType, precedence: u8, associates_left: bool) -> Operator {
    Operator { op, functional: precedence > 0, precedence, associates_left }
}

/// The operator that a symbol stands for: `^` binds tightest and groups to the right;
/// `*`, `×`, `x`, `/` and `÷` come next, then `+` and `-`.
pub open spec fn operator_of(c: char) -> Option<Operator> {
    if c == '^' {
        Some(operator(OperatorType::Exponent, 4, false))
    } else if c == '*' || c == '\u{d7}' || c == 'x' {
        Some(operator(OperatorType::Multiply, 3, true))
    } else if c == '/' || c == '\u{f7}' {
        Some(operator(OperatorType::Divide, 3, true))
    } else if c == '+' {
        Some(operator(OperatorType::Add, 2, true))
    } else if c == '-' {
        Some(operator(OperatorType::Subtract, 2, true))
    } else if c == '(' {
        Some(operator(OperatorType::ParenthesisLeft, 0, true))
    } else if c == ')' {
        Some(operator(OperatorType::ParenthesisRight, 0, true))
    } else {
        None
    }
}

/// Converts an operator symbol to its operator.
pub fn token_to_operator(c: char) -> (r: Option<Operator>)
    ensures
        r == operator_of(c),
        r is Some <==> is_operator_symbol(c),
{
    if c == '^' {
        Some(Operator { op: OperatorType::Exponent, functional: true, precedence: 4, associates_left: false })
    } else if c == '*' || c == '\u{d7}' || c == 'x' {
        Some(Operator { op: OperatorType::Multiply, functional: true, precedence: 3, associates_left: true })
    } else if c == '/' || c == '\u{f7}' {
        Some(Operator { op: OperatorType::Divide, functional: true, precedence: 3, associates_left: true })
    } else if c == '+' {
        Some(Operator { op: OperatorType::Add, functional: true, precedence: 2, associates_left: true })
    } else if c == '-' {
        Some(Operator { op: OperatorType::Subtract, functional: true, precedence: 2, associates_left: true })
    } else if c == '(' {
        Some(Operator { op: OperatorType::ParenthesisLeft, functional: false, precedence: 0, associates_left: true })
    } else if c == ')' {
        Some(Operator { op: OperatorType::ParenthesisRight, functional: false, precedence: 0, associates_left: true })
    } else {
        None
    }
}

/// `cur` appended to `ts` as a finished token, unless it is empty.
pub open spec fn close_token(ts: Seq<Seq<char>>, cur: Seq<char>) -> Seq<Seq<char>> {
    if cur.len() > 0 {
        ts.push(cur)
    } else {
        ts
    }
}

/// The finished tokens and the token in progress after reading `s` left to right.
pub open spec fn scan(s: Seq<char>) -> (Seq<Seq<char>>, Seq<char>)
    decreases s.len(),
{
    if s.len() == 0 {
        (seq![], seq![])
    } else {
        let (ts, cur) = scan(s.drop_last());
        let c = s.last();
        if is_space(c) {
            (close_token(ts, cur), seq![])
        } else if is_operator_symbol(c) {
            (close_token(ts, cur).push(seq![c]), seq![])
        } else {
            (ts, cur.push(c))
        }
    }
}

/// The tokens of a command: whitespace separates tokens, and each operator symbol is a
/// token of its own.
pub open spec fn tokens_of(s: Seq<char>) -> Seq<Seq<char>> {
    let (ts, cur) = scan(s);
    close_token(ts, cur)
}

pub open spec fn token_views(ts: Seq<Vec<char>>) -> Seq<Seq<char>> {
    ts.map_values(|t: Vec<char>| t@)
}

/// Splits a command into its tokens.
pub fn tokenize(s: &Vec<char>) -> (r: Vec<Vec<char>>)
    ensures
        token_views(r@) == tokens_of(s@),
{
    let mut ts: Vec<Vec<char>> = Vec::new();
    let mut cur: Vec<char> = Vec::new();
    let mut i: usize = 0;
    while i < s.len()
        invariant
            i <= s.len(),
            (token_views(ts@), cur@) == scan(s@.take(i as int)),
        decreases s.len() - i,
    {
        let c = s[i];
        proof {
            assert(s@.take(i + 1).drop_last() == s@.take(i as int));
        }
        if is_space_char(c) || token_to_operator(c).is_some() {
            if cur.len() > 0 {
                ts.push(cur);
                assert(token_views(ts@) == close_token(scan(s@.take(i as int)).0, scan(s@.take(i as int)).1));
            }
            cur = Vec::new();
            if !is_space_char(c) {
                let mut sym: Vec<char> = Vec::new();
                sym.push(c);
                ts.push(sym);
                assert(sym@ == seq![c]);
            }
            assert(token_views(ts@) == scan(s@.take(i + 1)).0);
        } else {
            cur.push(c);
        }
        i = i + 1;
    }
    assert(s@.take(i as int) == s@);
    if cur.len() > 0 {
        ts.push(cur);
    }
    assert(token_views(ts@) == tokens_of(s@));
    ts
}

} // verus!

verus! {

/// The operator `top`, on the stack, goes to the output before `op` is pushed.
pub open spec fn pops_before(top: Operator, op: Operator) -> bool {
    top.op != OperatorType::ParenthesisLeft && (top.precedence > op.precedence || (top.precedence
        == op.precedence && op.associates_left))
}

/// Moves operators from the top of the stack (its last element) to the output while they
/// bind at least as tightly as the incoming `op`.
pub open spec fn pop_for(out: Seq<Item>, ops: Seq<Operator>, op: Operator) -> (
    Seq<Item>,
    Seq<Operator>,
)
    decreases ops.len(),
{
    if ops.len() > 0 && pops_before(ops.last(), op) {
        pop_for(out.push(Item::Operator(ops.last())), ops.drop_last(), op)
    } else {
        (out, ops)
    }
}

/// Moves operators to the output down to the nearest `(`, which is dropped; `None` when the
/// stack holds no `(`.
pub open spec fn close_group(out: Seq<Item>, ops: Seq<Operator>) -> Option<
    (Seq<Item>, Seq<Operator>),
>
    decreases ops.len(),
{
    if ops.len() == 0 {
        None
    } else if ops.last().op == OperatorType::ParenthesisLeft {
        Some((out, ops.drop_last()))
    } else {
        close_group(out.push(Item::Operator(ops.last())), ops.drop_last())
    }
}

/// Moves the whole stack to the output; `None` when a parenthesis is left on it.
pub open spec fn drain(out: Seq<Item>, ops: Seq<Operator>) -> Option<Seq<Item>>
    decreases ops.len(),
{
    if ops.len() == 0 {
        Some(out)
    } else if ops.last().op == OperatorType::ParenthesisLeft || ops.last().op
        == OperatorType::ParenthesisRight {
        None
    } else {
        drain(out.push(Item::Operator(ops.last())), ops.drop_last())
    }
}

/// An operand token: dice notation first, then a number; `None` for anything else.
pub open spec fn operand_of(t: Seq<char>) -> Option<Item> {
    if parse_dice_spec(t) is Ok {
        Some(Item::Dice(parse_dice_spec(t)->Ok_0))
    } else if is_float_literal(t) {
        Some(Item::Num(t))
    } else {
        None
    }
}

/// One token read into the output and the operator stack.
pub open spec fn shunt(out: Seq<Item>, ops: Seq<Operator>, t: Seq<char>) -> Option<
    (Seq<Item>, Seq<Operator>),
> {
    if t.len() == 1 && operator_of(t[0]) is Some {
        let op = operator_of(t[0])->Some_0;
        if op.functional {
            let (o2, s2) = pop_for(out, ops, op);
            Some((o2, s2.push(op)))
        } else if op.op == OperatorType::ParenthesisLeft {
            Some((out, ops.push(op)))
        } else {
            close_group(out, ops)
        }
    } else {
        match operand_of(t) {
            Some(item) => Some((out.push(item), ops)),
            None => None,
        }
    }
}

/// The output and the operator stack after reading all of `ts`.
pub open spec fn shunt_all(ts: Seq<Seq<char>>) -> Option<(Seq<Item>, Seq<Operator>)>
    decreases ts.len(),
{
    if ts.len() == 0 {
        Some((seq![], seq![]))
    } else {
        match shunt_all(ts.drop_last()) {
            None => None,
            Some((out, ops)) => shunt(out, ops, ts.last()),
        }
    }
}

/// The postfix program that the shunting-yard rules make of a command; `None` for an unknown
/// token or unmatched parentheses.
pub open spec fn shunted(s: Seq<char>) -> Option<Seq<Item>> {
    match shunt_all(tokens_of(s)) {
        None => None,
        Some((out, ops)) => drain(out, ops),
    }
}

/// The program that a command stands for: the shunting-yard program, provided every operator
/// in it finds two operands. `None` for an unknown token, unmatched parentheses, or an
/// operator missing an operand.
pub open spec fn program_of(s: Seq<char>) -> Option<Seq<Item>> {
    match shunted(s) {
        Some(p) => if depth(p) is Some {
            Some(p)
        } else {
            None
        },
        None => None,
    }
}

/// The height of the operand stack after running `p`; `None` where `run` fails. It does not
/// depend on the dice.
pub open spec fn depth(p: Seq<Item>) -> Option<nat>
    decreases p.len(),
{
    if p.len() == 0 {
        Some(0)
    } else {
        match depth(p.drop_last()) {
            None => None,
            Some(n) => match p.last() {
                Item::Operator(o) => if n < 2 || o.op == OperatorType::ParenthesisLeft || o.op
                    == OperatorType::ParenthesisRight {
                    None
                } else {
                    Some((n - 1) as nat)
                },
                _ => Some(n + 1),
            },
        }
    }
}

pub proof fn lemma_depth_stuck(p: Seq<Item>, i: int)
    requires
        0 <= i <= p.len(),
        depth(p.take(i)) is None,
    ensures
        depth(p) is None,
    decreases p.len(),
{
    if i == p.len() {
        assert(p.take(i) == p);
    } else {
        assert(p.drop_last().take(i) == p.take(i));
        lemma_depth_stuck(p.drop_last(), i);
    }
}


proof fn lemma_items_push(p: Seq<Evaluable>, e: Evaluable)
    ensures
        items(p.push(e)) == items(p).push(e@),
{
    assert(items(p.push(e)) =~= items(p).push(e@));
}

/// Whether `top` leaves the stack before `op` is pushed.
fn yields_to(top: Operator, op: Operator) -> (r: bool)
    ensures
        r == pops_before(top, op),
{
    top.op != OperatorType::ParenthesisLeft && (top.precedence > op.precedence || (top.precedence
        == op.precedence && op.associates_left))
}

/// Reads one operand token.
fn operand(t: &Vec<char>) -> (r: Option<Evaluable>)
    ensures
        r matches Some(Evaluable::Dice(d)) ==> d.wf(),
        match operand_of(t@) {
            Some(item) => r is Some && r->Some_0@ == item,
            None => r is None,
        },
{
    match Dice::parse_chars(t) {
        Ok(d) => Some(Evaluable::Dice(d)),
        Err(_) => {
            if is_float_text(t) {
                Some(Evaluable::Num(t.clone()))
            } else {
                None
            }
        },
    }
}

proof fn lemma_shunt_stuck(ts: Seq<Seq<char>>, i: int)
    requires
        0 <= i <= ts.len(),
        shunt_all(ts.take(i)) is None,
    ensures
        shunt_all(ts) is None,
    decreases ts.len(),
{
    if i == ts.len() {
        assert(ts.take(i) == ts);
    } else {
        assert(ts.drop_last().take(i) == ts.take(i));
        lemma_shunt_stuck(ts.drop_last(), i);
    }
}

/// Whether every operator of `p` finds two operands on the stack.
fn operands_suffice(p: &Vec<Evaluable>) -> (r: bool)
    ensures
        r == depth(items(p@)) is Some,
{
    let ghost q = items(p@);
    let mut n: usize = 0;
    let mut i: usize = 0;
    while i < p.len()
        invariant
            i <= p.len(),
            q == items(p@),
            n <= i,
            depth(q.take(i as int)) == Some(n as nat),
        decreases p.len() - i,
    {
        proof {
            assert(q.take(i + 1).drop_last() == q.take(i as int));
            assert(q.take(i + 1).last() == p@[i as int]@);
        }
        match &p[i] {
            Evaluable::Operator(o) => {
                if n < 2 || o.op == OperatorType::ParenthesisLeft || o.op
                    == OperatorType::ParenthesisRight {
                    proof {
                        lemma_depth_stuck(q, i + 1);
                    }
                    return false;
                }
                n = n - 1;
            },
            _ => {
                n = n + 1;
            },
        }
        i = i + 1;
    }
    assert(q.take(i as int) == q);
    true
}

/// Parses a roll command into a postfix program (the shunting-yard algorithm), and refuses a
/// program in which an operator lacks an operand, as in `1 + + 2`.
pub fn parse_roll_command(command: &str) -> (r: Result<Vec<Evaluable>, ()>)
    ensures
        match program_of(command@) {
            Some(p) => r is Ok && items(r->Ok_0@) == p,
            None => r is Err,
        },
        r is Ok ==> dice_wf(items(r->Ok_0@)),
{
    let chars = chars_of(command);
    let tokens = tokenize(&chars);
    let ghost ts = tokens_of(command@);
    let mut output: Vec<Evaluable> = Vec::new();
    let mut stack: Vec<Operator> = Vec::new();
    let mut i: usize = 0;
    while i < tokens.len()
        invariant
            i <= tokens.len(),
            token_views(tokens@) == ts,
            ts == tokens_of(command@),
            shunt_all(ts.take(i as int)) == Some((items(output@), stack@)),
            dice_wf(items(output@)),
        decreases tokens.len() - i,
    {
        let token = &tokens[i];
        let ghost out0 = items(output@);
        let ghost ops0 = stack@;
        proof {
            assert(ts.take(i + 1).drop_last() == ts.take(i as int));
            assert(ts[i as int] == token@);
            assert(ts.take(i + 1).last() == token@);
            assert(shunt_all(ts.take(i + 1)) == shunt(out0, ops0, token@));
        }
        let as_op = if token.len() == 1 {
            token_to_operator(token[0])
        } else {
            None
        };
        match as_op {
            Some(op) => {
                if op.functional {
                    while stack.len() > 0 && yields_to(stack[stack.len() - 1], op)
                        invariant
                            pop_for(items(output@), stack@, op) == pop_for(out0, ops0, op),
                            dice_wf(items(output@)),
                        decreases stack.len(),
                    {
                        let top = stack.pop().unwrap();
                        proof {
                            lemma_items_push(output@, Evaluable::Operator(top));
                        }
                        output.push(Evaluable::Operator(top));
                    }
                    stack.push(op);
                } else if op.op == OperatorType::ParenthesisLeft {
                    stack.push(op);
                } else {
                    assert(shunt(out0, ops0, token@) == close_group(out0, ops0));
                    loop
                        invariant_except_break
                            close_group(items(output@), stack@) == close_group(out0, ops0),
                        invariant
                            dice_wf(items(output@)),
                            i < ts.len(),
                            ts == tokens_of(command@),
                            shunt_all(ts.take(i + 1)) == close_group(out0, ops0),
                        ensures
                            close_group(out0, ops0) == Some((items(output@), stack@)),
                        decreases stack.len(),
                    {
                        if stack.len() == 0 {
                            proof {
                                lemma_shunt_stuck(ts, i + 1);
                            }
                            return Err(());
                        }
                        let top = stack.pop().unwrap();
                        if top.op == OperatorType::ParenthesisLeft {
                            break;
                        }
                        proof {
                            lemma_items_push(output@, Evaluable::Operator(top));
                        }
                        output.push(Evaluable::Operator(top));
                    }
                }
            },
            None => {
                match operand(token) {
                    Some(e) => {
                        proof {
                            lemma_items_push(output@, e);
                        }
                        output.push(e);
                    },
                    None => {
                        proof {
                            lemma_shunt_stuck(ts, i + 1);
                        }
                        return Err(());
                    },
                }
            },
        }
        assert(shunt(out0, ops0, token@) == Some((items(output@), stack@)));
        i = i + 1;
    }
    assert(ts.take(i as int) == ts);
    while stack.len() > 0
        invariant
            drain(items(output@), stack@) == shunted(command@),
            dice_wf(items(output@)),
        decreases stack.len(),
    {
        let top = stack.pop().unwrap();
        if top.op == OperatorType::ParenthesisLeft || top.op == OperatorType::ParenthesisRight {
            return Err(());
        }
        proof {
            lemma_items_push(output@, Evaluable::Operator(top));
        }
        output.push(Evaluable::Operator(top));
    }
    if !operands_suffice(&output) {
        return Err(());
    }
    Ok(output)
}

} // verus!
