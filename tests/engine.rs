use radium_dice::dice::{Dice, DiceModifier, ParseDiceError};
use radium_dice::eval::{evaluate_roll_rpn, Term};
use radium_dice::expr::{parse_roll_command, tokenize, Evaluable, OperatorType};
use radium_dice::text::{chars_of, is_float_text, IntError};

fn value(t: &Term) -> f64 {
    match t {
        Term::Num(text) => text.iter().collect::<String>().parse::<f64>().unwrap(),
        Term::Rolled(n) => *n as f64,
        Term::Apply(op, l, r) => {
            let (a, b) = (value(l), value(r));
            match op {
                OperatorType::Exponent => a.powf(b),
                OperatorType::Multiply => a * b,
                OperatorType::Divide => a / b,
                OperatorType::Add => a + b,
                OperatorType::Subtract => a - b,
                _ => panic!("parenthesis in a term"),
            }
        }
    }
}

fn eval_str(command: &str) -> Option<(f64, Vec<Vec<u32>>)> {
    let program = parse_roll_command(command).ok()?;
    let (term, rolls) = evaluate_roll_rpn(&program)?;
    Some((value(&term), rolls))
}

fn dice(s: &str) -> Result<Dice, ParseDiceError> {
    s.parse::<Dice>()
}

fn num(s: &str) -> Term {
    Term::Num(s.chars().collect())
}

#[test]
fn empty_command_is_empty_program_that_fails_to_evaluate() {
    let program = parse_roll_command("").unwrap();
    assert!(program.is_empty());
    assert!(evaluate_roll_rpn(&program).is_none());
}

#[test]
fn single_number_evaluates_to_itself() {
    let program = parse_roll_command("3").unwrap();
    assert_eq!(program, vec![Evaluable::Num(vec!['3'])]);
    let (term, rolls) = evaluate_roll_rpn(&program).unwrap();
    assert_eq!(term, num("3"));
    assert_eq!(value(&term), 3.0);
    assert!(rolls.is_empty());
}

#[test]
fn multiplication_binds_tighter_than_addition() {
    assert_eq!(eval_str("2 + 3 * 4").unwrap().0, 14.0);
    assert_eq!(eval_str("(2 + 3) * 4").unwrap().0, 20.0);
    let (term, _) = evaluate_roll_rpn(&parse_roll_command("2 + 3 * 4").unwrap()).unwrap();
    assert_eq!(
        term,
        Term::Apply(
            OperatorType::Add,
            Box::new(num("2")),
            Box::new(Term::Apply(OperatorType::Multiply, Box::new(num("3")), Box::new(num("4")))),
        )
    );
}

#[test]
fn exponent_groups_to_the_right() {
    assert_eq!(eval_str("2 ^ 3 ^ 2").unwrap().0, 512.0);
    assert_eq!(eval_str("(2 ^ 3) ^ 2").unwrap().0, 64.0);
}

#[test]
fn subtraction_and_division_group_to_the_left() {
    assert_eq!(eval_str("10 - 4 - 3").unwrap().0, 3.0);
    assert_eq!(eval_str("16 / 4 / 2").unwrap().0, 2.0);
    assert_eq!(eval_str("7 / 2").unwrap().0, 3.5);
}

#[test]
fn alternative_operator_symbols() {
    assert_eq!(eval_str("3x4").unwrap().0, 12.0);
    assert_eq!(eval_str("3 \u{d7} 4").unwrap().0, 12.0);
    assert_eq!(eval_str("12 \u{f7} 4").unwrap().0, 3.0);
}

#[test]
fn division_by_zero_is_not_an_error() {
    assert!(eval_str("1 / 0").unwrap().0.is_infinite());
    assert!(eval_str("0 / 0").unwrap().0.is_nan());
}

#[test]
fn d6_faces_stay_in_range_and_all_appear() {
    let program = parse_roll_command("1d6").unwrap();
    let mut seen = [false; 6];
    for _ in 0..10_000 {
        let (term, rolls) = evaluate_roll_rpn(&program).unwrap();
        assert_eq!(rolls.len(), 1);
        assert_eq!(rolls[0].len(), 1);
        let face = rolls[0][0];
        assert!((1..=6).contains(&face));
        assert_eq!(term, Term::Rolled(face as u64));
        seen[(face - 1) as usize] = true;
    }
    assert!(seen.iter().all(|s| *s));
}

#[test]
fn best_keeps_the_higher_of_two() {
    let program = parse_roll_command("2d20b").unwrap();
    for _ in 0..1000 {
        let (value, rolls) = {
            let (t, r) = evaluate_roll_rpn(&program).unwrap();
            (value(&t), r)
        };
        assert_eq!(rolls[0].len(), 2);
        assert_eq!(value, *rolls[0].iter().max().unwrap() as f64);
    }
}

#[test]
fn worst_sums_the_two_lowest_of_three() {
    let program = parse_roll_command("3d10w2").unwrap();
    for _ in 0..1000 {
        let (t, rolls) = evaluate_roll_rpn(&program).unwrap();
        let mut faces = rolls[0].clone();
        assert_eq!(faces.len(), 3);
        faces.sort();
        assert_eq!(value(&t), (faces[0] + faces[1]) as f64);
    }
}

#[test]
fn dice_total_from_given_faces() {
    let best = Dice { size: 10, count: 3, modifier: Some(DiceModifier::Best(2)) };
    assert_eq!(best.total(&vec![4, 9, 7]), 16);
    let worst = Dice { size: 10, count: 3, modifier: Some(DiceModifier::Worst(2)) };
    assert_eq!(worst.total(&vec![4, 9, 7]), 11);
    let all = Dice { size: 10, count: 3, modifier: None };
    assert_eq!(all.total(&vec![4, 9, 7]), 20);
    let equal = Dice { size: 6, count: 4, modifier: Some(DiceModifier::Best(3)) };
    assert_eq!(equal.total(&vec![5, 5, 5, 5]), 15);
}

#[test]
fn malformed_commands_fail() {
    assert!(parse_roll_command("1d1").is_err());
    assert!(parse_roll_command("2d6b3").is_err());
    assert!(parse_roll_command("(1+2").is_err());
    assert!(parse_roll_command("1+2)").is_err());
    assert!(parse_roll_command("hello").is_err());
}

#[test]
fn missing_operand_fails_to_parse() {
    assert!(parse_roll_command("1 + + 2").is_err());
    assert!(parse_roll_command("1 +").is_err());
    assert!(parse_roll_command("* 2").is_err());
    assert!(parse_roll_command("()").is_ok());
}

#[test]
fn leftover_operands_fail_at_evaluation() {
    let program = parse_roll_command("1 2").unwrap();
    assert!(evaluate_roll_rpn(&program).is_none());
}

#[test]
fn best_and_worst_without_keep_count_keep_one() {
    assert_eq!(
        parse_roll_command("2d20b").unwrap(),
        vec![Evaluable::Dice(Dice { size: 20, count: 2, modifier: Some(DiceModifier::Best(1)) })]
    );
    assert_eq!(
        parse_roll_command("2d20w").unwrap(),
        vec![Evaluable::Dice(Dice { size: 20, count: 2, modifier: Some(DiceModifier::Worst(1)) })]
    );
}

#[test]
fn parsing_is_deterministic_and_evaluations_share_shape() {
    let command = "2d20b + 1d8 ^ 2 / 3";
    let a = parse_roll_command(command).unwrap();
    let b = parse_roll_command(command).unwrap();
    assert_eq!(a, b);
    let (t1, r1) = evaluate_roll_rpn(&a).unwrap();
    let (t2, r2) = evaluate_roll_rpn(&a).unwrap();
    assert_eq!(r1.len(), 2);
    assert_eq!(r2.len(), 2);
    assert_eq!(r1[0].len(), r2[0].len());
    assert_eq!(r1[1].len(), r2[1].len());
    match (t1, t2) {
        (Term::Apply(op1, _, _), Term::Apply(op2, _, _)) => {
            assert_eq!(op1, OperatorType::Add);
            assert_eq!(op2, OperatorType::Add);
        }
        _ => panic!("expected an addition at the top"),
    }
}

#[test]
fn dice_notation_accepted_exactly_in_range() {
    assert_eq!(dice("2d6"), Ok(Dice { size: 6, count: 2, modifier: None }));
    assert_eq!(dice("d20"), Ok(Dice { size: 20, count: 1, modifier: None }));
    assert_eq!(dice("2D6"), Ok(Dice { size: 6, count: 2, modifier: None }));
    assert_eq!(dice("2d20b"), Ok(Dice { size: 20, count: 2, modifier: Some(DiceModifier::Best(1)) }));
    assert_eq!(dice("3d10w2"), Ok(Dice { size: 10, count: 3, modifier: Some(DiceModifier::Worst(2)) }));
    assert_eq!(dice("3d10w3"), Ok(Dice { size: 10, count: 3, modifier: Some(DiceModifier::Worst(3)) }));
    assert_eq!(dice(" 1d2 "), Ok(Dice { size: 2, count: 1, modifier: None }));
    assert_eq!(dice("0d6"), Err(ParseDiceError::Value));
    assert_eq!(dice("1d1"), Err(ParseDiceError::Value));
    assert_eq!(dice("2d6b3"), Err(ParseDiceError::Value));
    assert_eq!(dice("2d6w0"), Err(ParseDiceError::Value));
    assert!(parse_roll_command("2d6w2").is_ok());
    assert!(parse_roll_command("0d6").is_err());
    assert!(parse_roll_command("2d6b0").is_err());
}

#[test]
fn dice_notation_error_kinds() {
    assert_eq!(dice("abc"), Err(ParseDiceError::Format));
    assert_eq!(dice("20"), Err(ParseDiceError::Format));
    assert_eq!(dice("xd6"), Err(ParseDiceError::Format));
    assert_eq!(dice("2d6b1w1"), Err(ParseDiceError::Format));
    assert_eq!(dice("1d6b0"), Err(ParseDiceError::Value));
    assert_eq!(dice("1d6w0"), Err(ParseDiceError::Value));
    assert_eq!(dice("3d10b2"), Ok(Dice { size: 10, count: 3, modifier: Some(DiceModifier::Best(2)) }));
    assert_eq!(dice("2D20B"), Ok(Dice { size: 20, count: 2, modifier: Some(DiceModifier::Best(1)) }));
    assert_eq!(dice("2d20w"), Ok(Dice { size: 20, count: 2, modifier: Some(DiceModifier::Worst(1)) }));
    assert_eq!(dice("ad6"), Err(ParseDiceError::Format));
    assert_eq!(dice("2d6bw"), Err(ParseDiceError::Format));
    assert_eq!(dice("2d"), Err(ParseDiceError::Int(IntError::Empty)));
    assert_eq!(dice("2d6z"), Err(ParseDiceError::Int(IntError::InvalidDigit)));
    assert_eq!(dice("2d6bq"), Err(ParseDiceError::Int(IntError::InvalidDigit)));
    assert_eq!(dice("1d99999999999"), Err(ParseDiceError::Int(IntError::PosOverflow)));
    assert_eq!(dice("1d4294967295"), Ok(Dice { size: 4294967295, count: 1, modifier: None }));
}

#[test]
fn tokens_split_on_spaces_and_operators() {
    let tokens = tokenize(&chars_of("2d20+1d4 *(3)"));
    let text: Vec<String> = tokens.iter().map(|t| t.iter().collect()).collect();
    assert_eq!(text, vec!["2d20", "+", "1d4", "*", "(", "3", ")"]);
    assert!(tokenize(&chars_of("   ")).is_empty());
    let wide = tokenize(&chars_of("1\u{3000}+\u{a0}2"));
    assert_eq!(wide.len(), 3);
    assert_eq!(eval_str("\t1\u{2003}+\n2 ").unwrap().0, 3.0);
}

#[test]
fn number_literals() {
    for ok in ["1.5", ".5", "5.", "1e3", "2E10", "inf", "Infinity", "NaN", "007"] {
        assert!(is_float_text(&chars_of(ok)), "{}", ok);
        assert!(ok.parse::<f64>().is_ok());
    }
    for bad in [".", "1e", "e5", "1.2.3", "", "abc", "1_0"] {
        assert!(!is_float_text(&chars_of(bad)), "{}", bad);
        assert!(bad.parse::<f64>().is_err());
    }
    assert_eq!(eval_str("1.5 * 2").unwrap().0, 3.0);
}

#[test]
fn rolls_follow_source_order() {
    let (_, rolls) = eval_str("1d4 + 3d6 + 2d8").unwrap();
    assert_eq!(rolls.len(), 3);
    assert_eq!(rolls[0].len(), 1);
    assert_eq!(rolls[1].len(), 3);
    assert_eq!(rolls[2].len(), 2);
    assert!(rolls[0].iter().all(|f| (1..=4).contains(f)));
    assert!(rolls[2].iter().all(|f| (1..=8).contains(f)));
}
