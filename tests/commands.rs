use radium_dice::commands::{
    combine_saved_roll, dice_within, evaluate_batch, new_saved_roll, shows_roll_breakdown, split_annotation,
    SaveRollError, SavedRoll, MAX_DICE_PER_TERM,
};
use radium_dice::eval::Term;
use radium_dice::expr::parse_roll_command;

#[test]
fn annotation_is_split_off_and_trimmed() {
    assert_eq!(split_annotation(" 2d6 + 3 ! attack "), ("2d6 + 3".to_owned(), Some("attack".to_owned())));
    assert_eq!(split_annotation("1d20"), ("1d20".to_owned(), None));
    assert_eq!(split_annotation("1d20!"), ("1d20".to_owned(), Some(String::new())));
    assert_eq!(split_annotation("1d4 ! a ! b"), ("1d4".to_owned(), Some("a ! b".to_owned())));
}

#[test]
fn saved_roll_combines_with_extra_text() {
    assert_eq!(
        combine_saved_roll("attack", "1d20 + 5", None),
        ("1d20 + 5".to_owned(), "attack".to_owned())
    );
    assert_eq!(
        combine_saved_roll("attack", "1d20 + 5", Some("* 2 ! crit")),
        ("(1d20 + 5) * 2".to_owned(), "attack; crit".to_owned())
    );
    assert_eq!(
        combine_saved_roll("attack", "1d20", Some("  ")),
        ("1d20".to_owned(), "attack".to_owned())
    );
    assert_eq!(
        combine_saved_roll("attack", "1d20", Some("! flanking")),
        ("1d20".to_owned(), "attack; flanking".to_owned())
    );
    assert_eq!(
        combine_saved_roll("attack", "1d20", Some("+ 1 !")),
        ("(1d20) + 1".to_owned(), "attack".to_owned())
    );
}

#[test]
fn saving_a_roll_checks_the_command() {
    assert_eq!(
        new_saved_roll(1, 2, "MyAttack", "  1d20 + 4 "),
        Ok(SavedRoll { guild_id: 1, user_id: 2, name: "myattack".to_owned(), command: "1d20 + 4".to_owned() })
    );
    assert_eq!(new_saved_roll(1, 2, "x", "1d20 ! note"), Err(SaveRollError::Annotated));
    assert_eq!(new_saved_roll(1, 2, "x", "   "), Err(SaveRollError::Invalid));
    assert_eq!(new_saved_roll(1, 2, "x", "1d1"), Err(SaveRollError::Invalid));
    assert_eq!(new_saved_roll(1, 2, "x", "1 + + 2"), Err(SaveRollError::Invalid));
}

#[test]
fn breakdown_for_several_terms_or_many_dice() {
    assert!(!shows_roll_breakdown(&vec![]));
    assert!(!shows_roll_breakdown(&vec![vec![1, 2, 3, 4]]));
    assert!(shows_roll_breakdown(&vec![vec![1, 2, 3, 4, 5]]));
    assert!(shows_roll_breakdown(&vec![vec![1], vec![2]]));
}

#[test]
fn batch_runs_the_program_count_times() {
    let program = parse_roll_command("1d6 + 10").unwrap();
    let terms = evaluate_batch(&program, 50).unwrap();
    assert_eq!(terms.len(), 50);
    for t in &terms {
        match t {
            Term::Apply(_, l, _) => match **l {
                Term::Rolled(n) => assert!((1..=6).contains(&n)),
                _ => panic!("expected a dice total"),
            },
            _ => panic!("expected an addition"),
        }
    }
    let broken = parse_roll_command("1 2").unwrap();
    assert!(evaluate_batch(&broken, 3).is_none());
    assert_eq!(evaluate_batch(&broken, 0).map(|v| v.len()), Some(0));
}

#[test]
fn dice_count_limit() {
    let small = parse_roll_command("3d6 + 2d8").unwrap();
    assert!(dice_within(&small, 3));
    assert!(!dice_within(&small, 2));
    let huge = parse_roll_command("4000000000d6").unwrap();
    assert!(!dice_within(&huge, MAX_DICE_PER_TERM));
    assert!(dice_within(&parse_roll_command("7").unwrap(), 0));
}
