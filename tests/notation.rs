use dice_roller::{parse_roll, RollError, RollInstructions};

#[test]
fn parse_several_tokens_in_order() {
    let v = parse_roll("2d4 1d6").unwrap();
    assert_eq!(
        v,
        [RollInstructions { num: 2, dice: 4 }, RollInstructions { num: 1, dice: 6 }]
    );
}

#[test]
fn parse_ignores_text_between_tokens() {
    let v = parse_roll("attack: 1d20, damage 2d6+3").unwrap();
    assert_eq!(
        v,
        [RollInstructions { num: 1, dice: 20 }, RollInstructions { num: 2, dice: 6 }]
    );
}

#[test]
fn parse_leading_zeros() {
    let v = parse_roll("007d010").unwrap();
    assert_eq!(v, [RollInstructions { num: 7, dice: 10 }]);
}

#[test]
fn parse_zero_count_is_a_token() {
    let v = parse_roll("0d6").unwrap();
    assert_eq!(v, [RollInstructions { num: 0, dice: 6 }]);
}

#[test]
fn parse_matches_do_not_overlap() {
    let v = parse_roll("1d2d3").unwrap();
    assert_eq!(v, [RollInstructions { num: 1, dice: 2 }]);
}

#[test]
fn parse_bare_d_needs_a_count() {
    assert_eq!(
        parse_roll("d20"),
        Err(RollError::InvalidFormat("d20".to_string()))
    );
}

#[test]
fn parse_uppercase_d_is_no_token() {
    assert!(matches!(parse_roll("3D6"), Err(RollError::InvalidFormat(_))));
}

#[test]
fn parse_empty_is_invalid() {
    assert_eq!(parse_roll(""), Err(RollError::InvalidFormat(String::new())));
}

#[test]
fn parse_skips_a_run_without_d_and_finds_later_token() {
    let v = parse_roll("12 x 4d8").unwrap();
    assert_eq!(v, [RollInstructions { num: 4, dice: 8 }]);
}

#[test]
fn parse_largest_numbers() {
    let v = parse_roll("2147483647d2147483647").unwrap();
    assert_eq!(
        v,
        [RollInstructions { num: 2147483647, dice: 2147483647 }]
    );
}

#[test]
fn parse_count_overflow_is_invalid() {
    assert!(matches!(
        parse_roll("2147483648d6"),
        Err(RollError::InvalidFormat(_))
    ));
}

#[test]
fn parse_faces_overflow_is_invalid() {
    assert!(matches!(
        parse_roll("1d6 1d99999999999999999999"),
        Err(RollError::InvalidFormat(_))
    ));
}

#[test]
fn parse_non_ascii_text_around_token() {
    let v = parse_roll("é3d6ü").unwrap();
    assert_eq!(v, [RollInstructions { num: 3, dice: 6 }]);
}

#[test]
fn error_messages() {
    assert_eq!(
        RollError::InvalidFormat("x".to_string()).message(),
        "Invalid format. Try again with something like 1d20 or 3d6."
    );
    assert_eq!(
        RollError::InstructionCountTooLow.message(),
        "You have to roll something!"
    );
    assert_eq!(
        RollError::InstructionCountTooHigh.message(),
        "Are you a god in this game?! Roll a more reasonable number of dice!"
    );
    assert_eq!(
        RollError::ResultOverflow.message(),
        "The total of this roll is too large."
    );
}
