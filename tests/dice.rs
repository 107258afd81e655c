use dice_roller::{gen_roll, parse_roll, roll, RollInstructions};
use std::collections::HashMap;

// All the possible D&D dice
const DICE_VALUES: [i32; 7] = [4, 6, 8, 10, 12, 20, 100];

#[test]
fn test_parse_roll_single_dice() {
    let roll = parse_roll("1d8").unwrap();
    assert_eq!(roll, [RollInstructions { num: 1, dice: 8 }]);
}

#[test]
fn test_parse_roll_multiple_dice() {
    let roll = parse_roll("3d6").unwrap();
    assert_eq!(roll, [RollInstructions { num: 3, dice: 6 }]);
}

#[test]
#[should_panic]
fn test_parse_roll_fail() {
    parse_roll("3e6").unwrap();
}

// Probabilistic: with faces^2 draws a given face is missed with probability
// (1 - 1/faces)^(faces^2), about 1e-2 for a face of a d4 and far less for the
// larger dice, so this test fails now and then on a fair generator.
#[test]
fn test_gen_roll() {
    let mut rng = rand::thread_rng();

    for d in DICE_VALUES.iter() {
        let mut occurrences: HashMap<i32, i32> = HashMap::new();
        // Try and get a sample that will have an occurrence for every value
        for _ in 0..d * d {
            let roll = gen_roll(&mut rng, *d);
            let count = occurrences.entry(roll.value).or_insert(0);
            *count += 1;
        }

        // Assert that all values for 1 through d have at least one roll
        for i in 1..=*d {
            assert!(occurrences[&i] > 0)
        }
    }
}

#[test]
fn test_roll_single_dice() {
    let roll = roll("1d8").unwrap();
    assert!(roll.total >= 1);
    assert!(roll.total <= 8);
}

#[test]
fn test_roll_multiple_dice() {
    let roll = roll("3d6").unwrap();
    assert!(roll.total >= 3);
    assert!(roll.total <= 18);
}

#[test]
#[should_panic]
fn test_roll_fail() {
    roll("3e6").unwrap();
}

#[test]
#[should_panic]
fn test_roll_too_few() {
    roll("0d6").unwrap();
}

#[test]
#[should_panic]
fn test_roll_too_many() {
    roll("100e6").unwrap();
}
