use drdie::{parse_dice_notation, roll_dice, DiceError, RollOptions};

#[test]
fn test_full_notation() {
    let roll = parse_dice_notation("3d6").unwrap();
    assert_eq!(roll.num_dice, 3);
    assert_eq!(roll.num_sides, 6);
}

#[test]
fn test_shorthand_notation() {
    let roll = parse_dice_notation("20").unwrap();
    assert_eq!(roll.num_dice, 1);
    assert_eq!(roll.num_sides, 20);
}

#[test]
fn test_invalid_notation() {
    assert!(parse_dice_notation("invalid").is_err());
}

#[test]
fn test_roll_dice_basic() {
    let result = roll_dice("3d6", &RollOptions::default()).unwrap();
    assert_eq!(result.rolls.len(), 3);
    assert_eq!(result.kept_rolls.len(), 3);
    assert!(result.total >= 3 && result.total <= 18);
}

#[test]
fn test_roll_dice_keep() {
    let options = RollOptions { keep: Some(2), ..Default::default() };
    let result = roll_dice("4d6", &options).unwrap();
    assert_eq!(result.rolls.len(), 4);
    assert_eq!(result.kept_rolls.len(), 2);
}

#[test]
fn test_roll_dice_drop() {
    let options = RollOptions { drop: Some(1), ..Default::default() };
    let result = roll_dice("2d20", &options).unwrap();
    assert_eq!(result.rolls.len(), 2);
    assert_eq!(result.kept_rolls.len(), 1);
}

#[test]
fn test_cannot_use_keep_and_drop() {
    let options = RollOptions { keep: Some(1), drop: Some(1), ..Default::default() };
    assert!(roll_dice("2d20", &options).is_err());
}

#[test]
fn test_success_counting() {
    let options = RollOptions { success: Some(1), ..Default::default() };
    let result = roll_dice("3d6", &options).unwrap();
    assert_eq!(result.successes as usize, result.kept_rolls.len());
}

#[test]
fn test_crit_implies_success() {
    let options = RollOptions { crit: Some(100), ..Default::default() };
    let result = roll_dice("3d6", &options).unwrap();
    assert_eq!(result.crits, 0);
    assert_eq!(result.successes, 0);
}

#[test]
fn parse_echoes_notation_verbatim() {
    for notation in ["3d6", "007", "1d1", "4294967295", "10d10"] {
        let roll = parse_dice_notation(notation).unwrap();
        assert_eq!(roll.notation, notation);
    }
}

#[test]
fn parse_full_form_values() {
    let roll = parse_dice_notation("12d8").unwrap();
    assert_eq!(roll.num_dice, 12);
    assert_eq!(roll.num_sides, 8);
    let roll = parse_dice_notation("007d05").unwrap();
    assert_eq!(roll.num_dice, 7);
    assert_eq!(roll.num_sides, 5);
}

#[test]
fn parse_shorthand_values() {
    let roll = parse_dice_notation("4294967295").unwrap();
    assert_eq!(roll.num_dice, 1);
    assert_eq!(roll.num_sides, u32::MAX);
}

#[test]
fn parse_rejects_malformed_strings() {
    for notation in ["", "abc", "d6", "-3d6", "3d", "1d2d3", "3 d6", "3D6", "2d6+1", "½"] {
        let err = parse_dice_notation(notation).unwrap_err();
        assert!(matches!(err, DiceError::InvalidNotation(_)));
    }
}

#[test]
fn parse_rejects_zero_counts() {
    for notation in ["0", "0d6", "3d0", "000", "0d0"] {
        let err = parse_dice_notation(notation).unwrap_err();
        assert!(matches!(err, DiceError::InvalidNotation(_)));
    }
}

#[test]
fn parse_rejects_oversized_counts() {
    for notation in ["4294967296", "99999999999999999999", "1d4294967296", "4294967296d6"] {
        let err = parse_dice_notation(notation).unwrap_err();
        assert!(matches!(err, DiceError::InvalidNotation(_)));
    }
}

#[test]
fn keep_and_drop_error_is_invalid_options() {
    let options = RollOptions { keep: Some(2), drop: Some(1), ..Default::default() };
    let err = roll_dice("4d6", &options).unwrap_err();
    assert!(matches!(err, DiceError::InvalidOptions(_)));
}

#[test]
fn invalid_notation_wins_over_invalid_options() {
    let options = RollOptions { keep: Some(2), drop: Some(1), ..Default::default() };
    let err = roll_dice("oops", &options).unwrap_err();
    assert!(matches!(err, DiceError::InvalidNotation(_)));
}

#[test]
fn basic_roll_keeps_everything_in_order() {
    let result = roll_dice("3d6", &RollOptions::default()).unwrap();
    assert_eq!(result.rolls, result.kept_rolls);
    assert!(result.rolls.iter().all(|&v| (1..=6).contains(&v)));
    assert_eq!(result.total, result.kept_rolls.iter().sum::<u32>());
    assert_eq!(result.successes, 0);
    assert_eq!(result.crits, 0);
    assert_eq!(result.notation, "3d6");
}

#[test]
fn keep_takes_the_largest_values_sorted_descending() {
    let result = roll_dice("4d6", &RollOptions { keep: Some(2), ..Default::default() })
        .unwrap();
    let mut sorted = result.rolls.clone();
    sorted.sort_by(|a, b| b.cmp(a));
    assert_eq!(result.kept_rolls, sorted[..2].to_vec());
    assert_eq!(result.total, result.kept_rolls.iter().sum::<u32>());
}

#[test]
fn keep_more_than_rolled_keeps_everything() {
    let result = roll_dice("2d6", &RollOptions { keep: Some(5), ..Default::default() })
        .unwrap();
    let mut sorted = result.rolls.clone();
    sorted.sort_by(|a, b| b.cmp(a));
    assert_eq!(result.kept_rolls, sorted);
}

#[test]
fn drop_removes_the_largest_value() {
    let result = roll_dice("2d20", &RollOptions { drop: Some(1), ..Default::default() })
        .unwrap();
    let smaller = *result.rolls.iter().min().unwrap();
    assert_eq!(result.kept_rolls, vec![smaller]);
    assert_eq!(result.total, smaller);
}

#[test]
fn drop_everything_leaves_nothing() {
    let result = roll_dice("2d6", &RollOptions { drop: Some(7), ..Default::default() })
        .unwrap();
    assert!(result.kept_rolls.is_empty());
    assert_eq!(result.total, 0);
}

#[test]
fn exploding_rerolls_every_maximum() {
    for _ in 0..50 {
        let result = roll_dice("2d2", &RollOptions { explode: true, ..Default::default() })
            .unwrap();
        assert!(result.rolls.len() >= 2);
        for (i, &v) in result.rolls.iter().enumerate() {
            assert!((1..=2).contains(&v));
            if v == 2 {
                assert!(i + 1 < result.rolls.len());
            }
        }
        assert_eq!(result.rolls.iter().filter(|&&v| v < 2).count(), 2);
    }
}

#[test]
fn exploding_a_one_sided_die_stops() {
    let result = roll_dice("3d1", &RollOptions { explode: true, ..Default::default() })
        .unwrap();
    assert_eq!(result.rolls, vec![1, 1, 1]);
}

#[test]
fn success_and_crit_thresholds_both_apply() {
    let options = RollOptions { success: Some(1), crit: Some(7), ..Default::default() };
    let result = roll_dice("3d6", &options).unwrap();
    assert_eq!(result.successes, 3);
    assert_eq!(result.crits, 0);
}

#[test]
fn crit_alone_counts_as_success() {
    let options = RollOptions { crit: Some(1), ..Default::default() };
    let result = roll_dice("3d6", &options).unwrap();
    assert_eq!(result.successes, 3);
    assert_eq!(result.crits, 3);
}

#[test]
fn one_sided_dice_always_roll_one() {
    let result = roll_dice("5d1", &RollOptions::default()).unwrap();
    assert_eq!(result.rolls, vec![1, 1, 1, 1, 1]);
    assert_eq!(result.total, 5);
}

#[test]
fn shorthand_rolls_one_die() {
    let result = roll_dice("20", &RollOptions::default()).unwrap();
    assert_eq!(result.rolls.len(), 1);
    assert!((1..=20).contains(&result.rolls[0]));
    assert_eq!(result.notation, "20");
}

#[test]
fn rolls_are_not_pinned_to_the_die_size() {
    let mut saw_below_max = false;
    for _ in 0..20 {
        let result = roll_dice("3d1000000", &RollOptions::default()).unwrap();
        if result.rolls.iter().any(|&v| v != 1_000_000) {
            saw_below_max = true;
        }
    }
    assert!(saw_below_max);
}

#[test]
fn roll_values_stay_in_range() {
    for _ in 0..20 {
        let result = roll_dice("6d6", &RollOptions::default()).unwrap();
        assert!(result.rolls.iter().all(|&v| (1..=6).contains(&v)));
    }
}
