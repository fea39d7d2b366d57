use cardascii24::core_cards::TurnResult;
use cardascii24::validator::{answer_outcome, check_usage, UsageError};

#[test]
fn win_scenario() {
    let hand: Vec<u8> = vec![1, 2, 3, 4];
    assert_eq!(answer_outcome(&hand, "(1+2+3)*4", 1), TurnResult::Winner(1));
}

#[test]
fn card_misuse_scenario() {
    // the arithmetic hits 24, but the hand holds only one 4
    let hand: Vec<u8> = vec![1, 2, 3, 4];
    assert_eq!(answer_outcome(&hand, "4*4+4+4", 0), TurnResult::Gaming);
}

#[test]
fn incomplete_usage_scenario() {
    // 3*8 evaluates to 24, but 8 was never dealt
    let hand: Vec<u8> = vec![1, 2, 3, 4];
    let lits: Vec<i64> = vec![3, 8];
    assert_eq!(check_usage(&hand, &lits), Err(UsageError::ValueNotInHand));
    assert_eq!(answer_outcome(&hand, "3*8", 0), TurnResult::Gaming);
}

#[test]
fn leftover_cards_fail_usage() {
    let hand: Vec<u8> = vec![1, 2, 3, 4];
    let lits: Vec<i64> = vec![1, 2, 3];
    assert_eq!(check_usage(&hand, &lits), Err(UsageError::LeftoverCards));
}

#[test]
fn duplicates_match_one_for_one() {
    let hand: Vec<u8> = vec![7, 7, 2, 4];
    assert_eq!(check_usage(&hand, &vec![7, 2, 7, 4]), Ok(()));
    assert_eq!(
        check_usage(&hand, &vec![7, 7, 7, 4]),
        Err(UsageError::ValueNotInHand)
    );
}

#[test]
fn right_cards_wrong_value_keeps_turn() {
    let hand: Vec<u8> = vec![1, 2, 3, 4];
    // uses every card exactly once but evaluates to 10, not 24
    assert_eq!(answer_outcome(&hand, "1+2+3+4", 0), TurnResult::Gaming);
}

#[test]
fn reordered_usage_still_wins() {
    let hand: Vec<u8> = vec![4, 1, 3, 2];
    assert_eq!(answer_outcome(&hand, "(3+2+1)*4", 0), TurnResult::Winner(0));
}
