use cardascii24::answer_analizer::{analize, ParseOrEvalError};
use cardascii24::answer_numbers::expr;
use cardascii24::core_cards::TurnResult;
use cardascii24::validator::answer_outcome;

#[test]
fn answer_analizer_parens_test() {
    assert_eq!(analize(" (  2 )").unwrap().0, 2);
    assert_eq!(analize(" 2* (  3 + 4 ) ").unwrap().0, 14);
    assert_eq!(analize("  2*2 / ( 5 - 1) + 3").unwrap().0, 4);
}

#[test]
fn answer_numbers_parens_test() {
    assert_eq!(expr(" (  2 )").unwrap(), vec![2]);
    assert_eq!(expr(" 2* (  3 + 4 ) ").unwrap(), vec![2, 3, 4]);
    assert_eq!(expr("  2*2 / ( 5 - 1) + 3").unwrap(), vec![2, 2, 5, 1, 3]);
}

#[test]
fn evaluator_literal_cases() {
    assert_eq!(analize("2*(3+4)").unwrap().0, 14);
    assert_eq!(analize("2*2/(5-1)+3").unwrap().0, 4);
    assert_eq!(analize("12+6-4+3").unwrap().0, 17);
}

#[test]
fn precedence_and_associativity() {
    assert_eq!(analize("1+2*3+4").unwrap().0, 11);
    assert_eq!(analize("12*2/3").unwrap().0, 8);
    assert_eq!(analize("48/3/2").unwrap().0, 8);
    assert_eq!(analize("7/2").unwrap().0, 3);
    assert_eq!(analize("10-2-3").unwrap().0, 5);
}

#[test]
fn padded_answer_is_accepted() {
    // the transport pads short answers with trailing blanks
    assert_eq!(analize("24  ").unwrap(), (24, vec![24]));
    assert_eq!(analize(" 6*4").unwrap(), (24, vec![6, 4]));
    assert_eq!(analize("2\t*\t3").unwrap(), (6, vec![2, 3]));
}

#[test]
fn parse_failure_cases() {
    // a complete expression followed by an unconsumed operator
    assert_eq!(analize("2+").unwrap_err(), ParseOrEvalError::TrailingInput);
    assert_eq!(analize("(1+2").unwrap_err(), ParseOrEvalError::UnmatchedParen);
    assert_eq!(analize("1/0").unwrap_err(), ParseOrEvalError::DivisionByZero);
}

#[test]
fn each_failure_kind_has_an_input() {
    assert_eq!(analize("").unwrap_err(), ParseOrEvalError::EmptyInput);
    assert_eq!(analize("   ").unwrap_err(), ParseOrEvalError::EmptyInput);
    assert_eq!(analize("(").unwrap_err(), ParseOrEvalError::EmptyInput);
    assert_eq!(analize("(5*(1+2)").unwrap_err(), ParseOrEvalError::UnmatchedParen);
    assert_eq!(analize("1+2)").unwrap_err(), ParseOrEvalError::TrailingInput);
    assert_eq!(analize("a").unwrap_err(), ParseOrEvalError::InvalidLiteral);
    assert_eq!(analize("2..3").unwrap_err(), ParseOrEvalError::TrailingInput);
    assert_eq!(analize("*2").unwrap_err(), ParseOrEvalError::InvalidLiteral);
    assert_eq!(
        analize("99999999999999999999").unwrap_err(),
        ParseOrEvalError::InvalidLiteral
    );
    assert_eq!(analize("8/(3-3)").unwrap_err(), ParseOrEvalError::DivisionByZero);
}

#[test]
fn unparsed_operand_leaves_trailing_input() {
    // the repetition stops before the operator whose operand does not parse
    assert_eq!(analize("2*(3").unwrap_err(), ParseOrEvalError::TrailingInput);
    assert_eq!(analize("2++3").unwrap_err(), ParseOrEvalError::TrailingInput);
    assert_eq!(analize("1-").unwrap_err(), ParseOrEvalError::TrailingInput);
}

#[test]
fn parse_failures_keep_turn_open() {
    let hand: Vec<u8> = vec![1, 2, 3, 4];
    assert_eq!(answer_outcome(&hand, "2+", 0), TurnResult::Gaming);
    assert_eq!(answer_outcome(&hand, "(1+2", 0), TurnResult::Gaming);
    assert_eq!(answer_outcome(&hand, "1/0", 0), TurnResult::Gaming);
}
