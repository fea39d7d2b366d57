use cardascii24::common::{Card, CardType, Entry, FromClientMessage, FromServerMessage, BYTECOUNT, CARDCOUNT};
use cardascii24::core_cards::{CardStack, Deck, Game24, TurnResult};

#[test]
fn shuffle_is_permutation() {
    let deck = Deck::new();
    let mut stack = CardStack::new(false);
    stack.add_cards(&deck);
    let mut before = stack.ids();
    stack.shuffle();
    let mut after = stack.ids();
    before.sort();
    after.sort();
    assert_eq!(before, after);
    assert_eq!(after.len(), 50);
}

#[test]
fn conservation_across_operations() {
    let mut game = Game24::new();
    let expected: Vec<u8> = (0..50).collect();
    for round in 0..30 {
        assert!(game.give_cards());
        match round % 3 {
            0 => game.end_turn(TurnResult::Winner(0)),
            1 => game.end_turn(TurnResult::Winner(1)),
            _ => game.end_turn(TurnResult::Tie),
        }
        let mut ids = game.all_card_ids();
        ids.sort();
        assert_eq!(ids, expected);
    }
}

#[test]
fn deal_reclaims_when_hidden_runs_out() {
    let mut game = Game24::new();
    for _ in 0..12 {
        assert!(game.give_cards());
        assert_eq!(game.visible_len(), 4);
        game.end_turn(TurnResult::Tie);
        assert_eq!(game.visible_len(), 0);
    }
    assert_eq!(game.hidden_len(), 2);
    assert!(game.give_cards());
    assert_eq!(game.visible_len(), 4);
    assert_eq!(game.hidden_len(), 46);
    assert_eq!(game.accumulate_len(), 0);
}

#[test]
fn winner_takes_hand_and_accumulation() {
    let mut game = Game24::new();
    assert!(game.give_cards());
    game.end_turn(TurnResult::Tie);
    assert_eq!(game.accumulate_len(), 4);
    assert!(game.give_cards());
    game.end_turn(TurnResult::Winner(1));
    assert_eq!(game.player_len(1), 8);
    assert_eq!(game.player_len(0), 0);
    assert_eq!(game.accumulate_len(), 0);
    assert_eq!(game.visible_len(), 0);
    assert_eq!(game.hidden_len(), 42);
}

#[test]
fn abandoned_turn_moves_nothing() {
    let mut game = Game24::new();
    assert!(game.give_cards());
    game.end_turn(TurnResult::Abandoned);
    assert_eq!(game.visible_len(), 4);
    assert_eq!(game.accumulate_len(), 0);
    assert_eq!(game.player_len(0), 0);
    assert_eq!(game.player_len(1), 0);
}

#[test]
fn dealt_hand_is_addressable() {
    let mut game = Game24::new();
    assert!(game.give_cards());
    for i in 0..4 {
        let card = game.get_gived_card(i).expect("a dealt card");
        assert!(card.value <= 12);
    }
    assert!(game.get_gived_card(4).is_none());
}

#[test]
fn reset_reclaims_everything() {
    let mut game = Game24::new();
    assert!(game.give_cards());
    game.end_turn(TurnResult::Winner(0));
    assert!(game.give_cards());
    game.reset();
    assert_eq!(game.hidden_len(), 50);
    assert_eq!(game.visible_len(), 0);
    assert_eq!(game.player_len(0), 0);
    assert_eq!(game.accumulate_len(), 0);
}

#[test]
fn operation_target_is_24() {
    let game = Game24::new();
    assert_eq!(game.resolve_operation(), Some(24));
}

#[test]
fn make_answer_wrong_submission_keeps_turn() {
    let mut game = Game24::new();
    assert!(game.give_cards());
    assert_eq!(game.make_answer(0, "nonsense"), TurnResult::Gaming);
    assert_eq!(game.visible_len(), 4);
    assert_eq!(game.player_len(0), 0);
}

#[test]
fn make_answer_wins_exactly_on_24() {
    let mut game = Game24::new();
    assert!(game.give_cards());
    let mut values: Vec<u8> = Vec::new();
    for i in 0..4 {
        values.push(game.get_gived_card(i).unwrap().value);
    }
    let answer = format!("{}+{}+{}+{}", values[0], values[1], values[2], values[3]);
    let sum: u32 = values.iter().map(|v| *v as u32).sum();
    let outcome = game.make_answer(0, &answer);
    if sum == 24 {
        assert_eq!(outcome, TurnResult::Winner(0));
        assert_eq!(game.player_len(0), 4);
        assert_eq!(game.visible_len(), 0);
    } else {
        assert_eq!(outcome, TurnResult::Gaming);
        assert_eq!(game.visible_len(), 4);
    }
}

#[test]
fn partial_transfer_reports_shortfall() {
    let deck = Deck::new();
    let mut a = CardStack::new(false);
    a.add_cards(&deck);
    let mut b = CardStack::new(true);
    assert!(b.add_n_from(&mut a, 4));
    assert_eq!(b.ids(), vec![49, 48, 47, 46]);
    assert_eq!(a.len(), 46);
    let mut c = CardStack::new(false);
    assert!(!c.add_n_from(&mut b, 10));
    assert_eq!(c.len(), 4);
    assert!(b.is_empty());
}

#[test]
fn transfer_all_appends_and_empties() {
    let deck = Deck::new();
    let mut a = CardStack::new(false);
    a.add_cards(&deck);
    let mut b = CardStack::new(false);
    assert!(b.add_n_from(&mut a, 3));
    let mut c = CardStack::new(false);
    assert!(c.add_n_from(&mut a, 2));
    c.add_all_from(&mut b);
    assert_eq!(c.ids(), vec![46, 45, 49, 48, 47]);
    assert!(b.is_empty());
}

#[test]
fn message_shapes_carry_their_fields() {
    let card = Card { _type: CardType::Sword, value: 7 };
    assert_eq!(card.value, 7);
    assert!(matches!(card._type, CardType::Sword));
    let data = [' '; BYTECOUNT];
    let entry = Entry { number: 24, data };
    assert_eq!(entry.number, 24);
    assert_eq!(entry.data.len(), 4);
    let msg = FromClientMessage::Answer(data);
    assert!(matches!(msg, FromClientMessage::Answer(_)));
    let hand = [card; CARDCOUNT];
    let begin = FromServerMessage::TurnBegin(hand);
    assert!(matches!(begin, FromServerMessage::TurnBegin(_)));
    assert!(matches!(FromServerMessage::TurnTied, FromServerMessage::TurnTied));
}
