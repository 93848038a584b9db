use std::collections::HashMap;

use blackjack::states::{
    classify, get_hand_value, is_hand_active, no_decks, process_hand_states,
    process_hold_actions, put_deck, record_states,
};
use blackjack::types::{
    Action, ActionResolutionError, Card, CardAllocation, CardValue, Deck, Hand, HandAction,
    HandState, State, Suit,
};

fn hand(id: u128, dealer: u128) -> Hand {
    Hand { id, player: id, dealer }
}

fn entry(hand: u128, dealer: u128, card_idx: usize) -> CardAllocation {
    CardAllocation { hand, dealer, card_idx }
}

fn num(n: u8) -> Card {
    Card::new(Suit::Hearts, CardValue::Value(n))
}

fn decks_with(table: u128, deck: Deck) -> HashMap<u128, Deck> {
    let mut decks = no_decks();
    put_deck(&mut decks, table, deck);
    decks
}

#[test]
fn a_deck_put_on_a_table_replaces_the_one_it_had() {
    let mut decks = no_decks();
    assert!(decks.is_empty());
    put_deck(&mut decks, 1, vec![num(9)]);
    put_deck(&mut decks, 2, vec![num(8), num(7)]);
    put_deck(&mut decks, 1, vec![num(6), num(5), num(4)]);
    assert_eq!(decks.len(), 2);
    assert_eq!(decks.get(&1), Some(&vec![num(6), num(5), num(4)]));
    assert_eq!(decks.get(&2), Some(&vec![num(8), num(7)]));
}

#[test]
fn a_hand_is_active_exactly_when_it_has_no_state() {
    let states: Vec<HandState> = vec![(10, 1, State::Holding(19)), (1, 1, State::BlackJack)];
    assert!(!is_hand_active(10, &states));
    assert!(!is_hand_active(1, &states));
    assert!(is_hand_active(11, &states));
    assert!(is_hand_active(10, &[]));
    for id in [1u128, 10, 11, 12] {
        let has_state = states.iter().any(|s| s.0 == id);
        assert_eq!(has_state, !is_hand_active(id, &states));
    }
}

#[test]
fn a_hand_value_is_read_from_the_deck_of_its_table() {
    let hands = vec![hand(1, 1), hand(10, 1)];
    let deck = vec![num(9), num(8), num(7), Card::new(Suit::Hearts, CardValue::Ace)];
    let decks = decks_with(1, deck);
    let ledger = vec![entry(1, 1, 0), entry(10, 1, 1), entry(1, 1, 2), entry(10, 1, 3)];
    assert_eq!(get_hand_value(1, &hands, &ledger, &decks), Ok(16));
    assert_eq!(get_hand_value(10, &hands, &ledger, &decks), Ok(19));
    assert_eq!(get_hand_value(10, &hands, &[], &decks), Ok(0));
}

#[test]
fn a_value_cannot_be_had_without_hand_deck_or_card() {
    let hands = vec![hand(1, 1), hand(10, 1), hand(2, 2)];
    let decks = decks_with(1, vec![num(9), num(8)]);
    let ledger = vec![entry(1, 1, 0), entry(10, 1, 1), entry(10, 1, 2)];
    assert_eq!(get_hand_value(5, &hands, &ledger, &decks), Err(ActionResolutionError::MissingHand));
    assert_eq!(get_hand_value(2, &hands, &ledger, &decks), Err(ActionResolutionError::MissingDeck));
    assert_eq!(
        get_hand_value(10, &hands, &ledger, &decks),
        Err(ActionResolutionError::DeckExhausted)
    );
    assert_eq!(get_hand_value(1, &hands, &ledger, &decks), Ok(9));
}

#[test]
fn a_value_above_the_score_type_overflows() {
    let hands = vec![hand(1, 1)];
    let decks = decks_with(1, vec![num(200), num(56)]);
    let ledger = vec![entry(1, 1, 0), entry(1, 1, 1)];
    assert_eq!(get_hand_value(1, &hands, &ledger, &decks), Err(ActionResolutionError::Overflow));
}

#[test]
fn values_are_classified_at_twenty_one() {
    assert_eq!(classify(0), None);
    assert_eq!(classify(20), None);
    assert_eq!(classify(21), Some(State::BlackJack));
    assert_eq!(classify(22), Some(State::Bust(22)));
    assert_eq!(classify(30), Some(State::Bust(30)));
}

#[test]
fn only_hands_that_are_no_longer_active_get_a_state() {
    let hands = vec![hand(1, 1), hand(10, 1), hand(11, 1)];
    let king = Card::new(Suit::Hearts, CardValue::King);
    let ace = Card::new(Suit::Hearts, CardValue::Ace);
    let decks = decks_with(1, vec![king, ace, num(9), num(5), king, num(8)]);
    let ledger = vec![
        entry(1, 1, 0),
        entry(10, 1, 1),
        entry(11, 1, 2),
        entry(1, 1, 3),
        entry(10, 1, 4),
        entry(11, 1, 5),
        entry(11, 1, 3),
    ];
    assert_eq!(
        process_hand_states(&hands, &ledger, &decks),
        Ok(vec![(10, 1, State::BlackJack), (11, 1, State::Bust(22))])
    );
    assert_eq!(process_hand_states(&[], &ledger, &decks), Ok(vec![]));
}

#[test]
fn the_first_failing_hand_decides_the_error() {
    let hands = vec![hand(1, 1), hand(2, 2), hand(10, 1)];
    let decks = decks_with(1, vec![num(9)]);
    let ledger = vec![entry(1, 1, 0), entry(10, 1, 1)];
    assert_eq!(
        process_hand_states(&hands, &ledger, &decks),
        Err(ActionResolutionError::MissingDeck)
    );
    assert_eq!(
        process_hand_states(&[hand(1, 1), hand(10, 1), hand(2, 2)], &ledger, &decks),
        Err(ActionResolutionError::DeckExhausted)
    );
}

#[test]
fn a_hold_freezes_the_hand_at_its_value_whatever_it_is() {
    let hands = vec![hand(1, 1), hand(10, 1), hand(11, 1)];
    let king = Card::new(Suit::Hearts, CardValue::King);
    let ace = Card::new(Suit::Hearts, CardValue::Ace);
    let decks = decks_with(1, vec![king, ace, num(9), num(5), king, num(8), num(7)]);
    let ledger = vec![
        entry(1, 1, 0),
        entry(10, 1, 1),
        entry(11, 1, 2),
        entry(1, 1, 3),
        entry(10, 1, 4),
        entry(11, 1, 5),
        entry(11, 1, 6),
    ];
    let actions: Vec<HandAction> =
        vec![(11, Action::Hold), (1, Action::Hit), (10, Action::Hold), (1, Action::Hold)];
    assert_eq!(
        process_hold_actions(&hands, &actions, &ledger, &decks),
        Ok(vec![
            (11, 1, State::Holding(24)),
            (10, 1, State::Holding(21)),
            (1, 1, State::Holding(15)),
        ])
    );
}

#[test]
fn a_hold_by_an_unknown_hand_fails() {
    let hands = vec![hand(1, 1)];
    let decks = decks_with(1, vec![num(9)]);
    let actions: Vec<HandAction> = vec![(1, Action::Hold), (5, Action::Hold)];
    assert_eq!(
        process_hold_actions(&hands, &actions, &[], &decks),
        Err(ActionResolutionError::MissingHand)
    );
    assert_eq!(
        process_hold_actions(&hands, &[(5, Action::Hit)], &[], &decks),
        Ok(vec![])
    );
    assert_eq!(
        process_hold_actions(&hands, &[(1, Action::Hold)], &[], &HashMap::new()),
        Err(ActionResolutionError::MissingDeck)
    );
}

#[test]
fn a_hand_keeps_the_first_state_recorded_for_it() {
    let mut states: Vec<HandState> = vec![(10, 1, State::Bust(25))];
    let fresh: Vec<HandState> = vec![
        (10, 1, State::Holding(25)),
        (11, 1, State::Holding(18)),
        (11, 1, State::BlackJack),
        (1, 1, State::BlackJack),
    ];
    record_states(&mut states, &fresh);
    assert_eq!(
        states,
        vec![(10, 1, State::Bust(25)), (11, 1, State::Holding(18)), (1, 1, State::BlackJack)]
    );
}
