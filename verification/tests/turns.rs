use blackjack::turns::{advance_turns, determine_next_hand, is_game_complete, turn_sequence};
use blackjack::types::{ActionResolutionError, Hand, HandState, Sequence, State};

fn hand(id: u128, dealer: u128) -> Hand {
    Hand { id, player: id, dealer }
}

fn seat(game_id: u128, hand_id: u128) -> Sequence {
    Sequence { game_id, hand_id }
}

#[test]
fn the_dealer_plays_last_and_the_others_by_identifier() {
    let hands = vec![hand(50, 50), hand(70, 50), hand(2, 2), hand(30, 50), hand(60, 50)];
    assert_eq!(
        turn_sequence(&hands, 50),
        vec![seat(50, 30), seat(50, 60), seat(50, 70), seat(50, 50)]
    );
    assert_eq!(turn_sequence(&hands, 2), vec![seat(2, 2)]);
    assert_eq!(turn_sequence(&hands, 3), vec![]);
}

#[test]
fn the_turn_passes_to_the_next_active_hand() {
    let hands = vec![hand(1, 1), hand(10, 1), hand(11, 1), hand(2, 2), hand(20, 2)];
    let order = vec![seat(1, 10), seat(2, 20), seat(1, 11), seat(2, 2), seat(1, 1)];
    let none: Vec<HandState> = vec![];
    assert_eq!(determine_next_hand(10, &order, &hands, &none), Ok(Some(11)));
    assert_eq!(determine_next_hand(11, &order, &hands, &none), Ok(Some(1)));
    assert_eq!(determine_next_hand(1, &order, &hands, &none), Ok(Some(10)));
    assert_eq!(determine_next_hand(20, &order, &hands, &none), Ok(Some(2)));

    let some: Vec<HandState> = vec![(11, 1, State::Holding(18)), (1, 1, State::BlackJack)];
    assert_eq!(determine_next_hand(10, &order, &hands, &some), Ok(Some(10)));
    assert_eq!(determine_next_hand(11, &order, &hands, &some), Ok(Some(10)));
}

#[test]
fn nobody_plays_next_once_every_hand_has_a_state() {
    let hands = vec![hand(1, 1), hand(10, 1)];
    let order = vec![seat(1, 10), seat(1, 1)];
    let states: Vec<HandState> = vec![(10, 1, State::Holding(19)), (1, 1, State::Holding(20))];
    assert_eq!(determine_next_hand(1, &order, &hands, &states), Ok(None));
    assert_eq!(determine_next_hand(10, &order, &hands, &states), Ok(None));
}

#[test]
fn a_hand_without_a_seat_has_no_next_hand() {
    let hands = vec![hand(1, 1), hand(10, 1), hand(2, 2)];
    let order = vec![seat(1, 10), seat(1, 1)];
    assert_eq!(
        determine_next_hand(99, &order, &hands, &[]),
        Err(ActionResolutionError::MissingHand)
    );
    assert_eq!(
        determine_next_hand(2, &order, &hands, &[]),
        Err(ActionResolutionError::MissingHand)
    );
}

#[test]
fn every_active_hand_passes_the_turn_on() {
    let hands = vec![hand(1, 1), hand(10, 1), hand(2, 2), hand(20, 2)];
    let order = vec![seat(1, 10), seat(1, 1), seat(2, 20), seat(2, 2)];
    let states: Vec<HandState> = vec![(20, 2, State::Holding(19)), (2, 2, State::Bust(23))];
    assert_eq!(advance_turns(&[10, 2], &order, &hands, &states), Ok(vec![1]));
    assert_eq!(
        advance_turns(&[10, 77], &order, &hands, &states),
        Err(ActionResolutionError::MissingHand)
    );
}

#[test]
fn a_table_is_complete_once_every_hand_has_a_state_and_stays_so() {
    let hands = vec![hand(1, 1), hand(10, 1), hand(2, 2)];
    let mut states: Vec<HandState> = vec![];
    assert!(!is_game_complete(1, &hands, &states));
    states.push((10, 1, State::Holding(19)));
    assert!(!is_game_complete(1, &hands, &states));
    states.push((1, 1, State::Holding(20)));
    assert!(is_game_complete(1, &hands, &states));
    assert!(!is_game_complete(2, &hands, &states));
    states.push((2, 2, State::BlackJack));
    states.push((10, 1, State::Bust(30)));
    assert!(is_game_complete(1, &hands, &states));
    assert!(is_game_complete(2, &hands, &states));
}
