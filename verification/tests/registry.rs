use blackjack::registry::{
    find_hand, get_active_hand, get_dealer, get_game, get_hand_count, list_tables,
};
use blackjack::types::{ActionResolutionError, Hand};

fn hand(id: u128, dealer: u128) -> Hand {
    Hand { id, player: id, dealer }
}

#[test]
fn a_hand_is_found_by_its_identifier() {
    let hands = vec![hand(1, 1), hand(10, 1), hand(2, 2), hand(20, 2)];
    assert_eq!(find_hand(20, &hands), Some(hand(20, 2)));
    assert_eq!(find_hand(3, &hands), None);
    assert_eq!(get_dealer(10, &hands), Ok(1));
    assert_eq!(get_dealer(2, &hands), Ok(2));
    assert_eq!(get_game(20, &hands), Ok(2));
}

#[test]
fn an_unknown_hand_is_a_missing_hand() {
    let hands = vec![hand(1, 1)];
    assert_eq!(get_dealer(5, &hands), Err(ActionResolutionError::MissingHand));
    assert_eq!(get_game(5, &[]), Err(ActionResolutionError::MissingHand));
}

#[test]
fn hands_are_counted_by_table() {
    let hands = vec![hand(1, 1), hand(10, 1), hand(2, 2), hand(11, 1)];
    assert_eq!(get_hand_count(1, &hands), 3);
    assert_eq!(get_hand_count(2, &hands), 1);
    assert_eq!(get_hand_count(3, &hands), 0);
}

#[test]
fn the_active_hand_of_a_table_is_the_first_in_the_active_set() {
    let hands = vec![hand(1, 1), hand(10, 1), hand(2, 2), hand(20, 2)];
    assert_eq!(get_active_hand(2, &[10, 99, 20, 2], &hands), Some(20));
    assert_eq!(get_active_hand(1, &[10, 99, 20, 2], &hands), Some(10));
    assert_eq!(get_active_hand(3, &[10, 20], &hands), None);
    assert_eq!(get_active_hand(1, &[], &hands), None);
}

#[test]
fn tables_are_listed_in_the_order_of_their_creation() {
    let hands = vec![hand(7, 7), hand(10, 7), hand(2, 2), hand(20, 2)];
    assert_eq!(list_tables(&hands), vec![7, 2]);
    assert_eq!(list_tables(&[]), Vec::<u128>::new());
}
