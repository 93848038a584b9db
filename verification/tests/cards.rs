use blackjack::cards::{checked_hand_value, create_loaded_deck, hand_bust, hand_value, new_deck};
use blackjack::types::{Card, CardValue, Suit};

fn ace() -> Card {
    Card::new(Suit::Spades, CardValue::Ace)
}

fn num(n: u8) -> Card {
    Card::new(Suit::Clubs, CardValue::Value(n))
}

#[test]
fn empty_hand_scores_zero() {
    assert_eq!(hand_value(&[]), 0);
    assert!(!hand_bust(&[]));
}

#[test]
fn hands_without_aces_score_their_sum() {
    let king = Card::new(Suit::Hearts, CardValue::King);
    let queen = Card::new(Suit::Hearts, CardValue::Queen);
    let jack = Card::new(Suit::Hearts, CardValue::Jack);
    assert_eq!(hand_value(&[king, queen]), 20);
    assert_eq!(hand_value(&[jack, num(7)]), 17);
    assert_eq!(hand_value(&[num(2), num(3), num(4)]), 9);
    assert_eq!(hand_value(&[king, queen, jack]), 30);
}

#[test]
fn one_ace_is_soft_only_when_needed() {
    let king = Card::new(Suit::Hearts, CardValue::King);
    assert_eq!(hand_value(&[ace()]), 11);
    assert_eq!(hand_value(&[ace(), king]), 21);
    assert_eq!(hand_value(&[ace(), num(9), num(5)]), 15);
    assert_eq!(hand_value(&[ace(), king, num(9)]), 20);
    assert_eq!(hand_value(&[ace(), king, num(9), num(5)]), 25);
}

#[test]
fn two_aces_and_a_nine_score_twenty_one() {
    assert_eq!(hand_value(&[ace(), ace(), num(9)]), 21);
    assert_eq!(hand_value(&[ace(), ace()]), 12);
    assert_eq!(hand_value(&[num(9), ace(), ace()]), 21);
}

#[test]
fn four_aces_are_softened_as_few_times_as_needed() {
    let king = Card::new(Suit::Hearts, CardValue::King);
    let queen = Card::new(Suit::Hearts, CardValue::Queen);
    assert_eq!(hand_value(&[ace(), ace(), ace(), ace()]), 14);
    assert_eq!(hand_value(&[ace(), ace(), ace(), ace(), num(7)]), 21);
    assert_eq!(hand_value(&[ace(), ace(), ace(), ace(), king]), 14);
    assert_eq!(hand_value(&[ace(), ace(), ace(), ace(), king, queen]), 24);
}

#[test]
fn score_does_not_depend_on_the_order_of_cards() {
    let king = Card::new(Suit::Hearts, CardValue::King);
    assert_eq!(hand_value(&[ace(), king, num(5)]), hand_value(&[num(5), king, ace()]));
    assert_eq!(hand_value(&[king, num(5), ace()]), 16);
}

#[test]
fn bust_is_above_twenty_one() {
    let king = Card::new(Suit::Hearts, CardValue::King);
    assert!(!hand_bust(&[king, num(9), num(2)]));
    assert!(hand_bust(&[king, num(9), num(3)]));
    assert!(!hand_bust(&[ace(), king, num(10)]));
}

#[test]
fn a_score_that_does_not_fit_is_refused() {
    assert_eq!(checked_hand_value(&[num(200), num(55)]), Some(255));
    assert_eq!(checked_hand_value(&[num(200), num(56)]), None);
    assert_eq!(checked_hand_value(&[num(250), ace()]), Some(251));
    assert!(hand_bust(&[num(200), num(56)]));
}

#[test]
fn standard_deck_has_fifty_two_cards() {
    let deck = new_deck();
    assert_eq!(deck.len(), 52);
    assert_eq!(deck[0], Card::new(Suit::Hearts, CardValue::Ace));
    assert_eq!(deck[1], Card::new(Suit::Hearts, CardValue::King));
    assert_eq!(deck[2], Card::new(Suit::Hearts, CardValue::Queen));
    assert_eq!(deck[3], Card::new(Suit::Hearts, CardValue::Jack));
    assert_eq!(deck[4], Card::new(Suit::Hearts, CardValue::Value(10)));
    assert_eq!(deck[12], Card::new(Suit::Hearts, CardValue::Value(2)));
    assert_eq!(deck[13], Card::new(Suit::Diamonds, CardValue::Ace));
    assert_eq!(deck[26], Card::new(Suit::Clubs, CardValue::Ace));
    assert_eq!(deck[39], Card::new(Suit::Spades, CardValue::Ace));
    assert_eq!(deck[51], Card::new(Suit::Spades, CardValue::Value(2)));
    let aces = deck.iter().filter(|c| c.value == CardValue::Ace).count();
    assert_eq!(aces, 4);
}

#[test]
fn loaded_deck_has_no_face_cards() {
    let deck = create_loaded_deck();
    assert_eq!(deck.len(), 27);
    assert_eq!(deck[0], Card::new(Suit::Hearts, CardValue::Value(9)));
    assert_eq!(deck[8], Card::new(Suit::Hearts, CardValue::Value(1)));
    assert_eq!(deck[9], Card::new(Suit::Diamonds, CardValue::Value(9)));
    assert_eq!(deck[18], Card::new(Suit::Spades, CardValue::Value(9)));
    assert_eq!(deck[26], Card::new(Suit::Spades, CardValue::Value(1)));
    assert!(deck.iter().all(|c| matches!(c.value, CardValue::Value(n) if 1 <= n && n <= 9)));
}

#[test]
fn cards_are_named_by_suit_and_rank() {
    assert_eq!(Suit::Hearts.to_string(), "H");
    assert_eq!(Suit::Diamonds.to_string(), "D");
    assert_eq!(Suit::Clubs.to_string(), "C");
    assert_eq!(Suit::Spades.to_string(), "S");
    assert_eq!(CardValue::Ace.to_string(), "A");
    assert_eq!(CardValue::King.to_string(), "K");
    assert_eq!(CardValue::Queen.to_string(), "Q");
    assert_eq!(CardValue::Jack.to_string(), "J");
    assert_eq!(CardValue::Value(0).to_string(), "0");
    assert_eq!(CardValue::Value(7).to_string(), "7");
    assert_eq!(CardValue::Value(10).to_string(), "10");
    assert_eq!(CardValue::Value(105).to_string(), "105");
    assert_eq!(CardValue::Value(255).to_string(), "255");
    assert_eq!(Card::new(Suit::Hearts, CardValue::Value(10)).to_string(), "Card [H10]");
    assert_eq!(Card::new(Suit::Spades, CardValue::Ace).to_string(), "Card [SA]");
}
