//! Deck construction and hand scoring.

use vstd::prelude::*;
use crate::types::{Card, CardValue, Deck, Suit};

verus! {

/// The suit of the `k`-th run of thirteen cards in a standard deck.
pub open spec fn standard_suit(k: int) -> Suit {
    if k == 0 {
        Suit::Hearts
    } else if k == 1 {
        Suit::Diamonds
    } else if k == 2 {
        Suit::Clubs
    } else {
        Suit::Spades
    }
}

/// The rank at position `r` within a suit of a standard deck:
/// Ace, King, Queen, Jack, then the numeric ranks from ten down to two.
pub open spec fn standard_rank(r: int) -> CardValue {
    if r == 0 {
        CardValue::Ace
    } else if r == 1 {
        CardValue::King
    } else if r == 2 {
        CardValue::Queen
    } else if r == 3 {
        CardValue::Jack
    } else {
        CardValue::Value((14 - r) as u8)
    }
}

/// The standard deck: four suits of thirteen ranks, suit by suit.
pub open spec fn standard_deck() -> Seq<Card> {
    Seq::new(52, |i: int| Card { suit: standard_suit(i / 13), value: standard_rank(i % 13) })
}

/// The suit of the `k`-th run of nine cards in the loaded deck.
pub open spec fn loaded_suit(k: int) -> Suit {
    if k == 0 {
        Suit::Hearts
    } else if k == 1 {
        Suit::Diamonds
    } else {
        Suit::Spades
    }
}

/// The loaded deck of 27 cards: no ace and no face card, nine down to one
/// in each of Hearts, Diamonds and Spades.
pub open spec fn loaded_deck() -> Seq<Card> {
    Seq::new(27, |i: int| Card { suit: loaded_suit(i / 9), value: CardValue::Value((9 - i % 9) as u8) })
}

fn suit_at(k: usize) -> (suit: Suit)
    ensures
        suit == standard_suit(k as int),
{
    if k == 0 {
        Suit::Hearts
    } else if k == 1 {
        Suit::Diamonds
    } else if k == 2 {
        Suit::Clubs
    } else {
        Suit::Spades
    }
}

fn rank_at(r: u8) -> (rank: CardValue)
    requires
        r < 13,
    ensures
        rank == standard_rank(r as int),
{
    if r == 0 {
        CardValue::Ace
    } else if r == 1 {
        CardValue::King
    } else if r == 2 {
        CardValue::Queen
    } else if r == 3 {
        CardValue::Jack
    } else {
        CardValue::Value(14 - r)
    }
}

/// Builds the standard 52-card deck.
pub fn new_deck() -> (deck: Deck)
    ensures
        deck@ == standard_deck(),
{
    let mut deck: Deck = Vec::new();
    let mut k: usize = 0;
    while k < 4
        invariant
            k <= 4,
            deck@.len() == 13 * k,
            forall|i: int| 0 <= i < deck@.len() ==> deck@[i] == standard_deck()[i],
        decreases 4 - k,
    {
        let suit = suit_at(k);
        let mut r: u8 = 0;
        while r < 13
            invariant
                k < 4,
                r <= 13,
                suit == standard_suit(k as int),
                deck@.len() == 13 * k + r,
                forall|i: int| 0 <= i < deck@.len() ==> deck@[i] == standard_deck()[i],
            decreases 13 - r,
        {
            deck.push(Card::new(suit, rank_at(r)));
            r = r + 1;
        }
        k = k + 1;
    }
    deck
}

/// Builds the loaded deck, a fixture that makes play predictable: 27 cards,
/// none of them an ace or a face card.
pub fn create_loaded_deck() -> (deck: Deck)
    ensures
        deck@ == loaded_deck(),
{
    let mut deck: Deck = Vec::new();
    let mut k: usize = 0;
    while k < 3
        invariant
            k <= 3,
            deck@.len() == 9 * k,
            forall|i: int| 0 <= i < deck@.len() ==> deck@[i] == loaded_deck()[i],
        decreases 3 - k,
    {
        let suit = if k == 0 {
            Suit::Hearts
        } else if k == 1 {
            Suit::Diamonds
        } else {
            Suit::Spades
        };
        let mut r: u8 = 0;
        while r < 9
            invariant
                k < 3,
                r <= 9,
                suit == loaded_suit(k as int),
                deck@.len() == 9 * k + r,
                forall|i: int| 0 <= i < deck@.len() ==> deck@[i] == loaded_deck()[i],
            decreases 9 - r,
        {
            deck.push(Card::new(suit, CardValue::Value(9 - r)));
            r = r + 1;
        }
        k = k + 1;
    }
    deck
}

/// The points a card contributes before any ace is softened.
pub open spec fn card_points(card: Card) -> int {
    match card.value {
        CardValue::Ace => 11,
        CardValue::King => 10,
        CardValue::Queen => 10,
        CardValue::Jack => 10,
        CardValue::Value(v) => v as int,
    }
}

/// The sum of the points of `cards`, every ace counted as eleven.
pub open spec fn hard_total(cards: Seq<Card>) -> int
    decreases cards.len(),
{
    if cards.len() == 0 {
        0
    } else {
        hard_total(cards.drop_last()) + card_points(cards.last())
    }
}

/// The number of aces among `cards`.
pub open spec fn ace_count(cards: Seq<Card>) -> int
    decreases cards.len(),
{
    if cards.len() == 0 {
        0
    } else {
        ace_count(cards.drop_last()) + if cards.last().value is Ace {
            1int
        } else {
            0int
        }
    }
}

/// How many aces are counted as one instead of eleven: as few as bring the
/// total to 21 or less, and never more than there are aces.
pub open spec fn softened_aces(total: int, aces: int) -> int {
    if total <= 21 {
        0
    } else if (total - 12) / 10 <= aces {
        (total - 12) / 10
    } else {
        aces
    }
}

/// The value of a hand: its hard total less ten for each softened ace.
/// It is not clamped above 21, and an empty hand scores 0.
pub open spec fn hand_score(cards: Seq<Card>) -> int {
    hard_total(cards) - 10 * softened_aces(hard_total(cards), ace_count(cards))
}

/// The hard total and the ace count are bounded by the number of cards.
pub proof fn lemma_total_bounds(cards: Seq<Card>)
    ensures
        0 <= hard_total(cards) <= 255 * cards.len(),
        0 <= ace_count(cards) <= cards.len(),
        11 * ace_count(cards) <= hard_total(cards),
    decreases cards.len(),
{
    if cards.len() > 0 {
        lemma_total_bounds(cards.drop_last());
    }
}

/// The hard totals and the aces of two stretches of cards add up.
pub proof fn lemma_totals_concat(a: Seq<Card>, b: Seq<Card>)
    ensures
        hard_total(a + b) == hard_total(a) + hard_total(b),
        ace_count(a + b) == ace_count(a) + ace_count(b),
    decreases b.len(),
{
    if b.len() == 0 {
        assert(a + b == a);
    } else {
        assert((a + b).drop_last() == a + b.drop_last());
        lemma_totals_concat(a, b.drop_last());
    }
}

/// Taking one card out of a hand takes its points, and its ace, out of the totals.
proof fn lemma_totals_remove(cards: Seq<Card>, k: int)
    requires
        0 <= k < cards.len(),
    ensures
        hard_total(cards) == hard_total(cards.remove(k)) + card_points(cards[k]),
        ace_count(cards) == ace_count(cards.remove(k)) + if cards[k].value is Ace {
            1int
        } else {
            0int
        },
{
    let head = cards.take(k);
    let one = seq![cards[k]];
    let tail = cards.skip(k + 1);
    assert(cards == head + one + tail);
    assert(cards.remove(k) == head + tail);
    lemma_totals_concat(head, one);
    lemma_totals_concat(head + one, tail);
    lemma_totals_concat(head, tail);
    assert(one.drop_last() == Seq::<Card>::empty());
    assert(one.last() == cards[k]);
    assert(hard_total(one) == card_points(cards[k])) by {
        reveal_with_fuel(hard_total, 2);
    }
    assert(ace_count(one) == if cards[k].value is Ace {
        1int
    } else {
        0int
    }) by {
        reveal_with_fuel(ace_count, 2);
    }
}

/// The order of the cards does not matter to the totals.
proof fn lemma_totals_order_free(a: Seq<Card>, b: Seq<Card>)
    requires
        a.to_multiset() == b.to_multiset(),
    ensures
        hard_total(a) == hard_total(b),
        ace_count(a) == ace_count(b),
    decreases a.len(),
{
    a.to_multiset_ensures();
    b.to_multiset_ensures();
    if a.len() == 0 {
        assert(b.len() == 0);
    } else {
        let last = a.last();
        let n = a.len() - 1;
        assert(a.contains(last)) by {
            assert(a[n] == last);
        }
        assert(a.to_multiset().count(last) > 0);
        assert(b.contains(last));
        let k = choose|k: int| 0 <= k < b.len() && b[k] == last;
        assert(a.remove(n) == a.drop_last());
        assert(a.remove(n).to_multiset() == a.to_multiset().remove(a[n]));
        assert(b.remove(k).to_multiset() == b.to_multiset().remove(b[k]));
        lemma_totals_order_free(a.drop_last(), b.remove(k));
        lemma_totals_remove(b, k);
    }
}

/// The score of a hand does not depend on the order of its cards: the ace
/// reductions commute, and two hands of the same cards score the same.
pub proof fn lemma_score_order_free(a: Seq<Card>, b: Seq<Card>)
    requires
        a.to_multiset() == b.to_multiset(),
    ensures
        hand_score(a) == hand_score(b),
{
    lemma_totals_order_free(a, b);
}

/// Softening is exact: the score is the hard total less ten for each of
/// `k` aces, where `k` is the least number of aces that brings the total to
/// 21 or less, or all the aces where none does.
pub proof fn lemma_score_is_least_softening(cards: Seq<Card>)
    ensures
        ({
            let total = hard_total(cards);
            let k = softened_aces(total, ace_count(cards));
            &&& 0 <= k <= ace_count(cards)
            &&& hand_score(cards) == total - 10 * k
            &&& k > 0 ==> total - 10 * (k - 1) > 21
            &&& k < ace_count(cards) ==> total - 10 * k <= 21
            &&& 0 <= hand_score(cards) <= total
        }),
{
    lemma_total_bounds(cards);
}

/// The score of `cards` in a type that holds every score.
fn wide_score(cards: &[Card]) -> (score: u128)
    ensures
        score == hand_score(cards@),
{
    let mut total: u128 = 0;
    let mut aces: u128 = 0;
    let mut i: usize = 0;
    while i < cards.len()
        invariant
            i <= cards.len(),
            total == hard_total(cards@.take(i as int)),
            aces == ace_count(cards@.take(i as int)),
            total <= 255 * i,
            aces <= i,
        decreases cards.len() - i,
    {
        proof {
            assert(cards@.take(i as int + 1).drop_last() == cards@.take(i as int));
        }
        match cards[i].value {
            CardValue::Value(v) => {
                total = total + v as u128;
            },
            CardValue::Ace => {
                aces = aces + 1;
                total = total + 11;
            },
            _ => {
                total = total + 10;
            },
        }
        i = i + 1;
    }
    proof {
        assert(cards@.take(cards@.len() as int) == cards@);
    }
    let ghost hard = total as int;
    let mut value: u128 = total;
    let mut n: u128 = 0;
    while n < aces
        invariant
            n <= aces,
            hard == hard_total(cards@),
            aces == ace_count(cards@),
            value == hard - 10 * softened_aces(hard, n as int),
        decreases aces - n,
    {
        if value > 21 {
            value = value - 10;
        }
        n = n + 1;
    }
    value
}

/// Scores a hand: an ace counts eleven, a face card ten, a numeric card its
/// face value; then, once per ace, ten is taken off while the total exceeds 21.
pub fn hand_value(cards: &[Card]) -> (value: u8)
    requires
        hand_score(cards@) <= u8::MAX,
    ensures
        value == hand_score(cards@),
{
    wide_score(cards) as u8
}

/// Scores a hand where the score fits the score type.
pub fn checked_hand_value(cards: &[Card]) -> (value: Option<u8>)
    ensures
        value == if hand_score(cards@) <= u8::MAX {
            Some(hand_score(cards@) as u8)
        } else {
            None
        },
{
    let score = wide_score(cards);
    if score <= 255 {
        Some(score as u8)
    } else {
        None
    }
}

/// Whether a hand is bust: whether it scores above 21.
pub fn hand_bust(cards: &[Card]) -> (bust: bool)
    ensures
        bust == (hand_score(cards@) > 21),
{
    wide_score(cards) > 21
}

} // verus!
