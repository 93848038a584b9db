//! The state resolver: which cards a hand holds, what they score, and the
//! state that hits and holds leave a hand in.
//!
//! A hand is active exactly when no state is recorded for it.

use std::collections::HashMap;
use vstd::prelude::*;
use vstd::std_specs::hash::group_hash_axioms;
use crate::cards::{checked_hand_value, hand_score};
use crate::registry::{find_hand, first_hand};
use crate::types::{
    Action,
    ActionResolutionError,
    Card,
    CardAllocation,
    Deck,
    Hand,
    HandAction,
    HandState,
    Id,
    State,
};

verus! {

broadcast use group_hash_axioms;

/// Whether a state is recorded for the hand.
pub open spec fn has_state(hand_states: Seq<HandState>, hand_id: Id) -> bool {
    exists|i: int| 0 <= i < hand_states.len() && (#[trigger] hand_states[i]).0 == hand_id
}

/// Whether the hand is active: whether no state is recorded for it.
pub open spec fn is_active(hand_states: Seq<HandState>, hand_id: Id) -> bool {
    forall|i: int| 0 <= i < hand_states.len() ==> (#[trigger] hand_states[i]).0 != hand_id
}

/// No two entries speak of the same hand: the recorded states are a
/// mapping from hands to states.
pub open spec fn distinct_states(hand_states: Seq<HandState>) -> bool {
    forall|i: int, j: int|
        0 <= i < j < hand_states.len() ==> (#[trigger] hand_states[i]).0 != (
        #[trigger] hand_states[j]).0
}

/// Those of `fresh` that are to be recorded after `recorded`: for each hand
/// that has no state yet, the first entry that speaks of it.
pub open spec fn unrecorded(recorded: Seq<HandState>, fresh: Seq<HandState>) -> Seq<HandState>
    decreases fresh.len(),
{
    if fresh.len() == 0 {
        Seq::empty()
    } else {
        let before = unrecorded(recorded, fresh.drop_last());
        if has_state(recorded + before, fresh.last().0) {
            before
        } else {
            before.push(fresh.last())
        }
    }
}

/// The decks as sequences of cards, table by table.
pub open spec fn deck_views(decks: Map<Id, Deck>) -> Map<Id, Seq<Card>> {
    Map::new(|table: Id| decks.contains_key(table), |table: Id| decks[table]@)
}

/// The cards that `hand` holds, in the order it received them: for each of
/// its ledger entries the card at the entry's position in `deck`. `None`
/// where one of its entries points past the end of the deck.
pub open spec fn held_cards(allocations: Seq<CardAllocation>, hand: Id, deck: Seq<Card>) -> Option<
    Seq<Card>,
>
    decreases allocations.len(),
{
    if allocations.len() == 0 {
        Some(Seq::empty())
    } else {
        match held_cards(allocations.drop_last(), hand, deck) {
            None => None,
            Some(cards) => if allocations.last().hand != hand {
                Some(cards)
            } else if allocations.last().card_idx < deck.len() {
                Some(cards.push(deck[allocations.last().card_idx as int]))
            } else {
                None
            },
        }
    }
}

/// The value of the cards that `hand` holds from the deck of `table`.
pub open spec fn seat_value(
    hand: Id,
    table: Id,
    allocations: Seq<CardAllocation>,
    decks: Map<Id, Seq<Card>>,
) -> Result<u8, ActionResolutionError> {
    if !decks.contains_key(table) {
        Err(ActionResolutionError::MissingDeck)
    } else {
        match held_cards(allocations, hand, decks[table]) {
            None => Err(ActionResolutionError::DeckExhausted),
            Some(cards) => if hand_score(cards) <= u8::MAX {
                Ok(hand_score(cards) as u8)
            } else {
                Err(ActionResolutionError::Overflow)
            },
        }
    }
}

/// The value of the registered hand `hand_id`.
pub open spec fn hand_value_of(
    hand_id: Id,
    hands: Seq<Hand>,
    allocations: Seq<CardAllocation>,
    decks: Map<Id, Seq<Card>>,
) -> Result<u8, ActionResolutionError> {
    match first_hand(hands, hand_id) {
        None => Err(ActionResolutionError::MissingHand),
        Some(h) => seat_value(hand_id, h.dealer, allocations, decks),
    }
}

/// The state that a value puts a hand in after a hit: below 21 the hand
/// stays active and has none, 21 is a blackjack, above 21 the hand is bust.
pub open spec fn state_of_value(value: u8) -> Option<State> {
    if value < 21 {
        None
    } else if value == 21 {
        Some(State::BlackJack)
    } else {
        Some(State::Bust(value))
    }
}

/// The states of those of `hands` that are no longer active, in the order of
/// `hands`; the error of the first hand whose value cannot be had.
pub open spec fn resolved_states(
    hands: Seq<Hand>,
    allocations: Seq<CardAllocation>,
    decks: Map<Id, Seq<Card>>,
) -> Result<Seq<HandState>, ActionResolutionError>
    decreases hands.len(),
{
    if hands.len() == 0 {
        Ok(Seq::empty())
    } else {
        let hand = hands.last();
        match resolved_states(hands.drop_last(), allocations, decks) {
            Err(e) => Err(e),
            Ok(states) => match seat_value(hand.id, hand.dealer, allocations, decks) {
                Err(e) => Err(e),
                Ok(value) => match state_of_value(value) {
                    None => Ok(states),
                    Some(state) => Ok(states.push((hand.id, hand.dealer, state))),
                },
            },
        }
    }
}

/// The states that the Hold actions among `actions` record, in their order:
/// each freezes its hand at the hand's current value, whatever that value is.
/// The error of the first Hold whose hand or value cannot be had.
pub open spec fn held_states(
    hands: Seq<Hand>,
    actions: Seq<HandAction>,
    allocations: Seq<CardAllocation>,
    decks: Map<Id, Seq<Card>>,
) -> Result<Seq<HandState>, ActionResolutionError>
    decreases actions.len(),
{
    if actions.len() == 0 {
        Ok(Seq::empty())
    } else {
        let action = actions.last();
        match held_states(hands, actions.drop_last(), allocations, decks) {
            Err(e) => Err(e),
            Ok(states) => if action.1 is Hit {
                Ok(states)
            } else {
                match first_hand(hands, action.0) {
                    None => Err(ActionResolutionError::MissingHand),
                    Some(h) => match seat_value(action.0, h.dealer, allocations, decks) {
                        Err(e) => Err(e),
                        Ok(value) => Ok(states.push((action.0, h.dealer, State::Holding(value)))),
                    },
                }
            },
        }
    }
}

/// Whether every table at which one of `hands` sits has a deck.
pub open spec fn tables_have_decks(hands: Seq<Hand>, decks: Map<Id, Seq<Card>>) -> bool {
    forall|i: int| 0 <= i < hands.len() ==> decks.contains_key((#[trigger] hands[i]).dealer)
}

/// Whether every action is that of a registered hand.
pub open spec fn actions_registered(actions: Seq<HandAction>, hands: Seq<Hand>) -> bool {
    forall|i: int| 0 <= i < actions.len() ==> first_hand(hands, (#[trigger] actions[i]).0) is Some
}

/// Where every hand sits at a table that has a deck, looking at hands again
/// fails only for want of a card or of room in the score type.
pub proof fn lemma_resolved_states_errors(
    hands: Seq<Hand>,
    allocations: Seq<CardAllocation>,
    decks: Map<Id, Seq<Card>>,
)
    requires
        tables_have_decks(hands, decks),
    ensures
        resolved_states(hands, allocations, decks) matches Err(e) ==> e
            == ActionResolutionError::DeckExhausted || e == ActionResolutionError::Overflow,
    decreases hands.len(),
{
    if hands.len() > 0 {
        let prefix = hands.drop_last();
        assert forall|i: int| 0 <= i < prefix.len() implies decks.contains_key(
            (#[trigger] prefix[i]).dealer,
        ) by {
            assert(prefix[i] == hands[i]);
        }
        lemma_resolved_states_errors(prefix, allocations, decks);
        assert(hands[hands.len() - 1] == hands.last());
    }
}

/// Where every hand sits at a table that has a deck and every action is
/// that of a registered hand, the Holds fail only for want of a card or of
/// room in the score type.
pub proof fn lemma_held_states_errors(
    hands: Seq<Hand>,
    actions: Seq<HandAction>,
    allocations: Seq<CardAllocation>,
    decks: Map<Id, Seq<Card>>,
)
    requires
        tables_have_decks(hands, decks),
        actions_registered(actions, hands),
    ensures
        held_states(hands, actions, allocations, decks) matches Err(e) ==> e
            == ActionResolutionError::DeckExhausted || e == ActionResolutionError::Overflow,
    decreases actions.len(),
{
    if actions.len() > 0 {
        let prefix = actions.drop_last();
        assert forall|i: int| 0 <= i < prefix.len() implies first_hand(
            hands,
            (#[trigger] prefix[i]).0,
        ) is Some by {
            assert(prefix[i] == actions[i]);
        }
        lemma_held_states_errors(hands, prefix, allocations, decks);
        assert(actions[actions.len() - 1] == actions.last());
        crate::registry::lemma_first_hand(hands, actions.last().0);
    }
}

/// Whether the table has a deck and every card that `hand` holds lies
/// within it.
pub open spec fn cards_in_deck(
    hand: Id,
    table: Id,
    allocations: Seq<CardAllocation>,
    decks: Map<Id, Seq<Card>>,
) -> bool {
    decks.contains_key(table) && forall|i: int|
        0 <= i < allocations.len() && (#[trigger] allocations[i]).hand == hand
            ==> allocations[i].card_idx < decks[table].len()
}

/// A hand whose cards all lie within the deck holds them all.
pub proof fn lemma_held_cards_within(allocations: Seq<CardAllocation>, hand: Id, deck: Seq<Card>)
    requires
        forall|i: int|
            0 <= i < allocations.len() && (#[trigger] allocations[i]).hand == hand
                ==> allocations[i].card_idx < deck.len(),
    ensures
        held_cards(allocations, hand, deck) is Some,
    decreases allocations.len(),
{
    if allocations.len() > 0 {
        let prefix = allocations.drop_last();
        assert forall|i: int|
            0 <= i < prefix.len() && (#[trigger] prefix[i]).hand == hand implies prefix[i].card_idx
            < deck.len() by {
            assert(prefix[i] == allocations[i]);
        }
        lemma_held_cards_within(prefix, hand, deck);
        assert(allocations[allocations.len() - 1] == allocations.last());
    }
}

/// Where the cards of every hand lie within the deck of its table, looking
/// at the hands again fails only for want of room in the score type.
pub proof fn lemma_resolved_states_within(
    hands: Seq<Hand>,
    allocations: Seq<CardAllocation>,
    decks: Map<Id, Seq<Card>>,
)
    requires
        forall|k: int|
            0 <= k < hands.len() ==> cards_in_deck(
                (#[trigger] hands[k]).id,
                hands[k].dealer,
                allocations,
                decks,
            ),
    ensures
        resolved_states(hands, allocations, decks) matches Err(e) ==> e
            == ActionResolutionError::Overflow,
    decreases hands.len(),
{
    if hands.len() > 0 {
        let prefix = hands.drop_last();
        assert forall|k: int| 0 <= k < prefix.len() implies cards_in_deck(
            (#[trigger] prefix[k]).id,
            prefix[k].dealer,
            allocations,
            decks,
        ) by {
            assert(prefix[k] == hands[k]);
        }
        lemma_resolved_states_within(prefix, allocations, decks);
        let last = hands.last();
        assert(hands[hands.len() - 1] == last);
        lemma_held_cards_within(allocations, last.id, decks[last.dealer]);
    }
}

/// Where every Hold is that of a registered hand whose cards lie within
/// the deck of its table, the Holds fail only for want of room in the score
/// type.
pub proof fn lemma_held_states_within(
    hands: Seq<Hand>,
    actions: Seq<HandAction>,
    allocations: Seq<CardAllocation>,
    decks: Map<Id, Seq<Card>>,
)
    requires
        forall|i: int|
            0 <= i < actions.len() ==> (first_hand(hands, (#[trigger] actions[i]).0) matches Some(
                h,
            ) && cards_in_deck(actions[i].0, h.dealer, allocations, decks)),
    ensures
        held_states(hands, actions, allocations, decks) matches Err(e) ==> e
            == ActionResolutionError::Overflow,
    decreases actions.len(),
{
    if actions.len() > 0 {
        let prefix = actions.drop_last();
        assert forall|i: int| 0 <= i < prefix.len() implies (first_hand(
            hands,
            (#[trigger] prefix[i]).0,
        ) matches Some(h) && cards_in_deck(prefix[i].0, h.dealer, allocations, decks)) by {
            assert(prefix[i] == actions[i]);
        }
        lemma_held_states_within(hands, prefix, allocations, decks);
        let last = actions.last();
        assert(actions[actions.len() - 1] == last);
        let h = first_hand(hands, last.0)->Some_0;
        lemma_held_cards_within(allocations, last.0, decks[h.dealer]);
    }
}

/// Activity is structural: a hand has a state exactly when it is not
/// active, and recording further states never makes a hand active again.
pub proof fn lemma_active_iff_no_state(
    hand_states: Seq<HandState>,
    more: Seq<HandState>,
    hand_id: Id,
)
    ensures
        has_state(hand_states, hand_id) == !is_active(hand_states, hand_id),
        has_state(hand_states, hand_id) ==> has_state(hand_states + more, hand_id),
        has_state(hand_states + more, hand_id) == (has_state(hand_states, hand_id) || has_state(
            more,
            hand_id,
        )),
{
    let all = hand_states + more;
    if has_state(hand_states, hand_id) {
        let i = choose|i: int|
            0 <= i < hand_states.len() && (#[trigger] hand_states[i]).0 == hand_id;
        assert(all[i] == hand_states[i]);
    }
    if has_state(more, hand_id) {
        let i = choose|i: int| 0 <= i < more.len() && (#[trigger] more[i]).0 == hand_id;
        assert(all[hand_states.len() + i] == more[i]);
    }
    if has_state(all, hand_id) {
        let i = choose|i: int| 0 <= i < all.len() && (#[trigger] all[i]).0 == hand_id;
        if i < hand_states.len() {
            assert(hand_states[i] == all[i]);
        } else {
            assert(more[i - hand_states.len()] == all[i]);
        }
    }
}

/// Recording keeps the states a mapping: where no two recorded states
/// speak of the same hand, none do after the unrecorded ones are appended.
pub proof fn lemma_unrecorded_distinct(recorded: Seq<HandState>, fresh: Seq<HandState>)
    requires
        distinct_states(recorded),
    ensures
        distinct_states(recorded + unrecorded(recorded, fresh)),
        unrecorded(recorded, fresh).len() <= fresh.len(),
    decreases fresh.len(),
{
    if fresh.len() == 0 {
        assert(recorded + unrecorded(recorded, fresh) == recorded);
    } else {
        let before = unrecorded(recorded, fresh.drop_last());
        lemma_unrecorded_distinct(recorded, fresh.drop_last());
        if !has_state(recorded + before, fresh.last().0) {
            let all = recorded + before.push(fresh.last());
            assert(all == (recorded + before).push(fresh.last()));
            assert forall|i: int, j: int| 0 <= i < j < all.len() implies (#[trigger] all[i]).0 != (
            #[trigger] all[j]).0 by {
                assert(all[i] == (recorded + before)[i]);
                if j < all.len() - 1 {
                    assert(all[j] == (recorded + before)[j]);
                }
            }
        }
    }
}

/// A map of decks with no deck in it.
pub fn no_decks() -> (decks: HashMap<Id, Deck>)
    ensures
        deck_views(decks@) == Map::<Id, Seq<Card>>::empty(),
{
    let decks: HashMap<Id, Deck> = HashMap::new();
    assert(deck_views(decks@) =~= Map::<Id, Seq<Card>>::empty());
    decks
}

/// Puts `deck` on `table`, in place of the deck that the table had, if any.
pub fn put_deck(decks: &mut HashMap<Id, Deck>, table: Id, deck: Deck)
    ensures
        deck_views(final(decks)@) == deck_views(old(decks)@).insert(table, deck@),
{
    let ghost cards = deck@;
    decks.insert(table, deck);
    assert(deck_views(decks@) =~= deck_views(old(decks)@).insert(table, cards));
}

/// Whether the hand is active: whether no state is recorded for it.
pub fn is_hand_active(hand_id: Id, hand_states: &[HandState]) -> (active: bool)
    ensures
        active == is_active(hand_states@, hand_id),
        active == !has_state(hand_states@, hand_id),
{
    let mut i: usize = 0;
    while i < hand_states.len()
        invariant
            i <= hand_states.len(),
            forall|j: int| 0 <= j < i ==> (#[trigger] hand_states@[j]).0 != hand_id,
        decreases hand_states.len() - i,
    {
        if hand_states[i].0 == hand_id {
            return false;
        }
        i = i + 1;
    }
    true
}

/// Gathers the cards that `hand_id` holds from `deck`.
fn gather_cards(hand_id: Id, allocations: &[CardAllocation], deck: &Deck) -> (cards: Option<
    Vec<Card>,
>)
    ensures
        match cards {
            Some(c) => held_cards(allocations@, hand_id, deck@) == Some(c@),
            None => held_cards(allocations@, hand_id, deck@) is None,
        },
{
    let mut cards: Vec<Card> = Vec::new();
    let mut i: usize = 0;
    while i < allocations.len()
        invariant
            i <= allocations.len(),
            held_cards(allocations@.take(i as int), hand_id, deck@) == Some(cards@),
        decreases allocations.len() - i,
    {
        proof {
            assert(allocations@.take(i as int + 1).drop_last() == allocations@.take(i as int));
        }
        if allocations[i].hand == hand_id {
            if allocations[i].card_idx < deck.len() {
                cards.push(deck[allocations[i].card_idx]);
            } else {
                proof {
                    lemma_held_cards_exhausted(allocations@, hand_id, deck@, i as int + 1);
                }
                return None;
            }
        }
        i = i + 1;
    }
    proof {
        assert(allocations@.take(i as int) == allocations@);
    }
    Some(cards)
}

/// A deck that is exhausted for the first `n` ledger entries is exhausted for all of them.
proof fn lemma_held_cards_exhausted(
    allocations: Seq<CardAllocation>,
    hand: Id,
    deck: Seq<Card>,
    n: int,
)
    requires
        0 <= n <= allocations.len(),
        held_cards(allocations.take(n), hand, deck) is None,
    ensures
        held_cards(allocations, hand, deck) is None,
    decreases allocations.len() - n,
{
    if n < allocations.len() {
        assert(allocations.take(n + 1).drop_last() == allocations.take(n));
        lemma_held_cards_exhausted(allocations, hand, deck, n + 1);
    } else {
        assert(allocations.take(n) == allocations);
    }
}

/// The value of the cards that `hand_id` holds from the deck of `table`.
fn value_at_table(
    hand_id: Id,
    table: Id,
    allocations: &[CardAllocation],
    decks: &HashMap<Id, Deck>,
) -> (value: Result<u8, ActionResolutionError>)
    ensures
        value == seat_value(hand_id, table, allocations@, deck_views(decks@)),
{
    match decks.get(&table) {
        None => Err(ActionResolutionError::MissingDeck),
        Some(deck) => match gather_cards(hand_id, allocations, deck) {
            None => Err(ActionResolutionError::DeckExhausted),
            Some(cards) => match checked_hand_value(cards.as_slice()) {
                None => Err(ActionResolutionError::Overflow),
                Some(value) => Ok(value),
            },
        },
    }
}

/// The current value of the hand `hand_id`: the score of the cards that the
/// ledger records for it, read from the deck of its table.
///
/// Fails with `MissingHand` where the hand is not registered, `MissingDeck`
/// where its table has no deck, `DeckExhausted` where it holds a position
/// past the end of the deck, `Overflow` where the score exceeds 255.
pub fn get_hand_value(
    hand_id: Id,
    hands: &[Hand],
    allocations: &[CardAllocation],
    decks: &HashMap<Id, Deck>,
) -> (value: Result<u8, ActionResolutionError>)
    ensures
        value == hand_value_of(hand_id, hands@, allocations@, deck_views(decks@)),
{
    match find_hand(hand_id, hands) {
        None => Err(ActionResolutionError::MissingHand),
        Some(h) => value_at_table(hand_id, h.dealer, allocations, decks),
    }
}

/// Classifies a value reached by a hit.
pub fn classify(value: u8) -> (state: Option<State>)
    ensures
        state == state_of_value(value),
{
    if value < 21 {
        None
    } else if value == 21 {
        Some(State::BlackJack)
    } else {
        Some(State::Bust(value))
    }
}

/// Recomputes the states of `hands`: a hand at 21 is a blackjack, a hand
/// above 21 is bust, and a hand below 21 stays active and is left out of the
/// result. Fails with the error of the first hand whose value cannot be had.
pub fn process_hand_states(
    hands: &[Hand],
    card_allocations: &[CardAllocation],
    decks: &HashMap<Id, Deck>,
) -> (states: Result<Vec<HandState>, ActionResolutionError>)
    ensures
        match states {
            Ok(s) => resolved_states(hands@, card_allocations@, deck_views(decks@)) == Ok::<
                Seq<HandState>,
                ActionResolutionError,
            >(s@),
            Err(e) => resolved_states(hands@, card_allocations@, deck_views(decks@)) == Err::<
                Seq<HandState>,
                ActionResolutionError,
            >(e),
        },
{
    let mut hand_states: Vec<HandState> = Vec::new();
    let mut i: usize = 0;
    while i < hands.len()
        invariant
            i <= hands.len(),
            resolved_states(hands@.take(i as int), card_allocations@, deck_views(decks@)) == Ok::<
                Seq<HandState>,
                ActionResolutionError,
            >(hand_states@),
        decreases hands.len() - i,
    {
        proof {
            assert(hands@.take(i as int + 1).drop_last() == hands@.take(i as int));
        }
        let h = hands[i];
        match value_at_table(h.id, h.dealer, card_allocations, decks) {
            Err(e) => {
                proof {
                    lemma_resolved_states_failed(
                        hands@,
                        card_allocations@,
                        deck_views(decks@),
                        i as int + 1,
                    );
                }
                return Err(e);
            },
            Ok(value) => match classify(value) {
                None => {},
                Some(state) => {
                    hand_states.push((h.id, h.dealer, state));
                },
            },
        }
        i = i + 1;
    }
    proof {
        assert(hands@.take(i as int) == hands@);
    }
    Ok(hand_states)
}

/// An error among the first `n` hands is the error of all of them.
proof fn lemma_resolved_states_failed(
    hands: Seq<Hand>,
    allocations: Seq<CardAllocation>,
    decks: Map<Id, Seq<Card>>,
    n: int,
)
    requires
        0 <= n <= hands.len(),
        resolved_states(hands.take(n), allocations, decks) is Err,
    ensures
        resolved_states(hands, allocations, decks) == resolved_states(
            hands.take(n),
            allocations,
            decks,
        ),
    decreases hands.len() - n,
{
    if n < hands.len() {
        assert(hands.take(n + 1).drop_last() == hands.take(n));
        lemma_resolved_states_failed(hands, allocations, decks, n + 1);
    } else {
        assert(hands.take(n) == hands);
    }
}

/// Resolves the pending Hold actions: each records `Holding` with the
/// current value of its hand, unconditionally, also where that value is 21
/// or above. Fails with the error of the first Hold whose hand is not
/// registered or whose value cannot be had.
pub fn process_hold_actions(
    hands: &[Hand],
    actions: &[HandAction],
    allocations: &[CardAllocation],
    decks: &HashMap<Id, Deck>,
) -> (states: Result<Vec<HandState>, ActionResolutionError>)
    ensures
        match states {
            Ok(s) => held_states(hands@, actions@, allocations@, deck_views(decks@)) == Ok::<
                Seq<HandState>,
                ActionResolutionError,
            >(s@),
            Err(e) => held_states(hands@, actions@, allocations@, deck_views(decks@)) == Err::<
                Seq<HandState>,
                ActionResolutionError,
            >(e),
        },
{
    let mut hand_states: Vec<HandState> = Vec::new();
    let mut i: usize = 0;
    while i < actions.len()
        invariant
            i <= actions.len(),
            held_states(hands@, actions@.take(i as int), allocations@, deck_views(decks@)) == Ok::<
                Seq<HandState>,
                ActionResolutionError,
            >(hand_states@),
        decreases actions.len() - i,
    {
        proof {
            assert(actions@.take(i as int + 1).drop_last() == actions@.take(i as int));
        }
        let (hand_id, action) = actions[i];
        match action {
            Action::Hit => {},
            Action::Hold => {
                let held = match find_hand(hand_id, hands) {
                    None => Err(ActionResolutionError::MissingHand),
                    Some(h) => match value_at_table(hand_id, h.dealer, allocations, decks) {
                        Err(e) => Err(e),
                        Ok(value) => Ok((hand_id, h.dealer, State::Holding(value))),
                    },
                };
                match held {
                    Err(e) => {
                        proof {
                            lemma_held_states_failed(
                                hands@,
                                actions@,
                                allocations@,
                                deck_views(decks@),
                                i as int + 1,
                            );
                        }
                        return Err(e);
                    },
                    Ok(state) => {
                        hand_states.push(state);
                    },
                }
            },
        }
        i = i + 1;
    }
    proof {
        assert(actions@.take(i as int) == actions@);
    }
    Ok(hand_states)
}

/// An error among the first `n` actions is the error of all of them.
proof fn lemma_held_states_failed(
    hands: Seq<Hand>,
    actions: Seq<HandAction>,
    allocations: Seq<CardAllocation>,
    decks: Map<Id, Seq<Card>>,
    n: int,
)
    requires
        0 <= n <= actions.len(),
        held_states(hands, actions.take(n), allocations, decks) is Err,
    ensures
        held_states(hands, actions, allocations, decks) == held_states(
            hands,
            actions.take(n),
            allocations,
            decks,
        ),
    decreases actions.len() - n,
{
    if n < actions.len() {
        assert(actions.take(n + 1).drop_last() == actions.take(n));
        lemma_held_states_failed(hands, actions, allocations, decks, n + 1);
    } else {
        assert(actions.take(n) == actions);
    }
}

/// Records the states of `fresh` after those of `hand_states`: a hand that
/// has a state keeps it, and of several fresh states for one hand the first
/// is recorded.
pub fn record_states(hand_states: &mut Vec<HandState>, fresh: &[HandState])
    ensures
        final(hand_states)@ == old(hand_states)@ + unrecorded(old(hand_states)@, fresh@),
{
    let mut i: usize = 0;
    while i < fresh.len()
        invariant
            i <= fresh.len(),
            hand_states@ == old(hand_states)@ + unrecorded(
                old(hand_states)@,
                fresh@.take(i as int),
            ),
        decreases fresh.len() - i,
    {
        proof {
            assert(fresh@.take(i as int + 1).drop_last() == fresh@.take(i as int));
        }
        let ghost before = unrecorded(old(hand_states)@, fresh@.take(i as int));
        if is_hand_active(fresh[i].0, hand_states.as_slice()) {
            hand_states.push(fresh[i]);
            proof {
                assert((old(hand_states)@ + before).push(fresh@[i as int]) == old(hand_states)@
                    + before.push(fresh@[i as int]));
            }
        }
        i = i + 1;
    }
    proof {
        assert(fresh@.take(i as int) == fresh@);
    }
}

} // verus!
