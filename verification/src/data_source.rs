//! The engine state: every collection of the game in one place, advanced
//! one tick at a time.
//!
//! A tick applies the pending Hits, looks again at the hands that received
//! cards, applies the pending Holds, resolves the outcomes that have fallen
//! due, passes the turn on and discards the pending actions.

use std::collections::HashMap;
use vstd::prelude::*;
use vstd::std_specs::hash::group_hash_axioms;
use crate::cards::{new_deck, standard_deck};
use crate::ids::{fresh_id, is_random_uuid};
use crate::ledger::{
    allocate_cards,
    count_dealt,
    deal_rounds,
    dealt_at,
    drawn_cards,
    entries_registered,
    entry_registered,
    hands_dealt,
    ledger_sequential,
    lemma_deal_rounds_registered,
    lemma_empty_is_sequential,
    lemma_drawn_cards_registered,
    lemma_hands_dealt_at,
    lemma_hands_dealt_registered,
    lemma_sequential_is_permutation,
    position_dealt,
    touched_hands,
};
use crate::outcomes::{
    distinct_outcomes,
    get_hand_outcome,
    lemma_outcomes_stay_distinct,
    lemma_resolve_outcomes_idempotent,
    new_outcomes,
    outcome_of,
    resolve_outcomes,
};
use crate::registry::{
    active_at,
    distinct_hands,
    find_hand,
    first_hand,
    get_active_hand,
    get_hand_count,
    lemma_first_hand,
    lemma_first_hand_distinct,
    lemma_first_hand_push,
    lemma_table_ids,
    list_tables,
    seat_count,
    table_ids,
};
use crate::states::{
    actions_registered,
    cards_in_deck,
    has_state,
    lemma_held_states_within,
    lemma_resolved_states_within,
    deck_views,
    distinct_states,
    get_hand_value,
    hand_value_of,
    held_states,
    lemma_held_states_errors,
    lemma_resolved_states_errors,
    lemma_unrecorded_distinct,
    no_decks,
    put_deck,
    tables_have_decks,
    process_hand_states,
    record_states,
    resolved_states,
    unrecorded,
};
use crate::turns::{
    advance_turns,
    advanced,
    all_seated,
    has_seat,
    is_game_complete,
    lemma_advanced_seated,
    lemma_first_position_some,
    lemma_seats_of_game,
    lemma_table_order_concat,
    lemma_table_order_member,
    lemma_turn_order_of,
    seat_registered,
    seats_of,
    seats_registered,
    table_complete,
    table_order,
    turn_order_of,
    turn_sequence,
};
use crate::types::{
    Action,
    ActionResolutionError,
    Card,
    CardAllocation,
    Deck,
    Hand,
    HandAction,
    HandOutcome,
    HandState,
    Id,
    Outcome,
    Sequence,
};

verus! {

broadcast use group_hash_axioms;

/// Where a table stands: waiting for play to begin, in play, or complete.
#[derive(Clone, Copy, Debug, PartialEq, Eq, Structural)]
pub enum GameState {
    Waiting,
    Active,
    Finished,
}

/// The engine as a mathematical value: append-only logs and maps keyed by
/// identifiers.
#[verifier::ext_equal]
pub struct Engine {
    /// The registered hands, in registration order.
    pub hands: Seq<Hand>,
    /// The deck of each table.
    pub decks: Map<Id, Seq<Card>>,
    /// For each table, whether play has begun: `Waiting` or `Active`.
    pub game_states: Map<Id, GameState>,
    /// The ledger of card allocations.
    pub allocations: Seq<CardAllocation>,
    /// The states of the hands that are no longer active.
    pub hand_states: Seq<HandState>,
    /// The pending actions.
    pub actions: Seq<HandAction>,
    /// The outcomes resolved so far.
    pub outcomes: Seq<HandOutcome>,
    /// The turn order of every table that has begun play.
    pub sequence: Seq<Sequence>,
    /// The hands whose turn it is, one for each table in play.
    pub active_hands: Seq<Id>,
}

impl Engine {
    /// The engine with no table and no hand.
    pub open spec fn empty() -> Engine {
        Engine {
            hands: Seq::empty(),
            decks: Map::empty(),
            game_states: Map::empty(),
            allocations: Seq::empty(),
            hand_states: Seq::empty(),
            actions: Seq::empty(),
            outcomes: Seq::empty(),
            sequence: Seq::empty(),
            active_hands: Seq::empty(),
        }
    }

    /// The invariant of the engine. Identifiers name one hand each. Cards
    /// are dealt sequentially, so that no two entries of the ledger claim
    /// the same position of a deck. A hand has at most one state and at most
    /// one outcome. Every hand sits at a table that has a deck, and every
    /// table has its dealer's own hand, whose identifier, player and table
    /// are the table's identifier. Every entry of the ledger is that of a
    /// registered hand at the hand's own table, so that a hand holds cards
    /// of its table's deck only. Every pending action is that of a
    /// registered hand, every seat in a turn order is that of a hand
    /// registered at the seat's table, and every hand of the active set has
    /// a seat in the turn order of its table.
    pub open spec fn wf(self) -> bool {
        &&& distinct_hands(self.hands)
        &&& ledger_sequential(self.allocations)
        &&& distinct_states(self.hand_states)
        &&& distinct_outcomes(self.outcomes)
        &&& forall|t: Id|
            #![trigger self.decks.contains_key(t)]
            #![trigger self.game_states.contains_key(t)]
            self.decks.contains_key(t) <==> self.game_states.contains_key(t)
        &&& tables_have_decks(self.hands, self.decks)
        &&& forall|t: Id| #[trigger]
            self.decks.contains_key(t) ==> first_hand(self.hands, t) == Some(
                Hand { id: t, player: t, dealer: t },
            )
        &&& entries_registered(self.allocations, self.hands)
        &&& actions_registered(self.actions, self.hands)
        &&& seats_registered(self.sequence, self.hands)
        &&& all_seated(self.active_hands, self.sequence, self.hands)
    }

    /// Whether a hand or a table bears the identifier.
    pub open spec fn id_in_use(self, id: Id) -> bool {
        first_hand(self.hands, id) is Some || self.game_states.contains_key(id)
    }

    /// Whether every identifier that a random draw can yield is free. Where
    /// this holds, creating a table or seating a hand under a drawn
    /// identifier does not depend on the draw.
    pub open spec fn drawn_ids_free(self) -> bool {
        forall|id: Id| #[trigger] is_random_uuid(id) ==> !self.id_in_use(id)
    }

    /// A new table under `id`, waiting for play, with the standard deck and
    /// the dealer's own hand. `IdInUse` where the identifier is taken.
    pub open spec fn table_added(self, id: Id) -> Result<Engine, ActionResolutionError> {
        if self.id_in_use(id) {
            Err(ActionResolutionError::IdInUse)
        } else {
            Ok(
                Engine {
                    hands: self.hands.push(Hand { id, player: id, dealer: id }),
                    decks: self.decks.insert(id, standard_deck()),
                    game_states: self.game_states.insert(id, GameState::Waiting),
                    ..self
                },
            )
        }
    }

    /// Whether a new hand can still sit down at `table`: play has not begun
    /// there, and not every hand at it has a state.
    pub open spec fn seats_open(self, table: Id) -> bool {
        self.game_states[table] == GameState::Waiting && !table_complete(
            table,
            self.hands,
            self.hand_states,
        )
    }

    /// A new hand under `id` seated at `table`. `MissingDeck` where there is
    /// no such table, `GameStarted` where the table takes no new hand, since
    /// play has begun there or every hand at it has its state, `IdInUse`
    /// where the identifier is taken.
    pub open spec fn hand_added(self, table: Id, id: Id) -> Result<Engine, ActionResolutionError> {
        if !self.game_states.contains_key(table) {
            Err(ActionResolutionError::MissingDeck)
        } else if !self.seats_open(table) {
            Err(ActionResolutionError::GameStarted)
        } else if self.id_in_use(id) {
            Err(ActionResolutionError::IdInUse)
        } else {
            Ok(Engine { hands: self.hands.push(Hand { id, player: id, dealer: table }), ..self })
        }
    }

    /// The deck of `table` replaced by `deck`, which is allowed until play
    /// begins. `MissingDeck` where there is no such table, `GameStarted`
    /// where play has begun.
    pub open spec fn deck_set(self, table: Id, deck: Seq<Card>) -> Result<
        Engine,
        ActionResolutionError,
    > {
        if !self.game_states.contains_key(table) {
            Err(ActionResolutionError::MissingDeck)
        } else if self.game_states[table] != GameState::Waiting {
            Err(ActionResolutionError::GameStarted)
        } else {
            Ok(Engine { decks: self.decks.insert(table, deck), ..self })
        }
    }

    /// One more pending action. `MissingHand` where the hand is not registered.
    pub open spec fn action_added(self, hand_id: Id, action: Action) -> Result<
        Engine,
        ActionResolutionError,
    > {
        if first_hand(self.hands, hand_id) is None {
            Err(ActionResolutionError::MissingHand)
        } else {
            Ok(Engine { actions: self.actions.push((hand_id, action)), ..self })
        }
    }

    /// Play begun at `game`. Every hand at the table is dealt two cards, in
    /// two rounds; a hand that its two cards bring to 21 has its blackjack
    /// recorded at once; the turn order is established, the dealer last,
    /// and the first hand in it takes the turn.
    ///
    /// `MissingDeck` where there is no such table, `GameStarted` where play
    /// has begun before, `Overflow` where the positions to deal do not fit
    /// the machine's index type, and the error of the first dealt hand
    /// whose value cannot be had.
    pub open spec fn started(self, game: Id) -> Result<Engine, ActionResolutionError> {
        if !self.game_states.contains_key(game) {
            Err(ActionResolutionError::MissingDeck)
        } else if self.game_states[game] != GameState::Waiting {
            Err(ActionResolutionError::GameStarted)
        } else if dealt_at(self.allocations, game) + 2 * seat_count(self.hands, game)
            > usize::MAX {
            Err(ActionResolutionError::Overflow)
        } else {
            let dealt = deal_rounds(self.hands, game, dealt_at(self.allocations, game) as int, 2);
            let ledger = self.allocations + dealt;
            let seats = turn_order_of(self.hands, game);
            match resolved_states(hands_dealt(dealt, self.hands), ledger, self.decks) {
                Err(e) => Err(e),
                Ok(states) => Ok(
                    Engine {
                        allocations: ledger,
                        hand_states: self.hand_states + unrecorded(self.hand_states, states),
                        game_states: self.game_states.insert(game, GameState::Active),
                        sequence: self.sequence + seats,
                        active_hands: if seats.len() > 0 {
                            self.active_hands.push(seats[0].hand_id)
                        } else {
                            self.active_hands
                        },
                        ..self
                    },
                ),
            }
        }
    }

    /// The pending Hits applied: each draws the next card of its hand's
    /// table, and the hands that drew are looked at again, a hand at 21 or
    /// above receiving its state unless it has one.
    ///
    /// `Overflow` where ledger and pending actions together outgrow the
    /// machine's index type, and the error of the first hand that drew and
    /// whose value cannot be had.
    pub open spec fn after_hits(self) -> Result<Engine, ActionResolutionError> {
        if self.allocations.len() + self.actions.len() > usize::MAX {
            Err(ActionResolutionError::Overflow)
        } else {
            let drawn = drawn_cards(self.actions, self.hands, self.allocations);
            let ledger = self.allocations + drawn;
            match resolved_states(hands_dealt(drawn, self.hands), ledger, self.decks) {
                Err(e) => Err(e),
                Ok(states) => Ok(
                    Engine {
                        allocations: ledger,
                        hand_states: self.hand_states + unrecorded(self.hand_states, states),
                        ..self
                    },
                ),
            }
        }
    }

    /// The pending Holds applied: each records `Holding` with the current
    /// value of its hand, unless the hand has a state. The error of the
    /// first Hold whose hand or value cannot be had.
    pub open spec fn after_holds(self) -> Result<Engine, ActionResolutionError> {
        match held_states(self.hands, self.actions, self.allocations, self.decks) {
            Err(e) => Err(e),
            Ok(states) => Ok(
                Engine {
                    hand_states: self.hand_states + unrecorded(self.hand_states, states),
                    ..self
                },
            ),
        }
    }

    /// The turn resolved: the outcomes that have fallen due are recorded,
    /// every hand of the active set passes the turn on, and the pending
    /// actions are discarded. The error of the first active hand whose
    /// next hand cannot be had.
    pub open spec fn after_turn(self) -> Result<Engine, ActionResolutionError> {
        match advanced(self.active_hands, self.sequence, self.hands, self.hand_states) {
            Err(e) => Err(e),
            Ok(next) => Ok(
                Engine {
                    outcomes: self.outcomes + new_outcomes(self.hand_states, self.outcomes),
                    active_hands: next,
                    actions: Seq::empty(),
                    ..self
                },
            ),
        }
    }

    /// One tick: nothing where no action is pending; otherwise the Hits,
    /// then the Holds, then the turn.
    pub open spec fn ticked(self) -> Result<Engine, ActionResolutionError> {
        if self.actions.len() == 0 {
            Ok(self)
        } else {
            match self.after_hits() {
                Err(e) => Err(e),
                Ok(hit) => match hit.after_holds() {
                    Err(e) => Err(e),
                    Ok(held) => held.after_turn(),
                },
            }
        }
    }

    /// The engine with its pending actions discarded.
    pub open spec fn without_actions(self) -> Engine {
        Engine { actions: Seq::empty(), ..self }
    }

    /// Where the table stands: `None` for an unknown table, `Waiting` until
    /// play begins, then `Active` until every hand at the table has a state,
    /// then `Finished`.
    pub open spec fn game_state(self, game: Id) -> Option<GameState> {
        if !self.game_states.contains_key(game) {
            None
        } else if self.game_states[game] == GameState::Waiting {
            Some(GameState::Waiting)
        } else if table_complete(game, self.hands, self.hand_states) {
            Some(GameState::Finished)
        } else {
            Some(GameState::Active)
        }
    }

    /// Adding a table keeps the invariant.
    pub proof fn lemma_table_added_wf(self, id: Id)
        requires
            self.wf(),
            self.table_added(id) is Ok,
        ensures
            self.table_added(id)->Ok_0.wf(),
    {
        let next = self.table_added(id)->Ok_0;
        let dealer = Hand { id, player: id, dealer: id };
        lemma_first_hand(self.hands, id);
        assert(next.hands.drop_last() == self.hands);
        assert forall|i: int, j: int| 0 <= i < j < next.hands.len() implies (
        #[trigger] next.hands[i]).id != (#[trigger] next.hands[j]).id by {
            assert(next.hands[i] == self.hands[i]);
            if j < self.hands.len() {
                assert(next.hands[j] == self.hands[j]);
            }
        }
        assert forall|i: int| 0 <= i < next.hands.len() implies next.decks.contains_key(
            (#[trigger] next.hands[i]).dealer,
        ) by {
            if i < self.hands.len() {
                assert(next.hands[i] == self.hands[i]);
            }
        }
        assert forall|t: Id| #[trigger] next.decks.contains_key(t) implies first_hand(next.hands, t)
            == Some(Hand { id: t, player: t, dealer: t }) by {
            if t != id {
                assert(self.decks.contains_key(t));
            }
        }
        lemma_seating_survives(
            self.hands,
            dealer,
            self.allocations,
            self.actions,
            self.sequence,
            self.active_hands,
        );
    }

    /// Adding a hand keeps the invariant.
    pub proof fn lemma_hand_added_wf(self, table: Id, id: Id)
        requires
            self.wf(),
            self.hand_added(table, id) is Ok,
        ensures
            self.hand_added(table, id)->Ok_0.wf(),
    {
        let next = self.hand_added(table, id)->Ok_0;
        lemma_first_hand(self.hands, id);
        assert(next.hands.drop_last() == self.hands);
        assert forall|i: int, j: int| 0 <= i < j < next.hands.len() implies (
        #[trigger] next.hands[i]).id != (#[trigger] next.hands[j]).id by {
            assert(next.hands[i] == self.hands[i]);
            if j < self.hands.len() {
                assert(next.hands[j] == self.hands[j]);
            }
        }
        assert forall|i: int| 0 <= i < next.hands.len() implies next.decks.contains_key(
            (#[trigger] next.hands[i]).dealer,
        ) by {
            if i < self.hands.len() {
                assert(next.hands[i] == self.hands[i]);
            }
        }
        assert forall|t: Id| #[trigger] next.decks.contains_key(t) implies first_hand(next.hands, t)
            == Some(Hand { id: t, player: t, dealer: t }) by {
            assert(self.decks.contains_key(t));
        }
        lemma_seating_survives(
            self.hands,
            Hand { id, player: id, dealer: table },
            self.allocations,
            self.actions,
            self.sequence,
            self.active_hands,
        );
    }

    /// Submitting an action keeps the invariant.
    pub proof fn lemma_action_added_wf(self, hand_id: Id, action: Action)
        requires
            self.wf(),
            self.action_added(hand_id, action) is Ok,
        ensures
            self.action_added(hand_id, action)->Ok_0.wf(),
    {
        let next = self.action_added(hand_id, action)->Ok_0;
        assert forall|i: int| 0 <= i < next.actions.len() implies first_hand(
            next.hands,
            (#[trigger] next.actions[i]).0,
        ) is Some by {
            if i < self.actions.len() {
                assert(next.actions[i] == self.actions[i]);
            }
        }
    }

    /// Replacing a deck keeps the invariant.
    pub proof fn lemma_deck_set_wf(self, table: Id, deck: Seq<Card>)
        requires
            self.wf(),
            self.deck_set(table, deck) is Ok,
        ensures
            self.deck_set(table, deck)->Ok_0.wf(),
    {
        let next = self.deck_set(table, deck)->Ok_0;
        assert forall|t: Id| #[trigger] next.decks.contains_key(t) implies first_hand(next.hands, t)
            == Some(Hand { id: t, player: t, dealer: t }) by {
            assert(self.decks.contains_key(t));
        }
    }

    /// Beginning play keeps the invariant.
    pub proof fn lemma_started_wf(self, game: Id)
        requires
            self.wf(),
            self.started(game) is Ok,
        ensures
            self.started(game)->Ok_0.wf(),
    {
        let next = self.started(game)->Ok_0;
        let dealt = deal_rounds(self.hands, game, dealt_at(self.allocations, game) as int, 2);
        let states = resolved_states(
            hands_dealt(dealt, self.hands),
            self.allocations + dealt,
            self.decks,
        )->Ok_0;
        crate::ledger::lemma_deal_rounds_sequential(self.allocations, self.hands, game, 2);
        lemma_deal_rounds_registered(
            self.hands,
            game,
            dealt_at(self.allocations, game) as int,
            2,
        );
        lemma_entries_registered_concat(self.allocations, dealt, self.hands);
        lemma_unrecorded_distinct(self.hand_states, states);
        assert forall|t: Id| #[trigger] next.decks.contains_key(t) implies first_hand(next.hands, t)
            == Some(Hand { id: t, player: t, dealer: t }) by {
            assert(self.decks.contains_key(t));
        }
        let seats = turn_order_of(self.hands, game);
        lemma_turn_order_of(self.hands, game);
        lemma_seats_of_game(self.hands, game);
        assert forall|i: int| 0 <= i < seats.len() implies seat_registered(
            #[trigger] seats[i],
            self.hands,
        ) && seats[i].game_id == game by {
            assert(seats.contains(seats[i]));
            assert(seats_of(self.hands, game).contains(seats[i]));
            let j = choose|j: int|
                0 <= j < self.hands.len() && (#[trigger] self.hands[j]).dealer == game
                    && self.hands[j].id == seats[i].hand_id;
            lemma_first_hand_distinct(self.hands, j);
        }
        assert forall|i: int| 0 <= i < next.sequence.len() implies seat_registered(
            #[trigger] next.sequence[i],
            next.hands,
        ) by {
            if i < self.sequence.len() {
                assert(next.sequence[i] == self.sequence[i]);
            } else {
                assert(next.sequence[i] == seats[i - self.sequence.len()]);
            }
        }
        assert forall|i: int| 0 <= i < next.active_hands.len() implies has_seat(
            #[trigger] next.active_hands[i],
            next.sequence,
            next.hands,
        ) by {
            let a = next.active_hands[i];
            if i < self.active_hands.len() {
                assert(a == self.active_hands[i]);
                let h = first_hand(self.hands, a)->Some_0;
                let before = table_order(self.sequence, h.dealer);
                let added = table_order(seats, h.dealer);
                lemma_table_order_concat(self.sequence, seats, h.dealer);
                lemma_first_position_some(before, a);
                lemma_first_position_some(before + added, a);
                let k = choose|k: int| 0 <= k < before.len() && before[k] == a;
                assert((before + added)[k] == a);
            } else {
                assert(a == seats[0].hand_id);
                assert(seat_registered(seats[0], self.hands));
                assert(next.sequence[self.sequence.len() as int] == seats[0]);
                lemma_table_order_member(next.sequence, game, a);
                lemma_first_position_some(table_order(next.sequence, game), a);
            }
        }
    }

    /// Applying the pending Hits keeps the invariant.
    pub proof fn lemma_after_hits_wf(self)
        requires
            self.wf(),
            self.after_hits() is Ok,
        ensures
            self.after_hits()->Ok_0.wf(),
    {
        let drawn = drawn_cards(self.actions, self.hands, self.allocations);
        let states = resolved_states(
            hands_dealt(drawn, self.hands),
            self.allocations + drawn,
            self.decks,
        )->Ok_0;
        crate::ledger::lemma_drawn_cards_sequential(self.actions, self.hands, self.allocations);
        lemma_drawn_cards_registered(self.actions, self.hands, self.allocations);
        lemma_entries_registered_concat(self.allocations, drawn, self.hands);
        lemma_unrecorded_distinct(self.hand_states, states);
    }

    /// Applying the pending Holds keeps the invariant.
    pub proof fn lemma_after_holds_wf(self)
        requires
            self.wf(),
            self.after_holds() is Ok,
        ensures
            self.after_holds()->Ok_0.wf(),
    {
        let states = held_states(self.hands, self.actions, self.allocations, self.decks)->Ok_0;
        lemma_unrecorded_distinct(self.hand_states, states);
    }

    /// Resolving the turn keeps the invariant.
    pub proof fn lemma_after_turn_wf(self)
        requires
            self.wf(),
            self.after_turn() is Ok,
        ensures
            self.after_turn()->Ok_0.wf(),
    {
        lemma_outcomes_stay_distinct(self.hand_states, self.outcomes);
        lemma_advanced_seated(self.active_hands, self.sequence, self.hands, self.hand_states);
    }

    /// Resolving the turn cannot fail: every hand of the active set has a
    /// seat, so a next hand is determined for each.
    pub proof fn lemma_after_turn_ok(self)
        requires
            self.wf(),
        ensures
            self.after_turn() is Ok,
    {
        lemma_advanced_seated(self.active_hands, self.sequence, self.hands, self.hand_states);
    }

    /// The Hits fail only where a hand holds a position past the end of its
    /// deck or where a machine limit is reached.
    pub proof fn lemma_after_hits_errors(self)
        requires
            self.wf(),
        ensures
            self.after_hits() matches Err(e) ==> e == ActionResolutionError::DeckExhausted || e
                == ActionResolutionError::Overflow,
    {
        let drawn = drawn_cards(self.actions, self.hands, self.allocations);
        let touched = hands_dealt(drawn, self.hands);
        lemma_hands_dealt_registered(drawn, self.hands);
        assert forall|k: int| 0 <= k < touched.len() implies self.decks.contains_key(
            (#[trigger] touched[k]).dealer,
        ) by {
            let i = choose|i: int| 0 <= i < self.hands.len() && self.hands[i] == touched[k];
            assert(self.decks.contains_key(self.hands[i].dealer));
        }
        lemma_resolved_states_errors(touched, self.allocations + drawn, self.decks);
    }

    /// The Holds fail only where a hand holds a position past the end of its
    /// deck or where its score does not fit the score type.
    pub proof fn lemma_after_holds_errors(self)
        requires
            self.wf(),
        ensures
            self.after_holds() matches Err(e) ==> e == ActionResolutionError::DeckExhausted || e
                == ActionResolutionError::Overflow,
    {
        lemma_held_states_errors(self.hands, self.actions, self.allocations, self.decks);
    }

    /// A tick fails only where a hand holds a position past the end of its
    /// deck or where a machine limit is reached: no hand, deck or seat that
    /// it looks for is missing.
    pub proof fn lemma_ticked_errors(self)
        requires
            self.wf(),
        ensures
            self.ticked() matches Err(e) ==> e == ActionResolutionError::DeckExhausted || e
                == ActionResolutionError::Overflow,
    {
        if self.actions.len() > 0 {
            self.lemma_after_hits_errors();
            if self.after_hits() is Ok {
                let hit = self.after_hits()->Ok_0;
                self.lemma_after_hits_wf();
                hit.lemma_after_holds_errors();
                if hit.after_holds() is Ok {
                    let held = hit.after_holds()->Ok_0;
                    hit.lemma_after_holds_wf();
                    held.lemma_after_turn_ok();
                }
            }
        }
    }

    /// Beginning play at a table that waits fails only where a hand would
    /// hold a position past the end of the deck or where a machine limit is
    /// reached.
    pub proof fn lemma_started_errors(self, game: Id)
        requires
            self.wf(),
        ensures
            self.started(game) matches Err(e) ==> {
                ||| e == ActionResolutionError::MissingDeck && !self.decks.contains_key(game)
                ||| e == ActionResolutionError::GameStarted && self.game_states[game]
                    != GameState::Waiting
                ||| e == ActionResolutionError::DeckExhausted
                ||| e == ActionResolutionError::Overflow
            },
    {
        let dealt = deal_rounds(self.hands, game, dealt_at(self.allocations, game) as int, 2);
        let touched = hands_dealt(dealt, self.hands);
        lemma_hands_dealt_registered(dealt, self.hands);
        assert forall|k: int| 0 <= k < touched.len() implies self.decks.contains_key(
            (#[trigger] touched[k]).dealer,
        ) by {
            let i = choose|i: int| 0 <= i < self.hands.len() && self.hands[i] == touched[k];
            assert(self.decks.contains_key(self.hands[i].dealer));
        }
        lemma_resolved_states_errors(touched, self.allocations + dealt, self.decks);
    }

    /// Whether every deck is as long as the number of cards that `ledger`
    /// deals from it.
    pub open spec fn decks_hold(self, ledger: Seq<CardAllocation>) -> bool {
        forall|t: Id| #[trigger]
            self.decks.contains_key(t) ==> dealt_at(ledger, t) <= self.decks[t].len()
    }

    /// Beginning play does not exhaust a deck that holds two more cards for
    /// every hand at the table.
    pub proof fn lemma_started_not_exhausted(self, game: Id)
        requires
            self.wf(),
            self.decks.contains_key(game),
            dealt_at(self.allocations, game) + 2 * seat_count(self.hands, game)
                <= self.decks[game].len(),
        ensures
            self.started(game) matches Err(e) ==> e == ActionResolutionError::GameStarted || e
                == ActionResolutionError::Overflow,
    {
        if self.game_states[game] == GameState::Waiting && dealt_at(self.allocations, game) + 2
            * seat_count(self.hands, game) <= usize::MAX {
            let base = dealt_at(self.allocations, game) as int;
            let dealt = deal_rounds(self.hands, game, base, 2);
            let ledger = self.allocations + dealt;
            let touched = hands_dealt(dealt, self.hands);
            crate::ledger::lemma_deal_rounds_sequential(self.allocations, self.hands, game, 2);
            lemma_deal_rounds_registered(self.hands, game, base, 2);
            lemma_entries_registered_concat(self.allocations, dealt, self.hands);
            lemma_hands_dealt_registered(dealt, self.hands);
            lemma_hands_dealt_at(dealt, self.hands, game);
            assert forall|k: int| 0 <= k < touched.len() implies cards_in_deck(
                (#[trigger] touched[k]).id,
                touched[k].dealer,
                ledger,
                self.decks,
            ) by {
                lemma_cards_in_deck(self.hands, ledger, self.decks, touched[k]);
            }
            lemma_resolved_states_within(touched, ledger, self.decks);
        }
    }

    /// A tick does not exhaust decks that are as long as the number of
    /// cards dealt from them once the pending Hits have drawn theirs: it
    /// fails only where a machine limit is reached.
    pub proof fn lemma_ticked_not_exhausted(self)
        requires
            self.wf(),
            self.decks_hold(
                self.allocations + drawn_cards(self.actions, self.hands, self.allocations),
            ),
        ensures
            self.ticked() matches Err(e) ==> e == ActionResolutionError::Overflow,
    {
        if self.actions.len() > 0 && self.allocations.len() + self.actions.len() <= usize::MAX {
            let drawn = drawn_cards(self.actions, self.hands, self.allocations);
            let ledger = self.allocations + drawn;
            let touched = hands_dealt(drawn, self.hands);
            crate::ledger::lemma_drawn_cards_sequential(self.actions, self.hands, self.allocations);
            lemma_drawn_cards_registered(self.actions, self.hands, self.allocations);
            lemma_entries_registered_concat(self.allocations, drawn, self.hands);
            lemma_hands_dealt_registered(drawn, self.hands);
            assert forall|k: int| 0 <= k < touched.len() implies cards_in_deck(
                (#[trigger] touched[k]).id,
                touched[k].dealer,
                ledger,
                self.decks,
            ) by {
                let i = choose|i: int| 0 <= i < self.hands.len() && self.hands[i] == touched[k];
                assert(self.decks.contains_key(self.hands[i].dealer));
                lemma_cards_in_deck(self.hands, ledger, self.decks, touched[k]);
            }
            lemma_resolved_states_within(touched, ledger, self.decks);
            if self.after_hits() is Ok {
                let hit = self.after_hits()->Ok_0;
                assert forall|i: int| 0 <= i < hit.actions.len() implies (first_hand(
                    hit.hands,
                    (#[trigger] hit.actions[i]).0,
                ) matches Some(h) && cards_in_deck(
                    hit.actions[i].0,
                    h.dealer,
                    hit.allocations,
                    hit.decks,
                )) by {
                    let id = hit.actions[i].0;
                    lemma_first_hand(self.hands, id);
                    let h = first_hand(self.hands, id)->Some_0;
                    let j = choose|j: int| 0 <= j < self.hands.len() && self.hands[j] == h;
                    assert(self.decks.contains_key(self.hands[j].dealer));
                    lemma_cards_in_deck(self.hands, ledger, self.decks, h);
                }
                lemma_held_states_within(hit.hands, hit.actions, hit.allocations, hit.decks);
                if hit.after_holds() is Ok {
                    self.lemma_after_hits_wf();
                    hit.lemma_after_holds_wf();
                    hit.after_holds()->Ok_0.lemma_after_turn_ok();
                }
            }
        }
    }

    /// Whatever has been dealt and drawn, the positions held at a table are
    /// exactly `0..N`, each once, where `N` is the number of cards the table
    /// has dealt.
    pub proof fn lemma_positions_are_a_permutation(self, table: Id)
        requires
            self.wf(),
        ensures
            forall|i: int|
                0 <= i < self.allocations.len() && (#[trigger] self.allocations[i]).dealer
                    == table ==> self.allocations[i].card_idx < dealt_at(self.allocations, table),
            forall|i: int, j: int|
                0 <= i < j < self.allocations.len() && (#[trigger] self.allocations[i]).dealer
                    == table && (#[trigger] self.allocations[j]).dealer == table
                    ==> self.allocations[i].card_idx != self.allocations[j].card_idx,
            forall|k: int|
                0 <= k < dealt_at(self.allocations, table) ==> #[trigger] position_dealt(
                    self.allocations,
                    table,
                    k,
                ),
    {
        lemma_sequential_is_permutation(self.allocations, table);
    }

    /// Once a turn is resolved, resolving the outcomes again over the same
    /// states yields none.
    pub proof fn lemma_after_turn_settles_outcomes(self)
        requires
            self.after_turn() is Ok,
        ensures
            new_outcomes(self.after_turn()->Ok_0.hand_states, self.after_turn()->Ok_0.outcomes)
                == Seq::<HandOutcome>::empty(),
    {
        lemma_resolve_outcomes_idempotent(self.hand_states, self.outcomes);
    }

    /// The tables listed are the tables that have a deck, each listed once.
    pub proof fn lemma_tables_listed(self)
        requires
            self.wf(),
        ensures
            forall|t: Id| table_ids(self.hands).contains(t) <==> self.decks.contains_key(t),
            table_ids(self.hands).no_duplicates(),
    {
        lemma_table_ids(self.hands);
        assert forall|t: Id| table_ids(self.hands).contains(t) <==> self.decks.contains_key(
            t,
        ) by {
            if self.decks.contains_key(t) {
                lemma_first_hand(self.hands, t);
            }
        }
    }

    /// Creating a table leaves every table that there is as complete as it was.
    pub proof fn lemma_table_added_keeps_complete(self, id: Id, table: Id)
        requires
            self.wf(),
            self.table_added(id) is Ok,
            self.game_states.contains_key(table),
            table_complete(table, self.hands, self.hand_states),
        ensures
            table_complete(
                table,
                self.table_added(id)->Ok_0.hands,
                self.table_added(id)->Ok_0.hand_states,
            ),
    {
        let next = self.table_added(id)->Ok_0;
        assert forall|i: int|
            0 <= i < next.hands.len() && (#[trigger] next.hands[i]).dealer
                == table implies has_state(next.hand_states, next.hands[i].id) by {
            if i < self.hands.len() {
                assert(next.hands[i] == self.hands[i]);
            }
        }
    }

    /// Seating a hand leaves every complete table complete: a complete
    /// table takes no new hand.
    pub proof fn lemma_hand_added_keeps_complete(self, at: Id, id: Id, table: Id)
        requires
            self.hand_added(at, id) is Ok,
            table_complete(table, self.hands, self.hand_states),
        ensures
            table_complete(
                table,
                self.hand_added(at, id)->Ok_0.hands,
                self.hand_added(at, id)->Ok_0.hand_states,
            ),
    {
        let next = self.hand_added(at, id)->Ok_0;
        assert forall|i: int|
            0 <= i < next.hands.len() && (#[trigger] next.hands[i]).dealer
                == table implies has_state(next.hand_states, next.hands[i].id) by {
            if i < self.hands.len() {
                assert(next.hands[i] == self.hands[i]);
            }
        }
    }

    /// Beginning play registers no hand and removes no state: a table that
    /// is complete stays complete through it.
    pub proof fn lemma_started_keeps_complete(self, game: Id, table: Id)
        requires
            self.started(game) is Ok,
            table_complete(table, self.hands, self.hand_states),
        ensures
            table_complete(
                table,
                self.started(game)->Ok_0.hands,
                self.started(game)->Ok_0.hand_states,
            ),
    {
        let next = self.started(game)->Ok_0;
        let more = next.hand_states.skip(self.hand_states.len() as int);
        crate::turns::lemma_complete_is_monotonic(table, self.hands, self.hand_states, more);
        assert(self.hand_states + more == next.hand_states);
    }

    /// A tick keeps the invariant, and a table that is complete stays
    /// complete through it: a tick registers no hand and removes no state.
    pub proof fn lemma_ticked(self, table: Id)
        requires
            self.wf(),
            self.ticked() is Ok,
        ensures
            self.ticked()->Ok_0.wf(),
            self.ticked()->Ok_0.hands == self.hands,
            table_complete(table, self.hands, self.hand_states) ==> table_complete(
                table,
                self.ticked()->Ok_0.hands,
                self.ticked()->Ok_0.hand_states,
            ),
    {
        if self.actions.len() > 0 {
            let hit = self.after_hits()->Ok_0;
            let held = hit.after_holds()->Ok_0;
            self.lemma_after_hits_wf();
            hit.lemma_after_holds_wf();
            held.lemma_after_turn_wf();
            if table_complete(table, self.hands, self.hand_states) {
                crate::turns::lemma_complete_is_monotonic(
                    table,
                    self.hands,
                    self.hand_states,
                    hit.hand_states.skip(self.hand_states.len() as int),
                );
                assert(self.hand_states + hit.hand_states.skip(self.hand_states.len() as int)
                    == hit.hand_states);
                crate::turns::lemma_complete_is_monotonic(
                    table,
                    self.hands,
                    hit.hand_states,
                    held.hand_states.skip(hit.hand_states.len() as int),
                );
                assert(hit.hand_states + held.hand_states.skip(hit.hand_states.len() as int)
                    == held.hand_states);
            }
        }
    }
}

/// Registering one more hand leaves every ledger entry and every pending
/// action registered, every seat that of a registered hand, and every
/// active hand seated.
proof fn lemma_seating_survives(
    hands: Seq<Hand>,
    hand: Hand,
    allocations: Seq<CardAllocation>,
    actions: Seq<HandAction>,
    sequence: Seq<Sequence>,
    active_hands: Seq<Id>,
)
    requires
        entries_registered(allocations, hands),
        actions_registered(actions, hands),
        seats_registered(sequence, hands),
        all_seated(active_hands, sequence, hands),
    ensures
        entries_registered(allocations, hands.push(hand)),
        actions_registered(actions, hands.push(hand)),
        seats_registered(sequence, hands.push(hand)),
        all_seated(active_hands, sequence, hands.push(hand)),
{
    assert forall|i: int| 0 <= i < allocations.len() implies entry_registered(
        #[trigger] allocations[i],
        hands.push(hand),
    ) by {
        lemma_first_hand_push(hands, hand, allocations[i].hand);
    }
    assert forall|i: int| 0 <= i < actions.len() implies first_hand(
        hands.push(hand),
        (#[trigger] actions[i]).0,
    ) is Some by {
        lemma_first_hand_push(hands, hand, actions[i].0);
    }
    assert forall|i: int| 0 <= i < sequence.len() implies seat_registered(
        #[trigger] sequence[i],
        hands.push(hand),
    ) by {
        lemma_first_hand_push(hands, hand, sequence[i].hand_id);
    }
    assert forall|i: int| 0 <= i < active_hands.len() implies has_seat(
        #[trigger] active_hands[i],
        sequence,
        hands.push(hand),
    ) by {
        lemma_first_hand_push(hands, hand, active_hands[i]);
    }
}

/// Two registered stretches of the ledger make a registered ledger.
proof fn lemma_entries_registered_concat(
    a: Seq<CardAllocation>,
    b: Seq<CardAllocation>,
    hands: Seq<Hand>,
)
    requires
        entries_registered(a, hands),
        entries_registered(b, hands),
    ensures
        entries_registered(a + b, hands),
{
    assert forall|i: int| 0 <= i < (a + b).len() implies entry_registered(
        #[trigger] (a + b)[i],
        hands,
    ) by {
        if i < a.len() {
            assert((a + b)[i] == a[i]);
        } else {
            assert((a + b)[i] == b[i - a.len()]);
        }
    }
}

/// In a sequential, registered ledger the cards of a registered hand lie
/// within the deck of its table wherever that deck is as long as the number
/// of cards dealt from it.
proof fn lemma_cards_in_deck(
    hands: Seq<Hand>,
    ledger: Seq<CardAllocation>,
    decks: Map<Id, Seq<Card>>,
    hand: Hand,
)
    requires
        distinct_hands(hands),
        ledger_sequential(ledger),
        entries_registered(ledger, hands),
        hands.contains(hand),
        decks.contains_key(hand.dealer),
        dealt_at(ledger, hand.dealer) <= decks[hand.dealer].len(),
    ensures
        cards_in_deck(hand.id, hand.dealer, ledger, decks),
{
    let k = choose|k: int| 0 <= k < hands.len() && hands[k] == hand;
    lemma_first_hand_distinct(hands, k);
    lemma_sequential_is_permutation(ledger, hand.dealer);
    assert forall|i: int|
        0 <= i < ledger.len() && (#[trigger] ledger[i]).hand == hand.id implies ledger[i].card_idx
        < decks[hand.dealer].len() by {
        assert(entry_registered(ledger[i], hands));
    }
}

/// The engine state. Its collections are reached through the methods only,
/// so that the invariant `Engine::wf` holds of every value built with them.
pub struct DataSource {
    hands: Vec<Hand>,
    decks: HashMap<Id, Deck>,
    game_states: HashMap<Id, GameState>,
    allocations: Vec<CardAllocation>,
    hand_states: Vec<HandState>,
    actions: Vec<HandAction>,
    outcomes: Vec<HandOutcome>,
    sequence: Vec<Sequence>,
    active_hands: Vec<Id>,
}

impl View for DataSource {
    type V = Engine;

    closed spec fn view(&self) -> Engine {
        Engine {
            hands: self.hands@,
            decks: deck_views(self.decks@),
            game_states: self.game_states@,
            allocations: self.allocations@,
            hand_states: self.hand_states@,
            actions: self.actions@,
            outcomes: self.outcomes@,
            sequence: self.sequence@,
            active_hands: self.active_hands@,
        }
    }
}

impl DataSource {
    /// An engine with no table and no hand.
    pub fn new() -> (ds: DataSource)
        ensures
            ds@ == Engine::empty(),
            ds@.wf(),
            ds@.drawn_ids_free(),
    {
        let ds = DataSource {
            hands: Vec::new(),
            decks: no_decks(),
            game_states: HashMap::new(),
            allocations: Vec::new(),
            hand_states: Vec::new(),
            actions: Vec::new(),
            outcomes: Vec::new(),
            sequence: Vec::new(),
            active_hands: Vec::new(),
        };
        proof {
            lemma_empty_is_sequential();
            assert(ds@ =~= Engine::empty());
        }
        ds
    }

    /// Creates a table under a fresh random identifier: see `register_game`.
    /// Whatever identifier is drawn, either the table is created under it or
    /// the identifier is taken and nothing changes. The table is created
    /// for certain where no identifier that can be drawn is in use, as in a
    /// new engine.
    pub fn add_game(&mut self) -> (created: Result<Id, ActionResolutionError>)
        requires
            old(self)@.wf(),
        ensures
            final(self)@.wf(),
            match created {
                Ok(id) => is_random_uuid(id) && old(self)@.table_added(id) == Ok::<
                    Engine,
                    ActionResolutionError,
                >(final(self)@),
                Err(e) => e == ActionResolutionError::IdInUse && final(self)@ == old(self)@,
            },
            old(self)@.drawn_ids_free() ==> created is Ok,
    {
        let id = fresh_id();
        self.register_game(id)
    }

    /// Creates the table `id`: it waits for play, has the standard deck, and
    /// its dealer's own hand is registered. Fails with `IdInUse`, and
    /// changes nothing, where a hand or a table bears the identifier.
    pub fn register_game(&mut self, id: Id) -> (created: Result<Id, ActionResolutionError>)
        requires
            old(self)@.wf(),
        ensures
            final(self)@.wf(),
            match created {
                Ok(got) => got == id && old(self)@.table_added(id) == Ok::<
                    Engine,
                    ActionResolutionError,
                >(final(self)@),
                Err(e) => old(self)@.table_added(id) == Err::<Engine, ActionResolutionError>(e)
                    && final(self)@ == old(self)@,
            },
    {
        if find_hand(id, self.hands.as_slice()).is_some() || self.game_states.contains_key(&id) {
            return Err(ActionResolutionError::IdInUse);
        }
        put_deck(&mut self.decks, id, new_deck());
        self.game_states.insert(id, GameState::Waiting);
        self.hands.push(Hand { id, player: id, dealer: id });
        proof {
            let next = old(self)@.table_added(id)->Ok_0;
            assert(self@.decks =~= next.decks);
            assert(self@ =~= next);
            old(self)@.lemma_table_added_wf(id);
        }
        Ok(id)
    }

    /// Replaces the deck of a table that waits for play. Fails with
    /// `MissingDeck` where there is no such table and with `GameStarted`
    /// where play has begun, and then changes nothing.
    pub fn set_deck(&mut self, game_id: Id, deck: Deck) -> (set: Result<
        (),
        ActionResolutionError,
    >)
        requires
            old(self)@.wf(),
        ensures
            final(self)@.wf(),
            match set {
                Ok(()) => old(self)@.deck_set(game_id, deck@) == Ok::<
                    Engine,
                    ActionResolutionError,
                >(final(self)@),
                Err(e) => old(self)@.deck_set(game_id, deck@) == Err::<
                    Engine,
                    ActionResolutionError,
                >(e) && final(self)@ == old(self)@,
            },
    {
        match self.game_states.get(&game_id) {
            None => {
                return Err(ActionResolutionError::MissingDeck);
            },
            Some(state) => match state {
                GameState::Waiting => {},
                _ => {
                    return Err(ActionResolutionError::GameStarted);
                },
            },
        }
        let ghost images = deck@;
        put_deck(&mut self.decks, game_id, deck);
        proof {
            let next = old(self)@.deck_set(game_id, images)->Ok_0;
            assert(self@.decks =~= next.decks);
            assert(self@ =~= next);
            old(self)@.lemma_deck_set_wf(game_id, images);
        }
        Ok(())
    }

    /// Whether the table `dealer_id` exists and still takes a new hand.
    fn takes_a_seat(&self, dealer_id: Id) -> (open: Result<(), ActionResolutionError>)
        ensures
            open == if !self@.game_states.contains_key(dealer_id) {
                Err::<(), ActionResolutionError>(ActionResolutionError::MissingDeck)
            } else if !self@.seats_open(dealer_id) {
                Err(ActionResolutionError::GameStarted)
            } else {
                Ok(())
            },
    {
        match self.game_states.get(&dealer_id) {
            None => Err(ActionResolutionError::MissingDeck),
            Some(state) => match state {
                GameState::Waiting => {
                    if self.is_table_complete(dealer_id) {
                        Err(ActionResolutionError::GameStarted)
                    } else {
                        Ok(())
                    }
                },
                _ => Err(ActionResolutionError::GameStarted),
            },
        }
    }

    /// Seats a new hand at `dealer_id` under a fresh random identifier: see
    /// `register_player`. Fails with `MissingDeck` where there is no such
    /// table and with `GameStarted` where the table takes no new hand.
    /// Otherwise, whatever identifier is drawn, either the hand is seated
    /// under it or the identifier is taken and nothing changes; the hand is
    /// seated for certain where no identifier that can be drawn is in use.
    pub fn add_player(&mut self, dealer_id: Id) -> (seated: Result<Id, ActionResolutionError>)
        requires
            old(self)@.wf(),
        ensures
            final(self)@.wf(),
            match seated {
                Ok(id) => is_random_uuid(id) && old(self)@.hand_added(dealer_id, id) == Ok::<
                    Engine,
                    ActionResolutionError,
                >(final(self)@),
                Err(e) => final(self)@ == old(self)@ && e == if !old(self)@.game_states.contains_key(
                    dealer_id,
                ) {
                    ActionResolutionError::MissingDeck
                } else if !old(self)@.seats_open(dealer_id) {
                    ActionResolutionError::GameStarted
                } else {
                    ActionResolutionError::IdInUse
                },
            },
            old(self)@.game_states.contains_key(dealer_id) && old(self)@.seats_open(dealer_id)
                && old(self)@.drawn_ids_free() ==> seated is Ok,
    {
        match self.takes_a_seat(dealer_id) {
            Err(e) => {
                return Err(e);
            },
            Ok(()) => {},
        }
        let id = fresh_id();
        self.register_player(dealer_id, id)
    }

    /// Seats the new hand `id` at the table `dealer_id`. Fails with
    /// `MissingDeck` where there is no such table, with `GameStarted` where
    /// the table takes no new hand, since play has begun there or every hand
    /// at it has its state, and with `IdInUse` where a hand or a table bears
    /// the identifier; and then changes nothing.
    pub fn register_player(&mut self, dealer_id: Id, id: Id) -> (seated: Result<
        Id,
        ActionResolutionError,
    >)
        requires
            old(self)@.wf(),
        ensures
            final(self)@.wf(),
            match seated {
                Ok(got) => got == id && old(self)@.hand_added(dealer_id, id) == Ok::<
                    Engine,
                    ActionResolutionError,
                >(final(self)@),
                Err(e) => old(self)@.hand_added(dealer_id, id) == Err::<
                    Engine,
                    ActionResolutionError,
                >(e) && final(self)@ == old(self)@,
            },
    {
        match self.takes_a_seat(dealer_id) {
            Err(e) => {
                return Err(e);
            },
            Ok(()) => {},
        }
        if find_hand(id, self.hands.as_slice()).is_some() || self.game_states.contains_key(&id) {
            return Err(ActionResolutionError::IdInUse);
        }
        self.hands.push(Hand { id, player: id, dealer: dealer_id });
        proof {
            let next = old(self)@.hand_added(dealer_id, id)->Ok_0;
            assert(self@ =~= next);
            old(self)@.lemma_hand_added_wf(dealer_id, id);
        }
        Ok(id)
    }

    /// Submits an action for a hand: it is pending until the next tick.
    /// Fails with `MissingHand`, and changes nothing, where the hand is not
    /// registered.
    pub fn add_action(&mut self, hand_id: Id, action: Action) -> (added: Result<
        (),
        ActionResolutionError,
    >)
        requires
            old(self)@.wf(),
        ensures
            final(self)@.wf(),
            match added {
                Ok(()) => old(self)@.action_added(hand_id, action) == Ok::<
                    Engine,
                    ActionResolutionError,
                >(final(self)@),
                Err(e) => old(self)@.action_added(hand_id, action) == Err::<
                    Engine,
                    ActionResolutionError,
                >(e) && final(self)@ == old(self)@,
            },
    {
        if find_hand(hand_id, self.hands.as_slice()).is_none() {
            return Err(ActionResolutionError::MissingHand);
        }
        self.actions.push((hand_id, action));
        proof {
            assert(self@ =~= old(self)@.action_added(hand_id, action)->Ok_0);
            old(self)@.lemma_action_added_wf(hand_id, action);
        }
        Ok(())
    }

    /// Begins play at `game_id`: see `Engine::started`. On failure nothing
    /// changes. Where the deck of the table holds two more cards for every
    /// hand at it, the deck is not exhausted.
    pub fn start_game(&mut self, game_id: Id) -> (begun: Result<(), ActionResolutionError>)
        requires
            old(self)@.wf(),
        ensures
            final(self)@.wf(),
            match begun {
                Ok(()) => old(self)@.started(game_id) == Ok::<Engine, ActionResolutionError>(
                    final(self)@,
                ),
                Err(e) => old(self)@.started(game_id) == Err::<Engine, ActionResolutionError>(e)
                    && final(self)@ == old(self)@,
            },
            old(self)@.decks.contains_key(game_id) && dealt_at(old(self)@.allocations, game_id) + 2
                * seat_count(old(self)@.hands, game_id) <= old(self)@.decks[game_id].len()
                ==> begun != Err::<(), ActionResolutionError>(
                ActionResolutionError::DeckExhausted,
            ),
    {
        proof {
            if old(self)@.decks.contains_key(game_id) && dealt_at(old(self)@.allocations, game_id)
                + 2 * seat_count(old(self)@.hands, game_id) <= old(self)@.decks[game_id].len() {
                old(self)@.lemma_started_not_exhausted(game_id);
            }
        }
        match self.game_states.get(&game_id) {
            None => {
                return Err(ActionResolutionError::MissingDeck);
            },
            Some(state) => match state {
                GameState::Waiting => {},
                _ => {
                    return Err(ActionResolutionError::GameStarted);
                },
            },
        }
        let base = count_dealt(self.allocations.as_slice(), game_id);
        let seats = get_hand_count(game_id, self.hands.as_slice());
        if seats > (usize::MAX - base) / 2 {
            return Err(ActionResolutionError::Overflow);
        }
        let mut dealt = allocate_cards(self.hands.as_slice(), self.allocations.as_slice(), game_id, 2);
        let touched = touched_hands(dealt.as_slice(), self.hands.as_slice());
        let recorded = self.allocations.len();
        self.allocations.append(&mut dealt);
        match process_hand_states(touched.as_slice(), self.allocations.as_slice(), &self.decks) {
            Err(e) => {
                self.allocations.truncate(recorded);
                proof {
                    assert(self.allocations@ == old(self).allocations@);
                    assert(self@ =~= old(self)@);
                }
                Err(e)
            },
            Ok(states) => {
                record_states(&mut self.hand_states, states.as_slice());
                let mut order = turn_sequence(self.hands.as_slice(), game_id);
                if order.len() > 0 {
                    self.active_hands.push(order[0].hand_id);
                }
                self.sequence.append(&mut order);
                self.game_states.insert(game_id, GameState::Active);
                proof {
                    let next = old(self)@.started(game_id)->Ok_0;
                    assert(self@ =~= next);
                    old(self)@.lemma_started_wf(game_id);
                }
                Ok(())
            },
        }
    }

    /// Applies the pending Hits: see `Engine::after_hits`. This fails only
    /// where a hand holds a position past the end of its deck or a machine
    /// limit is reached, and then nothing changes.
    pub fn process_hit_actions(&mut self) -> (applied: Result<(), ActionResolutionError>)
        requires
            old(self)@.wf(),
        ensures
            final(self)@.wf(),
            match applied {
                Ok(()) => old(self)@.after_hits() == Ok::<Engine, ActionResolutionError>(
                    final(self)@,
                ),
                Err(e) => old(self)@.after_hits() == Err::<Engine, ActionResolutionError>(e)
                    && final(self)@ == old(self)@ && (e == ActionResolutionError::DeckExhausted
                    || e == ActionResolutionError::Overflow),
            },
    {
        proof {
            old(self)@.lemma_after_hits_errors();
        }
        if self.actions.len() > usize::MAX - self.allocations.len() {
            return Err(ActionResolutionError::Overflow);
        }
        let mut drawn = crate::ledger::process_hit_actions(
            self.actions.as_slice(),
            self.hands.as_slice(),
            self.allocations.as_slice(),
        );
        let touched = touched_hands(drawn.as_slice(), self.hands.as_slice());
        let recorded = self.allocations.len();
        self.allocations.append(&mut drawn);
        match process_hand_states(touched.as_slice(), self.allocations.as_slice(), &self.decks) {
            Err(e) => {
                self.allocations.truncate(recorded);
                proof {
                    assert(self.allocations@ == old(self).allocations@);
                    assert(self@ =~= old(self)@);
                }
                Err(e)
            },
            Ok(states) => {
                record_states(&mut self.hand_states, states.as_slice());
                proof {
                    assert(self@ =~= old(self)@.after_hits()->Ok_0);
                    old(self)@.lemma_after_hits_wf();
                }
                Ok(())
            },
        }
    }

    /// Applies the pending Holds: see `Engine::after_holds`. This fails only
    /// where a hand holds a position past the end of its deck or its score
    /// does not fit the score type, and then nothing changes.
    pub fn process_hold_actions(&mut self) -> (applied: Result<(), ActionResolutionError>)
        requires
            old(self)@.wf(),
        ensures
            final(self)@.wf(),
            match applied {
                Ok(()) => old(self)@.after_holds() == Ok::<Engine, ActionResolutionError>(
                    final(self)@,
                ),
                Err(e) => old(self)@.after_holds() == Err::<Engine, ActionResolutionError>(e)
                    && final(self)@ == old(self)@ && (e == ActionResolutionError::DeckExhausted
                    || e == ActionResolutionError::Overflow),
            },
    {
        proof {
            old(self)@.lemma_after_holds_errors();
        }
        match crate::states::process_hold_actions(
            self.hands.as_slice(),
            self.actions.as_slice(),
            self.allocations.as_slice(),
            &self.decks,
        ) {
            Err(e) => Err(e),
            Ok(states) => {
                record_states(&mut self.hand_states, states.as_slice());
                proof {
                    assert(self@ =~= old(self)@.after_holds()->Ok_0);
                    old(self)@.lemma_after_holds_wf();
                }
                Ok(())
            },
        }
    }

    /// Resolves the turn: see `Engine::after_turn`. This cannot fail, since
    /// every hand of the active set has a seat.
    pub fn resolve_turn(&mut self)
        requires
            old(self)@.wf(),
        ensures
            final(self)@.wf(),
            old(self)@.after_turn() == Ok::<Engine, ActionResolutionError>(final(self)@),
    {
        proof {
            old(self)@.lemma_after_turn_ok();
        }
        match advance_turns(
            self.active_hands.as_slice(),
            self.sequence.as_slice(),
            self.hands.as_slice(),
            self.hand_states.as_slice(),
        ) {
            Err(_) => {
                proof {
                    assert(false);
                }
            },
            Ok(next) => {
                let mut fresh = resolve_outcomes(
                    self.hand_states.as_slice(),
                    self.outcomes.as_slice(),
                );
                self.outcomes.append(&mut fresh);
                self.active_hands = next;
                self.actions.clear();
                proof {
                    assert(self@ =~= old(self)@.after_turn()->Ok_0);
                    old(self)@.lemma_after_turn_wf();
                }
            },
        }
    }

    /// The hand whose turn it is at `game_id`, if any.
    pub fn current_active_hand(&self, game_id: Id) -> (active: Option<Id>)
        ensures
            active == active_at(self@.active_hands, self@.hands, game_id),
    {
        get_active_hand(game_id, self.active_hands.as_slice(), self.hands.as_slice())
    }

    /// The current value of the hand `hand_id`.
    pub fn hand_value(&self, hand_id: Id) -> (value: Result<u8, ActionResolutionError>)
        ensures
            value == hand_value_of(hand_id, self@.hands, self@.allocations, self@.decks),
    {
        get_hand_value(hand_id, self.hands.as_slice(), self.allocations.as_slice(), &self.decks)
    }

    /// The outcome of the hand `hand_id`, if it has one.
    pub fn hand_outcome(&self, hand_id: Id) -> (outcome: Option<Outcome>)
        ensures
            outcome == outcome_of(self@.outcomes, hand_id),
    {
        get_hand_outcome(hand_id, self.outcomes.as_slice())
    }

    /// The tables, in the order of their creation.
    pub fn list_tables(&self) -> (tables: Vec<Id>)
        ensures
            tables@ == table_ids(self@.hands),
    {
        list_tables(self.hands.as_slice())
    }

    /// Whether every hand at `game_id` has a state.
    pub fn is_table_complete(&self, game_id: Id) -> (complete: bool)
        ensures
            complete == table_complete(game_id, self@.hands, self@.hand_states),
    {
        is_game_complete(game_id, self.hands.as_slice(), self.hand_states.as_slice())
    }

    /// The registered hands, in registration order.
    pub fn hands(&self) -> (hands: &Vec<Hand>)
        ensures
            hands@ == self@.hands,
    {
        &self.hands
    }

    /// The deck of the table `game_id`, if there is such a table.
    pub fn deck(&self, game_id: Id) -> (deck: Option<&Deck>)
        ensures
            match deck {
                Some(d) => self@.decks.contains_key(game_id) && d@ == self@.decks[game_id],
                None => !self@.decks.contains_key(game_id),
            },
    {
        self.decks.get(&game_id)
    }

    /// The ledger of card allocations.
    pub fn allocations(&self) -> (allocations: &Vec<CardAllocation>)
        ensures
            allocations@ == self@.allocations,
    {
        &self.allocations
    }

    /// The states of the hands that are no longer active.
    pub fn hand_states(&self) -> (hand_states: &Vec<HandState>)
        ensures
            hand_states@ == self@.hand_states,
    {
        &self.hand_states
    }

    /// The pending actions.
    pub fn actions(&self) -> (actions: &Vec<HandAction>)
        ensures
            actions@ == self@.actions,
    {
        &self.actions
    }

    /// The outcomes resolved so far.
    pub fn outcomes(&self) -> (outcomes: &Vec<HandOutcome>)
        ensures
            outcomes@ == self@.outcomes,
    {
        &self.outcomes
    }

    /// The turn order of every table that has begun play.
    pub fn sequence(&self) -> (sequence: &Vec<Sequence>)
        ensures
            sequence@ == self@.sequence,
    {
        &self.sequence
    }

    /// The hands whose turn it is.
    pub fn active_hands(&self) -> (active_hands: &Vec<Id>)
        ensures
            active_hands@ == self@.active_hands,
    {
        &self.active_hands
    }

    /// Where the table `game_id` stands.
    pub fn game_state(&self, game_id: Id) -> (state: Option<GameState>)
        ensures
            state == self@.game_state(game_id),
    {
        match self.game_states.get(&game_id) {
            None => None,
            Some(state) => match state {
                GameState::Waiting => Some(GameState::Waiting),
                _ => {
                    if self.is_table_complete(game_id) {
                        Some(GameState::Finished)
                    } else {
                        Some(GameState::Active)
                    }
                },
            },
        }
    }
}

impl Default for DataSource {
    fn default() -> (ds: DataSource)
        ensures
            ds@ == Engine::empty(),
            ds@.wf(),
            ds@.drawn_ids_free(),
    {
        DataSource::new()
    }
}

/// Advances the engine by one tick. Where no action is pending nothing
/// happens. Otherwise the pending Hits are applied, then the pending Holds,
/// then the turn is resolved, which discards the pending actions. A tick
/// fails only where a hand holds a position past the end of its deck or a
/// machine limit is reached, and then leaves the engine as it was but for
/// the pending actions, which are discarded. No deck is exhausted where
/// every deck is as long as the number of cards dealt from it once the
/// pending Hits have drawn theirs.
pub fn process_actions(ds: &mut DataSource) -> (ticked: Result<(), ActionResolutionError>)
    requires
        old(ds)@.wf(),
    ensures
        final(ds)@.wf(),
        match ticked {
            Ok(()) => old(ds)@.ticked() == Ok::<Engine, ActionResolutionError>(final(ds)@),
            Err(e) => old(ds)@.ticked() == Err::<Engine, ActionResolutionError>(e) && final(ds)@
                == old(ds)@.without_actions() && (e == ActionResolutionError::DeckExhausted || e
                == ActionResolutionError::Overflow),
        },
        old(ds)@.decks_hold(
            old(ds)@.allocations + drawn_cards(
                old(ds)@.actions,
                old(ds)@.hands,
                old(ds)@.allocations,
            ),
        ) ==> ticked != Err::<(), ActionResolutionError>(ActionResolutionError::DeckExhausted),
{
    proof {
        old(ds)@.lemma_ticked_errors();
        if old(ds)@.decks_hold(
            old(ds)@.allocations + drawn_cards(
                old(ds)@.actions,
                old(ds)@.hands,
                old(ds)@.allocations,
            ),
        ) {
            old(ds)@.lemma_ticked_not_exhausted();
        }
    }
    if ds.actions.len() == 0 {
        return Ok(());
    }
    let dealt = ds.allocations.len();
    let recorded = ds.hand_states.len();
    let hit = ds.process_hit_actions();
    let held = match hit {
        Err(e) => Err(e),
        Ok(()) => ds.process_hold_actions(),
    };
    match held {
        Ok(()) => {
            ds.resolve_turn();
            Ok(())
        },
        Err(e) => {
            ds.allocations.truncate(dealt);
            ds.hand_states.truncate(recorded);
            ds.actions.clear();
            proof {
                assert(ds@ =~= old(ds)@.without_actions());
            }
            Err(e)
        },
    }
}

} // verus!
