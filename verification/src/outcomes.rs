//! The outcome resolver: a hand with a state is compared with the state of
//! its table's dealer, once.

use vstd::prelude::*;
use crate::states::distinct_states;
use crate::types::{HandOutcome, HandState, Id, Outcome, State};

verus! {

/// The outcome of a hand in state `hand` against a dealer in state `dealer`.
///
/// A dealer's blackjack beats every hand, with value 0. A dealer gone bust
/// loses to every hand, with the sentinel value 22. Against a dealer holding
/// at `d`, a blackjack wins with 21, a bust hand loses with its value, and a
/// hand holding at `v` wins with `v` where `v > d` and loses with `v` otherwise.
pub open spec fn judge(dealer: State, hand: State) -> Outcome {
    match dealer {
        State::BlackJack => Outcome::Lost(0),
        State::Bust(_) => Outcome::Won(22),
        State::Holding(d) => match hand {
            State::BlackJack => Outcome::Won(21),
            State::Bust(v) => Outcome::Lost(v),
            State::Holding(v) => if v > d {
                Outcome::Won(v)
            } else {
                Outcome::Lost(v)
            },
        },
    }
}

/// The first state recorded for the hand, if any.
pub open spec fn state_of(hand_states: Seq<HandState>, hand_id: Id) -> Option<State>
    decreases hand_states.len(),
{
    if hand_states.len() == 0 {
        None
    } else {
        match state_of(hand_states.drop_last(), hand_id) {
            Some(s) => Some(s),
            None => if hand_states.last().0 == hand_id {
                Some(hand_states.last().2)
            } else {
                None
            },
        }
    }
}

/// The first outcome recorded for the hand, if any.
pub open spec fn outcome_of(outcomes: Seq<HandOutcome>, hand_id: Id) -> Option<Outcome>
    decreases outcomes.len(),
{
    if outcomes.len() == 0 {
        None
    } else {
        match outcome_of(outcomes.drop_last(), hand_id) {
            Some(o) => Some(o),
            None => if outcomes.last().0 == hand_id {
                Some(outcomes.last().1)
            } else {
                None
            },
        }
    }
}

/// The outcome that falls due for one recorded state: none for a hand that
/// has its outcome already, none for the dealer's own hand, which is never
/// compared with itself, none while the dealer of the hand's table has no
/// state; otherwise the hand's state judged against the dealer's.
pub open spec fn outcome_due(
    entry: HandState,
    hand_states: Seq<HandState>,
    outcomes: Seq<HandOutcome>,
) -> Option<HandOutcome> {
    if outcome_of(outcomes, entry.0) is Some || entry.0 == entry.1 {
        None
    } else {
        match state_of(hand_states, entry.1) {
            None => None,
            Some(dealer) => Some((entry.0, judge(dealer, entry.2))),
        }
    }
}

/// The outcomes that fall due for `entries`, in their order, where the
/// dealers' states are looked up in `hand_states`.
pub open spec fn outcomes_due(
    entries: Seq<HandState>,
    hand_states: Seq<HandState>,
    outcomes: Seq<HandOutcome>,
) -> Seq<HandOutcome>
    decreases entries.len(),
{
    if entries.len() == 0 {
        Seq::empty()
    } else {
        let before = outcomes_due(entries.drop_last(), hand_states, outcomes);
        match outcome_due(entries.last(), hand_states, outcomes) {
            Some(o) => before.push(o),
            None => before,
        }
    }
}

/// The outcomes that one resolution adds to `outcomes`.
pub open spec fn new_outcomes(hand_states: Seq<HandState>, outcomes: Seq<HandOutcome>) -> Seq<
    HandOutcome,
> {
    outcomes_due(hand_states, hand_states, outcomes)
}

/// No two outcomes speak of the same hand.
pub open spec fn distinct_outcomes(outcomes: Seq<HandOutcome>) -> bool {
    forall|i: int, j: int|
        0 <= i < j < outcomes.len() ==> (#[trigger] outcomes[i]).0 != (#[trigger] outcomes[j]).0
}

/// A state found for a hand among the first `n` entries is the state found among all.
pub proof fn lemma_state_of_prefix(hand_states: Seq<HandState>, hand_id: Id, n: int)
    requires
        0 <= n <= hand_states.len(),
        state_of(hand_states.take(n), hand_id) is Some,
    ensures
        state_of(hand_states, hand_id) == state_of(hand_states.take(n), hand_id),
    decreases hand_states.len() - n,
{
    if n < hand_states.len() {
        assert(hand_states.take(n + 1).drop_last() == hand_states.take(n));
        lemma_state_of_prefix(hand_states, hand_id, n + 1);
    } else {
        assert(hand_states.take(n) == hand_states);
    }
}

/// An outcome found for a hand among the first `n` outcomes is the one found among all.
pub proof fn lemma_outcome_of_prefix(outcomes: Seq<HandOutcome>, hand_id: Id, n: int)
    requires
        0 <= n <= outcomes.len(),
        outcome_of(outcomes.take(n), hand_id) is Some,
    ensures
        outcome_of(outcomes, hand_id) == outcome_of(outcomes.take(n), hand_id),
    decreases outcomes.len() - n,
{
    if n < outcomes.len() {
        assert(outcomes.take(n + 1).drop_last() == outcomes.take(n));
        lemma_outcome_of_prefix(outcomes, hand_id, n + 1);
    } else {
        assert(outcomes.take(n) == outcomes);
    }
}

/// A hand has an outcome exactly when some entry of the list speaks of it.
pub proof fn lemma_outcome_of_some(outcomes: Seq<HandOutcome>, hand_id: Id)
    ensures
        outcome_of(outcomes, hand_id) is Some <==> exists|i: int|
            0 <= i < outcomes.len() && (#[trigger] outcomes[i]).0 == hand_id,
    decreases outcomes.len(),
{
    if outcomes.len() > 0 {
        let prefix = outcomes.drop_last();
        lemma_outcome_of_some(prefix, hand_id);
        if outcome_of(prefix, hand_id) is Some {
            let i = choose|i: int| 0 <= i < prefix.len() && (#[trigger] prefix[i]).0 == hand_id;
            assert(outcomes[i] == prefix[i]);
        } else if outcomes.last().0 == hand_id {
            assert(outcomes[outcomes.len() - 1].0 == hand_id);
        } else {
            if exists|i: int| 0 <= i < outcomes.len() && (#[trigger] outcomes[i]).0 == hand_id {
                let i = choose|i: int|
                    0 <= i < outcomes.len() && (#[trigger] outcomes[i]).0 == hand_id;
                assert(prefix[i] == outcomes[i]);
            }
        }
    }
}

/// Every outcome that falls due is for the hand of one of the entries, and
/// for a hand that had no outcome before.
pub proof fn lemma_outcomes_due_hands(
    entries: Seq<HandState>,
    hand_states: Seq<HandState>,
    outcomes: Seq<HandOutcome>,
)
    ensures
        outcomes_due(entries, hand_states, outcomes).len() <= entries.len(),
        forall|k: int|
            0 <= k < outcomes_due(entries, hand_states, outcomes).len() ==> outcome_of(
                outcomes,
                (#[trigger] outcomes_due(entries, hand_states, outcomes)[k]).0,
            ) is None && exists|i: int|
                0 <= i < entries.len() && (#[trigger] entries[i]).0 == outcomes_due(
                    entries,
                    hand_states,
                    outcomes,
                )[k].0,
    decreases entries.len(),
{
    if entries.len() > 0 {
        let prefix = entries.drop_last();
        let before = outcomes_due(prefix, hand_states, outcomes);
        let all = outcomes_due(entries, hand_states, outcomes);
        lemma_outcomes_due_hands(prefix, hand_states, outcomes);
        assert forall|k: int| 0 <= k < all.len() implies outcome_of(outcomes, (#[trigger] all[k]).0)
            is None && exists|i: int|
            0 <= i < entries.len() && (#[trigger] entries[i]).0 == all[k].0 by {
            if k < before.len() {
                assert(all[k] == before[k]);
                let i = choose|i: int|
                    0 <= i < prefix.len() && (#[trigger] prefix[i]).0 == before[k].0;
                assert(entries[i] == prefix[i]);
            } else {
                assert(entries[entries.len() - 1] == entries.last());
            }
        }
    }
}

/// An entry whose outcome falls due has its outcome among those produced.
pub proof fn lemma_due_is_produced(
    entries: Seq<HandState>,
    hand_states: Seq<HandState>,
    outcomes: Seq<HandOutcome>,
    i: int,
)
    requires
        0 <= i < entries.len(),
        outcome_due(entries[i], hand_states, outcomes) is Some,
    ensures
        outcome_of(outcomes_due(entries, hand_states, outcomes), entries[i].0) is Some,
        outcomes_due(entries, hand_states, outcomes).contains(
            outcome_due(entries[i], hand_states, outcomes)->Some_0,
        ),
    decreases entries.len(),
{
    let prefix = entries.drop_last();
    let before = outcomes_due(prefix, hand_states, outcomes);
    let all = outcomes_due(entries, hand_states, outcomes);
    let due = outcome_due(entries[i], hand_states, outcomes)->Some_0;
    if i < entries.len() - 1 {
        assert(prefix[i] == entries[i]);
        lemma_due_is_produced(prefix, hand_states, outcomes, i);
        if outcome_due(entries.last(), hand_states, outcomes) is Some {
            assert(all.drop_last() == before);
        }
        let k = choose|k: int| 0 <= k < before.len() && before[k] == due;
        assert(all[k] == due);
    } else {
        assert(entries[i] == entries.last());
        assert(all.drop_last() == before);
        assert(all[all.len() - 1] == due);
    }
}

/// Where no two states speak of the same hand, the state recorded for a
/// hand is the state found for it.
pub proof fn lemma_state_of_distinct(hand_states: Seq<HandState>, j: int)
    requires
        distinct_states(hand_states),
        0 <= j < hand_states.len(),
    ensures
        state_of(hand_states, hand_states[j].0) == Some(hand_states[j].2),
    decreases hand_states.len(),
{
    let prefix = hand_states.drop_last();
    let id = hand_states[j].0;
    assert forall|a: int, b: int| 0 <= a < b < prefix.len() implies (#[trigger] prefix[a]).0 != (
    #[trigger] prefix[b]).0 by {
        assert(prefix[a] == hand_states[a] && prefix[b] == hand_states[b]);
    }
    if j < hand_states.len() - 1 {
        assert(prefix[j] == hand_states[j]);
        lemma_state_of_distinct(prefix, j);
    } else {
        assert(hand_states[j] == hand_states.last());
        lemma_state_of_none(prefix, id);
    }
}

/// A hand of which no entry speaks has no state.
proof fn lemma_state_of_none(hand_states: Seq<HandState>, hand_id: Id)
    requires
        forall|i: int| 0 <= i < hand_states.len() ==> (#[trigger] hand_states[i]).0 != hand_id,
    ensures
        state_of(hand_states, hand_id) is None,
    decreases hand_states.len(),
{
    if hand_states.len() > 0 {
        let prefix = hand_states.drop_last();
        assert forall|i: int| 0 <= i < prefix.len() implies (#[trigger] prefix[i]).0
            != hand_id by {
            assert(prefix[i] == hand_states[i]);
        }
        lemma_state_of_none(prefix, hand_id);
        assert(hand_states[hand_states.len() - 1] == hand_states.last());
    }
}

/// A dealer's blackjack beats the table without any comparison of values:
/// where the dealer of a table has a blackjack, every other hand at the
/// table that has a state and no outcome yet receives `Lost(0)`, whatever
/// its own state is.
pub proof fn lemma_dealer_blackjack_beats_the_table(
    hand_states: Seq<HandState>,
    outcomes: Seq<HandOutcome>,
    dealer: int,
    hand: int,
)
    requires
        distinct_states(hand_states),
        0 <= dealer < hand_states.len(),
        0 <= hand < hand_states.len(),
        hand_states[dealer].0 == hand_states[hand].1,
        hand_states[dealer].2 == State::BlackJack,
        hand_states[hand].0 != hand_states[hand].1,
        outcome_of(outcomes, hand_states[hand].0) is None,
    ensures
        new_outcomes(hand_states, outcomes).contains((hand_states[hand].0, Outcome::Lost(0))),
{
    lemma_state_of_distinct(hand_states, dealer);
    lemma_due_is_produced(hand_states, hand_states, outcomes, hand);
}

/// A dealer gone bust loses to the table: every other hand at the table
/// that has a state and no outcome yet receives `Won(22)`, whatever its
/// own state and value are.
pub proof fn lemma_dealer_bust_loses_to_the_table(
    hand_states: Seq<HandState>,
    outcomes: Seq<HandOutcome>,
    dealer: int,
    hand: int,
)
    requires
        distinct_states(hand_states),
        0 <= dealer < hand_states.len(),
        0 <= hand < hand_states.len(),
        hand_states[dealer].0 == hand_states[hand].1,
        hand_states[dealer].2 is Bust,
        hand_states[hand].0 != hand_states[hand].1,
        outcome_of(outcomes, hand_states[hand].0) is None,
    ensures
        new_outcomes(hand_states, outcomes).contains((hand_states[hand].0, Outcome::Won(22))),
{
    lemma_state_of_distinct(hand_states, dealer);
    lemma_due_is_produced(hand_states, hand_states, outcomes, hand);
}

/// Where no outcome falls due for any entry, none is produced.
pub proof fn lemma_none_due(
    entries: Seq<HandState>,
    hand_states: Seq<HandState>,
    outcomes: Seq<HandOutcome>,
)
    requires
        forall|i: int|
            0 <= i < entries.len() ==> outcome_due(#[trigger] entries[i], hand_states, outcomes)
                is None,
    ensures
        outcomes_due(entries, hand_states, outcomes) == Seq::<HandOutcome>::empty(),
    decreases entries.len(),
{
    if entries.len() > 0 {
        let prefix = entries.drop_last();
        assert forall|i: int| 0 <= i < prefix.len() implies outcome_due(
            #[trigger] prefix[i],
            hand_states,
            outcomes,
        ) is None by {
            assert(prefix[i] == entries[i]);
        }
        lemma_none_due(prefix, hand_states, outcomes);
        assert(entries[entries.len() - 1] == entries.last());
    }
}

/// A hand that has an outcome keeps it when further outcomes are appended,
/// and a hand with an outcome among those appended has one in the whole.
pub proof fn lemma_outcome_of_concat(a: Seq<HandOutcome>, b: Seq<HandOutcome>, hand_id: Id)
    ensures
        outcome_of(a + b, hand_id) is Some <==> outcome_of(a, hand_id) is Some || outcome_of(
            b,
            hand_id,
        ) is Some,
        outcome_of(a, hand_id) is Some ==> outcome_of(a + b, hand_id) == outcome_of(a, hand_id),
    decreases b.len(),
{
    if b.len() == 0 {
        assert(a + b == a);
    } else {
        assert((a + b).drop_last() == a + b.drop_last());
        lemma_outcome_of_concat(a, b.drop_last(), hand_id);
    }
}

/// Resolution is idempotent: once the outcomes of one resolution are
/// recorded, a second resolution over the same states produces none.
pub proof fn lemma_resolve_outcomes_idempotent(
    hand_states: Seq<HandState>,
    outcomes: Seq<HandOutcome>,
)
    ensures
        new_outcomes(hand_states, outcomes + new_outcomes(hand_states, outcomes)) == Seq::<
            HandOutcome,
        >::empty(),
{
    let first = new_outcomes(hand_states, outcomes);
    let recorded = outcomes + first;
    assert forall|i: int| 0 <= i < hand_states.len() implies outcome_due(
        #[trigger] hand_states[i],
        hand_states,
        recorded,
    ) is None by {
        let entry = hand_states[i];
        lemma_outcome_of_concat(outcomes, first, entry.0);
        if outcome_due(entry, hand_states, outcomes) is Some {
            lemma_due_is_produced(hand_states, hand_states, outcomes, i);
        }
    }
    lemma_none_due(hand_states, hand_states, recorded);
}

/// Each hand receives its outcome at most once: where no two states and no
/// two recorded outcomes speak of the same hand, the same holds of the
/// outcomes with those of a resolution appended.
pub proof fn lemma_outcomes_stay_distinct(hand_states: Seq<HandState>, outcomes: Seq<HandOutcome>)
    requires
        distinct_states(hand_states),
        distinct_outcomes(outcomes),
    ensures
        distinct_outcomes(outcomes + new_outcomes(hand_states, outcomes)),
{
    lemma_due_distinct(hand_states, hand_states, outcomes);
    let fresh = new_outcomes(hand_states, outcomes);
    let all = outcomes + fresh;
    lemma_outcomes_due_hands(hand_states, hand_states, outcomes);
    assert forall|i: int, j: int| 0 <= i < j < all.len() implies (#[trigger] all[i]).0 != (
    #[trigger] all[j]).0 by {
        if j < outcomes.len() {
            assert(all[i] == outcomes[i] && all[j] == outcomes[j]);
        } else if i < outcomes.len() {
            let k = j - outcomes.len();
            assert(all[j] == fresh[k]);
            assert(all[i] == outcomes[i]);
            lemma_outcome_of_some(outcomes, fresh[k].0);
        } else {
            assert(all[i] == fresh[i - outcomes.len()]);
            assert(all[j] == fresh[j - outcomes.len()]);
        }
    }
}

/// Over states of distinct hands the outcomes that fall due speak of distinct hands.
proof fn lemma_due_distinct(
    entries: Seq<HandState>,
    hand_states: Seq<HandState>,
    outcomes: Seq<HandOutcome>,
)
    requires
        distinct_states(entries),
    ensures
        distinct_outcomes(outcomes_due(entries, hand_states, outcomes)),
    decreases entries.len(),
{
    if entries.len() > 0 {
        let prefix = entries.drop_last();
        let before = outcomes_due(prefix, hand_states, outcomes);
        let all = outcomes_due(entries, hand_states, outcomes);
        assert forall|i: int, j: int| 0 <= i < j < prefix.len() implies (#[trigger] prefix[i]).0
            != (#[trigger] prefix[j]).0 by {
            assert(prefix[i] == entries[i] && prefix[j] == entries[j]);
        }
        lemma_due_distinct(prefix, hand_states, outcomes);
        lemma_outcomes_due_hands(prefix, hand_states, outcomes);
        assert forall|i: int, j: int| 0 <= i < j < all.len() implies (#[trigger] all[i]).0 != (
        #[trigger] all[j]).0 by {
            if j < before.len() {
                assert(all[i] == before[i] && all[j] == before[j]);
            } else {
                assert(all[i] == before[i]);
                let k = choose|k: int|
                    0 <= k < prefix.len() && (#[trigger] prefix[k]).0 == before[i].0;
                assert(entries[k] == prefix[k]);
                assert(entries[entries.len() - 1] == entries.last());
            }
        }
    }
}

/// Looks up the first state recorded for the hand.
pub fn find_state(hand_id: Id, hand_states: &[HandState]) -> (found: Option<State>)
    ensures
        found == state_of(hand_states@, hand_id),
{
    let mut i: usize = 0;
    while i < hand_states.len()
        invariant
            i <= hand_states.len(),
            state_of(hand_states@.take(i as int), hand_id) is None,
        decreases hand_states.len() - i,
    {
        proof {
            assert(hand_states@.take(i as int + 1).drop_last() == hand_states@.take(i as int));
        }
        if hand_states[i].0 == hand_id {
            proof {
                lemma_state_of_prefix(hand_states@, hand_id, i as int + 1);
            }
            return Some(hand_states[i].2);
        }
        i = i + 1;
    }
    proof {
        assert(hand_states@.take(i as int) == hand_states@);
    }
    None
}

/// The outcome recorded for the hand, if it has one.
pub fn get_hand_outcome(hand_id: Id, outcomes: &[HandOutcome]) -> (outcome: Option<Outcome>)
    ensures
        outcome == outcome_of(outcomes@, hand_id),
{
    let mut i: usize = 0;
    while i < outcomes.len()
        invariant
            i <= outcomes.len(),
            outcome_of(outcomes@.take(i as int), hand_id) is None,
        decreases outcomes.len() - i,
    {
        proof {
            assert(outcomes@.take(i as int + 1).drop_last() == outcomes@.take(i as int));
        }
        if outcomes[i].0 == hand_id {
            proof {
                lemma_outcome_of_prefix(outcomes@, hand_id, i as int + 1);
            }
            return Some(outcomes[i].1);
        }
        i = i + 1;
    }
    proof {
        assert(outcomes@.take(i as int) == outcomes@);
    }
    None
}

/// Judges a hand's state against its dealer's.
pub fn judge_hand(dealer: State, hand: State) -> (outcome: Outcome)
    ensures
        outcome == judge(dealer, hand),
{
    match dealer {
        State::BlackJack => Outcome::Lost(0),
        State::Bust(_) => Outcome::Won(22),
        State::Holding(dealer_value) => match hand {
            State::BlackJack => Outcome::Won(21),
            State::Bust(v) => Outcome::Lost(v),
            State::Holding(v) => {
                if v > dealer_value {
                    Outcome::Won(v)
                } else {
                    Outcome::Lost(v)
                }
            },
        },
    }
}

/// Resolves the outcomes that have fallen due: for every recorded state
/// whose hand has no outcome among `outcomes`, is not its table's dealer,
/// and whose dealer has a state, the hand's state judged against the
/// dealer's, in the order of `hand_values`. A hand whose dealer has no state
/// yet is passed over: it is not ready, which is no error.
pub fn resolve_outcomes(hand_values: &[HandState], outcomes: &[HandOutcome]) -> (resolved: Vec<
    HandOutcome,
>)
    ensures
        resolved@ == new_outcomes(hand_values@, outcomes@),
{
    let mut resolved: Vec<HandOutcome> = Vec::new();
    let mut i: usize = 0;
    while i < hand_values.len()
        invariant
            i <= hand_values.len(),
            resolved@ == outcomes_due(hand_values@.take(i as int), hand_values@, outcomes@),
        decreases hand_values.len() - i,
    {
        proof {
            assert(hand_values@.take(i as int + 1).drop_last() == hand_values@.take(i as int));
        }
        let (hand_id, table, state) = hand_values[i];
        if hand_id != table && get_hand_outcome(hand_id, outcomes).is_none() {
            match find_state(table, hand_values) {
                Some(dealer) => {
                    resolved.push((hand_id, judge_hand(dealer, state)));
                },
                None => {},
            }
        }
        i = i + 1;
    }
    proof {
        assert(hand_values@.take(i as int) == hand_values@);
    }
    resolved
}

} // verus!
