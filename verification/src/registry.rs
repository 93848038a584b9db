//! The registry of hands: who sits at which table.

use vstd::prelude::*;
use crate::types::{ActionResolutionError, Hand, Id};

verus! {

/// The first hand registered under `id`, if any.
pub open spec fn first_hand(hands: Seq<Hand>, id: Id) -> Option<Hand>
    decreases hands.len(),
{
    if hands.len() == 0 {
        None
    } else {
        match first_hand(hands.drop_last(), id) {
            Some(h) => Some(h),
            None => if hands.last().id == id {
                Some(hands.last())
            } else {
                None
            },
        }
    }
}

/// The number of hands seated at `table`, the dealer's own hand included.
pub open spec fn seat_count(hands: Seq<Hand>, table: Id) -> nat
    decreases hands.len(),
{
    if hands.len() == 0 {
        0
    } else {
        seat_count(hands.drop_last(), table) + if hands.last().dealer == table {
            1nat
        } else {
            0nat
        }
    }
}

/// The tables: the identifiers of the dealers' own hands, in registration order.
pub open spec fn table_ids(hands: Seq<Hand>) -> Seq<Id>
    decreases hands.len(),
{
    if hands.len() == 0 {
        Seq::empty()
    } else {
        let before = table_ids(hands.drop_last());
        if hands.last().id == hands.last().dealer {
            before.push(hands.last().id)
        } else {
            before
        }
    }
}

/// No two hands are registered under the same identifier.
pub open spec fn distinct_hands(hands: Seq<Hand>) -> bool {
    forall|i: int, j: int|
        0 <= i < j < hands.len() ==> (#[trigger] hands[i]).id != (#[trigger] hands[j]).id
}

/// The first of `active_hands` that is registered and seated at `table`.
pub open spec fn active_at(active_hands: Seq<Id>, hands: Seq<Hand>, table: Id) -> Option<Id>
    decreases active_hands.len(),
{
    if active_hands.len() == 0 {
        None
    } else {
        match active_at(active_hands.drop_last(), hands, table) {
            Some(id) => Some(id),
            None => match first_hand(hands, active_hands.last()) {
                Some(h) => if h.dealer == table {
                    Some(h.id)
                } else {
                    None
                },
                None => None,
            },
        }
    }
}

/// A hand found is registered under the identifier asked for, and no hand
/// before it is; where none is found, no hand has the identifier.
pub proof fn lemma_first_hand(hands: Seq<Hand>, id: Id)
    ensures
        match first_hand(hands, id) {
            Some(h) => exists|i: int|
                0 <= i < hands.len() && #[trigger] hands[i] == h && h.id == id && forall|j: int|
                    0 <= j < i ==> (#[trigger] hands[j]).id != id,
            None => forall|i: int| 0 <= i < hands.len() ==> (#[trigger] hands[i]).id != id,
        },
    decreases hands.len(),
{
    if hands.len() > 0 {
        let prefix = hands.drop_last();
        lemma_first_hand(prefix, id);
        match first_hand(prefix, id) {
            Some(h) => {
                let i = choose|i: int|
                    0 <= i < prefix.len() && #[trigger] prefix[i] == h && h.id == id && forall|j: int|
                        0 <= j < i ==> (#[trigger] prefix[j]).id != id;
                assert(hands[i] == h);
                assert forall|j: int| 0 <= j < i implies (#[trigger] hands[j]).id != id by {
                    assert(prefix[j].id != id);
                }
            },
            None => {
                assert forall|j: int| 0 <= j < hands.len() - 1 implies (#[trigger] hands[j]).id
                    != id by {
                    assert(prefix[j].id != id);
                }
                if hands.last().id == id {
                    assert(hands[hands.len() - 1] == hands.last());
                }
            },
        }
    }
}

/// Registering one more hand changes nothing for the identifiers already
/// registered, and registers the new hand under an identifier that was free.
pub proof fn lemma_first_hand_push(hands: Seq<Hand>, hand: Hand, id: Id)
    ensures
        first_hand(hands.push(hand), id) == match first_hand(hands, id) {
            Some(h) => Some(h),
            None => if hand.id == id {
                Some(hand)
            } else {
                None
            },
        },
{
    assert(hands.push(hand).drop_last() == hands);
}

/// Where no two hands share an identifier, every hand is the one found
/// under its identifier.
pub proof fn lemma_first_hand_distinct(hands: Seq<Hand>, i: int)
    requires
        distinct_hands(hands),
        0 <= i < hands.len(),
    ensures
        first_hand(hands, hands[i].id) == Some(hands[i]),
{
    lemma_first_hand(hands, hands[i].id);
}

/// A hand found among the first `n` hands is the hand found among all of them.
pub proof fn lemma_first_hand_prefix(hands: Seq<Hand>, id: Id, n: int)
    requires
        0 <= n <= hands.len(),
        first_hand(hands.take(n), id) is Some,
    ensures
        first_hand(hands, id) == first_hand(hands.take(n), id),
    decreases hands.len() - n,
{
    if n < hands.len() {
        assert(hands.take(n + 1).drop_last() == hands.take(n));
        lemma_first_hand_prefix(hands, id, n + 1);
    } else {
        assert(hands.take(n) == hands);
    }
}

/// No more hands sit at a table among the first `n` hands than among all of them.
pub proof fn lemma_seat_count_prefix(hands: Seq<Hand>, table: Id, n: int)
    requires
        0 <= n <= hands.len(),
    ensures
        seat_count(hands.take(n), table) <= seat_count(hands, table),
        seat_count(hands, table) <= hands.len(),
    decreases hands.len(),
{
    if hands.len() > 0 {
        if n < hands.len() {
            assert(hands.drop_last().take(n) == hands.take(n));
            lemma_seat_count_prefix(hands.drop_last(), table, n);
        } else {
            assert(hands.take(n) == hands);
            lemma_seat_count_prefix(hands.drop_last(), table, 0);
        }
    } else {
        assert(hands.take(n) == hands);
    }
}

/// The tables listed are the identifiers of the hands that are their own
/// dealers, and where no two hands share an identifier no table is listed twice.
pub proof fn lemma_table_ids(hands: Seq<Hand>)
    ensures
        forall|t: Id|
            table_ids(hands).contains(t) <==> exists|i: int|
                0 <= i < hands.len() && (#[trigger] hands[i]).id == t && hands[i].dealer == t,
        distinct_hands(hands) ==> table_ids(hands).no_duplicates(),
    decreases hands.len(),
{
    if hands.len() > 0 {
        let prefix = hands.drop_last();
        let before = table_ids(prefix);
        let all = table_ids(hands);
        let n = hands.len() - 1;
        lemma_table_ids(prefix);
        assert forall|t: Id| all.contains(t) <==> exists|i: int|
            0 <= i < hands.len() && (#[trigger] hands[i]).id == t && hands[i].dealer == t by {
            if all.contains(t) {
                let k = choose|k: int| 0 <= k < all.len() && all[k] == t;
                if k < before.len() {
                    assert(before[k] == t);
                    assert(before.contains(t));
                    let i = choose|i: int|
                        0 <= i < prefix.len() && (#[trigger] prefix[i]).id == t && prefix[i].dealer
                            == t;
                    assert(hands[i] == prefix[i]);
                } else {
                    assert(hands[n].id == t && hands[n].dealer == t);
                }
            }
            if exists|i: int|
                0 <= i < hands.len() && (#[trigger] hands[i]).id == t && hands[i].dealer == t {
                let i = choose|i: int|
                    0 <= i < hands.len() && (#[trigger] hands[i]).id == t && hands[i].dealer == t;
                if i < n {
                    assert(prefix[i] == hands[i]);
                    assert(before.contains(t));
                    let k = choose|k: int| 0 <= k < before.len() && before[k] == t;
                    assert(all[k] == t);
                } else {
                    assert(all[all.len() - 1] == t);
                }
            }
        }
        if distinct_hands(hands) {
            assert forall|i: int, j: int| 0 <= i < j < prefix.len() implies (#[trigger] prefix[i]).id
                != (#[trigger] prefix[j]).id by {
                assert(prefix[i] == hands[i] && prefix[j] == hands[j]);
            }
            if hands.last().id == hands.last().dealer {
                if before.contains(hands.last().id) {
                    let i = choose|i: int|
                        0 <= i < prefix.len() && (#[trigger] prefix[i]).id == hands.last().id
                            && prefix[i].dealer == hands.last().id;
                    assert(hands[i] == prefix[i]);
                    assert(hands[n] == hands.last());
                }
                assert forall|i: int, j: int| 0 <= i < j < all.len() implies all[i] != all[j] by {
                    if j < before.len() {
                        assert(before[i] != before[j]);
                    } else {
                        assert(before[i] == all[i]);
                        assert(before.contains(before[i]));
                    }
                }
            }
        }
    }
}

/// Looks up the first hand registered under `hand_id`.
pub fn find_hand(hand_id: Id, hands: &[Hand]) -> (found: Option<Hand>)
    ensures
        found == first_hand(hands@, hand_id),
{
    let mut i: usize = 0;
    while i < hands.len()
        invariant
            i <= hands.len(),
            first_hand(hands@.take(i as int), hand_id) is None,
        decreases hands.len() - i,
    {
        proof {
            assert(hands@.take(i as int + 1).drop_last() == hands@.take(i as int));
        }
        if hands[i].id == hand_id {
            proof {
                lemma_first_hand_prefix(hands@, hand_id, i as int + 1);
            }
            return Some(hands[i]);
        }
        i = i + 1;
    }
    proof {
        assert(hands@.take(i as int) == hands@);
    }
    None
}

/// The table at which the hand `hand_id` sits.
pub fn get_dealer(hand_id: Id, hands: &[Hand]) -> (dealer: Result<Id, ActionResolutionError>)
    ensures
        dealer == match first_hand(hands@, hand_id) {
            Some(h) => Ok::<Id, ActionResolutionError>(h.dealer),
            None => Err(ActionResolutionError::MissingHand),
        },
{
    match find_hand(hand_id, hands) {
        Some(h) => Ok(h.dealer),
        None => Err(ActionResolutionError::MissingHand),
    }
}

/// The game in which the hand `hand_id` plays: its table.
pub fn get_game(hand_id: Id, hands: &[Hand]) -> (game: Result<Id, ActionResolutionError>)
    ensures
        game == match first_hand(hands@, hand_id) {
            Some(h) => Ok::<Id, ActionResolutionError>(h.dealer),
            None => Err(ActionResolutionError::MissingHand),
        },
{
    get_dealer(hand_id, hands)
}

/// Counts the hands seated at `game_id`.
pub fn get_hand_count(game_id: Id, hands: &[Hand]) -> (count: usize)
    ensures
        count == seat_count(hands@, game_id),
{
    let mut count: usize = 0;
    let mut i: usize = 0;
    while i < hands.len()
        invariant
            i <= hands.len(),
            count == seat_count(hands@.take(i as int), game_id),
            count <= i,
        decreases hands.len() - i,
    {
        proof {
            assert(hands@.take(i as int + 1).drop_last() == hands@.take(i as int));
        }
        if hands[i].dealer == game_id {
            count = count + 1;
        }
        i = i + 1;
    }
    proof {
        assert(hands@.take(i as int) == hands@);
    }
    count
}

/// The hand whose turn it is at `game_id`: the first active-set entry that
/// names a registered hand of that table.
pub fn get_active_hand(game_id: Id, active_hands: &[Id], hands: &[Hand]) -> (active: Option<Id>)
    ensures
        active == active_at(active_hands@, hands@, game_id),
{
    let mut i: usize = 0;
    while i < active_hands.len()
        invariant
            i <= active_hands.len(),
            active_at(active_hands@.take(i as int), hands@, game_id) is None,
        decreases active_hands.len() - i,
    {
        proof {
            assert(active_hands@.take(i as int + 1).drop_last() == active_hands@.take(i as int));
        }
        match find_hand(active_hands[i], hands) {
            Some(h) => {
                if h.dealer == game_id {
                    proof {
                        lemma_active_at_prefix(active_hands@, hands@, game_id, i as int + 1);
                    }
                    return Some(h.id);
                }
            },
            None => {},
        }
        i = i + 1;
    }
    proof {
        assert(active_hands@.take(i as int) == active_hands@);
    }
    None
}

/// An active hand found among the first `n` entries is the one found among all of them.
pub proof fn lemma_active_at_prefix(active_hands: Seq<Id>, hands: Seq<Hand>, table: Id, n: int)
    requires
        0 <= n <= active_hands.len(),
        active_at(active_hands.take(n), hands, table) is Some,
    ensures
        active_at(active_hands, hands, table) == active_at(active_hands.take(n), hands, table),
    decreases active_hands.len() - n,
{
    if n < active_hands.len() {
        assert(active_hands.take(n + 1).drop_last() == active_hands.take(n));
        lemma_active_at_prefix(active_hands, hands, table, n + 1);
    } else {
        assert(active_hands.take(n) == active_hands);
    }
}

/// Lists the tables: the identifiers of the dealers' own hands, in registration order.
pub fn list_tables(hands: &[Hand]) -> (tables: Vec<Id>)
    ensures
        tables@ == table_ids(hands@),
{
    let mut tables: Vec<Id> = Vec::new();
    let mut i: usize = 0;
    while i < hands.len()
        invariant
            i <= hands.len(),
            tables@ == table_ids(hands@.take(i as int)),
        decreases hands.len() - i,
    {
        proof {
            assert(hands@.take(i as int + 1).drop_last() == hands@.take(i as int));
        }
        if hands[i].id == hands[i].dealer {
            tables.push(hands[i].id);
        }
        i = i + 1;
    }
    proof {
        assert(hands@.take(i as int) == hands@);
    }
    tables
}

} // verus!
