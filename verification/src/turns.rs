//! The turn sequencer: the order in which the hands of a table play, which
//! hand plays next, and when a table is complete.

use vstd::prelude::*;
use vstd::seq_lib::{to_multiset_build, to_multiset_insert};
use crate::registry::{find_hand, first_hand};
use crate::states::{has_state, is_active, is_hand_active, lemma_active_iff_no_state};
use crate::types::{ActionResolutionError, Hand, HandState, Id, Sequence};

verus! {

/// Whether the seat is the dealer's own: the dealer's hand bears the table's identifier.
pub open spec fn is_dealer_seat(seat: Sequence) -> bool {
    seat.game_id == seat.hand_id
}

/// Whether `a` may play before `b`: the dealer plays last, and the other
/// hands play in the order of their identifiers.
pub open spec fn plays_before(a: Sequence, b: Sequence) -> bool {
    if is_dealer_seat(b) {
        true
    } else if is_dealer_seat(a) {
        false
    } else {
        a.hand_id <= b.hand_id
    }
}

/// Whether the seats stand in turn order.
pub open spec fn in_turn_order(seats: Seq<Sequence>) -> bool {
    forall|i: int, j: int|
        0 <= i < j < seats.len() ==> plays_before(#[trigger] seats[i], #[trigger] seats[j])
}

/// One seat for every hand at `game`, in registration order.
pub open spec fn seats_of(hands: Seq<Hand>, game: Id) -> Seq<Sequence>
    decreases hands.len(),
{
    if hands.len() == 0 {
        Seq::empty()
    } else {
        let before = seats_of(hands.drop_last(), game);
        if hands.last().dealer == game {
            before.push(Sequence { game_id: game, hand_id: hands.last().id })
        } else {
            before
        }
    }
}

/// The first position of `seats` whose seat must play after `seat`.
pub open spec fn first_later_seat(seats: Seq<Sequence>, seat: Sequence) -> Option<int>
    decreases seats.len(),
{
    if seats.len() == 0 {
        None
    } else {
        match first_later_seat(seats.drop_last(), seat) {
            Some(p) => Some(p),
            None => if !plays_before(seats.last(), seat) {
                Some(seats.len() - 1)
            } else {
                None
            },
        }
    }
}

/// `seats` with `seat` put in before the first seat that must play after it.
pub open spec fn seated(seats: Seq<Sequence>, seat: Sequence) -> Seq<Sequence> {
    match first_later_seat(seats, seat) {
        Some(p) => seats.insert(p, seat),
        None => seats.push(seat),
    }
}

/// The turn order of `game`: its seats, each put in its place in turn.
pub open spec fn turn_order_of(hands: Seq<Hand>, game: Id) -> Seq<Sequence>
    decreases hands.len(),
{
    if hands.len() == 0 {
        Seq::empty()
    } else {
        let before = turn_order_of(hands.drop_last(), game);
        if hands.last().dealer == game {
            seated(before, Sequence { game_id: game, hand_id: hands.last().id })
        } else {
            before
        }
    }
}

/// The hands of `game` in the order in which `turn_order` lists them.
pub open spec fn table_order(turn_order: Seq<Sequence>, game: Id) -> Seq<Id>
    decreases turn_order.len(),
{
    if turn_order.len() == 0 {
        Seq::empty()
    } else {
        let before = table_order(turn_order.drop_last(), game);
        if turn_order.last().game_id == game {
            before.push(turn_order.last().hand_id)
        } else {
            before
        }
    }
}

/// The first position at which `hand` stands in `order`.
pub open spec fn first_position(order: Seq<Id>, hand: Id) -> Option<int>
    decreases order.len(),
{
    if order.len() == 0 {
        None
    } else {
        match first_position(order.drop_last(), hand) {
            Some(p) => Some(p),
            None => if order.last() == hand {
                Some(order.len() - 1)
            } else {
                None
            },
        }
    }
}

/// The cyclic order as seen from position `p`: the hands after it, then the
/// hands from the start up to and including the hand at `p` itself.
pub open spec fn following(order: Seq<Id>, p: int) -> Seq<Id> {
    order.subrange(p + 1, order.len() as int) + order.subrange(0, p + 1)
}

/// The first of `candidates` at which a scan for the next hand stops: the
/// first that is active or is `current` again.
pub open spec fn first_stop(candidates: Seq<Id>, current: Id, hand_states: Seq<HandState>) -> Option<
    Id,
>
    decreases candidates.len(),
{
    if candidates.len() == 0 {
        None
    } else {
        match first_stop(candidates.drop_last(), current, hand_states) {
            Some(id) => Some(id),
            None => if is_active(hand_states, candidates.last()) || candidates.last() == current {
                Some(candidates.last())
            } else {
                None
            },
        }
    }
}

/// The hand that plays after `current`. The turn order of the table is
/// taken as a cycle and scanned from just after `current` for the first hand
/// that is active or is `current` again; that hand plays next if it is
/// active, and nobody does if the scan comes round to a `current` that has a
/// state. `MissingHand` where `current` is not registered or has no seat in
/// the turn order of its table.
pub open spec fn next_hand(
    current: Id,
    turn_order: Seq<Sequence>,
    hands: Seq<Hand>,
    hand_states: Seq<HandState>,
) -> Result<Option<Id>, ActionResolutionError> {
    match first_hand(hands, current) {
        None => Err(ActionResolutionError::MissingHand),
        Some(h) => {
            let order = table_order(turn_order, h.dealer);
            match first_position(order, current) {
                None => Err(ActionResolutionError::MissingHand),
                Some(p) => match first_stop(following(order, p), current, hand_states) {
                    Some(id) => if is_active(hand_states, id) {
                        Ok(Some(id))
                    } else {
                        Ok(None)
                    },
                    None => Ok(None),
                },
            }
        }
    }
}

/// The active set after every hand in it has passed the turn on: each
/// entry is replaced by the hand that plays after it and dropped where
/// nobody does. The error of the first entry whose next hand cannot be had.
pub open spec fn advanced(
    active_hands: Seq<Id>,
    turn_order: Seq<Sequence>,
    hands: Seq<Hand>,
    hand_states: Seq<HandState>,
) -> Result<Seq<Id>, ActionResolutionError>
    decreases active_hands.len(),
{
    if active_hands.len() == 0 {
        Ok(Seq::empty())
    } else {
        match advanced(active_hands.drop_last(), turn_order, hands, hand_states) {
            Err(e) => Err(e),
            Ok(ids) => match next_hand(active_hands.last(), turn_order, hands, hand_states) {
                Err(e) => Err(e),
                Ok(Some(id)) => Ok(ids.push(id)),
                Ok(None) => Ok(ids),
            },
        }
    }
}

/// Whether the seat is that of a hand registered at the seat's table.
pub open spec fn seat_registered(seat: Sequence, hands: Seq<Hand>) -> bool {
    first_hand(hands, seat.hand_id) matches Some(h) && h.dealer == seat.game_id
}

/// Whether every seat is that of a hand registered at the seat's table.
pub open spec fn seats_registered(sequence: Seq<Sequence>, hands: Seq<Hand>) -> bool {
    forall|i: int| 0 <= i < sequence.len() ==> seat_registered(#[trigger] sequence[i], hands)
}

/// Whether the hand is registered and has a seat in the turn order of its table.
pub open spec fn has_seat(hand: Id, sequence: Seq<Sequence>, hands: Seq<Hand>) -> bool {
    first_hand(hands, hand) matches Some(h) && first_position(
        table_order(sequence, h.dealer),
        hand,
    ) is Some
}

/// Whether every hand of the active set has a seat.
pub open spec fn all_seated(
    active_hands: Seq<Id>,
    sequence: Seq<Sequence>,
    hands: Seq<Hand>,
) -> bool {
    forall|i: int|
        0 <= i < active_hands.len() ==> has_seat(#[trigger] active_hands[i], sequence, hands)
}

/// Whether the table is complete: whether every hand registered at it, the
/// dealer's included, has a state.
pub open spec fn table_complete(table: Id, hands: Seq<Hand>, hand_states: Seq<HandState>) -> bool {
    forall|i: int|
        0 <= i < hands.len() && (#[trigger] hands[i]).dealer == table ==> has_state(
            hand_states,
            hands[i].id,
        )
}

/// Completion is monotonic: a complete table stays complete whatever states
/// are recorded after, as long as nobody new sits down at it.
pub proof fn lemma_complete_is_monotonic(
    table: Id,
    hands: Seq<Hand>,
    hand_states: Seq<HandState>,
    more: Seq<HandState>,
)
    requires
        table_complete(table, hands, hand_states),
    ensures
        table_complete(table, hands, hand_states + more),
{
    assert forall|i: int| 0 <= i < hands.len() && (#[trigger] hands[i]).dealer == table implies has_state(
        hand_states + more,
        hands[i].id,
    ) by {
        lemma_active_iff_no_state(hand_states, more, hands[i].id);
    }
}

/// A table is complete only once none of its hands is active, and a table
/// with an active hand is not complete.
pub proof fn lemma_complete_iff_none_active(
    table: Id,
    hands: Seq<Hand>,
    hand_states: Seq<HandState>,
)
    ensures
        table_complete(table, hands, hand_states) <==> forall|i: int|
            0 <= i < hands.len() && (#[trigger] hands[i]).dealer == table ==> !is_active(
                hand_states,
                hands[i].id,
            ),
{
    assert forall|i: int| 0 <= i < hands.len() implies has_state(
        hand_states,
        (#[trigger] hands[i]).id,
    ) == !is_active(hand_states, hands[i].id) by {
        lemma_active_iff_no_state(hand_states, Seq::empty(), hands[i].id);
    }
}

/// The position found is a position of the hand.
pub proof fn lemma_first_position(order: Seq<Id>, hand: Id)
    ensures
        match first_position(order, hand) {
            Some(p) => 0 <= p < order.len() && order[p] == hand && forall|j: int|
                0 <= j < p ==> order[j] != hand,
            None => forall|j: int| 0 <= j < order.len() ==> order[j] != hand,
        },
    decreases order.len(),
{
    if order.len() > 0 {
        let prefix = order.drop_last();
        lemma_first_position(prefix, hand);
        match first_position(prefix, hand) {
            Some(p) => {
                assert(order[p] == prefix[p]);
                assert forall|j: int| 0 <= j < p implies order[j] != hand by {
                    assert(order[j] == prefix[j]);
                }
            },
            None => {
                assert forall|j: int| 0 <= j < order.len() - 1 implies order[j] != hand by {
                    assert(order[j] == prefix[j]);
                }
            },
        }
    }
}

/// A hand has a position in an order exactly when it stands in it.
pub proof fn lemma_first_position_some(order: Seq<Id>, hand: Id)
    ensures
        first_position(order, hand) is Some <==> order.contains(hand),
{
    lemma_first_position(order, hand);
    if first_position(order, hand) is None && order.contains(hand) {
        let j = choose|j: int| 0 <= j < order.len() && order[j] == hand;
        assert(order[j] != hand);
    }
}

/// The hands in the order of a table are the hands of its seats.
pub proof fn lemma_table_order_member(turn_order: Seq<Sequence>, game: Id, hand: Id)
    ensures
        table_order(turn_order, game).contains(hand) <==> exists|i: int|
            0 <= i < turn_order.len() && (#[trigger] turn_order[i]).game_id == game
                && turn_order[i].hand_id == hand,
    decreases turn_order.len(),
{
    if turn_order.len() > 0 {
        let prefix = turn_order.drop_last();
        let n = turn_order.len() - 1;
        let before = table_order(prefix, game);
        let all = table_order(turn_order, game);
        lemma_table_order_member(prefix, game, hand);
        if all.contains(hand) {
            let k = choose|k: int| 0 <= k < all.len() && all[k] == hand;
            if k < before.len() {
                assert(before[k] == hand);
                assert(before.contains(hand));
                let i = choose|i: int|
                    0 <= i < prefix.len() && (#[trigger] prefix[i]).game_id == game
                        && prefix[i].hand_id == hand;
                assert(turn_order[i] == prefix[i]);
            } else {
                assert(turn_order[n].game_id == game && turn_order[n].hand_id == hand);
            }
        }
        if exists|i: int|
            0 <= i < turn_order.len() && (#[trigger] turn_order[i]).game_id == game
                && turn_order[i].hand_id == hand {
            let i = choose|i: int|
                0 <= i < turn_order.len() && (#[trigger] turn_order[i]).game_id == game
                    && turn_order[i].hand_id == hand;
            if i < n {
                assert(prefix[i] == turn_order[i]);
                assert(before.contains(hand));
                let k = choose|k: int| 0 <= k < before.len() && before[k] == hand;
                assert(all[k] == hand);
            } else {
                assert(all[all.len() - 1] == hand);
            }
        }
    }
}

/// A scan stops at one of its candidates.
proof fn lemma_first_stop_member(candidates: Seq<Id>, current: Id, hand_states: Seq<HandState>)
    ensures
        first_stop(candidates, current, hand_states) matches Some(id) ==> candidates.contains(id),
    decreases candidates.len(),
{
    if candidates.len() > 0 {
        let prefix = candidates.drop_last();
        lemma_first_stop_member(prefix, current, hand_states);
        match first_stop(prefix, current, hand_states) {
            Some(id) => {
                let k = choose|k: int| 0 <= k < prefix.len() && prefix[k] == id;
                assert(candidates[k] == id);
            },
            None => {
                assert(candidates[candidates.len() - 1] == candidates.last());
            },
        }
    }
}

/// A hand that has a seat at a table whose seats are all of registered
/// hands always has a next hand determined, and the hand that plays next
/// has a seat too.
pub proof fn lemma_next_hand_seated(
    current: Id,
    turn_order: Seq<Sequence>,
    hands: Seq<Hand>,
    hand_states: Seq<HandState>,
)
    requires
        seats_registered(turn_order, hands),
        has_seat(current, turn_order, hands),
    ensures
        next_hand(current, turn_order, hands, hand_states) is Ok,
        next_hand(current, turn_order, hands, hand_states) matches Ok(Some(id)) ==> has_seat(
            id,
            turn_order,
            hands,
        ) && is_active(hand_states, id),
{
    let h = first_hand(hands, current)->Some_0;
    let order = table_order(turn_order, h.dealer);
    let p = first_position(order, current)->Some_0;
    lemma_first_position(order, current);
    let candidates = following(order, p);
    lemma_first_stop_member(candidates, current, hand_states);
    match first_stop(candidates, current, hand_states) {
        Some(id) => {
            let k = choose|k: int| 0 <= k < candidates.len() && candidates[k] == id;
            if k < order.len() - p - 1 {
                assert(order[p + 1 + k] == id);
            } else {
                assert(order[k - (order.len() - p - 1)] == id);
            }
            assert(order.contains(id));
            lemma_table_order_member(turn_order, h.dealer, id);
            let i = choose|i: int|
                0 <= i < turn_order.len() && (#[trigger] turn_order[i]).game_id == h.dealer
                    && turn_order[i].hand_id == id;
            assert(seat_registered(turn_order[i], hands));
            lemma_first_position_some(order, id);
        },
        None => {},
    }
}

/// Where every seat is of a registered hand and every hand of the active
/// set has a seat, passing the turn on cannot fail, and every hand that
/// receives the turn has a seat.
pub proof fn lemma_advanced_seated(
    active_hands: Seq<Id>,
    turn_order: Seq<Sequence>,
    hands: Seq<Hand>,
    hand_states: Seq<HandState>,
)
    requires
        seats_registered(turn_order, hands),
        all_seated(active_hands, turn_order, hands),
    ensures
        advanced(active_hands, turn_order, hands, hand_states) is Ok,
        all_seated(
            advanced(active_hands, turn_order, hands, hand_states)->Ok_0,
            turn_order,
            hands,
        ),
    decreases active_hands.len(),
{
    if active_hands.len() > 0 {
        let prefix = active_hands.drop_last();
        assert forall|i: int| 0 <= i < prefix.len() implies has_seat(
            #[trigger] prefix[i],
            turn_order,
            hands,
        ) by {
            assert(prefix[i] == active_hands[i]);
        }
        lemma_advanced_seated(prefix, turn_order, hands, hand_states);
        assert(active_hands[active_hands.len() - 1] == active_hands.last());
        lemma_next_hand_seated(active_hands.last(), turn_order, hands, hand_states);
        let before = advanced(prefix, turn_order, hands, hand_states)->Ok_0;
        let all = advanced(active_hands, turn_order, hands, hand_states)->Ok_0;
        assert forall|i: int| 0 <= i < all.len() implies has_seat(
            #[trigger] all[i],
            turn_order,
            hands,
        ) by {
            if i < before.len() {
                assert(all[i] == before[i]);
            }
        }
    }
}

/// The order of a table in two stretches of seats is its order in the
/// first followed by its order in the second.
pub proof fn lemma_table_order_concat(a: Seq<Sequence>, b: Seq<Sequence>, game: Id)
    ensures
        table_order(a + b, game) == table_order(a, game) + table_order(b, game),
    decreases b.len(),
{
    if b.len() == 0 {
        assert(a + b == a);
        assert(table_order(a, game) + table_order(b, game) == table_order(a, game));
    } else {
        assert((a + b).drop_last() == a + b.drop_last());
        lemma_table_order_concat(a, b.drop_last(), game);
        let x = table_order(a, game);
        let y = table_order(b.drop_last(), game);
        if b.last().game_id == game {
            assert((x + y).push(b.last().hand_id) == x + y.push(b.last().hand_id));
        }
    }
}

/// A position found among the first `n` hands is the position found among all.
proof fn lemma_first_position_prefix(order: Seq<Id>, hand: Id, n: int)
    requires
        0 <= n <= order.len(),
        first_position(order.take(n), hand) is Some,
    ensures
        first_position(order, hand) == first_position(order.take(n), hand),
    decreases order.len() - n,
{
    if n < order.len() {
        assert(order.take(n + 1).drop_last() == order.take(n));
        lemma_first_position_prefix(order, hand, n + 1);
    } else {
        assert(order.take(n) == order);
    }
}

/// A scan over two stretches stops in the first if it stops there at all,
/// and else where it stops in the second.
proof fn lemma_first_stop_concat(a: Seq<Id>, b: Seq<Id>, current: Id, hand_states: Seq<HandState>)
    ensures
        first_stop(a + b, current, hand_states) == match first_stop(a, current, hand_states) {
            Some(id) => Some(id),
            None => first_stop(b, current, hand_states),
        },
    decreases b.len(),
{
    if b.len() == 0 {
        assert(a + b == a);
    } else {
        assert((a + b).drop_last() == a + b.drop_last());
        lemma_first_stop_concat(a, b.drop_last(), current, hand_states);
    }
}

/// A stop found among the first `n` candidates is the stop found among all.
proof fn lemma_first_stop_prefix(
    candidates: Seq<Id>,
    current: Id,
    hand_states: Seq<HandState>,
    n: int,
)
    requires
        0 <= n <= candidates.len(),
        first_stop(candidates.take(n), current, hand_states) is Some,
    ensures
        first_stop(candidates, current, hand_states) == first_stop(
            candidates.take(n),
            current,
            hand_states,
        ),
    decreases candidates.len() - n,
{
    if n < candidates.len() {
        assert(candidates.take(n + 1).drop_last() == candidates.take(n));
        lemma_first_stop_prefix(candidates, current, hand_states, n + 1);
    } else {
        assert(candidates.take(n) == candidates);
    }
}

/// Whether every hand registered at `dealer` has a state. This is the sole
/// termination predicate of a table.
pub fn is_game_complete(dealer: Id, hands: &[Hand], hand_states: &[HandState]) -> (complete: bool)
    ensures
        complete == table_complete(dealer, hands@, hand_states@),
{
    let mut i: usize = 0;
    while i < hands.len()
        invariant
            i <= hands.len(),
            forall|j: int|
                0 <= j < i && (#[trigger] hands@[j]).dealer == dealer ==> has_state(
                    hand_states@,
                    hands@[j].id,
                ),
        decreases hands.len() - i,
    {
        if hands[i].dealer == dealer && is_hand_active(hands[i].id, hand_states) {
            return false;
        }
        i = i + 1;
    }
    true
}

/// Whether `a` may play before `b`.
fn may_play_before(a: &Sequence, b: &Sequence) -> (before: bool)
    ensures
        before == plays_before(*a, *b),
{
    if b.game_id == b.hand_id {
        true
    } else if a.game_id == a.hand_id {
        false
    } else {
        a.hand_id <= b.hand_id
    }
}

/// A later seat found among the first `n` seats is the one found among all.
proof fn lemma_first_later_seat_prefix(seats: Seq<Sequence>, seat: Sequence, n: int)
    requires
        0 <= n <= seats.len(),
        first_later_seat(seats.take(n), seat) is Some,
    ensures
        first_later_seat(seats, seat) == first_later_seat(seats.take(n), seat),
    decreases seats.len() - n,
{
    if n < seats.len() {
        assert(seats.take(n + 1).drop_last() == seats.take(n));
        lemma_first_later_seat_prefix(seats, seat, n + 1);
    } else {
        assert(seats.take(n) == seats);
    }
}

/// The later seat found is the first seat that must play after `seat`.
proof fn lemma_first_later_seat(seats: Seq<Sequence>, seat: Sequence)
    ensures
        match first_later_seat(seats, seat) {
            Some(p) => 0 <= p < seats.len() && !plays_before(seats[p], seat) && forall|j: int|
                0 <= j < p ==> plays_before(#[trigger] seats[j], seat),
            None => forall|j: int| 0 <= j < seats.len() ==> plays_before(#[trigger] seats[j], seat),
        },
    decreases seats.len(),
{
    if seats.len() > 0 {
        let prefix = seats.drop_last();
        lemma_first_later_seat(prefix, seat);
        match first_later_seat(prefix, seat) {
            Some(p) => {
                assert(seats[p] == prefix[p]);
                assert forall|j: int| 0 <= j < p implies plays_before(#[trigger] seats[j], seat) by {
                    assert(seats[j] == prefix[j]);
                }
            },
            None => {
                assert forall|j: int| 0 <= j < seats.len() - 1 implies plays_before(
                    #[trigger] seats[j],
                    seat,
                ) by {
                    assert(seats[j] == prefix[j]);
                }
            },
        }
    }
}

/// Putting a seat in its place keeps the turn order and adds just that seat.
pub proof fn lemma_seated(seats: Seq<Sequence>, seat: Sequence)
    requires
        in_turn_order(seats),
    ensures
        in_turn_order(seated(seats, seat)),
        seated(seats, seat).to_multiset() == seats.to_multiset().insert(seat),
{
    lemma_first_later_seat(seats, seat);
    let p = match first_later_seat(seats, seat) {
        Some(p) => p,
        None => seats.len() as int,
    };
    let after = seats.insert(p, seat);
    assert(seats.insert(seats.len() as int, seat) == seats.push(seat));
    assert(after == seated(seats, seat));
    to_multiset_insert(seats, p, seat);
    assert forall|i: int, j: int| 0 <= i < j < after.len() implies plays_before(
        #[trigger] after[i],
        #[trigger] after[j],
    ) by {
        if j < p {
            assert(after[i] == seats[i] && after[j] == seats[j]);
        } else if j == p {
            assert(after[i] == seats[i]);
        } else if i < p {
            assert(after[i] == seats[i] && after[j] == seats[j - 1]);
        } else if i == p {
            assert(after[j] == seats[j - 1]);
            assert(!plays_before(seats[p], seat));
            if j - 1 > p {
                assert(plays_before(seats[p], seats[j - 1]));
            }
        } else {
            assert(after[i] == seats[i - 1] && after[j] == seats[j - 1]);
        }
    }
}

/// The turn order of a table stands in turn order and holds one seat for
/// every hand at the table: it is the table's seats, rearranged.
pub proof fn lemma_turn_order_of(hands: Seq<Hand>, game: Id)
    ensures
        in_turn_order(turn_order_of(hands, game)),
        turn_order_of(hands, game).to_multiset() == seats_of(hands, game).to_multiset(),
        turn_order_of(hands, game).len() == seats_of(hands, game).len(),
        forall|s: Sequence|
            turn_order_of(hands, game).contains(s) <==> seats_of(hands, game).contains(s),
    decreases hands.len(),
{
    let order = turn_order_of(hands, game);
    let seats = seats_of(hands, game);
    if hands.len() > 0 {
        lemma_turn_order_of(hands.drop_last(), game);
        if hands.last().dealer == game {
            let seat = Sequence { game_id: game, hand_id: hands.last().id };
            lemma_seated(turn_order_of(hands.drop_last(), game), seat);
            to_multiset_build(seats_of(hands.drop_last(), game), seat);
        }
    }
    order.to_multiset_ensures();
    seats.to_multiset_ensures();
    assert forall|s: Sequence| order.contains(s) <==> seats.contains(s) by {
        assert(order.to_multiset().count(s) == seats.to_multiset().count(s));
    }
}

/// Puts `seat` into seats that stand in turn order, so that they still do.
fn seat_in_order(seats: &mut Vec<Sequence>, seat: Sequence)
    requires
        in_turn_order(old(seats)@),
    ensures
        final(seats)@ == seated(old(seats)@, seat),
        in_turn_order(final(seats)@),
{
    let mut p: usize = 0;
    while p < seats.len() && may_play_before(&seats[p], &seat)
        invariant
            p <= seats.len(),
            seats@ == old(seats)@,
            first_later_seat(seats@.take(p as int), seat) is None,
        decreases seats.len() - p,
    {
        proof {
            assert(seats@.take(p as int + 1).drop_last() == seats@.take(p as int));
        }
        p = p + 1;
    }
    proof {
        if p < seats.len() {
            assert(seats@.take(p as int + 1).drop_last() == seats@.take(p as int));
            lemma_first_later_seat_prefix(seats@, seat, p as int + 1);
        } else {
            assert(seats@.take(p as int) == seats@);
            assert(seats@.insert(p as int, seat) == seats@.push(seat));
        }
        lemma_seated(seats@, seat);
    }
    seats.insert(p, seat);
}

/// Establishes the turn order of `game_id`: one seat for every hand at the
/// table, the dealer's last, the others in the order of their identifiers.
pub fn turn_sequence(hands: &[Hand], game_id: Id) -> (seats: Vec<Sequence>)
    ensures
        seats@ == turn_order_of(hands@, game_id),
        in_turn_order(seats@),
        seats@.to_multiset() == seats_of(hands@, game_id).to_multiset(),
        forall|i: int| 0 <= i < seats@.len() ==> (#[trigger] seats@[i]).game_id == game_id,
{
    let mut seats: Vec<Sequence> = Vec::new();
    let mut i: usize = 0;
    while i < hands.len()
        invariant
            i <= hands.len(),
            in_turn_order(seats@),
            seats@ == turn_order_of(hands@.take(i as int), game_id),
        decreases hands.len() - i,
    {
        proof {
            assert(hands@.take(i as int + 1).drop_last() == hands@.take(i as int));
        }
        if hands[i].dealer == game_id {
            seat_in_order(&mut seats, Sequence { game_id, hand_id: hands[i].id });
        }
        i = i + 1;
    }
    proof {
        assert(hands@.take(i as int) == hands@);
        lemma_turn_order_of(hands@, game_id);
        lemma_seats_of_game(hands@, game_id);
        assert forall|k: int| 0 <= k < seats@.len() implies (#[trigger] seats@[k]).game_id
            == game_id by {
            assert(seats@.contains(seats@[k]));
        }
    }
    seats
}

/// The seats of a table are the seats of the hands registered at it.
pub proof fn lemma_seats_of_game(hands: Seq<Hand>, game: Id)
    ensures
        forall|s: Sequence|
            seats_of(hands, game).contains(s) <==> s.game_id == game && exists|i: int|
                0 <= i < hands.len() && (#[trigger] hands[i]).dealer == game && hands[i].id
                    == s.hand_id,
        seats_of(hands, game).len() <= hands.len(),
    decreases hands.len(),
{
    if hands.len() > 0 {
        let prefix = hands.drop_last();
        let n = hands.len() - 1;
        lemma_seats_of_game(prefix, game);
        let before = seats_of(prefix, game);
        let all = seats_of(hands, game);
        assert forall|s: Sequence| all.contains(s) <==> s.game_id == game && exists|i: int|
            0 <= i < hands.len() && (#[trigger] hands[i]).dealer == game && hands[i].id
                == s.hand_id by {
            if all.contains(s) {
                let k = choose|k: int| 0 <= k < all.len() && all[k] == s;
                if k < before.len() {
                    assert(before[k] == s);
                    assert(before.contains(s));
                    let i = choose|i: int|
                        0 <= i < prefix.len() && (#[trigger] prefix[i]).dealer == game
                            && prefix[i].id == s.hand_id;
                    assert(hands[i] == prefix[i]);
                } else {
                    assert(hands[n].dealer == game && hands[n].id == s.hand_id);
                }
            }
            if s.game_id == game && exists|i: int|
                0 <= i < hands.len() && (#[trigger] hands[i]).dealer == game && hands[i].id
                    == s.hand_id {
                let i = choose|i: int|
                    0 <= i < hands.len() && (#[trigger] hands[i]).dealer == game && hands[i].id
                        == s.hand_id;
                if i < n {
                    assert(prefix[i] == hands[i]);
                    assert(before.contains(s));
                    let k = choose|k: int| 0 <= k < before.len() && before[k] == s;
                    assert(all[k] == s);
                } else {
                    assert(all[all.len() - 1] == s);
                }
            }
        }
    }
}

/// Collects the hands of `game` in the order in which `turn_order` lists them.
fn order_at_table(turn_order: &[Sequence], game: Id) -> (order: Vec<Id>)
    ensures
        order@ == table_order(turn_order@, game),
{
    let mut order: Vec<Id> = Vec::new();
    let mut i: usize = 0;
    while i < turn_order.len()
        invariant
            i <= turn_order.len(),
            order@ == table_order(turn_order@.take(i as int), game),
        decreases turn_order.len() - i,
    {
        proof {
            assert(turn_order@.take(i as int + 1).drop_last() == turn_order@.take(i as int));
        }
        if turn_order[i].game_id == game {
            order.push(turn_order[i].hand_id);
        }
        i = i + 1;
    }
    proof {
        assert(turn_order@.take(i as int) == turn_order@);
    }
    order
}

/// Finds the first position at which `hand` stands in `order`.
fn position_in(order: &[Id], hand: Id) -> (position: Option<usize>)
    ensures
        match position {
            Some(p) => first_position(order@, hand) == Some(p as int),
            None => first_position(order@, hand) is None,
        },
{
    let mut i: usize = 0;
    while i < order.len()
        invariant
            i <= order.len(),
            first_position(order@.take(i as int), hand) is None,
        decreases order.len() - i,
    {
        proof {
            assert(order@.take(i as int + 1).drop_last() == order@.take(i as int));
        }
        if order[i] == hand {
            proof {
                lemma_first_position_prefix(order@, hand, i as int + 1);
            }
            return Some(i);
        }
        i = i + 1;
    }
    proof {
        assert(order@.take(i as int) == order@);
    }
    None
}

/// Scans the stretch `from..to` of `order` for the first hand that is
/// active or is `current`.
fn scan_stretch(
    order: &[Id],
    from: usize,
    to: usize,
    current: Id,
    hand_states: &[HandState],
) -> (stop: Option<Id>)
    requires
        from <= to <= order@.len(),
    ensures
        stop == first_stop(order@.subrange(from as int, to as int), current, hand_states@),
{
    let ghost stretch = order@.subrange(from as int, to as int);
    let mut i: usize = from;
    while i < to
        invariant
            from <= i <= to <= order@.len(),
            stretch == order@.subrange(from as int, to as int),
            first_stop(stretch.take(i - from), current, hand_states@) is None,
        decreases to - i,
    {
        proof {
            assert(stretch.take(i - from + 1).drop_last() == stretch.take(i - from));
            assert(stretch.take(i - from + 1).last() == order@[i as int]);
        }
        if is_hand_active(order[i], hand_states) || order[i] == current {
            proof {
                lemma_first_stop_prefix(stretch, current, hand_states@, i - from + 1);
            }
            return Some(order[i]);
        }
        i = i + 1;
    }
    proof {
        assert(stretch.take(i - from) == stretch);
    }
    None
}

/// Determines the hand that plays after `current_hand_id`: the turn order of
/// its table is scanned as a cycle, from just after the current hand, for
/// the first hand that is still active; if the scan comes round to the
/// current hand and that hand has a state, nobody is left to play and the
/// result is `None`.
///
/// Fails with `MissingHand` where the current hand is not registered or has
/// no seat in the turn order of its table.
pub fn determine_next_hand(
    current_hand_id: Id,
    turn_order: &[Sequence],
    hands: &[Hand],
    hand_states: &[HandState],
) -> (next: Result<Option<Id>, ActionResolutionError>)
    ensures
        next == next_hand(current_hand_id, turn_order@, hands@, hand_states@),
{
    let game_id = match find_hand(current_hand_id, hands) {
        None => {
            return Err(ActionResolutionError::MissingHand);
        },
        Some(h) => h.dealer,
    };
    let order = order_at_table(turn_order, game_id);
    let p = match position_in(order.as_slice(), current_hand_id) {
        None => {
            return Err(ActionResolutionError::MissingHand);
        },
        Some(p) => p,
    };
    proof {
        lemma_first_position(order@, current_hand_id);
        lemma_first_stop_concat(
            order@.subrange(p + 1, order@.len() as int),
            order@.subrange(0, p + 1),
            current_hand_id,
            hand_states@,
        );
    }
    let stop = match scan_stretch(
        order.as_slice(),
        p + 1,
        order.len(),
        current_hand_id,
        hand_states,
    ) {
        Some(id) => Some(id),
        None => scan_stretch(order.as_slice(), 0, p + 1, current_hand_id, hand_states),
    };
    match stop {
        Some(id) => {
            if is_hand_active(id, hand_states) {
                Ok(Some(id))
            } else {
                Ok(None)
            }
        },
        None => Ok(None),
    }
}

/// An error among the first `n` entries is the error of all of them.
proof fn lemma_advanced_failed(
    active_hands: Seq<Id>,
    turn_order: Seq<Sequence>,
    hands: Seq<Hand>,
    hand_states: Seq<HandState>,
    n: int,
)
    requires
        0 <= n <= active_hands.len(),
        advanced(active_hands.take(n), turn_order, hands, hand_states) is Err,
    ensures
        advanced(active_hands, turn_order, hands, hand_states) == advanced(
            active_hands.take(n),
            turn_order,
            hands,
            hand_states,
        ),
    decreases active_hands.len() - n,
{
    if n < active_hands.len() {
        assert(active_hands.take(n + 1).drop_last() == active_hands.take(n));
        lemma_advanced_failed(active_hands, turn_order, hands, hand_states, n + 1);
    } else {
        assert(active_hands.take(n) == active_hands);
    }
}

/// Passes the turn on at every table: each hand of the active set is
/// replaced by the hand that plays after it, and leaves the set where nobody
/// does. Fails with the error of the first entry whose next hand cannot be had.
pub fn advance_turns(
    active_hands: &[Id],
    turn_order: &[Sequence],
    hands: &[Hand],
    hand_states: &[HandState],
) -> (next: Result<Vec<Id>, ActionResolutionError>)
    ensures
        match next {
            Ok(ids) => advanced(active_hands@, turn_order@, hands@, hand_states@) == Ok::<
                Seq<Id>,
                ActionResolutionError,
            >(ids@),
            Err(e) => advanced(active_hands@, turn_order@, hands@, hand_states@) == Err::<
                Seq<Id>,
                ActionResolutionError,
            >(e),
        },
{
    let mut next: Vec<Id> = Vec::new();
    let mut i: usize = 0;
    while i < active_hands.len()
        invariant
            i <= active_hands.len(),
            advanced(active_hands@.take(i as int), turn_order@, hands@, hand_states@) == Ok::<
                Seq<Id>,
                ActionResolutionError,
            >(next@),
        decreases active_hands.len() - i,
    {
        proof {
            assert(active_hands@.take(i as int + 1).drop_last() == active_hands@.take(i as int));
        }
        match determine_next_hand(active_hands[i], turn_order, hands, hand_states) {
            Err(e) => {
                proof {
                    lemma_advanced_failed(
                        active_hands@,
                        turn_order@,
                        hands@,
                        hand_states@,
                        i as int + 1,
                    );
                }
                return Err(e);
            },
            Ok(Some(id)) => {
                next.push(id);
            },
            Ok(None) => {},
        }
        i = i + 1;
    }
    proof {
        assert(active_hands@.take(i as int) == active_hands@);
    }
    Ok(next)
}

} // verus!
