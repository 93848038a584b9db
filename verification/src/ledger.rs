//! The allocation ledger: an append-only record of which card, by its
//! position in the table's deck, each hand has received.
//!
//! Cards are dealt sequentially: the next card of a table is the one at the
//! position equal to the number of cards the table has dealt so far.

use vstd::prelude::*;
use crate::registry::{find_hand, first_hand, lemma_seat_count_prefix, seat_count};
use crate::types::{Action, CardAllocation, Hand, HandAction, Id};

verus! {

/// The number of cards dealt so far at `table`.
pub open spec fn dealt_at(allocations: Seq<CardAllocation>, table: Id) -> nat
    decreases allocations.len(),
{
    if allocations.len() == 0 {
        0
    } else {
        dealt_at(allocations.drop_last(), table) + if allocations.last().dealer == table {
            1nat
        } else {
            0nat
        }
    }
}

/// Sequential dealing: every entry points at the position equal to the
/// number of entries that its table had before it.
#[verifier::opaque]
pub open spec fn ledger_sequential(allocations: Seq<CardAllocation>) -> bool {
    forall|i: int|
        0 <= i < allocations.len() ==> (#[trigger] allocations[i]).card_idx == dealt_at(
            allocations.take(i),
            allocations[i].dealer,
        )
}

/// One round of dealing at `table`: every hand seated there, in registration
/// order, receives the next card after the `base` cards already dealt.
pub open spec fn deal_round(hands: Seq<Hand>, table: Id, base: int) -> Seq<CardAllocation>
    decreases hands.len(),
{
    if hands.len() == 0 {
        Seq::empty()
    } else {
        let before = deal_round(hands.drop_last(), table, base);
        if hands.last().dealer == table {
            before.push(
                CardAllocation {
                    hand: hands.last().id,
                    dealer: table,
                    card_idx: (base + before.len()) as usize,
                },
            )
        } else {
            before
        }
    }
}

/// `count` rounds of dealing at `table`, one after the other.
pub open spec fn deal_rounds(hands: Seq<Hand>, table: Id, base: int, count: nat) -> Seq<
    CardAllocation,
>
    decreases count,
{
    if count == 0 {
        Seq::empty()
    } else {
        let before = deal_rounds(hands, table, base, (count - 1) as nat);
        before + deal_round(hands, table, base + before.len())
    }
}

/// The card that an action draws from a ledger: a Hit by a registered hand
/// draws the next card of the hand's table; anything else draws nothing.
pub open spec fn drawn_card(
    action: HandAction,
    hands: Seq<Hand>,
    ledger: Seq<CardAllocation>,
) -> Option<CardAllocation> {
    match (action.1, first_hand(hands, action.0)) {
        (Action::Hit, Some(h)) => Some(
            CardAllocation {
                hand: h.id,
                dealer: h.dealer,
                card_idx: dealt_at(ledger, h.dealer) as usize,
            },
        ),
        _ => None,
    }
}

/// The cards drawn by a batch of actions: each Hit draws from the ledger as
/// it stands with the draws of the Hits before it, so that two Hits at one
/// table never draw the same card.
pub open spec fn drawn_cards(
    actions: Seq<HandAction>,
    hands: Seq<Hand>,
    allocations: Seq<CardAllocation>,
) -> Seq<CardAllocation>
    decreases actions.len(),
{
    if actions.len() == 0 {
        Seq::empty()
    } else {
        let before = drawn_cards(actions.drop_last(), hands, allocations);
        match drawn_card(actions.last(), hands, allocations + before) {
            Some(a) => before.push(a),
            None => before,
        }
    }
}

/// The registered hands that the entries `dealt` gave a card to, one for
/// each entry and in their order, so that a hand dealt two cards stands twice.
pub open spec fn hands_dealt(dealt: Seq<CardAllocation>, hands: Seq<Hand>) -> Seq<Hand>
    decreases dealt.len(),
{
    if dealt.len() == 0 {
        Seq::empty()
    } else {
        let before = hands_dealt(dealt.drop_last(), hands);
        match first_hand(hands, dealt.last().hand) {
            Some(h) => before.push(h),
            None => before,
        }
    }
}

/// Whether the entry is that of a registered hand at the hand's own table.
pub open spec fn entry_registered(entry: CardAllocation, hands: Seq<Hand>) -> bool {
    first_hand(hands, entry.hand) matches Some(h) && h.dealer == entry.dealer
}

/// Whether every entry is that of a registered hand at the hand's own
/// table: a hand holds cards of the deck of its table only.
pub open spec fn entries_registered(allocations: Seq<CardAllocation>, hands: Seq<Hand>) -> bool {
    forall|i: int|
        0 <= i < allocations.len() ==> entry_registered(#[trigger] allocations[i], hands)
}

/// A round deals at the table, and to hands that sit at it.
pub proof fn lemma_deal_round_entries(hands: Seq<Hand>, table: Id, base: int)
    ensures
        forall|k: int|
            0 <= k < deal_round(hands, table, base).len() ==> (#[trigger] deal_round(
                hands,
                table,
                base,
            )[k]).dealer == table && exists|i: int|
                0 <= i < hands.len() && (#[trigger] hands[i]).dealer == table && hands[i].id
                    == deal_round(hands, table, base)[k].hand,
    decreases hands.len(),
{
    if hands.len() > 0 {
        let prefix = hands.drop_last();
        let before = deal_round(prefix, table, base);
        let all = deal_round(hands, table, base);
        lemma_deal_round_entries(prefix, table, base);
        assert forall|k: int| 0 <= k < all.len() implies (#[trigger] all[k]).dealer == table
            && exists|i: int|
            0 <= i < hands.len() && (#[trigger] hands[i]).dealer == table && hands[i].id
                == all[k].hand by {
            if k < before.len() {
                assert(all[k] == before[k]);
                let i = choose|i: int|
                    0 <= i < prefix.len() && (#[trigger] prefix[i]).dealer == table
                        && prefix[i].id == before[k].hand;
                assert(hands[i] == prefix[i]);
            } else {
                assert(hands[hands.len() - 1] == hands.last());
            }
        }
    }
}

/// Where no two hands share an identifier, every card dealt in rounds at a
/// table goes to a registered hand of that table.
pub proof fn lemma_deal_rounds_registered(hands: Seq<Hand>, table: Id, base: int, count: nat)
    requires
        crate::registry::distinct_hands(hands),
    ensures
        entries_registered(deal_rounds(hands, table, base, count), hands),
        forall|k: int|
            0 <= k < deal_rounds(hands, table, base, count).len() ==> (#[trigger] deal_rounds(
                hands,
                table,
                base,
                count,
            )[k]).dealer == table,
    decreases count,
{
    if count > 0 {
        let before = deal_rounds(hands, table, base, (count - 1) as nat);
        let round = deal_round(hands, table, base + before.len());
        let all = deal_rounds(hands, table, base, count);
        lemma_deal_rounds_registered(hands, table, base, (count - 1) as nat);
        lemma_deal_round_entries(hands, table, base + before.len());
        assert forall|k: int| 0 <= k < all.len() implies entry_registered(#[trigger] all[k], hands)
            && all[k].dealer == table by {
            if k < before.len() {
                assert(all[k] == before[k]);
            } else {
                let r = k - before.len();
                assert(all[k] == round[r]);
                let i = choose|i: int|
                    0 <= i < hands.len() && (#[trigger] hands[i]).dealer == table && hands[i].id
                        == round[r].hand;
                crate::registry::lemma_first_hand_distinct(hands, i);
            }
        }
    }
}

/// Every card drawn by a Hit goes to a registered hand, from the deck of
/// the hand's own table.
pub proof fn lemma_drawn_cards_registered(
    actions: Seq<HandAction>,
    hands: Seq<Hand>,
    allocations: Seq<CardAllocation>,
)
    ensures
        entries_registered(drawn_cards(actions, hands, allocations), hands),
    decreases actions.len(),
{
    if actions.len() > 0 {
        let before = drawn_cards(actions.drop_last(), hands, allocations);
        let all = drawn_cards(actions, hands, allocations);
        lemma_drawn_cards_registered(actions.drop_last(), hands, allocations);
        crate::registry::lemma_first_hand(hands, actions.last().0);
        assert forall|k: int| 0 <= k < all.len() implies entry_registered(
            #[trigger] all[k],
            hands,
        ) by {
            if k < before.len() {
                assert(all[k] == before[k]);
            }
        }
    }
}

/// The hands that were dealt to are registered hands.
pub proof fn lemma_hands_dealt_registered(dealt: Seq<CardAllocation>, hands: Seq<Hand>)
    ensures
        forall|k: int|
            0 <= k < hands_dealt(dealt, hands).len() ==> hands.contains(
                #[trigger] hands_dealt(dealt, hands)[k],
            ),
    decreases dealt.len(),
{
    if dealt.len() > 0 {
        let before = hands_dealt(dealt.drop_last(), hands);
        let all = hands_dealt(dealt, hands);
        lemma_hands_dealt_registered(dealt.drop_last(), hands);
        crate::registry::lemma_first_hand(hands, dealt.last().hand);
        assert forall|k: int| 0 <= k < all.len() implies hands.contains(#[trigger] all[k]) by {
            if k < before.len() {
                assert(all[k] == before[k]);
            }
        }
    }
}

/// Where the entries are all at one table and of hands of that table, the
/// hands that were dealt to sit at that table.
pub proof fn lemma_hands_dealt_at(dealt: Seq<CardAllocation>, hands: Seq<Hand>, table: Id)
    requires
        entries_registered(dealt, hands),
        forall|j: int| 0 <= j < dealt.len() ==> (#[trigger] dealt[j]).dealer == table,
    ensures
        forall|k: int|
            0 <= k < hands_dealt(dealt, hands).len() ==> (#[trigger] hands_dealt(
                dealt,
                hands,
            )[k]).dealer == table,
    decreases dealt.len(),
{
    if dealt.len() > 0 {
        let prefix = dealt.drop_last();
        let before = hands_dealt(prefix, hands);
        let all = hands_dealt(dealt, hands);
        assert forall|j: int| 0 <= j < prefix.len() implies entry_registered(
            #[trigger] prefix[j],
            hands,
        ) && prefix[j].dealer == table by {
            assert(prefix[j] == dealt[j]);
        }
        lemma_hands_dealt_at(prefix, hands, table);
        assert(dealt[dealt.len() - 1] == dealt.last());
        assert forall|k: int| 0 <= k < all.len() implies (#[trigger] all[k]).dealer == table by {
            if k < before.len() {
                assert(all[k] == before[k]);
            }
        }
    }
}

/// The cards dealt at a table in two stretches of the ledger add up.
pub proof fn lemma_dealt_at_concat(a: Seq<CardAllocation>, b: Seq<CardAllocation>, table: Id)
    ensures
        dealt_at(a + b, table) == dealt_at(a, table) + dealt_at(b, table),
        dealt_at(a, table) <= a.len(),
    decreases b.len(),
{
    if b.len() == 0 {
        assert(a + b == a);
        lemma_dealt_at_len(a, table);
    } else {
        assert((a + b).drop_last() == a + b.drop_last());
        lemma_dealt_at_concat(a, b.drop_last(), table);
    }
}

/// A table has dealt no more cards than the ledger holds.
pub proof fn lemma_dealt_at_len(a: Seq<CardAllocation>, table: Id)
    ensures
        dealt_at(a, table) <= a.len(),
    decreases a.len(),
{
    if a.len() > 0 {
        lemma_dealt_at_len(a.drop_last(), table);
    }
}

/// A round deals one card to each seated hand, all of them at the table.
pub proof fn lemma_deal_round(hands: Seq<Hand>, table: Id, base: int)
    ensures
        deal_round(hands, table, base).len() == seat_count(hands, table),
        dealt_at(deal_round(hands, table, base), table) == seat_count(hands, table),
        forall|other: Id| other != table ==> dealt_at(deal_round(hands, table, base), other) == 0,
    decreases hands.len(),
{
    if hands.len() > 0 {
        lemma_deal_round(hands.drop_last(), table, base);
        let before = deal_round(hands.drop_last(), table, base);
        if hands.last().dealer == table {
            assert(deal_round(hands, table, base).drop_last() == before);
        }
        assert forall|other: Id| other != table implies dealt_at(
            deal_round(hands, table, base),
            other,
        ) == 0 by {
            assert(dealt_at(before, other) == 0);
        }
    }
}

/// `count` rounds deal `count` cards to each seated hand.
pub proof fn lemma_deal_rounds_len(hands: Seq<Hand>, table: Id, base: int, count: nat)
    ensures
        deal_rounds(hands, table, base, count).len() == count * seat_count(hands, table),
    decreases count,
{
    if count > 0 {
        let before = deal_rounds(hands, table, base, (count - 1) as nat);
        lemma_deal_rounds_len(hands, table, base, (count - 1) as nat);
        lemma_deal_round(hands, table, base + before.len());
        let seats = seat_count(hands, table) as int;
        assert(count * seats == (count - 1) * seats + seats) by (nonlinear_arith);
    } else {
        let seats = seat_count(hands, table) as int;
        assert(count * seats == 0) by (nonlinear_arith)
            requires
                count == 0,
        ;
    }
}

/// A ledger without entries is sequential.
pub proof fn lemma_empty_is_sequential()
    ensures
        ledger_sequential(Seq::<CardAllocation>::empty()),
{
    reveal(ledger_sequential);
}

/// Appending one entry that points at its table's next position keeps a
/// sequential ledger sequential.
pub proof fn lemma_sequential_push(ledger: Seq<CardAllocation>, entry: CardAllocation)
    requires
        ledger_sequential(ledger),
        entry.card_idx == dealt_at(ledger, entry.dealer),
    ensures
        ledger_sequential(ledger.push(entry)),
{
    reveal(ledger_sequential);
    let next = ledger.push(entry);
    assert forall|i: int| 0 <= i < next.len() implies (#[trigger] next[i]).card_idx == dealt_at(
        next.take(i),
        next[i].dealer,
    ) by {
        if i < ledger.len() {
            assert(next.take(i) == ledger.take(i));
            assert(next[i] == ledger[i]);
        } else {
            assert(next.take(i) == ledger);
        }
    }
}

/// A round dealt from the table's next position keeps a sequential ledger sequential.
pub proof fn lemma_deal_round_sequential(ledger: Seq<CardAllocation>, hands: Seq<Hand>, table: Id)
    requires
        ledger_sequential(ledger),
        dealt_at(ledger, table) + seat_count(hands, table) <= usize::MAX,
    ensures
        ledger_sequential(ledger + deal_round(hands, table, dealt_at(ledger, table) as int)),
    decreases hands.len(),
{
    let base = dealt_at(ledger, table) as int;
    if hands.len() == 0 {
        assert(ledger + deal_round(hands, table, base) == ledger);
    } else {
        let before = deal_round(hands.drop_last(), table, base);
        lemma_deal_round_sequential(ledger, hands.drop_last(), table);
        if hands.last().dealer == table {
            lemma_deal_round(hands.drop_last(), table, base);
            lemma_dealt_at_concat(ledger, before, table);
            let entry = CardAllocation {
                hand: hands.last().id,
                dealer: table,
                card_idx: (base + before.len()) as usize,
            };
            lemma_sequential_push(ledger + before, entry);
            assert((ledger + before).push(entry) == ledger + before.push(entry));
        }
    }
}

/// Rounds dealt from the table's next position keep a sequential ledger sequential.
pub proof fn lemma_deal_rounds_sequential(
    ledger: Seq<CardAllocation>,
    hands: Seq<Hand>,
    table: Id,
    count: nat,
)
    requires
        ledger_sequential(ledger),
        dealt_at(ledger, table) + count * seat_count(hands, table) <= usize::MAX,
    ensures
        ledger_sequential(
            ledger + deal_rounds(hands, table, dealt_at(ledger, table) as int, count),
        ),
        dealt_at(
            ledger + deal_rounds(hands, table, dealt_at(ledger, table) as int, count),
            table,
        ) == dealt_at(ledger, table) + count * seat_count(hands, table),
    decreases count,
{
    let base = dealt_at(ledger, table) as int;
    let seats = seat_count(hands, table) as int;
    if count == 0 {
        assert(ledger + deal_rounds(hands, table, base, count) == ledger);
        assert(count * seats == 0) by (nonlinear_arith)
            requires
                count == 0,
        ;
    } else {
        let fewer = (count - 1) as nat;
        let before = deal_rounds(hands, table, base, fewer);
        let middle = ledger + before;
        assert(count * seats == fewer * seats + seats && 0 <= fewer * seats) by (nonlinear_arith)
            requires
                count == fewer + 1,
                seats >= 0,
        ;
        lemma_deal_rounds_sequential(ledger, hands, table, fewer);
        lemma_deal_rounds_len(hands, table, base, fewer);
        let round = deal_round(hands, table, base + before.len());
        assert(base + before.len() == dealt_at(middle, table));
        lemma_deal_round_sequential(middle, hands, table);
        lemma_deal_round(hands, table, base + before.len());
        lemma_dealt_at_concat(middle, round, table);
        assert(middle + round == ledger + deal_rounds(hands, table, base, count)) by {
            assert(deal_rounds(hands, table, base, count) == before + round);
            assert((ledger + before) + round == ledger + (before + round));
        }
    }
}

/// The draws of a batch of Hits keep a sequential ledger sequential.
pub proof fn lemma_drawn_cards_sequential(
    actions: Seq<HandAction>,
    hands: Seq<Hand>,
    allocations: Seq<CardAllocation>,
)
    requires
        ledger_sequential(allocations),
        allocations.len() + actions.len() <= usize::MAX,
    ensures
        ledger_sequential(allocations + drawn_cards(actions, hands, allocations)),
        drawn_cards(actions, hands, allocations).len() <= actions.len(),
    decreases actions.len(),
{
    if actions.len() == 0 {
        assert(allocations + drawn_cards(actions, hands, allocations) == allocations);
    } else {
        let before = drawn_cards(actions.drop_last(), hands, allocations);
        lemma_drawn_cards_sequential(actions.drop_last(), hands, allocations);
        match drawn_card(actions.last(), hands, allocations + before) {
            Some(a) => {
                lemma_dealt_at_len(allocations + before, a.dealer);
                lemma_sequential_push(allocations + before, a);
                assert((allocations + before).push(a) == allocations + before.push(a));
            },
            None => {},
        }
    }
}

/// Whether some entry of `table` points at position `k` of its deck.
pub open spec fn position_dealt(allocations: Seq<CardAllocation>, table: Id, k: int) -> bool {
    exists|i: int|
        0 <= i < allocations.len() && (#[trigger] allocations[i]).dealer == table
            && allocations[i].card_idx == k
}

/// In a sequential ledger the positions dealt at one table are exactly
/// `0..N`, each once, where `N` is the number of cards the table has dealt:
/// no position is claimed twice, none is skipped, none lies beyond.
pub proof fn lemma_sequential_is_permutation(allocations: Seq<CardAllocation>, table: Id)
    requires
        ledger_sequential(allocations),
    ensures
        positions_exact(allocations, table),
        forall|i: int|
            0 <= i < allocations.len() && (#[trigger] allocations[i]).dealer == table
                ==> allocations[i].card_idx < dealt_at(allocations, table),
        forall|i: int, j: int|
            0 <= i < j < allocations.len() && (#[trigger] allocations[i]).dealer == table && (
            #[trigger] allocations[j]).dealer == table ==> allocations[i].card_idx
                != allocations[j].card_idx,
        forall|k: int|
            0 <= k < dealt_at(allocations, table) ==> #[trigger] position_dealt(
                allocations,
                table,
                k,
            ),
{
    assert forall|i: int|
        0 <= i < allocations.len() && (#[trigger] allocations[i]).dealer
            == table implies allocations[i].card_idx < dealt_at(allocations, table) by {
        lemma_position_below_next(allocations, i, allocations.len() as int);
        assert(allocations.take(allocations.len() as int) == allocations);
    }
    assert forall|i: int, j: int|
        0 <= i < j < allocations.len() && (#[trigger] allocations[i]).dealer == table && (
        #[trigger] allocations[j]).dealer == table implies allocations[i].card_idx
        != allocations[j].card_idx by {
        reveal(ledger_sequential);
        lemma_position_below_next(allocations, i, j);
    }
    assert forall|k: int| 0 <= k < dealt_at(allocations, table) implies #[trigger] position_dealt(
        allocations,
        table,
        k,
    ) by {
        lemma_position_reached(allocations, table, k);
    }
}

/// In a sequential ledger an entry points below the number of cards that
/// its table has dealt in any longer stretch of the ledger.
proof fn lemma_position_below_next(allocations: Seq<CardAllocation>, i: int, j: int)
    requires
        ledger_sequential(allocations),
        0 <= i < j <= allocations.len(),
    ensures
        allocations[i].card_idx < dealt_at(allocations.take(j), allocations[i].dealer),
{
    reveal(ledger_sequential);
    let table = allocations[i].dealer;
    let upto = allocations.take(i + 1);
    assert(upto.drop_last() == allocations.take(i));
    assert(upto.last() == allocations[i]);
    assert(allocations.take(j) == upto + allocations.subrange(i + 1, j));
    lemma_dealt_at_concat(upto, allocations.subrange(i + 1, j), table);
}

/// In a sequential ledger every position below the number of cards that a
/// table has dealt is held by one of the table's entries.
proof fn lemma_position_reached(allocations: Seq<CardAllocation>, table: Id, k: int)
    requires
        ledger_sequential(allocations),
        0 <= k < dealt_at(allocations, table),
    ensures
        position_dealt(allocations, table, k),
    decreases allocations.len(),
{
    reveal(ledger_sequential);
    let prefix = allocations.drop_last();
    let n = prefix.len() as int;
    if k < dealt_at(prefix, table) {
        assert forall|i: int| 0 <= i < prefix.len() implies (#[trigger] prefix[i]).card_idx
            == dealt_at(prefix.take(i), prefix[i].dealer) by {
            assert(prefix.take(i) == allocations.take(i));
            assert(prefix[i] == allocations[i]);
        }
        lemma_position_reached(prefix, table, k);
        let i = choose|i: int|
            0 <= i < prefix.len() && (#[trigger] prefix[i]).dealer == table && prefix[i].card_idx
                == k;
        assert(allocations[i] == prefix[i]);
    } else {
        assert(allocations.take(n) == prefix);
        assert(allocations[n].dealer == table);
        assert(allocations[n].card_idx == k);
    }
}

/// Whether the positions held at `table` are exactly `0..N`, each once,
/// where `N` is the number of cards the table has dealt, in whatever order
/// the ledger lists them.
pub open spec fn positions_exact(allocations: Seq<CardAllocation>, table: Id) -> bool {
    &&& forall|i: int|
        0 <= i < allocations.len() && (#[trigger] allocations[i]).dealer == table
            ==> allocations[i].card_idx < dealt_at(allocations, table)
    &&& forall|i: int, j: int|
        0 <= i < j < allocations.len() && (#[trigger] allocations[i]).dealer == table && (
        #[trigger] allocations[j]).dealer == table ==> allocations[i].card_idx
            != allocations[j].card_idx
    &&& forall|k: int|
        0 <= k < dealt_at(allocations, table) ==> #[trigger] position_dealt(allocations, table, k)
}

/// An entry at its table's next position keeps the positions of every
/// table exact.
pub proof fn lemma_next_position_keeps_exact(
    ledger: Seq<CardAllocation>,
    entry: CardAllocation,
    table: Id,
)
    requires
        positions_exact(ledger, table),
        entry.card_idx == dealt_at(ledger, entry.dealer),
    ensures
        positions_exact(ledger.push(entry), table),
{
    let next = ledger.push(entry);
    let n = ledger.len() as int;
    assert(next.drop_last() == ledger);
    assert forall|i: int|
        0 <= i < next.len() && (#[trigger] next[i]).dealer == table implies next[i].card_idx
        < dealt_at(next, table) by {
        if i < n {
            assert(next[i] == ledger[i]);
        }
    }
    assert forall|i: int, j: int|
        0 <= i < j < next.len() && (#[trigger] next[i]).dealer == table && (
        #[trigger] next[j]).dealer == table implies next[i].card_idx != next[j].card_idx by {
        assert(next[i] == ledger[i]);
        if j < n {
            assert(next[j] == ledger[j]);
        }
    }
    assert forall|k: int| 0 <= k < dealt_at(next, table) implies #[trigger] position_dealt(
        next,
        table,
        k,
    ) by {
        if k < dealt_at(ledger, table) {
            assert(position_dealt(ledger, table, k));
            let i = choose|i: int|
                0 <= i < ledger.len() && (#[trigger] ledger[i]).dealer == table
                    && ledger[i].card_idx == k;
            assert(next[i] == ledger[i]);
        } else {
            assert(next[n].dealer == table && next[n].card_idx == k);
        }
    }
}

/// The number of Hits among `actions` by registered hands that sit at `table`.
pub open spec fn hits_at(actions: Seq<HandAction>, hands: Seq<Hand>, table: Id) -> nat
    decreases actions.len(),
{
    if actions.len() == 0 {
        0
    } else {
        hits_at(actions.drop_last(), hands, table) + if actions.last().1 is Hit && (first_hand(
            hands,
            actions.last().0,
        ) matches Some(h) && h.dealer == table) {
            1nat
        } else {
            0nat
        }
    }
}

/// A batch draws at a table one card for each Hit by a registered hand of
/// the table.
pub proof fn lemma_drawn_cards_count(
    actions: Seq<HandAction>,
    hands: Seq<Hand>,
    allocations: Seq<CardAllocation>,
    table: Id,
)
    ensures
        dealt_at(drawn_cards(actions, hands, allocations), table) == hits_at(
            actions,
            hands,
            table,
        ),
        dealt_at(allocations + drawn_cards(actions, hands, allocations), table) == dealt_at(
            allocations,
            table,
        ) + hits_at(actions, hands, table),
    decreases actions.len(),
{
    let drawn = drawn_cards(actions, hands, allocations);
    if actions.len() > 0 {
        let before = drawn_cards(actions.drop_last(), hands, allocations);
        lemma_drawn_cards_count(actions.drop_last(), hands, allocations, table);
        if drawn_card(actions.last(), hands, allocations + before) is Some {
            assert(drawn.drop_last() == before);
        }
    }
    lemma_dealt_at_concat(allocations, drawn, table);
}

/// The draws of a batch of Hits keep the positions of a table exact, in
/// whatever order the ledger listed them before.
pub proof fn lemma_hits_keep_positions_exact(
    actions: Seq<HandAction>,
    hands: Seq<Hand>,
    allocations: Seq<CardAllocation>,
    table: Id,
)
    requires
        positions_exact(allocations, table),
        allocations.len() + actions.len() <= usize::MAX,
    ensures
        positions_exact(allocations + drawn_cards(actions, hands, allocations), table),
        drawn_cards(actions, hands, allocations).len() <= actions.len(),
    decreases actions.len(),
{
    if actions.len() == 0 {
        assert(allocations + drawn_cards(actions, hands, allocations) == allocations);
    } else {
        let before = drawn_cards(actions.drop_last(), hands, allocations);
        lemma_hits_keep_positions_exact(actions.drop_last(), hands, allocations, table);
        match drawn_card(actions.last(), hands, allocations + before) {
            Some(a) => {
                lemma_dealt_at_len(allocations + before, a.dealer);
                lemma_next_position_keeps_exact(allocations + before, a, table);
                assert((allocations + before).push(a) == allocations + before.push(a));
            },
            None => {},
        }
    }
}

/// A round dealt from the next position of its table keeps the positions
/// of every table exact.
pub proof fn lemma_deal_round_keeps_positions_exact(
    ledger: Seq<CardAllocation>,
    hands: Seq<Hand>,
    game: Id,
    table: Id,
)
    requires
        positions_exact(ledger, table),
        dealt_at(ledger, game) + seat_count(hands, game) <= usize::MAX,
    ensures
        positions_exact(ledger + deal_round(hands, game, dealt_at(ledger, game) as int), table),
    decreases hands.len(),
{
    let base = dealt_at(ledger, game) as int;
    if hands.len() == 0 {
        assert(ledger + deal_round(hands, game, base) == ledger);
    } else {
        let before = deal_round(hands.drop_last(), game, base);
        lemma_deal_round_keeps_positions_exact(ledger, hands.drop_last(), game, table);
        if hands.last().dealer == game {
            lemma_deal_round(hands.drop_last(), game, base);
            lemma_dealt_at_concat(ledger, before, game);
            let entry = CardAllocation {
                hand: hands.last().id,
                dealer: game,
                card_idx: (base + before.len()) as usize,
            };
            lemma_next_position_keeps_exact(ledger + before, entry, table);
            assert((ledger + before).push(entry) == ledger + before.push(entry));
        }
    }
}

/// Rounds dealt from the next position of their table keep the positions
/// of every table exact, in whatever order the ledger listed them before.
pub proof fn lemma_deal_rounds_keep_positions_exact(
    ledger: Seq<CardAllocation>,
    hands: Seq<Hand>,
    game: Id,
    count: nat,
    table: Id,
)
    requires
        positions_exact(ledger, table),
        dealt_at(ledger, game) + count * seat_count(hands, game) <= usize::MAX,
    ensures
        positions_exact(
            ledger + deal_rounds(hands, game, dealt_at(ledger, game) as int, count),
            table,
        ),
        dealt_at(ledger + deal_rounds(hands, game, dealt_at(ledger, game) as int, count), game)
            == dealt_at(ledger, game) + count * seat_count(hands, game),
    decreases count,
{
    let base = dealt_at(ledger, game) as int;
    let seats = seat_count(hands, game) as int;
    if count == 0 {
        assert(ledger + deal_rounds(hands, game, base, count) == ledger);
        assert(count * seats == 0) by (nonlinear_arith)
            requires
                count == 0,
        ;
    } else {
        let fewer = (count - 1) as nat;
        let before = deal_rounds(hands, game, base, fewer);
        let middle = ledger + before;
        assert(count * seats == fewer * seats + seats && 0 <= fewer * seats) by (nonlinear_arith)
            requires
                count == fewer + 1,
                seats >= 0,
        ;
        lemma_deal_rounds_keep_positions_exact(ledger, hands, game, fewer, table);
        lemma_deal_rounds_len(hands, game, base, fewer);
        let round = deal_round(hands, game, base + before.len());
        assert(base + before.len() == dealt_at(middle, game));
        lemma_deal_round_keeps_positions_exact(middle, hands, game, table);
        lemma_deal_round(hands, game, base + before.len());
        lemma_dealt_at_concat(middle, round, game);
        assert(middle + round == ledger + deal_rounds(hands, game, base, count)) by {
            assert(deal_rounds(hands, game, base, count) == before + round);
            assert((ledger + before) + round == ledger + (before + round));
        }
    }
}

/// The cards of a round go to consecutive positions from `base`, all at the table.
proof fn lemma_deal_round_positions(hands: Seq<Hand>, table: Id, base: int)
    requires
        0 <= base,
        base + seat_count(hands, table) <= usize::MAX,
    ensures
        forall|k: int|
            0 <= k < deal_round(hands, table, base).len() ==> (#[trigger] deal_round(
                hands,
                table,
                base,
            )[k]).card_idx == base + k && deal_round(hands, table, base)[k].dealer == table,
    decreases hands.len(),
{
    if hands.len() > 0 {
        let before = deal_round(hands.drop_last(), table, base);
        let all = deal_round(hands, table, base);
        lemma_deal_round_positions(hands.drop_last(), table, base);
        lemma_deal_round(hands.drop_last(), table, base);
        assert forall|k: int| 0 <= k < all.len() implies (#[trigger] all[k]).card_idx == base + k
            && all[k].dealer == table by {
            if k < before.len() {
                assert(all[k] == before[k]);
            }
        }
    }
}

/// The cards dealt in rounds go to consecutive positions from `base`, all
/// at the table.
pub proof fn lemma_deal_rounds_positions(hands: Seq<Hand>, table: Id, base: int, count: nat)
    requires
        0 <= base,
        base + count * seat_count(hands, table) <= usize::MAX,
    ensures
        forall|k: int|
            0 <= k < deal_rounds(hands, table, base, count).len() ==> (#[trigger] deal_rounds(
                hands,
                table,
                base,
                count,
            )[k]).card_idx == base + k && deal_rounds(hands, table, base, count)[k].dealer
                == table,
    decreases count,
{
    if count > 0 {
        let seats = seat_count(hands, table) as int;
        let fewer = (count - 1) as nat;
        assert(count * seats == fewer * seats + seats && 0 <= fewer * seats) by (nonlinear_arith)
            requires
                count == fewer + 1,
                seats >= 0,
        ;
        let before = deal_rounds(hands, table, base, fewer);
        let round = deal_round(hands, table, base + before.len());
        let all = deal_rounds(hands, table, base, count);
        lemma_deal_rounds_positions(hands, table, base, fewer);
        lemma_deal_rounds_len(hands, table, base, fewer);
        lemma_deal_round_positions(hands, table, base + before.len());
        assert forall|k: int| 0 <= k < all.len() implies (#[trigger] all[k]).card_idx == base + k
            && all[k].dealer == table by {
            if k < before.len() {
                assert(all[k] == before[k]);
            } else {
                assert(all[k] == round[k - before.len()]);
            }
        }
    }
}

/// Counts the cards dealt so far at `table`.
pub fn count_dealt(allocations: &[CardAllocation], table: Id) -> (count: usize)
    ensures
        count == dealt_at(allocations@, table),
{
    let mut count: usize = 0;
    let mut i: usize = 0;
    while i < allocations.len()
        invariant
            i <= allocations.len(),
            count == dealt_at(allocations@.take(i as int), table),
            count <= i,
        decreases allocations.len() - i,
    {
        proof {
            assert(allocations@.take(i as int + 1).drop_last() == allocations@.take(i as int));
        }
        if allocations[i].dealer == table {
            count = count + 1;
        }
        i = i + 1;
    }
    proof {
        assert(allocations@.take(i as int) == allocations@);
    }
    count
}

/// Deals `count` rounds at `game_id`: in each round every hand seated at the
/// table, in registration order, receives the table's next card, so that
/// the new entries hold consecutive positions from the table's running
/// count. Returns the new ledger entries; the ledger itself is left to the
/// caller to extend.
pub fn allocate_cards(
    hands: &[Hand],
    allocations: &[CardAllocation],
    game_id: Id,
    count: u8,
) -> (dealt: Vec<CardAllocation>)
    requires
        dealt_at(allocations@, game_id) + count * seat_count(hands@, game_id) <= usize::MAX,
    ensures
        dealt@ == deal_rounds(
            hands@,
            game_id,
            dealt_at(allocations@, game_id) as int,
            count as nat,
        ),
        dealt@.len() == count * seat_count(hands@, game_id),
        forall|k: int|
            0 <= k < dealt@.len() ==> (#[trigger] dealt@[k]).card_idx == dealt_at(
                allocations@,
                game_id,
            ) + k && dealt@[k].dealer == game_id,
        ledger_sequential(allocations@) ==> ledger_sequential(allocations@ + dealt@),
        forall|t: Id|
            positions_exact(allocations@, t) ==> #[trigger] positions_exact(
                allocations@ + dealt@,
                t,
            ),
{
    let base = count_dealt(allocations, game_id);
    let ghost seats = seat_count(hands@, game_id) as int;
    let mut card_idx: usize = base;
    let mut dealt: Vec<CardAllocation> = Vec::new();
    let mut round: u8 = 0;
    while round < count
        invariant
            round <= count,
            seats == seat_count(hands@, game_id),
            base == dealt_at(allocations@, game_id),
            base + count * seats <= usize::MAX,
            dealt@ == deal_rounds(hands@, game_id, base as int, round as nat),
            card_idx == base + dealt@.len(),
            dealt@.len() == round * seats,
        decreases count - round,
    {
        let ghost before = dealt@;
        let mut i: usize = 0;
        proof {
            assert(dealt@ == before + deal_round(hands@.take(0), game_id, card_idx as int));
            assert((round + 1) * seats <= count * seats) by (nonlinear_arith)
                requires
                    round + 1 <= count,
                    seats >= 0,
            ;
            assert((round + 1) * seats == round * seats + seats) by (nonlinear_arith);
        }
        while i < hands.len()
            invariant
                i <= hands.len(),
                round < count,
                seats == seat_count(hands@, game_id),
                before.len() == round * seats,
                (round + 1) * seats <= count * seats,
                (round + 1) * seats == round * seats + seats,
                base + count * seats <= usize::MAX,
                dealt@ == before + deal_round(
                    hands@.take(i as int),
                    game_id,
                    base + before.len(),
                ),
                card_idx == base + dealt@.len(),
            decreases hands.len() - i,
        {
            proof {
                assert(hands@.take(i as int + 1).drop_last() == hands@.take(i as int));
                lemma_deal_round(hands@.take(i as int), game_id, base + before.len());
                lemma_deal_round(hands@.take(i as int + 1), game_id, base + before.len());
                lemma_seat_count_prefix(hands@, game_id, i as int + 1);
            }
            if hands[i].dealer == game_id {
                dealt.push(CardAllocation { card_idx, dealer: game_id, hand: hands[i].id });
                card_idx = card_idx + 1;
            }
            i = i + 1;
        }
        proof {
            assert(hands@.take(i as int) == hands@);
            lemma_deal_round(hands@, game_id, base + before.len());
        }
        round = round + 1;
    }
    proof {
        lemma_deal_rounds_len(hands@, game_id, base as int, count as nat);
        lemma_deal_rounds_positions(hands@, game_id, base as int, count as nat);
        if ledger_sequential(allocations@) {
            lemma_deal_rounds_sequential(allocations@, hands@, game_id, count as nat);
        }
        assert forall|t: Id| positions_exact(allocations@, t) implies #[trigger] positions_exact(
            allocations@ + dealt@,
            t,
        ) by {
            lemma_deal_rounds_keep_positions_exact(
                allocations@,
                hands@,
                game_id,
                count as nat,
                t,
            );
        }
    }
    dealt
}

/// Resolves one pending action against the ledger `allocations` extended by
/// the cards `drawn` earlier in the same batch: a Hit by a registered hand
/// draws the next card of the hand's table, a Hold draws nothing.
pub fn resolve_player_action(
    action: &HandAction,
    hands: &[Hand],
    allocations: &[CardAllocation],
    drawn: &[CardAllocation],
) -> (card: Option<CardAllocation>)
    requires
        allocations@.len() + drawn@.len() <= usize::MAX,
    ensures
        card == drawn_card(*action, hands@, allocations@ + drawn@),
{
    match action.1 {
        Action::Hold => None,
        Action::Hit => match find_hand(action.0, hands) {
            None => None,
            Some(hand) => {
                proof {
                    lemma_dealt_at_concat(allocations@, drawn@, hand.dealer);
                    lemma_dealt_at_len(allocations@, hand.dealer);
                    lemma_dealt_at_len(drawn@, hand.dealer);
                }
                let card_idx = count_dealt(allocations, hand.dealer) + count_dealt(
                    drawn,
                    hand.dealer,
                );
                Some(CardAllocation { card_idx, dealer: hand.dealer, hand: hand.id })
            },
        },
    }
}

/// Resolves the pending Hit actions: every Hit whose hand is registered
/// draws exactly one card, the next of the hand's table. The table's running
/// count includes the draws made earlier in the batch, so Hits at one table
/// receive distinct, consecutive positions. Returns the new ledger entries.
pub fn process_hit_actions(
    actions: &[HandAction],
    hands: &[Hand],
    allocations: &[CardAllocation],
) -> (drawn: Vec<CardAllocation>)
    requires
        allocations@.len() + actions@.len() <= usize::MAX,
    ensures
        drawn@ == drawn_cards(actions@, hands@, allocations@),
        ledger_sequential(allocations@) ==> ledger_sequential(allocations@ + drawn@),
        forall|t: Id|
            positions_exact(allocations@, t) ==> #[trigger] positions_exact(
                allocations@ + drawn@,
                t,
            ),
{
    let mut drawn: Vec<CardAllocation> = Vec::new();
    let mut i: usize = 0;
    while i < actions.len()
        invariant
            i <= actions.len(),
            allocations@.len() + actions@.len() <= usize::MAX,
            drawn@ == drawn_cards(actions@.take(i as int), hands@, allocations@),
            drawn@.len() <= i,
        decreases actions.len() - i,
    {
        proof {
            assert(actions@.take(i as int + 1).drop_last() == actions@.take(i as int));
        }
        match resolve_player_action(&actions[i], hands, allocations, drawn.as_slice()) {
            Some(card) => {
                drawn.push(card);
            },
            None => {},
        }
        i = i + 1;
    }
    proof {
        assert(actions@.take(i as int) == actions@);
        if ledger_sequential(allocations@) {
            lemma_drawn_cards_sequential(actions@, hands@, allocations@);
        }
        assert forall|t: Id| positions_exact(allocations@, t) implies #[trigger] positions_exact(
            allocations@ + drawn@,
            t,
        ) by {
            lemma_hits_keep_positions_exact(actions@, hands@, allocations@, t);
        }
    }
    drawn
}

/// The registered hands that received the cards `dealt`: the hands whose
/// states are to be looked at again.
pub fn touched_hands(dealt: &[CardAllocation], hands: &[Hand]) -> (touched: Vec<Hand>)
    ensures
        touched@ == hands_dealt(dealt@, hands@),
{
    let mut touched: Vec<Hand> = Vec::new();
    let mut i: usize = 0;
    while i < dealt.len()
        invariant
            i <= dealt.len(),
            touched@ == hands_dealt(dealt@.take(i as int), hands@),
        decreases dealt.len() - i,
    {
        proof {
            assert(dealt@.take(i as int + 1).drop_last() == dealt@.take(i as int));
        }
        match find_hand(dealt[i].hand, hands) {
            Some(h) => {
                touched.push(h);
            },
            None => {},
        }
        i = i + 1;
    }
    proof {
        assert(dealt@.take(i as int) == dealt@);
    }
    touched
}

} // verus!
