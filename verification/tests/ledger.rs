use blackjack::ledger::{
    allocate_cards, count_dealt, process_hit_actions, resolve_player_action, touched_hands,
};
use blackjack::types::{Action, CardAllocation, Hand, HandAction};

fn hand(id: u128, dealer: u128) -> Hand {
    Hand { id, player: id, dealer }
}

fn entry(hand: u128, dealer: u128, card_idx: usize) -> CardAllocation {
    CardAllocation { hand, dealer, card_idx }
}

#[test]
fn initial_deal_goes_round_the_table_twice() {
    let hands = vec![hand(1, 1), hand(10, 1), hand(2, 2), hand(20, 1)];
    let dealt = allocate_cards(&hands, &[], 1, 2);
    assert_eq!(
        dealt,
        vec![
            entry(1, 1, 0),
            entry(10, 1, 1),
            entry(20, 1, 2),
            entry(1, 1, 3),
            entry(10, 1, 4),
            entry(20, 1, 5),
        ]
    );
}

#[test]
fn dealing_continues_after_the_cards_already_dealt() {
    let hands = vec![hand(1, 1), hand(2, 2), hand(20, 2)];
    let ledger = vec![entry(1, 1, 0), entry(2, 2, 0), entry(20, 2, 1), entry(1, 1, 1)];
    assert_eq!(count_dealt(&ledger, 1), 2);
    assert_eq!(count_dealt(&ledger, 2), 2);
    assert_eq!(count_dealt(&ledger, 3), 0);
    assert_eq!(allocate_cards(&hands, &ledger, 2, 1), vec![entry(2, 2, 2), entry(20, 2, 3)]);
    assert_eq!(allocate_cards(&hands, &ledger, 1, 1), vec![entry(1, 1, 2)]);
    assert_eq!(allocate_cards(&hands, &ledger, 1, 0), vec![]);
    assert_eq!(allocate_cards(&hands, &ledger, 3, 2), vec![]);
}

#[test]
fn hits_at_one_table_in_one_batch_do_not_collide() {
    let hands = vec![hand(1, 1), hand(10, 1), hand(11, 1), hand(2, 2), hand(20, 2)];
    let ledger = vec![entry(1, 1, 0), entry(10, 1, 1), entry(2, 2, 0)];
    let actions: Vec<HandAction> = vec![
        (10, Action::Hit),
        (20, Action::Hit),
        (11, Action::Hold),
        (11, Action::Hit),
        (99, Action::Hit),
        (10, Action::Hit),
    ];
    let drawn = process_hit_actions(&actions, &hands, &ledger);
    assert_eq!(
        drawn,
        vec![entry(10, 1, 2), entry(20, 2, 1), entry(11, 1, 3), entry(10, 1, 4)]
    );
}

#[test]
fn positions_at_a_table_are_a_permutation() {
    let hands = vec![hand(1, 1), hand(10, 1), hand(2, 2), hand(20, 2), hand(21, 2)];
    let mut ledger: Vec<CardAllocation> = Vec::new();
    ledger.extend(allocate_cards(&hands, &ledger, 1, 2));
    ledger.extend(allocate_cards(&hands, &ledger, 2, 2));
    let hits: Vec<HandAction> = vec![(10, Action::Hit), (21, Action::Hit), (1, Action::Hit)];
    ledger.extend(process_hit_actions(&hits, &hands, &ledger));
    ledger.extend(process_hit_actions(&hits, &hands, &ledger));
    for table in [1u128, 2u128] {
        let mut positions: Vec<usize> =
            ledger.iter().filter(|a| a.dealer == table).map(|a| a.card_idx).collect();
        let dealt = positions.len();
        assert_eq!(dealt, count_dealt(&ledger, table));
        positions.sort();
        assert_eq!(positions, (0..dealt).collect::<Vec<usize>>());
    }
    assert_eq!(count_dealt(&ledger, 1), 8);
    assert_eq!(count_dealt(&ledger, 2), 8);
}

#[test]
fn a_single_action_draws_at_most_one_card() {
    let hands = vec![hand(1, 1), hand(10, 1)];
    let ledger = vec![entry(1, 1, 0), entry(10, 1, 1)];
    let drawn = vec![entry(1, 1, 2)];
    assert_eq!(
        resolve_player_action(&(10, Action::Hit), &hands, &ledger, &drawn),
        Some(entry(10, 1, 3))
    );
    assert_eq!(resolve_player_action(&(10, Action::Hold), &hands, &ledger, &drawn), None);
    assert_eq!(resolve_player_action(&(77, Action::Hit), &hands, &ledger, &drawn), None);
}

#[test]
fn touched_hands_follow_the_new_entries() {
    let hands = vec![hand(1, 1), hand(10, 1)];
    let dealt = vec![entry(10, 1, 0), entry(5, 1, 1), entry(1, 1, 2), entry(10, 1, 3)];
    assert_eq!(touched_hands(&dealt, &hands), vec![hand(10, 1), hand(1, 1), hand(10, 1)]);
}

#[test]
fn hits_extend_a_ledger_whose_positions_stand_in_any_order() {
    let hands = vec![hand(1, 1), hand(10, 1), hand(2, 2), hand(20, 2)];
    let ledger = vec![entry(10, 1, 2), entry(20, 2, 1), entry(1, 1, 0), entry(2, 2, 0), entry(1, 1, 1)];
    let actions: Vec<HandAction> =
        vec![(10, Action::Hit), (20, Action::Hit), (1, Action::Hit), (9, Action::Hit)];
    let drawn = process_hit_actions(&actions, &hands, &ledger);
    assert_eq!(drawn, vec![entry(10, 1, 3), entry(20, 2, 2), entry(1, 1, 4)]);
    let dealt = allocate_cards(&hands, &ledger, 1, 1);
    assert_eq!(dealt, vec![entry(1, 1, 3), entry(10, 1, 4)]);
}
