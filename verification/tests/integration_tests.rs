use blackjack::{process_actions, Action, CardAllocation, DataSource};

#[test]
fn main() {
    let mut ds = DataSource::default();
    let game_id = ds.add_game().unwrap();
    let hand_id = ds.add_player(game_id).unwrap();

    ds.add_action(hand_id, Action::Hit).unwrap();
    process_actions(&mut ds).unwrap();

    assert_eq!(
        ds.allocations(),
        &vec![CardAllocation { hand: hand_id, dealer: game_id, card_idx: 0 }]
    );
}
