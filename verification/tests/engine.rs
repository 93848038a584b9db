use blackjack::cards::create_loaded_deck;
use blackjack::{
    process, process_actions, Action, ActionResolutionError, Card, CardAllocation, CardValue,
    DataSource, Deck, GameState, Hand, Id, Message, Outcome, Resource, Response, Sequence, State,
    Suit,
};

fn num(n: u8) -> Card {
    Card::new(Suit::Hearts, CardValue::Value(n))
}

fn face(value: CardValue) -> Card {
    Card::new(Suit::Spades, value)
}

fn table(ds: &mut DataSource, game: Id, deck: Deck, players: &[Id]) {
    assert_eq!(ds.register_game(game), Ok(game));
    assert_eq!(ds.set_deck(game, deck), Ok(()));
    for p in players {
        assert_eq!(ds.register_player(game, *p), Ok(*p));
    }
    assert_eq!(ds.start_game(game), Ok(()));
}

/// Lets whoever has the turn at `game` hit until above 17 and then hold,
/// one tick per decision, until nobody is left to play.
fn play_out(ds: &mut DataSource, game: Id) {
    let mut ticks = 0;
    while let Some(current) = ds.current_active_hand(game) {
        let value = ds.hand_value(current).unwrap();
        let action = if value > 17 { Action::Hold } else { Action::Hit };
        ds.add_action(current, action).unwrap();
        process_actions(ds).unwrap();
        ticks += 1;
        assert!(ticks < 200);
    }
}

#[test]
fn single_player_against_the_dealer_on_a_loaded_deck() {
    let mut ds = DataSource::new();
    let deck = create_loaded_deck();
    assert_eq!(deck.len(), 27);
    table(&mut ds, 1, deck, &[10]);
    assert_eq!(ds.hand_value(10), Ok(14));
    assert_eq!(ds.hand_value(1), Ok(16));
    assert_eq!(ds.current_active_hand(1), Some(10));
    assert_eq!(ds.game_state(1), Some(GameState::Active));

    play_out(&mut ds, 1);

    assert_eq!(ds.hand_value(10), Ok(19));
    assert_eq!(ds.hand_value(1), Ok(20));
    assert_eq!(
        ds.hand_states(),
        &vec![(10, 1, State::Holding(19)), (1, 1, State::Holding(20))]
    );
    assert_eq!(ds.hand_outcome(10), Some(Outcome::Lost(19)));
    assert_eq!(ds.hand_outcome(1), None);
    assert!(ds.is_table_complete(1));
    assert_eq!(ds.game_state(1), Some(GameState::Finished));
    assert_eq!(ds.current_active_hand(1), None);
}

#[test]
fn the_same_deck_and_actions_draw_the_same_cards() {
    let mut first = DataSource::new();
    let mut second = DataSource::new();
    table(&mut first, 1, create_loaded_deck(), &[10, 11]);
    table(&mut second, 1, create_loaded_deck(), &[10, 11]);
    play_out(&mut first, 1);
    play_out(&mut second, 1);
    assert_eq!(first.allocations(), second.allocations());
    assert_eq!(first.outcomes(), second.outcomes());
    assert!(!first.allocations().is_empty());
}

#[test]
fn two_seats_at_two_tables_both_lose_with_nineteen() {
    let mut ds = DataSource::new();
    table(&mut ds, 1, create_loaded_deck(), &[10]);
    table(&mut ds, 2, create_loaded_deck(), &[20]);
    let mut ticks = 0;
    loop {
        let mut pending = false;
        for game in [1u128, 2u128] {
            if let Some(current) = ds.current_active_hand(game) {
                let value = ds.hand_value(current).unwrap();
                let action = if value > 17 { Action::Hold } else { Action::Hit };
                ds.add_action(current, action).unwrap();
                pending = true;
            }
        }
        if !pending {
            break;
        }
        process_actions(&mut ds).unwrap();
        ticks += 1;
        assert!(ticks < 200);
    }
    assert_eq!(ds.hand_outcome(10), Some(Outcome::Lost(19)));
    assert_eq!(ds.hand_outcome(20), Some(Outcome::Lost(19)));
}

#[test]
fn two_seats_at_one_table_are_served_from_one_deck() {
    let mut ds = DataSource::new();
    table(&mut ds, 1, create_loaded_deck(), &[10, 20]);
    assert_eq!(ds.hand_value(1), Ok(15));
    assert_eq!(ds.hand_value(10), Ok(13));
    assert_eq!(ds.hand_value(20), Ok(11));
    assert_eq!(
        ds.sequence(),
        &vec![
            Sequence { game_id: 1, hand_id: 10 },
            Sequence { game_id: 1, hand_id: 20 },
            Sequence { game_id: 1, hand_id: 1 },
        ]
    );

    play_out(&mut ds, 1);

    assert_eq!(
        ds.hand_states(),
        &vec![(10, 1, State::Bust(25)), (20, 1, State::BlackJack), (1, 1, State::Bust(23))]
    );
    assert_eq!(ds.hand_outcome(10), Some(Outcome::Won(22)));
    assert_eq!(ds.hand_outcome(20), Some(Outcome::Won(22)));
    let positions: Vec<usize> = ds.allocations().iter().map(|a| a.card_idx).collect();
    assert_eq!(positions, (0..12).collect::<Vec<usize>>());
}

#[test]
fn a_dealer_blackjack_on_the_deal_beats_the_table() {
    let mut ds = DataSource::new();
    let deck = vec![
        face(CardValue::Ace),
        num(5),
        num(4),
        face(CardValue::King),
        num(6),
        face(CardValue::Queen),
        num(7),
        num(9),
        num(2),
    ];
    table(&mut ds, 1, deck, &[10, 20]);
    assert_eq!(ds.hand_states(), &vec![(1, 1, State::BlackJack)]);
    assert_eq!(ds.hand_value(10), Ok(11));
    assert_eq!(ds.hand_value(20), Ok(14));
    assert_eq!(ds.hand_outcome(10), None);

    ds.add_action(10, Action::Hit).unwrap();
    process_actions(&mut ds).unwrap();
    assert_eq!(ds.hand_value(10), Ok(18));
    assert_eq!(ds.hand_outcome(10), None);
    assert_eq!(ds.current_active_hand(1), Some(20));

    ds.add_action(20, Action::Hit).unwrap();
    process_actions(&mut ds).unwrap();
    assert_eq!(ds.hand_value(20), Ok(23));
    assert_eq!(ds.hand_outcome(20), Some(Outcome::Lost(0)));
    assert_eq!(ds.current_active_hand(1), Some(10));

    ds.add_action(10, Action::Hold).unwrap();
    process_actions(&mut ds).unwrap();
    assert_eq!(ds.hand_outcome(10), Some(Outcome::Lost(0)));
    assert_eq!(ds.hand_outcome(1), None);
    assert!(ds.is_table_complete(1));
    assert_eq!(ds.current_active_hand(1), None);
}

#[test]
fn a_dealer_gone_bust_loses_to_holding_and_blackjack_hands() {
    let mut ds = DataSource::new();
    let deck = vec![
        face(CardValue::King),
        num(10),
        face(CardValue::Ace),
        num(6),
        num(9),
        face(CardValue::King),
        face(CardValue::Queen),
    ];
    table(&mut ds, 1, deck, &[10, 20]);
    assert_eq!(ds.hand_states(), &vec![(20, 1, State::BlackJack)]);
    assert_eq!(ds.current_active_hand(1), Some(10));

    ds.add_action(10, Action::Hold).unwrap();
    process_actions(&mut ds).unwrap();
    assert_eq!(ds.outcomes(), &vec![]);
    assert_eq!(ds.current_active_hand(1), Some(1));

    ds.add_action(1, Action::Hit).unwrap();
    process_actions(&mut ds).unwrap();
    assert_eq!(
        ds.hand_states(),
        &vec![(20, 1, State::BlackJack), (10, 1, State::Holding(19)), (1, 1, State::Bust(26))]
    );
    assert_eq!(ds.hand_outcome(10), Some(Outcome::Won(22)));
    assert_eq!(ds.hand_outcome(20), Some(Outcome::Won(22)));
    assert_eq!(ds.hand_outcome(1), None);
}

#[test]
fn drawing_past_the_end_of_a_short_deck_is_an_error_not_a_crash() {
    let mut ds = DataSource::new();
    assert_eq!(ds.register_game(1), Ok(1));
    assert_eq!(ds.set_deck(1, vec![num(2), num(3), num(4)]), Ok(()));
    assert_eq!(ds.register_player(1, 10), Ok(10));
    assert_eq!(ds.start_game(1), Err(ActionResolutionError::DeckExhausted));
    assert!(ds.allocations().is_empty());
    assert_eq!(ds.game_state(1), Some(GameState::Waiting));

    assert_eq!(ds.set_deck(1, vec![num(2), num(3), num(4), num(5)]), Ok(()));
    assert_eq!(ds.start_game(1), Ok(()));
    ds.add_action(10, Action::Hit).unwrap();
    assert_eq!(process_actions(&mut ds), Err(ActionResolutionError::DeckExhausted));
    assert_eq!(ds.allocations().len(), 4);
    assert!(ds.actions().is_empty());
    assert_eq!(ds.hand_value(10), Ok(8));
}

#[test]
fn identifiers_name_one_thing_each() {
    let mut ds = DataSource::new();
    assert_eq!(ds.register_game(1), Ok(1));
    assert_eq!(ds.register_game(1), Err(ActionResolutionError::IdInUse));
    assert_eq!(ds.register_player(1, 1), Err(ActionResolutionError::IdInUse));
    assert_eq!(ds.register_player(1, 10), Ok(10));
    assert_eq!(ds.register_player(1, 10), Err(ActionResolutionError::IdInUse));
    assert_eq!(ds.register_game(10), Err(ActionResolutionError::IdInUse));
    assert_eq!(ds.register_player(2, 11), Err(ActionResolutionError::MissingDeck));
    assert_eq!(
        ds.hands(),
        &vec![Hand { id: 1, player: 1, dealer: 1 }, Hand { id: 10, player: 10, dealer: 1 }]
    );
    assert_eq!(ds.list_tables(), vec![1]);
}

#[test]
fn a_new_table_waits_with_the_standard_deck() {
    let mut ds = DataSource::new();
    assert!(ds.list_tables().is_empty());
    let game = ds.add_game().unwrap();
    assert_eq!(ds.list_tables(), vec![game]);
    assert_eq!(ds.game_state(game), Some(GameState::Waiting));
    assert_eq!(ds.deck(game).unwrap().len(), 52);
    assert_eq!(ds.deck(game + 1), None);
    assert_eq!(ds.game_state(game + 1), None);
    assert_eq!(ds.hands(), &vec![Hand { id: game, player: game, dealer: game }]);
}

#[test]
fn fresh_identifiers_are_random_uuids() {
    let mut ds = DataSource::new();
    let game = ds.add_game().unwrap();
    let hand = ds.add_player(game).unwrap();
    for id in [game, hand] {
        assert_eq!((id >> 76) & 0xf, 4);
        assert_eq!((id >> 62) & 0x3, 2);
    }
    assert_ne!(game, hand);
    assert_eq!(ds.add_player(game ^ 1), Err(ActionResolutionError::MissingDeck));
}

#[test]
fn the_deck_is_fixed_once_play_begins() {
    let mut ds = DataSource::new();
    assert_eq!(ds.set_deck(1, vec![]), Err(ActionResolutionError::MissingDeck));
    assert_eq!(ds.start_game(1), Err(ActionResolutionError::MissingDeck));
    table(&mut ds, 1, create_loaded_deck(), &[10]);
    assert_eq!(ds.set_deck(1, vec![num(1)]), Err(ActionResolutionError::GameStarted));
    assert_eq!(ds.start_game(1), Err(ActionResolutionError::GameStarted));
    assert_eq!(ds.deck(1).unwrap().len(), 27);
    assert_eq!(ds.allocations().len(), 4);
}

#[test]
fn an_action_for_an_unknown_hand_is_refused() {
    let mut ds = DataSource::new();
    table(&mut ds, 1, create_loaded_deck(), &[10]);
    assert_eq!(ds.add_action(99, Action::Hit), Err(ActionResolutionError::MissingHand));
    assert!(ds.actions().is_empty());
    assert_eq!(ds.add_action(10, Action::Hit), Ok(()));
    assert_eq!(ds.actions(), &vec![(10, Action::Hit)]);
    assert_eq!(ds.hand_value(99), Err(ActionResolutionError::MissingHand));
}

#[test]
fn a_tick_without_pending_actions_changes_nothing() {
    let mut ds = DataSource::new();
    table(&mut ds, 1, create_loaded_deck(), &[10]);
    let ledger = ds.allocations().clone();
    let active = ds.active_hands().clone();
    assert_eq!(process_actions(&mut ds), Ok(()));
    assert_eq!(ds.allocations(), &ledger);
    assert_eq!(ds.active_hands(), &active);
    assert_eq!(active, vec![10]);
}

#[test]
fn the_phases_of_a_tick_can_be_run_one_by_one() {
    let mut ds = DataSource::new();
    table(&mut ds, 1, create_loaded_deck(), &[10]);
    ds.add_action(10, Action::Hit).unwrap();
    ds.add_action(1, Action::Hit).unwrap();
    assert_eq!(ds.process_hit_actions(), Ok(()));
    assert_eq!(
        ds.allocations()[4..],
        [
            CardAllocation { hand: 10, dealer: 1, card_idx: 4 },
            CardAllocation { hand: 1, dealer: 1, card_idx: 5 },
        ]
    );
    assert_eq!(ds.process_hold_actions(), Ok(()));
    assert!(ds.hand_states().is_empty());
    ds.resolve_turn();
    assert!(ds.actions().is_empty());
    assert_eq!(ds.active_hands(), &vec![1]);
}

#[test]
fn a_complete_table_stays_complete() {
    let mut ds = DataSource::new();
    table(&mut ds, 1, create_loaded_deck(), &[10]);
    table(&mut ds, 2, create_loaded_deck(), &[20]);
    assert!(!ds.is_table_complete(1));
    play_out(&mut ds, 1);
    assert!(ds.is_table_complete(1));
    assert!(!ds.is_table_complete(2));
    ds.add_action(10, Action::Hit).unwrap();
    ds.add_action(1, Action::Hold).unwrap();
    process_actions(&mut ds).unwrap();
    assert!(ds.is_table_complete(1));
    play_out(&mut ds, 2);
    assert!(ds.is_table_complete(1));
    assert!(ds.is_table_complete(2));
    assert_eq!(ds.hand_states().len(), 4);
    assert_eq!(ds.outcomes().len(), 2);
}

#[test]
fn requests_are_answered_by_the_router() {
    let mut ds = DataSource::new();
    assert_eq!(ds.register_game(1), Ok(1));
    assert_eq!(ds.set_deck(1, create_loaded_deck()), Ok(()));
    assert_eq!(ds.register_player(1, 10), Ok(10));
    assert_eq!(process(&Message::AddPlayer(2), &mut ds), Response::Failed);
    let joined = match process(&Message::AddPlayer(1), &mut ds) {
        Response::AddResource(Resource::Player, id) => id,
        other => panic!("unexpected response: {:?}", other),
    };
    assert_eq!(ds.hands().last(), Some(&Hand { id: joined, player: joined, dealer: 1 }));
    assert_eq!(ds.start_game(1), Ok(()));
    assert_eq!(process(&Message::AddPlayer(1), &mut ds), Response::Failed);

    assert_eq!(process(&Message::GetTableList, &mut ds), Response::TableList(vec![1]));
    assert_eq!(process(&Message::GetCurrentHand(1), &mut ds), Response::Hand(10));
    assert_eq!(process(&Message::GetCurrentHand(2), &mut ds), Response::Failed);
    assert_eq!(process(&Message::GetHandValue(10), &mut ds), Response::HandValue(13));
    assert_eq!(process(&Message::GetHandValue(joined), &mut ds), Response::HandValue(11));
    assert_eq!(process(&Message::GetHandValue(99), &mut ds), Response::Failed);
    assert_eq!(process(&Message::GetHandOutcome(10), &mut ds), Response::HandOutcome(None));
    assert_eq!(
        process(&Message::AddHandAction(10, Action::Hold), &mut ds),
        Response::AddResource(Resource::HandAction, 10)
    );
    assert_eq!(process(&Message::AddHandAction(99, Action::Hold), &mut ds), Response::Failed);
}

#[test]
fn a_table_in_play_takes_no_new_hand() {
    let mut ds = DataSource::new();
    table(&mut ds, 1, create_loaded_deck(), &[10]);
    assert_eq!(ds.register_player(1, 11), Err(ActionResolutionError::GameStarted));
    assert_eq!(ds.add_player(1), Err(ActionResolutionError::GameStarted));
    play_out(&mut ds, 1);
    assert!(ds.is_table_complete(1));
    assert_eq!(ds.register_player(1, 11), Err(ActionResolutionError::GameStarted));
    assert!(ds.is_table_complete(1));
    assert_eq!(ds.hands().len(), 2);
}

#[test]
fn a_table_whose_hands_all_stand_takes_no_new_hand() {
    let mut ds = DataSource::new();
    assert_eq!(ds.register_game(1), Ok(1));
    assert_eq!(ds.register_player(1, 10), Ok(10));
    ds.add_action(1, Action::Hold).unwrap();
    ds.add_action(10, Action::Hold).unwrap();
    process_actions(&mut ds).unwrap();
    assert!(ds.is_table_complete(1));
    assert_eq!(ds.game_state(1), Some(GameState::Waiting));
    assert_eq!(ds.register_player(1, 11), Err(ActionResolutionError::GameStarted));
    assert!(ds.is_table_complete(1));
}

#[test]
fn a_new_engine_always_takes_a_table_and_a_hand() {
    let mut ds = DataSource::new();
    let game = ds.add_game();
    assert!(game.is_ok());
    let hand = ds.add_player(game.unwrap());
    assert!(hand.is_ok());
    assert_eq!(ds.hands().len(), 2);
}
