use blackjack::{
    process, process_actions, Action, Card, CardValue, DataSource, Deck, Id, Message, Outcome,
    Resource, Response, Suit,
};

fn create_loaded_deck() -> Deck {
    vec![
        Card::new(Suit::Hearts, CardValue::Value(9)),
        Card::new(Suit::Hearts, CardValue::Value(8)),
        Card::new(Suit::Hearts, CardValue::Value(7)),
        Card::new(Suit::Hearts, CardValue::Value(6)),
        Card::new(Suit::Hearts, CardValue::Value(5)),
        Card::new(Suit::Hearts, CardValue::Value(4)),
        Card::new(Suit::Hearts, CardValue::Value(3)),
        Card::new(Suit::Hearts, CardValue::Value(2)),
        Card::new(Suit::Hearts, CardValue::Value(1)),
        Card::new(Suit::Diamonds, CardValue::Value(9)),
        Card::new(Suit::Diamonds, CardValue::Value(8)),
        Card::new(Suit::Diamonds, CardValue::Value(7)),
        Card::new(Suit::Diamonds, CardValue::Value(6)),
        Card::new(Suit::Diamonds, CardValue::Value(5)),
        Card::new(Suit::Diamonds, CardValue::Value(4)),
        Card::new(Suit::Diamonds, CardValue::Value(3)),
        Card::new(Suit::Diamonds, CardValue::Value(2)),
        Card::new(Suit::Diamonds, CardValue::Value(1)),
        Card::new(Suit::Spades, CardValue::Value(9)),
        Card::new(Suit::Spades, CardValue::Value(8)),
        Card::new(Suit::Spades, CardValue::Value(7)),
        Card::new(Suit::Spades, CardValue::Value(6)),
        Card::new(Suit::Spades, CardValue::Value(5)),
        Card::new(Suit::Spades, CardValue::Value(4)),
        Card::new(Suit::Spades, CardValue::Value(3)),
        Card::new(Suit::Spades, CardValue::Value(2)),
        Card::new(Suit::Spades, CardValue::Value(1)),
        Card::new(Suit::Clubs, CardValue::Value(9)),
        Card::new(Suit::Clubs, CardValue::Value(8)),
        Card::new(Suit::Clubs, CardValue::Value(7)),
        Card::new(Suit::Clubs, CardValue::Value(6)),
        Card::new(Suit::Clubs, CardValue::Value(5)),
        Card::new(Suit::Clubs, CardValue::Value(4)),
        Card::new(Suit::Clubs, CardValue::Value(3)),
        Card::new(Suit::Clubs, CardValue::Value(2)),
        Card::new(Suit::Clubs, CardValue::Value(1)),
    ]
}

/// A seat driven through the message router: it hits until its value is
/// above 17, then holds, and polls for its outcome.
struct HandController {
    game_id: Id,
    hand_id: Id,
    hand_outcome: Option<Outcome>,
}

impl HandController {
    fn new(ds: &mut DataSource, game_id: Id) -> HandController {
        let hand_id = match process(&Message::AddPlayer(game_id), ds) {
            Response::AddResource(Resource::Player, uid) => uid,
            other => panic!("could not sit down: {:?}", other),
        };
        HandController { game_id, hand_id, hand_outcome: None }
    }

    /// One round of requests. Returns true once the outcome is known.
    fn process(&mut self, ds: &mut DataSource) -> bool {
        match process(&Message::GetHandOutcome(self.hand_id), ds) {
            Response::HandOutcome(Some(o)) => {
                self.hand_outcome = Some(o);
                return true;
            }
            Response::HandOutcome(None) => {}
            other => panic!("unexpected response: {:?}", other),
        }
        let current_hand_id = match process(&Message::GetCurrentHand(self.game_id), ds) {
            Response::Hand(uid) => uid,
            other => panic!("unexpected response: {:?}", other),
        };
        let value = match process(&Message::GetHandValue(current_hand_id), ds) {
            Response::HandValue(value) => value,
            other => panic!("unexpected response: {:?}", other),
        };
        let action = if value > 17 { Action::Hold } else { Action::Hit };
        match process(&Message::AddHandAction(current_hand_id, action), ds) {
            Response::AddResource(Resource::HandAction, uid) => assert_eq!(uid, current_hand_id),
            other => panic!("unexpected response: {:?}", other),
        }
        false
    }

    fn get_hand_outcome(&self) -> Option<Outcome> {
        self.hand_outcome
    }
}

fn open_table(ds: &mut DataSource) -> Id {
    let game_id = ds.add_game().unwrap();
    ds.set_deck(game_id, create_loaded_deck()).unwrap();
    game_id
}

#[test]
fn can_play_a_simple_game() {
    let mut ds = DataSource::default();
    open_table(&mut ds);
    let game_id = match process(&Message::GetTableList, &mut ds) {
        Response::TableList(tables) => *tables.first().unwrap(),
        other => panic!("unexpected response: {:?}", other),
    };
    let mut controller = HandController::new(&mut ds, game_id);
    ds.start_game(game_id).unwrap();

    let mut rounds = 0;
    loop {
        if controller.process(&mut ds) {
            break;
        }
        process_actions(&mut ds).unwrap();
        rounds += 1;
        assert!(rounds < 100);
    }

    assert_eq!(Some(Outcome::Lost(19)), controller.get_hand_outcome());
}

#[test]
fn player_can_sit_at_multiple_tables() {
    let mut ds = DataSource::default();
    let table_one = open_table(&mut ds);
    let table_two = open_table(&mut ds);
    let mut hand_one = HandController::new(&mut ds, table_one);
    let mut hand_two = HandController::new(&mut ds, table_two);
    ds.start_game(table_one).unwrap();
    ds.start_game(table_two).unwrap();

    let mut rounds = 0;
    loop {
        let one_done = hand_one.process(&mut ds);
        let two_done = hand_two.process(&mut ds);
        if one_done && two_done {
            break;
        }
        process_actions(&mut ds).unwrap();
        rounds += 1;
        assert!(rounds < 100);
    }

    assert_eq!(Some(Outcome::Lost(19)), hand_one.get_hand_outcome());
    assert_eq!(Some(Outcome::Lost(19)), hand_two.get_hand_outcome());
}
