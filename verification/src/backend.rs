//! The message router: what the engine answers to each request.
//!
//! Receiving a request and sending the answer are left to the caller; the
//! router decides the answer and applies the request to the engine.

use vstd::prelude::*;
use crate::data_source::{DataSource, Engine};
use crate::ids::is_random_uuid;
use crate::outcomes::outcome_of;
use crate::registry::{active_at, table_ids};
use crate::states::hand_value_of;
use crate::types::{Action, ActionResolutionError, Id, Outcome};

verus! {

/// The kind of thing that a request has added.
#[derive(Clone, Copy, Debug, PartialEq, Eq, Structural)]
pub enum Resource {
    Game,
    Player,
    HandAction,
}

/// The answer to a request.
#[derive(Debug, PartialEq, Eq)]
pub enum Response {
    StatusOk,
    AddResource(Resource, Id),
    TableList(Vec<Id>),
    Hand(Id),
    HandValue(u8),
    HandOutcome(Option<Outcome>),
    Failed,
}

/// A request to the engine.
#[derive(Clone, Copy, Debug, PartialEq, Eq, Structural)]
pub enum Message {
    /// Seat a new hand at the table.
    AddPlayer(Id),
    /// Submit an action for the hand.
    AddHandAction(Id, Action),
    GetTableList,
    /// Ask whose turn it is at the table.
    GetCurrentHand(Id),
    GetHandValue(Id),
    GetHandOutcome(Id),
}

/// What a request is answered with, and what it does to the engine.
///
/// A request that cannot be met is answered with `Failed` and changes
/// nothing. A query changes nothing. For `AddPlayer` the identifier of the
/// new hand is drawn at random, so the answer is fixed only up to that
/// identifier: it is `Failed` for a table that does not exist or takes no
/// new hand, and otherwise either names the hand that was seated or is
/// `Failed`; it names the hand for certain where no identifier that can be
/// drawn is in use.
pub open spec fn answers(request: Message, before: Engine, answer: Response, after: Engine) -> bool {
    match request {
        Message::AddPlayer(game) => {
            &&& !before.game_states.contains_key(game) || !before.seats_open(game) ==> answer
                is Failed
            &&& before.game_states.contains_key(game) && before.seats_open(game)
                && before.drawn_ids_free() ==> answer is AddResource
            &&& match answer {
                Response::AddResource(Resource::Player, id) => is_random_uuid(id)
                    && before.hand_added(game, id) == Ok::<Engine, ActionResolutionError>(after),
                Response::Failed => after == before,
                _ => false,
            }
        },
        Message::AddHandAction(hand, action) => match before.action_added(hand, action) {
            Ok(next) => answer == Response::AddResource(Resource::HandAction, hand) && after
                == next,
            Err(_) => answer is Failed && after == before,
        },
        Message::GetTableList => after == before && match answer {
            Response::TableList(tables) => tables@ == table_ids(before.hands),
            _ => false,
        },
        Message::GetCurrentHand(game) => after == before && answer == match active_at(
            before.active_hands,
            before.hands,
            game,
        ) {
            Some(id) => Response::Hand(id),
            None => Response::Failed,
        },
        Message::GetHandValue(hand) => after == before && answer == match hand_value_of(
            hand,
            before.hands,
            before.allocations,
            before.decks,
        ) {
            Ok(value) => Response::HandValue(value),
            Err(_) => Response::Failed,
        },
        Message::GetHandOutcome(hand) => after == before && answer == Response::HandOutcome(
            outcome_of(before.outcomes, hand),
        ),
    }
}

/// Answers one request and applies it to the engine.
pub fn process(message: &Message, ds: &mut DataSource) -> (response: Response)
    requires
        old(ds)@.wf(),
    ensures
        final(ds)@.wf(),
        answers(*message, old(ds)@, response, final(ds)@),
{
    match *message {
        Message::AddPlayer(game_id) => match ds.add_player(game_id) {
            Ok(player_id) => Response::AddResource(Resource::Player, player_id),
            Err(_) => Response::Failed,
        },
        Message::AddHandAction(hand_id, action) => match ds.add_action(hand_id, action) {
            Ok(()) => Response::AddResource(Resource::HandAction, hand_id),
            Err(_) => Response::Failed,
        },
        Message::GetTableList => Response::TableList(ds.list_tables()),
        Message::GetCurrentHand(game_id) => match ds.current_active_hand(game_id) {
            Some(hand_id) => Response::Hand(hand_id),
            None => Response::Failed,
        },
        Message::GetHandValue(hand_id) => match ds.hand_value(hand_id) {
            Ok(value) => Response::HandValue(value),
            Err(_) => Response::Failed,
        },
        Message::GetHandOutcome(hand_id) => Response::HandOutcome(ds.hand_outcome(hand_id)),
    }
}

} // verus!
