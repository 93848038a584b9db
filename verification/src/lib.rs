//! A turn-based blackjack table engine.
//!
//! The engine keeps flat, growing collections keyed by identifiers: hands,
//! one deck per table, an append-only ledger of card allocations, the states
//! of the hands that are no longer active, and their outcomes. Every function
//! carries a contract over mathematical models of these collections.
//!
//! - `types`: cards, hands, ledger entries, actions, states, outcomes.
//! - `cards`: the decks and the value of a hand.
//! - `registry`: who sits at which table.
//! - `ledger`: dealing and hitting as entries of the allocation ledger.
//! - `states`: the cards and the value of a hand, and the states of hands.
//! - `outcomes`: hands judged against their dealers.
//! - `turns`: the turn order, the next hand, the completion of a table.
//! - `ids`: fresh identifiers.
//! - `data_source`: the engine state and its tick.
//! - `backend`: the answers to requests.

pub mod types;
pub mod cards;
pub mod registry;
pub mod ledger;
pub mod states;
pub mod outcomes;
pub mod turns;
pub mod ids;
pub mod data_source;
pub mod backend;

pub use backend::{process, Message, Resource, Response};
pub use data_source::{process_actions, DataSource, GameState};
pub use types::{
    Action,
    ActionResolutionError,
    Card,
    CardAllocation,
    CardValue,
    Deck,
    Hand,
    HandAction,
    HandOutcome,
    HandState,
    Id,
    Outcome,
    Sequence,
    State,
    Suit,
};
