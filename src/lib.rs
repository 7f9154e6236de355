//! Rules engine for two-player Durak: cards and deck, the action encoding,
//! the game state, legal-move generation and the state-transition function.
pub mod actions;
pub mod cards;
pub mod error;
pub mod game;
pub mod gamestate;
pub mod player;
mod rng;
pub mod rules;

pub use actions::{num_actions, Action, ActionList};
pub use cards::{Card, Deck, Hand, Suit};
pub use error::GameError;
pub use game::{det_first_attacker, Game};
pub use gamestate::{GamePlayer, GameState, ObservableGameState, Phase};
pub use player::{Player, RandomPlayer};
