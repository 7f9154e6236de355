use vstd::prelude::*;

verus! {

/// The ways in which a request to the engine can be refused.
#[derive(Clone, Copy, PartialEq, Eq, Structural, Debug)]
pub enum GameError {
    /// The action is not among the legal actions of the current state.
    IllegalAction,
    /// An integer outside the valid range was decoded as a card or an action.
    InvalidEncoding,
}

} // verus!
