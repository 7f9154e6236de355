use vstd::prelude::*;

use crate::actions::Action;
use crate::gamestate::ObservableGameState;
use crate::rng::random_below;

verus! {

/// A decision-maker: shown what its side may see of the game, the legal
/// actions and its view of every earlier state, it picks one of the actions.
pub trait Player {
    fn choose_action(
        &mut self,
        game_state: ObservableGameState,
        actions: Vec<Action>,
        history: Vec<ObservableGameState>,
    ) -> (r: Action)
        requires
            actions@.len() > 0,
        ensures
            actions@.contains(r),
    ;
}

/// Picks uniformly at random among the legal actions.
pub struct RandomPlayer {
    rng: rand::rngs::ThreadRng,
}

impl RandomPlayer {
    pub fn new() -> RandomPlayer {
        RandomPlayer { rng: rand::thread_rng() }
    }
}

impl Player for RandomPlayer {
    fn choose_action(
        &mut self,
        game_state: ObservableGameState,
        actions: Vec<Action>,
        history: Vec<ObservableGameState>,
    ) -> (r: Action) {
        let choice = if actions.len() == 1 {
            0
        } else {
            random_below(&mut self.rng, actions.len())
        };
        actions[choice]
    }
}

} // verus!
