use vstd::multiset::Multiset;
use vstd::prelude::*;

use crate::cards::{copy_cards, Card, Deck, Hand};

verus! {

/// One of the two sides.
#[derive(Clone, Copy, PartialEq, Eq, Structural, Debug)]
pub enum GamePlayer {
    Player1,
    Player2,
}

pub open spec fn other_player(p: GamePlayer) -> GamePlayer {
    match p {
        GamePlayer::Player1 => GamePlayer::Player2,
        GamePlayer::Player2 => GamePlayer::Player1,
    }
}

impl GamePlayer {
    pub fn other(&self) -> (r: GamePlayer)
        ensures
            r == other_player(*self),
    {
        match self {
            GamePlayer::Player1 => GamePlayer::Player2,
            GamePlayer::Player2 => GamePlayer::Player1,
        }
    }
}

/// Which interaction the acting side is in: adding attack cards, or answering them.
#[derive(Clone, Copy, PartialEq, Eq, Structural, Debug)]
pub enum Phase {
    Attacking,
    Defending,
}

/// Mathematical model of a game state: every pile as a sequence of cards.
pub struct StateView {
    pub deck: Seq<Card>,
    pub attack: Seq<Card>,
    pub defense: Seq<Card>,
    pub hand1: Seq<Card>,
    pub hand2: Seq<Card>,
    pub acting: GamePlayer,
    pub defending: GamePlayer,
    pub trump_card: Card,
    pub taken: bool,
    pub graveyard: Seq<Card>,
}

/// The cards held by side `p`.
pub open spec fn hand_of(m: StateView, p: GamePlayer) -> Seq<Card> {
    match p {
        GamePlayer::Player1 => m.hand1,
        GamePlayer::Player2 => m.hand2,
    }
}

/// The side that attacks in the current round.
pub open spec fn attacker_of(m: StateView) -> GamePlayer {
    other_player(m.defending)
}

/// The acting side answers the attack when it holds the defending role.
pub open spec fn phase_of(m: StateView) -> Phase {
    if m.acting == m.defending {
        Phase::Defending
    } else {
        Phase::Attacking
    }
}

/// Every card of the game, wherever it lies.
pub open spec fn all_cards(m: StateView) -> Multiset<Card> {
    m.deck.to_multiset().add(m.hand1.to_multiset()).add(m.hand2.to_multiset()).add(
        m.attack.to_multiset(),
    ).add(m.defense.to_multiset()).add(m.graveyard.to_multiset())
}

/// The game state: the piles of cards, the two roles, the trump card and the
/// flag that the defender has announced a take.
#[derive(Clone, Debug, PartialEq)]
pub struct GameState {
    pub deck: Deck,
    pub attack_table: Vec<Card>,
    pub defense_table: Vec<Card>,
    pub hand1: Hand,
    pub hand2: Hand,
    pub acting_player: GamePlayer,
    pub defending_player: GamePlayer,
    pub visible_card: Card,
    pub defender_has_taken: bool,
    pub graveyard: Vec<Card>,
}

impl View for GameState {
    type V = StateView;

    open spec fn view(&self) -> StateView {
        StateView {
            deck: self.deck@,
            attack: self.attack_table@,
            defense: self.defense_table@,
            hand1: self.hand1@,
            hand2: self.hand2@,
            acting: self.acting_player,
            defending: self.defending_player,
            trump_card: self.visible_card,
            taken: self.defender_has_taken,
            graveyard: self.graveyard@,
        }
    }
}

/// What one side may see of a game: its own hand, the table, the trump card,
/// the roles and the sizes of the deck and of the opponent's hand.
#[derive(Clone, Debug, PartialEq)]
pub struct ObservableGameState {
    pub player: GamePlayer,
    pub num_cards_in_deck: u8,
    pub attack_table: Vec<Card>,
    pub defense_table: Vec<Card>,
    pub hand: Hand,
    pub visible_card: Card,
    pub defender_has_taken: bool,
    pub acting_player: GamePlayer,
    pub defender: GamePlayer,
    pub cards_in_opponent: u8,
}

impl GameState {
    pub fn new(
        deck: Deck,
        attack_table: Vec<Card>,
        defense_table: Vec<Card>,
        hand1: Hand,
        hand2: Hand,
        acting_player: GamePlayer,
        defending_player: GamePlayer,
        visible_card: Card,
        defender_has_taken: bool,
        graveyard: Vec<Card>,
    ) -> (r: GameState)
        ensures
            r@ == (StateView {
                deck: deck@,
                attack: attack_table@,
                defense: defense_table@,
                hand1: hand1@,
                hand2: hand2@,
                acting: acting_player,
                defending: defending_player,
                trump_card: visible_card,
                taken: defender_has_taken,
                graveyard: graveyard@,
            }),
    {
        GameState {
            deck,
            attack_table,
            defense_table,
            hand1,
            hand2,
            acting_player,
            defending_player,
            visible_card,
            defender_has_taken,
            graveyard,
        }
    }

    /// An independent copy of this state.
    pub fn snapshot(&self) -> (r: GameState)
        ensures
            r@ == self@,
    {
        GameState {
            deck: Deck::from_cards(copy_cards(self.deck.cards())),
            attack_table: copy_cards(&self.attack_table),
            defense_table: copy_cards(&self.defense_table),
            hand1: Hand(copy_cards(&self.hand1.0)),
            hand2: Hand(copy_cards(&self.hand2.0)),
            acting_player: self.acting_player,
            defending_player: self.defending_player,
            visible_card: self.visible_card,
            defender_has_taken: self.defender_has_taken,
            graveyard: copy_cards(&self.graveyard),
        }
    }

    /// The view of the game that side `player` is allowed to see.
    pub fn observe(&self, player: GamePlayer) -> (r: ObservableGameState)
        ensures
            r.player == player,
            r.num_cards_in_deck == self@.deck.len() as u8,
            r.attack_table@ == self@.attack,
            r.defense_table@ == self@.defense,
            r.hand@ == hand_of(self@, player),
            r.visible_card == self@.trump_card,
            r.defender_has_taken == self@.taken,
            r.acting_player == self@.acting,
            r.defender == self@.defending,
            r.cards_in_opponent == hand_of(self@, other_player(player)).len() as u8,
    {
        let hand = match player {
            GamePlayer::Player1 => Hand(copy_cards(&self.hand1.0)),
            GamePlayer::Player2 => Hand(copy_cards(&self.hand2.0)),
        };
        let cards_in_opponent = match player {
            GamePlayer::Player1 => self.hand2.0.len() as u8,
            GamePlayer::Player2 => self.hand1.0.len() as u8,
        };
        ObservableGameState {
            player,
            num_cards_in_deck: self.deck.len() as u8,
            attack_table: copy_cards(&self.attack_table),
            defense_table: copy_cards(&self.defense_table),
            hand,
            visible_card: self.visible_card,
            defender_has_taken: self.defender_has_taken,
            acting_player: self.acting_player,
            defender: self.defending_player,
            cards_in_opponent,
        }
    }

    /// Which interaction the acting side is in.
    pub fn phase(&self) -> (r: Phase)
        ensures
            r == phase_of(self@),
    {
        if self.acting_player == self.defending_player {
            Phase::Defending
        } else {
            Phase::Attacking
        }
    }

    /// Number of attack cards that no defence answers yet (0 when the defence
    /// table is somehow the longer one).
    pub fn num_undefended(&self) -> (r: u8)
        ensures
            self@.defense.len() <= self@.attack.len() ==> r == (self@.attack.len()
                - self@.defense.len()) as u8,
            self@.defense.len() > self@.attack.len() ==> r == 0,
    {
        let num_attack = self.attack_table.len();
        let num_defend = self.defense_table.len();
        if num_defend <= num_attack {
            (num_attack - num_defend) as u8
        } else {
            0
        }
    }

    pub fn defender_hand(&self) -> (r: &Hand)
        ensures
            r@ == hand_of(self@, self@.defending),
    {
        match self.defending_player {
            GamePlayer::Player1 => &self.hand1,
            GamePlayer::Player2 => &self.hand2,
        }
    }

    pub fn attacker_hand(&self) -> (r: &Hand)
        ensures
            r@ == hand_of(self@, attacker_of(self@)),
    {
        match self.defending_player.other() {
            GamePlayer::Player1 => &self.hand1,
            GamePlayer::Player2 => &self.hand2,
        }
    }
}

} // verus!
