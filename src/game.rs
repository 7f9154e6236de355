use std::collections::HashSet;
use vstd::prelude::*;

use crate::actions::Action;
use crate::cards::{find_card, full_deck, lemma_fresh_deck_is_full, Card, Deck, Hand, Suit};
use crate::error::GameError;
use crate::gamestate::{
    all_cards, attacker_of, hand_of, GamePlayer, GameState, ObservableGameState,
    StateView,
};
use crate::player::Player;
use crate::rules::{
    attack_options, attacker_pool, dealt, defense_options, drawn_cards, first_attacker, game_over,
    held_cards, is_legal, legal_action_seq, lemma_dealt_cards, lemma_dealt_well_formed,
    lemma_legal_action_closure, lemma_some_action_legal, lemma_step_conserves_cards,
    lemma_step_preserves_well_formed, lemma_step_progresses, lemma_without_card_at, live_cards,
    next_state, rank_on_table, refilled, refilled_side, rewards, table_cleared, table_taken,
    turn_rank, well_formed, winner, without_card,
};

verus! {

broadcast use vstd::seq_lib::group_to_multiset_ensures, vstd::multiset::group_multiset_axioms;

/// Removes the first occurrence of `c` from `v`.
fn remove_card(v: &mut Vec<Card>, c: Card)
    requires
        old(v)@.contains(c),
    ensures
        final(v)@ == without_card(old(v)@, c),
{
    match find_card(v, c) {
        Some(k) => {
            proof {
                lemma_without_card_at(v@, c, k as int);
            }
            v.remove(k);
        },
        None => {},
    }
}

/// Lowest rank among the cards of suit `suit` in `h`, or 15 when there is none.
fn lowest_of_suit(h: &Hand, suit: Suit) -> (r: u8)
    ensures
        r <= 15,
        r < 15 ==> exists|i: int| 0 <= i < h@.len() && h@[i].suit == suit && h@[i].rank == r,
        forall|i: int| 0 <= i < h@.len() && #[trigger] h@[i].suit == suit ==> r <= h@[i].rank,
{
    let mut low: u8 = 15;
    let mut i: usize = 0;
    while i < h.0.len()
        invariant
            i <= h@.len(),
            low <= 15,
            low < 15 ==> exists|k: int| 0 <= k < i && h@[k].suit == suit && h@[k].rank == low,
            forall|k: int| 0 <= k < i && #[trigger] h@[k].suit == suit ==> low <= h@[k].rank,
        decreases h@.len() - i,
    {
        let card = h.0[i];
        if card.suit == suit && card.rank < low {
            low = card.rank;
        }
        i = i + 1;
    }
    low
}

/// The side that opens the game: the one with the lowest trump, side 2 when
/// neither holds a trump.
pub fn det_first_attacker(hand1: &Hand, hand2: &Hand, suit: Suit) -> (r: GamePlayer)
    ensures
        r == first_attacker(hand1@, hand2@, suit),
{
    let min1 = lowest_of_suit(hand1, suit);
    let min2 = lowest_of_suit(hand2, suit);
    if min1 < min2 {
        proof {
            let i = choose|i: int|
                0 <= i < hand1@.len() && hand1@[i].suit == suit && hand1@[i].rank == min1;
            assert(forall|j: int|
                0 <= j < hand2@.len() && #[trigger] hand2@[j].suit == suit ==> hand1@[i].rank
                    < hand2@[j].rank);
        }
        GamePlayer::Player1
    } else {
        proof {
            if exists|i: int|
                0 <= i < hand1@.len() && #[trigger] hand1@[i].suit == suit && hand1@[i].rank < 15
                    && forall|j: int|
                    0 <= j < hand2@.len() && #[trigger] hand2@[j].suit == suit ==> hand1@[i].rank
                        < hand2@[j].rank {
                let i = choose|i: int|
                    0 <= i < hand1@.len() && #[trigger] hand1@[i].suit == suit && hand1@[i].rank
                        < 15 && forall|j: int|
                        0 <= j < hand2@.len() && #[trigger] hand2@[j].suit == suit
                            ==> hand1@[i].rank < hand2@[j].rank;
                assert(min1 <= hand1@[i].rank);
                if min2 < 15 {
                    let j = choose|j: int|
                        0 <= j < hand2@.len() && hand2@[j].suit == suit && hand2@[j].rank == min2;
                    assert(hand1@[i].rank < hand2@[j].rank);
                }
            }
        }
        GamePlayer::Player2
    }
}

/// One game: the current state and the states before each accepted action.
pub struct Game {
    history: Vec<GameState>,
    game_state: GameState,
}

impl View for Game {
    type V = StateView;

    closed spec fn view(&self) -> StateView {
        self.game_state@
    }
}

impl Game {
    /// The states before each accepted action, oldest first.
    pub closed spec fn past(&self) -> Seq<StateView> {
        self.history@.map_values(|s: GameState| s@)
    }

    /// The current state.
    pub fn state(&self) -> (r: &GameState)
        ensures
            r@ == self@,
    {
        &self.game_state
    }

    /// The states before each accepted action, oldest first.
    pub fn history(&self) -> (r: &Vec<GameState>)
        ensures
            r@.len() == self.past().len(),
            forall|i: int| 0 <= i < r@.len() ==> (#[trigger] r@[i])@ == self.past()[i],
    {
        &self.history
    }

    /// A game that starts from `game_state`, with no history.
    pub fn from_state(game_state: GameState) -> (g: Game)
        ensures
            g@ == game_state@,
            g.past() == Seq::<StateView>::empty(),
    {
        let g = Game { history: Vec::new(), game_state };
        assert(g.past() =~= Seq::<StateView>::empty());
        g
    }

    /// Deals a game from `deck`: six cards to each side from the end of the
    /// deck, the first card of the deck turned up as trump.
    pub fn deal(deck: Deck) -> (g: Game)
        requires
            deck@.len() >= 13,
        ensures
            g@ == dealt(deck@),
            g.past() == Seq::<StateView>::empty(),
            well_formed(g@),
            all_cards(g@) == deck@.to_multiset(),
    {
        let ghost d = deck@;
        proof {
            lemma_dealt_cards(d);
            lemma_dealt_well_formed(d);
        }
        let mut deck = deck;
        let hand1 = Hand(deck.draw_n(6));
        let hand2 = Hand(deck.draw_n(6));
        let visible_card = deck.get_first().unwrap();
        let first_attacker = det_first_attacker(&hand1, &hand2, visible_card.suit);
        let game_state = GameState {
            deck,
            attack_table: Vec::new(),
            defense_table: Vec::new(),
            hand1,
            hand2,
            acting_player: first_attacker,
            defending_player: first_attacker.other(),
            visible_card,
            defender_has_taken: false,
            graveyard: Vec::new(),
        };
        proof {
            let d6 = d.subrange(0, d.len() - 6);
            assert(game_state.hand1@ =~= drawn_cards(d, 6));
            assert(game_state.hand2@ =~= drawn_cards(d6, 6));
            assert(game_state.deck@ =~= d.subrange(0, d.len() - 12));
        }
        let g = Game { history: Vec::new(), game_state };
        assert(g.past() =~= Seq::<StateView>::empty());
        assert(g@ =~= dealt(d));
        g
    }

    /// Starts a game from a freshly shuffled 36-card deck.
    pub fn new() -> (g: Game)
        ensures
            exists|d: Seq<Card>|
                d.to_multiset() == full_deck().to_multiset() && g@ == dealt(d),
            g.past() == Seq::<StateView>::empty(),
            well_formed(g@),
            all_cards(g@) == full_deck().to_multiset(),
    {
        proof {
            lemma_fresh_deck_is_full();
        }
        let mut deck = Deck::new(6);
        deck.shuffle();
        assert(deck@.len() == 36) by {
            assert(deck@.to_multiset().len() == full_deck().to_multiset().len());
        }
        Game::deal(deck)
    }

    /// Side `p` draws from the deck until it holds 6 cards or the deck runs out.
    fn refill_side(&mut self, p: GamePlayer)
        ensures
            final(self)@ == refilled_side(old(self)@, p),
            final(self).history == old(self).history,
    {
        let len = match p {
            GamePlayer::Player1 => self.game_state.hand1.0.len(),
            GamePlayer::Player2 => self.game_state.hand2.0.len(),
        };
        if len < 6 {
            let ghost m = self@;
            let mut new_cards = self.game_state.deck.draw_n(6 - len);
            let ghost k = new_cards@.len() as int;
            assert(new_cards@ =~= drawn_cards(m.deck, k));
            match p {
                GamePlayer::Player1 => self.game_state.hand1.0.append(&mut new_cards),
                GamePlayer::Player2 => self.game_state.hand2.0.append(&mut new_cards),
            }
            assert(self@ =~= refilled_side(m, p));
        }
    }

    /// Both hands drawn up to 6 cards: the attacker first, then the defender.
    fn refill_hands(&mut self)
        ensures
            final(self)@ == refilled(old(self)@),
            final(self).history == old(self).history,
    {
        let first = self.game_state.defending_player.other();
        let second = self.game_state.defending_player;
        self.refill_side(first);
        self.refill_side(second);
    }

    /// The defender picks up the whole table.
    fn add_table_to_defender(&mut self)
        ensures
            final(self)@ == table_taken(old(self)@),
            final(self).history == old(self).history,
    {
        let ghost m = self@;
        match self.game_state.defending_player {
            GamePlayer::Player1 => {
                self.game_state.hand1.0.append(&mut self.game_state.defense_table);
                self.game_state.hand1.0.append(&mut self.game_state.attack_table);
            },
            GamePlayer::Player2 => {
                self.game_state.hand2.0.append(&mut self.game_state.defense_table);
                self.game_state.hand2.0.append(&mut self.game_state.attack_table);
            },
        }
        assert(self@ =~= table_taken(m));
    }

    /// The table goes to the graveyard.
    fn clear_table(&mut self)
        ensures
            final(self)@ == table_cleared(old(self)@),
            final(self).history == old(self).history,
    {
        let ghost m = self@;
        self.game_state.graveyard.append(&mut self.game_state.attack_table);
        self.game_state.graveyard.append(&mut self.game_state.defense_table);
        assert(self@ =~= table_cleared(m));
    }

    fn handle_take(&mut self)
        requires
            is_legal(old(self)@, Action::Take),
        ensures
            final(self)@ == next_state(old(self)@, Action::Take),
            final(self).history == old(self).history,
    {
        let ghost m = self@;
        let num_attack = self.game_state.attack_table.len();
        let num_defend = self.game_state.defense_table.len();
        let hand_len = self.game_state.defender_hand().0.len();
        if num_attack >= 6 || (num_defend <= num_attack && num_attack - num_defend >= hand_len) {
            self.add_table_to_defender();
            self.refill_hands();
            self.game_state.acting_player = self.game_state.acting_player.other();
            self.game_state.defender_has_taken = false;
        } else {
            self.game_state.defender_has_taken = true;
            self.game_state.acting_player = self.game_state.acting_player.other();
        }
        assert(self@ =~= next_state(m, Action::Take));
    }

    fn handle_stop_attack(&mut self)
        requires
            is_legal(old(self)@, Action::StopAttack),
        ensures
            final(self)@ == next_state(old(self)@, Action::StopAttack),
            final(self).history == old(self).history,
    {
        let ghost m = self@;
        if self.game_state.defender_has_taken {
            self.add_table_to_defender();
            self.refill_hands();
        } else {
            if self.game_state.defense_table.len() == self.game_state.attack_table.len() {
                self.clear_table();
                self.refill_hands();
                self.game_state.defending_player = self.game_state.defending_player.other();
            }
            self.game_state.acting_player = self.game_state.acting_player.other();
        }
        self.game_state.defender_has_taken = false;
        assert(self@ =~= next_state(m, Action::StopAttack));
    }

    fn handle_attack(&mut self, card: Card)
        requires
            is_legal(old(self)@, Action::Attack(card)),
        ensures
            final(self)@ == next_state(old(self)@, Action::Attack(card)),
            final(self).history == old(self).history,
    {
        let ghost m = self@;
        self.game_state.attack_table.push(card);
        match self.game_state.defending_player.other() {
            GamePlayer::Player1 => remove_card(&mut self.game_state.hand1.0, card),
            GamePlayer::Player2 => remove_card(&mut self.game_state.hand2.0, card),
        }
        assert(self@ =~= next_state(m, Action::Attack(card)));
    }

    fn handle_defense(&mut self, card: Card)
        requires
            is_legal(old(self)@, Action::Defend(card)),
        ensures
            final(self)@ == next_state(old(self)@, Action::Defend(card)),
            final(self).history == old(self).history,
    {
        let ghost m = self@;
        self.game_state.defense_table.push(card);
        match self.game_state.defending_player {
            GamePlayer::Player1 => remove_card(&mut self.game_state.hand1.0, card),
            GamePlayer::Player2 => remove_card(&mut self.game_state.hand2.0, card),
        }
        if self.game_state.defense_table.len() == 6 || self.game_state.defender_hand().0.len() == 0 {
            self.clear_table();
            self.refill_hands();
            self.game_state.defender_has_taken = false;
            self.game_state.defending_player = self.game_state.defending_player.other();
        } else if self.game_state.defense_table.len() == self.game_state.attack_table.len() {
            self.game_state.acting_player = self.game_state.acting_player.other();
        }
        assert(self@ =~= next_state(m, Action::Defend(card)));
    }

    /// The ranks of the cards on the table.
    fn ranks(&self) -> (r: HashSet<u8>)
        ensures
            r@ == Set::new(|x: u8| rank_on_table(self@, x)),
    {
        let mut ranks: HashSet<u8> = HashSet::new();
        let mut i: usize = 0;
        while i < self.game_state.attack_table.len()
            invariant
                i <= self@.attack.len(),
                ranks@ == Set::new(
                    |x: u8| exists|k: int| 0 <= k < i && #[trigger] self@.attack[k].rank == x,
                ),
            decreases self@.attack.len() - i,
        {
            ranks.insert(self.game_state.attack_table[i].rank);
            i = i + 1;
            proof {
                assert forall|x: u8|
                    (exists|k: int| 0 <= k < i && #[trigger] self@.attack[k].rank == x) implies ranks@.contains(
                        x,
                    ) by {
                    let k = choose|k: int| 0 <= k < i && #[trigger] self@.attack[k].rank == x;
                    if k < i - 1 {
                        assert(exists|k2: int| 0 <= k2 < i - 1 && #[trigger] self@.attack[k2].rank == x);
                    }
                }
                assert(ranks@ =~= Set::new(
                    |x: u8| exists|k: int| 0 <= k < i && #[trigger] self@.attack[k].rank == x,
                ));
            }
        }
        let mut j: usize = 0;
        while j < self.game_state.defense_table.len()
            invariant
                j <= self@.defense.len(),
                ranks@ == Set::new(
                    |x: u8|
                        (exists|k: int| 0 <= k < self@.attack.len() && #[trigger] self@.attack[k].rank
                            == x) || (exists|k: int|
                            0 <= k < j && #[trigger] self@.defense[k].rank == x),
                ),
            decreases self@.defense.len() - j,
        {
            ranks.insert(self.game_state.defense_table[j].rank);
            j = j + 1;
            proof {
                assert forall|x: u8|
                    (exists|k: int| 0 <= k < j && #[trigger] self@.defense[k].rank == x) implies ranks@.contains(
                        x,
                    ) by {
                    let k = choose|k: int| 0 <= k < j && #[trigger] self@.defense[k].rank == x;
                    if k < j - 1 {
                        assert(exists|k2: int| 0 <= k2 < j - 1 && #[trigger] self@.defense[k2].rank == x);
                    }
                }
                assert(ranks@ =~= Set::new(
                    |x: u8|
                        (exists|k: int| 0 <= k < self@.attack.len() && #[trigger] self@.attack[k].rank
                            == x) || (exists|k: int|
                            0 <= k < j && #[trigger] self@.defense[k].rank == x),
                ));
            }
        }
        assert(ranks@ =~= Set::new(|x: u8| rank_on_table(self@, x)));
        ranks
    }

    fn legal_attacks(&self) -> (r: Vec<Action>)
        ensures
            r@ == attack_options(self@, hand_of(self@, attacker_of(self@))) + if self@.attack.len()
                > 0 {
                seq![Action::StopAttack]
            } else {
                Seq::<Action>::empty()
            },
    {
        let mut actions: Vec<Action> = Vec::new();
        let num_attack = self.game_state.attack_table.len();
        let ranks = self.ranks();
        let hand = self.game_state.attacker_hand();
        let ghost h = hand@;
        let mut i: usize = 0;
        while i < hand.0.len()
            invariant
                i <= h.len(),
                h == hand@,
                h == hand_of(self@, attacker_of(self@)),
                num_attack == self@.attack.len(),
                ranks@ == Set::new(|x: u8| rank_on_table(self@, x)),
                actions@ == attack_options(self@, h.subrange(0, i as int)),
            decreases h.len() - i,
        {
            let card = hand.0[i];
            assert(h.subrange(0, i + 1).drop_last() =~= h.subrange(0, i as int));
            if num_attack < 6 && (num_attack == 0 || ranks.contains(&card.rank)) {
                actions.push(Action::Attack(card));
            }
            i = i + 1;
        }
        assert(h.subrange(0, h.len() as int) =~= h);
        let ghost opts = actions@;
        if num_attack > 0 {
            actions.push(Action::StopAttack);
            assert(actions@ =~= opts + seq![Action::StopAttack]);
        } else {
            assert(actions@ =~= opts + Seq::<Action>::empty());
        }
        actions
    }

    fn legal_defenses(&self) -> (r: Vec<Action>)
        ensures
            r@ == seq![Action::Take] + defense_options(self@, hand_of(self@, self@.defending)),
    {
        let mut actions: Vec<Action> = Vec::new();
        actions.push(Action::Take);
        let num_attack = self.game_state.attack_table.len();
        let num_defend = self.game_state.defense_table.len();
        let trump = self.game_state.visible_card.suit;
        let hand = self.game_state.defender_hand();
        let ghost h = hand@;
        let mut i: usize = 0;
        while i < hand.0.len()
            invariant
                i <= h.len(),
                h == hand@,
                h == hand_of(self@, self@.defending),
                num_attack == self@.attack.len(),
                num_defend == self@.defense.len(),
                trump == self@.trump_card.suit,
                actions@ == seq![Action::Take] + defense_options(self@, h.subrange(0, i as int)),
            decreases h.len() - i,
        {
            let card = hand.0[i];
            assert(h.subrange(0, i + 1).drop_last() =~= h.subrange(0, i as int));
            if num_defend < num_attack && card.beats(&self.game_state.attack_table[num_defend], trump) {
                actions.push(Action::Defend(card));
            }
            i = i + 1;
            assert(actions@ =~= seq![Action::Take] + defense_options(self@, h.subrange(0, i as int)));
        }
        assert(h.subrange(0, h.len() as int) =~= h);
        actions
    }

    /// The actions the acting side may take now, in a fixed order: for the
    /// attacker its allowed attacks in hand order and then stopping, for the
    /// defender taking and then its allowed defences in hand order.
    pub fn legal_actions(&self) -> (r: Vec<Action>)
        ensures
            r@ == legal_action_seq(self@),
    {
        if self.game_state.acting_player == self.game_state.defending_player {
            self.legal_defenses()
        } else {
            self.legal_attacks()
        }
    }

    /// Applies `action` if it is legal, after recording the state before it;
    /// otherwise refuses it with `IllegalAction` and changes nothing.
    pub fn step(&mut self, action: Action) -> (r: Result<(), GameError>)
        ensures
            is_legal(old(self)@, action) ==> r is Ok && final(self)@ == next_state(
                old(self)@,
                action,
            ) && final(self).past() == old(self).past().push(old(self)@),
            !is_legal(old(self)@, action) ==> r == Err::<(), GameError>(GameError::IllegalAction)
                && final(self)@ == old(self)@ && final(self).past() == old(self).past(),
            all_cards(final(self)@) == all_cards(old(self)@),
            well_formed(old(self)@) ==> well_formed(final(self)@),
    {
        let legal = self.legal_actions();
        proof {
            lemma_legal_action_closure(self@, action);
            if is_legal(self@, action) {
                lemma_step_conserves_cards(self@, action);
                if well_formed(self@) {
                    lemma_step_preserves_well_formed(self@, action);
                }
            }
        }
        let mut found = false;
        let mut i: usize = 0;
        while i < legal.len()
            invariant
                i <= legal@.len(),
                found <==> legal@.subrange(0, i as int).contains(action),
            decreases legal@.len() - i,
        {
            proof {
                let pre = legal@.subrange(0, i as int);
                assert(legal@.subrange(0, i + 1) =~= pre.push(legal@[i as int]));
                if pre.contains(action) {
                    let k = choose|k: int| 0 <= k < pre.len() && pre[k] == action;
                    assert(pre.push(legal@[i as int])[k] == action);
                }
                if pre.push(legal@[i as int]).contains(action) && legal@[i as int] != action {
                    let k = choose|k: int|
                        0 <= k < pre.len() + 1 && pre.push(legal@[i as int])[k] == action;
                    assert(pre[k] == action);
                }
                assert(pre.push(legal@[i as int])[i as int] == legal@[i as int]);
            }
            if legal[i] == action {
                found = true;
            }
            i = i + 1;
        }
        assert(legal@.subrange(0, legal@.len() as int) =~= legal@);
        if !found {
            return Err(GameError::IllegalAction);
        }
        let ghost before = self.past();
        let ghost m = self@;
        let snapshot = self.game_state.snapshot();
        self.history.push(snapshot);
        assert(self.past() =~= before.push(m));
        match action {
            Action::StopAttack => self.handle_stop_attack(),
            Action::Take => self.handle_take(),
            Action::Attack(card) => self.handle_attack(card),
            Action::Defend(card) => self.handle_defense(card),
        }
        Ok(())
    }

    /// The same list as `legal_actions`.
    pub fn get_actions(&self) -> (r: Vec<Action>)
        ensures
            r@ == legal_action_seq(self@),
    {
        self.legal_actions()
    }

    /// Whether the deck is empty and at least one hand is empty.
    pub fn is_over(&self) -> (r: bool)
        ensures
            r == game_over(self@),
    {
        self.game_state.deck.len() == 0 && (self.game_state.hand1.0.len() == 0
            || self.game_state.hand2.0.len() == 0)
    }

    /// The side whose hand emptied with the deck empty; `None` while the game
    /// goes on and when both hands emptied together.
    pub fn get_winner(&self) -> (r: Option<GamePlayer>)
        ensures
            r == winner(self@),
    {
        let n1 = self.game_state.hand1.0.len();
        let n2 = self.game_state.hand2.0.len();
        if self.game_state.deck.len() > 0 {
            None
        } else if n1 == 0 && n2 == 0 {
            None
        } else if n1 == 0 {
            Some(GamePlayer::Player1)
        } else if n2 == 0 {
            Some(GamePlayer::Player2)
        } else {
            None
        }
    }

    /// The rewards of side 1 and side 2: 1 for the winner and -1 for the
    /// loser, 0 to both when nobody has won.
    pub fn get_rewards(&self) -> (r: (i8, i8))
        ensures
            r == rewards(self@),
    {
        match self.get_winner() {
            Some(GamePlayer::Player1) => (1, -1),
            Some(GamePlayer::Player2) => (-1, 1),
            None => (0, 0),
        }
    }

    /// What side `player` has seen: its view of each earlier state, oldest first.
    fn observed_history(&self, player: GamePlayer) -> (r: Vec<ObservableGameState>)
        ensures
            r@.len() == self.past().len(),
    {
        let mut r: Vec<ObservableGameState> = Vec::new();
        let mut i: usize = 0;
        while i < self.history.len()
            invariant
                i <= self.history@.len(),
                r@.len() == i,
            decreases self.history@.len() - i,
        {
            r.push(self.history[i].observe(player));
            i = i + 1;
        }
        r
    }

    /// Plays the game to its end, asking `player1` and `player2` in turn for
    /// an action from the legal ones, and returns the rewards.
    pub fn play<A: Player, B: Player>(&mut self, player1: &mut A, player2: &mut B) -> (r: (
        i8,
        i8,
    ))
        requires
            well_formed(old(self)@),
        ensures
            game_over(final(self)@),
            well_formed(final(self)@),
            all_cards(final(self)@) == all_cards(old(self)@),
            r == rewards(final(self)@),
    {
        let ghost start = self@;
        while !self.is_over()
            invariant
                well_formed(self@),
                all_cards(self@) == all_cards(start),
            decreases live_cards(self@), attacker_pool(self@), held_cards(self@), turn_rank(self@),
        {
            let ghost m = self@;
            let pta = self.game_state.acting_player;
            let actions = self.legal_actions();
            let ghost listed = actions@;
            proof {
                lemma_some_action_legal(m);
            }
            let history = self.observed_history(pta);
            let observed = self.game_state.observe(pta);
            let action = match pta {
                GamePlayer::Player1 => player1.choose_action(observed, actions, history),
                GamePlayer::Player2 => player2.choose_action(observed, actions, history),
            };
            proof {
                lemma_legal_action_closure(m, action);
                lemma_step_progresses(m, action);
            }
            let _ = self.step(action);
        }
        self.get_rewards()
    }
}

} // verus!
