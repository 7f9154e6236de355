//! The rules of the game, stated over the model of a game state: which
//! actions are legal, what each one does, and the invariants a game keeps.
use vstd::math::min;
use vstd::prelude::*;

use crate::actions::Action;
use crate::cards::{full_deck, Card, Suit};
use crate::gamestate::{all_cards, attacker_of, hand_of, other_player, GamePlayer, StateView};

verus! {

broadcast use vstd::seq_lib::group_to_multiset_ensures, vstd::multiset::group_multiset_axioms;

/// Whether a card of rank `r` lies anywhere on the table.
pub open spec fn rank_on_table(m: StateView, r: u8) -> bool {
    (exists|i: int| 0 <= i < m.attack.len() && #[trigger] m.attack[i].rank == r) || (exists|i: int|
        0 <= i < m.defense.len() && #[trigger] m.defense[i].rank == r)
}

/// The attacker may add `c`: the table has room, and either it is empty or
/// `c`'s rank is already on it.
pub open spec fn can_attack_with(m: StateView, c: Card) -> bool {
    m.attack.len() < 6 && (m.attack.len() == 0 || rank_on_table(m, c.rank))
}

/// `c` beats the attack card `a` when trumps are `trump`.
pub open spec fn beats(c: Card, a: Card, trump: Suit) -> bool {
    if a.suit == trump {
        c.suit == trump && c.rank > a.rank
    } else {
        c.suit == trump || (c.suit == a.suit && c.rank > a.rank)
    }
}

/// The attack card due for defence: the oldest one without an answer.
pub open spec fn target_card(m: StateView) -> Card {
    m.attack[m.defense.len() as int]
}

/// The defender may answer the card due for defence with `c`.
pub open spec fn can_defend_with(m: StateView, c: Card) -> bool {
    m.defense.len() < m.attack.len() && beats(c, target_card(m), m.trump_card.suit)
}

/// Whether `a` is legal in `m`: attacks and stopping for the attacking side,
/// taking and defences for the defending side.
pub open spec fn is_legal(m: StateView, a: Action) -> bool {
    if m.acting == m.defending {
        match a {
            Action::Take => true,
            Action::Defend(c) => hand_of(m, m.defending).contains(c) && can_defend_with(m, c),
            _ => false,
        }
    } else {
        match a {
            Action::StopAttack => m.attack.len() > 0,
            Action::Attack(c) => hand_of(m, attacker_of(m)).contains(c) && can_attack_with(m, c),
            _ => false,
        }
    }
}

/// The attacks allowed with the cards of `h`, in hand order.
pub open spec fn attack_options(m: StateView, h: Seq<Card>) -> Seq<Action>
    decreases h.len(),
{
    if h.len() == 0 {
        Seq::empty()
    } else {
        let rest = attack_options(m, h.drop_last());
        if can_attack_with(m, h.last()) {
            rest.push(Action::Attack(h.last()))
        } else {
            rest
        }
    }
}

/// The defences allowed with the cards of `h`, in hand order.
pub open spec fn defense_options(m: StateView, h: Seq<Card>) -> Seq<Action>
    decreases h.len(),
{
    if h.len() == 0 {
        Seq::empty()
    } else {
        let rest = defense_options(m, h.drop_last());
        if can_defend_with(m, h.last()) {
            rest.push(Action::Defend(h.last()))
        } else {
            rest
        }
    }
}

/// The legal actions in the order the engine lists them.
pub open spec fn legal_action_seq(m: StateView) -> Seq<Action> {
    if m.acting == m.defending {
        seq![Action::Take] + defense_options(m, hand_of(m, m.defending))
    } else {
        attack_options(m, hand_of(m, attacker_of(m))) + if m.attack.len() > 0 {
            seq![Action::StopAttack]
        } else {
            Seq::empty()
        }
    }
}

/// `s` without the first occurrence of `c` (unchanged if `c` is absent).
pub open spec fn without_card(s: Seq<Card>, c: Card) -> Seq<Card>
    decreases s.len(),
{
    if s.len() == 0 {
        s
    } else if s[0] == c {
        s.drop_first()
    } else {
        seq![s[0]] + without_card(s.drop_first(), c)
    }
}

/// `m` with side `p`'s hand replaced by `h`.
pub open spec fn with_hand(m: StateView, p: GamePlayer, h: Seq<Card>) -> StateView {
    match p {
        GamePlayer::Player1 => StateView { hand1: h, ..m },
        GamePlayer::Player2 => StateView { hand2: h, ..m },
    }
}

/// The `k` cards drawn from the end of `deck`, last card first.
pub open spec fn drawn_cards(deck: Seq<Card>, k: int) -> Seq<Card> {
    Seq::new(k as nat, |j: int| deck[deck.len() - 1 - j])
}

/// Side `p` draws from the deck until it holds 6 cards or the deck is empty.
pub open spec fn refilled_side(m: StateView, p: GamePlayer) -> StateView {
    let h = hand_of(m, p);
    if h.len() < 6 {
        let k = min(6 - h.len(), m.deck.len() as int);
        with_hand(
            StateView { deck: m.deck.subrange(0, m.deck.len() - k), ..m },
            p,
            h + drawn_cards(m.deck, k),
        )
    } else {
        m
    }
}

/// Both hands refilled: the round's attacker first, then its defender.
pub open spec fn refilled(m: StateView) -> StateView {
    refilled_side(refilled_side(m, attacker_of(m)), m.defending)
}

/// The defender picks up every card on the table, defences first.
pub open spec fn table_taken(m: StateView) -> StateView {
    with_hand(
        StateView { attack: Seq::empty(), defense: Seq::empty(), ..m },
        m.defending,
        hand_of(m, m.defending) + m.defense + m.attack,
    )
}

/// The table goes to the graveyard, attacks first.
pub open spec fn table_cleared(m: StateView) -> StateView {
    StateView {
        graveyard: m.graveyard + m.attack + m.defense,
        attack: Seq::empty(),
        defense: Seq::empty(),
        ..m
    }
}

/// The state after a legal action `a` in `m`.
pub open spec fn next_state(m: StateView, a: Action) -> StateView {
    match a {
        Action::Attack(c) => {
            let p = attacker_of(m);
            with_hand(
                StateView { attack: m.attack.push(c), ..m },
                p,
                without_card(hand_of(m, p), c),
            )
        },
        Action::StopAttack => {
            if m.taken {
                StateView { taken: false, ..refilled(table_taken(m)) }
            } else if m.defense.len() == m.attack.len() {
                let r = refilled(table_cleared(m));
                StateView {
                    acting: other_player(m.acting),
                    defending: other_player(m.defending),
                    taken: false,
                    ..r
                }
            } else {
                StateView { acting: other_player(m.acting), taken: false, ..m }
            }
        },
        Action::Take => {
            if m.attack.len() >= 6 || m.attack.len() - m.defense.len() >= hand_of(
                m,
                m.defending,
            ).len() {
                StateView { acting: other_player(m.acting), taken: false, ..refilled(table_taken(m)) }
            } else {
                StateView { acting: other_player(m.acting), taken: true, ..m }
            }
        },
        Action::Defend(c) => {
            let p = m.defending;
            let m1 = with_hand(
                StateView { defense: m.defense.push(c), ..m },
                p,
                without_card(hand_of(m, p), c),
            );
            if m1.defense.len() == 6 || hand_of(m1, p).len() == 0 {
                StateView {
                    defending: other_player(m.defending),
                    taken: false,
                    ..refilled(table_cleared(m1))
                }
            } else if m1.defense.len() == m1.attack.len() {
                StateView { acting: other_player(m.acting), ..m1 }
            } else {
                m1
            }
        },
    }
}

/// Side 1 attacks first when it holds a trump lower than every trump of side 2;
/// otherwise side 2 does, also when neither side holds a trump.
pub open spec fn first_attacker(h1: Seq<Card>, h2: Seq<Card>, trump: Suit) -> GamePlayer {
    if exists|i: int|
        0 <= i < h1.len() && #[trigger] h1[i].suit == trump && h1[i].rank < 15 && forall|j: int|
            0 <= j < h2.len() && #[trigger] h2[j].suit == trump ==> h1[i].rank < h2[j].rank {
        GamePlayer::Player1
    } else {
        GamePlayer::Player2
    }
}

/// A game dealt from the deck `d`: six cards to side 1 from the end, then six
/// to side 2; the first card of the deck is the trump card.
pub open spec fn dealt(d: Seq<Card>) -> StateView {
    let hand1 = drawn_cards(d, 6);
    let hand2 = drawn_cards(d.subrange(0, d.len() - 6), 6);
    let first = first_attacker(hand1, hand2, d[0].suit);
    StateView {
        deck: d.subrange(0, d.len() - 12),
        attack: Seq::empty(),
        defense: Seq::empty(),
        hand1,
        hand2,
        acting: first,
        defending: other_player(first),
        trump_card: d[0],
        taken: false,
        graveyard: Seq::empty(),
    }
}

/// The game is over once the deck is empty and some hand is empty.
pub open spec fn game_over(m: StateView) -> bool {
    m.deck.len() == 0 && (m.hand1.len() == 0 || m.hand2.len() == 0)
}

/// The side that has won, if any: the one whose hand emptied with the deck
/// empty; nobody while the deck holds cards or when both hands are empty.
pub open spec fn winner(m: StateView) -> Option<GamePlayer> {
    if m.deck.len() > 0 {
        None
    } else if m.hand1.len() == 0 && m.hand2.len() == 0 {
        None
    } else if m.hand1.len() == 0 {
        Some(GamePlayer::Player1)
    } else if m.hand2.len() == 0 {
        Some(GamePlayer::Player2)
    } else {
        None
    }
}

/// The rewards of side 1 and side 2.
pub open spec fn rewards(m: StateView) -> (i8, i8) {
    match winner(m) {
        Some(GamePlayer::Player1) => (1i8, -1i8),
        Some(GamePlayer::Player2) => (-1i8, 1i8),
        None => (0i8, 0i8),
    }
}

/// The invariants that every state reached by legal play keeps.
pub open spec fn well_formed(m: StateView) -> bool {
    &&& m.defense.len() <= m.attack.len() <= 6
    &&& m.acting == m.defending ==> m.defense.len() < m.attack.len() && !m.taken
    &&& m.taken ==> m.attack.len() > 0
    &&& (m.acting != m.defending && m.attack.len() == 0) ==> (hand_of(m, attacker_of(m)).len() > 0
        || game_over(m))
}

/// Cards still in play: in the deck, in a hand or on the table.
pub open spec fn live_cards(m: StateView) -> nat {
    m.deck.len() + m.hand1.len() + m.hand2.len() + m.attack.len() + m.defense.len()
}

/// Cards on the attacking side of the round: the deck, the attacker's hand and the attacks.
pub open spec fn attacker_pool(m: StateView) -> nat {
    m.deck.len() + hand_of(m, attacker_of(m)).len() + m.attack.len()
}

/// Cards held in the two hands.
pub open spec fn held_cards(m: StateView) -> nat {
    m.hand1.len() + m.hand2.len()
}

/// Moves left in the round before a card must move: stopping and announcing a take.
pub open spec fn turn_rank(m: StateView) -> nat {
    (if m.taken {
        0nat
    } else {
        2nat
    }) + (if m.acting != m.defending {
        1nat
    } else {
        0nat
    })
}

/// `b` comes strictly before `a` in the lexicographic order of the four progress measures.
pub open spec fn progresses(a: StateView, b: StateView) -> bool {
    live_cards(b) < live_cards(a) || (live_cards(b) == live_cards(a) && (attacker_pool(b)
        < attacker_pool(a) || (attacker_pool(b) == attacker_pool(a) && (held_cards(b)
        < held_cards(a) || (held_cards(b) == held_cards(a) && turn_rank(b) < turn_rank(a))))))
}

/// Removing the first occurrence of `c`, found at `k`, is `without_card`.
pub proof fn lemma_without_card_at(s: Seq<Card>, c: Card, k: int)
    requires
        0 <= k < s.len(),
        s[k] == c,
        forall|j: int| 0 <= j < k ==> s[j] != c,
    ensures
        s.remove(k) == without_card(s, c),
    decreases s.len(),
{
    if k > 0 {
        lemma_without_card_at(s.drop_first(), c, k - 1);
        assert(s.remove(k) =~= seq![s[0]] + s.drop_first().remove(k - 1));
    } else {
        assert(s.remove(0) =~= s.drop_first());
    }
}

/// Removing a card that is there takes exactly one copy of it out.
pub proof fn lemma_without_card_multiset(s: Seq<Card>, c: Card)
    requires
        s.contains(c),
    ensures
        without_card(s, c).to_multiset() == s.to_multiset().remove(c),
        without_card(s, c).len() == s.len() - 1,
    decreases s.len(),
{
    if s[0] == c {
        assert(s.drop_first() == s.remove(0));
    } else {
        let i = choose|i: int| 0 <= i < s.len() && s[i] == c;
        assert(s.drop_first()[i - 1] == c);
        lemma_without_card_multiset(s.drop_first(), c);
        vstd::seq_lib::lemma_multiset_commutative(seq![s[0]], s.drop_first());
        vstd::seq_lib::lemma_multiset_commutative(seq![s[0]], without_card(s.drop_first(), c));
        assert(s == seq![s[0]] + s.drop_first());
        assert(without_card(s, c).to_multiset() =~= s.to_multiset().remove(c));
    }
}

/// An action is among the listed attacks exactly when it attacks with a card
/// of `h` that may be added.
pub proof fn lemma_attack_options_contains(m: StateView, h: Seq<Card>, a: Action)
    ensures
        attack_options(m, h).contains(a) <==> (a matches Action::Attack(c) && h.contains(c)
            && can_attack_with(m, c)),
    decreases h.len(),
{
    if h.len() > 0 {
        let init = h.drop_last();
        lemma_attack_options_contains(m, init, a);
        assert(h == init.push(h.last()));
        let rest = attack_options(m, init);
        if let Action::Attack(c) = a {
            if h.contains(c) && can_attack_with(m, c) && !rest.contains(a) {
                let i = choose|i: int| 0 <= i < h.len() && h[i] == c;
                if i < init.len() {
                    assert(init[i] == c);
                }
                assert(attack_options(m, h) == rest.push(a));
                assert(attack_options(m, h)[rest.len() as int] == a);
            }
            if attack_options(m, h).contains(a) && !rest.contains(a) {
                let i = choose|i: int|
                    0 <= i < attack_options(m, h).len() && attack_options(m, h)[i] == a;
                if can_attack_with(m, h.last()) {
                    assert(i == rest.len());
                    assert(h[h.len() - 1] == c);
                } else {
                    assert(rest[i] == a);
                }
            }
            if rest.contains(a) {
                let i = choose|i: int| 0 <= i < rest.len() && rest[i] == a;
                let j = choose|j: int| 0 <= j < init.len() && init[j] == c;
                assert(h[j] == c);
                if can_attack_with(m, h.last()) {
                    assert(attack_options(m, h)[i] == a);
                }
            }
        } else {
            if attack_options(m, h).contains(a) {
                let i = choose|i: int|
                    0 <= i < attack_options(m, h).len() && attack_options(m, h)[i] == a;
                if can_attack_with(m, h.last()) && i == rest.len() {
                } else {
                    assert(rest[i] == a);
                }
            }
        }
    }
}

/// An action is among the listed defences exactly when it defends with a card
/// of `h` that beats the card due for defence.
pub proof fn lemma_defense_options_contains(m: StateView, h: Seq<Card>, a: Action)
    ensures
        defense_options(m, h).contains(a) <==> (a matches Action::Defend(c) && h.contains(c)
            && can_defend_with(m, c)),
    decreases h.len(),
{
    if h.len() > 0 {
        let init = h.drop_last();
        lemma_defense_options_contains(m, init, a);
        assert(h == init.push(h.last()));
        let rest = defense_options(m, init);
        if let Action::Defend(c) = a {
            if h.contains(c) && can_defend_with(m, c) && !rest.contains(a) {
                let i = choose|i: int| 0 <= i < h.len() && h[i] == c;
                if i < init.len() {
                    assert(init[i] == c);
                }
                assert(defense_options(m, h) == rest.push(a));
                assert(defense_options(m, h)[rest.len() as int] == a);
            }
            if defense_options(m, h).contains(a) && !rest.contains(a) {
                let i = choose|i: int|
                    0 <= i < defense_options(m, h).len() && defense_options(m, h)[i] == a;
                if can_defend_with(m, h.last()) {
                    assert(i == rest.len());
                    assert(h[h.len() - 1] == c);
                } else {
                    assert(rest[i] == a);
                }
            }
            if rest.contains(a) {
                let i = choose|i: int| 0 <= i < rest.len() && rest[i] == a;
                let j = choose|j: int| 0 <= j < init.len() && init[j] == c;
                assert(h[j] == c);
                if can_defend_with(m, h.last()) {
                    assert(defense_options(m, h)[i] == a);
                }
            }
        } else {
            if defense_options(m, h).contains(a) {
                let i = choose|i: int|
                    0 <= i < defense_options(m, h).len() && defense_options(m, h)[i] == a;
                if can_defend_with(m, h.last()) && i == rest.len() {
                } else {
                    assert(rest[i] == a);
                }
            }
        }
    }
}

/// The listed legal actions are exactly the legal ones: an action is in the
/// list if and only if stepping with it is accepted.
pub proof fn lemma_legal_action_closure(m: StateView, a: Action)
    ensures
        legal_action_seq(m).contains(a) <==> is_legal(m, a),
{
    if m.acting == m.defending {
        let opts = defense_options(m, hand_of(m, m.defending));
        lemma_defense_options_contains(m, hand_of(m, m.defending), a);
        let all = seq![Action::Take] + opts;
        if a == Action::Take {
            assert(all[0] == a);
        }
        if opts.contains(a) {
            let i = choose|i: int| 0 <= i < opts.len() && opts[i] == a;
            assert(all[i + 1] == a);
        }
        if all.contains(a) && a != Action::Take {
            let i = choose|i: int| 0 <= i < all.len() && all[i] == a;
            assert(opts[i - 1] == a);
        }
    } else {
        let opts = attack_options(m, hand_of(m, attacker_of(m)));
        lemma_attack_options_contains(m, hand_of(m, attacker_of(m)), a);
        let tail = if m.attack.len() > 0 {
            seq![Action::StopAttack]
        } else {
            Seq::<Action>::empty()
        };
        let all = opts + tail;
        if a == Action::StopAttack && m.attack.len() > 0 {
            assert(all[opts.len() as int] == a);
        }
        if opts.contains(a) {
            let i = choose|i: int| 0 <= i < opts.len() && opts[i] == a;
            assert(all[i] == a);
        }
        if all.contains(a) && !opts.contains(a) {
            let i = choose|i: int| 0 <= i < all.len() && all[i] == a;
            if i < opts.len() {
                assert(opts[i] == a);
            } else {
                assert(tail[i - opts.len()] == a);
            }
        }
    }
}

/// Drawing `k` cards splits the deck: what is drawn and what is left make up the deck.
pub proof fn lemma_drawn_split(d: Seq<Card>, k: int)
    requires
        0 <= k <= d.len(),
    ensures
        drawn_cards(d, k).to_multiset().add(d.subrange(0, d.len() - k).to_multiset())
            == d.to_multiset(),
{
    let n = d.len() as int;
    let tail = d.subrange(n - k, n);
    assert(drawn_cards(d, k) =~= tail.reverse());
    tail.lemma_reverse_to_multiset();
    vstd::seq_lib::lemma_multiset_commutative(d.subrange(0, n - k), tail);
    assert(d.subrange(0, n - k) + tail =~= d);
    assert(drawn_cards(d, k).to_multiset().add(d.subrange(0, d.len() - k).to_multiset())
        =~= d.to_multiset());
}

/// Replacing a hand changes the set of all cards by exactly that hand.
pub proof fn lemma_with_hand_cards(m: StateView, p: GamePlayer, h: Seq<Card>)
    ensures
        all_cards(with_hand(m, p, h)).add(hand_of(m, p).to_multiset()) == all_cards(m).add(
            h.to_multiset(),
        ),
{
    assert(all_cards(with_hand(m, p, h)).add(hand_of(m, p).to_multiset()) =~= all_cards(m).add(
        h.to_multiset(),
    ));
}

/// Refilling one hand moves cards from the deck to the hand and loses none.
pub proof fn lemma_refilled_side_cards(m: StateView, p: GamePlayer)
    ensures
        all_cards(refilled_side(m, p)) == all_cards(m),
        live_cards(refilled_side(m, p)) == live_cards(m),
        refilled_side(m, p).deck.len() <= m.deck.len(),
        hand_of(refilled_side(m, p), p).len() >= 6 || refilled_side(m, p).deck.len() == 0,
        hand_of(refilled_side(m, p), other_player(p)) == hand_of(m, other_player(p)),
        hand_of(refilled_side(m, p), p).len() >= hand_of(m, p).len(),
        hand_of(refilled_side(m, p), p).len() - hand_of(m, p).len() == m.deck.len()
            - refilled_side(m, p).deck.len(),
        refilled_side(m, p).attack == m.attack,
        refilled_side(m, p).defense == m.defense,
        refilled_side(m, p).acting == m.acting,
        refilled_side(m, p).defending == m.defending,
        refilled_side(m, p).taken == m.taken,
        refilled_side(m, p).trump_card == m.trump_card,
        refilled_side(m, p).graveyard == m.graveyard,
        refilled_side(m, p).deck == m.deck.subrange(0, refilled_side(m, p).deck.len() as int),
{
    let h = hand_of(m, p);
    if h.len() < 6 {
        let k = min(6 - h.len(), m.deck.len() as int);
        let m1 = StateView { deck: m.deck.subrange(0, m.deck.len() - k), ..m };
        let h2 = h + drawn_cards(m.deck, k);
        lemma_drawn_split(m.deck, k);
        lemma_with_hand_cards(m1, p, h2);
        vstd::seq_lib::lemma_multiset_commutative(h, drawn_cards(m.deck, k));
        assert(all_cards(refilled_side(m, p)) =~= all_cards(m));
    }
}

/// Refilling both hands loses no card, keeps the table and the roles, and
/// leaves each hand with at least 6 cards unless the deck ran out.
pub proof fn lemma_refilled_cards(m: StateView)
    ensures
        all_cards(refilled(m)) == all_cards(m),
        live_cards(refilled(m)) == live_cards(m),
        refilled(m).deck.len() <= m.deck.len(),
        hand_of(refilled(m), attacker_of(m)).len() >= 6 || refilled(m).deck.len() == 0,
        hand_of(refilled(m), m.defending).len() >= 6 || refilled(m).deck.len() == 0,
        hand_of(refilled(m), attacker_of(m)).len() >= hand_of(m, attacker_of(m)).len(),
        attacker_pool(refilled(m)) <= attacker_pool(m),
        refilled(m).attack == m.attack,
        refilled(m).defense == m.defense,
        refilled(m).acting == m.acting,
        refilled(m).defending == m.defending,
        refilled(m).taken == m.taken,
        refilled(m).trump_card == m.trump_card,
        refilled(m).graveyard == m.graveyard,
        refilled(m).deck == m.deck.subrange(0, refilled(m).deck.len() as int),
{
    let a = attacker_of(m);
    let m1 = refilled_side(m, a);
    lemma_refilled_side_cards(m, a);
    lemma_refilled_side_cards(m1, m.defending);
    assert(other_player(m.defending) == a);
    assert(other_player(a) == m.defending);
    assert(refilled(m).deck =~= m.deck.subrange(0, refilled(m).deck.len() as int));
}

/// Picking up the table loses no card and keeps the cards in play.
pub proof fn lemma_table_taken_cards(m: StateView)
    ensures
        all_cards(table_taken(m)) == all_cards(m),
        live_cards(table_taken(m)) == live_cards(m),
{
    let m1 = StateView { attack: Seq::empty(), defense: Seq::empty(), ..m };
    let h = hand_of(m, m.defending);
    lemma_with_hand_cards(m1, m.defending, h + m.defense + m.attack);
    vstd::seq_lib::lemma_multiset_commutative(h, m.defense);
    vstd::seq_lib::lemma_multiset_commutative(h + m.defense, m.attack);
    assert(all_cards(table_taken(m)) =~= all_cards(m));
}

/// Clearing the table loses no card.
pub proof fn lemma_table_cleared_cards(m: StateView)
    ensures
        all_cards(table_cleared(m)) == all_cards(m),
{
    vstd::seq_lib::lemma_multiset_commutative(m.graveyard, m.attack);
    vstd::seq_lib::lemma_multiset_commutative(m.graveyard + m.attack, m.defense);
    assert(all_cards(table_cleared(m)) =~= all_cards(m));
}

/// Card conservation: a legal action moves cards between the deck, the hands,
/// the table and the graveyard, and never creates or loses one.
pub proof fn lemma_step_conserves_cards(m: StateView, a: Action)
    requires
        is_legal(m, a),
    ensures
        all_cards(next_state(m, a)) == all_cards(m),
{
    match a {
        Action::Attack(c) => {
            let p = attacker_of(m);
            let m1 = StateView { attack: m.attack.push(c), ..m };
            lemma_without_card_multiset(hand_of(m, p), c);
            lemma_with_hand_cards(m1, p, without_card(hand_of(m, p), c));
            assert(all_cards(next_state(m, a)) =~= all_cards(m));
        },
        Action::Defend(c) => {
            let p = m.defending;
            let m0 = StateView { defense: m.defense.push(c), ..m };
            let m1 = with_hand(m0, p, without_card(hand_of(m, p), c));
            lemma_without_card_multiset(hand_of(m, p), c);
            lemma_with_hand_cards(m0, p, without_card(hand_of(m, p), c));
            assert(all_cards(m1) =~= all_cards(m));
            lemma_table_cleared_cards(m1);
            lemma_refilled_cards(table_cleared(m1));
        },
        Action::StopAttack => {
            lemma_table_taken_cards(m);
            lemma_refilled_cards(table_taken(m));
            lemma_table_cleared_cards(m);
            lemma_refilled_cards(table_cleared(m));
        },
        Action::Take => {
            lemma_table_taken_cards(m);
            lemma_refilled_cards(table_taken(m));
        },
    }
}

/// Dealing from a deck keeps exactly the deck's cards.
pub proof fn lemma_dealt_cards(d: Seq<Card>)
    requires
        d.len() >= 13,
    ensures
        all_cards(dealt(d)) == d.to_multiset(),
{
    let d6 = d.subrange(0, d.len() - 6);
    lemma_drawn_split(d, 6);
    lemma_drawn_split(d6, 6);
    assert(d6.subrange(0, d6.len() - 6) =~= d.subrange(0, d.len() - 12));
    assert(all_cards(dealt(d)) =~= d.to_multiset());
}

/// A dealt game is well formed: nothing on the table, and the first attacker
/// holds six cards.
pub proof fn lemma_dealt_well_formed(d: Seq<Card>)
    requires
        d.len() >= 13,
    ensures
        well_formed(dealt(d)),
{
    let m = dealt(d);
    let first = m.acting;
    assert(other_player(other_player(first)) == first);
    assert(hand_of(m, attacker_of(m)).len() == 6);
}

/// The table bound and the other invariants of `well_formed` survive every
/// legal action; in particular the attack table never holds more than 6 cards.
pub proof fn lemma_step_preserves_well_formed(m: StateView, a: Action)
    requires
        well_formed(m),
        is_legal(m, a),
    ensures
        well_formed(next_state(m, a)),
{
    let n = next_state(m, a);
    assert(other_player(other_player(m.defending)) == m.defending);
    assert(m.acting != m.defending ==> m.acting == other_player(m.defending));
    match a {
        Action::Attack(c) => {},
        Action::Defend(c) => {
            let p = m.defending;
            let m0 = StateView { defense: m.defense.push(c), ..m };
            let m1 = with_hand(m0, p, without_card(hand_of(m, p), c));
            lemma_refilled_cards(table_cleared(m1));
        },
        Action::StopAttack => {
            lemma_refilled_cards(table_taken(m));
            lemma_refilled_cards(table_cleared(m));
            if !m.taken && m.defense.len() == m.attack.len() {
                assert(attacker_of(n) == m.defending);
            }
        },
        Action::Take => {
            lemma_refilled_cards(table_taken(m));
        },
    }
}

/// Every legal action makes progress: it lowers the cards in play, or keeps
/// them and lowers the attacking side's pool, or keeps both and lowers the
/// cards in hand, or keeps all three and lowers the moves left before a card
/// must move. So a game cannot go on for ever.
pub proof fn lemma_step_progresses(m: StateView, a: Action)
    requires
        well_formed(m),
        is_legal(m, a),
    ensures
        progresses(m, next_state(m, a)),
{
    assert(other_player(other_player(m.defending)) == m.defending);
    match a {
        Action::Attack(c) => {
            lemma_without_card_multiset(hand_of(m, attacker_of(m)), c);
        },
        Action::Defend(c) => {
            let p = m.defending;
            lemma_without_card_multiset(hand_of(m, p), c);
            let m0 = StateView { defense: m.defense.push(c), ..m };
            let m1 = with_hand(m0, p, without_card(hand_of(m, p), c));
            lemma_refilled_cards(table_cleared(m1));
        },
        Action::StopAttack => {
            lemma_table_taken_cards(m);
            lemma_refilled_cards(table_taken(m));
            lemma_refilled_cards(table_cleared(m));
        },
        Action::Take => {
            lemma_table_taken_cards(m);
            lemma_refilled_cards(table_taken(m));
        },
    }
}

/// A well-formed game that is not over always offers the acting side an action.
pub proof fn lemma_some_action_legal(m: StateView)
    requires
        well_formed(m),
        !game_over(m),
    ensures
        legal_action_seq(m).len() > 0,
{
    if m.acting != m.defending && m.attack.len() == 0 {
        let h = hand_of(m, attacker_of(m));
        lemma_attack_options_contains(m, h, Action::Attack(h[0]));
        assert(h.contains(h[0]));
    }
}

/// The state reached from `m` by playing `acts` in order, if every one of
/// them is legal when it is played.
pub open spec fn played(m: StateView, acts: Seq<Action>) -> Option<StateView>
    decreases acts.len(),
{
    if acts.len() == 0 {
        Some(m)
    } else {
        match played(m, acts.drop_last()) {
            Some(x) => if is_legal(x, acts.last()) {
                Some(next_state(x, acts.last()))
            } else {
                None
            },
            None => None,
        }
    }
}

/// Every state reached by legal play from a game dealt from the 36 cards
/// holds exactly those 36 cards, has at most 6 attack cards on the table and
/// keeps the other invariants of `well_formed`.
pub proof fn lemma_reachable_invariants(d: Seq<Card>, acts: Seq<Action>)
    requires
        d.to_multiset() == full_deck().to_multiset(),
        played(dealt(d), acts) is Some,
    ensures
        well_formed(played(dealt(d), acts).unwrap()),
        all_cards(played(dealt(d), acts).unwrap()) == full_deck().to_multiset(),
        played(dealt(d), acts).unwrap().attack.len() <= 6,
    decreases acts.len(),
{
    if acts.len() == 0 {
        assert(d.len() == 36) by {
            assert(full_deck().len() == 36);
            d.to_multiset_ensures();
            full_deck().to_multiset_ensures();
        }
        lemma_dealt_cards(d);
        lemma_dealt_well_formed(d);
    } else {
        lemma_reachable_invariants(d, acts.drop_last());
        let x = played(dealt(d), acts.drop_last()).unwrap();
        lemma_step_conserves_cards(x, acts.last());
        lemma_step_preserves_well_formed(x, acts.last());
    }
}

/// A legal action never changes the trump card, only takes cards from the
/// drawing end of the deck, and only adds cards to the graveyard.
pub proof fn lemma_step_keeps_trump_deck_and_graveyard(m: StateView, a: Action)
    requires
        is_legal(m, a),
    ensures
        next_state(m, a).trump_card == m.trump_card,
        next_state(m, a).deck.len() <= m.deck.len(),
        next_state(m, a).deck == m.deck.subrange(0, next_state(m, a).deck.len() as int),
        next_state(m, a).graveyard.len() >= m.graveyard.len(),
        next_state(m, a).graveyard.subrange(0, m.graveyard.len() as int) == m.graveyard,
{
    let n = next_state(m, a);
    match a {
        Action::Defend(c) => {
            let p = m.defending;
            let m0 = StateView { defense: m.defense.push(c), ..m };
            let m1 = with_hand(m0, p, without_card(hand_of(m, p), c));
            lemma_refilled_cards(table_cleared(m1));
        },
        Action::StopAttack => {
            lemma_refilled_cards(table_taken(m));
            lemma_refilled_cards(table_cleared(m));
        },
        Action::Take => {
            lemma_refilled_cards(table_taken(m));
        },
        _ => {},
    }
    assert(m.deck.subrange(0, m.deck.len() as int) =~= m.deck);
    assert(n.graveyard.subrange(0, m.graveyard.len() as int) =~= m.graveyard);
}

} // verus!
