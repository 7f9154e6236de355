use vstd::arithmetic::div_mod::lemma_fundamental_div_mod_converse;
use vstd::math::min;
use vstd::multiset::Multiset;
use vstd::prelude::*;
use vstd::string::StringExecFns;

use crate::error::GameError;
use crate::rng::shuffle_cards;

verus! {

broadcast use vstd::seq_lib::group_to_multiset_ensures, vstd::multiset::group_multiset_axioms;

/// The four suits, in the fixed order used by the card encoding.
#[derive(Clone, Copy, PartialEq, Eq, Structural, Debug, PartialOrd, Ord, Hash)]
pub enum Suit {
    Spades,
    Hearts,
    Diamonds,
    Clubs,
}

/// Position of a suit in the encoding order.
pub open spec fn suit_index(s: Suit) -> nat {
    match s {
        Suit::Spades => 0,
        Suit::Hearts => 1,
        Suit::Diamonds => 2,
        Suit::Clubs => 3,
    }
}

/// The suit at position `i` of the encoding order (the last one for anything past it).
pub open spec fn suit_at(i: int) -> Suit {
    if i == 0 {
        Suit::Spades
    } else if i == 1 {
        Suit::Hearts
    } else if i == 2 {
        Suit::Diamonds
    } else {
        Suit::Clubs
    }
}

impl Suit {
    pub fn to_num(&self) -> (r: u8)
        ensures
            r == suit_index(*self),
    {
        match self {
            Suit::Spades => 0,
            Suit::Hearts => 1,
            Suit::Diamonds => 2,
            Suit::Clubs => 3,
        }
    }

    pub fn from_num(n: u8) -> (r: Result<Suit, GameError>)
        ensures
            n < 4 ==> r == Ok::<Suit, GameError>(suit_at(n as int)),
            n >= 4 ==> r == Err::<Suit, GameError>(GameError::InvalidEncoding),
    {
        match n {
            0 => Ok(Suit::Spades),
            1 => Ok(Suit::Hearts),
            2 => Ok(Suit::Diamonds),
            3 => Ok(Suit::Clubs),
            _ => Err(GameError::InvalidEncoding),
        }
    }
}

/// A playing card; ranks run from 6 to 14 (ace).
#[derive(Clone, Copy, PartialEq, Eq, Structural, Debug, PartialOrd, Ord, Hash)]
pub struct Card {
    pub suit: Suit,
    pub rank: u8,
}

pub open spec fn valid_card(c: Card) -> bool {
    6 <= c.rank <= 14
}

/// Dense code of a card: nine consecutive codes per suit.
pub open spec fn card_code(c: Card) -> int {
    suit_index(c.suit) * 9 + c.rank - 6
}

/// The card with dense code `n`.
pub open spec fn card_of_code(n: int) -> Card {
    Card { suit: suit_at(n / 9), rank: (n % 9 + 6) as u8 }
}

/// Decoding a card's code gives the card back, and the code lies in `[0, 36)`.
pub proof fn lemma_card_code_round_trip(c: Card)
    requires
        valid_card(c),
    ensures
        0 <= card_code(c) < 36,
        card_of_code(card_code(c)) == c,
{
    lemma_fundamental_div_mod_converse(card_code(c), 9, suit_index(c.suit) as int, c.rank - 6);
}

/// Every code in `[0, 36)` names a valid card whose code is that number.
pub proof fn lemma_code_card_round_trip(n: int)
    requires
        0 <= n < 36,
    ensures
        valid_card(card_of_code(n)),
        card_code(card_of_code(n)) == n,
{
    let q = n / 9;
    let r = n % 9;
    assert(n == q * 9 + r && 0 <= q < 4 && 0 <= r < 9) by (nonlinear_arith)
        requires
            0 <= n < 36,
            q == n / 9,
            r == n % 9,
    ;
}

impl Card {
    pub fn to_code(&self) -> (r: u8)
        requires
            valid_card(*self),
        ensures
            r == card_code(*self),
    {
        self.suit.to_num() * 9 + self.rank - 6
    }

    /// Whether this card beats the attack card `attack` when trumps are `trump`.
    pub fn beats(&self, attack: &Card, trump: Suit) -> (r: bool)
        ensures
            r == crate::rules::beats(*self, *attack, trump),
    {
        if attack.suit == trump {
            self.suit == trump && self.rank > attack.rank
        } else {
            self.suit == trump || (self.suit == attack.suit && self.rank > attack.rank)
        }
    }

    pub fn from_code(n: u8) -> (r: Result<Card, GameError>)
        ensures
            n < 36 ==> r == Ok::<Card, GameError>(card_of_code(n as int)),
            n >= 36 ==> r == Err::<Card, GameError>(GameError::InvalidEncoding),
    {
        if n >= 36 {
            return Err(GameError::InvalidEncoding);
        }
        match Suit::from_num(n / 9) {
            Ok(suit) => Ok(Card { suit, rank: n % 9 + 6 }),
            Err(e) => Err(e),
        }
    }
}

/// How a rank is written: its number up to 10, then J, Q, K and A.
pub open spec fn rank_label(r: u8) -> Seq<char> {
    if r == 6 {
        "6"@
    } else if r == 7 {
        "7"@
    } else if r == 8 {
        "8"@
    } else if r == 9 {
        "9"@
    } else if r == 10 {
        "10"@
    } else if r == 11 {
        "J"@
    } else if r == 12 {
        "Q"@
    } else if r == 13 {
        "K"@
    } else {
        "A"@
    }
}

/// The symbol of a suit.
pub open spec fn suit_label(s: Suit) -> Seq<char> {
    match s {
        Suit::Spades => "\u{2660}"@,
        Suit::Hearts => "\u{2665}"@,
        Suit::Diamonds => "\u{2666}"@,
        Suit::Clubs => "\u{2663}"@,
    }
}

/// How a card is written: its rank, then its suit symbol.
pub open spec fn card_label(c: Card) -> Seq<char> {
    rank_label(c.rank) + suit_label(c.suit)
}

fn rank_text(r: u8) -> (s: &'static str)
    requires
        6 <= r <= 14,
    ensures
        s@ == rank_label(r),
{
    match r {
        6 => "6",
        7 => "7",
        8 => "8",
        9 => "9",
        10 => "10",
        11 => "J",
        12 => "Q",
        13 => "K",
        _ => "A",
    }
}

fn suit_text(s: Suit) -> (r: &'static str)
    ensures
        r@ == suit_label(s),
{
    match s {
        Suit::Spades => "\u{2660}",
        Suit::Hearts => "\u{2665}",
        Suit::Diamonds => "\u{2666}",
        Suit::Clubs => "\u{2663}",
    }
}

impl Card {
    /// The card written as rank and suit symbol, such as `10` followed by the spade symbol.
    pub fn label(&self) -> (r: String)
        requires
            valid_card(*self),
        ensures
            r@ == card_label(*self),
    {
        let mut text = String::from_str(rank_text(self.rank));
        text.append(suit_text(self.suit));
        text
    }
}

/// The full deck holds each of the 36 cards once.
pub proof fn lemma_full_deck_distinct()
    ensures
        full_deck().no_duplicates(),
        forall|c: Card| valid_card(c) ==> #[trigger] full_deck().to_multiset().count(c) == 1,
        forall|c: Card| !valid_card(c) ==> #[trigger] full_deck().to_multiset().count(c) == 0,
{
    let d = full_deck();
    assert forall|i: int, j: int| 0 <= i < d.len() && 0 <= j < d.len() && i != j implies d[i]
        != d[j] by {
        lemma_code_card_round_trip(i);
        lemma_code_card_round_trip(j);
    }
    d.lemma_multiset_has_no_duplicates();
    assert forall|c: Card| valid_card(c) implies #[trigger] d.to_multiset().count(c) == 1 by {
        lemma_card_code_round_trip(c);
        assert(d[card_code(c)] == c);
    }
    assert forall|c: Card| !valid_card(c) implies #[trigger] d.to_multiset().count(c) == 0 by {
        if d.contains(c) {
            let i = choose|i: int| 0 <= i < d.len() && d[i] == c;
            lemma_code_card_round_trip(i);
        }
    }
}

/// The cards held by one side; two hands are equal when they hold the same
/// cards, in whatever order.
#[derive(Clone, Debug)]
pub struct Hand(pub Vec<Card>);

impl View for Hand {
    type V = Seq<Card>;

    open spec fn view(&self) -> Seq<Card> {
        self.0@
    }
}

impl PartialEq for Hand {
    fn eq(&self, other: &Hand) -> (r: bool)
        ensures
            r == (self@.to_multiset() == other@.to_multiset()),
    {
        same_cards(&self.0, &other.0)
    }
}

impl vstd::std_specs::cmp::PartialEqSpecImpl for Hand {
    open spec fn obeys_eq_spec() -> bool {
        true
    }

    open spec fn eq_spec(&self, other: &Hand) -> bool {
        self@.to_multiset() == other@.to_multiset()
    }
}

/// Index of the first occurrence of `c` in `v`, if any.
pub(crate) fn find_card(v: &Vec<Card>, c: Card) -> (r: Option<usize>)
    ensures
        r is None ==> !v@.contains(c),
        r matches Some(i) ==> i < v@.len() && v@[i as int] == c && forall|j: int|
            0 <= j < i ==> v@[j] != c,
{
    let mut i: usize = 0;
    while i < v.len()
        invariant
            i <= v@.len(),
            forall|j: int| 0 <= j < i ==> v@[j] != c,
        decreases v@.len() - i,
    {
        if v[i] == c {
            return Some(i);
        }
        i = i + 1;
    }
    None
}

/// Whether `a` and `b` hold the same cards with the same multiplicities.
fn same_cards(a: &Vec<Card>, b: &Vec<Card>) -> (r: bool)
    ensures
        r == (a@.to_multiset() == b@.to_multiset()),
{
    let mut rest = copy_cards(b);
    let mut i: usize = 0;
    while i < a.len()
        invariant
            i <= a@.len(),
            a@.subrange(0, i as int).to_multiset().add(rest@.to_multiset()) == b@.to_multiset(),
        decreases a@.len() - i,
    {
        let c = a[i];
        assert(a@.subrange(0, i + 1) == a@.subrange(0, i as int).push(c));
        match find_card(&rest, c) {
            Some(k) => {
                proof {
                    assert(rest@.remove(k as int).to_multiset() == rest@.to_multiset().remove(c));
                }
                rest.remove(k);
                assert(a@.subrange(0, i + 1).to_multiset().add(rest@.to_multiset())
                    =~= b@.to_multiset());
            },
            None => {
                proof {
                    let pre = a@.subrange(0, i as int).to_multiset();
                    assert(rest@.to_multiset().count(c) == 0);
                    assert(b@.to_multiset().count(c) == pre.count(c));
                    lemma_prefix_count_le(a@, i as int + 1, c);
                    assert(a@.subrange(0, i + 1).to_multiset().count(c) == pre.count(c) + 1);
                }
                return false;
            },
        }
        i = i + 1;
    }
    assert(a@.subrange(0, a@.len() as int) == a@);
    if rest.len() == 0 {
        assert(rest@.to_multiset() =~= Multiset::empty());
        assert(a@.to_multiset() =~= b@.to_multiset());
        true
    } else {
        assert(a@.to_multiset().len() < b@.to_multiset().len());
        false
    }
}

/// The count of `c` in a prefix of `s` never exceeds its count in all of `s`.
proof fn lemma_prefix_count_le(s: Seq<Card>, k: int, c: Card)
    requires
        0 <= k <= s.len(),
    ensures
        s.subrange(0, k).to_multiset().count(c) <= s.to_multiset().count(c),
{
    vstd::seq_lib::lemma_multiset_commutative(s.subrange(0, k), s.subrange(k, s.len() as int));
    assert(s.subrange(0, k) + s.subrange(k, s.len() as int) == s);
}

/// A fresh vector holding the same cards in the same order.
pub(crate) fn copy_cards(v: &Vec<Card>) -> (r: Vec<Card>)
    ensures
        r@ == v@,
{
    let mut r: Vec<Card> = Vec::new();
    let mut i: usize = 0;
    while i < v.len()
        invariant
            i <= v@.len(),
            r@ == v@.subrange(0, i as int),
        decreases v@.len() - i,
    {
        r.push(v[i]);
        i = i + 1;
        assert(r@ =~= v@.subrange(0, i as int));
    }
    assert(v@.subrange(0, v@.len() as int) == v@);
    r
}

/// Number of ranks per suit in a deck whose lowest rank is `lowest` (the highest is 14).
pub open spec fn ranks_per_suit(lowest: u8) -> nat {
    if lowest < 15 {
        (15 - lowest) as nat
    } else {
        0
    }
}

/// The cards of a new deck in order: suit by suit, each from `lowest` up to the ace.
pub open spec fn fresh_deck(lowest: u8) -> Seq<Card> {
    let n = ranks_per_suit(lowest) as int;
    Seq::new(
        4 * ranks_per_suit(lowest),
        |i: int| Card { suit: suit_at(i / n), rank: (lowest + i % n) as u8 },
    )
}

/// The 36 cards of the game, in code order.
pub open spec fn full_deck() -> Seq<Card> {
    Seq::new(36, |i: int| card_of_code(i))
}

/// A new deck from 6 up is the full deck in code order.
pub proof fn lemma_fresh_deck_is_full()
    ensures
        fresh_deck(6) == full_deck(),
{
    assert(fresh_deck(6) =~= full_deck());
}

/// The cards that are not yet dealt, drawn from the end.
#[derive(Clone, Debug, PartialEq)]
pub struct Deck {
    cards: Vec<Card>,
}

impl View for Deck {
    type V = Seq<Card>;

    closed spec fn view(&self) -> Seq<Card> {
        self.cards@
    }
}

impl Deck {
    /// All four suits, each with the ranks from `lowest_rank` up to the ace.
    pub fn new(lowest_rank: u8) -> (d: Deck)
        ensures
            d@ == fresh_deck(lowest_rank),
    {
        let suits: [Suit; 4] = [Suit::Spades, Suit::Hearts, Suit::Diamonds, Suit::Clubs];
        let ghost n = ranks_per_suit(lowest_rank) as int;
        let mut cards: Vec<Card> = Vec::new();
        let mut s: usize = 0;
        while s < 4
            invariant
                s <= 4,
                n == ranks_per_suit(lowest_rank),
                suits@ == seq![Suit::Spades, Suit::Hearts, Suit::Diamonds, Suit::Clubs],
                cards@ == fresh_deck(lowest_rank).subrange(0, s * n),
            decreases 4 - s,
        {
            let suit = suits[s];
            assert(suit == suit_at(s as int));
            let mut rank: u8 = lowest_rank;
            while rank < 15
                invariant
                    s < 4,
                    lowest_rank <= rank,
                    lowest_rank < 15 ==> rank <= 15 && n == 15 - lowest_rank,
                    lowest_rank >= 15 ==> rank == lowest_rank,
                    n == ranks_per_suit(lowest_rank),
                    suit == suit_at(s as int),
                    cards@ == fresh_deck(lowest_rank).subrange(0, s * n + (rank - lowest_rank)),
                decreases 15 - rank,
            {
                let ghost k = rank - lowest_rank;
                proof {
                    assert(0 <= s * n + k < 4 * n) by (nonlinear_arith)
                        requires
                            0 <= k < n,
                            0 <= s < 4,
                    ;
                    lemma_fundamental_div_mod_converse(s * n + k, n, s as int, k);
                }
                cards.push(Card { suit, rank });
                rank = rank + 1;
                assert(cards@ =~= fresh_deck(lowest_rank).subrange(
                    0,
                    s * n + (rank - lowest_rank),
                ));
            }
            if lowest_rank < 15 {
                assert(s * n + (rank - lowest_rank) == (s + 1) * n) by (nonlinear_arith)
                    requires
                        rank == 15,
                        n == 15 - lowest_rank,
                ;
            } else {
                assert(n == 0);
                assert(s * n == 0 && (s + 1) * n == 0) by (nonlinear_arith)
                    requires
                        n == 0,
                ;
            }
            s = s + 1;
        }
        assert(cards@ =~= fresh_deck(lowest_rank));
        Deck { cards }
    }

    /// A deck that holds exactly `cards`; the last one is drawn first.
    pub fn from_cards(cards: Vec<Card>) -> (d: Deck)
        ensures
            d@ == cards@,
    {
        Deck { cards }
    }

    pub fn len(&self) -> (r: usize)
        ensures
            r == self@.len(),
    {
        self.cards.len()
    }

    /// The remaining cards; the last one is drawn first.
    pub fn cards(&self) -> (r: &Vec<Card>)
        ensures
            r@ == self@,
    {
        &self.cards
    }

    /// Puts the cards in a uniformly random order.
    pub fn shuffle(&mut self)
        ensures
            final(self)@.to_multiset() == old(self)@.to_multiset(),
    {
        let mut rng = rand::thread_rng();
        shuffle_cards(&mut self.cards, &mut rng);
    }

    /// Removes and returns the last card, if any.
    pub fn draw(&mut self) -> (r: Option<Card>)
        ensures
            old(self)@.len() == 0 ==> r is None && final(self)@ == old(self)@,
            old(self)@.len() > 0 ==> r == Some(old(self)@.last()) && final(self)@
                == old(self)@.drop_last(),
    {
        self.cards.pop()
    }

    /// Draws up to `n` cards from the end; fewer when the deck runs out.
    /// The first card returned is the one that was last in the deck.
    pub fn draw_n(&mut self, n: usize) -> (r: Vec<Card>)
        ensures
            r@.len() == min(n as int, old(self)@.len() as int),
            final(self)@ == old(self)@.subrange(0, old(self)@.len() - r@.len()),
            forall|j: int| 0 <= j < r@.len() ==> r@[j] == old(self)@[old(self)@.len() - 1 - j],
            r@.to_multiset().add(final(self)@.to_multiset()) == old(self)@.to_multiset(),
    {
        let ghost start = self@;
        let mut drawn: Vec<Card> = Vec::new();
        let mut i: usize = 0;
        while i < n
            invariant
                i <= n,
                drawn@.len() == i,
                i <= start.len(),
                self@ == start.subrange(0, start.len() - i),
                forall|j: int| 0 <= j < i ==> drawn@[j] == start[start.len() - 1 - j],
                drawn@.to_multiset().add(self@.to_multiset()) == start.to_multiset(),
            ensures
                drawn@.len() == min(n as int, start.len() as int),
            decreases n - i,
        {
            match self.draw() {
                Some(card) => {
                    let ghost prev = start.subrange(0, start.len() - i);
                    let ghost old_drawn = drawn@;
                    proof {
                        assert(prev =~= start.subrange(0, start.len() - (i + 1)).push(card));
                    }
                    drawn.push(card);
                    i = i + 1;
                    proof {
                        assert(self@ == start.subrange(0, start.len() - i));
                        assert(drawn@ == old_drawn.push(card));
                        assert(drawn@.to_multiset() == old_drawn.to_multiset().insert(card));
                        assert(prev.to_multiset() == self@.to_multiset().insert(card));
                        assert(drawn@.to_multiset().add(self@.to_multiset()) =~= start.to_multiset());
                    }
                },
                None => {
                    break ;
                },
            }
        }
        drawn
    }

    /// The first card of the deck, which is drawn last.
    pub fn get_first(&self) -> (r: Option<Card>)
        ensures
            self@.len() == 0 ==> r is None,
            self@.len() > 0 ==> r == Some(self@[0]),
    {
        if self.cards.len() == 0 {
            None
        } else {
            Some(self.cards[0])
        }
    }
}

} // verus!
