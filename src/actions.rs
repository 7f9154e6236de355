use vstd::prelude::*;
use vstd::string::StringExecFns;

use crate::cards::{card_code, card_label, card_of_code, lemma_card_code_round_trip, lemma_code_card_round_trip, valid_card, Card};
use crate::error::GameError;

verus! {

/// A move: stop attacking, take the table, attack with a card, or defend with a card.
#[derive(Clone, Copy, PartialEq, Eq, Structural, Debug)]
pub enum Action {
    StopAttack,
    Take,
    Attack(Card),
    Defend(Card),
}

/// Number of slots of the action encoding.
pub const NUM_ACTIONS: u8 = 74;

/// Number of slots of the action encoding: stop, take, 36 attacks and 36 defences.
pub fn num_actions() -> (r: u8)
    ensures
        r == 74,
{
    NUM_ACTIONS
}

pub open spec fn valid_action(a: Action) -> bool {
    match a {
        Action::Attack(c) => valid_card(c),
        Action::Defend(c) => valid_card(c),
        _ => true,
    }
}

/// Dense code of an action: 0 stop, 1 take, 2 + card for attacks, 38 + card for defences.
pub open spec fn action_code(a: Action) -> int {
    match a {
        Action::StopAttack => 0,
        Action::Take => 1,
        Action::Attack(c) => 2 + card_code(c),
        Action::Defend(c) => 38 + card_code(c),
    }
}

/// The action with dense code `n`.
pub open spec fn action_of_code(n: int) -> Action {
    if n == 0 {
        Action::StopAttack
    } else if n == 1 {
        Action::Take
    } else if n < 38 {
        Action::Attack(card_of_code(n - 2))
    } else {
        Action::Defend(card_of_code(n - 38))
    }
}

/// Decoding an action's code gives the action back, and the code lies in `[0, 74)`.
pub proof fn lemma_action_code_round_trip(a: Action)
    requires
        valid_action(a),
    ensures
        0 <= action_code(a) < 74,
        action_of_code(action_code(a)) == a,
{
    match a {
        Action::Attack(c) => lemma_card_code_round_trip(c),
        Action::Defend(c) => lemma_card_code_round_trip(c),
        _ => {},
    }
}

/// Every code in `[0, 74)` names a valid action whose code is that number; so
/// decoding, encoding and decoding again gives the first decoded action.
pub proof fn lemma_code_action_round_trip(n: int)
    requires
        0 <= n < 74,
    ensures
        valid_action(action_of_code(n)),
        action_code(action_of_code(n)) == n,
        action_of_code(action_code(action_of_code(n))) == action_of_code(n),
{
    if 2 <= n < 38 {
        lemma_code_card_round_trip(n - 2);
    } else if n >= 38 {
        lemma_code_card_round_trip(n - 38);
    }
}

impl Action {
    pub fn to_code(&self) -> (r: u8)
        requires
            valid_action(*self),
        ensures
            r == action_code(*self),
    {
        proof {
            lemma_action_code_round_trip(*self);
        }
        match self {
            Action::StopAttack => 0,
            Action::Take => 1,
            Action::Attack(c) => 2 + c.to_code(),
            Action::Defend(c) => 38 + c.to_code(),
        }
    }

    pub fn from_code(n: u8) -> (r: Result<Action, GameError>)
        ensures
            n < 74 ==> r == Ok::<Action, GameError>(action_of_code(n as int)),
            n >= 74 ==> r == Err::<Action, GameError>(GameError::InvalidEncoding),
    {
        if n == 0 {
            Ok(Action::StopAttack)
        } else if n == 1 {
            Ok(Action::Take)
        } else if n < 38 {
            match Card::from_code(n - 2) {
                Ok(c) => Ok(Action::Attack(c)),
                Err(e) => Err(e),
            }
        } else if n < 74 {
            match Card::from_code(n - 38) {
                Ok(c) => Ok(Action::Defend(c)),
                Err(e) => Err(e),
            }
        } else {
            Err(GameError::InvalidEncoding)
        }
    }
}

/// How an action is written: `StopAttack`, `Take`, or `Attack` / `Defend`
/// followed by the card in parentheses.
pub open spec fn action_label(a: Action) -> Seq<char> {
    match a {
        Action::StopAttack => "StopAttack"@,
        Action::Take => "Take"@,
        Action::Attack(c) => "Attack("@ + card_label(c) + ")"@,
        Action::Defend(c) => "Defend("@ + card_label(c) + ")"@,
    }
}

impl Action {
    pub fn label(&self) -> (r: String)
        requires
            valid_action(*self),
        ensures
            r@ == action_label(*self),
    {
        match self {
            Action::StopAttack => String::from_str("StopAttack"),
            Action::Take => String::from_str("Take"),
            Action::Attack(c) => {
                let mut text = String::from_str("Attack(");
                text.append(c.label().as_str());
                text.append(")");
                text
            },
            Action::Defend(c) => {
                let mut text = String::from_str("Defend(");
                text.append(c.label().as_str());
                text.append(")");
                text
            },
        }
    }
}

/// The actions that a bitmap marks with 1, in increasing code order.
pub open spec fn bitmap_actions(b: Seq<u8>) -> Seq<Action>
    decreases b.len(),
{
    if b.len() == 0 {
        Seq::empty()
    } else {
        let rest = bitmap_actions(b.drop_last());
        if b.last() == 1 {
            rest.push(action_of_code(b.len() - 1))
        } else {
            rest
        }
    }
}

/// An ordered list of actions, with its fixed-width numeric views.
#[derive(Clone, Debug, PartialEq)]
pub struct ActionList(pub Vec<Action>);

impl View for ActionList {
    type V = Seq<Action>;

    open spec fn view(&self) -> Seq<Action> {
        self.0@
    }
}

impl ActionList {
    /// Each action written out, in order.
    pub fn to_strings(&self) -> (r: Vec<String>)
        requires
            forall|i: int| 0 <= i < self@.len() ==> valid_action(#[trigger] self@[i]),
        ensures
            r@.len() == self@.len(),
            forall|i: int| 0 <= i < self@.len() ==> (#[trigger] r@[i])@ == action_label(self@[i]),
    {
        let mut r: Vec<String> = Vec::new();
        let mut i: usize = 0;
        while i < self.0.len()
            invariant
                i <= self@.len(),
                r@.len() == i,
                forall|i: int| 0 <= i < self@.len() ==> valid_action(#[trigger] self@[i]),
                forall|j: int| 0 <= j < i ==> (#[trigger] r@[j])@ == action_label(self@[j]),
            decreases self@.len() - i,
        {
            r.push(self.0[i].label());
            i = i + 1;
        }
        r
    }

    /// The code of each action, in order.
    pub fn to_u8s(&self) -> (r: Vec<u8>)
        requires
            forall|i: int| 0 <= i < self@.len() ==> valid_action(#[trigger] self@[i]),
        ensures
            r@.len() == self@.len(),
            forall|i: int| 0 <= i < self@.len() ==> r@[i] == action_code(#[trigger] self@[i]),
    {
        let mut r: Vec<u8> = Vec::new();
        let mut i: usize = 0;
        while i < self.0.len()
            invariant
                i <= self@.len(),
                r@.len() == i,
                forall|i: int| 0 <= i < self@.len() ==> valid_action(#[trigger] self@[i]),
                forall|j: int| 0 <= j < i ==> r@[j] == action_code(#[trigger] self@[j]),
            decreases self@.len() - i,
        {
            r.push(self.0[i].to_code());
            i = i + 1;
        }
        r
    }

    /// One slot per action code: 1 where the list holds that action, 0 elsewhere.
    pub fn to_bitmap(&self) -> (r: Vec<u8>)
        requires
            forall|i: int| 0 <= i < self@.len() ==> valid_action(#[trigger] self@[i]),
        ensures
            r@.len() == 74,
            forall|k: int|
                0 <= k < 74 ==> #[trigger] r@[k] == if self@.contains(action_of_code(k)) {
                    1u8
                } else {
                    0u8
                },
    {
        let mut bitmap: Vec<u8> = Vec::new();
        let mut k: usize = 0;
        while k < 74
            invariant
                k <= 74,
                bitmap@.len() == k,
                forall|j: int| 0 <= j < k ==> bitmap@[j] == 0,
            decreases 74 - k,
        {
            bitmap.push(0);
            k = k + 1;
        }
        let mut i: usize = 0;
        while i < self.0.len()
            invariant
                i <= self@.len(),
                bitmap@.len() == 74,
                forall|i: int| 0 <= i < self@.len() ==> valid_action(#[trigger] self@[i]),
                forall|j: int|
                    0 <= j < 74 ==> #[trigger] bitmap@[j] == if self@.subrange(0, i as int).contains(
                        action_of_code(j),
                    ) {
                        1u8
                    } else {
                        0u8
                    },
            decreases self@.len() - i,
        {
            let a = self.0[i];
            let code = a.to_code();
            let ghost pre = self@.subrange(0, i as int);
            proof {
                lemma_action_code_round_trip(a);
                assert(self@.subrange(0, i + 1) =~= pre.push(a));
            }
            bitmap.set(code as usize, 1);
            proof {
                assert forall|j: int| 0 <= j < 74 implies #[trigger] bitmap@[j] == if pre.push(
                    a,
                ).contains(action_of_code(j)) {
                    1u8
                } else {
                    0u8
                } by {
                    lemma_code_action_round_trip(j);
                    let x = action_of_code(j);
                    if j == code {
                        assert(pre.push(a)[pre.len() as int] == a);
                    } else {
                        assert(x != a);
                        if pre.contains(x) {
                            let k = choose|k: int| 0 <= k < pre.len() && pre[k] == x;
                            assert(pre.push(a)[k] == x);
                        }
                        if pre.push(a).contains(x) {
                            let k = choose|k: int| 0 <= k < pre.len() + 1 && pre.push(a)[k] == x;
                            assert(pre[k] == x);
                        }
                    }
                }
            }
            i = i + 1;
        }
        assert(self@.subrange(0, self@.len() as int) == self@);
        bitmap
    }

    /// The actions whose slots hold 1, in code order; an `InvalidEncoding` error
    /// when a slot past the last action code holds 1.
    pub fn from_bitmap(bitmap: Vec<u8>) -> (r: Result<ActionList, GameError>)
        ensures
            (exists|k: int| 74 <= k < bitmap@.len() && bitmap@[k] == 1) ==> r
                == Err::<ActionList, GameError>(GameError::InvalidEncoding),
            !(exists|k: int| 74 <= k < bitmap@.len() && bitmap@[k] == 1) ==> (r matches Ok(l)
                && l@ == bitmap_actions(bitmap@)),
    {
        let mut actions: Vec<Action> = Vec::new();
        let mut i: usize = 0;
        while i < bitmap.len()
            invariant
                i <= bitmap@.len(),
                forall|k: int| 74 <= k < i ==> bitmap@[k] != 1,
                actions@ == bitmap_actions(bitmap@.subrange(0, i as int)),
            decreases bitmap@.len() - i,
        {
            assert(bitmap@.subrange(0, i + 1).drop_last() =~= bitmap@.subrange(0, i as int));
            if bitmap[i] == 1 {
                if i >= 74 {
                    return Err(GameError::InvalidEncoding);
                }
                match Action::from_code(i as u8) {
                    Ok(a) => actions.push(a),
                    Err(e) => return Err(e),
                }
            }
            i = i + 1;
        }
        assert(bitmap@.subrange(0, bitmap@.len() as int) == bitmap@);
        Ok(ActionList(actions))
    }
}

} // verus!
