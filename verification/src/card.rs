//! Card model: suits, values, and single cards. A value maps to a numeric
//! rank (2..=14, used for comparisons) and to a dense ordinal (0..=12, used
//! to index occupancy bins); a suit maps to a dense ordinal 0..=3.

use vstd::prelude::*;
use core::cmp::Ordering;

verus! {

/// Errors raised by card handling: these indicate misuse by the caller
/// (an internal invariant violation), not a game-rule violation.
#[derive(Debug, PartialEq, Eq, Structural, Clone, Copy)]
pub enum CardError {
    /// Tried to add a card to a full board.
    BoardOverflow,
    /// A poker hand was not built from exactly 5 cards.
    InvalidPokerHandCardCount,
    /// Tried to draw from an empty deck.
    EmptyDeck,
}

#[derive(Clone, Copy, PartialEq, Eq, Structural, Debug)]
pub enum Suit {
    Spades,
    Diamonds,
    Clubs,
    Hearts,
}

#[derive(Clone, Copy, PartialEq, Eq, Structural, Debug)]
pub enum Value {
    Ace,
    King,
    Queen,
    Jack,
    Ten,
    Nine,
    Eight,
    Seven,
    Six,
    Five,
    Four,
    Three,
    Two,
}

/// A playing card. Equality is by both fields; between single cards only the
/// value ever matters for strength (suit never breaks ties).
#[derive(Clone, Copy, PartialEq, Eq, Structural, Debug)]
pub struct Card {
    pub suit: Suit,
    pub value: Value,
}

/// Numeric rank of a value: Two is 2 up to Ace at 14.
pub open spec fn value_rank(v: Value) -> int {
    match v {
        Value::Ace => 14,
        Value::King => 13,
        Value::Queen => 12,
        Value::Jack => 11,
        Value::Ten => 10,
        Value::Nine => 9,
        Value::Eight => 8,
        Value::Seven => 7,
        Value::Six => 6,
        Value::Five => 5,
        Value::Four => 4,
        Value::Three => 3,
        Value::Two => 2,
    }
}

/// Dense ordinal of a value: Two is 0 up to Ace at 12.
pub open spec fn value_index(v: Value) -> int {
    value_rank(v) - 2
}

/// Dense ordinal of a suit.
pub open spec fn suit_ordinal(s: Suit) -> int {
    match s {
        Suit::Spades => 0,
        Suit::Diamonds => 1,
        Suit::Clubs => 2,
        Suit::Hearts => 3,
    }
}

/// Inverse of `value_index`: the value whose dense ordinal is `i`.
pub open spec fn value_of_index(i: int) -> Value {
    if i == 0 {
        Value::Two
    } else if i == 1 {
        Value::Three
    } else if i == 2 {
        Value::Four
    } else if i == 3 {
        Value::Five
    } else if i == 4 {
        Value::Six
    } else if i == 5 {
        Value::Seven
    } else if i == 6 {
        Value::Eight
    } else if i == 7 {
        Value::Nine
    } else if i == 8 {
        Value::Ten
    } else if i == 9 {
        Value::Jack
    } else if i == 10 {
        Value::Queen
    } else if i == 11 {
        Value::King
    } else {
        Value::Ace
    }
}

/// Inverse of `suit_ordinal`.
pub open spec fn suit_of_ordinal(i: int) -> Suit {
    if i == 0 {
        Suit::Spades
    } else if i == 1 {
        Suit::Diamonds
    } else if i == 2 {
        Suit::Clubs
    } else {
        Suit::Hearts
    }
}

pub proof fn lemma_value_index_range(v: Value)
    ensures
        0 <= value_index(v) < 13,
{
}

pub proof fn lemma_suit_ordinal_range(s: Suit)
    ensures
        0 <= suit_ordinal(s) < 4,
{
}

/// The dense ordinal determines the value, and vice versa.
pub proof fn lemma_value_index_bijective()
    ensures
        forall|v: Value| value_of_index(#[trigger] value_index(v)) == v,
        forall|i: int| 0 <= i < 13 ==> value_index(#[trigger] value_of_index(i)) == i,
{
}

/// The dense ordinal determines the suit, and vice versa.
pub proof fn lemma_suit_ordinal_bijective()
    ensures
        forall|s: Suit| suit_of_ordinal(#[trigger] suit_ordinal(s)) == s,
        forall|i: int| 0 <= i < 4 ==> suit_ordinal(#[trigger] suit_of_ordinal(i)) == i,
{
}

impl Value {
    /// Numeric rank used when comparing two values: 2 for Two up to 14 for Ace.
    pub fn number_value(&self) -> (r: usize)
        ensures
            r == value_rank(*self),
    {
        match self {
            Value::Ace => 14,
            Value::King => 13,
            Value::Queen => 12,
            Value::Jack => 11,
            Value::Ten => 10,
            Value::Nine => 9,
            Value::Eight => 8,
            Value::Seven => 7,
            Value::Six => 6,
            Value::Five => 5,
            Value::Four => 4,
            Value::Three => 3,
            Value::Two => 2,
        }
    }

    /// Dense ordinal for indexing into a 13-wide occupancy array.
    pub fn index(&self) -> (r: usize)
        ensures
            r == value_index(*self),
    {
        match self {
            Value::Two => 0,
            Value::Three => 1,
            Value::Four => 2,
            Value::Five => 3,
            Value::Six => 4,
            Value::Seven => 5,
            Value::Eight => 6,
            Value::Nine => 7,
            Value::Ten => 8,
            Value::Jack => 9,
            Value::Queen => 10,
            Value::King => 11,
            Value::Ace => 12,
        }
    }

    /// The value with the given dense ordinal. Out-of-range ordinals are a
    /// caller defect and are excluded outright.
    pub fn from_index(index: usize) -> (r: Value)
        requires
            index < 13,
        ensures
            r == value_of_index(index as int),
    {
        match index {
            0 => Value::Two,
            1 => Value::Three,
            2 => Value::Four,
            3 => Value::Five,
            4 => Value::Six,
            5 => Value::Seven,
            6 => Value::Eight,
            7 => Value::Nine,
            8 => Value::Ten,
            9 => Value::Jack,
            10 => Value::Queen,
            11 => Value::King,
            _ => Value::Ace,
        }
    }
}

impl Suit {
    /// Dense ordinal for indexing into a 4-wide occupancy array.
    pub fn index(&self) -> (r: usize)
        ensures
            r == suit_ordinal(*self),
    {
        match self {
            Suit::Spades => 0,
            Suit::Diamonds => 1,
            Suit::Clubs => 2,
            Suit::Hearts => 3,
        }
    }

    /// The suit with the given dense ordinal. Out-of-range ordinals are a
    /// caller defect and are excluded outright.
    pub fn from_index(index: usize) -> (r: Suit)
        requires
            index < 4,
        ensures
            r == suit_of_ordinal(index as int),
    {
        match index {
            0 => Suit::Spades,
            1 => Suit::Diamonds,
            2 => Suit::Clubs,
            _ => Suit::Hearts,
        }
    }
}

impl Card {
    pub fn new(suit: Suit, value: Value) -> (r: Card)
        ensures
            r == (Card { suit, value }),
    {
        Card { suit, value }
    }
}

impl PartialOrd for Card {
    /// Cards order by value alone: suit never breaks ties between single
    /// cards, so two cards of one value in different suits compare Equal.
    fn partial_cmp(&self, other: &Card) -> (r: Option<Ordering>) {
        let a = self.value.number_value();
        let b = other.value.number_value();
        if a < b {
            Some(Ordering::Less)
        } else if a > b {
            Some(Ordering::Greater)
        } else {
            Some(Ordering::Equal)
        }
    }
}

impl vstd::std_specs::cmp::PartialOrdSpecImpl for Card {
    open spec fn obeys_partial_cmp_spec() -> bool {
        true
    }

    open spec fn partial_cmp_spec(&self, other: &Card) -> Option<Ordering> {
        if value_rank(self.value) < value_rank(other.value) {
            Some(Ordering::Less)
        } else if value_rank(self.value) > value_rank(other.value) {
            Some(Ordering::Greater)
        } else {
            Some(Ordering::Equal)
        }
    }
}

} // verus!
