//! The deck: 52 distinct cards in a known construction order, drawn from the
//! back, shuffled in place through a seeded generator.

use vstd::prelude::*;
use vstd::arithmetic::div_mod::lemma_fundamental_div_mod_converse;
use crate::card::{Card, CardError, Suit, Value, value_of_index};
use crate::counts::card_occurs;
use crate::hand::PlayerHand;

verus! {

/// The suit dealt in the `i`-th block of 13 cards of a fresh deck.
pub open spec fn deck_suit(i: int) -> Suit {
    if i == 0 {
        Suit::Spades
    } else if i == 1 {
        Suit::Hearts
    } else if i == 2 {
        Suit::Diamonds
    } else {
        Suit::Clubs
    }
}

/// The 52 cards of a fresh deck in construction order: for each suit, Ace
/// down to Two.
pub open spec fn full_deck() -> Seq<Card> {
    Seq::new(
        52,
        |k: int| Card { suit: deck_suit(k / 13), value: value_of_index(12 - (k % 13)) },
    )
}

/// Declares rand's `StdRng` so a seeded generator can be carried through the
/// game and handed to the shuffle.
#[verifier::external_type_specification]
#[verifier::external_body]
pub struct ExStdRng(rand::rngs::StdRng);

/// Relies on rand's `SeedableRng::seed_from_u64` for `StdRng`: builds a
/// generator from a seed. Nothing is promised of the values it will yield.
#[verifier::external_body]
pub fn rng_from_seed(seed: u64) -> rand::rngs::StdRng {
    <rand::rngs::StdRng as rand::SeedableRng>::seed_from_u64(seed)
}

/// A deck of cards, drawn from the back.
#[derive(Debug)]
pub struct Deck {
    deck: Vec<Card>,
}

impl View for Deck {
    type V = Seq<Card>;

    closed spec fn view(&self) -> Seq<Card> {
        self.deck@
    }
}

impl Deck {
    /// A fresh, unshuffled deck of all 52 cards.
    pub fn new() -> (r: Deck)
        ensures
            r@ == full_deck(),
    {
        let mut deck: Vec<Card> = Vec::new();
        let mut si: usize = 0;
        while si < 4
            invariant
                si <= 4,
                deck@.len() == si * 13,
                forall|m: int| 0 <= m < deck@.len() ==> deck@[m] == full_deck()[m],
            decreases 4 - si,
        {
            let mut vi: usize = 0;
            while vi < 13
                invariant
                    si < 4,
                    vi <= 13,
                    deck@.len() == si * 13 + vi,
                    forall|m: int| 0 <= m < deck@.len() ==> deck@[m] == full_deck()[m],
                decreases 13 - vi,
            {
                let value = Value::from_index(12 - vi);
                let card = Card { suit: Self::build_suit(si), value };
                proof {
                    let k = (si * 13 + vi) as int;
                    lemma_fundamental_div_mod_converse(k, 13, si as int, vi as int);
                    assert(full_deck()[k] == card);
                }
                deck.push(card);
                vi += 1;
            }
            si += 1;
        }
        proof {
            assert(deck@ =~= full_deck());
        }
        Deck { deck }
    }

    /// The suit of the `i`-th 13-card block built by `new`.
    fn build_suit(i: usize) -> (r: Suit)
        requires
            i < 4,
        ensures
            r == deck_suit(i as int),
    {
        match i {
            0 => Suit::Spades,
            1 => Suit::Hearts,
            2 => Suit::Diamonds,
            _ => Suit::Clubs,
        }
    }

    /// Draws the back card; an empty deck signals a caller defect.
    pub fn draw_card(&mut self) -> (r: Result<Card, CardError>)
        ensures
            old(self)@.len() > 0 ==> (r matches Ok(c) && c == old(self)@.last() && final(self)@ == old(
                self,
            )@.drop_last()),
            old(self)@.len() == 0 ==> (r matches Err(e) && e == CardError::EmptyDeck && final(self)@
                == old(self)@),
    {
        match self.deck.pop() {
            Some(c) => Ok(c),
            None => Err(CardError::EmptyDeck),
        }
    }

    /// Draws the two private cards of one seat, back card first.
    pub fn draw_hand(&mut self) -> (r: Result<PlayerHand, CardError>)
        ensures
            old(self)@.len() >= 2 ==> (r matches Ok(h) && h@ == seq![
                old(self)@[old(self)@.len() - 1],
                old(self)@[old(self)@.len() - 2],
            ] && final(self)@ == old(self)@.take(old(self)@.len() - 2)),
            old(self)@.len() < 2 ==> (r matches Err(e) && e == CardError::EmptyDeck && final(self)@.len()
                == 0),
    {
        proof {
            if old(self)@.len() >= 2 {
                assert(old(self)@.drop_last().drop_last() =~= old(self)@.take(
                    old(self)@.len() - 2,
                ));
            }
        }
        let card1 = match self.draw_card() {
            Ok(c) => c,
            Err(e) => {
                return Err(e);
            },
        };
        let card2 = match self.draw_card() {
            Ok(c) => c,
            Err(e) => {
                return Err(e);
            },
        };
        Ok(PlayerHand::new(card1, card2))
    }

    /// Relies on rand's `SliceRandom::shuffle`: an in-place Fisher-Yates pass
    /// over the slice that swaps elements and neither adds, drops nor alters
    /// one, whatever values the generator yields.
    #[verifier::external_body]
    pub fn shuffle(&mut self, rng: &mut rand::rngs::StdRng)
        ensures
            final(self)@.len() == old(self)@.len(),
            forall|c: Card| card_occurs(final(self)@, c) == card_occurs(old(self)@, c),
    {
        rand::seq::SliceRandom::shuffle(self.deck.as_mut_slice(), rng);
    }
}

} // verus!
