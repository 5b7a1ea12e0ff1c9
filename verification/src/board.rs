//! The community board and the best-hand selector: every 5-card subset of a
//! player's private cards plus the board is evaluated and the maximum under
//! the hand comparison is returned.

use vstd::prelude::*;
use core::cmp::Ordering;
use crate::card::{Card, CardError};
use crate::counts::distinct_cards;
use crate::hand::{PokerHand, PlayerHand, valid_hand, hand_cmp, lemma_compare_reflexive,
    lemma_compare_antisymmetric, lemma_compare_transitive};

verus! {

/// `idx` lists strictly increasing positions of `all` at which `sub` reads
/// its entries.
pub open spec fn subseq_indices(idx: Seq<int>, sub: Seq<Card>, all: Seq<Card>) -> bool {
    &&& idx.len() == sub.len()
    &&& forall|m: int| 0 <= m < idx.len() ==> 0 <= #[trigger] idx[m] < all.len()
    &&& forall|m: int| 0 < m < idx.len() ==> idx[m - 1] < #[trigger] idx[m]
    &&& forall|m: int| 0 <= m < idx.len() ==> sub[m] == all[#[trigger] idx[m]]
}

/// `sub` picks its entries from `all` at strictly increasing positions.
pub open spec fn is_subseq_of(sub: Seq<Card>, all: Seq<Card>) -> bool {
    exists|idx: Seq<int>| subseq_indices(idx, sub, all)
}

/// Relies on itertools' `Itertools::combinations(5)`: it yields one `Vec` per
/// way of picking 5 positions of the input iterator, each holding the items
/// at those positions in position order, and yields every such pick.
#[verifier::external_body]
fn combinations5(cards: &Vec<Card>) -> (r: Vec<Vec<Card>>)
    ensures
        forall|j: int|
            0 <= j < r@.len() ==> (#[trigger] r@[j])@.len() == 5 && is_subseq_of(r@[j]@, cards@),
        forall|sub: Seq<Card>|
            sub.len() == 5 && is_subseq_of(sub, cards@) ==> exists|j: int|
                0 <= j < r@.len() && (#[trigger] r@[j])@ == sub,
{
    itertools::Itertools::combinations(cards.iter().copied(), 5).collect()
}

proof fn lemma_indices_strictly_increasing(idx: Seq<int>, j: int, k: int)
    requires
        forall|m: int| 0 < m < idx.len() ==> idx[m - 1] < #[trigger] idx[m],
        0 <= j < k < idx.len(),
    ensures
        idx[j] < idx[k],
    decreases k - j,
{
    if j + 1 < k {
        lemma_indices_strictly_increasing(idx, j, k - 1);
    }
    assert(idx[k - 1] < idx[k]);
}

/// A 5-card subsequence needs at least 5 cards to pick from.
proof fn lemma_subseq_min_len(sub: Seq<Card>, all: Seq<Card>)
    requires
        is_subseq_of(sub, all),
        sub.len() == 5,
    ensures
        all.len() >= 5,
{
    let idx = choose|idx: Seq<int>| subseq_indices(idx, sub, all);
    lemma_indices_strictly_increasing(idx, 0, 1);
    lemma_indices_strictly_increasing(idx, 1, 2);
    lemma_indices_strictly_increasing(idx, 2, 3);
    lemma_indices_strictly_increasing(idx, 3, 4);
}

/// A subsequence of pairwise-distinct cards is itself pairwise distinct.
proof fn lemma_subseq_distinct(sub: Seq<Card>, all: Seq<Card>)
    requires
        is_subseq_of(sub, all),
        distinct_cards(all),
    ensures
        distinct_cards(sub),
{
    let idx = choose|idx: Seq<int>| subseq_indices(idx, sub, all);
    assert forall|j: int, k: int| 0 <= j < k < sub.len() implies sub[j] != sub[k] by {
        lemma_indices_strictly_increasing(idx, j, k);
    }
}

fn copy_cards(v: &Vec<Card>) -> (r: Vec<Card>)
    ensures
        r@ == v@,
{
    let mut r: Vec<Card> = Vec::new();
    let mut i: usize = 0;
    while i < v.len()
        invariant
            i <= v@.len(),
            r@ == v@.take(i as int),
        decreases v@.len() - i,
    {
        r.push(v[i]);
        proof {
            assert(r@ =~= v@.take(i as int + 1));
        }
        i += 1;
    }
    proof {
        assert(v@.take(v@.len() as int) =~= v@);
    }
    r
}

/// The ordered, append-only sequence of community cards: created empty at
/// hand start and grown to at most 5 cards.
#[derive(Debug)]
pub struct Board {
    cards: Vec<Card>,
}

impl View for Board {
    type V = Seq<Card>;

    closed spec fn view(&self) -> Seq<Card> {
        self.cards@
    }
}

impl Board {
    pub fn new() -> (r: Board)
        ensures
            r@ == Seq::<Card>::empty(),
    {
        Board { cards: Vec::new() }
    }

    /// Appends one community card; a sixth card is refused.
    pub fn add_card(&mut self, card: Card) -> (r: Result<(), CardError>)
        ensures
            old(self)@.len() < 5 ==> (r matches Ok(u) && final(self)@ == old(self)@.push(card)),
            old(self)@.len() >= 5 ==> (r matches Err(e) && e == CardError::BoardOverflow && final(self)@
                == old(self)@),
    {
        if self.cards.len() >= 5 {
            return Err(CardError::BoardOverflow);
        }
        self.cards.push(card);
        Ok(())
    }

    pub fn card_count(&self) -> (r: usize)
        ensures
            r == self@.len(),
    {
        self.cards.len()
    }

    pub fn cards(&self) -> (r: &Vec<Card>)
        ensures
            r@ == self@,
    {
        &self.cards
    }

    /// Evaluates every 5-card subset of the player's two private cards plus
    /// the board and returns a maximum under the hand comparison: the result
    /// is one of the subsets, and no subset ranks above it. Fewer than 5
    /// available cards are an evaluator-misuse error; the cards, being dealt
    /// from one deck, must be distinct.
    pub fn best_poker_hand(&self, player_hand: &PlayerHand) -> (r: Result<PokerHand, CardError>)
        requires
            distinct_cards(player_hand@ + self@),
        ensures
            player_hand@.len() + self@.len() >= 5 ==> (r matches Ok(h) && valid_hand(h@)
                && is_subseq_of(h@, player_hand@ + self@) && (forall|sub: Seq<Card>|
                sub.len() == 5 && is_subseq_of(sub, player_hand@ + self@) ==> hand_cmp(sub, h@)
                    != Ordering::Greater)),
            player_hand@.len() + self@.len() < 5 ==> (r matches Err(e) && e
                == CardError::InvalidPokerHandCardCount),
    {
        let ghost all_cards = player_hand@ + self@;
        let mut all: Vec<Card> = Vec::new();
        let ph = player_hand.cards();
        let mut i: usize = 0;
        while i < ph.len()
            invariant
                i <= ph@.len(),
                all@ == ph@.take(i as int),
            decreases ph@.len() - i,
        {
            all.push(ph[i]);
            proof {
                assert(all@ =~= ph@.take(i as int + 1));
            }
            i += 1;
        }
        let bd = self.cards();
        let mut j: usize = 0;
        while j < bd.len()
            invariant
                j <= bd@.len(),
                all@ == ph@ + bd@.take(j as int),
            decreases bd@.len() - j,
        {
            proof {
                assert(ph@.take(ph@.len() as int) =~= ph@);
            }
            all.push(bd[j]);
            proof {
                assert(all@ =~= ph@ + bd@.take(j as int + 1));
            }
            j += 1;
        }
        proof {
            assert(ph@.take(ph@.len() as int) =~= ph@);
            assert(bd@.take(bd@.len() as int) =~= bd@);
            assert(all@ =~= all_cards);
        }
        let combos = combinations5(&all);
        proof {
            if all_cards.len() >= 5 {
                let first5 = all_cards.take(5);
                let positions = Seq::new(5, |m: int| m);
                assert(subseq_indices(positions, first5, all_cards));
                assert(is_subseq_of(first5, all_cards));
                assert(combos@.len() > 0);
            }
        }
        let mut best: Option<PokerHand> = None;
        let mut ci: usize = 0;
        while ci < combos.len()
            invariant
                all@ == all_cards,
                distinct_cards(all_cards),
                ci <= combos@.len(),
                forall|j: int|
                    0 <= j < combos@.len() ==> (#[trigger] combos@[j])@.len() == 5 && is_subseq_of(
                        combos@[j]@,
                        all_cards,
                    ),
                best matches Some(b) ==> valid_hand(b@) && is_subseq_of(b@, all_cards) && (
                forall|j: int|
                    0 <= j < ci ==> hand_cmp((#[trigger] combos@[j])@, b@) != Ordering::Greater),
                best is None ==> ci == 0,
            decreases combos@.len() - ci,
        {
            let cs = copy_cards(&combos[ci]);
            proof {
                lemma_subseq_distinct(cs@, all_cards);
            }
            let hand = match PokerHand::new(cs) {
                Ok(h) => h,
                Err(e) => {
                    return Err(e);
                },
            };
            let take_new = match &best {
                None => true,
                Some(b) => matches!(b.compare(&hand), Ordering::Less),
            };
            proof {
                match &best {
                    Some(b) => {
                        lemma_compare_antisymmetric(b@, hand@);
                        if hand_cmp(b@, hand@) == Ordering::Less {
                            assert forall|j: int| 0 <= j < ci + 1 implies hand_cmp(
                                (#[trigger] combos@[j])@,
                                hand@,
                            ) != Ordering::Greater by {
                                if j < ci {
                                    lemma_compare_transitive(combos@[j]@, b@, hand@);
                                } else {
                                    lemma_compare_reflexive(hand@);
                                }
                            }
                        }
                    },
                    None => {
                        lemma_compare_reflexive(hand@);
                    },
                }
            }
            if take_new {
                best = Some(hand);
            }
            ci += 1;
        }
        match best {
            Some(b) => {
                proof {
                    lemma_subseq_min_len(b@, all_cards);
                    assert forall|sub: Seq<Card>|
                        sub.len() == 5 && is_subseq_of(sub, all_cards) implies hand_cmp(sub, b@)
                        != Ordering::Greater by {
                        let j = choose|j: int|
                            0 <= j < combos@.len() && (#[trigger] combos@[j])@ == sub;
                        assert(hand_cmp(combos@[j]@, b@) != Ordering::Greater);
                    };
                }
                Ok(b)
            },
            None => {
                proof {
                    assert(combos@.len() == 0);
                    assert(all_cards.len() < 5);
                }
                Err(CardError::InvalidPokerHandCardCount)
            },
        }
    }
}

/// Re-evaluating the same cards always yields an equally-ranked hand: any
/// two hands admitted by the best-hand contract for one card set compare as
/// Equal (their exact cards may differ only on true ties).
pub proof fn lemma_best_hand_unique(all: Seq<Card>, h1: Seq<Card>, h2: Seq<Card>)
    requires
        h1.len() == 5,
        is_subseq_of(h1, all),
        h2.len() == 5,
        is_subseq_of(h2, all),
        forall|sub: Seq<Card>|
            sub.len() == 5 && is_subseq_of(sub, all) ==> hand_cmp(sub, h1) != Ordering::Greater,
        forall|sub: Seq<Card>|
            sub.len() == 5 && is_subseq_of(sub, all) ==> hand_cmp(sub, h2) != Ordering::Greater,
    ensures
        hand_cmp(h1, h2) == Ordering::Equal,
{
    assert(hand_cmp(h1, h2) != Ordering::Greater);
    assert(hand_cmp(h2, h1) != Ordering::Greater);
    lemma_compare_antisymmetric(h1, h2);
}

} // verus!
