//! The 5-card hand classifier: category membership tests, the best matching
//! category, the tie-break kicker sequence, and the total comparison between
//! two hands built from them.

use vstd::prelude::*;
use crate::card::{Card, CardError, Value, value_index, value_rank, value_of_index,
    suit_ordinal, suit_of_ordinal, lemma_value_index_range, lemma_value_index_bijective,
    lemma_suit_ordinal_range, lemma_suit_ordinal_bijective};
use crate::counts::{value_count, suit_count, pair_bins_from, distinct_cards,
    lemma_value_count_le_len, lemma_value_count_two_witnesses, lemma_value_count_all,
    lemma_suit_count_le_len, lemma_suit_count_all, lemma_value_count_max4,
    sum_counts_from, ones_from, multi_from, lemma_sum_counts_total, lemma_sum_split,
    lemma_multi_none, lemma_multi_only_one, lemma_multi_only_two, lemma_multi_lower_one,
    lemma_multi_lower_two, lemma_multi_lower_three, lemma_ones_segment, lemma_ones_mono,
    lemma_pair_bins_witness, lemma_pair_bins_two_witnesses, lemma_pair_bins_only_two};

verus! {

/// The nine hand categories, strongest first.
#[derive(Clone, Copy, Debug, PartialEq, Eq, Structural)]
pub enum HandType {
    StraightFlush,
    FourOfAKind,
    FullHouse,
    Flush,
    Straight,
    ThreeOfAKind,
    DoublePair,
    Pair,
    HighCard,
}

/// Strength scalar of a category: HighCard is 0 up to StraightFlush at 8.
pub open spec fn strength_spec(t: HandType) -> int {
    match t {
        HandType::StraightFlush => 8,
        HandType::FourOfAKind => 7,
        HandType::FullHouse => 6,
        HandType::Flush => 5,
        HandType::Straight => 4,
        HandType::ThreeOfAKind => 3,
        HandType::DoublePair => 2,
        HandType::Pair => 1,
        HandType::HighCard => 0,
    }
}

/// Inverse of `strength_spec`.
pub open spec fn type_of_strength(s: int) -> HandType {
    if s == 8 {
        HandType::StraightFlush
    } else if s == 7 {
        HandType::FourOfAKind
    } else if s == 6 {
        HandType::FullHouse
    } else if s == 5 {
        HandType::Flush
    } else if s == 4 {
        HandType::Straight
    } else if s == 3 {
        HandType::ThreeOfAKind
    } else if s == 2 {
        HandType::DoublePair
    } else if s == 1 {
        HandType::Pair
    } else {
        HandType::HighCard
    }
}

impl HandType {
    /// Strength scalar used to order categories.
    pub fn strength(&self) -> (r: usize)
        ensures
            r == strength_spec(*self),
    {
        match self {
            HandType::StraightFlush => 8,
            HandType::FourOfAKind => 7,
            HandType::FullHouse => 6,
            HandType::Flush => 5,
            HandType::Straight => 4,
            HandType::ThreeOfAKind => 3,
            HandType::DoublePair => 2,
            HandType::Pair => 1,
            HandType::HighCard => 0,
        }
    }

    /// The category with the given strength scalar. A strength above 8 is a
    /// caller defect and is excluded outright.
    pub fn from_strength(strength: usize) -> (r: HandType)
        requires
            strength <= 8,
        ensures
            r == type_of_strength(strength as int),
    {
        match strength {
            8 => HandType::StraightFlush,
            7 => HandType::FourOfAKind,
            6 => HandType::FullHouse,
            5 => HandType::Flush,
            4 => HandType::Straight,
            3 => HandType::ThreeOfAKind,
            2 => HandType::DoublePair,
            1 => HandType::Pair,
            _ => HandType::HighCard,
        }
    }
}

/// The two private cards dealt to a seat.
#[derive(Clone, Debug)]
pub struct PlayerHand {
    cards: Vec<Card>,
}

impl View for PlayerHand {
    type V = Seq<Card>;

    closed spec fn view(&self) -> Seq<Card> {
        self.cards@
    }
}

impl PlayerHand {
    pub fn new(first: Card, second: Card) -> (r: PlayerHand)
        ensures
            r@ == seq![first, second],
    {
        let mut cards: Vec<Card> = Vec::new();
        cards.push(first);
        cards.push(second);
        proof {
            assert(cards@ =~= seq![first, second]);
        }
        PlayerHand { cards }
    }

    pub fn cards(&self) -> (r: &Vec<Card>)
        ensures
            r@ == self@,
    {
        &self.cards
    }
}

/// A hand of exactly 5 cards, the unit the classifier ranks.
#[derive(Clone, Debug)]
pub struct PokerHand {
    cards: Vec<Card>,
}

impl View for PokerHand {
    type V = Seq<Card>;

    closed spec fn view(&self) -> Seq<Card> {
        self.cards@
    }
}

/// A 5-card hand drawn from one deck: exactly five pairwise-distinct cards.
/// The classifier's tie-break ordering is total exactly on such hands.
pub open spec fn valid_hand(cards: Seq<Card>) -> bool {
    cards.len() == 5 && distinct_cards(cards)
}

// ---------------------------------------------------------------------------
// Category membership
// ---------------------------------------------------------------------------

/// Some value bin holds at least `n` cards.
pub open spec fn has_value_bin_at_least(cards: Seq<Card>, n: nat) -> bool {
    exists|i: int| 0 <= i < 13 && value_count(cards, i) >= n
}

/// Some value bin holds exactly `n` cards.
pub open spec fn has_value_bin_exactly(cards: Seq<Card>, n: nat) -> bool {
    exists|i: int| 0 <= i < 13 && value_count(cards, i) == n
}

/// All five cards share one suit.
pub open spec fn is_flush(cards: Seq<Card>) -> bool {
    exists|s: int| 0 <= s < 4 && suit_count(cards, s) == 5
}

/// The five value bins starting at ordinal `w` each hold exactly one card:
/// five distinct consecutive ranks.
pub open spec fn straight_window_at(cards: Seq<Card>, w: int) -> bool {
    forall|k: int| w <= k < w + 5 ==> value_count(cards, k) == 1
}

/// The wheel: Ace playing low against Two through Five.
pub open spec fn is_wheel(cards: Seq<Card>) -> bool {
    value_count(cards, 12) == 1 && (forall|k: int| 0 <= k < 4 ==> value_count(cards, k) == 1)
}

/// Five distinct consecutive ranks, with the Ace allowed to play low (the
/// wheel) or high.
pub open spec fn is_straight(cards: Seq<Card>) -> bool {
    is_wheel(cards) || exists|w: int| 0 <= w <= 8 && straight_window_at(cards, w)
}

/// The structural test for one category over five cards, independent of the
/// other categories except StraightFlush, which is Flush and Straight over
/// the same five cards.
pub open spec fn contains_type_spec(cards: Seq<Card>, t: HandType) -> bool {
    match t {
        HandType::StraightFlush => is_flush(cards) && is_straight(cards),
        HandType::FourOfAKind => has_value_bin_at_least(cards, 4),
        HandType::FullHouse => has_value_bin_exactly(cards, 3) && has_value_bin_exactly(cards, 2),
        HandType::Flush => is_flush(cards),
        HandType::Straight => is_straight(cards),
        HandType::ThreeOfAKind => has_value_bin_at_least(cards, 3),
        HandType::DoublePair => pair_bins_from(cards, 0) == 2,
        HandType::Pair => has_value_bin_at_least(cards, 2),
        HandType::HighCard => true,
    }
}

/// The strongest category at or below strength `s` that the hand contains
/// (HighCard, at 0, always matches).
pub open spec fn best_strength_from(cards: Seq<Card>, s: int) -> int
    decreases s,
{
    if s <= 0 {
        0
    } else if contains_type_spec(cards, type_of_strength(s)) {
        s
    } else {
        best_strength_from(cards, s - 1)
    }
}

/// The strength of the strongest category the hand contains.
pub open spec fn best_strength_of(cards: Seq<Card>) -> int {
    best_strength_from(cards, 8)
}

/// The strongest category the hand contains.
pub open spec fn best_type_spec(cards: Seq<Card>) -> HandType {
    type_of_strength(best_strength_of(cards))
}

/// Occupancy counts of the 13 value bins.
fn value_bins(cards: &Vec<Card>) -> (bins: Vec<usize>)
    ensures
        bins@.len() == 13,
        forall|i: int| 0 <= i < 13 ==> bins@[i] == value_count(cards@, i),
{
    let mut bins: Vec<usize> = Vec::new();
    let mut k: usize = 0;
    while k < 13
        invariant
            bins@.len() == k <= 13,
            forall|i: int| 0 <= i < k ==> bins@[i] == 0,
        decreases 13 - k,
    {
        bins.push(0);
        k += 1;
    }
    let mut j: usize = 0;
    while j < cards.len()
        invariant
            bins@.len() == 13,
            j <= cards@.len(),
            forall|i: int| 0 <= i < 13 ==> bins@[i] == value_count(cards@.take(j as int), i),
        decreases cards@.len() - j,
    {
        let idx = cards[j].value.index();
        proof {
            lemma_value_index_range(cards@[j as int].value);
            assert(cards@.take(j as int + 1).drop_last() =~= cards@.take(j as int));
            assert(cards@.take(j as int + 1).last() == cards@[j as int]);
            lemma_value_count_le_len(cards@.take(j as int), idx as int);
        }
        let b = bins[idx];
        bins[idx] = b + 1;
        j += 1;
    }
    proof {
        assert(cards@.take(cards@.len() as int) =~= cards@);
    }
    bins
}

/// Occupancy counts of the 4 suit bins.
fn suit_bins(cards: &Vec<Card>) -> (bins: Vec<usize>)
    ensures
        bins@.len() == 4,
        forall|i: int| 0 <= i < 4 ==> bins@[i] == suit_count(cards@, i),
{
    let mut bins: Vec<usize> = Vec::new();
    let mut k: usize = 0;
    while k < 4
        invariant
            bins@.len() == k <= 4,
            forall|i: int| 0 <= i < k ==> bins@[i] == 0,
        decreases 4 - k,
    {
        bins.push(0);
        k += 1;
    }
    let mut j: usize = 0;
    while j < cards.len()
        invariant
            bins@.len() == 4,
            j <= cards@.len(),
            forall|i: int| 0 <= i < 4 ==> bins@[i] == suit_count(cards@.take(j as int), i),
        decreases cards@.len() - j,
    {
        let idx = cards[j].suit.index();
        proof {
            lemma_suit_ordinal_range(cards@[j as int].suit);
            assert(cards@.take(j as int + 1).drop_last() =~= cards@.take(j as int));
            assert(cards@.take(j as int + 1).last() == cards@[j as int]);
            lemma_suit_count_le_len(cards@.take(j as int), idx as int);
        }
        let b = bins[idx];
        bins[idx] = b + 1;
        j += 1;
    }
    proof {
        assert(cards@.take(cards@.len() as int) =~= cards@);
    }
    bins
}

impl PokerHand {
    /// Builds a 5-card hand. Any other card count signals evaluator misuse.
    pub fn new(cards: Vec<Card>) -> (r: Result<PokerHand, CardError>)
        ensures
            cards@.len() == 5 ==> (r matches Ok(h) && h@ == cards@),
            cards@.len() != 5 ==> (r matches Err(e) && e == CardError::InvalidPokerHandCardCount),
    {
        if cards.len() == 5 {
            Ok(PokerHand { cards })
        } else {
            Err(CardError::InvalidPokerHandCardCount)
        }
    }

    /// The five cards of the hand.
    pub fn cards(&self) -> (r: &Vec<Card>)
        ensures
            r@ == self@,
    {
        &self.cards
    }

    /// Structural test: does this hand contain the given category?
    pub fn contains_hand(&self, hand_type: HandType) -> (r: bool)
        ensures
            r == contains_type_spec(self@, hand_type),
        decreases strength_spec(hand_type),
    {
        match hand_type {
            HandType::StraightFlush => {
                self.contains_hand(HandType::Flush) && self.contains_hand(HandType::Straight)
            },
            HandType::FourOfAKind => self.has_bin_at_least(4),
            HandType::FullHouse => {
                let bins = value_bins(&self.cards);
                let has3 = Self::has_exact_bin(&bins, 3, Ghost(self@));
                let has2 = Self::has_exact_bin(&bins, 2, Ghost(self@));
                has3 && has2
            },
            HandType::Flush => {
                let bins = suit_bins(&self.cards);
                let mut s: usize = 0;
                while s < 4
                    invariant
                        hand_type == HandType::Flush,
                        bins@.len() == 4,
                        s <= 4,
                        forall|i: int| 0 <= i < 4 ==> bins@[i] == suit_count(self@, i),
                        forall|i: int| 0 <= i < s ==> suit_count(self@, i) != 5,
                    decreases 4 - s,
                {
                    if bins[s] == 5 {
                        proof {
                            assert(suit_count(self@, s as int) == 5);
                            assert(is_flush(self@));
                        }
                        return true;
                    }
                    s += 1;
                }
                false
            },
            HandType::Straight => {
                let bins = value_bins(&self.cards);
                if bins[12] == 1 && bins[0] == 1 && bins[1] == 1 && bins[2] == 1 && bins[3] == 1 {
                    proof {
                        assert forall|k: int| 0 <= k < 4 implies value_count(self@, k) == 1 by {
                            assert(bins@[k] == value_count(self@, k));
                        }
                        assert(is_wheel(self@));
                    }
                    return true;
                }
                let mut w: usize = 0;
                while w < 9
                    invariant
                        hand_type == HandType::Straight,
                        bins@.len() == 13,
                        w <= 9,
                        forall|i: int| 0 <= i < 13 ==> bins@[i] == value_count(self@, i),
                        forall|v: int| 0 <= v < w ==> !straight_window_at(self@, v),
                    decreases 9 - w,
                {
                    if bins[w] == 1 && bins[w + 1] == 1 && bins[w + 2] == 1 && bins[w + 3] == 1
                        && bins[w + 4] == 1 {
                        proof {
                            assert forall|k: int| w <= k < w + 5 implies value_count(self@, k)
                                == 1 by {
                                assert(bins@[k] == value_count(self@, k));
                            }
                            assert(straight_window_at(self@, w as int));
                            assert(is_straight(self@));
                        }
                        return true;
                    }
                    proof {
                        assert(!straight_window_at(self@, w as int));
                    }
                    w += 1;
                }
                proof {
                    if !is_wheel(self@) && is_straight(self@) {
                        let v = choose|v: int| 0 <= v <= 8 && straight_window_at(self@, v);
                        assert(!straight_window_at(self@, v));
                    }
                }
                false
            },
            HandType::ThreeOfAKind => self.has_bin_at_least(3),
            HandType::DoublePair => {
                let bins = value_bins(&self.cards);
                let mut n: usize = 0;
                let mut i: usize = 0;
                while i < 13
                    invariant
                        bins@.len() == 13,
                        i <= 13,
                        n <= i,
                        forall|k: int| 0 <= k < 13 ==> bins@[k] == value_count(self@, k),
                        n + pair_bins_from(self@, i as int) == pair_bins_from(self@, 0),
                    decreases 13 - i,
                {
                    if bins[i] >= 2 {
                        n += 1;
                    }
                    i += 1;
                }
                n == 2
            },
            HandType::Pair => self.has_bin_at_least(2),
            HandType::HighCard => true,
        }
    }

    /// Scan for a value bin holding at least `n` cards.
    fn has_bin_at_least(&self, n: usize) -> (r: bool)
        ensures
            r == has_value_bin_at_least(self@, n as nat),
    {
        let bins = value_bins(&self.cards);
        let mut i: usize = 0;
        while i < 13
            invariant
                bins@.len() == 13,
                i <= 13,
                forall|k: int| 0 <= k < 13 ==> bins@[k] == value_count(self@, k),
                forall|k: int| 0 <= k < i ==> value_count(self@, k) < n,
            decreases 13 - i,
        {
            if bins[i] >= n {
                return true;
            }
            i += 1;
        }
        false
    }

    /// Scan for a value bin holding exactly `n` cards.
    fn has_exact_bin(bins: &Vec<usize>, n: usize, cards: Ghost<Seq<Card>>) -> (r: bool)
        requires
            bins@.len() == 13,
            forall|k: int| 0 <= k < 13 ==> bins@[k] == value_count(cards@, k),
        ensures
            r == has_value_bin_exactly(cards@, n as nat),
    {
        let mut i: usize = 0;
        while i < 13
            invariant
                bins@.len() == 13,
                i <= 13,
                forall|k: int| 0 <= k < 13 ==> bins@[k] == value_count(cards@, k),
                forall|k: int| 0 <= k < i ==> value_count(cards@, k) != n,
            decreases 13 - i,
        {
            if bins[i] == n {
                proof {
                    assert(value_count(cards@, i as int) == n as nat);
                    assert(has_value_bin_exactly(cards@, n as nat));
                }
                return true;
            }
            i += 1;
        }
        false
    }

    /// The strongest category this hand contains, found by scanning the
    /// strength scale downward; HighCard always matches, so the scan ends.
    pub fn best_hand_type(&self) -> (r: HandType)
        ensures
            r == best_type_spec(self@),
    {
        let mut s: usize = 8;
        loop
            invariant
                s <= 8,
                best_strength_from(self@, 8) == best_strength_from(self@, s as int),
            decreases s,
        {
            let hand_type = HandType::from_strength(s);
            if self.contains_hand(hand_type.clone()) {
                return hand_type;
            }
            s -= 1;
        }
    }
}

} // verus!

verus! {

use core::cmp::Ordering;

// ---------------------------------------------------------------------------
// Tie-break kicker sequence
// ---------------------------------------------------------------------------

/// The lowest value ordinal at or above `i` whose bin holds exactly `c`
/// cards, or 13 when there is none.
pub open spec fn first_with(cards: Seq<Card>, c: nat, i: int) -> int
    decreases 13 - i,
{
    if i >= 13 {
        13
    } else if value_count(cards, i) == c {
        i
    } else {
        first_with(cards, c, i + 1)
    }
}

/// The highest value ordinal at or below `i` whose bin holds exactly `c`
/// cards, or -1 when there is none.
pub open spec fn last_with(cards: Seq<Card>, c: nat, i: int) -> int
    decreases i + 1,
{
    if i < 0 {
        -1
    } else if value_count(cards, i) == c {
        i
    } else {
        last_with(cards, c, i - 1)
    }
}

/// The values whose bins hold exactly one card, highest rank first,
/// considering ordinals from 12 down to `i`.
pub open spec fn singles_above(cards: Seq<Card>, i: int) -> Seq<Value>
    decreases 13 - i,
{
    if i >= 13 {
        Seq::empty()
    } else {
        singles_above(cards, i + 1) + if value_count(cards, i) == 1 {
            seq![value_of_index(i)]
        } else {
            Seq::empty()
        }
    }
}

/// `n` copies of one value.
pub open spec fn repeat_value(v: Value, n: nat) -> Seq<Value> {
    Seq::new(n, |k: int| v)
}

/// The tie-break kicker sequence for a hand under the given category: the
/// repeated-value block(s) first in descending significance, then the
/// remaining singleton values in descending rank.
pub open spec fn ordering_spec(cards: Seq<Card>, t: HandType) -> Seq<Value> {
    match t {
        HandType::FourOfAKind => repeat_value(value_of_index(first_with(cards, 4, 0)), 4)
            + singles_above(cards, 0),
        HandType::FullHouse => repeat_value(value_of_index(first_with(cards, 3, 0)), 3)
            + repeat_value(value_of_index(first_with(cards, 2, 0)), 2),
        HandType::ThreeOfAKind => repeat_value(value_of_index(first_with(cards, 3, 0)), 3)
            + singles_above(cards, 0),
        HandType::DoublePair => repeat_value(value_of_index(last_with(cards, 2, 12)), 2)
            + repeat_value(value_of_index(first_with(cards, 2, 0)), 2) + singles_above(cards, 0),
        HandType::Pair => repeat_value(value_of_index(first_with(cards, 2, 0)), 2) + singles_above(
            cards,
            0,
        ),
        HandType::StraightFlush | HandType::Straight => if is_wheel(cards) {
            wheel_kickers()
        } else {
            singles_above(cards, 0)
        },
        _ => singles_above(cards, 0),
    }
}

/// The tie-break sequence of the wheel: the Ace plays low, so the wheel
/// ranks below every other straight (its high card is the Five).
pub open spec fn wheel_kickers() -> Seq<Value> {
    seq![Value::Five, Value::Four, Value::Three, Value::Two, Value::Ace]
}

/// No value bin holds more than one card.
pub open spec fn all_singles(cards: Seq<Card>) -> bool {
    forall|i: int| 0 <= i < 13 ==> value_count(cards, i) <= 1
}

/// The bin profile a category needs for its kicker sequence to come out at
/// exactly five values. The best category of any valid 5-card hand has this
/// profile (`lemma_best_shape`).
pub open spec fn shape_ok(cards: Seq<Card>, t: HandType) -> bool {
    match t {
        HandType::FourOfAKind => exists|q: int|
            0 <= q < 13 && value_count(cards, q) == 4 && (forall|k: int|
                0 <= k < 13 && k != q ==> value_count(cards, k) <= 1),
        HandType::FullHouse => exists|p: int, q: int|
            0 <= p < 13 && 0 <= q < 13 && p != q && value_count(cards, p) == 3 && value_count(
                cards,
                q,
            ) == 2 && (forall|k: int|
                0 <= k < 13 && k != p && k != q ==> value_count(cards, k) <= 1),
        HandType::ThreeOfAKind => exists|q: int|
            0 <= q < 13 && value_count(cards, q) == 3 && (forall|k: int|
                0 <= k < 13 && k != q ==> value_count(cards, k) <= 1),
        HandType::DoublePair => exists|p: int, q: int|
            0 <= p < q < 13 && value_count(cards, p) == 2 && value_count(cards, q) == 2 && (
            forall|k: int| 0 <= k < 13 && k != p && k != q ==> value_count(cards, k) <= 1),
        HandType::Pair => exists|q: int|
            0 <= q < 13 && value_count(cards, q) == 2 && (forall|k: int|
                0 <= k < 13 && k != q ==> value_count(cards, k) <= 1),
        _ => all_singles(cards),
    }
}

/// The kicker sequence holds one value per singleton bin.
proof fn lemma_singles_len(cards: Seq<Card>, i: int)
    ensures
        singles_above(cards, i).len() == ones_from(cards, i),
    decreases 13 - i,
{
    if i < 13 {
        lemma_singles_len(cards, i + 1);
    }
}

/// Under the right shape, the kicker sequence has exactly five entries.
proof fn lemma_ordering_len(cards: Seq<Card>, t: HandType)
    requires
        cards.len() == 5,
        shape_ok(cards, t),
    ensures
        ordering_spec(cards, t).len() == 5,
{
    lemma_sum_counts_total(cards);
    lemma_sum_split(cards, 0);
    lemma_singles_len(cards, 0);
    match t {
        HandType::StraightFlush | HandType::Straight => {
            if !is_wheel(cards) {
                lemma_multi_none(cards, 0);
            }
        },
        HandType::FourOfAKind => {
            let q = choose|q: int|
                0 <= q < 13 && value_count(cards, q) == 4 && (forall|k: int|
                    0 <= k < 13 && k != q ==> value_count(cards, k) <= 1);
            lemma_multi_only_one(cards, 0, q);
        },
        HandType::FullHouse => {
            let (p, q) = choose|p: int, q: int|
                0 <= p < 13 && 0 <= q < 13 && p != q && value_count(cards, p) == 3 && value_count(
                    cards,
                    q,
                ) == 2 && (forall|k: int|
                    0 <= k < 13 && k != p && k != q ==> value_count(cards, k) <= 1);
            if p < q {
                lemma_multi_only_two(cards, 0, p, q);
            } else {
                lemma_multi_only_two(cards, 0, q, p);
            }
        },
        HandType::ThreeOfAKind => {
            let q = choose|q: int|
                0 <= q < 13 && value_count(cards, q) == 3 && (forall|k: int|
                    0 <= k < 13 && k != q ==> value_count(cards, k) <= 1);
            lemma_multi_only_one(cards, 0, q);
        },
        HandType::DoublePair => {
            let (p, q) = choose|p: int, q: int|
                0 <= p < q < 13 && value_count(cards, p) == 2 && value_count(cards, q) == 2 && (
                forall|k: int| 0 <= k < 13 && k != p && k != q ==> value_count(cards, k) <= 1);
            lemma_multi_only_two(cards, 0, p, q);
        },
        HandType::Pair => {
            let q = choose|q: int|
                0 <= q < 13 && value_count(cards, q) == 2 && (forall|k: int|
                    0 <= k < 13 && k != q ==> value_count(cards, k) <= 1);
            lemma_multi_only_one(cards, 0, q);
        },
        _ => {
            lemma_multi_none(cards, 0);
        },
    }
}

/// Finds the first value bin holding exactly `c` cards.
fn find_first_bin(bins: &Vec<usize>, c: usize, cards: Ghost<Seq<Card>>) -> (r: usize)
    requires
        bins@.len() == 13,
        forall|k: int| 0 <= k < 13 ==> bins@[k] == value_count(cards@, k),
        exists|i: int| 0 <= i < 13 && value_count(cards@, i) == c as nat,
    ensures
        r < 13,
        r as int == first_with(cards@, c as nat, 0),
        value_count(cards@, r as int) == c as nat,
{
    let mut i: usize = 0;
    while i < 13
        invariant
            bins@.len() == 13,
            i <= 13,
            forall|k: int| 0 <= k < 13 ==> bins@[k] == value_count(cards@, k),
            first_with(cards@, c as nat, 0) == first_with(cards@, c as nat, i as int),
            forall|k: int| 0 <= k < i ==> value_count(cards@, k) != c as nat,
        decreases 13 - i,
    {
        if bins[i] == c {
            return i;
        }
        i += 1;
    }
    proof {
        let w = choose|w: int| 0 <= w < 13 && value_count(cards@, w) == c as nat;
        assert(false);
    }
    0
}

/// Finds the last value bin holding exactly `c` cards.
fn find_last_bin(bins: &Vec<usize>, c: usize, cards: Ghost<Seq<Card>>) -> (r: usize)
    requires
        bins@.len() == 13,
        forall|k: int| 0 <= k < 13 ==> bins@[k] == value_count(cards@, k),
        exists|i: int| 0 <= i < 13 && value_count(cards@, i) == c as nat,
    ensures
        r < 13,
        r as int == last_with(cards@, c as nat, 12),
        value_count(cards@, r as int) == c as nat,
{
    let mut i: usize = 13;
    while i > 0
        invariant
            bins@.len() == 13,
            i <= 13,
            forall|k: int| 0 <= k < 13 ==> bins@[k] == value_count(cards@, k),
            last_with(cards@, c as nat, 12) == last_with(cards@, c as nat, i as int - 1),
            forall|k: int| i <= k < 13 ==> value_count(cards@, k) != c as nat,
        decreases i,
    {
        i -= 1;
        if bins[i] == c {
            return i;
        }
    }
    proof {
        let w = choose|w: int| 0 <= w < 13 && value_count(cards@, w) == c as nat;
        assert(false);
    }
    0
}

impl PokerHand {
    /// Appends the singleton-bin values in descending rank after the block of
    /// repeated values that defines the category.
    fn order_remaining_hand(hand_start: Vec<Value>, bins: &Vec<usize>, cards: Ghost<Seq<Card>>)
        -> (r: Vec<Value>)
        requires
            bins@.len() == 13,
            forall|k: int| 0 <= k < 13 ==> bins@[k] == value_count(cards@, k),
        ensures
            r@ == hand_start@ + singles_above(cards@, 0),
    {
        let ghost start = hand_start@;
        let mut r = hand_start;
        proof {
            assert(r@ =~= start + singles_above(cards@, 13));
        }
        let mut i: usize = 13;
        while i > 0
            invariant
                bins@.len() == 13,
                i <= 13,
                forall|k: int| 0 <= k < 13 ==> bins@[k] == value_count(cards@, k),
                r@ == start + singles_above(cards@, i as int),
            decreases i,
        {
            i -= 1;
            if bins[i] == 1 {
                r.push(Value::from_index(i));
                proof {
                    assert(r@ =~= start + singles_above(cards@, i as int));
                }
            }
        }
        r
    }

    /// The tie-break kicker sequence of this hand for the given category:
    /// five values, most significant first, compared lexicographically
    /// between two hands of the same category.
    pub fn get_hand_ordering(&self, hand_type: HandType) -> (r: Vec<Value>)
        requires
            self@.len() == 5,
            shape_ok(self@, hand_type),
        ensures
            r@ == ordering_spec(self@, hand_type),
            r@.len() == 5,
    {
        proof {
            lemma_ordering_len(self@, hand_type);
        }
        let bins = value_bins(&self.cards);
        match hand_type {
            HandType::FourOfAKind => {
                let q = find_first_bin(&bins, 4, Ghost(self@));
                let v = Value::from_index(q);
                let mut start: Vec<Value> = Vec::new();
                start.push(v);
                start.push(v);
                start.push(v);
                start.push(v);
                proof {
                    assert(start@ =~= repeat_value(v, 4));
                }
                Self::order_remaining_hand(start, &bins, Ghost(self@))
            },
            HandType::FullHouse => {
                let t3 = find_first_bin(&bins, 3, Ghost(self@));
                let t2 = find_first_bin(&bins, 2, Ghost(self@));
                let v3 = Value::from_index(t3);
                let v2 = Value::from_index(t2);
                let mut r: Vec<Value> = Vec::new();
                r.push(v3);
                r.push(v3);
                r.push(v3);
                r.push(v2);
                r.push(v2);
                proof {
                    assert(r@ =~= repeat_value(v3, 3) + repeat_value(v2, 2));
                }
                r
            },
            HandType::ThreeOfAKind => {
                let q = find_first_bin(&bins, 3, Ghost(self@));
                let v = Value::from_index(q);
                let mut start: Vec<Value> = Vec::new();
                start.push(v);
                start.push(v);
                start.push(v);
                proof {
                    assert(start@ =~= repeat_value(v, 3));
                }
                Self::order_remaining_hand(start, &bins, Ghost(self@))
            },
            HandType::DoublePair => {
                let hi = find_last_bin(&bins, 2, Ghost(self@));
                let lo = find_first_bin(&bins, 2, Ghost(self@));
                let vh = Value::from_index(hi);
                let vl = Value::from_index(lo);
                let mut start: Vec<Value> = Vec::new();
                start.push(vh);
                start.push(vh);
                start.push(vl);
                start.push(vl);
                proof {
                    assert(start@ =~= repeat_value(vh, 2) + repeat_value(vl, 2));
                }
                Self::order_remaining_hand(start, &bins, Ghost(self@))
            },
            HandType::Pair => {
                let q = find_first_bin(&bins, 2, Ghost(self@));
                let v = Value::from_index(q);
                let mut start: Vec<Value> = Vec::new();
                start.push(v);
                start.push(v);
                proof {
                    assert(start@ =~= repeat_value(v, 2));
                }
                Self::order_remaining_hand(start, &bins, Ghost(self@))
            },
            HandType::StraightFlush | HandType::Straight => {
                if bins[12] == 1 && bins[0] == 1 && bins[1] == 1 && bins[2] == 1 && bins[3] == 1 {
                    proof {
                        assert forall|k: int| 0 <= k < 4 implies value_count(self@, k) == 1 by {
                            assert(bins@[k] == value_count(self@, k));
                        }
                        assert(is_wheel(self@));
                    }
                    let mut r: Vec<Value> = Vec::new();
                    r.push(Value::Five);
                    r.push(Value::Four);
                    r.push(Value::Three);
                    r.push(Value::Two);
                    r.push(Value::Ace);
                    proof {
                        assert(r@ =~= wheel_kickers());
                    }
                    r
                } else {
                    proof {
                        assert(!is_wheel(self@)) by {
                            if is_wheel(self@) {
                                assert(bins@[12] == value_count(self@, 12));
                                assert(bins@[0] == value_count(self@, 0));
                                assert(bins@[1] == value_count(self@, 1));
                                assert(bins@[2] == value_count(self@, 2));
                                assert(bins@[3] == value_count(self@, 3));
                            }
                        }
                    }
                    let start: Vec<Value> = Vec::new();
                    proof {
                        assert(start@ =~= Seq::<Value>::empty());
                    }
                    let r = Self::order_remaining_hand(start, &bins, Ghost(self@));
                    proof {
                        assert(r@ =~= singles_above(self@, 0));
                    }
                    r
                }
            },
            _ => {
                let start: Vec<Value> = Vec::new();
                proof {
                    assert(start@ =~= Seq::<Value>::empty());
                }
                let r = Self::order_remaining_hand(start, &bins, Ghost(self@));
                proof {
                    assert(r@ =~= singles_above(self@, 0));
                }
                r
            },
        }
    }
}

} // verus!

verus! {

// ---------------------------------------------------------------------------
// The best category of a valid hand has the shape its ordering needs
// ---------------------------------------------------------------------------

proof fn lemma_multi_lower_three_any(cards: Seq<Card>, x: int, y: int, z: int)
    requires
        0 <= x < 13,
        0 <= y < 13,
        0 <= z < 13,
        x != y && y != z && x != z,
        value_count(cards, x) >= 2,
        value_count(cards, y) >= 2,
        value_count(cards, z) >= 2,
    ensures
        multi_from(cards, 0) >= value_count(cards, x) + value_count(cards, y) + value_count(
            cards,
            z,
        ),
{
    if x < y {
        if y < z {
            lemma_multi_lower_three(cards, 0, x, y, z);
        } else if x < z {
            lemma_multi_lower_three(cards, 0, x, z, y);
        } else {
            lemma_multi_lower_three(cards, 0, z, x, y);
        }
    } else {
        if x < z {
            lemma_multi_lower_three(cards, 0, y, x, z);
        } else if y < z {
            lemma_multi_lower_three(cards, 0, y, z, x);
        } else {
            lemma_multi_lower_three(cards, 0, z, y, x);
        }
    }
}

/// A straight over five cards leaves no room for a repeated value.
proof fn lemma_straight_all_singles(cards: Seq<Card>)
    requires
        cards.len() == 5,
        is_straight(cards),
    ensures
        all_singles(cards),
{
    lemma_sum_counts_total(cards);
    lemma_sum_split(cards, 0);
    if is_wheel(cards) {
        lemma_ones_segment(cards, 0, 4);
        lemma_ones_mono(cards, 4, 12);
        assert(ones_from(cards, 13) == 0);
        assert(ones_from(cards, 12) >= 1);
    } else {
        let w = choose|w: int| 0 <= w <= 8 && straight_window_at(cards, w);
        lemma_ones_segment(cards, w, w + 5);
        lemma_ones_mono(cards, 0, w);
    }
    assert(ones_from(cards, 0) >= 5);
    assert forall|i: int| 0 <= i < 13 implies value_count(cards, i) <= 1 by {
        if value_count(cards, i) >= 2 {
            lemma_multi_lower_one(cards, 0, i);
        }
    }
}

/// A flush of five distinct cards leaves no room for a repeated value.
proof fn lemma_flush_all_singles(cards: Seq<Card>)
    requires
        cards.len() == 5,
        distinct_cards(cards),
        is_flush(cards),
    ensures
        all_singles(cards),
{
    let s = choose|s: int| 0 <= s < 4 && suit_count(cards, s) == 5;
    lemma_suit_count_all(cards, s);
    lemma_suit_ordinal_bijective();
    lemma_value_index_bijective();
    assert forall|i: int| 0 <= i < 13 implies value_count(cards, i) <= 1 by {
        if value_count(cards, i) >= 2 {
            lemma_value_count_two_witnesses(cards, i);
            let (j, k) = choose|j: int, k: int|
                0 <= j < k < cards.len() && value_index(cards[j].value) == i && value_index(
                    cards[k].value,
                ) == i;
            assert(suit_of_ordinal(suit_ordinal(cards[j].suit)) == cards[j].suit);
            assert(suit_of_ordinal(suit_ordinal(cards[k].suit)) == cards[k].suit);
            assert(cards[j].suit == cards[k].suit);
            assert(value_of_index(value_index(cards[j].value)) == cards[j].value);
            assert(value_of_index(value_index(cards[k].value)) == cards[k].value);
            assert(cards[j].value == cards[k].value);
            assert(cards[j] == cards[k]);
            assert(false);
        }
    }
}

/// The best strength is the strength of a contained category and nothing
/// stronger is contained.
pub proof fn lemma_best_strength_props(cards: Seq<Card>, s: int)
    requires
        0 <= s <= 8,
    ensures
        0 <= best_strength_from(cards, s) <= s,
        contains_type_spec(cards, type_of_strength(best_strength_from(cards, s))),
        forall|s2: int|
            best_strength_from(cards, s) < s2 <= s ==> !contains_type_spec(
                cards,
                type_of_strength(s2),
            ),
    decreases s,
{
    if s == 0 {
        assert(contains_type_spec(cards, HandType::HighCard));
    } else if !contains_type_spec(cards, type_of_strength(s)) {
        lemma_best_strength_props(cards, s - 1);
    }
}

proof fn lemma_shape_four(cards: Seq<Card>)
    requires
        valid_hand(cards),
        has_value_bin_at_least(cards, 4),
    ensures
        shape_ok(cards, HandType::FourOfAKind),
{
    lemma_sum_counts_total(cards);
    lemma_sum_split(cards, 0);
    let q = choose|i: int| 0 <= i < 13 && value_count(cards, i) >= 4;
    lemma_value_count_max4(cards, q);
    assert forall|k: int| 0 <= k < 13 && k != q implies value_count(cards, k) <= 1 by {
        if value_count(cards, k) >= 2 {
            if k < q {
                lemma_multi_lower_two(cards, 0, k, q);
            } else {
                lemma_multi_lower_two(cards, 0, q, k);
            }
        }
    }
    assert(0 <= q < 13 && value_count(cards, q) == 4 && (forall|k: int|
        0 <= k < 13 && k != q ==> value_count(cards, k) <= 1));
}

proof fn lemma_shape_fullhouse(cards: Seq<Card>)
    requires
        cards.len() == 5,
        has_value_bin_exactly(cards, 3),
        has_value_bin_exactly(cards, 2),
    ensures
        shape_ok(cards, HandType::FullHouse),
{
    lemma_sum_counts_total(cards);
    lemma_sum_split(cards, 0);
    let p = choose|i: int| 0 <= i < 13 && value_count(cards, i) == 3nat;
    let q = choose|i: int| 0 <= i < 13 && value_count(cards, i) == 2nat;
    assert forall|k: int| 0 <= k < 13 && k != p && k != q implies value_count(cards, k) <= 1 by {
        if value_count(cards, k) >= 2 {
            lemma_multi_lower_three_any(cards, p, q, k);
        }
    }
    assert(0 <= p < 13 && 0 <= q < 13 && p != q && value_count(cards, p) == 3 && value_count(
        cards,
        q,
    ) == 2 && (forall|k: int| 0 <= k < 13 && k != p && k != q ==> value_count(cards, k) <= 1));
}

proof fn lemma_shape_trips(cards: Seq<Card>)
    requires
        cards.len() == 5,
        has_value_bin_at_least(cards, 3),
        !has_value_bin_at_least(cards, 4),
        !(has_value_bin_exactly(cards, 3) && has_value_bin_exactly(cards, 2)),
    ensures
        shape_ok(cards, HandType::ThreeOfAKind),
{
    lemma_sum_counts_total(cards);
    lemma_sum_split(cards, 0);
    let q = choose|i: int| 0 <= i < 13 && value_count(cards, i) >= 3;
    assert(value_count(cards, q) == 3);
    assert(has_value_bin_exactly(cards, 3));
    assert forall|k: int| 0 <= k < 13 && k != q implies value_count(cards, k) <= 1 by {
        if value_count(cards, k) >= 2 {
            if value_count(cards, k) == 2 {
                assert(has_value_bin_exactly(cards, 2));
            } else {
                if k < q {
                    lemma_multi_lower_two(cards, 0, k, q);
                } else {
                    lemma_multi_lower_two(cards, 0, q, k);
                }
            }
        }
    }
    assert(0 <= q < 13 && value_count(cards, q) == 3 && (forall|k: int|
        0 <= k < 13 && k != q ==> value_count(cards, k) <= 1));
}

proof fn lemma_shape_double_pair(cards: Seq<Card>)
    requires
        cards.len() == 5,
        pair_bins_from(cards, 0) == 2,
        !has_value_bin_at_least(cards, 3),
    ensures
        shape_ok(cards, HandType::DoublePair),
{
    lemma_sum_counts_total(cards);
    lemma_sum_split(cards, 0);
    lemma_pair_bins_two_witnesses(cards, 0);
    let (p, q) = choose|p: int, q: int|
        0 <= p < q < 13 && value_count(cards, p) >= 2 && value_count(cards, q) >= 2;
    assert(value_count(cards, p) == 2 && value_count(cards, q) == 2);
    assert forall|k: int| 0 <= k < 13 && k != p && k != q implies value_count(cards, k) <= 1 by {
        if value_count(cards, k) >= 2 {
            lemma_multi_lower_three_any(cards, p, q, k);
        }
    }
    assert(0 <= p < q < 13 && value_count(cards, p) == 2 && value_count(cards, q) == 2 && (
    forall|k: int| 0 <= k < 13 && k != p && k != q ==> value_count(cards, k) <= 1));
}

proof fn lemma_shape_pair(cards: Seq<Card>)
    requires
        cards.len() == 5,
        has_value_bin_at_least(cards, 2),
        !has_value_bin_at_least(cards, 3),
        pair_bins_from(cards, 0) != 2,
    ensures
        shape_ok(cards, HandType::Pair),
{
    lemma_sum_counts_total(cards);
    lemma_sum_split(cards, 0);
    let q = choose|i: int| 0 <= i < 13 && value_count(cards, i) >= 2;
    assert(value_count(cards, q) == 2);
    assert forall|k: int| 0 <= k < 13 && k != q implies value_count(cards, k) <= 1 by {
        if value_count(cards, k) >= 2 {
            assert(value_count(cards, k) == 2);
            assert forall|m: int| 0 <= m < 13 && m != q && m != k implies value_count(cards, m)
                <= 1 by {
                if value_count(cards, m) >= 2 {
                    lemma_multi_lower_three_any(cards, q, k, m);
                }
            }
            if k < q {
                lemma_pair_bins_only_two(cards, 0, k, q);
            } else {
                lemma_pair_bins_only_two(cards, 0, q, k);
            }
            assert(false);
        }
    }
    assert(0 <= q < 13 && value_count(cards, q) == 2 && (forall|k: int|
        0 <= k < 13 && k != q ==> value_count(cards, k) <= 1));
}

proof fn lemma_shape_high_card(cards: Seq<Card>)
    requires
        cards.len() == 5,
        !has_value_bin_at_least(cards, 2),
    ensures
        all_singles(cards),
{
    assert forall|i: int| 0 <= i < 13 implies value_count(cards, i) <= 1 by {
        if value_count(cards, i) >= 2 {
            assert(has_value_bin_at_least(cards, 2));
        }
    }
}

/// The category that `best_hand_type` selects for a valid 5-card hand always
/// has the bin profile that its tie-break ordering construction needs, so
/// the kicker sequence of a valid hand is always exactly five values.
pub proof fn lemma_best_shape(cards: Seq<Card>)
    requires
        valid_hand(cards),
    ensures
        shape_ok(cards, best_type_spec(cards)),
{
    lemma_best_strength_props(cards, 8);
    let b = best_strength_of(cards);
    assert(contains_type_spec(cards, type_of_strength(b)));
    if b == 8 || b == 4 {
        lemma_straight_all_singles(cards);
    } else if b == 5 {
        lemma_flush_all_singles(cards);
    } else if b == 7 {
        lemma_shape_four(cards);
    } else if b == 6 {
        lemma_shape_fullhouse(cards);
    } else if b == 3 {
        assert(!contains_type_spec(cards, type_of_strength(7)));
        assert(!contains_type_spec(cards, type_of_strength(6)));
        lemma_shape_trips(cards);
    } else if b == 2 {
        assert(!contains_type_spec(cards, type_of_strength(3)));
        lemma_shape_double_pair(cards);
    } else if b == 1 {
        assert(!contains_type_spec(cards, type_of_strength(3)));
        assert(!contains_type_spec(cards, type_of_strength(2)));
        lemma_shape_pair(cards);
    } else {
        assert(b == 0);
        assert(!contains_type_spec(cards, type_of_strength(1)));
        lemma_shape_high_card(cards);
    }
}

// ---------------------------------------------------------------------------
// Total comparison
// ---------------------------------------------------------------------------

/// Lexicographic comparison of two 5-entry kicker sequences by rank,
/// starting at position `i`.
pub open spec fn lex_cmp(x: Seq<Value>, y: Seq<Value>, i: int) -> Ordering
    decreases 5 - i,
{
    if i >= 5 {
        Ordering::Equal
    } else if value_rank(x[i]) < value_rank(y[i]) {
        Ordering::Less
    } else if value_rank(x[i]) > value_rank(y[i]) {
        Ordering::Greater
    } else {
        lex_cmp(x, y, i + 1)
    }
}

/// Comparison of two hands: the stronger best category wins; on equal
/// categories the kicker sequences decide lexicographically; equal kicker
/// sequences make the hands equal in value (a split pot).
#[verifier::opaque]
pub open spec fn hand_cmp(a: Seq<Card>, b: Seq<Card>) -> Ordering {
    if best_strength_of(a) < best_strength_of(b) {
        Ordering::Less
    } else if best_strength_of(a) > best_strength_of(b) {
        Ordering::Greater
    } else {
        lex_cmp(ordering_spec(a, best_type_spec(a)), ordering_spec(b, best_type_spec(b)), 0)
    }
}

proof fn lemma_strength_roundtrip()
    ensures
        forall|s: int| 0 <= s <= 8 ==> strength_spec(#[trigger] type_of_strength(s)) == s,
{
}

proof fn lemma_lex_refl(x: Seq<Value>, i: int)
    ensures
        lex_cmp(x, x, i) == Ordering::Equal,
    decreases 5 - i,
{
    if i < 5 {
        lemma_lex_refl(x, i + 1);
    }
}

proof fn lemma_lex_flip(x: Seq<Value>, y: Seq<Value>, i: int)
    ensures
        lex_cmp(x, y, i) == Ordering::Less <==> lex_cmp(y, x, i) == Ordering::Greater,
        lex_cmp(x, y, i) == Ordering::Equal <==> lex_cmp(y, x, i) == Ordering::Equal,
    decreases 5 - i,
{
    if i < 5 {
        lemma_lex_flip(x, y, i + 1);
    }
}

proof fn lemma_lex_trans(x: Seq<Value>, y: Seq<Value>, z: Seq<Value>, i: int)
    requires
        lex_cmp(x, y, i) != Ordering::Greater,
        lex_cmp(y, z, i) != Ordering::Greater,
    ensures
        lex_cmp(x, z, i) != Ordering::Greater,
        (lex_cmp(x, y, i) == Ordering::Less || lex_cmp(y, z, i) == Ordering::Less) ==> lex_cmp(
            x,
            z,
            i,
        ) == Ordering::Less,
    decreases 5 - i,
{
    if i < 5 {
        if value_rank(x[i]) == value_rank(y[i]) && value_rank(y[i]) == value_rank(z[i]) {
            lemma_lex_trans(x, y, z, i + 1);
        }
    }
}

/// Comparing a hand with itself yields Equal: the order is reflexive under
/// equality.
pub proof fn lemma_compare_reflexive(h: Seq<Card>)
    ensures
        hand_cmp(h, h) == Ordering::Equal,
{
    reveal(hand_cmp);
    lemma_lex_refl(ordering_spec(h, best_type_spec(h)), 0);
}

/// Swapping the operands flips Less and Greater and keeps Equal: the order
/// is antisymmetric.
pub proof fn lemma_compare_antisymmetric(a: Seq<Card>, b: Seq<Card>)
    ensures
        hand_cmp(a, b) == Ordering::Less <==> hand_cmp(b, a) == Ordering::Greater,
        hand_cmp(a, b) == Ordering::Equal <==> hand_cmp(b, a) == Ordering::Equal,
{
    reveal(hand_cmp);
    lemma_lex_flip(ordering_spec(a, best_type_spec(a)), ordering_spec(b, best_type_spec(b)), 0);
}

/// The order is transitive over hands that compare at-most-equal.
pub proof fn lemma_compare_transitive(a: Seq<Card>, b: Seq<Card>, c: Seq<Card>)
    requires
        hand_cmp(a, b) != Ordering::Greater,
        hand_cmp(b, c) != Ordering::Greater,
    ensures
        hand_cmp(a, c) != Ordering::Greater,
        (hand_cmp(a, b) == Ordering::Less || hand_cmp(b, c) == Ordering::Less) ==> hand_cmp(a, c)
            == Ordering::Less,
{
    reveal(hand_cmp);
    if best_strength_of(a) == best_strength_of(b) && best_strength_of(b) == best_strength_of(c) {
        lemma_lex_trans(
            ordering_spec(a, best_type_spec(a)),
            ordering_spec(b, best_type_spec(b)),
            ordering_spec(c, best_type_spec(c)),
            0,
        );
    }
}

/// The comparison is consistent with the best-category strength: a strictly
/// weaker best category always loses, and a losing hand never has the
/// stronger best category.
pub proof fn lemma_compare_strength_consistent(a: Seq<Card>, b: Seq<Card>)
    ensures
        best_strength_of(a) < best_strength_of(b) ==> hand_cmp(a, b) == Ordering::Less,
        hand_cmp(a, b) == Ordering::Less ==> best_strength_of(a) <= best_strength_of(b),
{
    reveal(hand_cmp);
}

/// Checks that no two positions hold the same card.
fn is_distinct(cards: &Vec<Card>) -> (r: bool)
    ensures
        r == distinct_cards(cards@),
{
    let mut j: usize = 0;
    while j < cards.len()
        invariant
            j <= cards@.len(),
            forall|p: int, q: int| 0 <= p < q < cards@.len() && p < j ==> cards@[p] != cards@[q],
        decreases cards@.len() - j,
    {
        let mut k: usize = j + 1;
        while k < cards.len()
            invariant
                j < cards@.len(),
                j < k <= cards@.len(),
                forall|q: int| j < q < k ==> cards@[j as int] != cards@[q],
            decreases cards@.len() - k,
        {
            if cards[j] == cards[k] {
                return false;
            }
            k += 1;
        }
        j += 1;
    }
    true
}

impl PokerHand {
    /// Total comparison between two valid 5-card hands: best category
    /// strength first, then the kicker sequences lexicographically.
    pub fn compare(&self, other: &PokerHand) -> (r: Ordering)
        requires
            valid_hand(self@),
            valid_hand(other@),
        ensures
            r == hand_cmp(self@, other@),
    {
        proof {
            reveal(hand_cmp);
            lemma_best_strength_props(self@, 8);
            lemma_best_strength_props(other@, 8);
            lemma_strength_roundtrip();
        }
        let t1 = self.best_hand_type();
        let t2 = other.best_hand_type();
        let s1 = t1.strength();
        let s2 = t2.strength();
        if s1 < s2 {
            return Ordering::Less;
        }
        if s1 > s2 {
            return Ordering::Greater;
        }
        proof {
            lemma_best_shape(self@);
            lemma_best_shape(other@);
        }
        let o1 = self.get_hand_ordering(t1);
        let o2 = other.get_hand_ordering(t2);
        let mut i: usize = 0;
        while i < 5
            invariant
                o1@.len() == 5,
                o2@.len() == 5,
                i <= 5,
                hand_cmp(self@, other@) == lex_cmp(o1@, o2@, i as int),
            decreases 5 - i,
        {
            let r1 = o1[i].number_value();
            let r2 = o2[i].number_value();
            if r1 < r2 {
                return Ordering::Less;
            }
            if r1 > r2 {
                return Ordering::Greater;
            }
            i += 1;
        }
        Ordering::Equal
    }
}

impl PartialEq for PokerHand {
    /// Two hands are equal when both are valid 5-card hands of equal value
    /// (equal best category and equal kicker sequence): a split pot.
    fn eq(&self, other: &PokerHand) -> (r: bool) {
        if self.cards.len() != 5 || other.cards.len() != 5 {
            return false;
        }
        if !is_distinct(&self.cards) || !is_distinct(&other.cards) {
            return false;
        }
        matches!(self.compare(other), Ordering::Equal)
    }
}

impl vstd::std_specs::cmp::PartialEqSpecImpl for PokerHand {
    open spec fn obeys_eq_spec() -> bool {
        true
    }

    open spec fn eq_spec(&self, other: &PokerHand) -> bool {
        valid_hand(self@) && valid_hand(other@) && hand_cmp(self@, other@) == Ordering::Equal
    }
}

impl Eq for PokerHand {}

impl PartialOrd for PokerHand {
    /// Hands compare by value whenever both are valid 5-card hands; a hand
    /// that is not (an evaluator-misuse artifact) compares to nothing.
    fn partial_cmp(&self, other: &PokerHand) -> (r: Option<Ordering>) {
        if self.cards.len() != 5 || other.cards.len() != 5 {
            return None;
        }
        if !is_distinct(&self.cards) || !is_distinct(&other.cards) {
            return None;
        }
        Some(self.compare(other))
    }
}

impl vstd::std_specs::cmp::PartialOrdSpecImpl for PokerHand {
    open spec fn obeys_partial_cmp_spec() -> bool {
        true
    }

    open spec fn partial_cmp_spec(&self, other: &PokerHand) -> Option<Ordering> {
        if valid_hand(self@) && valid_hand(other@) {
            Some(hand_cmp(self@, other@))
        } else {
            None
        }
    }
}

} // verus!
