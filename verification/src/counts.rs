//! Occupancy counting over card sequences: how many cards carry a given
//! value ordinal or suit ordinal, how the 13 value bins sum up, and how a
//! sequence relates to the multiplicity of each individual card. These spec
//! functions and lemmas underpin both the hand classifier and the game's
//! no-duplicate-cards invariant.

use vstd::prelude::*;
use crate::card::{Card, value_index, suit_ordinal, value_of_index, suit_of_ordinal,
    lemma_value_index_range, lemma_suit_ordinal_range, lemma_value_index_bijective,
    lemma_suit_ordinal_bijective};

verus! {

/// Number of cards in `cards` whose value ordinal is `i`.
pub open spec fn value_count(cards: Seq<Card>, i: int) -> nat
    decreases cards.len(),
{
    if cards.len() == 0 {
        0
    } else {
        value_count(cards.drop_last(), i) + if value_index(cards.last().value) == i {
            1nat
        } else {
            0nat
        }
    }
}

/// Number of cards in `cards` whose suit ordinal is `i`.
pub open spec fn suit_count(cards: Seq<Card>, i: int) -> nat
    decreases cards.len(),
{
    if cards.len() == 0 {
        0
    } else {
        suit_count(cards.drop_last(), i) + if suit_ordinal(cards.last().suit) == i {
            1nat
        } else {
            0nat
        }
    }
}

/// Number of occurrences of the exact card `c` in `s`.
pub open spec fn card_occurs(s: Seq<Card>, c: Card) -> nat
    decreases s.len(),
{
    if s.len() == 0 {
        0
    } else {
        card_occurs(s.drop_last(), c) + if s.last() == c {
            1nat
        } else {
            0nat
        }
    }
}

/// No two positions hold the same card.
pub open spec fn distinct_cards(cards: Seq<Card>) -> bool {
    forall|j: int, k: int| 0 <= j < k < cards.len() ==> cards[j] != cards[k]
}

pub proof fn lemma_value_count_le_len(cards: Seq<Card>, i: int)
    ensures
        value_count(cards, i) <= cards.len(),
    decreases cards.len(),
{
    if cards.len() > 0 {
        lemma_value_count_le_len(cards.drop_last(), i);
    }
}

pub proof fn lemma_suit_count_le_len(cards: Seq<Card>, i: int)
    ensures
        suit_count(cards, i) <= cards.len(),
    decreases cards.len(),
{
    if cards.len() > 0 {
        lemma_suit_count_le_len(cards.drop_last(), i);
    }
}

/// A nonzero value bin has a card in it.
pub proof fn lemma_value_count_witness(cards: Seq<Card>, i: int)
    requires
        value_count(cards, i) >= 1,
    ensures
        exists|j: int| 0 <= j < cards.len() && value_index(cards[j].value) == i,
    decreases cards.len(),
{
    if value_index(cards.last().value) == i {
        assert(value_index(cards[cards.len() - 1].value) == i);
    } else {
        lemma_value_count_witness(cards.drop_last(), i);
        let j = choose|j: int|
            0 <= j < cards.drop_last().len() && value_index(cards.drop_last()[j].value) == i;
        assert(value_index(cards[j].value) == i);
    }
}

/// A value bin holding two or more cards has two distinct positions in it.
pub proof fn lemma_value_count_two_witnesses(cards: Seq<Card>, i: int)
    requires
        value_count(cards, i) >= 2,
    ensures
        exists|j: int, k: int|
            0 <= j < k < cards.len() && value_index(cards[j].value) == i && value_index(
                cards[k].value,
            ) == i,
    decreases cards.len(),
{
    if value_index(cards.last().value) == i {
        lemma_value_count_witness(cards.drop_last(), i);
        let j = choose|j: int|
            0 <= j < cards.drop_last().len() && value_index(cards.drop_last()[j].value) == i;
        assert(value_index(cards[j].value) == i && value_index(cards[cards.len() - 1].value) == i);
    } else {
        lemma_value_count_two_witnesses(cards.drop_last(), i);
        let (j, k) = choose|j: int, k: int|
            0 <= j < k < cards.drop_last().len() && value_index(cards.drop_last()[j].value) == i
                && value_index(cards.drop_last()[k].value) == i;
        assert(value_index(cards[j].value) == i && value_index(cards[k].value) == i);
    }
}

/// If a single value bin holds every card, every card has that value ordinal.
pub proof fn lemma_value_count_all(cards: Seq<Card>, i: int)
    requires
        value_count(cards, i) == cards.len(),
    ensures
        forall|j: int| 0 <= j < cards.len() ==> value_index(cards[j].value) == i,
    decreases cards.len(),
{
    if cards.len() > 0 {
        lemma_value_count_le_len(cards.drop_last(), i);
        assert(value_index(cards.last().value) == i);
        lemma_value_count_all(cards.drop_last(), i);
        assert forall|j: int| 0 <= j < cards.len() implies value_index(cards[j].value) == i by {
            if j < cards.len() - 1 {
                assert(cards.drop_last()[j] == cards[j]);
            }
        }
    }
}

/// If a single suit bin holds every card, every card has that suit ordinal.
pub proof fn lemma_suit_count_all(cards: Seq<Card>, i: int)
    requires
        suit_count(cards, i) == cards.len(),
    ensures
        forall|j: int| 0 <= j < cards.len() ==> suit_ordinal(cards[j].suit) == i,
    decreases cards.len(),
{
    if cards.len() > 0 {
        lemma_suit_count_le_len(cards.drop_last(), i);
        assert(suit_ordinal(cards.last().suit) == i);
        lemma_suit_count_all(cards.drop_last(), i);
        assert forall|j: int| 0 <= j < cards.len() implies suit_ordinal(cards[j].suit) == i by {
            if j < cards.len() - 1 {
                assert(cards.drop_last()[j] == cards[j]);
            }
        }
    }
}

/// Five pairwise-distinct cards cannot all share one value: there are only
/// four suits, so a value bin of a distinct 5-card hand holds at most 4.
pub proof fn lemma_value_count_max4(cards: Seq<Card>, i: int)
    requires
        cards.len() == 5,
        distinct_cards(cards),
    ensures
        value_count(cards, i) <= 4,
{
    lemma_value_count_le_len(cards, i);
    if value_count(cards, i) == 5 {
        lemma_value_count_all(cards, i);
        lemma_value_index_bijective();
        assert forall|j: int, k: int|
            0 <= j < k < 5 implies suit_ordinal(cards[j].suit) != suit_ordinal(cards[k].suit) by {
            assert(value_of_index(value_index(cards[j].value)) == cards[j].value);
            assert(value_of_index(value_index(cards[k].value)) == cards[k].value);
            assert(cards[j].value == cards[k].value);
            lemma_suit_ordinal_bijective();
            if suit_ordinal(cards[j].suit) == suit_ordinal(cards[k].suit) {
                assert(suit_of_ordinal(suit_ordinal(cards[j].suit)) == cards[j].suit);
                assert(cards[j].suit == cards[k].suit);
                assert(cards[j] == cards[k]);
            }
        }
        lemma_suit_ordinal_range(cards[0].suit);
        lemma_suit_ordinal_range(cards[1].suit);
        lemma_suit_ordinal_range(cards[2].suit);
        lemma_suit_ordinal_range(cards[3].suit);
        lemma_suit_ordinal_range(cards[4].suit);
        assert(false);
    }
}

/// Sum of the value bins with ordinal `i` and above.
pub open spec fn sum_counts_from(cards: Seq<Card>, i: int) -> nat
    decreases 13 - i,
{
    if i >= 13 {
        0
    } else {
        value_count(cards, i) + sum_counts_from(cards, i + 1)
    }
}

/// Number of value bins with ordinal `i` and above that hold exactly one card.
pub open spec fn ones_from(cards: Seq<Card>, i: int) -> nat
    decreases 13 - i,
{
    if i >= 13 {
        0
    } else {
        (if value_count(cards, i) == 1 {
            1nat
        } else {
            0nat
        }) + ones_from(cards, i + 1)
    }
}

/// Total number of cards sitting in value bins (ordinal `i` and above) that
/// hold two or more cards.
pub open spec fn multi_from(cards: Seq<Card>, i: int) -> nat
    decreases 13 - i,
{
    if i >= 13 {
        0
    } else {
        (if value_count(cards, i) >= 2 {
            value_count(cards, i)
        } else {
            0nat
        }) + multi_from(cards, i + 1)
    }
}

/// Number of value bins with ordinal `i` and above that hold two or more cards.
pub open spec fn pair_bins_from(cards: Seq<Card>, i: int) -> nat
    decreases 13 - i,
{
    if i >= 13 {
        0
    } else {
        (if value_count(cards, i) >= 2 {
            1nat
        } else {
            0nat
        }) + pair_bins_from(cards, i + 1)
    }
}

proof fn lemma_sum_counts_empty(cards: Seq<Card>, i: int)
    requires
        cards.len() == 0,
    ensures
        sum_counts_from(cards, i) == 0,
    decreases 13 - i,
{
    if i < 13 {
        lemma_sum_counts_empty(cards, i + 1);
    }
}

proof fn lemma_sum_counts_step(cards: Seq<Card>, i: int)
    requires
        cards.len() > 0,
    ensures
        sum_counts_from(cards, i) == sum_counts_from(cards.drop_last(), i) + if i <= value_index(
            cards.last().value,
        ) {
            1nat
        } else {
            0nat
        },
    decreases 13 - i,
{
    lemma_value_index_range(cards.last().value);
    if i < 13 {
        lemma_sum_counts_step(cards, i + 1);
    }
}

/// The 13 value bins of a hand sum to the number of its cards.
pub proof fn lemma_sum_counts_total(cards: Seq<Card>)
    ensures
        sum_counts_from(cards, 0) == cards.len(),
    decreases cards.len(),
{
    if cards.len() == 0 {
        lemma_sum_counts_empty(cards, 0);
    } else {
        lemma_sum_counts_total(cards.drop_last());
        lemma_sum_counts_step(cards, 0);
        lemma_value_index_range(cards.last().value);
    }
}

/// Every bin holds either 0, exactly 1 (counted by `ones_from`), or 2 and
/// more cards (summed by `multi_from`).
pub proof fn lemma_sum_split(cards: Seq<Card>, i: int)
    ensures
        sum_counts_from(cards, i) == ones_from(cards, i) + multi_from(cards, i),
    decreases 13 - i,
{
    if i < 13 {
        lemma_sum_split(cards, i + 1);
    }
}

/// With no bin above 1 from `i` on, no card sits in a multi-card bin.
pub proof fn lemma_multi_none(cards: Seq<Card>, i: int)
    requires
        forall|k: int| i <= k < 13 ==> value_count(cards, k) <= 1,
    ensures
        multi_from(cards, i) == 0,
    decreases 13 - i,
{
    if i < 13 {
        lemma_multi_none(cards, i + 1);
    }
}

/// With `q` the only multi-card bin from `i` on, `multi_from` is exactly its count.
pub proof fn lemma_multi_only_one(cards: Seq<Card>, i: int, q: int)
    requires
        i <= q < 13,
        value_count(cards, q) >= 2,
        forall|k: int| i <= k < 13 && k != q ==> value_count(cards, k) <= 1,
    ensures
        multi_from(cards, i) == value_count(cards, q),
    decreases 13 - i,
{
    if i == q {
        lemma_multi_none(cards, i + 1);
    } else {
        lemma_multi_only_one(cards, i + 1, q);
    }
}

/// With `p` and `q` the only multi-card bins from `i` on, `multi_from` is the
/// sum of their two counts.
pub proof fn lemma_multi_only_two(cards: Seq<Card>, i: int, p: int, q: int)
    requires
        i <= p < q < 13,
        value_count(cards, p) >= 2,
        value_count(cards, q) >= 2,
        forall|k: int| i <= k < 13 && k != p && k != q ==> value_count(cards, k) <= 1,
    ensures
        multi_from(cards, i) == value_count(cards, p) + value_count(cards, q),
    decreases 13 - i,
{
    if i == p {
        lemma_multi_only_one(cards, i + 1, q);
    } else {
        lemma_multi_only_two(cards, i + 1, p, q);
    }
}

/// A multi-card bin bounds `multi_from` from below by its count.
pub proof fn lemma_multi_lower_one(cards: Seq<Card>, i: int, q: int)
    requires
        i <= q < 13,
        value_count(cards, q) >= 2,
    ensures
        multi_from(cards, i) >= value_count(cards, q),
    decreases 13 - i,
{
    if i < q {
        lemma_multi_lower_one(cards, i + 1, q);
    }
}

/// Two multi-card bins bound `multi_from` from below by their combined count.
pub proof fn lemma_multi_lower_two(cards: Seq<Card>, i: int, p: int, q: int)
    requires
        i <= p < q < 13,
        value_count(cards, p) >= 2,
        value_count(cards, q) >= 2,
    ensures
        multi_from(cards, i) >= value_count(cards, p) + value_count(cards, q),
    decreases 13 - i,
{
    if i == p {
        lemma_multi_lower_one(cards, i + 1, q);
    } else {
        lemma_multi_lower_two(cards, i + 1, p, q);
    }
}

/// Three multi-card bins bound `multi_from` from below by their combined count.
pub proof fn lemma_multi_lower_three(cards: Seq<Card>, i: int, p: int, q: int, r: int)
    requires
        i <= p < q < r < 13,
        value_count(cards, p) >= 2,
        value_count(cards, q) >= 2,
        value_count(cards, r) >= 2,
    ensures
        multi_from(cards, i) >= value_count(cards, p) + value_count(cards, q) + value_count(
            cards,
            r,
        ),
    decreases 13 - i,
{
    if i == p {
        lemma_multi_lower_two(cards, i + 1, q, r);
    } else {
        lemma_multi_lower_three(cards, i + 1, p, q, r);
    }
}

/// A contiguous run of one-card bins contributes its full width to `ones_from`.
pub proof fn lemma_ones_segment(cards: Seq<Card>, lo: int, hi: int)
    requires
        lo <= hi <= 13,
        forall|k: int| lo <= k < hi ==> value_count(cards, k) == 1,
    ensures
        ones_from(cards, lo) >= ones_from(cards, hi) + (hi - lo),
    decreases hi - lo,
{
    if lo < hi {
        lemma_ones_segment(cards, lo + 1, hi);
    }
}

/// `ones_from` only shrinks as the starting ordinal grows.
pub proof fn lemma_ones_mono(cards: Seq<Card>, i: int, j: int)
    requires
        i <= j,
    ensures
        ones_from(cards, i) >= ones_from(cards, j),
    decreases j - i,
{
    if i < j {
        if i >= 13 {
            lemma_ones_from_high(cards, j);
        } else {
            lemma_ones_mono(cards, i + 1, j);
        }
    }
}

proof fn lemma_ones_from_high(cards: Seq<Card>, i: int)
    requires
        i >= 13,
    ensures
        ones_from(cards, i) == 0,
{
}

/// A nonempty `pair_bins_from` count names a multi-card bin.
pub proof fn lemma_pair_bins_witness(cards: Seq<Card>, i: int)
    requires
        pair_bins_from(cards, i) >= 1,
    ensures
        exists|p: int| i <= p < 13 && value_count(cards, p) >= 2,
    decreases 13 - i,
{
    if i < 13 {
        if value_count(cards, i) >= 2 {
            assert(i <= i < 13 && value_count(cards, i) >= 2);
        } else {
            lemma_pair_bins_witness(cards, i + 1);
        }
    }
}

/// A `pair_bins_from` count of two or more names two multi-card bins.
pub proof fn lemma_pair_bins_two_witnesses(cards: Seq<Card>, i: int)
    requires
        pair_bins_from(cards, i) >= 2,
    ensures
        exists|p: int, q: int|
            i <= p < q < 13 && value_count(cards, p) >= 2 && value_count(cards, q) >= 2,
    decreases 13 - i,
{
    if i < 13 {
        if value_count(cards, i) >= 2 {
            lemma_pair_bins_witness(cards, i + 1);
            let q = choose|q: int| i + 1 <= q < 13 && value_count(cards, q) >= 2;
            assert(i <= i < q < 13 && value_count(cards, i) >= 2 && value_count(cards, q) >= 2);
        } else {
            lemma_pair_bins_two_witnesses(cards, i + 1);
        }
    }
}

/// With `p` and `q` the only multi-card bins, `pair_bins_from` is exactly 2.
pub proof fn lemma_pair_bins_only_two(cards: Seq<Card>, i: int, p: int, q: int)
    requires
        i <= p < q < 13,
        value_count(cards, p) >= 2,
        value_count(cards, q) >= 2,
        forall|k: int| i <= k < 13 && k != p && k != q ==> value_count(cards, k) <= 1,
    ensures
        pair_bins_from(cards, i) == 2,
    decreases 13 - i,
{
    if i == p {
        lemma_pair_bins_only_one(cards, i + 1, q);
    } else {
        lemma_pair_bins_only_two(cards, i + 1, p, q);
    }
}

proof fn lemma_pair_bins_only_one(cards: Seq<Card>, i: int, q: int)
    requires
        i <= q < 13,
        value_count(cards, q) >= 2,
        forall|k: int| i <= k < 13 && k != q ==> value_count(cards, k) <= 1,
    ensures
        pair_bins_from(cards, i) == 1,
    decreases 13 - i,
{
    if i == q {
        lemma_pair_bins_none(cards, i + 1);
    } else {
        lemma_pair_bins_only_one(cards, i + 1, q);
    }
}

proof fn lemma_pair_bins_none(cards: Seq<Card>, i: int)
    requires
        forall|k: int| i <= k < 13 ==> value_count(cards, k) <= 1,
    ensures
        pair_bins_from(cards, i) == 0,
    decreases 13 - i,
{
    if i < 13 {
        lemma_pair_bins_none(cards, i + 1);
    }
}

/// Occurrence counts distribute over concatenation.
pub proof fn lemma_occurs_concat(a: Seq<Card>, b: Seq<Card>, c: Card)
    ensures
        card_occurs(a + b, c) == card_occurs(a, c) + card_occurs(b, c),
    decreases b.len(),
{
    if b.len() == 0 {
        assert(a + b =~= a);
    } else {
        assert((a + b).drop_last() =~= a + b.drop_last());
        assert((a + b).last() == b.last());
        lemma_occurs_concat(a, b.drop_last(), c);
    }
}

/// A card that occurs has a position.
pub proof fn lemma_occurs_witness(s: Seq<Card>, c: Card)
    requires
        card_occurs(s, c) >= 1,
    ensures
        exists|j: int| 0 <= j < s.len() && s[j] == c,
    decreases s.len(),
{
    if s.last() == c {
        assert(s[s.len() - 1] == c);
    } else {
        lemma_occurs_witness(s.drop_last(), c);
        let j = choose|j: int| 0 <= j < s.drop_last().len() && s.drop_last()[j] == c;
        assert(s[j] == c);
    }
}

/// The card at any position occurs at least once.
pub proof fn lemma_occurs_at(s: Seq<Card>, j: int)
    requires
        0 <= j < s.len(),
    ensures
        card_occurs(s, s[j]) >= 1,
    decreases s.len(),
{
    if j < s.len() - 1 {
        lemma_occurs_at(s.drop_last(), j);
        assert(s.drop_last()[j] == s[j]);
    }
}

/// In a distinct sequence no card occurs twice.
pub proof fn lemma_distinct_to_occurs(s: Seq<Card>, c: Card)
    requires
        distinct_cards(s),
    ensures
        card_occurs(s, c) <= 1,
    decreases s.len(),
{
    if s.len() > 0 {
        assert(forall|j: int, k: int|
            0 <= j < k < s.drop_last().len() ==> s.drop_last()[j] != s.drop_last()[k]);
        lemma_distinct_to_occurs(s.drop_last(), c);
        if s.last() == c && card_occurs(s.drop_last(), c) >= 1 {
            lemma_occurs_witness(s.drop_last(), c);
            let j = choose|j: int| 0 <= j < s.drop_last().len() && s.drop_last()[j] == c;
            assert(s[j] == c && s[s.len() - 1] == c);
            assert(false);
        }
    }
}

/// If no card occurs twice, the sequence is distinct.
pub proof fn lemma_occurs_to_distinct(s: Seq<Card>)
    requires
        forall|c: Card| card_occurs(s, c) <= 1,
    ensures
        distinct_cards(s),
{
    assert forall|j: int, k: int| 0 <= j < k < s.len() implies s[j] != s[k] by {
        if s[j] == s[k] {
            lemma_occurs_pair(s, j, k);
        }
    }
}

proof fn lemma_occurs_pair(s: Seq<Card>, j: int, k: int)
    requires
        0 <= j < k < s.len(),
        s[j] == s[k],
    ensures
        card_occurs(s, s[j]) >= 2,
    decreases s.len(),
{
    if k == s.len() - 1 {
        lemma_occurs_at(s.drop_last(), j);
        assert(s.drop_last()[j] == s[j]);
    } else {
        lemma_occurs_pair(s.drop_last(), j, k);
        assert(s.drop_last()[j] == s[j]);
    }
}

} // verus!
