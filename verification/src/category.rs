//! Hand categories and the dense 16-bit strength encoding.
//!
//! A strength is a 16-bit value: the top 4 bits are the category, the low 12
//! bits the ordinal of the hand within its category, 0 being the weakest.
//! Strengths are produced by remapping a reference rank — 1 for the best of
//! the 7462 distinct 5-card classes, 7462 for the worst — through fixed
//! category boundaries.

use vstd::prelude::*;

verus! {

/// The category of a hand, strongest first in declaration order.
#[derive(Clone, Copy, Debug, Eq, Hash, Ord, PartialEq, PartialOrd, Structural)]
pub enum HandCategory {
    StraightFlush,
    FourOfAKind,
    FullHouse,
    Flush,
    Straight,
    ThreeOfAKind,
    TwoPair,
    OnePair,
    HighCard,
}

/// The category encoded in the top four bits of a strength value.
pub open spec fn spec_hand_category(strength: u16) -> Option<HandCategory> {
    let c = strength >> 12;
    if c == 0 {
        Some(HandCategory::HighCard)
    } else if c == 1 {
        Some(HandCategory::OnePair)
    } else if c == 2 {
        Some(HandCategory::TwoPair)
    } else if c == 3 {
        Some(HandCategory::ThreeOfAKind)
    } else if c == 4 {
        Some(HandCategory::Straight)
    } else if c == 5 {
        Some(HandCategory::Flush)
    } else if c == 6 {
        Some(HandCategory::FullHouse)
    } else if c == 7 {
        Some(HandCategory::FourOfAKind)
    } else if c == 8 {
        Some(HandCategory::StraightFlush)
    } else {
        None
    }
}

/// Returns the hand category of a strength computed by `Hand::evaluate`.
/// The top four bits must be a category tag, 0 through 8.
pub fn get_hand_category(hand_rank: u16) -> (c: HandCategory)
    requires
        spec_hand_category(hand_rank) is Some,
    ensures
        Some(c) == spec_hand_category(hand_rank),
{
    let tag = hand_rank >> 12u16;
    if tag == 0 {
        HandCategory::HighCard
    } else if tag == 1 {
        HandCategory::OnePair
    } else if tag == 2 {
        HandCategory::TwoPair
    } else if tag == 3 {
        HandCategory::ThreeOfAKind
    } else if tag == 4 {
        HandCategory::Straight
    } else if tag == 5 {
        HandCategory::Flush
    } else if tag == 6 {
        HandCategory::FullHouse
    } else if tag == 7 {
        HandCategory::FourOfAKind
    } else {
        HandCategory::StraightFlush
    }
}

/// The index of a category: 0 for high card through 8 for straight flush,
/// matching the strength tag.
pub open spec fn category_index(c: HandCategory) -> int {
    match c {
        HandCategory::HighCard => 0,
        HandCategory::OnePair => 1,
        HandCategory::TwoPair => 2,
        HandCategory::ThreeOfAKind => 3,
        HandCategory::Straight => 4,
        HandCategory::Flush => 5,
        HandCategory::FullHouse => 6,
        HandCategory::FourOfAKind => 7,
        HandCategory::StraightFlush => 8,
    }
}

/// The index of a category, for counting histograms.
pub fn category_to_index(c: HandCategory) -> (i: usize)
    ensures
        i == category_index(c),
        i < NUM_CATEGORIES,
{
    match c {
        HandCategory::HighCard => 0,
        HandCategory::OnePair => 1,
        HandCategory::TwoPair => 2,
        HandCategory::ThreeOfAKind => 3,
        HandCategory::Straight => 4,
        HandCategory::Flush => 5,
        HandCategory::FullHouse => 6,
        HandCategory::FourOfAKind => 7,
        HandCategory::StraightFlush => 8,
    }
}

/// Number of hand categories.
pub const NUM_CATEGORIES: usize = 9;

/// The dense strength of a reference rank (1 = best 5-card class, 7462 =
/// worst): reverse so that bigger is better, then re-base each category at
/// zero under its 4-bit tag. The boundaries are the class counts of 5-card
/// poker: 1277 high-card classes, 2860 one-pair, 858 two-pair, 858 trips,
/// 10 straights, 1277 flushes, 156 full houses, 156 quads, 10 straight
/// flushes.
pub open spec fn spec_adjust_hand_rank(rank: int) -> int {
    let rev = 7463 - rank;
    if rev <= 1277 {
        rev - 1
    } else if rev <= 4137 {
        0x1000 + rev - 1278
    } else if rev <= 4995 {
        0x2000 + rev - 4138
    } else if rev <= 5853 {
        0x3000 + rev - 4996
    } else if rev <= 5863 {
        0x4000 + rev - 5854
    } else if rev <= 7140 {
        0x5000 + rev - 5864
    } else if rev <= 7296 {
        0x6000 + rev - 7141
    } else if rev <= 7452 {
        0x7000 + rev - 7297
    } else {
        0x8000 + rev - 7453
    }
}

/// Remaps a reference rank (1 = best) into the dense strength encoding.
pub fn adjust_hand_rank(rank: u16) -> (r: u16)
    requires
        1 <= rank <= 7462,
    ensures
        r == spec_adjust_hand_rank(rank as int),
        spec_hand_category(r) is Some,
{
    let reversed_rank = 7463 - rank;
    let r: u16 = if reversed_rank <= 1277 {
        reversed_rank - 1
    } else if reversed_rank <= 4137 {
        0x1000 + reversed_rank - 1278
    } else if reversed_rank <= 4995 {
        0x2000 + reversed_rank - 4138
    } else if reversed_rank <= 5853 {
        0x3000 + reversed_rank - 4996
    } else if reversed_rank <= 5863 {
        0x4000 + reversed_rank - 5854
    } else if reversed_rank <= 7140 {
        0x5000 + reversed_rank - 5864
    } else if reversed_rank <= 7296 {
        0x6000 + reversed_rank - 7141
    } else if reversed_rank <= 7452 {
        0x7000 + reversed_rank - 7297
    } else {
        0x8000 + reversed_rank - 7453
    };
    proof {
        lemma_adjust_shape(rank as int);
        lemma_shr12_is_div(r);
    }
    r
}

/// Shifting a strength right by twelve is dividing by 4096.
pub proof fn lemma_shr12_is_div(x: u16)
    by (bit_vector)
    ensures
        x >> 12 == x / 0x1000,
{
}

/// The adjusted strength has a category tag between 0 and 8 and an ordinal
/// below the category's class count.
proof fn lemma_adjust_shape(rank: int)
    requires
        1 <= rank <= 7462,
    ensures
        0 <= spec_adjust_hand_rank(rank) <= 0x8000 + 9,
        spec_adjust_hand_rank(rank) / 0x1000 <= 8,
{
}

/// An adjusted strength always carries a valid category tag.
pub proof fn lemma_adjust_category(k: int, v: u16)
    requires
        1 <= k <= 7462,
        v as int == spec_adjust_hand_rank(k),
    ensures
        spec_hand_category(v) is Some,
{
    lemma_adjust_shape(k);
    lemma_shr12_is_div(v);
}

/// The adjustment is strictly decreasing in the reference rank: a better
/// reference rank (smaller) always yields a strictly larger strength.
pub proof fn lemma_adjust_strictly_decreasing(r1: int, r2: int)
    requires
        1 <= r1 < r2 <= 7462,
    ensures
        spec_adjust_hand_rank(r1) > spec_adjust_hand_rank(r2),
{
}

} // verus!
