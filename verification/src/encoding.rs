//! The card encoding: each card id in [0, 52) contributes a key and a mask.
//!
//! The key contribution is a rank weight plus a suit weight shifted above the
//! bits reserved for the largest possible rank-weight sum; the mask
//! contribution is a single bit in a 64-bit word split into four 16-bit
//! lanes, one lane per suit, with the bit position inside the lane equal to
//! the rank. The rank weights are chosen so that every multiset of 5 to 7
//! ranks (at most 4 repetitions each) has a unique sum; the suit weights so
//! that every multiset of 5 to 7 suits has a unique sum. Both uniqueness
//! properties are re-validated when the lookup tables are constructed.

use vstd::prelude::*;

verus! {

/// Number of card ranks (deuce through ace).
pub const NUMBER_OF_RANKS: usize = 13;

/// Number of cards in the deck.
pub const NUMBER_OF_CARDS: usize = 52;

/// Bits of the hand key reserved for the rank-weight sum; the suit-weight
/// sum lives above them.
pub const RANK_KEY_BITS: u64 = 23;

/// Mask of the low `RANK_KEY_BITS` bits.
pub const RANK_KEY_MASK: u64 = 0x7fffff;

/// Largest possible rank-weight sum of a 7-card hand (4 aces + 3 kings);
/// it fits in `RANK_KEY_BITS` bits.
pub const MAX_RANK_KEY: u64 = 7825759;

/// Width of a bucket of the displacement table, in key bits.
pub const OFFSET_SHIFT: u64 = 10;

/// Number of buckets of the displacement table.
pub const OFFSET_TABLE_SIZE: usize = 8192;

/// The rank weight of rank `r` (0 = deuce, 12 = ace).
pub open spec fn spec_rank_base(r: int) -> u64 {
    if r == 0 {
        0
    } else if r == 1 {
        1
    } else if r == 2 {
        5
    } else if r == 3 {
        22
    } else if r == 4 {
        98
    } else if r == 5 {
        453
    } else if r == 6 {
        2031
    } else if r == 7 {
        8698
    } else if r == 8 {
        22854
    } else if r == 9 {
        83661
    } else if r == 10 {
        262349
    } else if r == 11 {
        636345
    } else {
        1479181
    }
}

/// The suit weight of suit `s` (0 = club, 1 = diamond, 2 = heart, 3 = spade).
pub open spec fn spec_suit_base(s: int) -> u64 {
    if s == 0 {
        0
    } else if s == 1 {
        1
    } else if s == 2 {
        29
    } else {
        37
    }
}

pub fn rank_base(r: usize) -> (b: u64)
    requires
        r < NUMBER_OF_RANKS,
    ensures
        b == spec_rank_base(r as int),
{
    match r {
        0 => 0,
        1 => 1,
        2 => 5,
        3 => 22,
        4 => 98,
        5 => 453,
        6 => 2031,
        7 => 8698,
        8 => 22854,
        9 => 83661,
        10 => 262349,
        11 => 636345,
        _ => 1479181,
    }
}

pub fn suit_base(s: usize) -> (b: u64)
    requires
        s < 4,
    ensures
        b == spec_suit_base(s as int),
{
    match s {
        0 => 0,
        1 => 1,
        2 => 29,
        _ => 37,
    }
}

/// The rank of a card id: its id divided by 4.
pub open spec fn card_rank(c: int) -> int {
    c / 4
}

/// The suit of a card id: its id modulo 4.
pub open spec fn card_suit(c: int) -> int {
    c % 4
}

/// A card id is a number below 52.
pub open spec fn valid_card(c: int) -> bool {
    0 <= c < 52
}

/// The key contribution of a card: rank weight plus suit weight shifted
/// above the rank-key bits.
pub open spec fn spec_card_key(c: int) -> u64 {
    (spec_rank_base(card_rank(c)) + spec_suit_base(card_suit(c)) * 0x800000) as u64
}

/// The bit position of a card's mask contribution: 16 bits per suit lane,
/// rank inside the lane.
pub open spec fn card_bit(c: int) -> u64 {
    (16 * card_suit(c) + card_rank(c)) as u64
}

/// The mask contribution of a card: one bit in its suit's lane.
pub open spec fn spec_card_mask(c: int) -> u64 {
    1u64 << card_bit(c)
}

/// Every rank weight is at most the ace's.
pub proof fn lemma_rank_base_bounds(r: int)
    ensures
        spec_rank_base(r) <= 1479181,
        0 <= r < 12 ==> spec_rank_base(r) <= 636345,
{
}

/// Every suit weight is at most the spade's.
pub proof fn lemma_suit_base_bounds(s: int)
    ensures
        spec_suit_base(s) <= 37,
{
}

/// Key and mask contributions of a card, as the encoding defines them.
pub fn card_key_mask(c: usize) -> (km: (u64, u64))
    requires
        valid_card(c as int),
    ensures
        km.0 == spec_card_key(c as int),
        km.1 == spec_card_mask(c as int),
{
    let r = c / 4;
    let s = c % 4;
    let sb = suit_base(s);
    let shifted = sb << 23u64;
    proof {
        lemma_suit_base_bounds(s as int);
        lemma_rank_base_bounds(r as int);
        assert(sb << 23u64 == sb * 0x800000) by (bit_vector)
            requires
                sb <= 37,
        ;
    }
    let key = rank_base(r) + shifted;
    let mask = 1u64 << ((16 * s + r) as u64);
    (key, mask)
}

} // verus!
