//! Counting facts about card sequences: rank counts, suit counts, and how
//! they surface in a `Hand`'s key and mask.
//!
//! For a sequence of distinct valid cards, the hand's mask is the bitwise or
//! of the cards' mask bits, each 16-bit lane of it is the rank bitset of one
//! suit, and the key splits into the rank-weight sum below bit 23 and the
//! suit-weight sum above it. No rank can be held more than four times, which
//! bounds the rank-weight sum below 2^23.

use vstd::prelude::*;

use crate::encoding::{
    card_bit,
    card_rank,
    card_suit,
    spec_card_key,
    spec_card_mask,
    spec_rank_base,
    spec_suit_base,
    valid_card,
};
use crate::hand::{
    distinct_cards,
    empty_hand,
    hand_from,
    hand_plus,
    popcount64,
    valid_cards,
    wadd,
    Hand,
};

verus! {

/// How many cards of `s` have rank `r`.
pub open spec fn count_rank(s: Seq<int>, r: int) -> int
    decreases s.len(),
{
    if s.len() == 0 {
        0
    } else {
        count_rank(s.drop_last(), r) + if card_rank(s.last()) == r {
            1int
        } else {
            0int
        }
    }
}

/// How many cards of `s` have suit `t`.
pub open spec fn count_suit(s: Seq<int>, t: int) -> int
    decreases s.len(),
{
    if s.len() == 0 {
        0
    } else {
        count_suit(s.drop_last(), t) + if card_suit(s.last()) == t {
            1int
        } else {
            0int
        }
    }
}

/// The thirteen rank counts of `s`.
pub open spec fn card_counts(s: Seq<int>) -> Seq<int> {
    Seq::new(13, |r: int| count_rank(s, r))
}

/// The rank bitset of the cards of `s` with suit `t`.
pub open spec fn rankset_suit(s: Seq<int>, t: int) -> u32
    decreases s.len(),
{
    if s.len() == 0 {
        0
    } else {
        rankset_suit(s.drop_last(), t) | if card_suit(s.last()) == t {
            1u32 << (card_rank(s.last()) as u32)
        } else {
            0
        }
    }
}

/// The bitwise or of the mask contributions of `s`.
pub open spec fn mask_or(s: Seq<int>) -> u64
    decreases s.len(),
{
    if s.len() == 0 {
        0
    } else {
        mask_or(s.drop_last()) | spec_card_mask(s.last())
    }
}

/// The sum of the rank weights of `s`.
pub open spec fn rank_weight_sum(s: Seq<int>) -> int
    decreases s.len(),
{
    if s.len() == 0 {
        0
    } else {
        rank_weight_sum(s.drop_last()) + spec_rank_base(card_rank(s.last()))
    }
}

/// The sum of the suit weights of `s`.
pub open spec fn suit_weight_sum(s: Seq<int>) -> int
    decreases s.len(),
{
    if s.len() == 0 {
        0
    } else {
        suit_weight_sum(s.drop_last()) + spec_suit_base(card_suit(s.last()))
    }
}

/// Disjoint words add their set-bit counts under bitwise or.
pub proof fn lemma_popcount64_or_disjoint(a: u64, b: u64)
    requires
        a & b == 0,
    ensures
        popcount64(a | b) == popcount64(a) + popcount64(b),
    decreases b,
{
    if b == 0 {
        assert(a | 0 == a) by (bit_vector);
    } else {
        assert((a / 2) & (b / 2) == 0 && (a | b) / 2 == (a / 2) | (b / 2) && (a | b) % 2 == a % 2 + b
            % 2 && b / 2 < b) by (bit_vector)
            requires
                a & b == 0,
                b != 0,
        ;
        lemma_popcount64_or_disjoint(a / 2, b / 2);
    }
}

/// Disjoint words add their set-bit counts under bitwise or (32-bit).
pub proof fn lemma_popcount32_or_disjoint(a: u32, b: u32)
    requires
        a & b == 0,
    ensures
        crate::classes::popcount32(a | b) == crate::classes::popcount32(a)
            + crate::classes::popcount32(b),
    decreases b,
{
    if b == 0 {
        assert(a | 0 == a) by (bit_vector);
    } else {
        assert((a / 2) & (b / 2) == 0 && (a | b) / 2 == (a / 2) | (b / 2) && (a | b) % 2 == a % 2 + b
            % 2 && b / 2 < b) by (bit_vector)
            requires
                a & b == 0,
                b != 0,
        ;
        lemma_popcount32_or_disjoint(a / 2, b / 2);
    }
}

/// Two mask bits coincide only for the same card.
proof fn lemma_card_mask_disjoint(c: int, d: int)
    requires
        valid_card(c),
        valid_card(d),
        c != d,
    ensures
        spec_card_mask(c) & spec_card_mask(d) == 0,
{
    let p = card_bit(c);
    let q = card_bit(d);
    assert(p != q);
    assert(p < 64 && q < 64 && p != q ==> (1u64 << p) & (1u64 << q) == 0) by (bit_vector);
}

/// The mask facts of a distinct valid card sequence: the accumulated mask is
/// the or of the cards' bits, a card's bit is set exactly when the card is
/// in the sequence, and the number of set bits is the number of cards.
pub proof fn lemma_mask_props(s: Seq<int>)
    requires
        valid_cards(s),
        distinct_cards(s),
    ensures
        hand_from(s).mask == mask_or(s),
        forall|c: int|
            valid_card(c) ==> ((mask_or(s) & spec_card_mask(c) != 0) <==> s.contains(c)),
        popcount64(mask_or(s)) == s.len(),
    decreases s.len(),
{
    if s.len() == 0 {
        assert forall|c: int| valid_card(c) implies ((mask_or(s) & spec_card_mask(c) != 0)
            <==> s.contains(c)) by {
            assert(0u64 & spec_card_mask(c) == 0) by (bit_vector);
        }
    } else {
        let s0 = s.drop_last();
        let x = s.last();
        assert(valid_cards(s0) && distinct_cards(s0));
        lemma_mask_props(s0);
        // the new card is not in the prefix, so its bit is fresh
        assert(!s0.contains(x));
        let m0 = mask_or(s0);
        let bx = spec_card_mask(x);
        assert(m0 & bx == 0) by {
            if m0 & bx != 0 {
                assert(s0.contains(x));
            }
        }
        assert(wadd(m0, bx) == m0 | bx) by {
            assert(m0 & bx == 0 ==> ((m0 + bx) % 0x10000000000000000 == m0 | bx) && m0 | bx >= m0)
                by (bit_vector);
        }
        lemma_popcount64_or_disjoint(m0, bx);
        assert(popcount64(bx) == 1) by {
            let p = card_bit(x);
            assert(p < 64);
            lemma_popcount_single_bit(p);
        }
        assert forall|c: int| valid_card(c) implies (((m0 | bx) & spec_card_mask(c) != 0)
            <==> s.contains(c)) by {
            let bc = spec_card_mask(c);
            if c == x {
                assert(bx & bx != 0) by {
                    let p = card_bit(x);
                    assert(p < 64 ==> (1u64 << p) & (1u64 << p) == (1u64 << p) && (1u64 << p) != 0)
                        by (bit_vector);
                }
                assert((m0 | bx) & bc != 0) by {
                    assert(bx & bx != 0 ==> (m0 | bx) & bx != 0) by (bit_vector);
                }
                assert(s.contains(c)) by {
                    assert(s[s.len() - 1] == x);
                }
            } else {
                lemma_card_mask_disjoint(x, c);
                assert((m0 | bx) & bc == m0 & bc) by {
                    assert(bx & bc == 0 ==> (m0 | bx) & bc == m0 & bc) by (bit_vector);
                }
                assert(s0.contains(c) <==> s.contains(c)) by {
                    if s.contains(c) {
                        let i = choose|i: int| 0 <= i < s.len() && s[i] == c;
                        assert(i < s.len() - 1);
                        assert(s0[i] == c);
                    }
                    if s0.contains(c) {
                        let i = choose|i: int| 0 <= i < s0.len() && s0[i] == c;
                        assert(s[i] == c);
                    }
                }
            }
        }
    }
}

/// A single bit has one set bit.
proof fn lemma_popcount_single_bit(p: u64)
    requires
        p < 64,
    ensures
        popcount64(1u64 << p) == 1,
    decreases p,
{
    if p == 0 {
        assert(1u64 << 0u64 == 1) by (bit_vector);
        assert(popcount64(0) == 0);
        assert(popcount64(1) == 1);
    } else {
        let q = (p - 1) as u64;
        assert((1u64 << p) % 2 == 0 && (1u64 << p) / 2 == 1u64 << q && (1u64 << p) != 0)
            by (bit_vector)
            requires
                0 < p < 64 && q == p - 1,
        ;
        lemma_popcount_single_bit(q);
    }
}

/// The sum of the entries of `c` from index `i` on.
pub open spec fn sum_from(c: Seq<int>, i: int) -> int
    decreases c.len() - i,
{
    if i < 0 || i >= c.len() {
        0
    } else {
        c[i] + sum_from(c, i + 1)
    }
}

/// The rank-weighted sum of the entries of a 13-count sequence from `i` on.
pub open spec fn weight_from(c: Seq<int>, i: int) -> int
    decreases 13 - i,
{
    if i < 0 || i >= 13 {
        0
    } else {
        c[i] * spec_rank_base(i) + weight_from(c, i + 1)
    }
}

/// A rank-count sequence: one count per rank, each between 0 and 4, summing
/// to `total`.
pub open spec fn valid_counts(c: Seq<int>, total: int) -> bool {
    c.len() == 13 && (forall|r: int| 0 <= r < 13 ==> 0 <= #[trigger] c[r] <= 4) && sum_from(c, 0)
        == total
}

/// Entry-wise equal tails have equal sums.
pub proof fn lemma_sum_from_equal(c1: Seq<int>, c2: Seq<int>, i: int)
    requires
        c1.len() == c2.len(),
        forall|j: int| i <= j < c1.len() ==> c1[j] == c2[j],
    ensures
        sum_from(c1, i) == sum_from(c2, i),
    decreases c1.len() - i,
{
    if 0 <= i < c1.len() {
        lemma_sum_from_equal(c1, c2, i + 1);
    } else if i < 0 {
        lemma_sum_from_equal(c1, c2, 0);
    }
}

/// Raising one entry by `d` raises the sum by `d`.
pub proof fn lemma_sum_from_update(c: Seq<int>, i: int, r: int, d: int)
    requires
        0 <= r < c.len(),
        0 <= i <= r,
    ensures
        sum_from(c.update(r, c[r] + d), i) == sum_from(c, i) + d,
    decreases c.len() - i,
{
    let c2 = c.update(r, c[r] + d);
    if i == r {
        lemma_sum_from_equal(c, c2, i + 1);
    } else {
        lemma_sum_from_update(c, i + 1, r, d);
    }
}

/// The all-zero tail sums to zero.
pub proof fn lemma_sum_from_zero(c: Seq<int>, i: int)
    requires
        forall|j: int| 0 <= j < c.len() ==> c[j] == 0,
    ensures
        sum_from(c, i) == 0,
    decreases c.len() - i,
{
    if 0 <= i < c.len() {
        lemma_sum_from_zero(c, i + 1);
    } else if i < 0 {
        lemma_sum_from_zero(c, 0);
    }
}

/// Entry-wise equal 13-count tails have equal weighted sums.
pub proof fn lemma_weight_from_equal(c1: Seq<int>, c2: Seq<int>, i: int)
    requires
        forall|j: int| i <= j < 13 ==> c1[j] == c2[j],
    ensures
        weight_from(c1, i) == weight_from(c2, i),
    decreases 13 - i,
{
    if 0 <= i < 13 {
        lemma_weight_from_equal(c1, c2, i + 1);
    } else if i < 0 {
        lemma_weight_from_equal(c1, c2, 0);
    }
}

/// Raising the count of rank `r` by `d` raises the weighted sum by `d`
/// times the rank's weight.
pub proof fn lemma_weight_from_update(c: Seq<int>, i: int, r: int, d: int)
    requires
        0 <= r < 13,
        c.len() == 13,
        0 <= i <= r,
    ensures
        weight_from(c.update(r, c[r] + d), i) == weight_from(c, i) + d * spec_rank_base(r),
    decreases 13 - i,
{
    let c2 = c.update(r, c[r] + d);
    if i == r {
        lemma_weight_from_equal(c, c2, i + 1);
        assert((c[r] + d) * spec_rank_base(r) == c[r] * spec_rank_base(r) + d * spec_rank_base(r))
            by (nonlinear_arith);
    } else {
        lemma_weight_from_update(c, i + 1, r, d);
    }
}

/// The all-zero count sequence has weighted sum zero.
pub proof fn lemma_weight_from_zero(c: Seq<int>, i: int)
    requires
        c.len() == 13,
        forall|j: int| 0 <= j < 13 ==> c[j] == 0,
    ensures
        weight_from(c, i) == 0,
    decreases 13 - i,
{
    if 0 <= i < 13 {
        lemma_weight_from_zero(c, i + 1);
    } else if i < 0 {
        lemma_weight_from_zero(c, 0);
    }
}

/// The rank counts of a card sequence sum to its length, and its rank-weight
/// sum is the count-weighted sum of the rank weights.
pub proof fn lemma_counts_of_cards(s: Seq<int>)
    requires
        valid_cards(s),
    ensures
        sum_from(card_counts(s), 0) == s.len(),
        weight_from(card_counts(s), 0) == rank_weight_sum(s),
        card_counts(s).len() == 13,
        forall|r: int| 0 <= r < 13 ==> 0 <= #[trigger] card_counts(s)[r] <= s.len(),
    decreases s.len(),
{
    lemma_count_rank_nonneg(s);
    if s.len() == 0 {
        lemma_sum_from_zero(card_counts(s), 0);
        lemma_weight_from_zero(card_counts(s), 0);
    } else {
        let s0 = s.drop_last();
        let x = s.last();
        let r0 = card_rank(x);
        lemma_counts_of_cards(s0);
        lemma_count_rank_nonneg(s0);
        let c0 = card_counts(s0);
        let c1 = card_counts(s);
        assert(c1 =~= c0.update(r0, c0[r0] + 1));
        lemma_sum_from_update(c0, 0, r0, 1);
        lemma_weight_from_update(c0, 0, r0, 1);
        assert(1 * spec_rank_base(r0) == spec_rank_base(r0));
    }
}

/// Rank counts are between zero and the sequence length.
proof fn lemma_count_rank_nonneg(s: Seq<int>)
    ensures
        forall|r: int| 0 <= #[trigger] count_rank(s, r) <= s.len(),
    decreases s.len(),
{
    if s.len() > 0 {
        lemma_count_rank_nonneg(s.drop_last());
        assert forall|r: int| 0 <= #[trigger] count_rank(s, r) <= s.len() by {
            assert(0 <= count_rank(s.drop_last(), r) <= s.len() - 1);
        }
    }
}

/// The 4-bit suit set of the cards of `s` with rank `r`.
pub open spec fn suitset_rank(s: Seq<int>, r: int) -> u32
    decreases s.len(),
{
    if s.len() == 0 {
        0
    } else {
        suitset_rank(s.drop_last(), r) | if card_rank(s.last()) == r {
            1u32 << (card_suit(s.last()) as u32)
        } else {
            0
        }
    }
}

/// A single 32-bit bit has one set bit.
proof fn lemma_popcount32_single_bit(p: u32)
    requires
        p < 32,
    ensures
        crate::classes::popcount32(1u32 << p) == 1,
    decreases p,
{
    if p == 0 {
        assert(1u32 << 0u32 == 1) by (bit_vector);
        assert(crate::classes::popcount32(0) == 0);
        assert(crate::classes::popcount32(1) == 1);
    } else {
        let q = (p - 1) as u32;
        assert((1u32 << p) % 2 == 0 && (1u32 << p) / 2 == 1u32 << q && (1u32 << p) != 0)
            by (bit_vector)
            requires
                0 < p < 32 && q == p - 1,
        ;
        lemma_popcount32_single_bit(q);
    }
}

/// In a distinct valid card sequence every rank is held at most four times:
/// the count of a rank equals the set bits of its 4-bit suit set.
pub proof fn lemma_count_rank_le_4(s: Seq<int>, r: int)
    requires
        valid_cards(s),
        distinct_cards(s),
        0 <= r < 13,
    ensures
        count_rank(s, r) == crate::classes::popcount32(suitset_rank(s, r)),
        suitset_rank(s, r) < 16,
        forall|t: int|
            0 <= t < 4 ==> ((suitset_rank(s, r) & (1u32 << (t as u32)) != 0) <==> s.contains(
                #[trigger] (4 * r + t),
            )),
        count_rank(s, r) <= 4,
    decreases s.len(),
{
    if s.len() == 0 {
        assert forall|t: int| 0 <= t < 4 implies ((suitset_rank(s, r) & (1u32 << (t as u32)) != 0)
            <==> s.contains(#[trigger] (4 * r + t))) by {
            let tb = t as u32;
            assert(0u32 & (1u32 << tb) == 0) by (bit_vector);
        }
    } else {
        let s0 = s.drop_last();
        let x = s.last();
        lemma_count_rank_le_4(s0, r);
        let ss0 = suitset_rank(s0, r);
        assert(!s0.contains(x));
        assert(forall|c: int| s0.contains(c) ==> s.contains(c)) by {
            assert forall|c: int| s0.contains(c) implies s.contains(c) by {
                let i = choose|i: int| 0 <= i < s0.len() && s0[i] == c;
                assert(s[i] == c);
            }
        }
        assert(forall|c: int| #[trigger] s.contains(c) ==> c == x || s0.contains(c)) by {
            assert forall|c: int| #[trigger] s.contains(c) && c != x implies s0.contains(c) by {
                let i = choose|i: int| 0 <= i < s.len() && s[i] == c;
                assert(i < s.len() - 1);
                assert(s0[i] == c);
            }
        }
        if card_rank(x) == r {
            let t0 = card_suit(x);
            let bt = 1u32 << (t0 as u32);
            assert(x == 4 * r + t0);
            assert(ss0 & bt == 0) by {
                if ss0 & bt != 0 {
                    assert(s0.contains(4 * r + t0));
                }
            }
            lemma_popcount32_or_disjoint(ss0, bt);
            lemma_popcount32_single_bit(t0 as u32);
            assert(suitset_rank(s, r) == ss0 | bt);
            assert(suitset_rank(s, r) < 16) by {
                let t0b = t0 as u32;
                assert(ss0 < 16 && t0b < 4 ==> (ss0 | (1u32 << t0b)) < 16) by (bit_vector);
            }
            assert forall|t: int| 0 <= t < 4 implies ((suitset_rank(s, r) & (1u32 << (t as u32))
                != 0) <==> s.contains(#[trigger] (4 * r + t))) by {
                let tb = t as u32;
                if t == t0 {
                    assert((ss0 | bt) & bt != 0) by {
                        assert(tb < 4 ==> ((ss0 | (1u32 << tb)) & (1u32 << tb)) != 0)
                            by (bit_vector);
                    }
                    assert(s.contains(4 * r + t)) by {
                        assert(s[s.len() - 1] == x);
                    }
                } else {
                    assert((ss0 | bt) & (1u32 << tb) == ss0 & (1u32 << tb)) by {
                        let t0b = t0 as u32;
                        assert(t0b < 4 && tb < 4 && t0b != tb ==> ((ss0 | (1u32 << t0b)) & (1u32
                            << tb)) == ss0 & (1u32 << tb)) by (bit_vector);
                    }
                    assert(4 * r + t != x);
                }
            }
            assert(count_rank(s, r) <= 4) by {
                lemma_popcount32_le_4(suitset_rank(s, r));
            }
        } else {
            assert(suitset_rank(s, r) == ss0 | 0);
            assert(ss0 | 0 == ss0) by (bit_vector);
            assert forall|t: int| 0 <= t < 4 implies ((suitset_rank(s, r) & (1u32 << (t as u32))
                != 0) <==> s.contains(#[trigger] (4 * r + t))) by {
                assert(4 * r + t != x) by {
                    assert(card_rank(4 * r + t) == r);
                }
            }
        }
    }
}

/// A 4-bit word has at most four set bits.
proof fn lemma_popcount32_le_4(x: u32)
    requires
        x < 16,
    ensures
        crate::classes::popcount32(x) <= 4,
{
    vstd::arithmetic::power2::lemma2_to64();
    crate::counting::lemma_popcount32_le_n(x, 4);
}

/// A 32-bit word below 2^b has at most b set bits.
pub proof fn lemma_popcount32_le_n(x: u32, b: nat)
    requires
        x < vstd::arithmetic::power2::pow2(b),
    ensures
        0 <= crate::classes::popcount32(x) <= b,
    decreases b,
{
    if x != 0 {
        assert(b > 0) by {
            if b == 0 {
                vstd::arithmetic::power2::lemma2_to64();
            }
        }
        vstd::arithmetic::power2::lemma_pow2_unfold(b);
        lemma_popcount32_le_n(x / 2, (b - 1) as nat);
    }
}

/// In a distinct valid card sequence, the rank counts are a valid rank-count
/// sequence for the hand's size.
pub proof fn lemma_card_counts_valid(s: Seq<int>)
    requires
        valid_cards(s),
        distinct_cards(s),
    ensures
        valid_counts(card_counts(s), s.len() as int),
{
    lemma_counts_of_cards(s);
    assert forall|r: int| 0 <= r < 13 implies 0 <= #[trigger] card_counts(s)[r] <= 4 by {
        lemma_count_rank_le_4(s, r);
    }
}

/// The 13-bit lane of suit `t` within a 64-bit mask.
pub open spec fn lane(m: u64, t: int) -> u64 {
    (m >> ((16 * t) as u64)) & 0x1fff
}

/// The mask lane of a suit is the rank bitset of the cards of that suit,
/// and its set bits count the cards of that suit.
pub proof fn lemma_lane_props(s: Seq<int>, t: int)
    requires
        valid_cards(s),
        distinct_cards(s),
        0 <= t < 4,
    ensures
        lane(mask_or(s), t) == rankset_suit(s, t) as u64,
        rankset_suit(s, t) < 8192,
        crate::classes::popcount32(rankset_suit(s, t)) == count_suit(s, t),
        forall|r: int|
            0 <= r < 13 ==> ((rankset_suit(s, t) & (1u32 << (r as u32)) != 0) <==> s.contains(
                #[trigger] (4 * r + t),
            )),
    decreases s.len(),
{
    let tb = (16 * t) as u64;
    if s.len() == 0 {
        assert(lane(0, t) == 0) by {
            assert((0u64 >> tb) & 0x1fff == 0) by (bit_vector);
        }
        assert forall|r: int| 0 <= r < 13 implies ((rankset_suit(s, t) & (1u32 << (r as u32)) != 0)
            <==> s.contains(#[trigger] (4 * r + t))) by {
            let rb = r as u32;
            assert(0u32 & (1u32 << rb) == 0) by (bit_vector);
        }
    } else {
        let s0 = s.drop_last();
        let x = s.last();
        lemma_lane_props(s0, t);
        let m0 = mask_or(s0);
        let rs0 = rankset_suit(s0, t);
        assert(!s0.contains(x));
        assert(forall|c: int| s0.contains(c) ==> s.contains(c)) by {
            assert forall|c: int| s0.contains(c) implies s.contains(c) by {
                let i = choose|i: int| 0 <= i < s0.len() && s0[i] == c;
                assert(s[i] == c);
            }
        }
        assert(forall|c: int| #[trigger] s.contains(c) ==> c == x || s0.contains(c)) by {
            assert forall|c: int| #[trigger] s.contains(c) && c != x implies s0.contains(c) by {
                let i = choose|i: int| 0 <= i < s.len() && s[i] == c;
                assert(i < s.len() - 1);
                assert(s0[i] == c);
            }
        }
        let p = card_bit(x);
        assert(mask_or(s) == m0 | (1u64 << p));
        if card_suit(x) == t {
            let r0 = card_rank(x);
            let rb = 1u32 << (r0 as u32);
            assert(x == 4 * r0 + t);
            assert(rs0 & rb == 0) by {
                if rs0 & rb != 0 {
                    assert(s0.contains(4 * r0 + t));
                }
            }
            assert(p == 16 * t + r0);
            assert(lane(m0 | (1u64 << p), t) == lane(m0, t) | (1u64 << (r0 as u64))) by {
                let ru = r0 as u64;
                assert(ru < 13 && tb <= 48 && tb % 16 == 0 && p == tb + ru ==> (((m0 | (1u64 << p))
                    >> tb) & 0x1fff) == (((m0 >> tb) & 0x1fff) | (1u64 << ru))) by (bit_vector);
                assert(tb <= 48 && tb % 16 == 0);
                assert(p == tb + ru);
            }
            assert(rankset_suit(s, t) == rs0 | rb);
            assert((rs0 | rb) as u64 == rs0 as u64 | (1u64 << (r0 as u64))) by {
                let ru = r0 as u32;
                assert(ru < 13 && rs0 < 8192 ==> ((rs0 | (1u32 << ru)) as u64 == (rs0 as u64) | (
                1u64 << (ru as u64)))) by (bit_vector);
            }
            lemma_popcount32_or_disjoint(rs0, rb);
            lemma_popcount32_single_bit(r0 as u32);
            assert(rankset_suit(s, t) < 8192) by {
                let ru = r0 as u32;
                assert(rs0 < 8192 && ru < 13 ==> (rs0 | (1u32 << ru)) < 8192) by (bit_vector);
            }
            assert forall|r: int| 0 <= r < 13 implies ((rankset_suit(s, t) & (1u32 << (r as u32))
                != 0) <==> s.contains(#[trigger] (4 * r + t))) by {
                let rr = r as u32;
                if r == r0 {
                    assert((rs0 | rb) & rb != 0) by {
                        assert(rr < 13 ==> ((rs0 | (1u32 << rr)) & (1u32 << rr)) != 0)
                            by (bit_vector);
                    }
                    assert(s.contains(4 * r + t)) by {
                        assert(s[s.len() - 1] == x);
                    }
                } else {
                    assert((rs0 | rb) & (1u32 << rr) == rs0 & (1u32 << rr)) by {
                        let r0b = r0 as u32;
                        assert(r0b < 13 && rr < 13 && r0b != rr ==> ((rs0 | (1u32 << r0b)) & (1u32
                            << rr)) == rs0 & (1u32 << rr)) by (bit_vector);
                    }
                    assert(4 * r + t != x);
                }
            }
        } else {
            assert(rankset_suit(s, t) == rs0 | 0);
            assert(rs0 | 0 == rs0) by (bit_vector);
            assert(lane(m0 | (1u64 << p), t) == lane(m0, t)) by {
                let txu = card_suit(x) as u64;
                let rxu = card_rank(x) as u64;
                assert(p == 16 * txu + rxu);
                assert(tb <= 48 && tb % 16 == 0);
                assert((p == 16 * txu + rxu && rxu < 13 && txu < 4 && tb <= 48 && tb % 16 == 0 && 16
                    * txu != tb) ==> ((((m0 | (1u64 << p)) >> tb) & 0x1fff) == ((m0 >> tb)
                    & 0x1fff))) by (bit_vector);
                assert(16 * txu != tb);
            }
            assert forall|r: int| 0 <= r < 13 implies ((rankset_suit(s, t) & (1u32 << (r as u32))
                != 0) <==> s.contains(#[trigger] (4 * r + t))) by {
                assert(4 * r + t != x) by {
                    assert(card_suit(4 * r + t) == t);
                }
            }
        }
    }
}

/// The four suit counts of `s`.
pub open spec fn suit_counts(s: Seq<int>) -> Seq<int> {
    Seq::new(4, |t: int| count_suit(s, t))
}

/// The suit-weighted sum of the entries of a 4-count sequence from `i` on.
pub open spec fn suit_weight_from(c: Seq<int>, i: int) -> int
    decreases 4 - i,
{
    if i < 0 || i >= 4 {
        0
    } else {
        c[i] * spec_suit_base(i) + suit_weight_from(c, i + 1)
    }
}

/// Entry-wise equal 4-count tails have equal suit-weighted sums.
pub proof fn lemma_suit_weight_from_equal(c1: Seq<int>, c2: Seq<int>, i: int)
    requires
        forall|j: int| i <= j < 4 ==> c1[j] == c2[j],
    ensures
        suit_weight_from(c1, i) == suit_weight_from(c2, i),
    decreases 4 - i,
{
    if 0 <= i < 4 {
        lemma_suit_weight_from_equal(c1, c2, i + 1);
    } else if i < 0 {
        lemma_suit_weight_from_equal(c1, c2, 0);
    }
}

/// Raising the count of suit `t` by `d` raises the suit-weighted sum by `d`
/// times the suit's weight.
pub proof fn lemma_suit_weight_from_update(c: Seq<int>, i: int, t: int, d: int)
    requires
        0 <= t < 4,
        c.len() == 4,
        0 <= i <= t,
    ensures
        suit_weight_from(c.update(t, c[t] + d), i) == suit_weight_from(c, i) + d * spec_suit_base(
            t,
        ),
    decreases 4 - i,
{
    let c2 = c.update(t, c[t] + d);
    if i == t {
        lemma_suit_weight_from_equal(c, c2, i + 1);
        assert((c[t] + d) * spec_suit_base(t) == c[t] * spec_suit_base(t) + d * spec_suit_base(t))
            by (nonlinear_arith);
    } else {
        lemma_suit_weight_from_update(c, i + 1, t, d);
    }
}

/// The all-zero suit-count sequence has suit-weighted sum zero.
pub proof fn lemma_suit_weight_from_zero(c: Seq<int>, i: int)
    requires
        c.len() == 4,
        forall|j: int| 0 <= j < 4 ==> c[j] == 0,
    ensures
        suit_weight_from(c, i) == 0,
    decreases 4 - i,
{
    if 0 <= i < 4 {
        lemma_suit_weight_from_zero(c, i + 1);
    } else if i < 0 {
        lemma_suit_weight_from_zero(c, 0);
    }
}

/// The suit counts of a card sequence sum to its length, and the hand's
/// suit-weight sum is the count-weighted sum of the suit weights.
pub proof fn lemma_suit_counts_of_cards(s: Seq<int>)
    requires
        valid_cards(s),
    ensures
        sum_from(suit_counts(s), 0) == s.len(),
        suit_weight_from(suit_counts(s), 0) == suit_weight_sum(s),
        suit_counts(s).len() == 4,
        forall|t: int| 0 <= t < 4 ==> 0 <= #[trigger] suit_counts(s)[t] <= s.len(),
    decreases s.len(),
{
    lemma_count_suit_nonneg(s);
    if s.len() == 0 {
        lemma_sum_from_zero(suit_counts(s), 0);
        lemma_suit_weight_from_zero(suit_counts(s), 0);
    } else {
        let s0 = s.drop_last();
        let x = s.last();
        let t0 = card_suit(x);
        lemma_suit_counts_of_cards(s0);
        lemma_count_suit_nonneg(s0);
        let c0 = suit_counts(s0);
        let c1 = suit_counts(s);
        assert(c1 =~= c0.update(t0, c0[t0] + 1));
        lemma_sum_from_update(c0, 0, t0, 1);
        lemma_suit_weight_from_update(c0, 0, t0, 1);
        assert(1 * spec_suit_base(t0) == spec_suit_base(t0));
    }
}

/// Suit counts are between zero and the sequence length.
proof fn lemma_count_suit_nonneg(s: Seq<int>)
    ensures
        forall|t: int| 0 <= #[trigger] count_suit(s, t) <= s.len(),
    decreases s.len(),
{
    if s.len() > 0 {
        lemma_count_suit_nonneg(s.drop_last());
        assert forall|t: int| 0 <= #[trigger] count_suit(s, t) <= s.len() by {
            assert(0 <= count_suit(s.drop_last(), t) <= s.len() - 1);
        }
    }
}

/// No card is in both sequences.
pub open spec fn disjoint_cards(s1: Seq<int>, s2: Seq<int>) -> bool {
    forall|c: int| !(s1.contains(c) && #[trigger] s2.contains(c))
}

/// Joining two disjoint hands keeps validity and distinctness, ors the
/// masks, and holds a card exactly when one part does.
pub proof fn lemma_concat_hand(s1: Seq<int>, s2: Seq<int>)
    requires
        valid_cards(s1),
        distinct_cards(s1),
        valid_cards(s2),
        distinct_cards(s2),
        disjoint_cards(s1, s2),
    ensures
        valid_cards(s1 + s2),
        distinct_cards(s1 + s2),
        mask_or(s1 + s2) == mask_or(s1) | mask_or(s2),
        forall|c: int|
            #[trigger] (s1 + s2).contains(c) <==> (s1.contains(c) || s2.contains(c)),
    decreases s2.len(),
{
    let u = s1 + s2;
    assert forall|c: int| #[trigger] u.contains(c) <==> (s1.contains(c) || s2.contains(c)) by {
        if u.contains(c) {
            let i = choose|i: int| 0 <= i < u.len() && u[i] == c;
            if i < s1.len() {
                assert(s1[i] == c);
            } else {
                assert(s2[i - s1.len()] == c);
            }
        }
        if s1.contains(c) {
            let i = choose|i: int| 0 <= i < s1.len() && s1[i] == c;
            assert(u[i] == c);
        }
        if s2.contains(c) {
            let i = choose|i: int| 0 <= i < s2.len() && s2[i] == c;
            assert(u[s1.len() + i] == c);
        }
    }
    assert forall|i: int, j: int| 0 <= i < j < u.len() implies u[i] != u[j] by {
        if j < s1.len() {
        } else if i >= s1.len() {
            assert(u[i] == s2[i - s1.len()] && u[j] == s2[j - s1.len()]);
        } else {
            assert(u[i] == s1[i] && u[j] == s2[j - s1.len()]);
            assert(s1.contains(u[i]));
            assert(s2.contains(u[j]));
        }
    }
    if s2.len() == 0 {
        assert(u =~= s1);
        let m1 = mask_or(s1);
        assert(m1 | 0 == m1) by (bit_vector);
    } else {
        let s20 = s2.drop_last();
        let x = s2.last();
        assert(valid_cards(s20) && distinct_cards(s20));
        assert(disjoint_cards(s1, s20)) by {
            assert forall|c: int| !(s1.contains(c) && #[trigger] s20.contains(c)) by {
                if s20.contains(c) {
                    let i = choose|i: int| 0 <= i < s20.len() && s20[i] == c;
                    assert(s2[i] == c);
                    assert(s2.contains(c));
                }
            }
        }
        lemma_concat_hand(s1, s20);
        assert(u.drop_last() =~= s1 + s20);
        assert(u.last() == x);
        assert(mask_or(u) == mask_or(s1 + s20) | spec_card_mask(x));
        let m1 = mask_or(s1);
        let m20 = mask_or(s20);
        let bx = spec_card_mask(x);
        assert((m1 | m20) | bx == m1 | (m20 | bx)) by (bit_vector);
    }
}

/// The key of a distinct valid hand of at most seven cards is the exact sum
/// of its cards' keys: the rank-weight sum plus the suit-weight sum shifted
/// by 23 bits, with no wraparound.
pub proof fn lemma_key_decomposition(s: Seq<int>)
    requires
        valid_cards(s),
        distinct_cards(s),
        s.len() <= 7,
    ensures
        hand_from(s).key == rank_weight_sum(s) + 0x800000 * suit_weight_sum(s),
        0 <= rank_weight_sum(s) <= s.len() * 1479181,
        0 <= suit_weight_sum(s) <= s.len() * 37,
    decreases s.len(),
{
    if s.len() > 0 {
        let s0 = s.drop_last();
        let x = s.last();
        lemma_key_decomposition(s0);
        crate::encoding::lemma_rank_base_bounds(card_rank(x));
        crate::encoding::lemma_suit_base_bounds(card_suit(x));
        assert(hand_from(s) == hand_plus(hand_from(s0), x));
        assert(spec_card_key(x) == spec_rank_base(card_rank(x)) + spec_suit_base(card_suit(x))
            * 0x800000);
        assert(suit_weight_sum(s0) <= 7 * 37);
        assert(rank_weight_sum(s0) <= 7 * 1479181);
    }
}

} // verus!
