//! The evaluator tables, built once and validated during construction.
//!
//! Four tables drive the constant-time evaluator: the flush table maps the
//! suit-weight fingerprint of a hand's key to the flush suit (or none); the
//! displacement table and the lookup table realize a perfect hash from the
//! rank-weight keys of all 7-card rank patterns to dense strength slots; and
//! the flush lookup table maps the 13-bit rank set of a flush suit to its
//! strength. Every invariant the evaluator relies on — agreement of every
//! table slot with the mathematical strength, and injectivity of the hash —
//! is checked while the tables are built; construction returns nothing if a
//! check fails, which would mean the weight tables are broken.

use vstd::prelude::*;

use crate::category::{adjust_hand_rank, spec_adjust_hand_rank};
use crate::counting::{
    card_counts,
    count_suit,
    lemma_card_counts_valid,
    lemma_count_rank_le_4,
    lemma_counts_of_cards,
    lemma_key_decomposition,
    lemma_lane_props,
    lemma_mask_props,
    lemma_suit_counts_of_cards,
    rank_weight_sum,
    rankset_suit,
    suit_counts,
    suit_weight_sum,
    suitset_rank,
};
use crate::encoding::valid_card;
use crate::hand::{distinct_cards, is_hand, valid_cards, Hand};
use crate::classes::{class_flush, class_nonflush, popcount32, popcount_u32, spec_class_flush, spec_class_nonflush};
use crate::counting::{sum_from, suit_weight_from, valid_counts, weight_from};
use crate::encoding::{rank_base, spec_rank_base, spec_suit_base, suit_base};
use crate::rank_table::{
    build_rank_table,
    is_class5,
    is_class5_nonflush,
    rank_of_class,
    rank_table_wf,
    spec_rank_of_class,
    sum_upto,
};

verus! {

/// The mixing constant of the perfect hash: an odd multiplier, chosen
/// offline to keep the packed lookup table small.
pub const MIX_MULTIPLIER: u64 = 87;

/// An upper bound on the hash positions the construction accepts.
pub const HASH_CAP: usize = 0x801000;

/// A suit-count sequence of a 7-card hand: four counts summing to 7.
pub open spec fn valid_suit_counts(c: Seq<int>) -> bool {
    c.len() == 4 && (forall|t: int| 0 <= t < 4 ==> 0 <= #[trigger] c[t] <= 7) && sum_from(c, 0)
        == 7
}

/// The flush classification of a suit-count vector: the suit holding five or
/// more cards, or -1 when there is none. At most one suit can hold five of
/// seven cards.
pub open spec fn spec_flush_val(c: Seq<int>) -> i8 {
    if c[0] >= 5 {
        0i8
    } else if c[1] >= 5 {
        1i8
    } else if c[2] >= 5 {
        2i8
    } else if c[3] >= 5 {
        3i8
    } else {
        -1i8
    }
}

/// The mixed key: the rank key scrambled by the odd multiplier, reduced to
/// the rank-key bits.
pub open spec fn spec_mixed(key: u64) -> u64 {
    vstd::wrapping::u64_specs::wrapping_mul(key, MIX_MULTIPLIER) & 0x7fffff
}

/// The hash position of a rank key: its mixed key plus the displacement of
/// the mixed key's bucket.
pub open spec fn spec_hash(offsets: Seq<i32>, key: u64) -> int {
    spec_mixed(key) + offsets[spec_mixed(key) as int / 1024]
}

/// The rank key of a rank-count vector: the count-weighted sum of the rank
/// weights.
pub open spec fn key_of(c: Seq<int>) -> int {
    weight_from(c, 0)
}

/// The strength of a flush hand whose flush suit holds the ranks `fs`.
pub open spec fn spec_flush_strength(rt: Seq<u32>, fs: u32) -> int {
    spec_adjust_hand_rank(spec_rank_of_class(rt, spec_class_flush(fs)))
}

/// The suit-weight sum of the counts below index `i`.
pub open spec fn suit_weight_upto(c: Seq<u8>, i: int) -> int
    decreases i,
{
    if i <= 0 {
        0
    } else {
        suit_weight_upto(c, i - 1) + c[i - 1] * spec_suit_base(i - 1)
    }
}

/// Prefix suit-weight sums only read the prefix.
proof fn lemma_suit_weight_upto_equal(c1: Seq<u8>, c2: Seq<u8>, i: int)
    requires
        forall|j: int| 0 <= j < i ==> c1[j] == c2[j],
    ensures
        suit_weight_upto(c1, i) == suit_weight_upto(c2, i),
    decreases i,
{
    if i > 0 {
        lemma_suit_weight_upto_equal(c1, c2, i - 1);
    }
}

/// The whole suit-weight sum splits at `i` into the prefix part and the
/// tail part of the integer view.
proof fn lemma_suit_weight_split(counts: Seq<u8>, c: Seq<int>, i: int)
    requires
        counts.len() == 4,
        c.len() == 4,
        forall|j: int| 0 <= j < 4 ==> c[j] == counts[j] as int,
        0 <= i <= 4,
    ensures
        suit_weight_upto(counts, i) + suit_weight_from(c, i) == suit_weight_upto(counts, 4),
    decreases 4 - i,
{
    if i < 4 {
        lemma_suit_weight_split(counts, c, i + 1);
    }
}

/// The suit-weight sum of a nonnegative count tail is bounded by 37 times
/// the count sum.
proof fn lemma_suit_weight_le(c: Seq<int>, i: int)
    requires
        c.len() == 4,
        forall|j: int| 0 <= j < 4 ==> 0 <= #[trigger] c[j],
    ensures
        0 <= suit_weight_from(c, i) <= 37 * sum_from(c, i),
    decreases 4 - i,
{
    if 0 <= i < 4 {
        lemma_suit_weight_le(c, i + 1);
        crate::encoding::lemma_suit_base_bounds(i);
        assert(c[i] * spec_suit_base(i) <= c[i] * 37) by (nonlinear_arith)
            requires
                c[i] >= 0,
                spec_suit_base(i) <= 37,
        ;
        assert(c[i] * spec_suit_base(i) >= 0) by (nonlinear_arith)
            requires
                c[i] >= 0,
                spec_suit_base(i) >= 0,
        ;
    }
}

/// `c` agrees with the suit counts fixed below `suit` and puts `rem` more
/// cards on the suits from `suit` up.
pub open spec fn extends_suit_counts(c: Seq<int>, counts: Seq<u8>, suit: int, rem: int) -> bool {
    &&& c.len() == 4
    &&& forall|j: int| 0 <= j < suit ==> c[j] == counts[j] as int
    &&& forall|t: int| 0 <= t < 4 ==> 0 <= #[trigger] c[t] <= 7
    &&& sum_from(c, suit) == rem
}

/// The suit-count prefix sum.
pub open spec fn suit_sum_upto(c: Seq<u8>, i: int) -> int
    decreases i,
{
    if i <= 0 {
        0
    } else {
        suit_sum_upto(c, i - 1) + c[i - 1]
    }
}

/// Prefix sums only read the prefix.
proof fn lemma_suit_sum_upto_equal(c1: Seq<u8>, c2: Seq<u8>, i: int)
    requires
        forall|j: int| 0 <= j < i ==> c1[j] == c2[j],
    ensures
        suit_sum_upto(c1, i) == suit_sum_upto(c2, i),
    decreases i,
{
    if i > 0 {
        lemma_suit_sum_upto_equal(c1, c2, i - 1);
    }
}

/// The whole suit-count sum splits at `i`.
proof fn lemma_suit_sum_split(counts: Seq<u8>, c: Seq<int>, i: int)
    requires
        counts.len() == 4,
        c.len() == 4,
        forall|j: int| 0 <= j < 4 ==> c[j] == counts[j] as int,
        0 <= i <= 4,
    ensures
        suit_sum_upto(counts, i) + sum_from(c, i) == suit_sum_upto(counts, 4),
    decreases 4 - i,
{
    if i < 4 {
        lemma_suit_sum_split(counts, c, i + 1);
    }
}

/// Every slot of the flush table that is filled holds the classification of
/// some suit-count vector whose key is that slot.
pub open spec fn flush_slots_sound(ft: Seq<i8>) -> bool {
    forall|k: int|
        0 <= k < 260 && #[trigger] ft[k] != -2 ==> exists|v: Seq<int>|
            valid_suit_counts(v) && key_suit(v) == k && ft[k] == spec_flush_val(v)
}

/// A suit-weight prefix sum is at most 37 times the count prefix sum.
proof fn lemma_suit_weight_upto_le(c: Seq<u8>, i: int)
    requires
        0 <= i <= 4,
    ensures
        0 <= suit_weight_upto(c, i) <= 37 * suit_sum_upto(c, i),
    decreases i,
{
    if i > 0 {
        lemma_suit_weight_upto_le(c, i - 1);
        crate::encoding::lemma_suit_base_bounds(i - 1);
        assert(c[i - 1] * spec_suit_base(i - 1) <= c[i - 1] * 37) by (nonlinear_arith)
            requires
                c[i - 1] >= 0,
                spec_suit_base(i - 1) <= 37,
        ;
        assert(c[i - 1] * spec_suit_base(i - 1) >= 0) by (nonlinear_arith)
            requires
                c[i - 1] >= 0,
                spec_suit_base(i - 1) >= 0,
        ;
    }
}

/// Writes the flush classification of every suit-count vector extending the
/// fixed prefix into the table. A slot reached twice always receives the
/// same value: the suit weights have the unique-sum property, so a filled
/// slot can only belong to the vector being stored.
fn enum_suit_vectors(ft: &mut Vec<i8>, counts: &mut Vec<u8>, suit: usize, rem: usize, key: u64)
    requires
        old(ft)@.len() == 260,
        old(counts)@.len() == 4,
        suit <= 4,
        rem <= 7,
        forall|j: int| 0 <= j < suit ==> 0 <= #[trigger] old(counts)@[j] <= 7,
        forall|j: int| suit <= j < 4 ==> old(counts)@[j] == 0,
        suit_sum_upto(old(counts)@, suit as int) + rem == 7,
        key as int == suit_weight_upto(old(counts)@, suit as int),
        key <= 259,
        flush_slots_sound(old(ft)@),
    ensures
        final(ft)@.len() == 260,
        final(counts)@ == old(counts)@,
        flush_slots_sound(final(ft)@),
        forall|k: int| 0 <= k < 260 && old(ft)@[k] != -2 ==> final(ft)@[k] == old(ft)@[k],
        forall|c: Seq<int>|
            #[trigger] extends_suit_counts(c, old(counts)@, suit as int, rem as int) ==> (0
                <= key_suit(c) < 260 && final(ft)@[key_suit(c)] == spec_flush_val(c)),
    decreases 4 - suit,
{
    if suit == 4 {
        if rem != 0 {
            proof {
                assert forall|c: Seq<int>|
                    #[trigger] extends_suit_counts(c, old(counts)@, suit as int, rem as int)
                    implies (0 <= key_suit(c) < 260 && ft@[key_suit(c)] == spec_flush_val(c)) by {
                    assert(sum_from(c, 4) == 0);
                    assert(false);
                }
            }
            return ;
        }
        let ghost cfull = counts@.map_values(|x: u8| x as int);
        proof {
            lemma_suit_weight_split(counts@, cfull, 0);
            lemma_suit_sum_split(counts@, cfull, 0);
            lemma_suit_weight_le(cfull, 0);
            assert(key as int == suit_weight_from(cfull, 0));
            assert(sum_from(cfull, 0) == 7);
            assert(valid_suit_counts(cfull));
        }
        let val: i8 = if counts[0] >= 5 {
            0
        } else if counts[1] >= 5 {
            1
        } else if counts[2] >= 5 {
            2
        } else if counts[3] >= 5 {
            3
        } else {
            -1
        };
        proof {
            assert(val == spec_flush_val(cfull));
        }
        let slot = ft[key as usize];
        if slot == -2 {
            ft.set(key as usize, val);
        } else {
            // the slot was filled by a vector with the same key; by the
            // unique-sum property that vector is this one
            proof {
                let v = choose|v: Seq<int>|
                    valid_suit_counts(v) && key_suit(v) == key as int && ft@[key as int]
                        == spec_flush_val(v);
                lemma_suit_key_injective(v, cfull);
                assert(slot == val);
            }
        }
        proof {
            assert(ft@[key as int] == val);
            assert forall|k: int|
                0 <= k < 260 && #[trigger] ft@[k] != -2 implies exists|v: Seq<int>|
                valid_suit_counts(v) && key_suit(v) == k && ft@[k] == spec_flush_val(v) by {
                if k == key as int {
                    assert(valid_suit_counts(cfull) && key_suit(cfull) == k && ft@[k]
                        == spec_flush_val(cfull));
                } else {
                    assert(old(ft)@[k] == ft@[k]);
                }
            }
            assert forall|c: Seq<int>|
                #[trigger] extends_suit_counts(c, old(counts)@, suit as int, rem as int) implies (0
                <= key_suit(c) < 260 && ft@[key_suit(c)] == spec_flush_val(c)) by {
                assert(forall|j: int| 0 <= j < 4 ==> cfull[j] == counts@[j] as int);
                assert(c =~= cfull);
                assert(key_suit(c) == key as int);
                assert(ft@[key_suit(c)] == spec_flush_val(c));
            }
        }
        return ;
    }
    let maxc: usize = if rem < 7 {
        rem
    } else {
        7
    };
    let mut cnt: usize = 0;
    let ghost counts_in = counts@;
    let ghost ft_entry = ft@;
    while cnt <= maxc
        invariant
            cnt <= maxc + 1,
            maxc <= 7,
            maxc == rem || (rem > 7 && maxc == 7),
            rem <= 7,
            suit < 4,
            counts@.len() == 4,
            counts_in.len() == 4,
            ft@.len() == 260,
            forall|j: int| 0 <= j < suit ==> counts@[j] == counts_in[j],
            forall|j: int| suit < j < 4 ==> counts@[j] == 0,
            forall|j: int| 0 <= j < suit ==> 0 <= #[trigger] counts_in[j] <= 7,
            forall|j: int| suit <= j < 4 ==> counts_in[j] == 0,
            suit_sum_upto(counts_in, suit as int) + rem == 7,
            key as int == suit_weight_upto(counts_in, suit as int),
            key <= 259,
            flush_slots_sound(ft@),
            forall|k: int| 0 <= k < 260 && ft_entry[k] != -2 ==> ft@[k] == ft_entry[k],
            forall|c: Seq<int>|
                #[trigger] extends_suit_counts(c, counts_in, suit as int, rem as int) && c[suit as int]
                    < cnt ==> (0 <= key_suit(c) < 260 && ft@[key_suit(c)] == spec_flush_val(c)),
        decreases maxc + 1 - cnt,
    {
        counts.set(suit, cnt as u8);
        let ghost counts_mid = counts@;
        let sb = suit_base(suit);
        proof {
            lemma_suit_sum_upto_equal(counts_mid, counts_in, suit as int);
            lemma_suit_weight_upto_equal(counts_mid, counts_in, suit as int);
            assert(suit_sum_upto(counts_mid, suit as int + 1) == suit_sum_upto(
                counts_in,
                suit as int,
            ) + cnt);
            assert(suit_weight_upto(counts_mid, suit as int + 1) == suit_weight_upto(
                counts_in,
                suit as int,
            ) + cnt * spec_suit_base(suit as int));
            crate::encoding::lemma_suit_base_bounds(suit as int);
            assert(cnt * spec_suit_base(suit as int) <= 7 * 37) by (nonlinear_arith)
                requires
                    0 <= cnt <= 7,
                    0 <= spec_suit_base(suit as int) <= 37,
            ;
            assert(cnt * spec_suit_base(suit as int) >= 0) by (nonlinear_arith)
                requires
                    cnt >= 0,
                    spec_suit_base(suit as int) >= 0,
            ;
            assert forall|j: int| 0 <= j < suit + 1 implies 0 <= #[trigger] counts_mid[j] <= 7 by {
                if j < suit {
                    assert(counts_mid[j] == counts_in[j]);
                } else {
                    assert(counts_mid[j] == cnt as u8);
                }
            }
            // seven cards weigh at most 259, so the extended prefix key fits
            lemma_suit_weight_upto_le(counts_mid, suit as int + 1);
        }
        let key2 = key + (cnt as u64) * sb;
        let ghost ft_before = ft@;
        enum_suit_vectors(ft, counts, suit + 1, rem - cnt, key2);
        proof {
            assert(counts@ == counts_mid);
            assert forall|c: Seq<int>|
                #[trigger] extends_suit_counts(c, counts_in, suit as int, rem as int)
                    && c[suit as int] < cnt + 1 implies (0 <= key_suit(c) < 260
                && ft@[key_suit(c)] == spec_flush_val(c)) by {
                if c[suit as int] == cnt {
                    assert(extends_suit_counts(c, counts_mid, suit as int + 1, rem as int - cnt))
                        by {
                        assert(counts_mid[suit as int] == cnt);
                        assert(sum_from(c, suit as int) == c[suit as int] + sum_from(
                            c,
                            suit as int + 1,
                        ));
                    }
                } else {
                    assert(c[suit as int] < cnt);
                    assert(0 <= key_suit(c) < 260 && ft_before[key_suit(c)] == spec_flush_val(c));
                    assert(ft@[key_suit(c)] == ft_before[key_suit(c)]) by {
                        assert(ft_before[key_suit(c)] != -2);
                    }
                }
            }
        }
        cnt = cnt + 1;
    }
    counts.set(suit, 0);
    proof {
        assert(counts@ =~= counts_in);
        assert forall|c: Seq<int>|
            #[trigger] extends_suit_counts(c, counts_in, suit as int, rem as int) implies (0
            <= key_suit(c) < 260 && ft@[key_suit(c)] == spec_flush_val(c)) by {
            crate::rank_table::lemma_sum_from_nonneg(c, suit as int + 1);
            assert(sum_from(c, suit as int) == c[suit as int] + sum_from(c, suit as int + 1));
            assert(c[suit as int] <= rem);
            assert(c[suit as int] < cnt);
        }
    }
}

/// The suit key of a suit-count vector.
pub open spec fn key_suit(c: Seq<int>) -> int {
    suit_weight_from(c, 0)
}

/// The suit weights have the unique-sum property: no two suit-count vectors
/// of a 7-card hand share a suit key.
pub proof fn lemma_suit_key_injective(c1: Seq<int>, c2: Seq<int>)
    requires
        valid_suit_counts(c1),
        valid_suit_counts(c2),
        key_suit(c1) == key_suit(c2),
    ensures
        c1 == c2,
{
    reveal_with_fuel(suit_weight_from, 6);
    reveal_with_fuel(sum_from, 6);
    assert(suit_weight_from(c1, 0) == c1[0] * 0 + (c1[1] * 1 + (c1[2] * 29 + (c1[3] * 37 + 0))));
    assert(suit_weight_from(c2, 0) == c2[0] * 0 + (c2[1] * 1 + (c2[2] * 29 + (c2[3] * 37 + 0))));
    assert(sum_from(c1, 0) == c1[0] + (c1[1] + (c1[2] + (c1[3] + 0))));
    assert(sum_from(c2, 0) == c2[0] + (c2[1] + (c2[2] + (c2[3] + 0))));
    assert(c1[1] + 29 * c1[2] + 37 * c1[3] == c2[1] + 29 * c2[2] + 37 * c2[3]) by (nonlinear_arith)
        requires
            c1[0] * 0 + (c1[1] * 1 + (c1[2] * 29 + (c1[3] * 37 + 0))) == c2[0] * 0 + (c2[1] * 1 + (
            c2[2] * 29 + (c2[3] * 37 + 0))),
    ;
    assert(c1[3] == c2[3] && c1[2] == c2[2] && c1[1] == c2[1]) by {
        let x1 = c1[1];
        let y1 = c1[2];
        let z1 = c1[3];
        let x2 = c2[1];
        let y2 = c2[2];
        let z2 = c2[3];
        assert(x1 + 29 * y1 + 37 * z1 == x2 + 29 * y2 + 37 * z2 && 0 <= x1 <= 7 && 0 <= y1 <= 7
            && 0 <= z1 <= 7 && 0 <= x2 <= 7 && 0 <= y2 <= 7 && 0 <= z2 <= 7 && x1 + y1 + z1 <= 7
            && x2 + y2 + z2 <= 7 ==> x1 == x2 && y1 == y2 && z1 == z2) by (nonlinear_arith);
        assert(x1 + y1 + z1 <= 7 && x2 + y2 + z2 <= 7);
    }
    assert(c1[0] == c2[0]);
    assert(c1 =~= c2);
}

/// Builds the flush table: for every suit-count vector of seven cards, the
/// slot of its suit key holds its flush classification. Construction cannot
/// fail: the suit weights provably give every vector its own key.
pub fn build_flush_table() -> (ft: Vec<i8>)
    ensures
        ft@.len() == 260,
        forall|c: Seq<int>|
            valid_suit_counts(c) ==> (0 <= key_suit(c) < 260 && ft@[key_suit(c)]
                == spec_flush_val(c)),
{
    let mut ft: Vec<i8> = Vec::new();
    let mut i: usize = 0;
    while i < 260
        invariant
            i <= 260,
            ft@.len() == i,
            forall|j: int| 0 <= j < i ==> ft@[j] == -2,
        decreases 260 - i,
    {
        ft.push(-2);
        i = i + 1;
    }
    let mut counts: Vec<u8> = Vec::new();
    let mut j: usize = 0;
    while j < 4
        invariant
            j <= 4,
            counts@.len() == j,
            forall|k: int| 0 <= k < j ==> counts@[k] == 0,
        decreases 4 - j,
    {
        counts.push(0);
        j = j + 1;
    }
    enum_suit_vectors(&mut ft, &mut counts, 0, 7, 0);
    proof {
        assert forall|c: Seq<int>| valid_suit_counts(c) implies (0 <= key_suit(c) < 260
            && ft@[key_suit(c)] == spec_flush_val(c)) by {
            assert(extends_suit_counts(c, counts@, 0, 7));
        }
    }
    ft
}

/// The counts `c` with one card of rank `i` and one of rank `j` removed
/// (two of rank `i` when `i == j`).
pub open spec fn sub_two(c: Seq<int>, i: int, j: int) -> Seq<int> {
    if i == j {
        c.update(i, c[i] - 2)
    } else {
        c.update(i, c[i] - 1).update(j, c[j] - 1)
    }
}

/// Ranks `i <= j` can both give up a card.
pub open spec fn pair_ok(c: Seq<int>, i: int, j: int) -> bool {
    0 <= i <= j < 13 && (if i == j {
        c[i] >= 2
    } else {
        c[i] >= 1 && c[j] >= 1
    })
}

/// The pair `(a, b)` comes at or after `(i, j)` in the enumeration order.
pub open spec fn pair_ge(a: int, b: int, i: int, j: int) -> bool {
    a > i || (a == i && b >= j)
}

/// The best no-flush class over the 5-card subpatterns obtained by removing
/// two cards at rank pairs from `(i, j)` on.
pub open spec fn class7_rec(c: Seq<int>, i: int, j: int) -> u32
    decreases 13 - i, 14 - j,
{
    if i >= 13 || i < 0 || j < i {
        0
    } else if j >= 13 {
        class7_rec(c, i + 1, i + 1)
    } else {
        let rest = class7_rec(c, i, j + 1);
        let cur = if pair_ok(c, i, j) {
            spec_class_nonflush(sub_two(c, i, j))
        } else {
            0
        };
        if cur > rest {
            cur
        } else {
            rest
        }
    }
}

/// The class of a 7-card hand with no flush: the best five of its seven
/// cards, found by removing two cards in every way.
pub open spec fn spec_class7(c: Seq<int>) -> u32 {
    class7_rec(c, 0, 0)
}

/// The strength of a no-flush 7-card hand with rank counts `c`.
pub open spec fn spec_strength7(rt: Seq<u32>, c: Seq<int>) -> int {
    spec_adjust_hand_rank(spec_rank_of_class(rt, spec_class7(c)))
}

/// Removing a card at each of a valid pair leaves a valid 5-card pattern.
pub proof fn lemma_sub_two_valid(c: Seq<int>, i: int, j: int)
    requires
        valid_counts(c, 7),
        pair_ok(c, i, j),
    ensures
        valid_counts(sub_two(c, i, j), 5),
{
    if i == j {
        crate::counting::lemma_sum_from_update(c, 0, i, -2);
    } else {
        crate::counting::lemma_sum_from_update(c, 0, i, -1);
        let c1 = c.update(i, c[i] - 1);
        crate::counting::lemma_sum_from_update(c1, 0, j, -1);
    }
}

/// What the recursive best-of-subpatterns value is: an upper bound on every
/// subpattern class from `(i, j)` on, and either one of them or zero.
proof fn lemma_class7_rec(c: Seq<int>, i: int, j: int)
    requires
        valid_counts(c, 7),
        0 <= i <= j <= 13,
        i < 13 || j == 13,
    ensures
        forall|a: int, b: int|
            pair_ok(c, a, b) && pair_ge(a, b, i, j) ==> class7_rec(c, i, j)
                >= spec_class_nonflush(#[trigger] sub_two(c, a, b)),
        class7_rec(c, i, j) == 0 || exists|a: int, b: int|
            pair_ok(c, a, b) && pair_ge(a, b, i, j) && class7_rec(c, i, j) == spec_class_nonflush(
                #[trigger] sub_two(c, a, b),
            ),
    decreases 13 - i, 14 - j,
{
    if i >= 13 {
        assert forall|a: int, b: int|
            pair_ok(c, a, b) && pair_ge(a, b, i, j) implies class7_rec(c, i, j)
            >= spec_class_nonflush(#[trigger] sub_two(c, a, b)) by {
            assert(false);
        }
    } else if j >= 13 {
        lemma_class7_rec(c, i + 1, i + 1);
        assert forall|a: int, b: int|
            pair_ok(c, a, b) && pair_ge(a, b, i, j) implies class7_rec(c, i, j)
            >= spec_class_nonflush(#[trigger] sub_two(c, a, b)) by {
            assert(pair_ge(a, b, i + 1, i + 1)) by {
                assert(b < 13 && j == 13);
            }
        }
        if class7_rec(c, i, j) != 0 {
            let (a, b) = choose|a: int, b: int|
                pair_ok(c, a, b) && pair_ge(a, b, i + 1, i + 1) && class7_rec(c, i + 1, i + 1)
                    == spec_class_nonflush(#[trigger] sub_two(c, a, b));
            assert(pair_ge(a, b, i, j));
        }
    } else {
        lemma_class7_rec(c, i, j + 1);
        let rest = class7_rec(c, i, j + 1);
        let v = class7_rec(c, i, j);
        assert forall|a: int, b: int|
            pair_ok(c, a, b) && pair_ge(a, b, i, j) implies v >= spec_class_nonflush(
            #[trigger] sub_two(c, a, b),
        ) by {
            if a == i && b == j {
            } else {
                assert(pair_ge(a, b, i, j + 1));
            }
        }
        if v != 0 {
            if pair_ok(c, i, j) && v == spec_class_nonflush(sub_two(c, i, j)) {
                assert(pair_ge(i, j, i, j));
            } else {
                assert(v == rest);
                let (a, b) = choose|a: int, b: int|
                    pair_ok(c, a, b) && pair_ge(a, b, i, j + 1) && rest == spec_class_nonflush(
                        #[trigger] sub_two(c, a, b),
                    );
                assert(pair_ge(a, b, i, j));
            }
        }
    }
}

/// Seven cards always contain a removable pair: a rank with two cards, or
/// two ranks with one each.
proof fn lemma_exists_pair(c: Seq<int>, i: int)
    requires
        c.len() == 13,
        forall|r: int| 0 <= r < 13 ==> 0 <= #[trigger] c[r] <= 4,
        0 <= i < 13,
        sum_from(c, i) >= 2,
    ensures
        exists|a: int, b: int| pair_ok(c, a, b) && a >= i,
    decreases 13 - i,
{
    if c[i] >= 2 {
        assert(pair_ok(c, i, i));
    } else if c[i] == 1 {
        assert(sum_from(c, i + 1) >= 1);
        let b = lemma_sum_pos_witness(c, i + 1);
        assert(pair_ok(c, i, b));
    } else {
        assert(sum_from(c, i + 1) >= 2);
        lemma_exists_pair(c, i + 1);
        let (a, b) = choose|a: int, b: int| pair_ok(c, a, b) && a >= i + 1;
        assert(pair_ok(c, a, b) && a >= i);
    }
}

/// A positive tail sum names an index with a positive count.
proof fn lemma_sum_pos_witness(c: Seq<int>, i: int) -> (b: int)
    requires
        c.len() == 13,
        forall|r: int| 0 <= r < 13 ==> 0 <= #[trigger] c[r],
        0 <= i <= 13,
        sum_from(c, i) >= 1,
    ensures
        i <= b < 13,
        c[b] >= 1,
    decreases 13 - i,
{
    if i == 13 {
        assert(false);
        0
    } else if c[i] >= 1 {
        i
    } else {
        lemma_sum_pos_witness(c, i + 1)
    }
}

/// The 7-card class of a valid pattern is the no-flush class of one of its
/// valid 5-card subpatterns, and at least every other one.
pub proof fn lemma_class7_props(c: Seq<int>)
    requires
        valid_counts(c, 7),
    ensures
        is_class5_nonflush(spec_class7(c)),
        forall|a: int, b: int|
            pair_ok(c, a, b) ==> spec_class7(c) >= spec_class_nonflush(
                #[trigger] sub_two(c, a, b),
            ),
{
    lemma_class7_rec(c, 0, 0);
    lemma_exists_pair(c, 0);
    assert forall|a: int, b: int| pair_ok(c, a, b) implies spec_class7(c) >= spec_class_nonflush(
        #[trigger] sub_two(c, a, b),
    ) by {
        assert(pair_ge(a, b, 0, 0));
    }
    let (a0, b0) = choose|a: int, b: int| pair_ok(c, a, b) && a >= 0;
    lemma_sub_two_valid(c, a0, b0);
    crate::classes::lemma_class_nonflush_pos(sub_two(c, a0, b0));
    assert(spec_class7(c) >= spec_class_nonflush(sub_two(c, a0, b0)) > 0) by {
        assert(pair_ge(a0, b0, 0, 0));
    }
    let (a, b) = choose|a: int, b: int|
        pair_ok(c, a, b) && pair_ge(a, b, 0, 0) && spec_class7(c) == spec_class_nonflush(
            #[trigger] sub_two(c, a, b),
        );
    lemma_sub_two_valid(c, a, b);
    assert(valid_counts(sub_two(c, a, b), 5) && spec_class7(c) == spec_class_nonflush(
        sub_two(c, a, b),
    ));
}

/// The 7-card class of a pattern, by trying every pair of removals from
/// `(i, j)` on.
fn class7_step(counts: &Vec<u8>, i: usize, j: usize) -> (r: u32)
    requires
        counts@.len() == 13,
        i <= j <= 13,
    ensures
        r == class7_rec(counts@.map_values(|x: u8| x as int), i as int, j as int),
    decreases 13 - i, 14 - j,
{
    let ghost c = counts@.map_values(|x: u8| x as int);
    if i >= 13 {
        0
    } else if j >= 13 {
        class7_step(counts, i + 1, i + 1)
    } else {
        let rest = class7_step(counts, i, j + 1);
        let ok = if i == j {
            counts[i] >= 2
        } else {
            counts[i] >= 1 && counts[j] >= 1
        };
        if ok {
            let mut sub: Vec<u8> = Vec::new();
            let mut k: usize = 0;
            while k < 13
                invariant
                    k <= 13,
                    counts@.len() == 13,
                    sub@.len() == k,
                    forall|q: int| 0 <= q < k ==> sub@[q] == counts@[q],
                decreases 13 - k,
            {
                sub.push(counts[k]);
                k = k + 1;
            }
            let vi = sub[i];
            if i == j {
                sub.set(i, vi - 2);
            } else {
                sub.set(i, vi - 1);
                let vj = sub[j];
                sub.set(j, vj - 1);
            }
            proof {
                assert(pair_ok(c, i as int, j as int));
                assert(sub@.map_values(|x: u8| x as int) =~= sub_two(c, i as int, j as int));
            }
            let cur = class_nonflush(&sub);
            if cur > rest {
                cur
            } else {
                rest
            }
        } else {
            proof {
                assert(!pair_ok(c, i as int, j as int));
            }
            rest
        }
    }
}

/// The 7-card class of a valid rank-count pattern.
pub fn class7(counts: &Vec<u8>) -> (r: u32)
    requires
        counts@.len() == 13,
    ensures
        r == spec_class7(counts@.map_values(|x: u8| x as int)),
{
    class7_step(counts, 0, 0)
}

/// The rank-weight sum of the counts below index `i`.
pub open spec fn weight_upto(c: Seq<u8>, i: int) -> int
    decreases i,
{
    if i <= 0 {
        0
    } else {
        weight_upto(c, i - 1) + c[i - 1] * spec_rank_base(i - 1)
    }
}

/// Prefix rank-weight sums only read the prefix.
proof fn lemma_weight_upto_equal(c1: Seq<u8>, c2: Seq<u8>, i: int)
    requires
        forall|j: int| 0 <= j < i ==> c1[j] == c2[j],
    ensures
        weight_upto(c1, i) == weight_upto(c2, i),
    decreases i,
{
    if i > 0 {
        lemma_weight_upto_equal(c1, c2, i - 1);
    }
}

/// The whole rank-weight sum splits at `i` into the prefix part and the
/// tail part of the integer view.
proof fn lemma_weight_split(counts: Seq<u8>, c: Seq<int>, i: int)
    requires
        counts.len() == 13,
        c.len() == 13,
        forall|j: int| 0 <= j < 13 ==> c[j] == counts[j] as int,
        0 <= i <= 13,
    ensures
        weight_upto(counts, i) + weight_from(c, i) == weight_upto(counts, 13),
    decreases 13 - i,
{
    if i < 13 {
        lemma_weight_split(counts, c, i + 1);
    }
}

/// A rank-weight prefix sum of counts summing to at most 7 stays below 2^23.
proof fn lemma_weight_upto_le(c: Seq<u8>, i: int)
    requires
        c.len() == 13,
        0 <= i <= 13,
    ensures
        0 <= weight_upto(c, i) <= 1479181 * sum_upto_pub(c, i),
    decreases i,
{
    if i > 0 {
        lemma_weight_upto_le(c, i - 1);
        crate::encoding::lemma_rank_base_bounds(i - 1);
        assert(c[i - 1] * spec_rank_base(i - 1) <= c[i - 1] * 1479181) by (nonlinear_arith)
            requires
                c[i - 1] >= 0,
                spec_rank_base(i - 1) <= 1479181,
        ;
        assert(c[i - 1] * spec_rank_base(i - 1) >= 0) by (nonlinear_arith)
            requires
                c[i - 1] >= 0,
                spec_rank_base(i - 1) >= 0,
        ;
    }
}

/// The rank-count prefix sum, shared with the rank-table enumeration.
pub open spec fn sum_upto_pub(c: Seq<u8>, i: int) -> int {
    sum_upto(c, i)
}

/// A lookup entry: the rank key of a pattern and its strength.
pub open spec fn entry_matches(e: (u64, u16), rt: Seq<u32>, c: Seq<int>) -> bool {
    e.0 as int == key_of(c) && e.1 as int == spec_strength7(rt, c)
}

/// `c` agrees with the counts fixed below `rank` and puts `rem` more cards
/// on the ranks from `rank` up (the 7-card version).
pub open spec fn extends_counts7(c: Seq<int>, counts: Seq<u8>, rank: int, rem: int) -> bool {
    &&& c.len() == 13
    &&& forall|j: int| 0 <= j < rank ==> c[j] == counts[j] as int
    &&& forall|r: int| 0 <= r < 13 ==> 0 <= #[trigger] c[r] <= 4
    &&& sum_from(c, rank) == rem
}

/// Pushes the lookup entry of every valid 7-card rank-count pattern that
/// extends the fixed prefix.
fn enum_rank_entries(
    entries: &mut Vec<(u64, u16)>,
    counts: &mut Vec<u8>,
    rank: usize,
    rem: usize,
    key: u64,
    rt: &Vec<u32>,
    Ghost(owners_in): Ghost<Seq<Seq<int>>>,
) -> (owners: Ghost<Seq<Seq<int>>>)
    requires
        rank_table_wf(rt@),
        old(counts)@.len() == 13,
        rank <= 13,
        rem <= 7,
        forall|j: int| 0 <= j < rank ==> 0 <= #[trigger] old(counts)@[j] <= 4,
        forall|j: int| rank <= j < 13 ==> old(counts)@[j] == 0,
        sum_upto(old(counts)@, rank as int) + rem == 7,
        key as int == weight_upto(old(counts)@, rank as int),
        key <= 10354267,
        owners_in.len() == old(entries)@.len(),
    ensures
        final(counts)@ == old(counts)@,
        old(entries)@.len() <= final(entries)@.len(),
        forall|idx: int|
            0 <= idx < old(entries)@.len() ==> final(entries)@[idx] == old(entries)@[idx],
        owners@.len() == final(entries)@.len(),
        forall|idx: int| 0 <= idx < owners_in.len() ==> owners@[idx] == owners_in[idx],
        forall|c: Seq<int>|
            #[trigger] extends_counts7(c, old(counts)@, rank as int, rem as int) ==> exists|
                idx: int,
            |
                0 <= idx < final(entries)@.len() && entry_matches(
                    #[trigger] final(entries)@[idx],
                    rt@,
                    c,
                ) && owners@[idx] == c,
    decreases 13 - rank,
{
    if rank == 13 {
        if rem == 0 {
            let ghost cfull = counts@.map_values(|x: u8| x as int);
            proof {
                lemma_weight_split(counts@, cfull, 0);
                crate::rank_table::lemma_sum_split_pub(counts@, cfull, 0);
                assert(valid_counts(cfull, 7));
            }
            let cls = class7(counts);
            proof {
                lemma_class7_props(cfull);
            }
            let kev = rank_of_class(rt, cls);
            let strength = adjust_hand_rank(kev);
            let ghost n0 = entries@.len();
            entries.push((key, strength));
            let ghost owners_out = owners_in.push(cfull);
            proof {
                assert forall|c: Seq<int>|
                    #[trigger] extends_counts7(c, old(counts)@, rank as int, rem as int) implies
                    exists|idx: int|
                        0 <= idx < entries@.len() && entry_matches(
                            #[trigger] entries@[idx],
                            rt@,
                            c,
                        ) && owners_out[idx] == c by {
                    assert(c =~= cfull);
                    assert(entry_matches(entries@[n0 as int], rt@, cfull));
                    assert(owners_out[n0 as int] == cfull);
                }
            }
            return Ghost(owners_out);
        } else {
            proof {
                assert forall|c: Seq<int>|
                    #[trigger] extends_counts7(c, old(counts)@, rank as int, rem as int) implies
                    exists|idx: int|
                        0 <= idx < entries@.len() && entry_matches(
                            #[trigger] entries@[idx],
                            rt@,
                            c,
                        ) by {
                    assert(sum_from(c, 13) == 0);
                    assert(false);
                }
            }
        }
        return Ghost(owners_in);
    }
    let maxc: usize = if rem < 4 {
        rem
    } else {
        4
    };
    let mut cnt: usize = 0;
    let ghost counts_in = counts@;
    let ghost entries_in = entries@;
    let ghost mut owners_cur = owners_in;
    while cnt <= maxc
        invariant
            cnt <= maxc + 1,
            maxc <= 4,
            maxc <= rem,
            rem <= 7,
            rank < 13,
            rem < 4 ==> maxc == rem,
            rem >= 4 ==> maxc == 4,
            rank_table_wf(rt@),
            counts@.len() == 13,
            counts_in.len() == 13,
            forall|j: int| 0 <= j < rank ==> counts@[j] == counts_in[j],
            forall|j: int| rank < j < 13 ==> counts@[j] == 0,
            forall|j: int| 0 <= j < rank ==> 0 <= #[trigger] counts_in[j] <= 4,
            forall|j: int| rank <= j < 13 ==> counts_in[j] == 0,
            sum_upto(counts_in, rank as int) + rem == 7,
            key as int == weight_upto(counts_in, rank as int),
            key <= 10354267,
            entries_in.len() <= entries@.len(),
            forall|idx: int| 0 <= idx < entries_in.len() ==> entries@[idx] == entries_in[idx],
            owners_cur.len() == entries@.len(),
            owners_in.len() == entries_in.len(),
            forall|idx: int| 0 <= idx < owners_in.len() ==> owners_cur[idx] == owners_in[idx],
            forall|c: Seq<int>|
                #[trigger] extends_counts7(c, counts_in, rank as int, rem as int) && c[rank as int]
                    < cnt ==> exists|idx: int|
                    0 <= idx < entries@.len() && entry_matches(#[trigger] entries@[idx], rt@, c)
                        && owners_cur[idx] == c,
        decreases maxc + 1 - cnt,
    {
        counts.set(rank, cnt as u8);
        let ghost counts_mid = counts@;
        let rb = rank_base(rank);
        proof {
            crate::rank_table::lemma_sum_upto_equal_pub(counts_mid, counts_in, rank as int);
            lemma_weight_upto_equal(counts_mid, counts_in, rank as int);
            assert(sum_upto(counts_mid, rank as int + 1) == sum_upto(counts_in, rank as int)
                + cnt);
            assert(weight_upto(counts_mid, rank as int + 1) == weight_upto(counts_in, rank as int)
                + cnt * spec_rank_base(rank as int));
            crate::encoding::lemma_rank_base_bounds(rank as int);
            assert(cnt * spec_rank_base(rank as int) <= 4 * 1479181) by (nonlinear_arith)
                requires
                    0 <= cnt <= 4,
                    0 <= spec_rank_base(rank as int) <= 1479181,
            ;
            assert(cnt * spec_rank_base(rank as int) >= 0) by (nonlinear_arith)
                requires
                    cnt >= 0,
                    spec_rank_base(rank as int) >= 0,
            ;
            lemma_weight_upto_le(counts_mid, rank as int + 1);
            crate::rank_table::lemma_sum_upto_nonneg_pub(counts_mid, rank as int + 1);
            assert forall|j: int| 0 <= j < rank + 1 implies 0 <= #[trigger] counts_mid[j]
                <= 4 by {
                if j < rank {
                    assert(counts_mid[j] == counts_in[j]);
                } else {
                    assert(counts_mid[j] == cnt as u8);
                }
            }
        }
        let key2 = key + (cnt as u64) * rb;
        let ghost entries_before = entries@;
        let ghost owners_before = owners_cur;
        let Ghost(owners_next) = enum_rank_entries(
            entries,
            counts,
            rank + 1,
            rem - cnt,
            key2,
            rt,
            Ghost(owners_cur),
        );
        proof {
            owners_cur = owners_next;
            assert(counts@ == counts_mid);
            assert forall|c: Seq<int>|
                #[trigger] extends_counts7(c, counts_in, rank as int, rem as int) && c[rank as int]
                    < cnt + 1 implies exists|idx: int|
                0 <= idx < entries@.len() && entry_matches(#[trigger] entries@[idx], rt@, c)
                    && owners_cur[idx] == c by {
                if c[rank as int] == cnt {
                    assert(extends_counts7(c, counts_mid, rank as int + 1, rem as int - cnt)) by {
                        assert(counts_mid[rank as int] as int == cnt as int);
                        assert(sum_from(c, rank as int) == c[rank as int] + sum_from(
                            c,
                            rank as int + 1,
                        ));
                    }
                } else {
                    assert(c[rank as int] < cnt);
                    let idx = choose|idx: int|
                        0 <= idx < entries_before.len() && entry_matches(
                            #[trigger] entries_before[idx],
                            rt@,
                            c,
                        ) && owners_before[idx] == c;
                    assert(entries@[idx] == entries_before[idx]);
                    assert(owners_cur[idx] == owners_before[idx]);
                }
            }
        }
        cnt = cnt + 1;
    }
    counts.set(rank, 0);
    proof {
        assert(counts@ =~= counts_in);
        assert forall|c: Seq<int>|
            #[trigger] extends_counts7(c, counts_in, rank as int, rem as int) implies exists|
            idx: int,
        |
            0 <= idx < entries@.len() && entry_matches(#[trigger] entries@[idx], rt@, c)
                && owners_cur[idx] == c by {
            crate::rank_table::lemma_sum_from_nonneg(c, rank as int + 1);
            assert(sum_from(c, rank as int) == c[rank as int] + sum_from(c, rank as int + 1));
            assert(c[rank as int] <= rem);
            assert(c[rank as int] < cnt);
        }
    }
    Ghost(owners_cur)
}

/// Builds the displacement table by first-fit-decreasing search: buckets of
/// mixed keys, largest first, each displaced to the first stretch of free
/// slots. Only safety is proved here; the table's correctness is validated
/// afterwards, when the lookup table is filled.
fn build_offsets(entries: &Vec<(u64, u16)>) -> (r: Option<Vec<i32>>)
    ensures
        match r {
            Some(offsets) => offsets@.len() == 8192,
            None => true,
        },
{
    let n = entries.len();
    if n > 1000000 {
        return None;
    }
    let mut sizes: Vec<usize> = Vec::new();
    let mut i: usize = 0;
    while i < 8192
        invariant
            sizes@.len() == i,
            i <= 8192,
            forall|j: int| 0 <= j < i ==> #[trigger] sizes@[j] == 0,
        decreases 8192 - i,
    {
        sizes.push(0);
        i = i + 1;
    }
    let mut idx: usize = 0;
    while idx < n
        invariant
            sizes@.len() == 8192,
            n == entries@.len(),
            idx <= n,
            n <= 1000000,
            forall|b: int| 0 <= b < 8192 ==> #[trigger] sizes@[b] <= idx,
        decreases n - idx,
    {
        let key = entries[idx].0;
        let mixed = key.wrapping_mul(MIX_MULTIPLIER) & 0x7fffff;
        proof {
            assert(mixed <= 0x7fffff && mixed >> 10u64 < 8192) by (bit_vector)
                requires
                    mixed == key.wrapping_mul(MIX_MULTIPLIER) & 0x7fffff,
            ;
        }
        let b = (mixed >> 10u64) as usize;
        let cur = sizes[b];
        sizes.set(b, cur + 1);
        idx = idx + 1;
    }
    // prefix starts
    let mut starts: Vec<usize> = Vec::new();
    let mut cum: usize = 0;
    let mut b2: usize = 0;
    starts.push(0);
    while b2 < 8192
        invariant
            starts@.len() == b2 + 1,
            b2 <= 8192,
            n == entries@.len(),
            n <= 1000000,
            sizes@.len() == 8192,
            cum <= 11000000,
            forall|k: int| 0 <= k < 8192 ==> #[trigger] sizes@[k] <= 1000000,
            forall|k: int| 0 <= k < starts@.len() ==> #[trigger] starts@[k] <= cum,
            starts@[b2 as int] == cum,
        decreases 8192 - b2,
    {
        if cum > 10000000 {
            return None;
        }
        cum = cum + sizes[b2];
        starts.push(cum);
        b2 = b2 + 1;
    }
    if cum != n {
        return None;
    }
    // flat columns, bucket-sorted
    let mut flat: Vec<u64> = Vec::new();
    let mut i2: usize = 0;
    while i2 < n
        invariant
            flat@.len() == i2,
            i2 <= n,
        decreases n - i2,
    {
        flat.push(0);
        i2 = i2 + 1;
    }
    let mut cursor: Vec<usize> = Vec::new();
    let mut b3: usize = 0;
    while b3 < 8192
        invariant
            cursor@.len() == b3,
            b3 <= 8192,
            starts@.len() == 8193,
            forall|k: int| 0 <= k < b3 ==> cursor@[k] == starts@[k],
        decreases 8192 - b3,
    {
        cursor.push(starts[b3]);
        b3 = b3 + 1;
    }
    let mut idx2: usize = 0;
    while idx2 < n
        invariant
            cursor@.len() == 8192,
            flat@.len() == n,
            n == entries@.len(),
            idx2 <= n,
        decreases n - idx2,
    {
        let key = entries[idx2].0;
        let mixed = key.wrapping_mul(MIX_MULTIPLIER) & 0x7fffff;
        proof {
            assert(mixed <= 0x7fffff && mixed >> 10u64 < 8192 && (mixed & 1023) <= 1023)
                by (bit_vector)
                requires
                    mixed == key.wrapping_mul(MIX_MULTIPLIER) & 0x7fffff,
            ;
        }
        let b = (mixed >> 10u64) as usize;
        let col = mixed & 1023;
        let pos = cursor[b];
        if pos >= n {
            return None;
        }
        flat.set(pos, col);
        cursor.set(b, pos + 1);
        idx2 = idx2 + 1;
    }
    // largest bucket size
    let mut maxlen: usize = 0;
    let mut b4: usize = 0;
    while b4 < 8192
        invariant
            sizes@.len() == 8192,
            b4 <= 8192,
            maxlen <= 1000000,
            forall|k: int| 0 <= k < 8192 ==> #[trigger] sizes@[k] <= 1000000,
        decreases 8192 - b4,
    {
        if sizes[b4] > maxlen {
            maxlen = sizes[b4];
        }
        b4 = b4 + 1;
    }
    // first-fit-decreasing placement
    let mut filled: Vec<bool> = Vec::new();
    let mut i3: usize = 0;
    while i3 < HASH_CAP
        invariant
            filled@.len() == i3,
            i3 <= HASH_CAP,
        decreases HASH_CAP - i3,
    {
        filled.push(false);
        i3 = i3 + 1;
    }
    let mut offsets: Vec<i32> = Vec::new();
    let mut i4: usize = 0;
    while i4 < 8192
        invariant
            offsets@.len() == i4,
            i4 <= 8192,
        decreases 8192 - i4,
    {
        offsets.push(0);
        i4 = i4 + 1;
    }
    let mut least: usize = 0;
    let mut l: usize = maxlen;
    while l >= 1
        invariant
            sizes@.len() == 8192,
            starts@.len() == 8193,
            flat@.len() == n,
            filled@.len() == HASH_CAP,
            offsets@.len() == 8192,
            least <= HASH_CAP,
            l <= 1000000,
        decreases l,
    {
        let mut b: usize = 0;
        while b < 8192
            invariant
                sizes@.len() == 8192,
                starts@.len() == 8193,
                flat@.len() == n,
                filled@.len() == HASH_CAP,
                offsets@.len() == 8192,
                least <= HASH_CAP,
                b <= 8192,
            decreases 8192 - b,
        {
            if sizes[b] == l {
                let s0 = starts[b];
                let e0 = starts[b + 1];
                if s0 > e0 || e0 > n {
                    return None;
                }
                // the smallest column of the bucket
                let mut minc: u64 = 1024;
                let mut k: usize = s0;
                while k < e0
                    invariant
                        flat@.len() == n,
                        s0 <= k <= e0 <= n,
                        minc <= 1024,
                        forall|q: int| s0 <= q < k ==> minc <= #[trigger] flat@[q],
                    decreases e0 - k,
                {
                    if flat[k] < minc {
                        minc = flat[k];
                    }
                    k = k + 1;
                }
                if minc > 1023 {
                    return None;
                }
                // first displacement where every column lands on a free slot
                let mut base: usize = least;
                let mut placed = false;
                while !placed
                    invariant
                        flat@.len() == n,
                        filled@.len() == HASH_CAP,
                        offsets@.len() == 8192,
                        least <= HASH_CAP,
                        b < 8192,
                        s0 <= e0 <= n,
                        minc <= 1023,
                        base <= HASH_CAP,
                        forall|q: int| s0 <= q < e0 ==> minc <= #[trigger] flat@[q],
                    decreases HASH_CAP - base, (if placed {
                        0int
                    } else {
                        1int
                    }),
                {
                    if base + 1024 > HASH_CAP {
                        return None;
                    }
                    let mut free = true;
                    let mut k2: usize = s0;
                    while k2 < e0
                        invariant
                            flat@.len() == n,
                            filled@.len() == HASH_CAP,
                            s0 <= k2 <= e0 <= n,
                            minc <= 1023,
                            base + 1024 <= HASH_CAP,
                            forall|q: int| s0 <= q < e0 ==> minc <= #[trigger] flat@[q],
                        decreases e0 - k2,
                    {
                        let col = flat[k2];
                        if col > 1023 {
                            return None;
                        }
                        proof {
                            assert(minc <= flat@[k2 as int]);
                        }
                        let pos = base + ((col - minc) as usize);
                        if filled[pos] {
                            free = false;
                        }
                        k2 = k2 + 1;
                    }
                    if free {
                        let mut k3: usize = s0;
                        while k3 < e0
                            invariant
                                flat@.len() == n,
                                filled@.len() == HASH_CAP,
                                s0 <= k3 <= e0 <= n,
                                minc <= 1023,
                                base + 1024 <= HASH_CAP,
                                forall|q: int| s0 <= q < e0 ==> minc <= #[trigger] flat@[q],
                            decreases e0 - k3,
                        {
                            let col = flat[k3];
                            if col > 1023 {
                                return None;
                            }
                            proof {
                                assert(minc <= flat@[k3 as int]);
                            }
                            let pos = base + ((col - minc) as usize);
                            filled.set(pos, true);
                            k3 = k3 + 1;
                        }
                        // offsets[b] displaces a mixed key to its slot:
                        // (b << 10 | col) + offsets[b] == base + col - minc
                        let off_val: i64 = (base as i64) - (minc as i64) - ((b as i64) * 1024);
                        if off_val < -2147483648i64 || off_val > 2147483647i64 {
                            return None;
                        }
                        offsets.set(b, off_val as i32);
                        placed = true;
                        while least < HASH_CAP && filled[least]
                            invariant
                                filled@.len() == HASH_CAP,
                                least <= HASH_CAP,
                            decreases HASH_CAP - least,
                        {
                            least = least + 1;
                        }
                    } else {
                        base = base + 1;
                    }
                }
            }
            b = b + 1;
        }
        l = l - 1;
    }
    Some(offsets)
}

/// Validates the perfect hash and fills the lookup table: every entry's key
/// must land in bounds on a slot of its own. Returns `None` when two keys
/// collide, which would mean the rank weights do not have the unique-sum
/// property or the displacement search failed.
fn build_lookup(entries: &Vec<(u64, u16)>, offsets: &Vec<i32>) -> (r: Option<Vec<u16>>)
    requires
        offsets@.len() == 8192,
    ensures
        match r {
            Some(lookup) => {
                &&& lookup@.len() <= HASH_CAP
                &&& forall|i: int|
                    0 <= i < entries@.len() ==> 0 <= #[trigger] spec_hash(
                        offsets@,
                        entries@[i].0,
                    ) < lookup@.len() && lookup@[spec_hash(offsets@, entries@[i].0)] == entries@[i].1
                &&& forall|i: int, j: int|
                    0 <= i < entries@.len() && 0 <= j < entries@.len() && i != j ==> spec_hash(
                        offsets@,
                        #[trigger] entries@[i].0,
                    ) != spec_hash(offsets@, #[trigger] entries@[j].0)
            },
            None => true,
        },
{
    let n = entries.len();
    let mut seen: Vec<bool> = Vec::new();
    let mut i0: usize = 0;
    while i0 < HASH_CAP
        invariant
            seen@.len() == i0,
            i0 <= HASH_CAP,
            forall|x: int| 0 <= x < i0 ==> !(#[trigger] seen@[x]),
        decreases HASH_CAP - i0,
    {
        seen.push(false);
        i0 = i0 + 1;
    }
    let mut hashes: Vec<usize> = Vec::new();
    let mut maxh: usize = 0;
    let mut idx: usize = 0;
    while idx < n
        invariant
            seen@.len() == HASH_CAP,
            offsets@.len() == 8192,
            n == entries@.len(),
            idx <= n,
            hashes@.len() == idx,
            maxh < HASH_CAP,
            forall|j: int|
                0 <= j < idx ==> #[trigger] hashes@[j] as int == spec_hash(
                    offsets@,
                    entries@[j].0,
                ),
            forall|j: int| 0 <= j < idx ==> #[trigger] hashes@[j] <= maxh,
            forall|j: int| 0 <= j < idx ==> #[trigger] hashes@[j] < HASH_CAP,
            forall|j1: int, j2: int|
                0 <= j1 < j2 < idx ==> #[trigger] hashes@[j1] != #[trigger] hashes@[j2],
            forall|x: int|
                0 <= x < HASH_CAP ==> (#[trigger] seen@[x] <==> exists|j: int|
                    0 <= j < idx && hashes@[j] == x),
        decreases n - idx,
    {
        let key = entries[idx].0;
        let mixed = key.wrapping_mul(MIX_MULTIPLIER) & 0x7fffff;
        proof {
            assert(mixed <= 0x7fffff && mixed >> 10u64 < 8192) by (bit_vector)
                requires
                    mixed == key.wrapping_mul(MIX_MULTIPLIER) & 0x7fffff,
            ;
            lemma_shr10_is_div(mixed);
        }
        let bucket = (mixed >> 10u64) as usize;
        let off = offsets[bucket];
        let h_i64 = (mixed as i64) + (off as i64);
        if h_i64 < 0 || h_i64 >= (HASH_CAP as i64) {
            return None;
        }
        let h = h_i64 as usize;
        proof {
            assert(h as int == spec_hash(offsets@, key));
        }
        if seen[h] {
            return None;
        }
        let ghost hs0 = hashes@;
        let ghost seen0 = seen@;
        seen.set(h, true);
        hashes.push(h);
        if h > maxh {
            maxh = h;
        }
        proof {
            assert(hashes@ == hs0.push(h));
            assert forall|j1: int, j2: int|
                0 <= j1 < j2 < idx + 1 implies #[trigger] hashes@[j1]
                != #[trigger] hashes@[j2] by {
                if j2 == idx {
                    assert(hashes@[j2] == h);
                    assert(hashes@[j1] == hs0[j1]);
                    assert(!seen0[h as int]);
                    if hs0[j1] == h {
                        assert(seen0[h as int]);
                    }
                } else {
                    assert(hashes@[j1] == hs0[j1] && hashes@[j2] == hs0[j2]);
                }
            }
            assert forall|x: int|
                0 <= x < HASH_CAP implies (#[trigger] seen@[x] <==> exists|j: int|
                0 <= j < idx + 1 && hashes@[j] == x) by {
                if x == h {
                    assert(hashes@[idx as int] == h);
                    assert(seen@[x]);
                } else {
                    assert(seen@[x] == seen0[x]);
                    if seen0[x] {
                        let j = choose|j: int| 0 <= j < idx && hs0[j] == x;
                        assert(hashes@[j] == x);
                    }
                    if exists|j: int| 0 <= j < idx + 1 && hashes@[j] == x {
                        let j = choose|j: int| 0 <= j < idx + 1 && hashes@[j] == x;
                        assert(j != idx);
                        assert(hs0[j] == x);
                        assert(seen0[x]);
                    }
                }
            }
        }
        idx = idx + 1;
    }
    // the hashes are pairwise distinct: each was unseen when it arrived
    proof {
        assert forall|i: int, j: int|
            0 <= i < n && 0 <= j < n && i != j implies spec_hash(offsets@, #[trigger] entries@[i].0)
            != spec_hash(offsets@, #[trigger] entries@[j].0) by {
            if i < j {
                assert(hashes@[i] != hashes@[j]);
            } else {
                assert(hashes@[j] != hashes@[i]);
            }
        }
    }
    let mut lookup: Vec<u16> = Vec::new();
    let mut i1: usize = 0;
    while i1 < maxh + 1
        invariant
            lookup@.len() == i1,
            i1 <= maxh + 1,
            maxh < HASH_CAP,
        decreases maxh + 1 - i1,
    {
        lookup.push(0);
        i1 = i1 + 1;
    }
    let mut idx2: usize = 0;
    while idx2 < n
        invariant
            lookup@.len() == maxh + 1,
            maxh < HASH_CAP,
            n == entries@.len(),
            hashes@.len() == n,
            idx2 <= n,
            forall|j: int| 0 <= j < n ==> #[trigger] hashes@[j] <= maxh,
            forall|j: int|
                0 <= j < n ==> #[trigger] hashes@[j] as int == spec_hash(offsets@, entries@[j].0),
            forall|j1: int, j2: int|
                0 <= j1 < n && 0 <= j2 < n && j1 != j2 ==> #[trigger] hashes@[j1]
                    != #[trigger] hashes@[j2],
            forall|j: int|
                0 <= j < idx2 ==> lookup@[#[trigger] hashes@[j] as int] == entries@[j].1,
        decreases n - idx2,
    {
        let h = hashes[idx2];
        lookup.set(h, entries[idx2].1);
        idx2 = idx2 + 1;
    }
    proof {
        assert forall|i: int|
            0 <= i < n implies 0 <= #[trigger] spec_hash(offsets@, entries@[i].0) < lookup@.len()
            && lookup@[spec_hash(offsets@, entries@[i].0)] == entries@[i].1 by {
            assert(hashes@[i] as int == spec_hash(offsets@, entries@[i].0));
            assert(hashes@[i] <= maxh);
            assert(lookup@[hashes@[i] as int] == entries@[i].1);
        }
    }
    Some(lookup)
}

/// Right-shifting a mixed key by ten is dividing by 1024.
proof fn lemma_shr10_is_div(mixed: u64)
    ensures
        mixed >> 10u64 == mixed as int / 1024,
{
    vstd::bits::lemma_u64_shr_is_div(mixed, 10);
    vstd::arithmetic::power2::lemma2_to64();
}

/// Builds the flush lookup table: for every 13-bit rank set holding five to
/// seven ranks, the strength of the flush those ranks make.
fn build_lookup_flush(rt: &Vec<u32>) -> (lf: Vec<u16>)
    requires
        rank_table_wf(rt@),
    ensures
        lf@.len() == 8192,
        forall|fs: u32|
            fs < 8192 && 5 <= popcount32(fs) <= 7 ==> #[trigger] lf@[fs as int] as int
                == spec_flush_strength(rt@, fs),
{
    let mut lf: Vec<u16> = Vec::new();
    let mut fs: u32 = 0;
    while fs < 8192
        invariant
            fs <= 8192,
            lf@.len() == fs,
            rank_table_wf(rt@),
            forall|g: u32|
                g < fs && 5 <= popcount32(g) <= 7 ==> #[trigger] lf@[g as int] as int
                    == spec_flush_strength(rt@, g),
        decreases 8192 - fs,
    {
        let pc = popcount_u32(fs);
        if 5 <= pc && pc <= 7 {
            let cls = class_flush(fs);
            proof {
                assert(is_class5(cls));
            }
            let kev = rank_of_class(rt, cls);
            lf.push(adjust_hand_rank(kev));
        } else {
            lf.push(0);
        }
        fs = fs + 1;
    }
    lf
}

/// A valid 7-card rank-count pattern weighs at most the largest rank key:
/// four aces and three kings.
pub proof fn lemma_key7_bound(c: Seq<int>)
    requires
        valid_counts(c, 7),
    ensures
        0 <= key_of(c) <= 7825759,
{
    lemma_weight_bound_aux(c, 0);
    crate::rank_table::lemma_sum_from_nonneg(c, 1);
}

/// The count-weighted rank-weight tail is bounded by the king's weight times
/// the tail count sum, plus the ace's premium on the ace count.
proof fn lemma_weight_bound_aux(c: Seq<int>, i: int)
    requires
        c.len() == 13,
        forall|r: int| 0 <= r < 13 ==> 0 <= #[trigger] c[r] <= 4,
        0 <= i <= 13,
    ensures
        0 <= weight_from(c, i) <= 636345 * sum_from(c, i) + if i <= 12 {
            842836 * c[12]
        } else {
            0int
        },
    decreases 13 - i,
{
    if i == 13 {
    } else {
        lemma_weight_bound_aux(c, i + 1);
        crate::encoding::lemma_rank_base_bounds(i);
        crate::rank_table::lemma_sum_from_nonneg(c, i + 1);
        if i == 12 {
            assert(c[12] * spec_rank_base(12) == 636345 * c[12] + 842836 * c[12])
                by (nonlinear_arith)
                requires
                    spec_rank_base(12) == 1479181,
            ;
            assert(sum_from(c, 12) == c[12] + sum_from(c, 13));
        } else {
            assert(c[i] * spec_rank_base(i) <= 636345 * c[i]) by (nonlinear_arith)
                requires
                    0 <= c[i],
                    spec_rank_base(i) <= 636345,
            ;
            assert(c[i] * spec_rank_base(i) >= 0) by (nonlinear_arith)
                requires
                    0 <= c[i],
                    0 <= spec_rank_base(i),
            ;
            assert(636345 * c[i] + 636345 * sum_from(c, i + 1) == 636345 * (c[i] + sum_from(
                c,
                i + 1,
            ))) by (nonlinear_arith);
        }
    }
}

/// `k` is the rank key of some valid 7-card rank-count pattern.
pub open spec fn reachable_key(k: u64) -> bool {
    exists|c: Seq<int>| #[trigger] valid_counts(c, 7) && k as int == key_of(c)
}

/// The evaluator tables: flush classification, displacement and lookup
/// tables of the perfect hash, flush strengths, and the sorted class table
/// they were built from.
pub struct Tables {
    pub flush_table: Vec<i8>,
    pub offsets: Vec<i32>,
    pub lookup: Vec<u16>,
    pub lookup_flush: Vec<u16>,
    pub rank_table: Vec<u32>,
}

/// Well-formed tables: every slot the evaluator can reach agrees with the
/// mathematical strength of the hand that reaches it, and distinct reachable
/// rank keys never share a lookup slot.
pub open spec fn tables_wf(t: Tables) -> bool {
    &&& rank_table_wf(t.rank_table@)
    &&& t.flush_table@.len() == 260
    &&& t.offsets@.len() == 8192
    &&& t.lookup_flush@.len() == 8192
    &&& t.lookup@.len() <= HASH_CAP
    &&& forall|c: Seq<int>|
        #[trigger] valid_suit_counts(c) ==> 0 <= key_suit(c) < 260 && t.flush_table@[key_suit(c)]
            == spec_flush_val(c)
    &&& forall|fs: u32|
        fs < 8192 && 5 <= popcount32(fs) <= 7 ==> #[trigger] t.lookup_flush@[fs as int] as int
            == spec_flush_strength(t.rank_table@, fs)
    &&& forall|c: Seq<int>|
        #[trigger] valid_counts(c, 7) ==> 0 <= spec_hash(t.offsets@, key_of(c) as u64)
            < t.lookup@.len() && t.lookup@[spec_hash(t.offsets@, key_of(c) as u64)] as int
            == spec_strength7(t.rank_table@, c)
    &&& forall|k1: u64, k2: u64|
        reachable_key(k1) && reachable_key(k2) && k1 != k2 ==> #[trigger] spec_hash(t.offsets@, k1)
            != #[trigger] spec_hash(t.offsets@, k2)
    &&& forall|c1: Seq<int>, c2: Seq<int>|
        valid_counts(c1, 7) && valid_counts(c2, 7) && c1 != c2 ==> #[trigger] key_of(c1)
            != #[trigger] key_of(c2)
}

impl Tables {
    /// Builds and validates the evaluator tables. `None` can arise only from
    /// the runtime validation of the rank weights: the class count check
    /// (then no well-formed class table exists at all) or a collision in the
    /// perfect-hash check, which would refute the rank weights' unique-sum
    /// property over the reachable 7-card patterns. That property holds for
    /// the weights this crate carries, but only the construction run checks
    /// it; the suit-weight side and everything else of the construction is
    /// proved total.
    pub fn build() -> (r: Option<Tables>)
        ensures
            match r {
                Some(t) => tables_wf(t),
                None => true,
            },
    {
        let rt = match build_rank_table() {
            Some(x) => x,
            None => {
                return None;
            },
        };
        let ft = build_flush_table();
        let lf = build_lookup_flush(&rt);
        let mut entries: Vec<(u64, u16)> = Vec::new();
        let mut counts: Vec<u8> = Vec::new();
        let mut i: usize = 0;
        while i < 13
            invariant
                i <= 13,
                counts@.len() == i,
                forall|j: int| 0 <= j < i ==> counts@[j] == 0,
            decreases 13 - i,
        {
            counts.push(0);
            i = i + 1;
        }
        let Ghost(owners) = enum_rank_entries(
            &mut entries,
            &mut counts,
            0,
            7,
            0,
            &rt,
            Ghost(Seq::<Seq<int>>::empty()),
        );
        let offsets = match build_offsets(&entries) {
            Some(x) => x,
            None => {
                return None;
            },
        };
        let lookup = match build_lookup(&entries, &offsets) {
            Some(x) => x,
            None => {
                return None;
            },
        };
        let t = Tables { flush_table: ft, offsets, lookup, lookup_flush: lf, rank_table: rt };
        proof {
            assert forall|c: Seq<int>| #[trigger] valid_counts(c, 7) implies 0 <= spec_hash(
                t.offsets@,
                key_of(c) as u64,
            ) < t.lookup@.len() && t.lookup@[spec_hash(t.offsets@, key_of(c) as u64)] as int
                == spec_strength7(t.rank_table@, c) by {
                assert(extends_counts7(c, counts@, 0, 7));
                let idx = choose|idx: int|
                    0 <= idx < entries@.len() && entry_matches(#[trigger] entries@[idx], rt@, c)
                        && owners[idx] == c;
                lemma_key7_bound(c);
                assert(entries@[idx].0 == key_of(c) as u64);
                assert(0 <= spec_hash(offsets@, entries@[idx].0) < lookup@.len());
                assert(lookup@[spec_hash(offsets@, entries@[idx].0)] == entries@[idx].1);
            }
            assert forall|k1: u64, k2: u64|
                reachable_key(k1) && reachable_key(k2) && k1 != k2 implies #[trigger] spec_hash(
                t.offsets@,
                k1,
            ) != #[trigger] spec_hash(t.offsets@, k2) by {
                let c1 = choose|c: Seq<int>| #[trigger] valid_counts(c, 7) && k1 as int == key_of(
                    c,
                );
                let c2 = choose|c: Seq<int>| #[trigger] valid_counts(c, 7) && k2 as int == key_of(
                    c,
                );
                assert(extends_counts7(c1, counts@, 0, 7));
                assert(extends_counts7(c2, counts@, 0, 7));
                let idx1 = choose|idx: int|
                    0 <= idx < entries@.len() && entry_matches(#[trigger] entries@[idx], rt@, c1)
                        && owners[idx] == c1;
                let idx2 = choose|idx: int|
                    0 <= idx < entries@.len() && entry_matches(#[trigger] entries@[idx], rt@, c2)
                        && owners[idx] == c2;
                lemma_key7_bound(c1);
                lemma_key7_bound(c2);
                assert(entries@[idx1].0 == k1 && entries@[idx2].0 == k2);
                assert(idx1 != idx2);
            }
            // the construction also validates the unique-sum property of the
            // rank weights: two distinct patterns push two entries, and equal
            // keys would collide in the hash check
            assert forall|c1: Seq<int>, c2: Seq<int>|
                valid_counts(c1, 7) && valid_counts(c2, 7) && c1 != c2 implies #[trigger] key_of(
                c1,
            ) != #[trigger] key_of(c2) by {
                assert(extends_counts7(c1, counts@, 0, 7));
                assert(extends_counts7(c2, counts@, 0, 7));
                let idx1 = choose|idx: int|
                    0 <= idx < entries@.len() && entry_matches(#[trigger] entries@[idx], rt@, c1)
                        && owners[idx] == c1;
                let idx2 = choose|idx: int|
                    0 <= idx < entries@.len() && entry_matches(#[trigger] entries@[idx], rt@, c2)
                        && owners[idx] == c2;
                assert(idx1 != idx2);
                if key_of(c1) == key_of(c2) {
                    lemma_key7_bound(c1);
                    lemma_key7_bound(c2);
                    assert(entries@[idx1].0 == entries@[idx2].0);
                    assert(spec_hash(offsets@, entries@[idx1].0) != spec_hash(
                        offsets@,
                        entries@[idx2].0,
                    ));
                }
            }
        }
        Some(t)
    }
}

/// A hand of exactly seven distinct valid cards, witnessed by `s`.
pub open spec fn is_seven_hand(h: Hand, s: Seq<int>) -> bool {
    is_hand(h, s) && s.len() == 7
}

/// The strength of a 7-card hand: the flush strength of the first suit
/// holding five or more of its cards, else the strength of its best five
/// ranks.
pub open spec fn spec_evaluate(rt: Seq<u32>, s: Seq<int>) -> int {
    if count_suit(s, 0) >= 5 {
        spec_flush_strength(rt, rankset_suit(s, 0))
    } else if count_suit(s, 1) >= 5 {
        spec_flush_strength(rt, rankset_suit(s, 1))
    } else if count_suit(s, 2) >= 5 {
        spec_flush_strength(rt, rankset_suit(s, 2))
    } else if count_suit(s, 3) >= 5 {
        spec_flush_strength(rt, rankset_suit(s, 3))
    } else {
        spec_strength7(rt, card_counts(s))
    }
}

/// Two card sequences holding the same cards have the same rank counts, the
/// same per-suit rank sets and the same suit counts.
proof fn lemma_same_cards_same_stats(s1: Seq<int>, s2: Seq<int>)
    requires
        valid_cards(s1),
        distinct_cards(s1),
        valid_cards(s2),
        distinct_cards(s2),
        forall|c: int| valid_card(c) ==> (s1.contains(c) <==> s2.contains(c)),
        crate::counting::mask_or(s1) == crate::counting::mask_or(s2),
    ensures
        card_counts(s1) == card_counts(s2),
        forall|t: int| 0 <= t < 4 ==> rankset_suit(s1, t) == #[trigger] rankset_suit(s2, t),
        forall|t: int| 0 <= t < 4 ==> count_suit(s1, t) == #[trigger] count_suit(s2, t),
{
    assert forall|t: int| 0 <= t < 4 implies rankset_suit(s1, t) == #[trigger] rankset_suit(
        s2,
        t,
    ) by {
        lemma_lane_props(s1, t);
        lemma_lane_props(s2, t);
        assert(rankset_suit(s1, t) as u64 == rankset_suit(s2, t) as u64);
    }
    assert forall|t: int| 0 <= t < 4 implies count_suit(s1, t) == #[trigger] count_suit(
        s2,
        t,
    ) by {
        lemma_lane_props(s1, t);
        lemma_lane_props(s2, t);
    }
    assert forall|r: int| 0 <= r < 13 implies crate::counting::count_rank(s1, r)
        == crate::counting::count_rank(s2, r) by {
        lemma_count_rank_le_4(s1, r);
        lemma_count_rank_le_4(s2, r);
        let a = suitset_rank(s1, r);
        let b = suitset_rank(s2, r);
        assert(valid_card(4 * r + 0) && valid_card(4 * r + 1) && valid_card(4 * r + 2)
            && valid_card(4 * r + 3));
        assert((s1.contains(4 * r + 0) <==> s2.contains(4 * r + 0)) && (s1.contains(4 * r + 1)
            <==> s2.contains(4 * r + 1)) && (s1.contains(4 * r + 2) <==> s2.contains(4 * r + 2))
            && (s1.contains(4 * r + 3) <==> s2.contains(4 * r + 3)));
        assert((0int) as u32 == 0u32 && (1int) as u32 == 1u32 && (2int) as u32 == 2u32 && (3int)
            as u32 == 3u32);
        assert((a & (1u32 << 0u32) != 0) == (b & (1u32 << 0u32) != 0) && (a & (1u32 << 1u32) != 0)
            == (b & (1u32 << 1u32) != 0) && (a & (1u32 << 2u32) != 0) == (b & (1u32 << 2u32) != 0)
            && (a & (1u32 << 3u32) != 0) == (b & (1u32 << 3u32) != 0));
        assert(a == b) by (bit_vector)
            requires
                a < 16,
                b < 16,
                (a & (1u32 << 0u32) != 0) == (b & (1u32 << 0u32) != 0),
                (a & (1u32 << 1u32) != 0) == (b & (1u32 << 1u32) != 0),
                (a & (1u32 << 2u32) != 0) == (b & (1u32 << 2u32) != 0),
                (a & (1u32 << 3u32) != 0) == (b & (1u32 << 3u32) != 0),
        ;
    }
    assert(card_counts(s1) =~= card_counts(s2));
}

/// Any two witnesses of the same seven-card hand give it the same strength:
/// the mask determines the card set, and the strength is a function of the
/// card set.
pub proof fn lemma_evaluate_witness_agree(rt: Seq<u32>, h: Hand, s1: Seq<int>, s2: Seq<int>)
    requires
        is_seven_hand(h, s1),
        is_seven_hand(h, s2),
    ensures
        spec_evaluate(rt, s1) == spec_evaluate(rt, s2),
{
    lemma_mask_props(s1);
    lemma_mask_props(s2);
    assert forall|c: int| valid_card(c) implies (s1.contains(c) <==> s2.contains(c)) by {
        assert(crate::counting::mask_or(s1) == crate::counting::mask_or(s2));
    }
    lemma_same_cards_same_stats(s1, s2);
}

/// The quotient of a key splits off the suit fingerprint above bit 23.
proof fn lemma_key_shift(key: u64, rws: int, sws: int)
    requires
        key == rws + 0x800000 * sws,
        0 <= rws < 0x800000,
        0 <= sws <= 259,
    ensures
        key >> 23u64 == sws,
{
    vstd::bits::lemma_u64_shr_is_div(key, 23);
    vstd::arithmetic::power2::lemma2_to64();
    assert((rws + 0x800000 * sws) / 0x800000 == sws) by (nonlinear_arith)
        requires
            0 <= rws < 0x800000,
            0 <= sws,
    ;
}

/// Mixing ignores the suit fingerprint: only the rank key below bit 23
/// reaches the masked product.
proof fn lemma_mixed_drops_suits(key: u64, rws: u64, sws: int)
    requires
        key == rws + 0x800000 * sws,
        rws < 0x800000,
        0 <= sws <= 259,
    ensures
        spec_mixed(key) == spec_mixed(rws),
{
    let m = MIX_MULTIPLIER;
    let p23 = 0x800000int;
    vstd::arithmetic::power2::lemma2_to64();
    vstd::arithmetic::power2::lemma2_to64_rest();
    assert(vstd::arithmetic::power2::pow2(23) == 0x800000);
    assert(vstd::arithmetic::power2::pow2(41) == 0x20000000000);
    vstd::arithmetic::power2::lemma_pow2_adds(23, 41);
    assert(vstd::arithmetic::power2::pow2(64) == 0x800000 * 0x20000000000) by {
        assert(vstd::arithmetic::power2::pow2(64) == vstd::arithmetic::power2::pow2(23)
            * vstd::arithmetic::power2::pow2(41));
    }
    // masking the low 23 bits is reduction mod 2^23
    vstd::bits::lemma_u64_low_bits_mask_is_mod(
        vstd::wrapping::u64_specs::wrapping_mul(key, m),
        23,
    );
    vstd::bits::lemma_u64_low_bits_mask_is_mod(
        vstd::wrapping::u64_specs::wrapping_mul(rws, m),
        23,
    );
    vstd::bits::lemma_low_bits_mask_values();
    // the wrapping product is the product mod 2^64, and mod 2^23 of that is
    // mod 2^23 of the product
    let pk = (key as int) * (m as int);
    let pr = (rws as int) * (m as int);
    assert(vstd::wrapping::u64_specs::wrapping_mul(key, m) as int == pk % (0x800000int
        * 0x20000000000int)) by {
        lemma_wrapping_mul_is_mod(key, m);
    }
    assert(vstd::wrapping::u64_specs::wrapping_mul(rws, m) as int == pr % (0x800000int
        * 0x20000000000int)) by {
        lemma_wrapping_mul_is_mod(rws, m);
    }
    vstd::arithmetic::div_mod::lemma_mod_mod(pk, p23, 0x20000000000);
    vstd::arithmetic::div_mod::lemma_mod_mod(pr, p23, 0x20000000000);
    // drop the suit part: it is a multiple of 2^23
    assert(pk == p23 * ((sws * m) as int) + pr) by (nonlinear_arith)
        requires
            key == rws + 0x800000 * sws,
            pk == (key as int) * (m as int),
            pr == (rws as int) * (m as int),
            p23 == 0x800000,
    ;
    vstd::arithmetic::div_mod::lemma_mod_multiples_vanish((sws * m) as int, pr, p23);
}

/// A wrapping product is the true product reduced mod 2^64.
proof fn lemma_wrapping_mul_is_mod(x: u64, y: u64)
    ensures
        vstd::wrapping::u64_specs::wrapping_mul(x, y) as int == ((x as int) * (y as int))
            % 0x10000000000000000,
{
    let p = (x as int) * (y as int);
    assert(p >= 0) by (nonlinear_arith)
        requires
            p == (x as int) * (y as int),
            x >= 0,
            y >= 0,
    ;
    if p > u64::MAX {
        vstd::arithmetic::div_mod::lemma_fundamental_div_mod(p, 0x10000000000000000);
    } else {
        vstd::arithmetic::div_mod::lemma_small_mod(p as nat, 0x10000000000000000);
    }
}

/// No two suits can both hold five of seven cards.
proof fn lemma_flush_suit_unique(sc: Seq<int>)
    requires
        valid_suit_counts(sc),
    ensures
        forall|t1: int, t2: int|
            0 <= t1 < t2 < 4 ==> !(#[trigger] sc[t1] >= 5 && #[trigger] sc[t2] >= 5),
{
    reveal_with_fuel(sum_from, 6);
    assert(sum_from(sc, 0) == sc[0] + (sc[1] + (sc[2] + (sc[3] + sum_from(sc, 4)))));
}

/// The strength of any seven-card hand lies in the encoded range and always
/// carries a valid category tag.
pub proof fn lemma_evaluate_range(rt: Seq<u32>, s: Seq<int>)
    requires
        rank_table_wf(rt),
        valid_cards(s),
        distinct_cards(s),
        s.len() == 7,
    ensures
        0 <= spec_evaluate(rt, s) <= 0x8009,
        forall|v: u16|
            v as int == spec_evaluate(rt, s) ==> crate::category::spec_hand_category(v) is Some,
{
    lemma_card_counts_valid(s);
    lemma_suit_counts_of_cards(s);
    let sc = suit_counts(s);
    let k: int;
    if count_suit(s, 0) >= 5 || count_suit(s, 1) >= 5 || count_suit(s, 2) >= 5 || count_suit(s, 3)
        >= 5 {
        let t = if count_suit(s, 0) >= 5 {
            0int
        } else if count_suit(s, 1) >= 5 {
            1int
        } else if count_suit(s, 2) >= 5 {
            2int
        } else {
            3int
        };
        lemma_lane_props(s, t);
        assert(count_suit(s, t) <= 7) by {
            assert(sc[t] == count_suit(s, t));
        }
        let fs = rankset_suit(s, t);
        assert(is_class5(fs_class(fs))) by {
            assert(fs < 8192 && 5 <= popcount32(fs) <= 7);
        }
        crate::rank_table::lemma_rank_of_class_range(rt, fs_class(fs));
        k = spec_rank_of_class(rt, fs_class(fs));
        assert(spec_evaluate(rt, s) == spec_adjust_hand_rank(k));
    } else {
        let cc = card_counts(s);
        lemma_class7_props(cc);
        crate::rank_table::lemma_rank_of_class_range(rt, spec_class7(cc));
        k = spec_rank_of_class(rt, spec_class7(cc));
        assert(spec_evaluate(rt, s) == spec_adjust_hand_rank(k));
    }
    lemma_adjust_total(k);
    assert forall|v: u16| v as int == spec_evaluate(rt, s) implies crate::category::spec_hand_category(
        v,
    ) is Some by {
        crate::category::lemma_adjust_category(k, v);
    }
}

/// The flush class of a rank set, named for use as a single term.
pub open spec fn fs_class(fs: u32) -> u32 {
    spec_class_flush(fs)
}

/// The adjusted strength of an in-range reference rank lies within the
/// 16-bit encoding.
proof fn lemma_adjust_total(k: int)
    requires
        1 <= k <= 7462,
    ensures
        0 <= spec_adjust_hand_rank(k) <= 0x8009,
{
}

impl Hand {
    /// Returns the hand's strength: the top four bits are the category, the
    /// low twelve the ordinal within it, and a larger value is a strictly
    /// better hand. The hand must hold exactly seven cards, accumulated from
    /// distinct valid card ids.
    pub fn evaluate(&self, t: &Tables) -> (r: u16)
        requires
            tables_wf(*t),
            exists|s: Seq<int>| is_seven_hand(*self, s),
        ensures
            forall|s: Seq<int>|
                #[trigger] is_seven_hand(*self, s) ==> r as int == spec_evaluate(
                    t.rank_table@,
                    s,
                ),
    {
        let ghost s = choose|s: Seq<int>| is_seven_hand(*self, s);
        let ghost cc = card_counts(s);
        let ghost sc = suit_counts(s);
        let ghost rws = rank_weight_sum(s);
        let ghost sws = suit_weight_sum(s);
        proof {
            lemma_key_decomposition(s);
            lemma_card_counts_valid(s);
            lemma_counts_of_cards(s);
            lemma_suit_counts_of_cards(s);
            lemma_key7_bound(cc);
            lemma_mask_props(s);
            lemma_suit_weight_le(sc, 0);
            assert(key_of(cc) == rws);
            assert(valid_counts(cc, 7));
            assert(valid_suit_counts(sc)) by {
                assert forall|t0: int| 0 <= t0 < 4 implies 0 <= #[trigger] sc[t0] <= 7 by {
                    assert(sc[t0] == count_suit(s, t0));
                }
            }
            assert(key_suit(sc) == sws);
            lemma_key_shift(self.key, rws, sws);
        }
        let suit_key = (self.key >> 23u64) as usize;
        proof {
            assert(suit_key as int == sws);
            assert(0 <= key_suit(sc) < 260 && t.flush_table@[key_suit(sc)] == spec_flush_val(sc));
        }
        let fv = t.flush_table[suit_key];
        let r: u16;
        if fv >= 0 {
            let t0 = fv as usize;
            proof {
                assert(0 <= fv <= 3);
                assert(sc[t0 as int] >= 5);
                assert(count_suit(s, t0 as int) >= 5);
                lemma_lane_props(s, t0 as int);
                assert(self.mask == crate::counting::mask_or(s));
            }
            let lane64 = (self.mask >> ((16 * t0) as u64)) & 0x1fff;
            let fs = lane64 as u32;
            proof {
                assert(lane64 == crate::counting::lane(crate::counting::mask_or(s), t0 as int));
                assert(fs == rankset_suit(s, t0 as int));
                assert(fs < 8192);
                assert(popcount32(fs) == count_suit(s, t0 as int));
                assert(count_suit(s, t0 as int) <= 7) by {
                    assert(sc[t0 as int] <= 7);
                }
                assert(t.lookup_flush@[fs as int] as int == spec_flush_strength(
                    t.rank_table@,
                    fs,
                ));
            }
            r = t.lookup_flush[fs as usize];
            proof {
                lemma_flush_suit_unique(sc);
                assert(r as int == spec_evaluate(t.rank_table@, s)) by {
                    if fv == 0 {
                        assert(count_suit(s, 0) >= 5);
                    } else if fv == 1 {
                        assert(sc[0] < 5 && count_suit(s, 0) < 5);
                    } else if fv == 2 {
                        assert(count_suit(s, 0) < 5 && count_suit(s, 1) < 5);
                    } else {
                        assert(count_suit(s, 0) < 5 && count_suit(s, 1) < 5 && count_suit(s, 2)
                            < 5);
                    }
                }
            }
        } else {
            proof {
                assert(fv == -1);
                assert(sc[0] < 5 && sc[1] < 5 && sc[2] < 5 && sc[3] < 5);
                lemma_mixed_drops_suits(self.key, rws as u64, sws);
                assert(rws as u64 == key_of(cc) as u64);
                assert(0 <= spec_hash(t.offsets@, key_of(cc) as u64) < t.lookup@.len());
            }
            let hand_key = self.key;
            let mixed = hand_key.wrapping_mul(MIX_MULTIPLIER) & 0x7fffff;
            proof {
                assert(mixed == spec_mixed(key_of(cc) as u64));
                assert(mixed <= 0x7fffff && mixed >> 10u64 < 8192) by (bit_vector)
                    requires
                        mixed == hand_key.wrapping_mul(MIX_MULTIPLIER) & 0x7fffff,
                ;
                lemma_shr10_is_div(mixed);
            }
            let bucket = (mixed >> 10u64) as usize;
            let off = t.offsets[bucket];
            let h_i64 = (mixed as i64) + (off as i64);
            proof {
                assert(h_i64 as int == spec_hash(t.offsets@, key_of(cc) as u64));
            }
            let h = h_i64 as usize;
            r = t.lookup[h];
            proof {
                assert(r as int == spec_strength7(t.rank_table@, cc));
            }
        }
        proof {
            assert forall|s2: Seq<int>| #[trigger] is_seven_hand(*self, s2) implies r as int
                == spec_evaluate(t.rank_table@, s2) by {
                lemma_evaluate_witness_agree(t.rank_table@, *self, s, s2);
            }
        }
        r
    }
}

/// The class a seven-card hand is judged by: its flush class when a suit
/// holds five or more of its cards, else the best five of its rank counts.
pub open spec fn spec_hand_class(s: Seq<int>) -> u32 {
    if count_suit(s, 0) >= 5 {
        spec_class_flush(rankset_suit(s, 0))
    } else if count_suit(s, 1) >= 5 {
        spec_class_flush(rankset_suit(s, 1))
    } else if count_suit(s, 2) >= 5 {
        spec_class_flush(rankset_suit(s, 2))
    } else if count_suit(s, 3) >= 5 {
        spec_class_flush(rankset_suit(s, 3))
    } else {
        spec_class7(card_counts(s))
    }
}

/// The class of a seven-card hand is a class value of the table.
pub proof fn lemma_hand_class_is_class(s: Seq<int>)
    requires
        valid_cards(s),
        distinct_cards(s),
        s.len() == 7,
    ensures
        is_class5(spec_hand_class(s)),
{
    lemma_card_counts_valid(s);
    lemma_suit_counts_of_cards(s);
    let sc = suit_counts(s);
    if count_suit(s, 0) >= 5 || count_suit(s, 1) >= 5 || count_suit(s, 2) >= 5 || count_suit(s, 3)
        >= 5 {
        let t = if count_suit(s, 0) >= 5 {
            0int
        } else if count_suit(s, 1) >= 5 {
            1int
        } else if count_suit(s, 2) >= 5 {
            2int
        } else {
            3int
        };
        lemma_lane_props(s, t);
        assert(count_suit(s, t) <= 7) by {
            assert(sc[t] == count_suit(s, t));
        }
        let fs = rankset_suit(s, t);
        assert(fs < 8192 && 5 <= popcount32(fs) <= 7);
    } else {
        lemma_class7_props(card_counts(s));
    }
}

/// Strength order is class order: the evaluator never inverts two hands.
/// For any two seven-card hands, the hand with the strictly better class
/// gets the strictly larger strength, and equal classes tie exactly.
pub proof fn lemma_strength_matches_class_order(rt: Seq<u32>, s1: Seq<int>, s2: Seq<int>)
    requires
        rank_table_wf(rt),
        valid_cards(s1),
        distinct_cards(s1),
        s1.len() == 7,
        valid_cards(s2),
        distinct_cards(s2),
        s2.len() == 7,
    ensures
        spec_evaluate(rt, s1) > spec_evaluate(rt, s2) <==> spec_hand_class(s1) > spec_hand_class(
            s2,
        ),
        spec_evaluate(rt, s1) == spec_evaluate(rt, s2) <==> spec_hand_class(s1) == spec_hand_class(
            s2,
        ),
{
    lemma_hand_class_is_class(s1);
    lemma_hand_class_is_class(s2);
    let v1 = spec_hand_class(s1);
    let v2 = spec_hand_class(s2);
    assert(spec_evaluate(rt, s1) == spec_adjust_hand_rank(spec_rank_of_class(rt, v1)));
    assert(spec_evaluate(rt, s2) == spec_adjust_hand_rank(spec_rank_of_class(rt, v2)));
    crate::rank_table::lemma_rank_of_class_range(rt, v1);
    crate::rank_table::lemma_rank_of_class_range(rt, v2);
    if v1 > v2 {
        crate::rank_table::lemma_rank_antitone(rt, v2, v1);
        crate::category::lemma_adjust_strictly_decreasing(
            spec_rank_of_class(rt, v1),
            spec_rank_of_class(rt, v2),
        );
    } else if v1 < v2 {
        crate::rank_table::lemma_rank_antitone(rt, v1, v2);
        crate::category::lemma_adjust_strictly_decreasing(
            spec_rank_of_class(rt, v2),
            spec_rank_of_class(rt, v1),
        );
    }
}

/// Two seven-card hands with different rank-count patterns never share the
/// rank fingerprint of their keys: the low 23 key bits are the rank-weight
/// sum, and the rank weights' unique-sum property is validated when the
/// tables are built.
pub proof fn lemma_rank_fingerprint_unique(t: Tables, s1: Seq<int>, s2: Seq<int>)
    requires
        tables_wf(t),
        valid_cards(s1) && distinct_cards(s1) && s1.len() == 7,
        valid_cards(s2) && distinct_cards(s2) && s2.len() == 7,
        card_counts(s1) != card_counts(s2),
    ensures
        crate::hand::hand_from(s1).key & 0x7fffff != crate::hand::hand_from(s2).key & 0x7fffff,
{
    lemma_rank_fingerprint(s1);
    lemma_rank_fingerprint(s2);
    lemma_card_counts_valid(s1);
    lemma_card_counts_valid(s2);
    assert(key_of(card_counts(s1)) != key_of(card_counts(s2)));
}

/// The low 23 bits of a seven-card hand's key are exactly its rank-weight
/// sum: the rank key of its rank-count pattern.
pub proof fn lemma_rank_fingerprint(s: Seq<int>)
    requires
        valid_cards(s),
        distinct_cards(s),
        s.len() == 7,
    ensures
        crate::hand::hand_from(s).key & 0x7fffff == key_of(card_counts(s)),
{
    lemma_key_decomposition(s);
    lemma_card_counts_valid(s);
    lemma_counts_of_cards(s);
    lemma_key7_bound(card_counts(s));
    let key = crate::hand::hand_from(s).key;
    let rws = rank_weight_sum(s);
    let sws = suit_weight_sum(s);
    lemma_suit_counts_of_cards(s);
    lemma_suit_weight_le(suit_counts(s), 0);
    vstd::bits::lemma_u64_low_bits_mask_is_mod(key, 23);
    vstd::bits::lemma_low_bits_mask_values();
    vstd::arithmetic::power2::lemma2_to64();
    assert(key as int == rws + 0x800000 * sws);
    vstd::arithmetic::div_mod::lemma_mod_multiples_vanish(sws, rws, 0x800000);
    vstd::arithmetic::div_mod::lemma_small_mod(rws as nat, 0x800000);
    assert(key % 0x800000 == rws);
}

/// Two seven-card hands with different suit-count vectors never share the
/// suit fingerprint of their keys: the bits above 23 are the suit-weight
/// sum, and the suit weights provably give every suit-count vector its own
/// sum.
pub proof fn lemma_suit_fingerprint_unique(s1: Seq<int>, s2: Seq<int>)
    requires
        valid_cards(s1) && distinct_cards(s1) && s1.len() == 7,
        valid_cards(s2) && distinct_cards(s2) && s2.len() == 7,
        suit_counts(s1) != suit_counts(s2),
    ensures
        crate::hand::hand_from(s1).key >> 23u64 != crate::hand::hand_from(s2).key >> 23u64,
{
    lemma_suit_fingerprint(s1);
    lemma_suit_fingerprint(s2);
    let c1 = suit_counts(s1);
    let c2 = suit_counts(s2);
    lemma_suit_counts_of_cards(s1);
    lemma_suit_counts_of_cards(s2);
    assert(valid_suit_counts(c1)) by {
        assert forall|t0: int| 0 <= t0 < 4 implies 0 <= #[trigger] c1[t0] <= 7 by {
            assert(c1[t0] == count_suit(s1, t0));
        }
    }
    assert(valid_suit_counts(c2)) by {
        assert forall|t0: int| 0 <= t0 < 4 implies 0 <= #[trigger] c2[t0] <= 7 by {
            assert(c2[t0] == count_suit(s2, t0));
        }
    }
    if key_suit(c1) == key_suit(c2) {
        lemma_suit_key_injective(c1, c2);
    }
}

/// The bits above 23 of a seven-card hand's key are exactly its suit-weight
/// sum: the suit key of its suit-count vector.
pub proof fn lemma_suit_fingerprint(s: Seq<int>)
    requires
        valid_cards(s),
        distinct_cards(s),
        s.len() == 7,
    ensures
        crate::hand::hand_from(s).key >> 23u64 == key_suit(suit_counts(s)),
{
    lemma_key_decomposition(s);
    lemma_card_counts_valid(s);
    lemma_counts_of_cards(s);
    lemma_key7_bound(card_counts(s));
    lemma_suit_counts_of_cards(s);
    lemma_suit_weight_le(suit_counts(s), 0);
    lemma_key_shift(crate::hand::hand_from(s).key, rank_weight_sum(s), suit_weight_sum(s));
}

/// The perfect hash is perfect: every reachable rank key's slot is inside
/// the lookup table, and distinct reachable keys never share a slot. The
/// construction checks this and refuses tables that would break it.
pub proof fn lemma_perfect_hash(t: Tables, c1: Seq<int>, c2: Seq<int>)
    requires
        tables_wf(t),
        valid_counts(c1, 7),
        valid_counts(c2, 7),
    ensures
        0 <= spec_hash(t.offsets@, key_of(c1) as u64) < t.lookup@.len(),
        key_of(c1) != key_of(c2) ==> spec_hash(t.offsets@, key_of(c1) as u64) != spec_hash(
            t.offsets@,
            key_of(c2) as u64,
        ),
{
    lemma_key7_bound(c1);
    lemma_key7_bound(c2);
    assert(reachable_key(key_of(c1) as u64));
    assert(reachable_key(key_of(c2) as u64));
}

} // verus!
