//! Hand classes: the strength encoding of a best-5-card hand.
//!
//! A 5-card hand's class is a 32-bit value: bits 26..29 hold the category
//! (0 = high card through 8 = straight flush) and below them sit the rank
//! bitsets that break ties inside the category — bits 13..26 one bitset,
//! bits 0..13 another — so that a numerically larger class is always a
//! strictly better hand. Two hands have equal class exactly when they tie.

use vstd::prelude::*;

verus! {

/// The rank bitset of the wheel: ace, five, four, trey, deuce.
pub const WHEEL: u32 = 0x100f;

/// The most significant set bit of `x`, as a one-bit word; 0 when `x` is 0.
pub open spec fn spec_msb(x: u32) -> u32
    decreases x,
{
    if x == 0 {
        0
    } else if x == 1 {
        1
    } else {
        (2 * spec_msb(x / 2)) as u32
    }
}

/// The `n` most significant set bits of `x`, as a bitset; all of `x` when it
/// has fewer set bits.
pub open spec fn spec_keep_msb(x: u32, n: nat) -> u32
    decreases n,
{
    if n == 0 {
        0
    } else {
        spec_keep_msb((x & !spec_msb(x)) as u32, (n - 1) as nat) | spec_msb(x)
    }
}

/// Number of set bits of a 32-bit word.
pub open spec fn popcount32(x: u32) -> int
    decreases x,
{
    if x == 0 {
        0int
    } else {
        popcount32(x / 2) + if x % 2 == 1 {
            1int
        } else {
            0int
        }
    }
}

/// The bits that top a run of five consecutive set bits of `rs`.
pub open spec fn spec_run_bits(rs: u32) -> u32 {
    rs & (rs << 1) & (rs << 2) & (rs << 3) & (rs << 4)
}

/// The highest bit topping a five-rank straight within `rs`, the wheel
/// counting as a straight topped by the five; `None` when `rs` holds no
/// straight.
pub open spec fn spec_find_straight(rs: u32) -> Option<u32> {
    if spec_run_bits(rs) != 0 {
        Some(spec_msb(spec_run_bits(rs)))
    } else if rs & WHEEL == WHEEL {
        Some(1u32 << 3)
    } else {
        None
    }
}

/// The bitset of the low `n` ranks whose count equals `k`.
pub open spec fn count_bits_upto(c: Seq<int>, k: int, n: int) -> u32
    decreases n,
{
    if n <= 0 {
        0
    } else {
        count_bits_upto(c, k, n - 1) | if c[n - 1] == k {
            1u32 << ((n - 1) as u32)
        } else {
            0
        }
    }
}

/// The bitset of ranks whose count equals `k`.
pub open spec fn count_bits(c: Seq<int>, k: int) -> u32 {
    count_bits_upto(c, k, 13)
}

/// The bitset of the low `n` ranks that are present at all.
pub open spec fn present_bits_upto(c: Seq<int>, n: int) -> u32
    decreases n,
{
    if n <= 0 {
        0
    } else {
        present_bits_upto(c, n - 1) | if c[n - 1] >= 1 {
            1u32 << ((n - 1) as u32)
        } else {
            0
        }
    }
}

/// The bitset of ranks that are present at all.
pub open spec fn present_bits(c: Seq<int>) -> u32 {
    present_bits_upto(c, 13)
}

/// The class of a hand with no flush, given its rank counts: the best five
/// cards of the hand, encoded as category and tie-break bitsets.
pub open spec fn spec_class_nonflush(c: Seq<int>) -> u32 {
    let rs = present_bits(c);
    let q = count_bits(c, 4);
    let t = count_bits(c, 3);
    let p = count_bits(c, 2);
    let s = count_bits(c, 1);
    if q != 0 {
        // four of a kind with the best remaining rank as kicker
        (7u32 << 26) | (q << 13) | spec_msb(rs & !q)
    } else if popcount32(t) == 2 {
        // two trips: the better is the triple, the other the pair
        (6u32 << 26) | (spec_msb(t) << 13) | (t & !spec_msb(t))
    } else if t != 0 && p != 0 {
        // full house with the best pair
        (6u32 << 26) | (t << 13) | spec_msb(p)
    } else if spec_find_straight(rs) is Some {
        (4u32 << 26) | spec_find_straight(rs).unwrap()
    } else if t != 0 {
        // three of a kind with the two best kickers
        (3u32 << 26) | (t << 13) | spec_keep_msb(s, 2)
    } else if popcount32(p) >= 2 {
        // the two best pairs, then the best remaining rank
        (2u32 << 26) | (spec_keep_msb(p, 2) << 13) | spec_msb(rs & !spec_keep_msb(p, 2))
    } else if p != 0 {
        // one pair with the three best kickers
        (1u32 << 26) | (p << 13) | spec_keep_msb(s, 3)
    } else {
        // the five best ranks
        spec_keep_msb(rs, 5)
    }
}

/// The class of a hand with a flush, given the rank bitset of its flush
/// suit: a straight flush when those ranks hold a straight, else the best
/// five of them as a flush. The cards outside the flush suit can never beat
/// the flush: at most two of them exist, too few for four of a kind or a
/// full house.
pub open spec fn spec_class_flush(fs: u32) -> u32 {
    if spec_find_straight(fs) is Some {
        (8u32 << 26) | spec_find_straight(fs).unwrap()
    } else {
        (5u32 << 26) | spec_keep_msb(fs, 5)
    }
}

/// The most significant set bit of `x`; 0 when `x` is 0.
pub fn msb(x: u32) -> (m: u32)
    ensures
        m == spec_msb(x),
{
    let mut v = x;
    let mut m: u32 = 1;
    if x == 0 {
        return 0;
    }
    while v >= 2
        invariant
            v >= 1,
            spec_msb(x) == m * spec_msb(v),
            m * spec_msb(v) <= u32::MAX,
            m >= 1,
        decreases v,
    {
        proof {
            lemma_msb_bound(v / 2);
            lemma_msb_shift(x, v, m);
            assert(m * 2 <= m * spec_msb(v)) by (nonlinear_arith)
                requires
                    spec_msb(v) >= 2,
                    m >= 1,
            ;
        }
        v = v / 2;
        m = m * 2;
    }
    proof {
        assert(spec_msb(1) == 1);
    }
    m
}

/// spec_msb of a word of at least 2 is twice spec_msb of its half.
proof fn lemma_msb_shift(x: u32, v: u32, m: u32)
    requires
        v >= 2,
        spec_msb(x) == m * spec_msb(v),
        m * spec_msb(v) <= u32::MAX,
    ensures
        spec_msb(x) == (2 * m) * spec_msb(v / 2),
        (2 * m) * spec_msb(v / 2) <= u32::MAX,
        spec_msb(v) >= 2,
{
    lemma_msb_bound(v / 2);
    lemma_msb_bound(v);
    assert(spec_msb(v) == (2 * spec_msb(v / 2)) as u32);
    assert(2 * spec_msb(v / 2) <= v) by (nonlinear_arith)
        requires
            spec_msb(v / 2) <= v / 2,
    ;
    assert(spec_msb(v) == 2 * spec_msb(v / 2));
    assert(m * (2 * spec_msb(v / 2)) == (2 * m) * spec_msb(v / 2)) by (nonlinear_arith);
}

/// The most significant bit never exceeds its word.
pub proof fn lemma_msb_bound(x: u32)
    ensures
        spec_msb(x) <= x,
        x > 0 ==> spec_msb(x) >= 1,
    decreases x,
{
    if x >= 2 {
        lemma_msb_bound(x / 2);
    }
}

/// The `n` most significant set bits of `x`.
pub fn keep_msb(x: u32, n: usize) -> (r: u32)
    ensures
        r == spec_keep_msb(x, n as nat),
{
    let mut cur = x;
    let mut acc: u32 = 0;
    let mut i: usize = 0;
    proof {
        let y = spec_keep_msb(x, n as nat);
        assert(0u32 | y == y) by (bit_vector);
    }
    while i < n
        invariant
            i <= n,
            spec_keep_msb(x, n as nat) == acc | spec_keep_msb(cur, (n - i) as nat),
        decreases n - i,
    {
        let m = msb(cur);
        proof {
            lemma_keep_msb_unfold(x, cur, acc, n as nat, i as nat);
        }
        acc = acc | m;
        cur = cur & !m;
        i = i + 1;
    }
    proof {
        assert(spec_keep_msb(cur, 0) == 0);
        assert(acc | 0 == acc) by (bit_vector);
    }
    acc
}

/// One unfolding step of keep_msb under an accumulated prefix.
proof fn lemma_keep_msb_unfold(x: u32, cur: u32, acc: u32, n: nat, i: nat)
    requires
        i < n,
        spec_keep_msb(x, n) == acc | spec_keep_msb(cur, (n - i) as nat),
    ensures
        spec_keep_msb(x, n) == (acc | spec_msb(cur)) | spec_keep_msb(
            (cur & !spec_msb(cur)) as u32,
            (n - i - 1) as nat,
        ),
{
    let m = spec_msb(cur);
    let rest = spec_keep_msb((cur & !m) as u32, (n - i - 1) as nat);
    assert(spec_keep_msb(cur, (n - i) as nat) == rest | m);
    assert(acc | (rest | m) == (acc | m) | rest) by (bit_vector);
}

/// Counts the set bits of a 32-bit word.
pub fn popcount_u32(x: u32) -> (n: usize)
    ensures
        n == popcount32(x),
        n <= 32,
{
    let mut v = x;
    let mut n: usize = 0;
    proof {
        lemma_popcount32_bound(x);
    }
    while v != 0
        invariant
            n + popcount32(v) == popcount32(x),
            0 <= popcount32(v),
            popcount32(x) <= 32,
        decreases v,
    {
        proof {
            lemma_popcount32_bound(v / 2);
        }
        n = n + if v % 2 == 1 {
            1
        } else {
            0
        };
        v = v / 2;
    }
    n
}

/// A word below 2^b has at most b set bits.
proof fn lemma_popcount32_le(x: u32, b: nat)
    requires
        x < vstd::arithmetic::power2::pow2(b),
    ensures
        0 <= popcount32(x) <= b,
    decreases b,
{
    if x != 0 {
        assert(b > 0) by {
            if b == 0 {
                vstd::arithmetic::power2::lemma2_to64();
            }
        }
        vstd::arithmetic::power2::lemma_pow2_unfold(b);
        lemma_popcount32_le(x / 2, (b - 1) as nat);
    }
}

/// A 32-bit word has at most 32 set bits.
pub proof fn lemma_popcount32_bound(x: u32)
    ensures
        0 <= popcount32(x) <= 32,
{
    vstd::arithmetic::power2::lemma2_to64();
    lemma_popcount32_le(x, 32);
}

/// Finds the highest straight within a rank bitset, the wheel counting as a
/// straight topped by the five.
pub fn find_straight(rs: u32) -> (r: Option<u32>)
    ensures
        r == spec_find_straight(rs),
{
    let x = rs & (rs << 1u32) & (rs << 2u32) & (rs << 3u32) & (rs << 4u32);
    if x != 0 {
        Some(msb(x))
    } else if rs & WHEEL == WHEEL {
        Some(1u32 << 3u32)
    } else {
        None
    }
}

/// The four count bitsets and the present-rank bitset of a rank-count
/// vector: singles, pairs, trips, quads, and all present ranks.
pub fn count_bitsets(counts: &Vec<u8>) -> (r: (u32, u32, u32, u32, u32))
    requires
        counts@.len() == 13,
    ensures
        r.0 == count_bits(counts@.map_values(|x: u8| x as int), 1),
        r.1 == count_bits(counts@.map_values(|x: u8| x as int), 2),
        r.2 == count_bits(counts@.map_values(|x: u8| x as int), 3),
        r.3 == count_bits(counts@.map_values(|x: u8| x as int), 4),
        r.4 == present_bits(counts@.map_values(|x: u8| x as int)),
{
    let ghost c = counts@.map_values(|x: u8| x as int);
    let mut s1: u32 = 0;
    let mut s2: u32 = 0;
    let mut s3: u32 = 0;
    let mut s4: u32 = 0;
    let mut rs: u32 = 0;
    let mut i: usize = 0;
    while i < 13
        invariant
            i <= 13,
            counts@.len() == 13,
            c == counts@.map_values(|x: u8| x as int),
            s1 == count_bits_upto(c, 1, i as int),
            s2 == count_bits_upto(c, 2, i as int),
            s3 == count_bits_upto(c, 3, i as int),
            s4 == count_bits_upto(c, 4, i as int),
            rs == present_bits_upto(c, i as int),
        decreases 13 - i,
    {
        let v = counts[i];
        let bit = 1u32 << (i as u32);
        proof {
            assert(c[i as int] == counts@[i as int] as int);
        }
        s1 = s1 | if v == 1 {
            bit
        } else {
            0
        };
        s2 = s2 | if v == 2 {
            bit
        } else {
            0
        };
        s3 = s3 | if v == 3 {
            bit
        } else {
            0
        };
        s4 = s4 | if v == 4 {
            bit
        } else {
            0
        };
        rs = rs | if v >= 1 {
            bit
        } else {
            0
        };
        i = i + 1;
    }
    (s1, s2, s3, s4, rs)
}

/// The class of a hand with no flush, from its rank counts.
pub fn class_nonflush(counts: &Vec<u8>) -> (r: u32)
    requires
        counts@.len() == 13,
    ensures
        r == spec_class_nonflush(counts@.map_values(|x: u8| x as int)),
{
    let (s1, s2, s3, s4, rs) = count_bitsets(counts);
    if s4 != 0 {
        (7u32 << 26u32) | (s4 << 13u32) | msb(rs & !s4)
    } else if popcount_u32(s3) == 2 {
        let t = msb(s3);
        (6u32 << 26u32) | (t << 13u32) | (s3 & !t)
    } else if s3 != 0 && s2 != 0 {
        (6u32 << 26u32) | (s3 << 13u32) | msb(s2)
    } else {
        let straight = find_straight(rs);
        match straight {
            Some(top) => (4u32 << 26u32) | top,
            None => {
                if s3 != 0 {
                    (3u32 << 26u32) | (s3 << 13u32) | keep_msb(s1, 2)
                } else if popcount_u32(s2) >= 2 {
                    let pp = keep_msb(s2, 2);
                    (2u32 << 26u32) | (pp << 13u32) | msb(rs & !pp)
                } else if s2 != 0 {
                    (1u32 << 26u32) | (s2 << 13u32) | keep_msb(s1, 3)
                } else {
                    keep_msb(rs, 5)
                }
            },
        }
    }
}

/// The class of a hand with a flush, from the rank bitset of its flush suit.
pub fn class_flush(fs: u32) -> (r: u32)
    ensures
        r == spec_class_flush(fs),
{
    match find_straight(fs) {
        Some(top) => (8u32 << 26u32) | top,
        None => (5u32 << 26u32) | keep_msb(fs, 5),
    }
}

/// A rank with a card marks its bit among the present ranks.
proof fn lemma_present_bit(c: Seq<int>, r: int, n: int)
    requires
        0 <= r < n <= 13,
        c[r] >= 1,
    ensures
        present_bits_upto(c, n) & (1u32 << (r as u32)) != 0,
    decreases n,
{
    let rb = r as u32;
    let prev = present_bits_upto(c, n - 1);
    if r == n - 1 {
        assert((prev | (1u32 << rb)) & (1u32 << rb) != 0) by (bit_vector)
            requires
                rb < 13,
        ;
    } else {
        lemma_present_bit(c, r, n - 1);
        let more = if c[n - 1] >= 1 {
            1u32 << ((n - 1) as u32)
        } else {
            0u32
        };
        assert(prev & (1u32 << rb) != 0 ==> (prev | more) & (1u32 << rb) != 0) by (bit_vector);
    }
}

/// A positive tail sum names a rank with a card.
proof fn lemma_sum_pos_rank(c: Seq<int>, i: int) -> (r: int)
    requires
        c.len() == 13,
        forall|q: int| 0 <= q < 13 ==> 0 <= #[trigger] c[q],
        0 <= i <= 13,
        crate::counting::sum_from(c, i) >= 1,
    ensures
        i <= r < 13,
        c[r] >= 1,
    decreases 13 - i,
{
    if i == 13 {
        assert(false);
        0
    } else if c[i] >= 1 {
        i
    } else {
        lemma_sum_pos_rank(c, i + 1)
    }
}

/// Keeping the top bits of a nonzero word leaves a nonzero word.
proof fn lemma_keep_msb_pos(x: u32, n: nat)
    requires
        x != 0,
        n >= 1,
    ensures
        spec_keep_msb(x, n) != 0,
{
    lemma_msb_bound(x);
    let m = spec_msb(x);
    let rest = spec_keep_msb((x & !m) as u32, (n - 1) as nat);
    assert(m != 0 ==> (rest | m) != 0) by (bit_vector);
}

/// The class of a valid 5-card pattern is never zero: every category tag is
/// positive except high card, whose top-five rank bits are set.
pub proof fn lemma_class_nonflush_pos(c: Seq<int>)
    requires
        crate::counting::valid_counts(c, 5),
    ensures
        spec_class_nonflush(c) > 0,
{
    let rs = present_bits(c);
    let q = count_bits(c, 4);
    let t = count_bits(c, 3);
    let p = count_bits(c, 2);
    let s = count_bits(c, 1);
    let r0 = lemma_sum_pos_rank(c, 0);
    lemma_present_bit(c, r0, 13);
    assert(rs != 0) by {
        let rb = r0 as u32;
        assert(rs & (1u32 << rb) != 0 ==> rs != 0) by (bit_vector);
    }
    if q != 0 {
        lemma_tagged_pos(7, q, spec_msb((rs & !q) as u32));
    } else if popcount32(t) == 2 {
        let m = spec_msb(t);
        lemma_tagged_pos(6, m, (t & !m) as u32);
    } else if t != 0 && p != 0 {
        lemma_tagged_pos(6, t, spec_msb(p));
    } else if spec_find_straight(rs) is Some {
        let v = spec_find_straight(rs).unwrap();
        assert(((4u32 << 26) | v) > 0) by (bit_vector);
    } else if t != 0 {
        lemma_tagged_pos(3, t, spec_keep_msb(s, 2));
    } else if popcount32(p) >= 2 {
        let pp = spec_keep_msb(p, 2);
        lemma_tagged_pos(2, pp, spec_msb((rs & !pp) as u32));
    } else if p != 0 {
        lemma_tagged_pos(1, p, spec_keep_msb(s, 3));
    } else {
        lemma_keep_msb_pos(rs, 5);
    }
}

/// A class value with a positive category tag is positive.
proof fn lemma_tagged_pos(c: u32, h: u32, l: u32)
    by (bit_vector)
    requires
        1 <= c <= 8,
    ensures
        (((c << 26) | (h << 13)) | l) > 0,
{
}

} // verus!
