//! The `Hand` value: an accumulated set of cards.
//!
//! A hand is the pair of the wrapping sums of the key and mask contributions
//! of its cards. Addition is commutative and invertible, so the order in
//! which cards are added does not matter and removal is exact.

use vstd::prelude::*;

use crate::encoding::{card_key_mask, spec_card_key, spec_card_mask, valid_card};

verus! {

/// A set of cards, accumulated as the wrapping sums of the cards' key and
/// mask contributions.
#[derive(Clone, Copy, Debug, Eq, Hash, Ord, PartialEq, PartialOrd, Structural)]
pub struct Hand {
    pub key: u64,
    pub mask: u64,
}

/// 64-bit wrapping addition.
pub open spec fn wadd(a: u64, b: u64) -> u64 {
    vstd::wrapping::u64_specs::wrapping_add(a, b)
}

/// 64-bit wrapping subtraction.
pub open spec fn wsub(a: u64, b: u64) -> u64 {
    vstd::wrapping::u64_specs::wrapping_sub(a, b)
}

/// The hand `h` with card `c` added.
pub open spec fn hand_plus(h: Hand, c: int) -> Hand {
    Hand { key: wadd(h.key, spec_card_key(c)), mask: wadd(h.mask, spec_card_mask(c)) }
}

/// The hand `h` with card `c` removed.
pub open spec fn hand_minus(h: Hand, c: int) -> Hand {
    Hand { key: wsub(h.key, spec_card_key(c)), mask: wsub(h.mask, spec_card_mask(c)) }
}

/// The empty hand.
pub open spec fn empty_hand() -> Hand {
    Hand { key: 0, mask: 0 }
}

/// The hand accumulated from a sequence of card ids, in order.
pub open spec fn hand_from(s: Seq<int>) -> Hand
    decreases s.len(),
{
    if s.len() == 0 {
        empty_hand()
    } else {
        hand_plus(hand_from(s.drop_last()), s.last())
    }
}

/// All entries of `s` are card ids.
pub open spec fn valid_cards(s: Seq<int>) -> bool {
    forall|i: int| 0 <= i < s.len() ==> valid_card(#[trigger] s[i])
}

/// No card occurs twice in `s`.
pub open spec fn distinct_cards(s: Seq<int>) -> bool {
    forall|i: int, j: int| 0 <= i < j < s.len() ==> s[i] != s[j]
}

/// `h` is the hand of the distinct valid cards `s`.
pub open spec fn is_hand(h: Hand, s: Seq<int>) -> bool {
    valid_cards(s) && distinct_cards(s) && h == hand_from(s)
}

impl Hand {
    /// Creates an empty hand.
    pub fn new() -> (h: Self)
        ensures
            h == empty_hand(),
            is_hand(h, Seq::<int>::empty()),
    {
        proof {
            assert(Seq::<int>::empty().len() == 0);
        }
        Hand { key: 0, mask: 0 }
    }

    /// Creates the hand of the given card ids.
    /// Elements of `cards` must be in the range [0, 51] (0 is the deuce of
    /// clubs, 51 the ace of spades) and pairwise distinct.
    pub fn from_vec(cards: &Vec<usize>) -> (h: Self)
        requires
            valid_cards(cards@.map_values(|c: usize| c as int)),
        ensures
            h == hand_from(cards@.map_values(|c: usize| c as int)),
    {
        let ghost ids = cards@.map_values(|c: usize| c as int);
        let mut hand = Hand::new();
        proof {
            assert(ids.take(0) =~= Seq::<int>::empty());
        }
        for i in 0..cards.len()
            invariant
                valid_cards(ids),
                ids.len() == cards@.len(),
                forall|j: int| 0 <= j < ids.len() ==> ids[j] == cards@[j] as int,
                hand == hand_from(ids.take(i as int)),
        {
            assert(valid_card(ids[i as int]));
            hand = hand.add_card(cards[i]);
            proof {
                assert(ids.take(i + 1).drop_last() =~= ids.take(i as int));
            }
        }
        proof {
            assert(ids.take(cards@.len() as int) =~= ids);
        }
        hand
    }

    /// Returns the number of cards in the hand: the number of set mask bits.
    pub fn len(&self) -> (n: usize)
        ensures
            n == popcount64(self.mask),
    {
        popcount(self.mask)
    }

    /// Returns the hand with `card` added.
    /// `card` must be in the range [0, 51] and not already in the hand.
    pub fn add_card(&self, card: usize) -> (h: Self)
        requires
            valid_card(card as int),
        ensures
            h == hand_plus(*self, card as int),
    {
        let (k, m) = card_key_mask(card);
        Hand { key: self.key.wrapping_add(k), mask: self.mask.wrapping_add(m) }
    }

    /// Returns the hand with `card` removed.
    /// `card` must be in the range [0, 51] and present in the hand.
    pub fn remove_card(&self, card: usize) -> (h: Self)
        requires
            valid_card(card as int),
        ensures
            h == hand_minus(*self, card as int),
    {
        let (k, m) = card_key_mask(card);
        Hand { key: self.key.wrapping_sub(k), mask: self.mask.wrapping_sub(m) }
    }
}

impl Hand {
    /// Returns the hand holding both hands' cards: the wrapping sums of the
    /// keys and masks. The two hands must hold disjoint card sets.
    pub fn merged(&self, other: &Hand) -> (h: Self)
        ensures
            h.key == wadd(self.key, other.key),
            h.mask == wadd(self.mask, other.mask),
    {
        Hand { key: self.key.wrapping_add(other.key), mask: self.mask.wrapping_add(other.mask) }
    }
}

/// Wrapping addition is addition modulo 2^64.
pub proof fn lemma_wadd_is_mod(a: u64, b: u64)
    ensures
        wadd(a, b) as int == (a + b) % 0x10000000000000000,
{
    if a + b > u64::MAX {
    } else {
        vstd::arithmetic::div_mod::lemma_small_mod((a + b) as nat, 0x10000000000000000);
    }
}

/// Wrapping addition associates.
pub proof fn lemma_wadd_assoc(a: u64, b: u64, c: u64)
    ensures
        wadd(wadd(a, b), c) == wadd(a, wadd(b, c)),
{
    let m = 0x10000000000000000int;
    lemma_wadd_is_mod(a, b);
    lemma_wadd_is_mod(b, c);
    lemma_wadd_is_mod(wadd(a, b), c);
    lemma_wadd_is_mod(a, wadd(b, c));
    vstd::arithmetic::div_mod::lemma_add_mod_noop(a + b, c as int, m);
    vstd::arithmetic::div_mod::lemma_add_mod_noop(a as int, b + c, m);
    vstd::arithmetic::div_mod::lemma_small_mod(a as nat, 0x10000000000000000);
    vstd::arithmetic::div_mod::lemma_small_mod(c as nat, 0x10000000000000000);
}

/// The hand of joined sequences is the merge of the hands: accumulation is
/// associative and order-free.
pub proof fn lemma_hand_from_concat(s1: Seq<int>, s2: Seq<int>)
    ensures
        hand_from(s1 + s2).key == wadd(hand_from(s1).key, hand_from(s2).key),
        hand_from(s1 + s2).mask == wadd(hand_from(s1).mask, hand_from(s2).mask),
    decreases s2.len(),
{
    if s2.len() == 0 {
        assert(s1 + s2 =~= s1);
        lemma_wadd_is_mod(hand_from(s1).key, 0);
        lemma_wadd_is_mod(hand_from(s1).mask, 0);
        vstd::arithmetic::div_mod::lemma_small_mod(
            hand_from(s1).key as nat,
            0x10000000000000000,
        );
        vstd::arithmetic::div_mod::lemma_small_mod(
            hand_from(s1).mask as nat,
            0x10000000000000000,
        );
    } else {
        let s20 = s2.drop_last();
        let x = s2.last();
        lemma_hand_from_concat(s1, s20);
        assert((s1 + s2).drop_last() =~= s1 + s20);
        assert((s1 + s2).last() == x);
        lemma_wadd_assoc(hand_from(s1).key, hand_from(s20).key, crate::encoding::spec_card_key(x));
        lemma_wadd_assoc(
            hand_from(s1).mask,
            hand_from(s20).mask,
            crate::encoding::spec_card_mask(x),
        );
    }
}

/// Pushing a fresh valid card keeps a card sequence valid and distinct, and
/// accumulates onto its hand.
pub proof fn lemma_push_hand(s: Seq<int>, a: int)
    requires
        valid_cards(s),
        distinct_cards(s),
        valid_card(a),
        !s.contains(a),
    ensures
        valid_cards(s.push(a)),
        distinct_cards(s.push(a)),
        hand_from(s.push(a)) == hand_plus(hand_from(s), a),
        s.push(a).len() == s.len() + 1,
{
    let sn = s.push(a);
    assert(sn.drop_last() =~= s);
    assert forall|i: int| 0 <= i < sn.len() implies valid_card(#[trigger] sn[i]) by {
        if i < s.len() {
            assert(sn[i] == s[i]);
        }
    }
    assert forall|i: int, j: int| 0 <= i < j < sn.len() implies sn[i] != sn[j] by {
        if j == sn.len() - 1 {
            if sn[i] == a {
                assert(s.contains(a)) by {
                    assert(s[i] == a);
                }
            }
        }
    }
}

/// Membership in a pushed sequence: the new card or an old one.
pub proof fn lemma_push_membership(s: Seq<int>, c: int, d: int)
    ensures
        s.push(c).contains(d) <==> (d == c || s.contains(d)),
{
    if s.push(c).contains(d) {
        let q = choose|q: int| 0 <= q < s.push(c).len() && s.push(c)[q] == d;
        if q < s.len() {
            assert(s[q] == d);
        }
    }
    if d == c {
        assert(s.push(c)[s.len() as int] == d);
    }
    if s.contains(d) {
        let q = choose|q: int| 0 <= q < s.len() && s[q] == d;
        assert(s.push(c)[q] == d);
    }
}

/// Number of set bits of a 64-bit word.
pub open spec fn popcount64(x: u64) -> int
    decreases x,
{
    if x == 0 {
        0int
    } else {
        popcount64(x / 2) + if x % 2 == 1 {
            1int
        } else {
            0int
        }
    }
}

/// Counts the set bits of a 64-bit word.
pub fn popcount(x: u64) -> (n: usize)
    ensures
        n == popcount64(x),
        n <= 64,
{
    let mut v = x;
    let mut n: usize = 0;
    proof {
        lemma_popcount64_bound(x);
    }
    while v != 0
        invariant
            n + popcount64(v) == popcount64(x),
            0 <= popcount64(v),
            popcount64(x) <= 64,
        decreases v,
    {
        proof {
            lemma_popcount64_bound(v / 2);
        }
        n = n + if v % 2 == 1 {
            1
        } else {
            0
        };
        v = v / 2;
    }
    n
}

/// A word below 2^b has at most b set bits.
proof fn lemma_popcount64_le(x: u64, b: nat)
    requires
        x < vstd::arithmetic::power2::pow2(b),
    ensures
        0 <= popcount64(x) <= b,
    decreases b,
{
    if x != 0 {
        assert(b > 0) by {
            if b == 0 {
                vstd::arithmetic::power2::lemma2_to64();
            }
        }
        vstd::arithmetic::power2::lemma_pow2_unfold(b);
        lemma_popcount64_le(x / 2, (b - 1) as nat);
    }
}

/// A 64-bit word has at most 64 set bits.
pub proof fn lemma_popcount64_bound(x: u64)
    ensures
        0 <= popcount64(x) <= 64,
{
    vstd::arithmetic::power2::lemma2_to64();
    lemma_popcount64_le(x, 64);
}

/// Adding then removing a card restores the hand exactly.
pub proof fn lemma_add_remove(h: Hand, c: int)
    ensures
        hand_minus(hand_plus(h, c), c) == h,
        hand_plus(hand_minus(h, c), c) == h,
{
}

/// Cards can be added in either order: the result is bit-identical.
pub proof fn lemma_add_commutes(h: Hand, c1: int, c2: int)
    ensures
        hand_plus(hand_plus(h, c1), c2) == hand_plus(hand_plus(h, c2), c1),
{
}

/// The hand of a sequence is the hand of any prefix plus the rest.
proof fn lemma_hand_from_remove(s: Seq<int>, i: int)
    requires
        0 <= i < s.len(),
    ensures
        hand_from(s) == hand_plus(hand_from(s.remove(i)), s[i]),
    decreases s.len(),
{
    if i == s.len() - 1 {
        assert(s.remove(i) =~= s.drop_last());
    } else {
        lemma_hand_from_remove(s.drop_last(), i);
        assert(s.remove(i).drop_last() =~= s.drop_last().remove(i));
        assert(s.remove(i).last() == s.last());
        lemma_add_commutes(hand_from(s.drop_last().remove(i)), s[i], s.last());
    }
}

/// Hands built by adding the same multiset of cards in any two orders are
/// bit-identical.
pub proof fn lemma_hand_order_irrelevant(s1: Seq<int>, s2: Seq<int>)
    requires
        s1.to_multiset() == s2.to_multiset(),
    ensures
        hand_from(s1) == hand_from(s2),
    decreases s1.len(),
{
    broadcast use vstd::seq_lib::group_to_multiset_ensures;

    if s1.len() == 0 {
        assert(s2.to_multiset().len() == 0);
        assert(s2.len() == 0);
    } else {
        let x = s1.last();
        assert(s1.to_multiset().count(x) > 0);
        assert(s2.to_multiset().count(x) > 0);
        assert(s2.contains(x));
        let i = choose|i: int| 0 <= i < s2.len() && s2[i] == x;
        assert(s1 == s1.drop_last().push(x));
        assert(s1.drop_last().push(x).to_multiset() == s1.drop_last().to_multiset().insert(x));
        assert(s2.remove(i).to_multiset() == s2.to_multiset().remove(x));
        assert(s1.drop_last().to_multiset() =~= s2.remove(i).to_multiset());
        lemma_hand_order_irrelevant(s1.drop_last(), s2.remove(i));
        lemma_hand_from_remove(s2, i);
    }
}

} // verus!
