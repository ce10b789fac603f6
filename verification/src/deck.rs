//! The remaining deck: the cards a mask does not hold.

use vstd::prelude::*;

use crate::counting::{lemma_mask_props, mask_or};
use crate::encoding::{card_key_mask, spec_card_mask, valid_card};
use crate::hand::{distinct_cards, valid_cards};
use crate::reference::ids_of;

verus! {

/// The cards below `c` that the mask `m` does not hold, in ascending order.
pub open spec fn alive_upto(m: u64, c: int) -> Seq<int>
    decreases c,
{
    if c <= 0 {
        Seq::<int>::empty()
    } else {
        alive_upto(m, c - 1) + if m & spec_card_mask(c - 1) == 0 {
            seq![c - 1]
        } else {
            Seq::<int>::empty()
        }
    }
}

/// The remaining cards are valid, ascending, below the bound, and their
/// bits are clear in the mask.
pub proof fn lemma_alive_upto_elems(m: u64, c: int)
    requires
        0 <= c <= 52,
    ensures
        forall|j: int|
            0 <= j < alive_upto(m, c).len() ==> valid_card(#[trigger] alive_upto(m, c)[j]) && m
                & spec_card_mask(alive_upto(m, c)[j]) == 0 && alive_upto(m, c)[j] < c,
        distinct_cards(alive_upto(m, c)),
        valid_cards(alive_upto(m, c)),
    decreases c,
{
    if c > 0 {
        lemma_alive_upto_elems(m, c - 1);
        let prev = alive_upto(m, c - 1);
        let cur = alive_upto(m, c);
        assert forall|j: int|
            0 <= j < cur.len() implies valid_card(#[trigger] cur[j]) && m & spec_card_mask(
            cur[j],
        ) == 0 && cur[j] < c by {
            if j < prev.len() {
                assert(cur[j] == prev[j]);
            } else {
                assert(cur[j] == c - 1);
            }
        }
        assert forall|j1: int, j2: int| 0 <= j1 < j2 < cur.len() implies cur[j1] != cur[j2] by {
            if j2 < prev.len() {
                assert(cur[j1] == prev[j1] && cur[j2] == prev[j2]);
            } else {
                assert(cur[j1] == prev[j1] && prev[j1] < c - 1 && cur[j2] == c - 1);
            }
        }
    }
}

/// How many of the cards below `i` the mask `m` holds.
pub open spec fn held_below(m: u64, i: int) -> int
    decreases i,
{
    if i <= 0 {
        0
    } else {
        held_below(m, i - 1) + if m & spec_card_mask(i - 1) != 0 {
            1int
        } else {
            0int
        }
    }
}

/// The mask of a distinct valid card sequence holds exactly its length in
/// cards.
pub proof fn lemma_held_is_len(s: Seq<int>)
    requires
        valid_cards(s),
        distinct_cards(s),
    ensures
        held_below(mask_or(s), 52) == s.len(),
{
    lemma_mask_props(s);
    lemma_held_counts(s, mask_or(s), 52);
    lemma_count_lt_all(s, 52);
}

/// Counting held cards below `i` counts the sequence's cards with id below
/// `i`.
proof fn lemma_held_counts(s: Seq<int>, m: u64, i: int)
    requires
        valid_cards(s),
        distinct_cards(s),
        forall|c: int| valid_card(c) ==> ((m & spec_card_mask(c) != 0) <==> s.contains(c)),
        0 <= i <= 52,
    ensures
        held_below(m, i) == count_lt(s, i),
    decreases i,
{
    if i > 0 {
        lemma_held_counts(s, m, i - 1);
        lemma_count_lt_step(s, i - 1);
        assert(valid_card(i - 1));
    } else {
        lemma_count_lt_nonpos(s, i);
    }
}

/// No valid card is below a nonpositive bound.
proof fn lemma_count_lt_nonpos(s: Seq<int>, i: int)
    requires
        valid_cards(s),
        i <= 0,
    ensures
        count_lt(s, i) == 0,
    decreases s.len(),
{
    reveal(Seq::filter);
    if s.len() > 0 {
        lemma_count_lt_nonpos(s.drop_last(), i);
    }
}

/// How many cards of `s` have id below `i`.
pub open spec fn count_lt(s: Seq<int>, i: int) -> int {
    s.filter(|c: int| c < i).len() as int
}

/// Counting below `i + 1` adds one exactly when `s` holds the card `i`.
proof fn lemma_count_lt_step(s: Seq<int>, i: int)
    requires
        distinct_cards(s),
        valid_cards(s),
    ensures
        count_lt(s, i + 1) == count_lt(s, i) + if s.contains(i) {
            1int
        } else {
            0int
        },
    decreases s.len(),
{
    reveal(Seq::filter);
    if s.len() > 0 {
        let s0 = s.drop_last();
        let x = s.last();
        lemma_count_lt_step(s0, i);
        assert(forall|c: int| s0.contains(c) ==> s.contains(c)) by {
            assert forall|c: int| s0.contains(c) implies s.contains(c) by {
                let j = choose|j: int| 0 <= j < s0.len() && s0[j] == c;
                assert(s[j] == c);
            }
        }
        assert(forall|c: int| #[trigger] s.contains(c) ==> c == x || s0.contains(c)) by {
            assert forall|c: int| #[trigger] s.contains(c) && c != x implies s0.contains(c) by {
                let j = choose|j: int| 0 <= j < s.len() && s[j] == c;
                assert(j < s.len() - 1);
                assert(s0[j] == c);
            }
        }
        assert(!s0.contains(x));
        assert(s.contains(x)) by {
            assert(s[s.len() - 1] == x);
        }
        if x == i {
            assert(count_lt(s, i + 1) == count_lt(s0, i + 1) + 1);
            assert(count_lt(s, i) == count_lt(s0, i));
        } else if x < i {
            assert(count_lt(s, i + 1) == count_lt(s0, i + 1) + 1);
            assert(count_lt(s, i) == count_lt(s0, i) + 1);
            assert(s.contains(i) <==> s0.contains(i));
        } else {
            assert(count_lt(s, i + 1) == count_lt(s0, i + 1));
            assert(count_lt(s, i) == count_lt(s0, i));
            assert(s.contains(i) <==> s0.contains(i));
        }
    } else {
        assert(count_lt(s, i + 1) == 0);
        assert(count_lt(s, i) == 0);
    }
}

/// Every card of a valid sequence is below 52, so counting below 52 counts
/// them all.
proof fn lemma_count_lt_all(s: Seq<int>, i: int)
    requires
        valid_cards(s),
        i >= 52,
    ensures
        count_lt(s, i) == s.len(),
    decreases s.len(),
{
    reveal(Seq::filter);
    if s.len() > 0 {
        lemma_count_lt_all(s.drop_last(), i);
    }
}

/// Two sequences with no card in common have disjoint masks.
pub proof fn lemma_disjoint_masks(s1: Seq<int>, s2: Seq<int>)
    requires
        valid_cards(s1),
        distinct_cards(s1),
        valid_cards(s2),
        distinct_cards(s2),
        forall|c: int| !(s1.contains(c) && #[trigger] s2.contains(c)),
    ensures
        mask_or(s1) & mask_or(s2) == 0,
    decreases s2.len(),
{
    lemma_mask_props(s1);
    if s2.len() == 0 {
        let m1 = mask_or(s1);
        assert(m1 & 0 == 0) by (bit_vector);
    } else {
        let s0 = s2.drop_last();
        let x = s2.last();
        assert(forall|c: int| s0.contains(c) ==> s2.contains(c)) by {
            assert forall|c: int| s0.contains(c) implies s2.contains(c) by {
                let j = choose|j: int| 0 <= j < s0.len() && s0[j] == c;
                assert(s2[j] == c);
            }
        }
        lemma_disjoint_masks(s1, s0);
        assert(s2.contains(x)) by {
            assert(s2[s2.len() - 1] == x);
        }
        assert(!s1.contains(x));
        let m1 = mask_or(s1);
        let m0 = mask_or(s0);
        let bx = spec_card_mask(x);
        assert(m1 & bx == 0);
        assert(m1 & m0 == 0 && m1 & bx == 0 ==> m1 & (m0 | bx) == 0) by (bit_vector);
    }
}

/// Lists the cards a mask does not hold, in ascending id order. The ghost
/// witness names the distinct valid cards whose bits make up the mask, which
/// pins the remaining deck's size.
pub fn compute_alive_cards(mask: u64, Ghost(us): Ghost<Seq<int>>) -> (alive: Vec<usize>)
    requires
        valid_cards(us),
        distinct_cards(us),
        mask == mask_or(us),
    ensures
        valid_cards(ids_of(alive@)),
        distinct_cards(ids_of(alive@)),
        alive@.len() + us.len() == 52,
        forall|j: int| 0 <= j < alive@.len() ==> !us.contains(#[trigger] alive@[j] as int),
        forall|j1: int, j2: int| 0 <= j1 < j2 < alive@.len() ==> alive@[j1] < alive@[j2],
        ids_of(alive@) == alive_upto(mask, 52),
{
    proof {
        lemma_mask_props(us);
        lemma_held_is_len(us);
    }
    let mut alive: Vec<usize> = Vec::new();
    let mut c: usize = 0;
    while c < 52
        invariant
            c <= 52,
            valid_cards(us),
            distinct_cards(us),
            mask == mask_or(us),
            forall|d: int| valid_card(d) ==> ((mask & spec_card_mask(d) != 0) <==> us.contains(d)),
            alive@.len() + held_below(mask, c as int) == c,
            forall|j: int| 0 <= j < alive@.len() ==> valid_card(#[trigger] alive@[j] as int),
            forall|j: int| 0 <= j < alive@.len() ==> (alive@[j] as int) < c,
            forall|j: int| 0 <= j < alive@.len() ==> !us.contains(#[trigger] alive@[j] as int),
            forall|j1: int, j2: int| 0 <= j1 < j2 < alive@.len() ==> alive@[j1] < alive@[j2],
            ids_of(alive@) == alive_upto(mask, c as int),
        decreases 52 - c,
    {
        let (_k, m) = card_key_mask(c);
        let ghost pre = ids_of(alive@);
        if mask & m == 0 {
            proof {
                assert(!us.contains(c as int));
            }
            alive.push(c);
            proof {
                assert(ids_of(alive@) =~= pre + seq![c as int]);
                assert(ids_of(alive@) =~= alive_upto(mask, c as int + 1));
            }
        } else {
            proof {
                assert(ids_of(alive@) =~= pre + Seq::<int>::empty());
                assert(ids_of(alive@) =~= alive_upto(mask, c as int + 1));
            }
        }
        c = c + 1;
    }
    proof {
        assert(held_below(mask, 52) == us.len());
        assert forall|j1: int, j2: int|
            0 <= j1 < j2 < alive@.len() implies (ids_of(alive@)[j1] != ids_of(alive@)[j2]) by {
            assert(alive@[j1] < alive@[j2]);
        }
    }
    alive
}

} // verus!
