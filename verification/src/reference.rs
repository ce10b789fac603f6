//! The reference evaluator: 5, 6 and 7 cards ranked against the class
//! table.
//!
//! A 5-card hand gets the reference rank of its class, 1 for the best class
//! and 7462 for the worst. A 6- or 7-card hand gets the best (smallest)
//! reference rank over all of its 5-card subsets.

use vstd::prelude::*;

use crate::classes::{class_flush, class_nonflush, spec_class_flush, spec_class_nonflush};
use crate::counting::{
    card_counts,
    count_suit,
    lemma_card_counts_valid,
    lemma_lane_props,
    rankset_suit,
};
use crate::encoding::{card_rank, card_suit, valid_card};
use crate::hand::{distinct_cards, valid_cards};
use crate::rank_table::{is_class5, rank_of_class, rank_table_wf, spec_rank_of_class};

verus! {

/// All cards of `s` share one suit.
pub open spec fn all_one_suit(s: Seq<int>) -> bool {
    forall|i: int| 0 <= i < s.len() ==> card_suit(#[trigger] s[i]) == card_suit(s[0])
}

/// The class of a 5-card hand: a flush class on its suit's ranks when all
/// five cards share a suit, else the no-flush class of its rank counts.
pub open spec fn spec_class5_cards(s: Seq<int>) -> u32 {
    if all_one_suit(s) {
        spec_class_flush(rankset_suit(s, card_suit(s[0])))
    } else {
        spec_class_nonflush(card_counts(s))
    }
}

/// The ids of a card vector.
pub open spec fn ids_of(cards: Seq<usize>) -> Seq<int> {
    cards.map_values(|c: usize| c as int)
}

/// `cards` is a set of `n` distinct valid cards.
pub open spec fn valid_hand_vec(cards: Seq<usize>, n: int) -> bool {
    cards.len() == n && valid_cards(ids_of(cards)) && distinct_cards(ids_of(cards))
}

/// When all cards share a suit, that suit holds them all.
proof fn lemma_one_suit_count(s: Seq<int>)
    requires
        all_one_suit(s),
        s.len() > 0,
    ensures
        count_suit(s, card_suit(s[0])) == s.len(),
    decreases s.len(),
{
    let t = card_suit(s[0]);
    assert(card_suit(s.last()) == t) by {
        assert(s.last() == s[s.len() - 1]);
    }
    if s.len() > 1 {
        let s0 = s.drop_last();
        assert(all_one_suit(s0)) by {
            assert(s0[0] == s[0]);
            assert forall|i: int| 0 <= i < s0.len() implies card_suit(#[trigger] s0[i])
                == card_suit(s0[0]) by {
                assert(s0[i] == s[i]);
            }
        }
        lemma_one_suit_count(s0);
        assert(count_suit(s, t) == count_suit(s0, t) + 1);
    } else {
        assert(count_suit(s.drop_last(), t) == 0);
    }
}

/// The class of a 5-card hand is a 5-card class value.
proof fn lemma_class5_cards_is_class5(s: Seq<int>)
    requires
        valid_cards(s),
        distinct_cards(s),
        s.len() == 5,
    ensures
        is_class5(spec_class5_cards(s)),
{
    if all_one_suit(s) {
        let t = card_suit(s[0]);
        assert(0 <= t < 4);
        lemma_lane_props(s, t);
        lemma_one_suit_count(s);
        let fs = rankset_suit(s, t);
        assert(fs < 8192 && crate::classes::popcount32(fs) == 5);
    } else {
        lemma_card_counts_valid(s);
    }
}

/// The reference rank of five distinct cards: 1 is the best possible hand
/// (a royal flush), 7462 the worst.
pub fn eval_5cards(table: &Vec<u32>, c1: usize, c2: usize, c3: usize, c4: usize, c5: usize) -> (r:
    u16)
    requires
        rank_table_wf(table@),
        valid_hand_vec(seq![c1, c2, c3, c4, c5], 5),
    ensures
        r == spec_rank_of_class(table@, spec_class5_cards(ids_of(seq![c1, c2, c3, c4, c5]))),
        1 <= r <= 7462,
{
    let cards: Vec<usize> = vec![c1, c2, c3, c4, c5];
    proof {
        assert(cards@ =~= seq![c1, c2, c3, c4, c5]);
    }
    eval_five(table, &cards)
}

/// The reference rank of a vector of five distinct cards.
pub fn eval_five(table: &Vec<u32>, cards: &Vec<usize>) -> (r: u16)
    requires
        rank_table_wf(table@),
        valid_hand_vec(cards@, 5),
    ensures
        r == spec_rank_of_class(table@, spec_class5_cards(ids_of(cards@))),
        1 <= r <= 7462,
{
    let ghost s = ids_of(cards@);
    proof {
        assert(s.len() == 5);
        assert forall|i: int| 0 <= i < 5 implies valid_card(#[trigger] s[i]) by {}
    }
    // rank counts
    let mut counts: Vec<u8> = Vec::new();
    let mut i: usize = 0;
    while i < 13
        invariant
            i <= 13,
            counts@.len() == i,
            forall|j: int| 0 <= j < i ==> counts@[j] == 0,
        decreases 13 - i,
    {
        counts.push(0);
        i = i + 1;
    }
    let mut k: usize = 0;
    while k < 5
        invariant
            k <= 5,
            cards@.len() == 5,
            s == ids_of(cards@),
            valid_cards(s),
            counts@.len() == 13,
            forall|r: int|
                0 <= r < 13 ==> #[trigger] counts@[r] as int == crate::counting::count_rank(
                    s.take(k as int),
                    r,
                ),
            forall|r: int| 0 <= r < 13 ==> #[trigger] counts@[r] <= k,
        decreases 5 - k,
    {
        let c = cards[k];
        proof {
            assert(s[k as int] == c as int);
            assert(valid_card(s[k as int]));
        }
        let r = c / 4;
        let old_val = counts[r];
        counts.set(r, old_val + 1);
        proof {
            let sk = s.take(k as int);
            let sk1 = s.take(k as int + 1);
            assert(sk1.drop_last() =~= sk);
            assert(sk1.last() == s[k as int]);
            assert(card_rank(s[k as int]) == r as int);
            assert forall|q: int| 0 <= q < 13 implies counts@[q] as int
                == crate::counting::count_rank(#[trigger] s.take(k as int + 1), q) by {
                assert(crate::counting::count_rank(sk1, q) == crate::counting::count_rank(sk, q)
                    + if card_rank(sk1.last()) == q {
                    1int
                } else {
                    0int
                });
            }
        }
        k = k + 1;
    }
    proof {
        assert(s.take(5) =~= s);
    }
    // flush check
    let suit0 = cards[0] % 4;
    let mut same = true;
    let mut k2: usize = 1;
    while k2 < 5
        invariant
            1 <= k2 <= 5,
            cards@.len() == 5,
            s == ids_of(cards@),
            suit0 as int == card_suit(s[0]),
            same <==> (forall|i: int| 0 <= i < k2 ==> card_suit(#[trigger] s[i]) == card_suit(
                s[0],
            )),
        decreases 5 - k2,
    {
        if cards[k2] % 4 != suit0 {
            same = false;
            proof {
                assert(card_suit(s[k2 as int]) != card_suit(s[0]));
            }
        }
        k2 = k2 + 1;
    }
    let cls: u32;
    if same {
        // all one suit: the rank bitset of that suit
        let mut rs: u32 = 0;
        let mut k3: usize = 0;
        while k3 < 5
            invariant
                k3 <= 5,
                cards@.len() == 5,
                s == ids_of(cards@),
                valid_cards(s),
                all_one_suit(s),
                suit0 as int == card_suit(s[0]),
                rs == rankset_suit(s.take(k3 as int), suit0 as int),
            decreases 5 - k3,
        {
            let c = cards[k3];
            let r = c / 4;
            proof {
                let sk = s.take(k3 as int);
                let sk1 = s.take(k3 as int + 1);
                assert(sk1.drop_last() =~= sk);
                assert(sk1.last() == s[k3 as int]);
                assert(card_suit(s[k3 as int]) == suit0 as int);
                assert(card_rank(s[k3 as int]) == r as int);
            }
            rs = rs | (1u32 << (r as u32));
            k3 = k3 + 1;
        }
        proof {
            assert(s.take(5) =~= s);
        }
        cls = class_flush(rs);
        proof {
            assert(cls == spec_class5_cards(s));
        }
    } else {
        proof {
            assert(counts@.map_values(|x: u8| x as int) =~= card_counts(s));
        }
        cls = class_nonflush(&counts);
        proof {
            assert(cls == spec_class5_cards(s));
        }
    }
    proof {
        lemma_class5_cards_is_class5(s);
    }
    rank_of_class(table, cls)
}

/// `s` with index `i` removed keeps validity and distinctness.
proof fn lemma_remove_hand(s: Seq<int>, i: int)
    requires
        valid_cards(s),
        distinct_cards(s),
        0 <= i < s.len(),
    ensures
        valid_cards(s.remove(i)),
        distinct_cards(s.remove(i)),
{
    let s1 = s.remove(i);
    assert forall|a: int| 0 <= a < s1.len() implies valid_card(#[trigger] s1[a]) by {
        if a < i {
            assert(s1[a] == s[a]);
        } else {
            assert(s1[a] == s[a + 1]);
        }
    }
    assert forall|a: int, b: int| 0 <= a < b < s1.len() implies s1[a] != s1[b] by {
        if b < i {
            assert(s1[a] == s[a] && s1[b] == s[b]);
        } else if a >= i {
            assert(s1[a] == s[a + 1] && s1[b] == s[b + 1]);
        } else {
            assert(s1[a] == s[a] && s1[b] == s[b + 1]);
        }
    }
}

/// The cards of `s` with the two positions `i < j` removed.
pub open spec fn drop_two(s: Seq<int>, i: int, j: int) -> Seq<int> {
    s.remove(j).remove(i)
}

/// `r` is the best (smallest) reference rank over the 21 five-card subsets
/// of the seven cards `s`: some subset attains it and none beats it.
pub open spec fn is_best_of_seven(t: Seq<u32>, s: Seq<int>, r: u16) -> bool {
    &&& exists|i: int, j: int|
        0 <= i < j < 7 && r == spec_rank_of_class(t, spec_class5_cards(drop_two(s, i, j)))
    &&& forall|i: int, j: int|
        0 <= i < j < 7 ==> r <= spec_rank_of_class(
            t,
            #[trigger] spec_class5_cards(drop_two(s, i, j)),
        )
}

/// `r` is the best (smallest) reference rank over the six five-card subsets
/// of the six cards `s`: some subset attains it and none beats it.
pub open spec fn is_best_of_six(t: Seq<u32>, s: Seq<int>, r: u16) -> bool {
    &&& exists|i: int|
        0 <= i < 6 && r == spec_rank_of_class(t, spec_class5_cards(drop_one(s, i)))
    &&& forall|i: int|
        0 <= i < 6 ==> r <= spec_rank_of_class(t, #[trigger] spec_class5_cards(drop_one(s, i)))
}

/// The cards of `s` with position `i` removed, named ahead of its use by the
/// six-card evaluator.
pub open spec fn drop_one(s: Seq<int>, i: int) -> Seq<int> {
    s.remove(i)
}

/// Builds the card vector that omits positions `i` and `j`.
fn omit_two(cards: &Vec<usize>, i: usize, j: usize) -> (sub: Vec<usize>)
    requires
        i < j < cards@.len(),
        cards@.len() == 7,
        valid_hand_vec(cards@, 7),
    ensures
        valid_hand_vec(sub@, 5),
        ids_of(sub@) == drop_two(ids_of(cards@), i as int, j as int),
{
    let ghost s = ids_of(cards@);
    let mut sub: Vec<usize> = Vec::new();
    let mut k: usize = 0;
    while k < 7
        invariant
            k <= 7,
            i < j < 7,
            cards@.len() == 7,
            s == ids_of(cards@),
            k <= i ==> ids_of(sub@) == s.take(k as int),
            i < k <= j ==> ids_of(sub@) == s.take(k as int).remove(i as int),
            j < k ==> ids_of(sub@) == drop_two(s.take(k as int), i as int, j as int),
        decreases 7 - k,
    {
        let ghost subs0 = ids_of(sub@);
        if k != i && k != j {
            sub.push(cards[k]);
            proof {
                assert(ids_of(sub@) =~= subs0.push(s[k as int]));
            }
        }
        proof {
            let tk = s.take(k as int);
            let tk1 = s.take(k as int + 1);
            assert(tk1 =~= tk.push(s[k as int]));
            if k < i {
                assert(ids_of(sub@) =~= tk1);
            } else if k == i {
                assert(tk1.remove(i as int) =~= tk);
                assert(ids_of(sub@) == subs0);
            } else if k < j {
                assert(tk1.remove(i as int) =~= tk.remove(i as int).push(s[k as int]));
                assert(ids_of(sub@) =~= tk1.remove(i as int));
            } else if k == j {
                assert(drop_two(tk1, i as int, j as int) =~= tk.remove(i as int));
                assert(ids_of(sub@) == subs0);
            } else {
                assert(drop_two(tk1, i as int, j as int) =~= drop_two(
                    tk,
                    i as int,
                    j as int,
                ).push(s[k as int]));
                assert(ids_of(sub@) =~= drop_two(tk1, i as int, j as int));
            }
        }
        k = k + 1;
    }
    proof {
        assert(s.take(7) =~= s);
        lemma_remove_hand(s, j as int);
        lemma_remove_hand(s.remove(j as int), i as int);
        assert(ids_of(sub@) == drop_two(s, i as int, j as int));
        assert(sub@.len() == 5) by {
            assert(ids_of(sub@).len() == 5);
        }
    }
    sub
}

/// The reference rank of seven distinct cards: the best reference rank over
/// the 21 five-card subsets.
pub fn eval_7cards(
    table: &Vec<u32>,
    c1: usize,
    c2: usize,
    c3: usize,
    c4: usize,
    c5: usize,
    c6: usize,
    c7: usize,
) -> (r: u16)
    requires
        rank_table_wf(table@),
        valid_hand_vec(seq![c1, c2, c3, c4, c5, c6, c7], 7),
    ensures
        is_best_of_seven(table@, ids_of(seq![c1, c2, c3, c4, c5, c6, c7]), r),
        1 <= r <= 7462,
{
    let cards: Vec<usize> = vec![c1, c2, c3, c4, c5, c6, c7];
    proof {
        assert(cards@ =~= seq![c1, c2, c3, c4, c5, c6, c7]);
    }
    let ghost s = ids_of(cards@);
    let mut best: u16 = 7462;
    let mut have: bool = false;
    let mut i: usize = 0;
    while i < 6
        invariant
            i <= 6,
            cards@.len() == 7,
            s == ids_of(cards@),
            rank_table_wf(table@),
            valid_hand_vec(cards@, 7),
            1 <= best <= 7462,
            i >= 6 ==> have,
            have ==> exists|a: int, b: int|
                0 <= a < b < 7 && best == spec_rank_of_class(
                    table@,
                    spec_class5_cards(drop_two(s, a, b)),
                ),
            !have ==> best == 7462,
            forall|a: int, b: int|
                0 <= a < b < 7 && a < i ==> best <= spec_rank_of_class(
                    table@,
                    #[trigger] spec_class5_cards(drop_two(s, a, b)),
                ),
        decreases 7 - i,
    {
        let mut j: usize = i + 1;
        while j < 7
            invariant
                i < 7,
                i + 1 <= j <= 7,
                cards@.len() == 7,
                s == ids_of(cards@),
                rank_table_wf(table@),
                valid_hand_vec(cards@, 7),
                1 <= best <= 7462,
                j > i + 1 ==> have,
                have ==> exists|a: int, b: int|
                    0 <= a < b < 7 && best == spec_rank_of_class(
                        table@,
                        spec_class5_cards(drop_two(s, a, b)),
                    ),
                !have ==> best == 7462,
                forall|a: int, b: int|
                    0 <= a < b < 7 && a < i ==> best <= spec_rank_of_class(
                        table@,
                        #[trigger] spec_class5_cards(drop_two(s, a, b)),
                    ),
                forall|b: int|
                    i < b < j ==> best <= spec_rank_of_class(
                        table@,
                        #[trigger] spec_class5_cards(drop_two(s, i as int, b)),
                    ),
            decreases 7 - j,
        {
            let sub = omit_two(&cards, i, j);
            let q = eval_five(table, &sub);
            if q < best || !have {
                best = q;
                have = true;
            } else {
            }
            j = j + 1;
        }
        i = i + 1;
    }
    best
}

/// Builds the card vector that omits position `i`.
fn omit_one(cards: &Vec<usize>, i: usize) -> (sub: Vec<usize>)
    requires
        i < cards@.len(),
        cards@.len() == 6,
        valid_hand_vec(cards@, 6),
    ensures
        valid_hand_vec(sub@, 5),
        ids_of(sub@) == drop_one(ids_of(cards@), i as int),
{
    let ghost s = ids_of(cards@);
    let mut sub: Vec<usize> = Vec::new();
    let mut k: usize = 0;
    while k < 6
        invariant
            k <= 6,
            i < 6,
            cards@.len() == 6,
            s == ids_of(cards@),
            k <= i ==> ids_of(sub@) == s.take(k as int),
            i < k ==> ids_of(sub@) == s.take(k as int).remove(i as int),
        decreases 6 - k,
    {
        let ghost subs0 = ids_of(sub@);
        if k != i {
            sub.push(cards[k]);
            proof {
                assert(ids_of(sub@) =~= subs0.push(s[k as int]));
            }
        }
        proof {
            let tk = s.take(k as int);
            let tk1 = s.take(k as int + 1);
            assert(tk1 =~= tk.push(s[k as int]));
            if k < i {
                assert(ids_of(sub@) =~= tk1);
            } else if k == i {
                assert(tk1.remove(i as int) =~= tk);
                assert(ids_of(sub@) == subs0);
            } else {
                assert(tk1.remove(i as int) =~= tk.remove(i as int).push(s[k as int]));
                assert(ids_of(sub@) =~= tk1.remove(i as int));
            }
        }
        k = k + 1;
    }
    proof {
        assert(s.take(6) =~= s);
        lemma_remove_hand(s, i as int);
        assert(ids_of(sub@) == drop_one(s, i as int));
        assert(sub@.len() == 5) by {
            assert(ids_of(sub@).len() == 5);
        }
    }
    sub
}

/// The reference rank of six distinct cards: the best reference rank over
/// the six five-card subsets.
pub fn eval_6cards(
    table: &Vec<u32>,
    c1: usize,
    c2: usize,
    c3: usize,
    c4: usize,
    c5: usize,
    c6: usize,
) -> (r: u16)
    requires
        rank_table_wf(table@),
        valid_hand_vec(seq![c1, c2, c3, c4, c5, c6], 6),
    ensures
        is_best_of_six(table@, ids_of(seq![c1, c2, c3, c4, c5, c6]), r),
        1 <= r <= 7462,
{
    let cards: Vec<usize> = vec![c1, c2, c3, c4, c5, c6];
    proof {
        assert(cards@ =~= seq![c1, c2, c3, c4, c5, c6]);
    }
    let ghost s = ids_of(cards@);
    let mut best: u16 = 7462;
    let mut have: bool = false;
    let mut i: usize = 0;
    while i < 6
        invariant
            i <= 6,
            cards@.len() == 6,
            s == ids_of(cards@),
            rank_table_wf(table@),
            valid_hand_vec(cards@, 6),
            1 <= best <= 7462,
            i >= 1 ==> have,
            have ==> exists|a: int|
                0 <= a < 6 && best == spec_rank_of_class(
                    table@,
                    spec_class5_cards(drop_one(s, a)),
                ),
            !have ==> best == 7462,
            forall|a: int|
                0 <= a < i ==> best <= spec_rank_of_class(
                    table@,
                    #[trigger] spec_class5_cards(drop_one(s, a)),
                ),
        decreases 6 - i,
    {
        let sub = omit_one(&cards, i);
        let q = eval_five(table, &sub);
        if q < best || !have {
            best = q;
            have = true;
        } else {
        }
        i = i + 1;
    }
    best
}

} // verus!
