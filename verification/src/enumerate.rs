//! Exhaustive enumeration of hand categories: complete a partial hand to
//! seven cards in every way and count what each completion makes.

use vstd::prelude::*;

use crate::binomial::{binom, lemma_binom_52_bound, lemma_binom_above, lemma_binom_pascal};
use crate::category::{category_to_index, get_hand_category};
use crate::counting::{disjoint_cards, lemma_concat_hand, lemma_mask_props};
use crate::counting::mask_or;
use crate::deck::{alive_upto, compute_alive_cards, lemma_alive_upto_elems};
use crate::hand::{distinct_cards, is_hand, popcount64, valid_cards, Hand};
use crate::reference::ids_of;
use crate::tables::{
    is_seven_hand,
    lemma_evaluate_range,
    lemma_evaluate_witness_agree,
    spec_evaluate,
    tables_wf,
    Tables,
};

verus! {

/// The category tag of a seven-card hand's strength: 0 for high card
/// through 8 for a straight flush.
pub open spec fn strength_tag(rt: Seq<u32>, s: Seq<int>) -> int {
    spec_evaluate(rt, s) / 0x1000
}

/// How many ways the hand `s` can be finished with `need` cards taken, in
/// ascending position order, from `alive` at positions `start` on, so that
/// the finished seven cards land in category `k`: either the card at
/// `start` is taken or it is skipped.
pub open spec fn count_category(
    rt: Seq<u32>,
    s: Seq<int>,
    alive: Seq<int>,
    start: int,
    need: int,
    k: int,
) -> int
    decreases alive.len() - start,
{
    if need <= 0 {
        if strength_tag(rt, s) == k {
            1int
        } else {
            0int
        }
    } else if start < 0 || start >= alive.len() {
        0
    } else {
        count_category(rt, s.push(alive[start]), alive, start + 1, need - 1, k) + count_category(
            rt,
            s,
            alive,
            start + 1,
            need,
            k,
        )
    }
}

/// Completion counts are never negative.
pub proof fn lemma_count_category_nonneg(
    rt: Seq<u32>,
    s: Seq<int>,
    alive: Seq<int>,
    start: int,
    need: int,
    k: int,
)
    ensures
        count_category(rt, s, alive, start, need, k) >= 0,
    decreases alive.len() - start,
{
    if need > 0 && 0 <= start < alive.len() {
        lemma_count_category_nonneg(rt, s.push(alive[start]), alive, start + 1, need - 1, k);
        lemma_count_category_nonneg(rt, s, alive, start + 1, need, k);
    }
}

/// The completion count does not depend on which card sequence witnesses the
/// partial hand: any two witnesses of the same hand finish into the same
/// categories.
pub proof fn lemma_count_category_witness(
    rt: Seq<u32>,
    s1: Seq<int>,
    s2: Seq<int>,
    alive: Seq<int>,
    start: int,
    need: int,
    k: int,
)
    requires
        valid_cards(s1),
        distinct_cards(s1),
        valid_cards(s2),
        distinct_cards(s2),
        crate::hand::hand_from(s1) == crate::hand::hand_from(s2),
        s1.len() == s2.len(),
        s1.len() + need == 7,
        0 <= need,
        valid_cards(alive),
        distinct_cards(alive),
        0 <= start <= alive.len(),
        forall|j: int| start <= j < alive.len() ==> !s1.contains(#[trigger] alive[j]),
        forall|j: int| start <= j < alive.len() ==> !s2.contains(#[trigger] alive[j]),
    ensures
        count_category(rt, s1, alive, start, need, k) == count_category(
            rt,
            s2,
            alive,
            start,
            need,
            k,
        ),
    decreases alive.len() - start,
{
    if need <= 0 {
        lemma_evaluate_witness_agree(rt, crate::hand::hand_from(s1), s1, s2);
    } else if start < alive.len() {
        let a = alive[start];
        let s1n = s1.push(a);
        let s2n = s2.push(a);
        lemma_push_card_pair(s1, s2, a);
        assert forall|j: int|
            start + 1 <= j < alive.len() implies !s1n.contains(#[trigger] alive[j])
            && !s2n.contains(alive[j]) by {
            assert(alive[j] != a);
            lemma_push_contains_enum(s1, a, alive[j]);
            lemma_push_contains_enum(s2, a, alive[j]);
        }
        lemma_count_category_witness(rt, s1n, s2n, alive, start + 1, need - 1, k);
        lemma_count_category_witness(rt, s1, s2, alive, start + 1, need, k);
    }
}

/// Pushing the same fresh card keeps two witnesses of one hand witnesses of
/// one hand.
proof fn lemma_push_card_pair(s1: Seq<int>, s2: Seq<int>, a: int)
    requires
        valid_cards(s1),
        distinct_cards(s1),
        valid_cards(s2),
        distinct_cards(s2),
        crate::hand::hand_from(s1) == crate::hand::hand_from(s2),
        crate::encoding::valid_card(a),
        !s1.contains(a),
        !s2.contains(a),
    ensures
        valid_cards(s1.push(a)),
        distinct_cards(s1.push(a)),
        valid_cards(s2.push(a)),
        distinct_cards(s2.push(a)),
        crate::hand::hand_from(s1.push(a)) == crate::hand::hand_from(s2.push(a)),
{
    lemma_push_one(s1, a);
    lemma_push_one(s2, a);
}

/// Pushing a fresh valid card keeps a card sequence valid and distinct.
proof fn lemma_push_one(s: Seq<int>, a: int)
    requires
        valid_cards(s),
        distinct_cards(s),
        crate::encoding::valid_card(a),
        !s.contains(a),
    ensures
        valid_cards(s.push(a)),
        distinct_cards(s.push(a)),
        crate::hand::hand_from(s.push(a)) == crate::hand::hand_plus(
            crate::hand::hand_from(s),
            a,
        ),
{
    let sn = s.push(a);
    assert(sn.drop_last() =~= s);
    assert forall|i: int| 0 <= i < sn.len() implies crate::encoding::valid_card(
        #[trigger] sn[i],
    ) by {
        if i < s.len() {
            assert(sn[i] == s[i]);
        }
    }
    assert forall|i: int, j: int| 0 <= i < j < sn.len() implies sn[i] != sn[j] by {
        if j == sn.len() - 1 {
            if sn[i] == a {
                assert(s.contains(a)) by {
                    assert(s[i] == a);
                }
            }
        }
    }
}

/// Membership in a pushed sequence: the new card or an old one.
proof fn lemma_push_contains_enum(s: Seq<int>, c: int, d: int)
    ensures
        s.push(c).contains(d) <==> (d == c || s.contains(d)),
{
    if s.push(c).contains(d) {
        let q = choose|q: int| 0 <= q < s.push(c).len() && s.push(c)[q] == d;
        if q < s.len() {
            assert(s[q] == d);
        }
    }
    if d == c {
        assert(s.push(c)[s.len() as int] == d);
    }
    if s.contains(d) {
        let q = choose|q: int| 0 <= q < s.len() && s[q] == d;
        assert(s.push(c)[q] == d);
    }
}

/// The total of a nine-slot histogram.
pub open spec fn total9(s: Seq<u32>) -> int {
    s[0] + s[1] + s[2] + s[3] + s[4] + s[5] + s[6] + s[7] + s[8]
}

/// Each histogram slot is at most the total.
proof fn lemma_total9_elem(s: Seq<u32>, i: int)
    requires
        s.len() == 9,
        0 <= i < 9,
    ensures
        0 <= s[i] <= total9(s),
        total9(s) >= 0,
{
}

/// A partial hand and a set of dead cards: both are real card sets and no
/// card is in both.
pub open spec fn separate_hands(h: Hand, hs: Seq<int>, d: Hand, ds: Seq<int>) -> bool {
    is_hand(h, hs) && is_hand(d, ds) && disjoint_cards(hs, ds)
}

/// Adds one to the histogram for every completion of `hand` to seven cards
/// with cards of `alive` from index `start` on: C(remaining, need) in all.
fn enumerate_completions(
    hand: Hand,
    Ghost(hs): Ghost<Seq<int>>,
    alive: &Vec<usize>,
    start: usize,
    need: usize,
    counts: &mut Vec<u32>,
    t: &Tables,
)
    requires
        tables_wf(*t),
        is_hand(hand, hs),
        hs.len() + need == 7,
        need <= 5,
        valid_cards(ids_of(alive@)),
        distinct_cards(ids_of(alive@)),
        start <= alive@.len(),
        alive@.len() <= 52,
        forall|j: int| start <= j < alive@.len() ==> !hs.contains(#[trigger] alive@[j] as int),
        old(counts)@.len() == 9,
        total9(old(counts)@) + binom((alive@.len() - start) as nat, need as nat) < 0x100000000,
    ensures
        final(counts)@.len() == 9,
        total9(final(counts)@) == total9(old(counts)@) + binom(
            (alive@.len() - start) as nat,
            need as nat,
        ),
        forall|k: int|
            0 <= k < 9 ==> final(counts)@[k] == old(counts)@[k] + count_category(
                t.rank_table@,
                hs,
                ids_of(alive@),
                start as int,
                need as int,
                k,
            ),
    decreases need,
{
    let ghost rt = t.rank_table@;
    let ghost aliveseq = ids_of(alive@);
    if need == 0 {
        proof {
            assert(is_seven_hand(hand, hs));
        }
        let r = hand.evaluate(t);
        proof {
            lemma_evaluate_range(t.rank_table@, hs);
        }
        let cat = get_hand_category(r);
        let idx = category_to_index(cat);
        let cur = counts[idx];
        proof {
            lemma_total9_elem(counts@, idx as int);
            assert(r as int == spec_evaluate(rt, hs));
            crate::category::lemma_shr12_is_div(r);
            assert(idx as int == strength_tag(rt, hs)) by {
                assert(r >> 12 == r / 0x1000);
            }
        }
        counts.set(idx, cur + 1);
        proof {
            assert(total9(counts@) == total9(old(counts)@) + 1);
            assert forall|k: int|
                0 <= k < 9 implies counts@[k] == old(counts)@[k] + count_category(
                rt,
                hs,
                aliveseq,
                start as int,
                need as int,
                k,
            ) by {
                if k == idx as int {
                    assert(count_category(rt, hs, aliveseq, start as int, 0, k) == 1);
                } else {
                    assert(count_category(rt, hs, aliveseq, start as int, 0, k) == 0);
                }
            }
        }
        return ;
    }
    let len = alive.len();
    let ghost entry = counts@;
    let ghost base = total9(counts@);
    let ghost full = binom((len - start) as nat, need as nat);
    let mut i: usize = start;
    while i < len
        invariant
            tables_wf(*t),
            rt == t.rank_table@,
            aliveseq == ids_of(alive@),
            is_hand(hand, hs),
            hs.len() + need == 7,
            1 <= need <= 5,
            valid_cards(ids_of(alive@)),
            distinct_cards(ids_of(alive@)),
            start <= i <= len,
            len == alive@.len() <= 52,
            forall|j: int| start <= j < alive@.len() ==> !hs.contains(#[trigger] alive@[j] as int),
            counts@.len() == 9,
            entry.len() == 9,
            base == total9(entry),
            base + full < 0x100000000,
            full == binom((len - start) as nat, need as nat),
            total9(counts@) == base + full - binom((len - i) as nat, need as nat),
            binom((len - i) as nat, need as nat) <= full,
            forall|k: int|
                0 <= k < 9 ==> counts@[k] == entry[k] + count_category(
                    rt,
                    hs,
                    aliveseq,
                    start as int,
                    need as int,
                    k,
                ) - count_category(rt, hs, aliveseq, i as int, need as int, k),
        decreases len - i,
    {
        let card = alive[i];
        proof {
            assert(crate::encoding::valid_card(ids_of(alive@)[i as int]));
            assert(ids_of(alive@)[i as int] == card as int);
        }
        let hand2 = hand.add_card(card);
        let ghost hs2 = hs.push(card as int);
        proof {
            assert(hs2.drop_last() =~= hs);
            assert(is_hand(hand2, hs2)) by {
                assert(!hs.contains(card as int));
                assert forall|a: int|
                    0 <= a < hs2.len() implies crate::encoding::valid_card(
                    #[trigger] hs2[a],
                ) by {
                    if a < hs.len() {
                        assert(hs2[a] == hs[a]);
                    }
                }
                assert forall|a: int, b: int| 0 <= a < b < hs2.len() implies hs2[a] != hs2[b] by {
                    if b == hs2.len() - 1 {
                        if hs2[a] == card as int {
                            assert(hs.contains(card as int)) by {
                                assert(hs[a] == card as int);
                            }
                        }
                    }
                }
            }
            assert forall|j: int|
                i + 1 <= j < alive@.len() implies !hs2.contains(
                #[trigger] alive@[j] as int,
            ) by {
                if hs2.contains(alive@[j] as int) {
                    let q = choose|q: int| 0 <= q < hs2.len() && hs2[q] == alive@[j] as int;
                    if q < hs.len() {
                        assert(hs.contains(alive@[j] as int)) by {
                            assert(hs[q] == alive@[j] as int);
                        }
                    } else {
                        assert(alive@[j] as int == card as int);
                        assert(ids_of(alive@)[j] == ids_of(alive@)[i as int]);
                    }
                }
            }
            lemma_binom_pascal((len - i) as nat, need as nat);
        }
        let ghost counts_pre = counts@;
        enumerate_completions(hand2, Ghost(hs2), alive, i + 1, need - 1, counts, t);
        proof {
            assert forall|k: int|
                0 <= k < 9 implies counts@[k] == entry[k] + count_category(
                rt,
                hs,
                aliveseq,
                start as int,
                need as int,
                k,
            ) - count_category(rt, hs, aliveseq, i as int + 1, need as int, k) by {
                assert(aliveseq[i as int] == card as int);
                assert(count_category(rt, hs, aliveseq, i as int, need as int, k)
                    == count_category(rt, hs2, aliveseq, i as int + 1, need as int - 1, k)
                    + count_category(rt, hs, aliveseq, i as int + 1, need as int, k));
                assert(counts@[k] == counts_pre[k] + count_category(
                    rt,
                    hs2,
                    aliveseq,
                    i as int + 1,
                    need as int - 1,
                    k,
                ));
            }
        }
        i = i + 1;
    }
    proof {
        lemma_binom_above(0, need as nat);
        assert forall|k: int|
            0 <= k < 9 implies counts@[k] == entry[k] + count_category(
            rt,
            hs,
            aliveseq,
            start as int,
            need as int,
            k,
        ) by {
            assert(count_category(rt, hs, aliveseq, len as int, need as int, k) == 0);
        }
    }
}

/// Counts, over every completion of `hand` to seven cards from the deck
/// minus `hand` and `dead_cards`, how many completions fall in each hand
/// category, indexed 0 = high card through 8 = straight flush: slot `k`
/// holds exactly the number of completions whose strength tag is `k`, and
/// the counts total one per completion, C(52 - held - dead, 7 - held).
pub fn enumerate_hand_category(hand: &Hand, dead_cards: &Hand, t: &Tables) -> (result: [u32; 9])
    requires
        tables_wf(*t),
        exists|hs: Seq<int>, ds: Seq<int>|
            separate_hands(*hand, hs, *dead_cards, ds) && 2 <= hs.len() <= 7 && ds.len() <= 45,
    ensures
        total9(result@) == binom(
            (52 - popcount64(hand.mask) - popcount64(dead_cards.mask)) as nat,
            (7 - popcount64(hand.mask)) as nat,
        ),
        forall|hs: Seq<int>, ds: Seq<int>|
            #[trigger] separate_hands(*hand, hs, *dead_cards, ds) && 2 <= hs.len() <= 7
                && ds.len() <= 45 ==> forall|k: int|
                0 <= k < 9 ==> result@[k] == count_category(
                    t.rank_table@,
                    hs,
                    alive_upto(hand.mask | dead_cards.mask, 52),
                    0,
                    7 - hs.len(),
                    k,
                ),
{
    let ghost (hs, ds) = choose|hs: Seq<int>, ds: Seq<int>|
        separate_hands(*hand, hs, *dead_cards, ds) && 2 <= hs.len() <= 7 && ds.len() <= 45;
    proof {
        lemma_mask_props(hs);
        lemma_mask_props(ds);
        lemma_concat_hand(hs, ds);
        lemma_mask_props(hs + ds);
    }
    let n = hand.len();
    proof {
        assert(n == hs.len());
    }
    let m = hand.mask | dead_cards.mask;
    let alive = compute_alive_cards(m, Ghost(hs + ds));
    let mut counts: Vec<u32> = Vec::new();
    let mut i: usize = 0;
    while i < 9
        invariant
            i <= 9,
            counts@.len() == i,
            forall|j: int| 0 <= j < i ==> counts@[j] == 0,
        decreases 9 - i,
    {
        counts.push(0);
        i = i + 1;
    }
    proof {
        assert(total9(counts@) == 0);
        lemma_binom_52_bound(alive@.len() as nat, (7 - n) as nat);
        assert forall|j: int|
            0 <= j < alive@.len() implies !hs.contains(#[trigger] alive@[j] as int) by {
            if hs.contains(alive@[j] as int) {
                assert((hs + ds).contains(alive@[j] as int));
            }
        }
    }
    enumerate_completions(*hand, Ghost(hs), &alive, 0, 7 - n, &mut counts, t);
    let result: [u32; 9] = [
        counts[0],
        counts[1],
        counts[2],
        counts[3],
        counts[4],
        counts[5],
        counts[6],
        counts[7],
        counts[8],
    ];
    proof {
        assert(total9(result@) == total9(counts@));
        assert(alive@.len() == 52 - hs.len() - ds.len());
        assert(popcount64(hand.mask) == hs.len());
        assert(popcount64(dead_cards.mask) == ds.len());
        let rt = t.rank_table@;
        let deck = alive_upto(hand.mask | dead_cards.mask, 52);
        assert(ids_of(alive@) == deck);
        lemma_alive_upto_elems(hand.mask | dead_cards.mask, 52);
        assert forall|hs2: Seq<int>, ds2: Seq<int>|
            #[trigger] separate_hands(*hand, hs2, *dead_cards, ds2) && 2 <= hs2.len() <= 7
                && ds2.len() <= 45 implies forall|k: int|
            0 <= k < 9 ==> result@[k] == count_category(
                rt,
                hs2,
                deck,
                0,
                7 - hs2.len(),
                k,
            ) by {
            lemma_mask_props(hs2);
            lemma_mask_props(ds2);
            lemma_concat_hand(hs2, ds2);
            lemma_mask_props(hs2 + ds2);
            assert(mask_or(hs2 + ds2) == hand.mask | dead_cards.mask);
            assert(hs2.len() == popcount64(hand.mask));
            assert forall|j: int|
                0 <= j < deck.len() implies !hs2.contains(#[trigger] deck[j]) && !hs.contains(
                deck[j],
            ) by {
                assert((hand.mask | dead_cards.mask) & crate::encoding::spec_card_mask(deck[j])
                    == 0);
                if hs2.contains(deck[j]) {
                    assert((hs2 + ds2).contains(deck[j]));
                }
                if hs.contains(deck[j]) {
                    assert((hs + ds).contains(deck[j]));
                    assert(mask_or(hs + ds) == hand.mask | dead_cards.mask);
                }
            }
            assert forall|k: int|
                0 <= k < 9 implies result@[k] == count_category(
                rt,
                hs2,
                deck,
                0,
                7 - hs2.len(),
                k,
            ) by {
                lemma_count_category_witness(rt, hs, hs2, deck, 0, (7 - hs2.len()) as int, k);
                assert(result@[k] == counts@[k]);
                assert(counts@[k] == 0 + count_category(rt, hs, deck, 0, 7 - hs.len(), k));
            }
        }
    }
    result
}

} // verus!
