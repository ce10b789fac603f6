//! Head-to-head win counting: all run-outs of two hands over a shared board.
//!
//! Given one player's two cards, an opponent's hand of up to two known
//! cards, a board of zero, three, four or five cards, and any further dead
//! cards, every completion of the opponent's hand and of the board is
//! enumerated, and each final pair of seven-card hands compared.

use vstd::prelude::*;

use crate::binomial::{binom, lemma_binom_above, lemma_binom_falling, lemma_binom_pascal};
use crate::counting::{disjoint_cards, lemma_concat_hand, lemma_mask_props, mask_or};
use crate::deck::compute_alive_cards;
use crate::hand::{
    distinct_cards,
    hand_from,
    is_hand,
    lemma_hand_from_concat,
    popcount64,
    valid_cards,
    Hand,
};
use crate::deck::{alive_upto, lemma_alive_upto_elems};
use crate::reference::ids_of;
use crate::tables::{
    is_seven_hand,
    lemma_evaluate_witness_agree,
    spec_evaluate,
    tables_wf,
    Tables,
};

verus! {

/// Who takes a showdown of two seven-card hands: 0 when the first hand is
/// strictly stronger, 1 when the second is, 2 on a tie.
pub open spec fn duel_outcome(rt: Seq<u32>, s1: Seq<int>, s2: Seq<int>) -> int {
    if spec_evaluate(rt, s1) > spec_evaluate(rt, s2) {
        0int
    } else if spec_evaluate(rt, s1) < spec_evaluate(rt, s2) {
        1int
    } else {
        2int
    }
}

/// How many ways the board can be finished with `need` shared cards taken,
/// in ascending position order, from `alive` at positions `start` on, so
/// that the showdown of the two completed hands goes to `who`: either the
/// card at `start` joins both hands or it is skipped.
pub open spec fn count_runouts(
    rt: Seq<u32>,
    s1: Seq<int>,
    s2: Seq<int>,
    alive: Seq<int>,
    start: int,
    need: int,
    who: int,
) -> int
    decreases alive.len() - start,
{
    if need <= 0 {
        if duel_outcome(rt, s1, s2) == who {
            1int
        } else {
            0int
        }
    } else if start < 0 || start >= alive.len() {
        0
    } else {
        count_runouts(
            rt,
            s1.push(alive[start]),
            s2.push(alive[start]),
            alive,
            start + 1,
            need - 1,
            who,
        ) + count_runouts(rt, s1, s2, alive, start + 1, need, who)
    }
}

/// How many run-outs go to `who` over every way of completing the
/// opponent's hand with `need2` cards from `alive` at positions `start` on
/// and then running out the board from the rest of the deck. The four
/// disjoint pieces — the first player's hole cards, the opponent's cards so
/// far, the board, the dead cards — determine the board pool.
pub open spec fn count_opponents(
    rt: Seq<u32>,
    s1o: Seq<int>,
    s2c: Seq<int>,
    bs: Seq<int>,
    ds: Seq<int>,
    alive: Seq<int>,
    start: int,
    need2: int,
    need_b: int,
    who: int,
) -> int
    decreases alive.len() - start,
{
    if need2 <= 0 {
        count_runouts(
            rt,
            s1o + bs,
            s2c + bs,
            alive_upto(mask_or(((s1o + s2c) + bs) + ds), 52),
            0,
            need_b,
            who,
        )
    } else if start < 0 || start >= alive.len() {
        0
    } else {
        count_opponents(
            rt,
            s1o,
            s2c.push(alive[start]),
            bs,
            ds,
            alive,
            start + 1,
            need2 - 1,
            need_b,
            who,
        ) + count_opponents(rt, s1o, s2c, bs, ds, alive, start + 1, need2, need_b, who)
    }
}

/// Compares the two completed seven-card hands once: one win, loss or tie.
fn showdown(
    hand1: Hand,
    Ghost(s1): Ghost<Seq<int>>,
    hand2: Hand,
    Ghost(s2): Ghost<Seq<int>>,
    t: &Tables,
) -> (r: (u32, u32, u32))
    requires
        tables_wf(*t),
        is_seven_hand(hand1, s1),
        is_seven_hand(hand2, s2),
    ensures
        r.0 + r.1 + r.2 == 1,
        r.0 as int == (if duel_outcome(t.rank_table@, s1, s2) == 0 {
            1int
        } else {
            0int
        }),
        r.1 as int == (if duel_outcome(t.rank_table@, s1, s2) == 1 {
            1int
        } else {
            0int
        }),
        r.2 as int == (if duel_outcome(t.rank_table@, s1, s2) == 2 {
            1int
        } else {
            0int
        }),
{
    let r1 = hand1.evaluate(t);
    let r2 = hand2.evaluate(t);
    proof {
        assert(r1 as int == spec_evaluate(t.rank_table@, s1));
        assert(r2 as int == spec_evaluate(t.rank_table@, s2));
    }
    if r1 > r2 {
        (1, 0, 0)
    } else if r1 < r2 {
        (0, 1, 0)
    } else {
        (0, 0, 1)
    }
}

/// Runs out the board: every choice of `need` more shared cards from
/// `alive_b` at `start` on, added to both hands. C(remaining, need)
/// showdowns in all.
fn run_boards(
    hand1: Hand,
    Ghost(s1): Ghost<Seq<int>>,
    hand2: Hand,
    Ghost(s2): Ghost<Seq<int>>,
    alive_b: &Vec<usize>,
    start: usize,
    need: usize,
    t: &Tables,
) -> (r: (u32, u32, u32))
    requires
        tables_wf(*t),
        is_hand(hand1, s1),
        is_hand(hand2, s2),
        s1.len() + need == 7,
        s2.len() + need == 7,
        need <= 5,
        valid_cards(ids_of(alive_b@)),
        distinct_cards(ids_of(alive_b@)),
        start <= alive_b@.len(),
        alive_b@.len() <= 52,
        forall|j: int| start <= j < alive_b@.len() ==> !s1.contains(#[trigger] alive_b@[j] as int),
        forall|j: int| start <= j < alive_b@.len() ==> !s2.contains(#[trigger] alive_b@[j] as int),
        binom((alive_b@.len() - start) as nat, need as nat) < 0x100000000,
    ensures
        r.0 + r.1 + r.2 == binom((alive_b@.len() - start) as nat, need as nat),
        r.0 as int == count_runouts(
            t.rank_table@,
            s1,
            s2,
            ids_of(alive_b@),
            start as int,
            need as int,
            0,
        ),
        r.1 as int == count_runouts(
            t.rank_table@,
            s1,
            s2,
            ids_of(alive_b@),
            start as int,
            need as int,
            1,
        ),
        r.2 as int == count_runouts(
            t.rank_table@,
            s1,
            s2,
            ids_of(alive_b@),
            start as int,
            need as int,
            2,
        ),
    decreases need,
{
    let ghost rt = t.rank_table@;
    let ghost aliveseq = ids_of(alive_b@);
    if need == 0 {
        return showdown(hand1, Ghost(s1), hand2, Ghost(s2), t);
    }
    let len = alive_b.len();
    let ghost full = binom((len - start) as nat, need as nat);
    let mut w: u32 = 0;
    let mut l: u32 = 0;
    let mut ties: u32 = 0;
    let mut i: usize = start;
    while i < len
        invariant
            tables_wf(*t),
            is_hand(hand1, s1),
            is_hand(hand2, s2),
            s1.len() + need == 7,
            s2.len() + need == 7,
            1 <= need <= 5,
            valid_cards(ids_of(alive_b@)),
            distinct_cards(ids_of(alive_b@)),
            start <= i <= len,
            len == alive_b@.len() <= 52,
            forall|j: int|
                start <= j < alive_b@.len() ==> !s1.contains(#[trigger] alive_b@[j] as int),
            forall|j: int|
                start <= j < alive_b@.len() ==> !s2.contains(#[trigger] alive_b@[j] as int),
            full == binom((len - start) as nat, need as nat),
            full < 0x100000000,
            rt == t.rank_table@,
            aliveseq == ids_of(alive_b@),
            w + l + ties == full - binom((len - i) as nat, need as nat),
            binom((len - i) as nat, need as nat) <= full,
            w as int == count_runouts(rt, s1, s2, aliveseq, start as int, need as int, 0)
                - count_runouts(rt, s1, s2, aliveseq, i as int, need as int, 0),
            l as int == count_runouts(rt, s1, s2, aliveseq, start as int, need as int, 1)
                - count_runouts(rt, s1, s2, aliveseq, i as int, need as int, 1),
            ties as int == count_runouts(rt, s1, s2, aliveseq, start as int, need as int, 2)
                - count_runouts(rt, s1, s2, aliveseq, i as int, need as int, 2),
        decreases len - i,
    {
        let card = alive_b[i];
        proof {
            assert(crate::encoding::valid_card(ids_of(alive_b@)[i as int]));
            assert(ids_of(alive_b@)[i as int] == card as int);
        }
        let h1 = hand1.add_card(card);
        let h2 = hand2.add_card(card);
        let ghost s1n = s1.push(card as int);
        let ghost s2n = s2.push(card as int);
        proof {
            lemma_push_card(s1, card as int);
            lemma_push_card(s2, card as int);
            assert forall|j: int|
                i + 1 <= j < alive_b@.len() implies !s1n.contains(#[trigger] alive_b@[j] as int)
                && !s2n.contains(alive_b@[j] as int) by {
                assert(ids_of(alive_b@)[j] != ids_of(alive_b@)[i as int]);
                assert(alive_b@[j] as int != card as int);
                lemma_push_contains(s1, card as int, alive_b@[j] as int);
                lemma_push_contains(s2, card as int, alive_b@[j] as int);
            }
            lemma_binom_pascal((len - i) as nat, need as nat);
        }
        let (dw, dl, dt) = run_boards(h1, Ghost(s1n), h2, Ghost(s2n), alive_b, i + 1, need - 1, t);
        proof {
            assert(aliveseq[i as int] == card as int);
            assert forall|who: int| 0 <= who < 3 implies count_runouts(
                rt,
                s1,
                s2,
                aliveseq,
                i as int,
                need as int,
                who,
            ) == count_runouts(rt, s1n, s2n, aliveseq, i as int + 1, need as int - 1, who)
                + count_runouts(rt, s1, s2, aliveseq, i as int + 1, need as int, who) by {}
        }
        w = w + dw;
        l = l + dl;
        ties = ties + dt;
        i = i + 1;
    }
    proof {
        lemma_binom_above(0, need as nat);
        assert(count_runouts(rt, s1, s2, aliveseq, len as int, need as int, 0) == 0);
        assert(count_runouts(rt, s1, s2, aliveseq, len as int, need as int, 1) == 0);
        assert(count_runouts(rt, s1, s2, aliveseq, len as int, need as int, 2) == 0);
    }
    (w, l, ties)
}

/// Pushing a fresh valid card onto a hand's cards keeps them valid and
/// distinct.
proof fn lemma_push_card(s: Seq<int>, c: int)
    requires
        valid_cards(s),
        distinct_cards(s),
        crate::encoding::valid_card(c),
        !s.contains(c),
    ensures
        valid_cards(s.push(c)),
        distinct_cards(s.push(c)),
        hand_from(s.push(c)) == crate::hand::hand_plus(hand_from(s), c),
{
    let s2 = s.push(c);
    assert(s2.drop_last() =~= s);
    assert forall|a: int| 0 <= a < s2.len() implies crate::encoding::valid_card(
        #[trigger] s2[a],
    ) by {
        if a < s.len() {
            assert(s2[a] == s[a]);
        }
    }
    assert forall|a: int, b: int| 0 <= a < b < s2.len() implies s2[a] != s2[b] by {
        if b == s2.len() - 1 {
            if s2[a] == c {
                assert(s.contains(c)) by {
                    assert(s[a] == c);
                }
            }
        }
    }
}

/// Membership in a pushed sequence: the new card or an old one.
proof fn lemma_push_contains(s: Seq<int>, c: int, d: int)
    ensures
        s.push(c).contains(d) <==> (d == c || s.contains(d)),
{
    if s.push(c).contains(d) {
        let q = choose|q: int| 0 <= q < s.push(c).len() && s.push(c)[q] == d;
        if q < s.len() {
            assert(s[q] == d);
        }
    }
    if d == c {
        assert(s.push(c)[s.len() as int] == d);
    }
    if s.contains(d) {
        let q = choose|q: int| 0 <= q < s.len() && s[q] == d;
        assert(s.push(c)[q] == d);
    }
}

/// Completes the opponent's hand: every choice of `need2` more cards from
/// `alive` at `start` on goes to the opponent, then every board is run out.
/// The hands carry the shared board; the disjoint pieces — hole cards, the
/// opponent's known cards, the board, the dead cards — are tracked
/// separately. The board pool is the deck minus both hands and the dead
/// cards, of a size that does not depend on the opponent's picks.
fn opponent_completions(
    hand1: Hand,
    Ghost(s1o): Ghost<Seq<int>>,
    hand2: Hand,
    Ghost(s2c): Ghost<Seq<int>>,
    Ghost(bs): Ghost<Seq<int>>,
    dead_mask: u64,
    Ghost(ds): Ghost<Seq<int>>,
    alive: &Vec<usize>,
    start: usize,
    need2: usize,
    need_b: usize,
    t: &Tables,
) -> (r: (u32, u32, u32))
    requires
        tables_wf(*t),
        valid_cards(s1o) && distinct_cards(s1o),
        valid_cards(s2c) && distinct_cards(s2c),
        valid_cards(bs) && distinct_cards(bs),
        valid_cards(ds) && distinct_cards(ds),
        disjoint_cards(s1o, s2c),
        disjoint_cards(s1o, bs),
        disjoint_cards(s1o, ds),
        disjoint_cards(s2c, bs),
        disjoint_cards(s2c, ds),
        disjoint_cards(bs, ds),
        is_hand(hand1, s1o + bs),
        is_hand(hand2, s2c + bs),
        dead_mask == mask_or(ds),
        s1o.len() == 2,
        s2c.len() + need2 == 2,
        bs.len() + need_b == 5,
        need2 <= 2,
        need_b <= 5,
        valid_cards(ids_of(alive@)),
        distinct_cards(ids_of(alive@)),
        start <= alive@.len(),
        alive@.len() <= 52,
        forall|j: int| start <= j < alive@.len() ==> !s1o.contains(#[trigger] alive@[j] as int),
        forall|j: int| start <= j < alive@.len() ==> !s2c.contains(#[trigger] alive@[j] as int),
        forall|j: int| start <= j < alive@.len() ==> !bs.contains(#[trigger] alive@[j] as int),
        forall|j: int| start <= j < alive@.len() ==> !ds.contains(#[trigger] alive@[j] as int),
        4 + bs.len() + ds.len() <= 52,
        binom((alive@.len() - start) as nat, need2 as nat) * binom(
            (52 - 4 - bs.len() - ds.len()) as nat,
            need_b as nat,
        ) < 0x100000000,
    ensures
        r.0 + r.1 + r.2 == binom((alive@.len() - start) as nat, need2 as nat) * binom(
            (52 - 4 - bs.len() - ds.len()) as nat,
            need_b as nat,
        ),
        r.0 as int == count_opponents(
            t.rank_table@,
            s1o,
            s2c,
            bs,
            ds,
            ids_of(alive@),
            start as int,
            need2 as int,
            need_b as int,
            0,
        ),
        r.1 as int == count_opponents(
            t.rank_table@,
            s1o,
            s2c,
            bs,
            ds,
            ids_of(alive@),
            start as int,
            need2 as int,
            need_b as int,
            1,
        ),
        r.2 as int == count_opponents(
            t.rank_table@,
            s1o,
            s2c,
            bs,
            ds,
            ids_of(alive@),
            start as int,
            need2 as int,
            need_b as int,
            2,
        ),
    decreases need2,
{
    let ghost rt = t.rank_table@;
    let ghost aliveseq = ids_of(alive@);
    let ghost board_pool = binom((52 - 4 - bs.len() - ds.len()) as nat, need_b as nat);
    if need2 == 0 {
        // both hole hands are fixed: run out the boards over the remaining
        // deck
        let ghost s1 = s1o + bs;
        let ghost s2 = s2c + bs;
        let ghost us = ((s1o + s2c) + bs) + ds;
        proof {
            lemma_concat_hand(s1o, bs);
            lemma_concat_hand(s2c, bs);
            lemma_concat_hand(s1o, s2c);
            assert(disjoint_cards(s1o + s2c, bs)) by {
                assert forall|c: int|
                    !((s1o + s2c).contains(c) && #[trigger] bs.contains(c)) by {}
            }
            lemma_concat_hand(s1o + s2c, bs);
            assert(disjoint_cards((s1o + s2c) + bs, ds)) by {
                assert forall|c: int|
                    !(((s1o + s2c) + bs).contains(c) && #[trigger] ds.contains(c)) by {}
            }
            lemma_concat_hand((s1o + s2c) + bs, ds);
            lemma_mask_props(us);
            lemma_mask_props(s1);
            lemma_mask_props(s2);
            let m1 = mask_or(s1o);
            let m2 = mask_or(s2c);
            let mb = mask_or(bs);
            let md = mask_or(ds);
            assert(((m1 | mb) | (m2 | mb)) | md == (((m1 | m2) | mb)) | md) by (bit_vector);
        }
        let m = (hand1.mask | hand2.mask) | dead_mask;
        let alive_b = compute_alive_cards(m, Ghost(us));
        proof {
            assert(us.len() == 4 + bs.len() + ds.len());
            assert(alive_b@.len() == 52 - 4 - bs.len() - ds.len());
            assert forall|j: int|
                0 <= j < alive_b@.len() implies !s1.contains(#[trigger] alive_b@[j] as int)
                && !s2.contains(alive_b@[j] as int) by {
                let c = alive_b@[j] as int;
                assert(!us.contains(c));
                if s1o.contains(c) || s2c.contains(c) || bs.contains(c) {
                    assert(us.contains(c));
                }
            }
            assert(binom(alive_b@.len() as nat, need_b as nat) == board_pool);
            assert(1 * board_pool == board_pool) by (nonlinear_arith);
            assert(ids_of(alive_b@) == alive_upto(mask_or(us), 52));
        }
        let out = run_boards(hand1, Ghost(s1), hand2, Ghost(s2), &alive_b, 0, need_b, t);
        return out;
    }
    let len = alive.len();
    let ghost full = binom((len - start) as nat, need2 as nat);
    let mut w: u32 = 0;
    let mut l: u32 = 0;
    let mut ties: u32 = 0;
    let mut i: usize = start;
    while i < len
        invariant
            tables_wf(*t),
            valid_cards(s1o) && distinct_cards(s1o),
            valid_cards(s2c) && distinct_cards(s2c),
            valid_cards(bs) && distinct_cards(bs),
            valid_cards(ds) && distinct_cards(ds),
            disjoint_cards(s1o, s2c),
            disjoint_cards(s1o, bs),
            disjoint_cards(s1o, ds),
            disjoint_cards(s2c, bs),
            disjoint_cards(s2c, ds),
            disjoint_cards(bs, ds),
            is_hand(hand1, s1o + bs),
            is_hand(hand2, s2c + bs),
            dead_mask == mask_or(ds),
            s1o.len() == 2,
            s2c.len() + need2 == 2,
            bs.len() + need_b == 5,
            1 <= need2 <= 2,
            need_b <= 5,
            valid_cards(ids_of(alive@)),
            distinct_cards(ids_of(alive@)),
            start <= i <= len,
            len == alive@.len() <= 52,
            forall|j: int| start <= j < alive@.len() ==> !s1o.contains(#[trigger] alive@[j] as int),
            forall|j: int| start <= j < alive@.len() ==> !s2c.contains(#[trigger] alive@[j] as int),
            forall|j: int| start <= j < alive@.len() ==> !bs.contains(#[trigger] alive@[j] as int),
            forall|j: int| start <= j < alive@.len() ==> !ds.contains(#[trigger] alive@[j] as int),
            4 + bs.len() + ds.len() <= 52,
            board_pool == binom((52 - 4 - bs.len() - ds.len()) as nat, need_b as nat),
            full == binom((len - start) as nat, need2 as nat),
            full * board_pool < 0x100000000,
            rt == t.rank_table@,
            aliveseq == ids_of(alive@),
            w + l + ties == (full - binom((len - i) as nat, need2 as nat)) * board_pool,
            binom((len - i) as nat, need2 as nat) <= full,
            w as int == count_opponents(
                rt,
                s1o,
                s2c,
                bs,
                ds,
                aliveseq,
                start as int,
                need2 as int,
                need_b as int,
                0,
            ) - count_opponents(
                rt,
                s1o,
                s2c,
                bs,
                ds,
                aliveseq,
                i as int,
                need2 as int,
                need_b as int,
                0,
            ),
            l as int == count_opponents(
                rt,
                s1o,
                s2c,
                bs,
                ds,
                aliveseq,
                start as int,
                need2 as int,
                need_b as int,
                1,
            ) - count_opponents(
                rt,
                s1o,
                s2c,
                bs,
                ds,
                aliveseq,
                i as int,
                need2 as int,
                need_b as int,
                1,
            ),
            ties as int == count_opponents(
                rt,
                s1o,
                s2c,
                bs,
                ds,
                aliveseq,
                start as int,
                need2 as int,
                need_b as int,
                2,
            ) - count_opponents(
                rt,
                s1o,
                s2c,
                bs,
                ds,
                aliveseq,
                i as int,
                need2 as int,
                need_b as int,
                2,
            ),
        decreases len - i,
    {
        let card = alive[i];
        proof {
            assert(crate::encoding::valid_card(ids_of(alive@)[i as int]));
            assert(ids_of(alive@)[i as int] == card as int);
        }
        let h2 = hand2.add_card(card);
        let ghost s2n = s2c.push(card as int);
        proof {
            lemma_push_card(s2c, card as int);
            assert(disjoint_cards(s2n, bs)) by {
                assert forall|c: int| !(s2n.contains(c) && #[trigger] bs.contains(c)) by {
                    lemma_push_contains(s2c, card as int, c);
                }
            }
            lemma_concat_hand(s2c, bs);
            lemma_concat_hand(s2n, bs);
            lemma_hand_from_concat(s2c, bs);
            lemma_hand_from_concat(s2n, bs);
            assert(is_hand(h2, s2n + bs)) by {
                let a = hand_from(s2c).key;
                let b = hand_from(bs).key;
                let c = crate::encoding::spec_card_key(card as int);
                crate::hand::lemma_wadd_assoc(a, b, c);
                crate::hand::lemma_wadd_assoc(a, c, b);
                assert(crate::hand::wadd(b, c) == crate::hand::wadd(c, b));
                let am = hand_from(s2c).mask;
                let bm = hand_from(bs).mask;
                let cm = crate::encoding::spec_card_mask(card as int);
                crate::hand::lemma_wadd_assoc(am, bm, cm);
                crate::hand::lemma_wadd_assoc(am, cm, bm);
                assert(crate::hand::wadd(bm, cm) == crate::hand::wadd(cm, bm));
            }
            assert(disjoint_cards(s1o, s2n)) by {
                assert forall|c: int| !(s1o.contains(c) && #[trigger] s2n.contains(c)) by {
                    lemma_push_contains(s2c, card as int, c);
                }
            }
            assert(disjoint_cards(s2n, ds)) by {
                assert forall|c: int| !(s2n.contains(c) && #[trigger] ds.contains(c)) by {
                    lemma_push_contains(s2c, card as int, c);
                }
            }
            assert forall|j: int|
                i + 1 <= j < alive@.len() implies !s2n.contains(#[trigger] alive@[j] as int) by {
                assert(ids_of(alive@)[j] != ids_of(alive@)[i as int]);
                assert(alive@[j] as int != card as int);
                lemma_push_contains(s2c, card as int, alive@[j] as int);
            }
            lemma_binom_pascal((len - i) as nat, need2 as nat);
            let b_rest = binom((len - i - 1) as nat, need2 as nat);
            let b_step = binom((len - i - 1) as nat, (need2 - 1) as nat);
            assert(b_step <= full) by {
                assert(b_step <= b_rest + b_step);
            }
            assert(b_step * board_pool <= full * board_pool) by (nonlinear_arith)
                requires
                    0 <= b_step <= full,
                    board_pool >= 0,
            ;
            assert((full - binom((len - i) as nat, need2 as nat)) * board_pool + b_step
                * board_pool == (full - b_rest) * board_pool) by (nonlinear_arith)
                requires
                    binom((len - i) as nat, need2 as nat) == b_rest + b_step,
            ;
            assert((full - b_rest) * board_pool <= full * board_pool) by (nonlinear_arith)
                requires
                    b_rest >= 0,
                    board_pool >= 0,
                    full >= b_rest,
            ;
            assert(full >= b_rest) by {
                assert(b_rest <= b_rest + b_step);
            }
        }
        let (dw, dl, dt) = opponent_completions(
            hand1,
            Ghost(s1o),
            h2,
            Ghost(s2n),
            Ghost(bs),
            dead_mask,
            Ghost(ds),
            alive,
            i + 1,
            need2 - 1,
            need_b,
            t,
        );
        proof {
            let b_rest = binom((len - i - 1) as nat, need2 as nat);
            let b_step = binom((len - i - 1) as nat, (need2 - 1) as nat);
            assert((full - binom((len - i) as nat, need2 as nat)) * board_pool + b_step
                * board_pool == (full - b_rest) * board_pool) by (nonlinear_arith)
                requires
                    binom((len - i) as nat, need2 as nat) == b_rest + b_step,
            ;
            assert(aliveseq[i as int] == card as int);
            assert forall|who: int| 0 <= who < 3 implies count_opponents(
                rt,
                s1o,
                s2c,
                bs,
                ds,
                aliveseq,
                i as int,
                need2 as int,
                need_b as int,
                who,
            ) == count_opponents(
                rt,
                s1o,
                s2n,
                bs,
                ds,
                aliveseq,
                i as int + 1,
                need2 as int - 1,
                need_b as int,
                who,
            ) + count_opponents(
                rt,
                s1o,
                s2c,
                bs,
                ds,
                aliveseq,
                i as int + 1,
                need2 as int,
                need_b as int,
                who,
            ) by {}
        }
        w = w + dw;
        l = l + dl;
        ties = ties + dt;
        i = i + 1;
    }
    proof {
        lemma_binom_above(0, need2 as nat);
        assert((full - 0) * board_pool == full * board_pool);
        assert(count_opponents(rt, s1o, s2c, bs, ds, aliveseq, len as int, need2 as int, need_b as int, 0) == 0);
        assert(count_opponents(rt, s1o, s2c, bs, ds, aliveseq, len as int, need2 as int, need_b as int, 1) == 0);
        assert(count_opponents(rt, s1o, s2c, bs, ds, aliveseq, len as int, need2 as int, need_b as int, 2) == 0);
    }
    (w, l, ties)
}

/// Run-out counts do not depend on which card sequences witness the two
/// hands: equal accumulated hands meet every shared board the same way.
proof fn lemma_count_runouts_witness(
    rt: Seq<u32>,
    s1: Seq<int>,
    s1p: Seq<int>,
    s2: Seq<int>,
    s2p: Seq<int>,
    alive: Seq<int>,
    start: int,
    need: int,
    who: int,
)
    requires
        valid_cards(s1) && distinct_cards(s1),
        valid_cards(s1p) && distinct_cards(s1p),
        valid_cards(s2) && distinct_cards(s2),
        valid_cards(s2p) && distinct_cards(s2p),
        hand_from(s1) == hand_from(s1p),
        hand_from(s2) == hand_from(s2p),
        s1.len() == s1p.len(),
        s2.len() == s2p.len(),
        s1.len() + need == 7,
        s2.len() + need == 7,
        0 <= need,
        valid_cards(alive),
        distinct_cards(alive),
        0 <= start <= alive.len(),
        forall|j: int| start <= j < alive.len() ==> !s1.contains(#[trigger] alive[j]),
        forall|j: int| start <= j < alive.len() ==> !s1p.contains(#[trigger] alive[j]),
        forall|j: int| start <= j < alive.len() ==> !s2.contains(#[trigger] alive[j]),
        forall|j: int| start <= j < alive.len() ==> !s2p.contains(#[trigger] alive[j]),
    ensures
        count_runouts(rt, s1, s2, alive, start, need, who) == count_runouts(
            rt,
            s1p,
            s2p,
            alive,
            start,
            need,
            who,
        ),
    decreases alive.len() - start,
{
    if need <= 0 {
        lemma_evaluate_witness_agree(rt, hand_from(s1), s1, s1p);
        lemma_evaluate_witness_agree(rt, hand_from(s2), s2, s2p);
    } else if start < alive.len() {
        let a = alive[start];
        crate::hand::lemma_push_hand(s1, a);
        crate::hand::lemma_push_hand(s1p, a);
        crate::hand::lemma_push_hand(s2, a);
        crate::hand::lemma_push_hand(s2p, a);
        assert forall|j: int|
            start + 1 <= j < alive.len() implies !s1.push(a).contains(#[trigger] alive[j])
            && !s1p.push(a).contains(alive[j]) && !s2.push(a).contains(alive[j]) && !s2p.push(
            a,
        ).contains(alive[j]) by {
            assert(alive[j] != a);
            crate::hand::lemma_push_membership(s1, a, alive[j]);
            crate::hand::lemma_push_membership(s1p, a, alive[j]);
            crate::hand::lemma_push_membership(s2, a, alive[j]);
            crate::hand::lemma_push_membership(s2p, a, alive[j]);
        }
        lemma_count_runouts_witness(
            rt,
            s1.push(a),
            s1p.push(a),
            s2.push(a),
            s2p.push(a),
            alive,
            start + 1,
            need - 1,
            who,
        );
        lemma_count_runouts_witness(rt, s1, s1p, s2, s2p, alive, start + 1, need, who);
    }
}

/// Opponent-completion counts do not depend on which card sequences witness
/// the four inputs.
proof fn lemma_count_opponents_witness(
    rt: Seq<u32>,
    s1o: Seq<int>,
    s1op: Seq<int>,
    s2c: Seq<int>,
    s2cp: Seq<int>,
    bs: Seq<int>,
    bsp: Seq<int>,
    ds: Seq<int>,
    dsp: Seq<int>,
    alive: Seq<int>,
    start: int,
    need2: int,
    need_b: int,
    who: int,
)
    requires
        valid_cards(s1o) && distinct_cards(s1o),
        valid_cards(s1op) && distinct_cards(s1op),
        valid_cards(s2c) && distinct_cards(s2c),
        valid_cards(s2cp) && distinct_cards(s2cp),
        valid_cards(bs) && distinct_cards(bs),
        valid_cards(bsp) && distinct_cards(bsp),
        valid_cards(ds) && distinct_cards(ds),
        valid_cards(dsp) && distinct_cards(dsp),
        hand_from(s1o) == hand_from(s1op),
        hand_from(s2c) == hand_from(s2cp),
        hand_from(bs) == hand_from(bsp),
        hand_from(ds) == hand_from(dsp),
        s1o.len() == s1op.len(),
        s2c.len() == s2cp.len(),
        bs.len() == bsp.len(),
        ds.len() == dsp.len(),
        disjoint_cards(s1o, s2c) && disjoint_cards(s1o, bs) && disjoint_cards(s1o, ds),
        disjoint_cards(s2c, bs) && disjoint_cards(s2c, ds) && disjoint_cards(bs, ds),
        disjoint_cards(s1op, s2cp) && disjoint_cards(s1op, bsp) && disjoint_cards(s1op, dsp),
        disjoint_cards(s2cp, bsp) && disjoint_cards(s2cp, dsp) && disjoint_cards(bsp, dsp),
        s1o.len() == 2,
        s2c.len() + need2 == 2,
        bs.len() + need_b == 5,
        0 <= need2,
        0 <= need_b,
        valid_cards(alive),
        distinct_cards(alive),
        0 <= start <= alive.len(),
        forall|j: int| start <= j < alive.len() ==> !s1o.contains(#[trigger] alive[j]),
        forall|j: int| start <= j < alive.len() ==> !s1op.contains(#[trigger] alive[j]),
        forall|j: int| start <= j < alive.len() ==> !s2c.contains(#[trigger] alive[j]),
        forall|j: int| start <= j < alive.len() ==> !s2cp.contains(#[trigger] alive[j]),
        forall|j: int| start <= j < alive.len() ==> !bs.contains(#[trigger] alive[j]),
        forall|j: int| start <= j < alive.len() ==> !bsp.contains(#[trigger] alive[j]),
        forall|j: int| start <= j < alive.len() ==> !ds.contains(#[trigger] alive[j]),
        forall|j: int| start <= j < alive.len() ==> !dsp.contains(#[trigger] alive[j]),
    ensures
        count_opponents(rt, s1o, s2c, bs, ds, alive, start, need2, need_b, who)
            == count_opponents(rt, s1op, s2cp, bsp, dsp, alive, start, need2, need_b, who),
    decreases alive.len() - start,
{
    if need2 <= 0 {
        let us = ((s1o + s2c) + bs) + ds;
        let usp = ((s1op + s2cp) + bsp) + dsp;
        lemma_us_mask(s1o, s2c, bs, ds);
        lemma_us_mask(s1op, s2cp, bsp, dsp);
        lemma_mask_props(s1o);
        lemma_mask_props(s1op);
        lemma_mask_props(s2c);
        lemma_mask_props(s2cp);
        lemma_mask_props(bs);
        lemma_mask_props(bsp);
        lemma_mask_props(ds);
        lemma_mask_props(dsp);
        assert(mask_or(us) == mask_or(usp));
        let pool = alive_upto(mask_or(us), 52);
        lemma_alive_upto_elems(mask_or(us), 52);
        lemma_concat_hand(s1o, bs);
        lemma_concat_hand(s1op, bsp);
        lemma_concat_hand(s2c, bs);
        lemma_concat_hand(s2cp, bsp);
        crate::hand::lemma_hand_from_concat(s1o, bs);
        crate::hand::lemma_hand_from_concat(s1op, bsp);
        crate::hand::lemma_hand_from_concat(s2c, bs);
        crate::hand::lemma_hand_from_concat(s2cp, bsp);
        lemma_mask_props(us);
        lemma_mask_props(usp);
        assert forall|j: int|
            0 <= j < pool.len() implies !(s1o + bs).contains(#[trigger] pool[j]) && !(s1op
            + bsp).contains(pool[j]) && !(s2c + bs).contains(pool[j]) && !(s2cp + bsp).contains(
            pool[j],
        ) by {
            let e = pool[j];
            assert(mask_or(us) & crate::encoding::spec_card_mask(e) == 0);
            assert(!us.contains(e));
            assert(!usp.contains(e)) by {
                assert(mask_or(usp) & crate::encoding::spec_card_mask(e) == 0);
            }
            if (s1o + bs).contains(e) || (s2c + bs).contains(e) {
                assert(us.contains(e));
            }
            if (s1op + bsp).contains(e) || (s2cp + bsp).contains(e) {
                assert(usp.contains(e));
            }
        }
        lemma_count_runouts_witness(
            rt,
            s1o + bs,
            s1op + bsp,
            s2c + bs,
            s2cp + bsp,
            pool,
            0,
            need_b,
            who,
        );
    } else if start < alive.len() {
        let a = alive[start];
        crate::hand::lemma_push_hand(s2c, a);
        crate::hand::lemma_push_hand(s2cp, a);
        assert(disjoint_cards(s1o, s2c.push(a)) && disjoint_cards(s2c.push(a), bs)
            && disjoint_cards(s2c.push(a), ds)) by {
            assert forall|c: int|
                !(s1o.contains(c) && #[trigger] s2c.push(a).contains(c)) && !(s2c.push(
                a,
            ).contains(c) && bs.contains(c)) && !(s2c.push(a).contains(c) && ds.contains(c)) by {
                crate::hand::lemma_push_membership(s2c, a, c);
            }
        }
        assert(disjoint_cards(s1op, s2cp.push(a)) && disjoint_cards(s2cp.push(a), bsp)
            && disjoint_cards(s2cp.push(a), dsp)) by {
            assert forall|c: int|
                !(s1op.contains(c) && #[trigger] s2cp.push(a).contains(c)) && !(s2cp.push(
                a,
            ).contains(c) && bsp.contains(c)) && !(s2cp.push(a).contains(c) && dsp.contains(
                c,
            )) by {
                crate::hand::lemma_push_membership(s2cp, a, c);
            }
        }
        assert forall|j: int|
            start + 1 <= j < alive.len() implies !s2c.push(a).contains(#[trigger] alive[j])
            && !s2cp.push(a).contains(alive[j]) by {
            assert(alive[j] != a);
            crate::hand::lemma_push_membership(s2c, a, alive[j]);
            crate::hand::lemma_push_membership(s2cp, a, alive[j]);
        }
        lemma_count_opponents_witness(
            rt,
            s1o,
            s1op,
            s2c.push(a),
            s2cp.push(a),
            bs,
            bsp,
            ds,
            dsp,
            alive,
            start + 1,
            need2 - 1,
            need_b,
            who,
        );
        lemma_count_opponents_witness(
            rt,
            s1o,
            s1op,
            s2c,
            s2cp,
            bs,
            bsp,
            ds,
            dsp,
            alive,
            start + 1,
            need2,
            need_b,
            who,
        );
    }
}

/// The joined mask of the four disjoint pieces is the or of their masks.
proof fn lemma_us_mask(s1o: Seq<int>, s2c: Seq<int>, bs: Seq<int>, ds: Seq<int>)
    requires
        valid_cards(s1o) && distinct_cards(s1o),
        valid_cards(s2c) && distinct_cards(s2c),
        valid_cards(bs) && distinct_cards(bs),
        valid_cards(ds) && distinct_cards(ds),
        disjoint_cards(s1o, s2c) && disjoint_cards(s1o, bs) && disjoint_cards(s1o, ds),
        disjoint_cards(s2c, bs) && disjoint_cards(s2c, ds) && disjoint_cards(bs, ds),
    ensures
        valid_cards(((s1o + s2c) + bs) + ds),
        distinct_cards(((s1o + s2c) + bs) + ds),
        mask_or(((s1o + s2c) + bs) + ds) == ((mask_or(s1o) | mask_or(s2c)) | mask_or(bs))
            | mask_or(ds),
        forall|c: int|
            #[trigger] (((s1o + s2c) + bs) + ds).contains(c) <==> (s1o.contains(c)
                || s2c.contains(c) || bs.contains(c) || ds.contains(c)),
{
    lemma_concat_hand(s1o, s2c);
    assert(disjoint_cards(s1o + s2c, bs)) by {
        assert forall|c: int| !((s1o + s2c).contains(c) && #[trigger] bs.contains(c)) by {}
    }
    lemma_concat_hand(s1o + s2c, bs);
    assert(disjoint_cards((s1o + s2c) + bs, ds)) by {
        assert forall|c: int| !(((s1o + s2c) + bs).contains(c) && #[trigger] ds.contains(c)) by {}
    }
    lemma_concat_hand((s1o + s2c) + bs, ds);
}

/// Swapping the two players swaps the win counts and keeps the ties: what
/// the first hand wins over all run-outs, the second hand loses, and the
/// other way round.
pub proof fn lemma_runouts_swap(
    rt: Seq<u32>,
    s1: Seq<int>,
    s2: Seq<int>,
    alive: Seq<int>,
    start: int,
    need: int,
)
    ensures
        count_runouts(rt, s1, s2, alive, start, need, 0) == count_runouts(
            rt,
            s2,
            s1,
            alive,
            start,
            need,
            1,
        ),
        count_runouts(rt, s1, s2, alive, start, need, 1) == count_runouts(
            rt,
            s2,
            s1,
            alive,
            start,
            need,
            0,
        ),
        count_runouts(rt, s1, s2, alive, start, need, 2) == count_runouts(
            rt,
            s2,
            s1,
            alive,
            start,
            need,
            2,
        ),
    decreases alive.len() - start,
{
    if need <= 0 {
    } else if 0 <= start < alive.len() {
        lemma_runouts_swap(
            rt,
            s1.push(alive[start]),
            s2.push(alive[start]),
            alive,
            start + 1,
            need - 1,
        );
        lemma_runouts_swap(rt, s1, s2, alive, start + 1, need);
    }
}

/// The inputs of a heads-up count: the two hole hands, the board and the
/// dead cards are real card sets, pairwise disjoint, of the right sizes.
pub open spec fn heads_up_inputs(
    h1: Hand,
    h1s: Seq<int>,
    h2: Hand,
    h2s: Seq<int>,
    b: Hand,
    bs: Seq<int>,
    d: Hand,
    ds: Seq<int>,
) -> bool {
    &&& is_hand(h1, h1s)
    &&& is_hand(h2, h2s)
    &&& is_hand(b, bs)
    &&& is_hand(d, ds)
    &&& h1s.len() == 2
    &&& h2s.len() <= 2
    &&& (bs.len() == 0 || bs.len() == 3 || bs.len() == 4 || bs.len() == 5)
    &&& 4 + bs.len() + ds.len() <= 52
    &&& 7 + h2s.len() + ds.len() <= 52
    &&& disjoint_cards(h1s, h2s)
    &&& disjoint_cards(h1s, bs)
    &&& disjoint_cards(h1s, ds)
    &&& disjoint_cards(h2s, bs)
    &&& disjoint_cards(h2s, ds)
    &&& disjoint_cards(bs, ds)
}

/// Counts, over every completion of the opponent's hand and of the board,
/// how many run-outs the first player wins (strictly stronger final hand),
/// loses and ties. The three counts total one per run-out: C(remaining,
/// opponent's missing cards) times C(remaining after those, board's missing
/// cards).
pub fn heads_up_win_frequency(
    hand1: &Hand,
    hand2: &Hand,
    board: &Hand,
    dead_cards: &Hand,
    t: &Tables,
) -> (r: (u32, u32, u32))
    requires
        tables_wf(*t),
        exists|h1s: Seq<int>, h2s: Seq<int>, bs: Seq<int>, ds: Seq<int>|
            heads_up_inputs(*hand1, h1s, *hand2, h2s, *board, bs, *dead_cards, ds),
    ensures
        ({
            let n2 = popcount64(hand2.mask);
            let nb = popcount64(board.mask);
            let nd = popcount64(dead_cards.mask);
            let pool = 52 - 2 - n2 - nb - nd;
            r.0 + r.1 + r.2 == binom(pool as nat, (2 - n2) as nat) * binom(
                (pool - (2 - n2)) as nat,
                (5 - nb) as nat,
            )
        }),
        forall|h1s: Seq<int>, h2s: Seq<int>, bs: Seq<int>, ds: Seq<int>|
            #[trigger] heads_up_inputs(*hand1, h1s, *hand2, h2s, *board, bs, *dead_cards, ds)
                ==> r.0 as int == count_opponents(
                t.rank_table@,
                h1s,
                h2s,
                bs,
                ds,
                alive_upto(((hand1.mask | hand2.mask) | board.mask) | dead_cards.mask, 52),
                0,
                2 - h2s.len(),
                5 - bs.len(),
                0,
            ) && r.1 as int == count_opponents(
                t.rank_table@,
                h1s,
                h2s,
                bs,
                ds,
                alive_upto(((hand1.mask | hand2.mask) | board.mask) | dead_cards.mask, 52),
                0,
                2 - h2s.len(),
                5 - bs.len(),
                1,
            ) && r.2 as int == count_opponents(
                t.rank_table@,
                h1s,
                h2s,
                bs,
                ds,
                alive_upto(((hand1.mask | hand2.mask) | board.mask) | dead_cards.mask, 52),
                0,
                2 - h2s.len(),
                5 - bs.len(),
                2,
            ),
{
    let ghost (h1s, h2s, bs, ds) = choose|h1s: Seq<int>, h2s: Seq<int>, bs: Seq<int>, ds: Seq<int>|
        heads_up_inputs(*hand1, h1s, *hand2, h2s, *board, bs, *dead_cards, ds);
    proof {
        lemma_mask_props(h1s);
        lemma_mask_props(h2s);
        lemma_mask_props(bs);
        lemma_mask_props(ds);
    }
    let n2 = hand2.len();
    let nb = board.len();
    let merged1 = hand1.merged(board);
    let merged2 = hand2.merged(board);
    let ghost m1s = h1s + bs;
    let ghost m2s = h2s + bs;
    proof {
        lemma_concat_hand(h1s, bs);
        lemma_concat_hand(h2s, bs);
        lemma_hand_from_concat(h1s, bs);
        lemma_hand_from_concat(h2s, bs);
        assert(is_hand(merged1, m1s));
        assert(is_hand(merged2, m2s));
    }
    // the opponent's draw pool: the deck minus everything that is known
    let ghost us = ((h1s + h2s) + bs) + ds;
    proof {
        lemma_concat_hand(h1s, h2s);
        assert(disjoint_cards(h1s + h2s, bs)) by {
            assert forall|c: int| !((h1s + h2s).contains(c) && #[trigger] bs.contains(c)) by {}
        }
        lemma_concat_hand(h1s + h2s, bs);
        assert(disjoint_cards((h1s + h2s) + bs, ds)) by {
            assert forall|c: int|
                !(((h1s + h2s) + bs).contains(c) && #[trigger] ds.contains(c)) by {}
        }
        lemma_concat_hand((h1s + h2s) + bs, ds);
        lemma_mask_props(us);
        let m1 = mask_or(h1s);
        let m2 = mask_or(h2s);
        let mb = mask_or(bs);
        let md = mask_or(ds);
        assert(((m1 | m2) | mb) | md == mask_or(us));
    }
    let m = ((hand1.mask | hand2.mask) | board.mask) | dead_cards.mask;
    let alive = compute_alive_cards(m, Ghost(us));
    let need2 = 2 - n2;
    let need_b = 5 - nb;
    proof {
        assert(us.len() == 2 + h2s.len() + bs.len() + ds.len());
        assert(alive@.len() == 52 - 2 - h2s.len() - bs.len() - ds.len());
        assert forall|j: int|
            0 <= j < alive@.len() implies !h1s.contains(#[trigger] alive@[j] as int)
            && !h2s.contains(alive@[j] as int) && !bs.contains(alive@[j] as int) && !ds.contains(
            alive@[j] as int,
        ) by {
            let c = alive@[j] as int;
            assert(!us.contains(c));
            if h1s.contains(c) || h2s.contains(c) || bs.contains(c) || ds.contains(c) {
                assert(us.contains(c));
            }
        }
        lemma_heads_up_budget(
            alive@.len() as int,
            need2 as int,
            52 - 4 - bs.len() - ds.len(),
            need_b as int,
        );
        assert(52 - 4 - bs.len() - ds.len() <= 48);
        assert(alive@.len() <= 50);
    }
    let out = opponent_completions(
        merged1,
        Ghost(h1s),
        merged2,
        Ghost(h2s),
        Ghost(bs),
        dead_cards.mask,
        Ghost(ds),
        &alive,
        0,
        need2,
        need_b,
        t,
    );
    proof {
        assert(popcount64(hand2.mask) == h2s.len());
        assert(popcount64(board.mask) == bs.len());
        assert(popcount64(dead_cards.mask) == ds.len());
        assert(52 - 4 - bs.len() - ds.len() == (52 - 2 - h2s.len() - bs.len() - ds.len()) - (2
            - h2s.len()));
        let rt = t.rank_table@;
        let m = ((hand1.mask | hand2.mask) | board.mask) | dead_cards.mask;
        let deck = alive_upto(m, 52);
        assert(ids_of(alive@) == deck);
        lemma_alive_upto_elems(m, 52);
        assert forall|h1s2: Seq<int>, h2s2: Seq<int>, bs2: Seq<int>, ds2: Seq<int>|
            #[trigger] heads_up_inputs(*hand1, h1s2, *hand2, h2s2, *board, bs2, *dead_cards, ds2)
                implies out.0 as int == count_opponents(
            rt,
            h1s2,
            h2s2,
            bs2,
            ds2,
            deck,
            0,
            2 - h2s2.len(),
            5 - bs2.len(),
            0,
        ) && out.1 as int == count_opponents(
            rt,
            h1s2,
            h2s2,
            bs2,
            ds2,
            deck,
            0,
            2 - h2s2.len(),
            5 - bs2.len(),
            1,
        ) && out.2 as int == count_opponents(
            rt,
            h1s2,
            h2s2,
            bs2,
            ds2,
            deck,
            0,
            2 - h2s2.len(),
            5 - bs2.len(),
            2,
        ) by {
            lemma_mask_props(h1s2);
            lemma_mask_props(h2s2);
            lemma_mask_props(bs2);
            lemma_mask_props(ds2);
            lemma_us_mask(h1s2, h2s2, bs2, ds2);
            let us2 = ((h1s2 + h2s2) + bs2) + ds2;
            lemma_mask_props(us2);
            assert(mask_or(us2) == m);
            assert(h2s2.len() == popcount64(hand2.mask));
            assert(bs2.len() == popcount64(board.mask));
            assert forall|j: int|
                0 <= j < deck.len() implies !h1s2.contains(#[trigger] deck[j]) && !h2s2.contains(
                deck[j],
            ) && !bs2.contains(deck[j]) && !ds2.contains(deck[j]) && !h1s.contains(deck[j])
                && !h2s.contains(deck[j]) && !bs.contains(deck[j]) && !ds.contains(deck[j]) by {
                let e = deck[j];
                assert(m & crate::encoding::spec_card_mask(e) == 0);
                assert(!us2.contains(e)) by {
                    assert(mask_or(us2) & crate::encoding::spec_card_mask(e) == 0);
                }
                assert(!us.contains(e)) by {
                    assert(mask_or(us) & crate::encoding::spec_card_mask(e) == 0);
                }
                if h1s2.contains(e) || h2s2.contains(e) || bs2.contains(e) || ds2.contains(e) {
                    assert(us2.contains(e));
                }
                if h1s.contains(e) || h2s.contains(e) || bs.contains(e) || ds.contains(e) {
                    assert(us.contains(e));
                }
            }
            assert(count_opponents(rt, h1s, h2s, bs, ds, deck, 0, need2 as int, need_b as int, 0)
                == count_opponents(rt, h1s2, h2s2, bs2, ds2, deck, 0, need2 as int, need_b as int, 0)
                && count_opponents(rt, h1s, h2s, bs, ds, deck, 0, need2 as int, need_b as int, 1)
                == count_opponents(rt, h1s2, h2s2, bs2, ds2, deck, 0, need2 as int, need_b as int, 1)
                && count_opponents(rt, h1s, h2s, bs, ds, deck, 0, need2 as int, need_b as int, 2)
                == count_opponents(
                rt,
                h1s2,
                h2s2,
                bs2,
                ds2,
                deck,
                0,
                need2 as int,
                need_b as int,
                2,
            )) by {
                lemma_count_opponents_witness(
                    rt,
                    h1s,
                    h1s2,
                    h2s,
                    h2s2,
                    bs,
                    bs2,
                    ds,
                    ds2,
                    deck,
                    0,
                    need2 as int,
                    need_b as int,
                    0,
                );
                lemma_count_opponents_witness(
                    rt,
                    h1s,
                    h1s2,
                    h2s,
                    h2s2,
                    bs,
                    bs2,
                    ds,
                    ds2,
                    deck,
                    0,
                    need2 as int,
                    need_b as int,
                    1,
                );
                lemma_count_opponents_witness(
                    rt,
                    h1s,
                    h1s2,
                    h2s,
                    h2s2,
                    bs,
                    bs2,
                    ds,
                    ds2,
                    deck,
                    0,
                    need2 as int,
                    need_b as int,
                    2,
                );
            }
        }
    }
    out
}

/// The run-out count always fits a 32-bit counter: at most C(50, 2) choices
/// of opponent cards times C(48, 5) boards.
proof fn lemma_heads_up_budget(pool1: int, need2: int, pool2: int, need_b: int)
    requires
        0 <= pool1 <= 50,
        0 <= need2 <= 2,
        0 <= pool2 <= 48,
        0 <= need_b <= 5,
    ensures
        binom(pool1 as nat, need2 as nat) * binom(pool2 as nat, need_b as nat) < 0x100000000,
{
    crate::binomial::lemma_binom_mono_n_pub(pool1 as nat, 50, need2 as nat);
    crate::binomial::lemma_binom_mono_n_pub(pool2 as nat, 48, need_b as nat);
    lemma_binom_50_small(need2 as nat);
    lemma_binom_48_small(need_b as nat);
    let a = binom(pool1 as nat, need2 as nat);
    let b = binom(pool2 as nat, need_b as nat);
    assert(a * b <= 1225 * 1712304) by (nonlinear_arith)
        requires
            0 <= a <= 1225,
            0 <= b <= 1712304,
    ;
}

/// C(50, k) for k at most 2 is at most 1225.
proof fn lemma_binom_50_small(k: nat)
    requires
        k <= 2,
    ensures
        binom(50, k) <= 1225,
{
    crate::binomial::lemma_binom_concrete();
    if k == 0 {
    } else if k == 1 {
    } else {
    }
}

/// C(48, k) for k at most 5 is at most C(48, 5).
proof fn lemma_binom_48_small(k: nat)
    requires
        k <= 5,
    ensures
        binom(48, k) <= 1712304,
{
    crate::binomial::lemma_binom_concrete();
    if k == 0 {
    } else if k == 1 {
    } else if k == 2 {
    } else if k == 3 {
    } else if k == 4 {
    } else {
    }
}

} // verus!
