//! The reference rank table: every distinct 5-card class, sorted.
//!
//! There are exactly 7462 distinct 5-card classes. Sorted ascending by class
//! value, the index of a class determines its reference rank (1 for the best
//! class, 7462 for the worst), which the dense strength encoding is built
//! from. The table is constructed by enumerating every valid 5-card
//! rank-count pattern and every 5-rank flush set; construction fails if the
//! class count is not 7462.

use vstd::prelude::*;

use crate::classes::{
    class_flush,
    class_nonflush,
    popcount32,
    popcount_u32,
    spec_class_flush,
    spec_class_nonflush,
};
use crate::counting::{sum_from, valid_counts};

verus! {

/// A strictly ascending sequence.
pub open spec fn strictly_sorted(s: Seq<u32>) -> bool {
    forall|i: int, j: int| 0 <= i < j < s.len() ==> s[i] < s[j]
}

/// `v` is the no-flush class of some valid 5-card rank-count pattern.
pub open spec fn is_class5_nonflush(v: u32) -> bool {
    exists|c: Seq<int>| valid_counts(c, 5) && v == spec_class_nonflush(c)
}

/// `v` is a class value: either the class of a no-flush hand given by a
/// rank-count pattern of five cards, or the class of a flush hand given by
/// the five to seven ranks its suit holds. A flush class of six or seven
/// ranks coincides with the class of its best five ranks, so widening the
/// flush side adds no values; the construction-time count check pins the
/// total at the 7462 classes of 5-card poker.
pub open spec fn is_class5(v: u32) -> bool {
    is_class5_nonflush(v) || (exists|fs: u32|
        fs < 8192 && 5 <= popcount32(fs) <= 7 && v == spec_class_flush(fs))
}

/// A complete class table: strictly ascending, holding class values and
/// every class value. There is exactly one such sequence.
pub open spec fn rank_table_complete(s: Seq<u32>) -> bool {
    &&& strictly_sorted(s)
    &&& forall|i: int| 0 <= i < s.len() ==> is_class5(#[trigger] s[i])
    &&& forall|v: u32| is_class5(v) ==> s.contains(v)
}

/// A well-formed rank table: all class values of 5-card hands, strictly
/// ascending, and exactly the 7462 of 5-card poker.
pub open spec fn rank_table_wf(s: Seq<u32>) -> bool {
    &&& rank_table_complete(s)
    &&& s.len() == 7462
}

/// Two complete class tables are the same sequence: both are the class
/// values, sorted.
pub proof fn lemma_class_table_unique(s1: Seq<u32>, s2: Seq<u32>)
    requires
        rank_table_complete(s1),
        rank_table_complete(s2),
    ensures
        s1 == s2,
{
    broadcast use vstd::seq_lib::group_to_multiset_ensures;

    let leq = |a: u32, b: u32| a <= b;
    assert(vstd::relations::total_ordering(leq)) by {
        assert(vstd::relations::reflexive(leq)) by {
            assert forall|x: u32| #[trigger] leq(x, x) by {}
        }
        assert(vstd::relations::antisymmetric(leq)) by {
            assert forall|x: u32, y: u32| #[trigger] leq(x, y) && #[trigger] leq(y, x) implies x
                == y by {}
        }
        assert(vstd::relations::transitive(leq)) by {
            assert forall|x: u32, y: u32, z: u32|
                #[trigger] leq(x, y) && #[trigger] leq(y, z) implies leq(x, z) by {}
        }
        assert(vstd::relations::strongly_connected(leq)) by {
            assert forall|x: u32, y: u32| #[trigger] leq(x, y) || #[trigger] leq(y, x) by {}
        }
    }
    assert(vstd::relations::sorted_by(s1, leq)) by {
        assert forall|i: int, j: int| 0 <= i < j < s1.len() implies #[trigger] leq(
            s1[i],
            s1[j],
        ) by {}
    }
    assert(vstd::relations::sorted_by(s2, leq)) by {
        assert forall|i: int, j: int| 0 <= i < j < s2.len() implies #[trigger] leq(
            s2[i],
            s2[j],
        ) by {}
    }
    assert(s1.no_duplicates()) by {
        assert forall|i: int, j: int|
            0 <= i < s1.len() && 0 <= j < s1.len() && i != j implies s1[i] != s1[j] by {
            if i < j {
            } else {
            }
        }
    }
    assert(s2.no_duplicates()) by {
        assert forall|i: int, j: int|
            0 <= i < s2.len() && 0 <= j < s2.len() && i != j implies s2[i] != s2[j] by {
            if i < j {
            } else {
            }
        }
    }
    s1.lemma_multiset_has_no_duplicates();
    s2.lemma_multiset_has_no_duplicates();
    assert forall|v: u32| s1.contains(v) <==> #[trigger] s2.contains(v) by {
        if s1.contains(v) {
            let i = choose|i: int| 0 <= i < s1.len() && s1[i] == v;
            assert(is_class5(s1[i]));
        }
        if s2.contains(v) {
            let i = choose|i: int| 0 <= i < s2.len() && s2[i] == v;
            assert(is_class5(s2[i]));
        }
    }
    assert(s1.to_multiset() =~= s2.to_multiset()) by {
        assert forall|v: u32| s1.to_multiset().count(v) == #[trigger] s2.to_multiset().count(
            v,
        ) by {
            if s1.contains(v) {
                assert(s1.to_multiset().count(v) == 1 && s2.to_multiset().count(v) == 1);
            } else {
                assert(s1.to_multiset().count(v) == 0 && s2.to_multiset().count(v) == 0);
            }
        }
    }
    vstd::seq_lib::lemma_sorted_unique(s1, s2, leq);
    assert(s1 =~= s2);
}

/// The sum of the counts below index `i`.
pub open spec fn sum_upto(c: Seq<u8>, i: int) -> int
    decreases i,
{
    if i <= 0 {
        0
    } else {
        sum_upto(c, i - 1) + c[i - 1]
    }
}

/// Prefix sums only read the prefix.
pub proof fn lemma_sum_upto_equal_pub(c1: Seq<u8>, c2: Seq<u8>, i: int)
    requires
        forall|j: int| 0 <= j < i ==> c1[j] == c2[j],
    ensures
        sum_upto(c1, i) == sum_upto(c2, i),
    decreases i,
{
    if i > 0 {
        lemma_sum_upto_equal_pub(c1, c2, i - 1);
    }
}

/// The whole-sequence prefix sum splits at `i` into the prefix sum and the
/// tail sum of the integer view.
pub proof fn lemma_sum_split_pub(counts: Seq<u8>, c: Seq<int>, i: int)
    requires
        counts.len() == 13,
        c.len() == 13,
        forall|j: int| 0 <= j < 13 ==> c[j] == counts[j] as int,
        0 <= i <= 13,
    ensures
        sum_upto(counts, i) + sum_from(c, i) == sum_upto(counts, 13),
    decreases 13 - i,
{
    if i < 13 {
        lemma_sum_split_pub(counts, c, i + 1);
    }
}

/// Tail sums of nonnegative sequences are nonnegative.
pub proof fn lemma_sum_from_nonneg(c: Seq<int>, i: int)
    requires
        forall|j: int| 0 <= j < c.len() ==> 0 <= #[trigger] c[j],
    ensures
        sum_from(c, i) >= 0,
    decreases c.len() - i,
{
    if 0 <= i < c.len() {
        lemma_sum_from_nonneg(c, i + 1);
    } else if i < 0 {
        lemma_sum_from_nonneg(c, 0);
    }
}

/// Prefix sums of counts are nonnegative.
pub proof fn lemma_sum_upto_nonneg_pub(c: Seq<u8>, i: int)
    ensures
        sum_upto(c, i) >= 0,
    decreases i,
{
    if i > 0 {
        lemma_sum_upto_nonneg_pub(c, i - 1);
    }
}

/// Inserts `v` into a strictly sorted vector, keeping it strictly sorted;
/// no change if `v` is already present.
fn insert_sorted(table: &mut Vec<u32>, v: u32)
    requires
        strictly_sorted(old(table)@),
    ensures
        strictly_sorted(final(table)@),
        forall|x: u32| final(table)@.contains(x) <==> (old(table)@.contains(x) || x == v),
        final(table)@.len() <= old(table)@.len() + 1,
{
    let ghost t0 = table@;
    let mut lo: usize = 0;
    let mut hi: usize = table.len();
    while lo < hi
        invariant
            lo <= hi <= table@.len(),
            table@ == t0,
            strictly_sorted(table@),
            forall|i: int| 0 <= i < lo ==> table@[i] < v,
            forall|i: int| hi <= i < table@.len() ==> table@[i] >= v,
        decreases hi - lo,
    {
        let mid = lo + (hi - lo) / 2;
        if table[mid] < v {
            lo = mid + 1;
        } else {
            hi = mid;
        }
    }
    // lo is the first index at or above v
    if lo < table.len() {
        let cur = table[lo];
        if cur == v {
            proof {
                assert(table@.contains(v)) by {
                    assert(table@[lo as int] == v);
                }
            }
            return ;
        }
    }
    table.insert(lo, v);
    proof {
        let t1 = table@;
        assert(t1 == t0.insert(lo as int, v));
        assert forall|i: int, j: int| 0 <= i < j < t1.len() implies t1[i] < t1[j] by {
            if j < lo {
                assert(t1[i] == t0[i] && t1[j] == t0[j]);
            } else if i > lo {
                assert(t1[i] == t0[i - 1] && t1[j] == t0[j - 1]);
            } else if i == lo {
                assert(t1[i] == v && j > lo && t1[j] == t0[j - 1] && j - 1 >= lo);
                assert(t0[j - 1] >= v);
                assert(t0[j - 1] != v) by {
                    if j - 1 == lo {
                        assert(t0[lo as int] != v);
                    } else {
                        assert(t0[lo as int] < t0[j - 1]);
                        assert(t0[lo as int] >= v);
                    }
                }
            } else if j == lo {
                assert(i < lo && t1[i] == t0[i] && t1[j] == v);
            }
        }
        assert forall|x: u32| t1.contains(x) <==> (t0.contains(x) || x == v) by {
            if t1.contains(x) {
                let i = choose|i: int| 0 <= i < t1.len() && t1[i] == x;
                if i < lo {
                    assert(t0[i] == x);
                } else if i > lo {
                    assert(t0[i - 1] == x);
                }
            }
            if t0.contains(x) {
                let i = choose|i: int| 0 <= i < t0.len() && t0[i] == x;
                if i < lo {
                    assert(t1[i] == x);
                } else {
                    assert(t1[i + 1] == x);
                }
            }
            if x == v {
                assert(t1[lo as int] == x);
            }
        }
    }
}

/// `c` agrees with the fixed prefix of `counts` below `rank`, keeps every
/// count in range, and puts `rem` cards on the ranks from `rank` up.
pub open spec fn extends_counts(c: Seq<int>, counts: Seq<u8>, rank: int, rem: int) -> bool {
    &&& c.len() == 13
    &&& forall|j: int| 0 <= j < rank ==> c[j] == counts[j] as int
    &&& forall|r: int| 0 <= r < 13 ==> 0 <= #[trigger] c[r] <= 4
    &&& sum_from(c, rank) == rem
}

/// Inserts the class of every valid 5-card rank-count pattern that extends
/// the counts fixed below `rank` with `rem` more cards on the ranks from
/// `rank` up.
fn enum_nonflush_classes(table: &mut Vec<u32>, counts: &mut Vec<u8>, rank: usize, rem: usize)
    requires
        strictly_sorted(old(table)@),
        old(counts)@.len() == 13,
        rank <= 13,
        rem <= 5,
        forall|j: int| 0 <= j < rank ==> 0 <= #[trigger] old(counts)@[j] <= 4,
        forall|j: int| rank <= j < 13 ==> old(counts)@[j] == 0,
        sum_upto(old(counts)@, rank as int) + rem == 5,
    ensures
        strictly_sorted(final(table)@),
        final(counts)@ == old(counts)@,
        forall|x: u32| old(table)@.contains(x) ==> final(table)@.contains(x),
        forall|x: u32|
            final(table)@.contains(x) ==> old(table)@.contains(x) || is_class5_nonflush(x),
        forall|c: Seq<int>|
            extends_counts(c, old(counts)@, rank as int, rem as int) ==> final(table)@.contains(
                spec_class_nonflush(c),
            ),
    decreases 13 - rank,
{
    if rank == 13 {
        if rem == 0 {
            let ghost cfull = counts@.map_values(|x: u8| x as int);
            let v = class_nonflush(counts);
            proof {
                lemma_sum_split_pub(counts@, cfull, 0);
                assert(sum_from(cfull, 0) == 5);
                assert(valid_counts(cfull, 5));
            }
            insert_sorted(table, v);
            proof {
                assert forall|c: Seq<int>|
                    extends_counts(c, counts@, rank as int, rem as int) implies table@.contains(
                    spec_class_nonflush(c),
                ) by {
                    assert(c =~= cfull);
                    assert(table@.contains(v));
                }
            }
        } else {
            proof {
                assert forall|c: Seq<int>|
                    extends_counts(c, counts@, rank as int, rem as int) implies table@.contains(
                    spec_class_nonflush(c),
                ) by {
                    assert(sum_from(c, 13) == 0);
                    assert(false);
                }
            }
        }
        return ;
    }
    let maxc: usize = if rem < 4 {
        rem
    } else {
        4
    };
    let mut cnt: usize = 0;
    let ghost counts_in = counts@;
    let ghost table_on_entry = table@;
    while cnt <= maxc
        invariant
            cnt <= maxc + 1,
            maxc <= 4,
            maxc <= rem,
            rem <= 5,
            rank < 13,
            rem < 4 ==> maxc == rem,
            rem >= 4 ==> maxc == 4,
            counts@.len() == 13,
            counts_in.len() == 13,
            forall|j: int| 0 <= j < rank ==> counts@[j] == counts_in[j],
            forall|j: int| rank < j < 13 ==> counts@[j] == 0,
            forall|j: int| 0 <= j < rank ==> 0 <= #[trigger] counts_in[j] <= 4,
            forall|j: int| rank <= j < 13 ==> counts_in[j] == 0,
            sum_upto(counts_in, rank as int) + rem == 5,
            strictly_sorted(table@),
            forall|x: u32| table_on_entry.contains(x) ==> table@.contains(x),
            forall|x: u32|
                table@.contains(x) ==> table_on_entry.contains(x) || is_class5_nonflush(x),
            forall|c: Seq<int>|
                extends_counts(c, counts_in, rank as int, rem as int) && c[rank as int] < cnt
                    ==> table@.contains(spec_class_nonflush(c)),
        decreases maxc + 1 - cnt,
    {
        counts.set(rank, cnt as u8);
        let ghost counts_mid = counts@;
        proof {
            lemma_sum_upto_equal_pub(counts_mid, counts_in, rank as int);
            assert(sum_upto(counts_mid, rank as int + 1) == sum_upto(counts_in, rank as int)
                + cnt);
            assert forall|j: int| 0 <= j < rank + 1 implies 0 <= #[trigger] counts_mid[j]
                <= 4 by {
                if j < rank {
                    assert(counts_mid[j] == counts_in[j]);
                } else {
                    assert(counts_mid[j] == cnt as u8);
                }
            }
        }
        enum_nonflush_classes(table, counts, rank + 1, rem - cnt);
        proof {
            assert(counts@ == counts_mid);
            assert forall|c: Seq<int>|
                extends_counts(c, counts_in, rank as int, rem as int) && c[rank as int] < cnt
                    + 1 implies table@.contains(spec_class_nonflush(c)) by {
                if c[rank as int] == cnt {
                    assert(extends_counts(c, counts_mid, rank as int + 1, rem as int - cnt)) by {
                        assert(counts_mid[rank as int] == cnt);
                        assert(sum_from(c, rank as int) == c[rank as int] + sum_from(
                            c,
                            rank as int + 1,
                        ));
                    }
                }
            }
        }
        cnt = cnt + 1;
    }
    counts.set(rank, 0);
    proof {
        assert(counts@ =~= counts_in);
        assert forall|c: Seq<int>|
            extends_counts(c, counts_in, rank as int, rem as int) implies table@.contains(
            spec_class_nonflush(c),
        ) by {
            lemma_sum_from_nonneg(c, rank as int + 1);
            assert(sum_from(c, rank as int) == c[rank as int] + sum_from(c, rank as int + 1));
            assert(c[rank as int] <= rem);
            assert(c[rank as int] <= 4);
            assert(c[rank as int] < cnt);
        }
    }
}

/// Inserts the class of every 5-rank flush set.
fn enum_flush_classes(table: &mut Vec<u32>)
    requires
        strictly_sorted(old(table)@),
    ensures
        strictly_sorted(final(table)@),
        forall|x: u32| old(table)@.contains(x) ==> final(table)@.contains(x),
        forall|x: u32| final(table)@.contains(x) ==> old(table)@.contains(x) || is_class5(x),
        forall|fs: u32|
            fs < 8192 && 5 <= popcount32(fs) <= 7 ==> final(table)@.contains(
                spec_class_flush(fs),
            ),
{
    let ghost table_on_entry = table@;
    let mut fs: u32 = 0;
    while fs < 8192
        invariant
            fs <= 8192,
            strictly_sorted(table@),
            forall|x: u32| table_on_entry.contains(x) ==> table@.contains(x),
            forall|x: u32| table@.contains(x) ==> table_on_entry.contains(x) || is_class5(x),
            forall|g: u32|
                g < fs && 5 <= popcount32(g) <= 7 ==> table@.contains(spec_class_flush(g)),
        decreases 8192 - fs,
    {
        let pc = popcount_u32(fs);
        if 5 <= pc && pc <= 7 {
            let v = class_flush(fs);
            insert_sorted(table, v);
        }
        fs = fs + 1;
    }
}

/// Collects the class table: the sorted values of all 5-card classes,
/// complete by construction.
pub fn collect_class_table() -> (t: Vec<u32>)
    ensures
        rank_table_complete(t@),
{
    let mut table: Vec<u32> = Vec::new();
    let mut counts: Vec<u8> = Vec::new();
    let mut i: usize = 0;
    while i < 13
        invariant
            i <= 13,
            counts@.len() == i,
            forall|j: int| 0 <= j < i ==> counts@[j] == 0,
        decreases 13 - i,
    {
        counts.push(0);
        i = i + 1;
    }
    enum_nonflush_classes(&mut table, &mut counts, 0, 5);
    enum_flush_classes(&mut table);
    proof {
        assert forall|v: u32| is_class5(v) implies table@.contains(v) by {
            if is_class5_nonflush(v) {
                let c = choose|c: Seq<int>| valid_counts(c, 5) && v == spec_class_nonflush(c);
                assert(extends_counts(c, counts@, 0, 5));
            }
        }
    }
    table
}

/// Builds the rank table: the sorted values of all 5-card classes. Returns
/// `None` only when their number is not the 7462 of 5-card poker — and then
/// no well-formed rank table exists at all, since the complete class table
/// is unique.
pub fn build_rank_table() -> (r: Option<Vec<u32>>)
    ensures
        match r {
            Some(t) => rank_table_wf(t@),
            None => !(exists|s: Seq<u32>| rank_table_wf(s)),
        },
{
    let table = collect_class_table();
    if table.len() != 7462 {
        proof {
            assert forall|s: Seq<u32>| !(#[trigger] rank_table_wf(s)) by {
                if rank_table_wf(s) {
                    lemma_class_table_unique(s, table@);
                }
            }
        }
        return None;
    }
    Some(table)
}

/// Finds the index of a class value in a sorted table that contains it.
pub fn find_class_index(table: &Vec<u32>, v: u32) -> (i: usize)
    requires
        strictly_sorted(table@),
        table@.contains(v),
    ensures
        i < table@.len(),
        table@[i as int] == v,
{
    let mut lo: usize = 0;
    let mut hi: usize = table.len();
    proof {
        let w = choose|i: int| 0 <= i < table@.len() && table@[i] == v;
    }
    while lo < hi
        invariant
            lo <= hi <= table@.len(),
            strictly_sorted(table@),
            exists|i: int| lo <= i < hi && table@[i] == v,
        decreases hi - lo,
    {
        let mid = lo + (hi - lo) / 2;
        let cur = table[mid];
        if cur == v {
            return mid;
        } else if cur < v {
            proof {
                let w = choose|i: int| lo <= i < hi && table@[i] == v;
                assert(w > mid);
            }
            lo = mid + 1;
        } else {
            proof {
                let w = choose|i: int| lo <= i < hi && table@[i] == v;
                assert(w < mid);
            }
            hi = mid;
        }
    }
    proof {
        assert(false);
    }
    0
}

/// The reference rank of a 5-card class: 1 for the best class, 7462 for the
/// worst. Larger class values get smaller (better) ranks.
pub fn rank_of_class(table: &Vec<u32>, v: u32) -> (r: u16)
    requires
        rank_table_wf(table@),
        is_class5(v),
    ensures
        r == spec_rank_of_class(table@, v),
        1 <= r <= 7462,
{
    let i = find_class_index(table, v);
    proof {
        lemma_class_index_unique(table@, v, i as int);
    }
    (7462 - i) as u16
}

/// The index of a class value in a sorted table, as the witness of `choose`.
pub open spec fn spec_class_index(s: Seq<u32>, v: u32) -> int {
    choose|i: int| 0 <= i < s.len() && s[i] == v
}

/// The reference rank of a class value: its distance from the top of the
/// sorted class table.
pub open spec fn spec_rank_of_class(s: Seq<u32>, v: u32) -> int {
    s.len() - spec_class_index(s, v)
}

/// In a strictly sorted table an element has exactly one index.
pub proof fn lemma_class_index_unique(s: Seq<u32>, v: u32, i: int)
    requires
        strictly_sorted(s),
        0 <= i < s.len(),
        s[i] == v,
    ensures
        spec_class_index(s, v) == i,
{
    let j = spec_class_index(s, v);
    assert(s.contains(v)) by {
        assert(s[i] == v);
    }
    assert(0 <= j < s.len() && s[j] == v);
    if j < i {
        assert(s[j] < s[i]);
    } else if j > i {
        assert(s[i] < s[j]);
    }
}

/// A class value's reference rank lies between 1 and 7462.
pub proof fn lemma_rank_of_class_range(s: Seq<u32>, v: u32)
    requires
        rank_table_wf(s),
        is_class5(v),
    ensures
        1 <= spec_rank_of_class(s, v) <= 7462,
{
    assert(s.contains(v));
    let w = choose|i: int| 0 <= i < s.len() && s[i] == v;
    lemma_class_index_unique(s, v, w);
}

/// Better classes get better ranks: the class-to-rank map is strictly
/// antitone, so comparing strengths is comparing classes.
pub proof fn lemma_rank_antitone(s: Seq<u32>, v1: u32, v2: u32)
    requires
        rank_table_wf(s),
        is_class5(v1),
        is_class5(v2),
        v1 < v2,
    ensures
        spec_rank_of_class(s, v1) > spec_rank_of_class(s, v2),
{
    let i1 = spec_class_index(s, v1);
    let i2 = spec_class_index(s, v2);
    assert(s.contains(v1) && s.contains(v2));
    assert(0 <= i1 < s.len() && s[i1] == v1) by {
        let w = choose|i: int| 0 <= i < s.len() && s[i] == v1;
        lemma_class_index_unique(s, v1, w);
    }
    assert(0 <= i2 < s.len() && s[i2] == v2) by {
        let w = choose|i: int| 0 <= i < s.len() && s[i] == v2;
        lemma_class_index_unique(s, v2, w);
    }
    if i1 > i2 {
    } else if i1 < i2 {
        assert(s[i1] < s[i2]);
    } else {
        assert(v1 == v2);
    }
}

} // verus!
