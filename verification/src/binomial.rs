//! Binomial coefficients, used to state how many completions the
//! enumeration engine visits.

use vstd::prelude::*;

verus! {

/// The binomial coefficient C(n, k), by Pascal's rule.
pub open spec fn binom(n: nat, k: nat) -> nat
    decreases n,
{
    if k == 0 {
        1
    } else if n == 0 {
        0
    } else {
        binom((n - 1) as nat, k) + binom((n - 1) as nat, (k - 1) as nat)
    }
}

/// The factorial of `n`.
pub open spec fn fact(n: nat) -> nat
    decreases n,
{
    if n == 0 {
        1
    } else {
        n * fact((n - 1) as nat)
    }
}

/// The falling factorial: the product of the `k` integers below `n`,
/// from `n` down.
pub open spec fn falling(n: nat, k: nat) -> nat
    decreases k,
{
    if k == 0 {
        1
    } else if n == 0 {
        0
    } else {
        n * falling((n - 1) as nat, (k - 1) as nat)
    }
}

/// C(n, k) is zero above the diagonal.
pub proof fn lemma_binom_above(n: nat, k: nat)
    requires
        k > n,
    ensures
        binom(n, k) == 0,
    decreases n,
{
    if n > 0 {
        lemma_binom_above((n - 1) as nat, k);
        lemma_binom_above((n - 1) as nat, (k - 1) as nat);
    }
}

/// C(n, n) == 1.
pub proof fn lemma_binom_diag(n: nat)
    ensures
        binom(n, n) == 1,
    decreases n,
{
    if n > 0 {
        lemma_binom_above((n - 1) as nat, n);
        lemma_binom_diag((n - 1) as nat);
    }
}

/// C(n, k) times k! is the falling factorial of n over k terms: the link
/// that lets concrete binomial values be computed as products.
pub proof fn lemma_binom_falling(n: nat, k: nat)
    requires
        k <= n,
    ensures
        binom(n, k) * fact(k) == falling(n, k),
    decreases n,
{
    if k == 0 {
    } else if k == n {
        lemma_binom_diag(n);
        lemma_falling_fact_diag(n);
        assert(binom(n, k) == 1);
        assert(binom(n, k) * fact(k) == 1 * fact(k));
        assert(falling(n, k) == fact(n));
    } else {
        lemma_binom_falling((n - 1) as nat, k);
        lemma_binom_falling((n - 1) as nat, (k - 1) as nat);
        let b1 = binom((n - 1) as nat, k);
        let b2 = binom((n - 1) as nat, (k - 1) as nat);
        let fk = fact(k);
        let fk1 = fact((k - 1) as nat);
        assert(fk == k * fk1);
        assert(binom(n, k) * fk == b1 * fk + b2 * fk) by (nonlinear_arith)
            requires
                binom(n, k) == b1 + b2,
        ;
        assert(b2 * fk == k * (b2 * fk1)) by (nonlinear_arith)
            requires
                fk == k * fk1,
        ;
        assert(b1 * fk == falling((n - 1) as nat, k));
        assert(b2 * fk1 == falling((n - 1) as nat, (k - 1) as nat));
        lemma_falling_step((n - 1) as nat, k);
        // falling(n-1, k) == (n-k) * falling(n-1, k-1)
        assert(binom(n, k) * fk == (n - k) * falling((n - 1) as nat, (k - 1) as nat) + k * falling(
            (n - 1) as nat,
            (k - 1) as nat,
        ));
        assert(binom(n, k) * fk == n * falling((n - 1) as nat, (k - 1) as nat))
            by (nonlinear_arith)
            requires
                binom(n, k) * fk == (n - k) * falling((n - 1) as nat, (k - 1) as nat) + k * falling(
                    (n - 1) as nat,
                    (k - 1) as nat,
                ),
        ;
    }
}

/// When k == n the falling factorial is the factorial.
proof fn lemma_falling_fact_diag(n: nat)
    ensures
        falling(n, n) == fact(n),
    decreases n,
{
    if n > 0 {
        lemma_falling_fact_diag((n - 1) as nat);
    }
}

/// falling(n, k) == (n - k + 1) * falling(n, k - 1): peeling the last factor
/// instead of the first.
proof fn lemma_falling_step(n: nat, k: nat)
    requires
        1 <= k <= n,
    ensures
        falling(n, k) == (n - k + 1) * falling(n, (k - 1) as nat),
    decreases k,
{
    if k == 1 {
    } else {
        lemma_falling_step((n - 1) as nat, (k - 1) as nat);
        let f = falling((n - 1) as nat, (k - 2) as nat);
        assert(falling((n - 1) as nat, (k - 1) as nat) == (n - k + 1) * f);
        assert(falling(n, k) == n * ((n - k + 1) * f)) by (nonlinear_arith)
            requires
                falling(n, k) == n * falling((n - 1) as nat, (k - 1) as nat),
                falling((n - 1) as nat, (k - 1) as nat) == (n - k + 1) * f,
        ;
        assert(falling(n, (k - 1) as nat) == n * f);
        assert(n * ((n - k + 1) * f) == (n - k + 1) * (n * f)) by (nonlinear_arith);
    }
}

/// Pascal's rule, restated for callers.
pub proof fn lemma_binom_pascal(n: nat, k: nat)
    requires
        n >= 1,
        k >= 1,
    ensures
        binom(n, k) == binom((n - 1) as nat, k) + binom((n - 1) as nat, (k - 1) as nat),
{
}

/// Computes C(n, k) for the deck sizes the enumeration engine meets.
pub fn binom_u32(n: usize, k: usize) -> (b: u32)
    requires
        n <= 52,
        k <= 7,
    ensures
        b == binom(n as nat, k as nat),
{
    proof {
        lemma_binom_52_bound(n as nat, k as nat);
    }
    let mut row: Vec<u64> = Vec::new();
    // row of Pascal's triangle for m, entries 0..=7
    let mut m: usize = 0;
    row.push(1);
    let mut c: usize = 1;
    while c <= 7
        invariant
            1 <= c <= 8,
            row.len() == c,
            row[0] == 1,
            forall|j: int| 1 <= j < c ==> row[j] == binom(0, j as nat),
        decreases 8 - c,
    {
        proof {
            lemma_binom_above(0, c as nat);
        }
        row.push(0);
        c = c + 1;
    }
    while m < n
        invariant
            m <= n <= 52,
            row.len() == 8,
            forall|j: int| 0 <= j < 8 ==> row[j] == binom(m as nat, j as nat),
        decreases n - m,
    {
        let mut j: usize = 7;
        while j >= 1
            invariant
                0 <= j <= 7,
                m < n <= 52,
                row.len() == 8,
                forall|i: int| 0 <= i <= j ==> row[i] == binom(m as nat, i as nat),
                forall|i: int|
                    j < i < 8 ==> row[i] == binom((m + 1) as nat, i as nat),
            decreases j,
        {
            proof {
                lemma_binom_52_bound(m as nat, j as nat);
                lemma_binom_52_bound(m as nat, (j - 1) as nat);
                lemma_binom_le_u64(m as nat, j as nat);
                lemma_binom_le_u64(m as nat, (j - 1) as nat);
            }
            let v = row[j] + row[j - 1];
            row.set(j, v);
            j = j - 1;
        }
        m = m + 1;
    }
    proof {
        lemma_binom_le_u64(n as nat, k as nat);
    }
    row[k] as u32
}

/// The factorials up to five.
pub proof fn lemma_fact_values()
    ensures
        fact(0) == 1,
        fact(1) == 1,
        fact(2) == 2,
        fact(3) == 6,
        fact(4) == 24,
        fact(5) == 120,
{
    assert(fact(0) == 1);
    assert(fact(1) == 1 * fact(0));
    assert(fact(2) == 2 * fact(1));
    assert(fact(3) == 3 * fact(2));
    assert(fact(4) == 4 * fact(3));
    assert(fact(5) == 5 * fact(4));
}

/// The concrete binomial coefficients of the run-out counts: choosing up to
/// two opponent cards from fifty and up to five board cards from
/// forty-eight.
pub proof fn lemma_binom_concrete()
    ensures
        binom(50, 0) == 1,
        binom(50, 1) == 50,
        binom(50, 2) == 1225,
        binom(48, 0) == 1,
        binom(48, 1) == 48,
        binom(48, 2) == 1128,
        binom(48, 3) == 17296,
        binom(48, 4) == 194580,
        binom(48, 5) == 1712304,
{
    lemma_fact_values();
    assert(falling(43, 0) == 1);
    assert(falling(44, 0) == 1);
    assert(falling(45, 0) == 1);
    assert(falling(46, 0) == 1);
    assert(falling(47, 0) == 1);
    assert(falling(48, 0) == 1);
    assert(falling(49, 0) == 1);
    assert(falling(44, 1) == 44 * falling(43, 0));
    assert(falling(45, 1) == 45 * falling(44, 0));
    assert(falling(46, 1) == 46 * falling(45, 0));
    assert(falling(47, 1) == 47 * falling(46, 0));
    assert(falling(48, 1) == 48 * falling(47, 0));
    assert(falling(49, 1) == 49 * falling(48, 0));
    assert(falling(50, 1) == 50 * falling(49, 0));
    assert(falling(45, 2) == 45 * falling(44, 1));
    assert(falling(46, 2) == 46 * falling(45, 1));
    assert(falling(47, 2) == 47 * falling(46, 1));
    assert(falling(48, 2) == 48 * falling(47, 1));
    assert(falling(50, 2) == 50 * falling(49, 1));
    assert(falling(46, 3) == 46 * falling(45, 2));
    assert(falling(47, 3) == 47 * falling(46, 2));
    assert(falling(48, 3) == 48 * falling(47, 2));
    assert(falling(47, 4) == 47 * falling(46, 3));
    assert(falling(48, 4) == 48 * falling(47, 3));
    assert(falling(48, 5) == 48 * falling(47, 4));
    lemma_binom_falling(50, 0);
    lemma_binom_falling(50, 1);
    lemma_binom_falling(50, 2);
    lemma_binom_falling(48, 0);
    lemma_binom_falling(48, 1);
    lemma_binom_falling(48, 2);
    lemma_binom_falling(48, 3);
    lemma_binom_falling(48, 4);
    lemma_binom_falling(48, 5);
}

/// Over a 52-card deck and at most 7 picks, a binomial coefficient fits
/// comfortably in 32 bits: C(n, k) <= falling(52, 7) for the relevant range.
pub proof fn lemma_binom_52_bound(n: nat, k: nat)
    requires
        n <= 52,
        k <= 7,
    ensures
        binom(n, k) < 0x80000000,
{
    lemma_binom_le_u64(n, k);
}

/// C(n, k) <= C(52, 7) < 2^31 for n <= 52, k <= 7, via monotonicity in n
/// and the falling-factorial value of C(52, 7).
proof fn lemma_binom_le_u64(n: nat, k: nat)
    requires
        n <= 52,
        k <= 7,
    ensures
        binom(n, k) < 0x80000000,
{
    lemma_binom_mono_n_pub(n, 52, k);
    lemma_binom_mono_k_52(k);
}

/// C(n, k) is monotone in n.
pub proof fn lemma_binom_mono_n_pub(n1: nat, n2: nat, k: nat)
    requires
        n1 <= n2,
    ensures
        binom(n1, k) <= binom(n2, k),
    decreases n2,
{
    if n1 < n2 {
        lemma_binom_mono_n_pub(n1, (n2 - 1) as nat, k);
        if k > 0 {
        }
    }
}

/// Each C(52, k) for k <= 7 is below 2^31, computed through the falling
/// factorial.
proof fn lemma_binom_mono_k_52(k: nat)
    requires
        k <= 7,
    ensures
        binom(52, k) < 0x80000000,
{
    lemma_binom_falling(52, k);
    lemma_fact_low(k);
    lemma_falling_52(k);
    let b = binom(52, k);
    let f = fact(k);
    assert(b * f == falling(52, k));
    assert(b * f < 0x80000000 * f);
    assert(b < 0x80000000) by (nonlinear_arith)
        requires
            b * f < 0x80000000 * f,
            f >= 1,
    ;
}

/// The factorials up to 7 are at least 1.
proof fn lemma_fact_low(k: nat)
    requires
        k <= 7,
    ensures
        fact(k) >= 1,
    decreases k,
{
    if k > 0 {
        lemma_fact_low((k - 1) as nat);
        assert(fact(k) == k * fact((k - 1) as nat));
        assert(k * fact((k - 1) as nat) >= 1 * 1) by (nonlinear_arith)
            requires
                k >= 1,
                fact((k - 1) as nat) >= 1,
        ;
    }
}

/// falling(52, k) for k <= 7 stays below 2^31 times k!: the concrete
/// products, unfolded.
proof fn lemma_falling_52(k: nat)
    requires
        k <= 7,
    ensures
        falling(52, k) < 0x80000000 * fact(k),
{
    reveal_with_fuel(falling, 9);
    reveal_with_fuel(fact, 9);
    lemma_fact_low(k);
    if k == 0 {
        assert(falling(52, 0) < 0x80000000 * fact(0));
    } else if k == 1 {
        assert(falling(52, 1) < 0x80000000 * fact(1));
    } else if k == 2 {
        assert(falling(52, 2) < 0x80000000 * fact(2));
    } else if k == 3 {
        assert(falling(52, 3) < 0x80000000 * fact(3));
    } else if k == 4 {
        assert(falling(49, 1) == 49);
        assert(falling(50, 2) == 50 * 49);
        assert(falling(51, 3) == 51 * (50 * 49));
        assert(falling(52, 4) == 52 * (51 * (50 * 49)));
        assert(falling(52, 4) < 0x80000000 * fact(4));
    } else if k == 5 {
        assert(falling(52, 5) < 0x80000000 * fact(5));
    } else if k == 6 {
        assert(falling(47, 1) == 47);
        assert(falling(48, 2) == 48 * 47);
        assert(falling(49, 3) == 49 * (48 * 47));
        assert(falling(50, 4) == 50 * (49 * (48 * 47)));
        assert(falling(51, 5) == 51 * (50 * (49 * (48 * 47))));
        assert(falling(52, 6) == 52 * (51 * (50 * (49 * (48 * 47)))));
        assert(falling(52, 6) < 0x80000000 * fact(6));
    } else {
        assert(k == 7);
        assert(falling(46, 1) == 46);
        assert(falling(47, 2) == 47 * 46);
        assert(falling(48, 3) == 48 * (47 * 46));
        assert(falling(49, 4) == 49 * (48 * (47 * 46)));
        assert(falling(50, 5) == 50 * (49 * (48 * (47 * 46))));
        assert(falling(51, 6) == 51 * (50 * (49 * (48 * (47 * 46)))));
        assert(falling(52, 7) == 52 * (51 * (50 * (49 * (48 * (47 * 46))))));
        assert(falling(52, 7) < 0x80000000 * fact(7));
    }
}

} // verus!

