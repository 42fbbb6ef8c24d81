use vstd::prelude::*;

verus! {

/// Two to the power `e`.
pub open spec fn exp2(e: nat) -> nat
    decreases e,
{
    if e == 0 {
        1
    } else {
        2 * exp2((e - 1) as nat)
    }
}

/// The sum `f(0) + ... + f(n - 1)`.
pub open spec fn sum_to(f: spec_fn(int) -> int, n: int) -> int
    decreases n,
{
    if n <= 0 {
        0
    } else {
        sum_to(f, n - 1) + f(n - 1)
    }
}

pub proof fn lemma_exp2_pos(e: nat)
    ensures
        exp2(e) >= 1,
    decreases e,
{
    if e > 0 {
        lemma_exp2_pos((e - 1) as nat);
    }
}

pub proof fn lemma_exp2_adds(a: nat, b: nat)
    ensures
        exp2(a + b) == exp2(a) * exp2(b),
    decreases a,
{
    if a > 0 {
        let a1 = (a - 1) as nat;
        lemma_exp2_adds(a1, b);
        assert(a + b == (a1 + b) + 1);
        assert(exp2(a + b) == 2 * exp2(a1 + b));
        assert(exp2(a) == 2 * exp2(a1));
        assert(2 * (exp2(a1) * exp2(b)) == (2 * exp2(a1)) * exp2(b)) by (nonlinear_arith);
    } else {
        assert(exp2(0) == 1);
        assert(a + b == b);
    }
}

pub proof fn lemma_exp2_monotone(a: nat, b: nat)
    requires
        a <= b,
    ensures
        exp2(a) <= exp2(b),
    decreases b,
{
    if a < b {
        lemma_exp2_monotone(a, (b - 1) as nat);
        lemma_exp2_pos((b - 1) as nat);
    }
}

pub proof fn lemma_exp2_values()
    ensures
        exp2(0) == 1,
        exp2(1) == 2,
        exp2(2) == 4,
        exp2(3) == 8,
        exp2(4) == 16,
        exp2(8) == 256,
        exp2(16) == 65536,
        exp2(32) == 0x1_0000_0000,
{
    reveal_with_fuel(exp2, 33);
}

/// Sums of pointwise equal terms are equal.
pub proof fn lemma_sum_eq(f: spec_fn(int) -> int, g: spec_fn(int) -> int, n: int)
    requires
        forall|i: int| 0 <= i < n ==> #[trigger] f(i) == g(i),
    ensures
        sum_to(f, n) == sum_to(g, n),
    decreases n,
{
    if n > 0 {
        lemma_sum_eq(f, g, n - 1);
    }
}

/// Changing one term changes the sum by the difference of that term.
pub proof fn lemma_sum_point(f: spec_fn(int) -> int, g: spec_fn(int) -> int, n: int, p: int)
    requires
        0 <= p < n,
        forall|i: int| 0 <= i < n && i != p ==> #[trigger] f(i) == g(i),
    ensures
        sum_to(g, n) == sum_to(f, n) - f(p) + g(p),
    decreases n,
{
    if n - 1 == p {
        lemma_sum_eq(f, g, n - 1);
    } else {
        lemma_sum_point(f, g, n - 1, p);
    }
}

/// Terms past `n` that are zero add nothing.
pub proof fn lemma_sum_zero_tail(f: spec_fn(int) -> int, n: int, m: int)
    requires
        0 <= n <= m,
        forall|i: int| n <= i < m ==> #[trigger] f(i) == 0,
    ensures
        sum_to(f, m) == sum_to(f, n),
    decreases m,
{
    if m > n {
        lemma_sum_zero_tail(f, n, m - 1);
    }
}

/// The sum of two term-wise sums is the sum of the added terms.
pub proof fn lemma_sum_add(f: spec_fn(int) -> int, g: spec_fn(int) -> int, h: spec_fn(int) -> int, n: int)
    requires
        forall|i: int| 0 <= i < n ==> #[trigger] h(i) == f(i) + g(i),
    ensures
        sum_to(h, n) == sum_to(f, n) + sum_to(g, n),
    decreases n,
{
    if n > 0 {
        lemma_sum_add(f, g, h, n - 1);
    }
}

/// A sum with every term scaled by `c` is the sum scaled by `c`.
pub proof fn lemma_sum_scale(f: spec_fn(int) -> int, g: spec_fn(int) -> int, c: int, n: int)
    requires
        forall|i: int| 0 <= i < n ==> #[trigger] g(i) == f(i) * c,
    ensures
        sum_to(g, n) == sum_to(f, n) * c,
    decreases n,
{
    if n > 0 {
        lemma_sum_scale(f, g, c, n - 1);
        assert(sum_to(f, n - 1) * c + f(n - 1) * c == (sum_to(f, n - 1) + f(n - 1)) * c)
            by (nonlinear_arith);
    }
}

/// Sums keep a pointwise order of their terms.
pub proof fn lemma_sum_le(f: spec_fn(int) -> int, g: spec_fn(int) -> int, n: int)
    requires
        forall|i: int| 0 <= i < n ==> #[trigger] f(i) <= g(i),
    ensures
        sum_to(f, n) <= sum_to(g, n),
    decreases n,
{
    if n > 0 {
        lemma_sum_le(f, g, n - 1);
    }
}

/// A sum of zeros is zero.
pub proof fn lemma_sum_zero(n: int)
    ensures
        sum_to(|s: int| 0int, n) == 0,
    decreases n,
{
    if n > 0 {
        lemma_sum_zero(n - 1);
    }
}

} // verus!
