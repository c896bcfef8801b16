//! Why the generator has full period.
//!
//! For a modulus `m` that is a power of two, the map `x -> (A * x + C) mod m` with
//! `A = 1 (mod 4)` and `C = 1` runs through all of `[0, m)` before it returns to
//! where it started. The proof follows the unreduced recurrence
//! `x -> A * x + 1`: after `n` steps it has moved `x` by
//! `(1 + A + ... + A^(n-1)) * ((A - 1) * x + 1)`. The second factor is odd, and the
//! geometric sum is divisible by a power of two only when `n` is.

use vstd::prelude::*;
use vstd::arithmetic::div_mod::{
    lemma_add_mod_noop, lemma_fundamental_div_mod, lemma_mod_bound, lemma_mod_equivalence,
    lemma_mod_twice, lemma_mul_mod_noop_right, lemma_small_mod, lemma_truncate_middle,
};
use vstd::arithmetic::power2::is_pow2;
use vstd::set_lib::{lemma_int_range, lemma_map_size, lemma_subset_equality, set_int_range};
use crate::lcg::{lcg_iterate, lcg_step, LCG_A, LCG_C};
use crate::power2::{lemma_pow2_half, lemma_pow2_positive};

verus! {

/// `1 + A + ... + A^(n-1)`.
spec fn geometric(n: nat) -> int
    decreases n,
{
    if n == 0 {
        0
    } else {
        LCG_A as int * geometric((n - 1) as nat) + 1
    }
}

/// `n` steps of the recurrence without reduction.
spec fn unreduced(x: int, n: nat) -> int
    decreases n,
{
    if n == 0 {
        x
    } else {
        LCG_A as int * unreduced(x, (n - 1) as nat) + LCG_C as int
    }
}

proof fn lemma_geometric_nonnegative(n: nat)
    ensures
        geometric(n) >= 0,
    decreases n,
{
    if n > 0 {
        lemma_geometric_nonnegative((n - 1) as nat);
    }
}

/// The multiplier is odd, so a step flips the parity.
proof fn lemma_step_flips_parity(g: int)
    ensures
        (LCG_A as int * g + 1) % 2 == 1 - g % 2,
{
    let k = 11347738 * g;
    assert(LCG_A as int * g + 1 == 2 * k + (g + 1));
    vstd::arithmetic::div_mod::lemma_mod_multiples_vanish(k, g + 1, 2);
}

/// The geometric sum of `n` terms is odd exactly when `n` is.
proof fn lemma_geometric_parity(n: nat)
    ensures
        geometric(n) % 2 == (n % 2) as int,
    decreases n,
{
    if n > 0 {
        lemma_geometric_parity((n - 1) as nat);
        lemma_step_flips_parity(geometric((n - 1) as nat));
    }
}

/// The reduced and the unreduced recurrence agree modulo `m`.
proof fn lemma_unreduced_congruent(x: int, m: int, n: nat)
    requires
        m > 0,
    ensures
        lcg_iterate(x, m, n) % m == unreduced(x, n) % m,
    decreases n,
{
    if n > 0 {
        let a = lcg_iterate(x, m, (n - 1) as nat);
        let b = unreduced(x, (n - 1) as nat);
        lemma_unreduced_congruent(x, m, (n - 1) as nat);
        lemma_mul_mod_noop_right(LCG_A as int, a, m);
        lemma_mul_mod_noop_right(LCG_A as int, b, m);
        lemma_add_mod_noop(LCG_A as int * a, 1, m);
        lemma_add_mod_noop(LCG_A as int * b, 1, m);
        lemma_mod_twice(LCG_A as int * a + 1, m);
    }
}

/// After `n` unreduced steps `x` has moved by the geometric sum times
/// `(A - 1) * x + 1`.
proof fn lemma_unreduced_closed_form(x: int, n: nat)
    ensures
        unreduced(x, n) - x == geometric(n) * ((LCG_A - 1) * x + 1),
    decreases n,
{
    let w = (LCG_A - 1) * x + 1;
    if n == 0 {
        assert(geometric(0) * w == 0) by (nonlinear_arith)
            requires
                geometric(0) == 0,
        ;
    } else {
        let g = geometric((n - 1) as nat);
        let gn = geometric(n);
        lemma_unreduced_closed_form(x, (n - 1) as nat);
        let before = unreduced(x, (n - 1) as nat);
        let after = unreduced(x, n);
        let a = LCG_A as int;
        assert(gn == a * g + 1);
        assert(after == a * before + 1);
        assert(after - x == gn * w) by (nonlinear_arith)
            requires
                gn == a * g + 1,
                after == a * before + 1,
                before - x == g * w,
                w == (a - 1) * x + 1,
        ;
    }
}

/// The geometric sum of `n + k` terms splits after the first `n`.
proof fn lemma_geometric_add(n: nat, k: nat)
    ensures
        geometric(n + k) == geometric(n) + (1 + (LCG_A - 1) * geometric(n)) * geometric(k),
    decreases k,
{
    let p = 1 + (LCG_A - 1) * geometric(n);
    if k == 0 {
        assert(p * geometric(0) == 0) by (nonlinear_arith)
            requires
                geometric(0) == 0,
        ;
    } else {
        let gk = geometric((k - 1) as nat);
        let g = geometric(k);
        lemma_geometric_add(n, (k - 1) as nat);
        let a = LCG_A as int;
        let gn = geometric(n);
        let before = geometric((n + k - 1) as nat);
        let after = geometric(n + k);
        assert(g == a * gk + 1);
        assert(after == a * before + 1);
        assert(after == gn + p * g) by (nonlinear_arith)
            requires
                g == a * gk + 1,
                after == a * before + 1,
                before == gn + p * gk,
                p == 1 + (a - 1) * gn,
        ;
    }
}

/// The sum of `2 * n` terms is twice the sum of `n` terms times an odd number.
proof fn lemma_geometric_double(n: nat) -> (odd: int)
    ensures
        odd >= 1,
        odd % 2 == 1,
        geometric(2 * n) == 2 * (geometric(n) * odd),
{
    let g = geometric(n);
    let half = (LCG_A - 1) / 2;
    let odd = 1 + half * g;
    lemma_geometric_nonnegative(n);
    lemma_geometric_add(n, n);
    assert(half == 11347738);
    assert(g + (1 + (LCG_A - 1) * g) * g == 2 * (g * (1 + half * g))) by (nonlinear_arith)
        requires
            LCG_A - 1 == 2 * half,
    ;
    assert(half * g == 2 * (5673869 * g)) by (nonlinear_arith)
        requires
            half == 11347738,
    ;
    assert(half * g >= 0) by (nonlinear_arith)
        requires
            half >= 0,
            g >= 0,
    ;
    odd
}

/// A power of two that divides a product with an odd factor divides the other
/// factor.
proof fn lemma_odd_cancel(m: int, a: int, odd: int)
    requires
        is_pow2(m),
        a >= 0,
        odd >= 0,
        odd % 2 == 1,
        (a * odd) % m == 0,
    ensures
        a % m == 0,
    decreases m,
{
    lemma_pow2_positive(m);
    if m > 1 {
        lemma_pow2_half(m);
        let h = m / 2;
        lemma_pow2_positive(h);
        let q = (a * odd) / m;
        lemma_fundamental_div_mod(a * odd, m);
        assert(m * q == 2 * (h * q)) by (nonlinear_arith)
            requires
                m == 2 * h,
        ;
        assert((a * odd) % 2 == 0);
        // an odd `a` would make the product odd
        let a2 = a / 2;
        let o2 = odd / 2;
        if a % 2 == 1 {
            assert((2 * a2 + 1) * (2 * o2 + 1) == 2 * (2 * (a2 * o2) + a2 + o2) + 1)
                by (nonlinear_arith);
            assert(false);
        }
        assert(a == 2 * a2);
        assert(a * odd == 2 * (a2 * odd)) by (nonlinear_arith)
            requires
                a == 2 * a2,
        ;
        assert(a2 * odd >= 0) by (nonlinear_arith)
            requires
                a2 >= 0,
                odd >= 0,
        ;
        lemma_truncate_middle(a2 * odd, 2, h);
        lemma_odd_cancel(h, a2, odd);
        lemma_truncate_middle(a2, 2, h);
    }
}

/// A power of two divides the geometric sum of `n` terms only if it divides `n`.
proof fn lemma_geometric_divisible(m: int, n: nat)
    requires
        is_pow2(m),
        geometric(n) % m == 0,
    ensures
        n as int % m == 0,
    decreases m,
{
    lemma_pow2_positive(m);
    if m > 1 {
        lemma_pow2_half(m);
        let h = m / 2;
        lemma_pow2_positive(h);
        let g = geometric(n);
        let q = g / m;
        lemma_fundamental_div_mod(g, m);
        assert(m * q == 2 * (h * q)) by (nonlinear_arith)
            requires
                m == 2 * h,
        ;
        assert(g % 2 == 0);
        lemma_geometric_parity(n);
        let j = n / 2;
        assert(n == 2 * j);
        let odd = lemma_geometric_double(j);
        lemma_geometric_nonnegative(j);
        let gj = geometric(j);
        assert(gj * odd >= 0) by (nonlinear_arith)
            requires
                gj >= 0,
                odd >= 0,
        ;
        lemma_truncate_middle(gj * odd, 2, h);
        lemma_odd_cancel(h, gj, odd);
        lemma_geometric_divisible(h, j);
        lemma_truncate_middle(j as int, 2, h);
    }
}

/// Every value the generator reaches lies in `[0, m)`.
pub proof fn lemma_iterate_in_range(x: int, m: int, n: nat)
    requires
        m > 0,
        0 <= x < m || n > 0,
    ensures
        0 <= lcg_iterate(x, m, n) < m,
{
    if n > 0 {
        lemma_mod_bound(LCG_A as int * lcg_iterate(x, m, (n - 1) as nat) + LCG_C as int, m);
    }
}

/// `i + k` steps are `i` steps followed by `k` steps.
pub proof fn lemma_iterate_add(x: int, m: int, i: nat, k: nat)
    ensures
        lcg_iterate(x, m, i + k) == lcg_iterate(lcg_iterate(x, m, i), m, k),
    decreases k,
{
    if k > 0 {
        lemma_iterate_add(x, m, i, (k - 1) as nat);
        assert(lcg_iterate(x, m, i + k) == lcg_step(lcg_iterate(x, m, (i + k - 1) as nat), m));
    }
}

/// The generator does not come back to a value in fewer than `m` steps.
pub proof fn lemma_no_short_cycle(x: int, m: int, n: nat)
    requires
        is_pow2(m),
        0 <= x < m,
        0 < n < m,
    ensures
        lcg_iterate(x, m, n) != x,
{
    lemma_pow2_positive(m);
    if lcg_iterate(x, m, n) == x {
        let w = (LCG_A - 1) * x + 1;
        lemma_unreduced_congruent(x, m, n);
        lemma_mod_equivalence(unreduced(x, n), x, m);
        lemma_unreduced_closed_form(x, n);
        lemma_geometric_nonnegative(n);
        assert(w % 2 == 1);
        lemma_odd_cancel(m, geometric(n), w);
        lemma_geometric_divisible(m, n);
        lemma_small_mod(n, m as nat);
        assert(false);
    }
}

/// No value comes twice among `m` consecutive outputs.
pub proof fn lemma_outputs_distinct(x: int, m: int, i: nat, j: nat)
    requires
        is_pow2(m),
        0 <= x < m,
        i < j,
        j - i < m,
    ensures
        lcg_iterate(x, m, i) != lcg_iterate(x, m, j),
{
    lemma_pow2_positive(m);
    lemma_iterate_in_range(x, m, i);
    lemma_iterate_add(x, m, i, (j - i) as nat);
    lemma_no_short_cycle(lcg_iterate(x, m, i), m, (j - i) as nat);
}

/// The values that come out in the first `m` steps from `x`.
pub open spec fn first_period(x: int, m: int) -> Set<int> {
    set_int_range(0, m).map(|j: int| lcg_iterate(x, m, j as nat))
}

/// The first `m` outputs are all of `[0, m)`.
pub proof fn lemma_first_period_is_everything(x: int, m: int)
    requires
        is_pow2(m),
        0 <= x < m,
    ensures
        first_period(x, m) == set_int_range(0, m),
{
    lemma_pow2_positive(m);
    let positions = set_int_range(0, m);
    let output = |j: int| lcg_iterate(x, m, j as nat);
    lemma_int_range(0, m);
    assert(vstd::relations::injective_on(output, positions)) by {
        assert forall|i: int, j: int|
            positions.contains(i) && positions.contains(j) && #[trigger] output(i)
                == #[trigger] output(j) implies i == j by {
            if i < j {
                lemma_outputs_distinct(x, m, i as nat, j as nat);
            } else if j < i {
                lemma_outputs_distinct(x, m, j as nat, i as nat);
            }
        }
    }
    lemma_map_size(positions, first_period(x, m), output);
    assert(first_period(x, m).subset_of(positions)) by {
        assert forall|v: int| first_period(x, m).contains(v) implies positions.contains(v) by {
            let j = choose|j: int| positions.contains(j) && v == output(j);
            lemma_iterate_in_range(x, m, j as nat);
        }
    }
    lemma_subset_equality(first_period(x, m), positions);
}

/// Every value of `[0, m)` comes out within the first `m` steps.
pub proof fn lemma_value_is_reached(x: int, m: int, v: int) -> (j: nat)
    requires
        is_pow2(m),
        0 <= x < m,
        0 <= v < m,
    ensures
        j < m,
        lcg_iterate(x, m, j) == v,
{
    lemma_first_period_is_everything(x, m);
    assert(set_int_range(0, m).contains(v));
    assert(first_period(x, m).contains(v));
    let j = choose|j: int| set_int_range(0, m).contains(j) && v == lcg_iterate(x, m, j as nat);
    j as nat
}

/// After exactly `m` steps the generator is back where it started.
pub proof fn lemma_returns_after_period(x: int, m: int)
    requires
        is_pow2(m),
        0 <= x < m,
    ensures
        lcg_iterate(x, m, m as nat) == x,
{
    lemma_pow2_positive(m);
    // the value after `m` steps is one of the first `m` outputs; were it output
    // number `j > 0`, the `m` outputs that start one step after `x` would hold
    // it twice
    let back = lcg_iterate(x, m, m as nat);
    lemma_iterate_in_range(x, m, m as nat);
    let j = lemma_value_is_reached(x, m, back);
    if j > 0 {
        lemma_iterate_in_range(x, m, 1);
        lemma_iterate_add(x, m, 1, (j - 1) as nat);
        lemma_iterate_add(x, m, 1, (m - 1) as nat);
        lemma_outputs_distinct(lcg_iterate(x, m, 1), m, (j - 1) as nat, (m - 1) as nat);
        assert(false);
    }
}

} // verus!
