//! A linear congruential generator over a power-of-two modulus.
//!
//! The generator hands out its current value and then moves on by
//! `value = (A * value + C) mod modulus`. With the constants below and a modulus
//! that is a power of two it has full period: `modulus` consecutive outputs are
//! exactly the integers of `[0, modulus)`, each once.

use vstd::prelude::*;
use vstd::arithmetic::power2::is_pow2;
use vstd::set_lib::set_int_range;
use crate::error::Error;
use crate::period::{
    lemma_iterate_add, lemma_iterate_in_range, lemma_outputs_distinct,
    lemma_returns_after_period, lemma_value_is_reached,
};
use crate::power2::{
    lemma_mask_is_mod, lemma_pow2_positive, lemma_single_one_is_pow2, lemma_wrap_keeps_mod, ones,
    word_range,
};

verus! {

/// The multiplier of the generator.
pub const LCG_A: u64 = 22695477;

/// The increment of the generator.
pub const LCG_C: u64 = 1;

/// One step of the generator: the value that follows `x` under modulus `m`.
pub open spec fn lcg_step(x: int, m: int) -> int {
    (LCG_A as int * x + LCG_C as int) % m
}

/// The value of the generator `n` steps after `x`. A generator seeded with `x`
/// hands this out as its output number `n`, counting from zero.
pub open spec fn lcg_iterate(x: int, m: int, n: nat) -> int
    decreases n,
{
    if n == 0 {
        x
    } else {
        lcg_step(lcg_iterate(x, m, (n - 1) as nat), m)
    }
}

/// The first `n` outputs of a generator seeded with `x`.
pub open spec fn lcg_outputs(x: int, m: int, n: nat) -> Seq<int> {
    Seq::new(n, |j: int| lcg_iterate(x, m, j as nat))
}

/// How many values in a row, from `x` on, are not below `bound`. At most `fuel`
/// values are looked at.
pub open spec fn rejected(x: int, m: int, bound: int, fuel: nat) -> nat
    decreases fuel,
{
    if fuel == 0 || x < bound {
        0
    } else {
        1 + rejected(lcg_step(x, m), m, bound, (fuel - 1) as nat)
    }
}

/// Where one of the next `fuel` values is below `bound`, `rejected` counts the
/// values before the first such one.
pub proof fn lemma_rejected_is_first(x: int, m: int, bound: int, fuel: nat, j: nat)
    requires
        j < fuel,
        lcg_iterate(x, m, j) < bound,
    ensures
        rejected(x, m, bound, fuel) <= j,
        lcg_iterate(x, m, rejected(x, m, bound, fuel)) < bound,
        forall|i: nat| i < rejected(x, m, bound, fuel) ==> lcg_iterate(x, m, i) >= bound,
    decreases fuel,
{
    if x >= bound {
        let y = lcg_step(x, m);
        assert(lcg_iterate(x, m, 1) == y) by {
            assert(lcg_iterate(x, m, 0) == x);
        }
        lemma_iterate_add(x, m, 1, (j - 1) as nat);
        lemma_rejected_is_first(y, m, bound, (fuel - 1) as nat, (j - 1) as nat);
        let s = rejected(y, m, bound, (fuel - 1) as nat);
        lemma_iterate_add(x, m, 1, s);
        assert forall|i: nat| i < s + 1 implies lcg_iterate(x, m, i) >= bound by {
            if i > 0 {
                lemma_iterate_add(x, m, 1, (i - 1) as nat);
            }
        }
    }
}

/// `PrimInt::count_ones` of the crate `num`, which for `u64` is the number of ones in
/// the binary representation of its argument.
#[verifier::external_body]
fn count_ones(m: u64) -> (n: u32)
    ensures
        n == ones(m as nat),
{
    num::PrimInt::count_ones(m)
}

/// `One::one` of the crate `num`, which for `u64` is the number 1.
#[verifier::external_body]
fn one() -> (r: u64)
    ensures
        r == 1,
{
    num::One::one()
}

/// Whether `m` is a power of two.
pub fn is_power_of_two(m: u64) -> (b: bool)
    ensures
        b == is_pow2(m as int),
{
    proof {
        lemma_single_one_is_pow2(m as nat);
    }
    count_ones(m) == 1
}

/// `n mod m`, by a mask where `m` is a power of two and by division elsewhere.
pub fn mod_power2(n: u64, m: u64) -> (r: u64)
    requires
        m > 0,
    ensures
        r == n % m,
{
    if count_ones(m) == 1 {
        proof {
            lemma_single_one_is_pow2(m as nat);
            lemma_mask_is_mod(n, m);
        }
        n & (m - one())
    } else {
        n % m
    }
}

/// The generator: its current value, its modulus, and the two constants.
#[derive(Clone, Copy)]
pub struct LCG {
    curr: u64,
    m: u64,
    a: u64,
    c: u64,
}

impl LCG {
    #[verifier::type_invariant]
    pub closed spec fn wf(self) -> bool {
        &&& is_pow2(self.m as int)
        &&& self.curr < self.m
        &&& self.a == LCG_A
        &&& self.c == LCG_C
    }

    /// The value that the next call of `next` hands out.
    pub closed spec fn current(self) -> u64 {
        self.curr
    }

    /// The modulus that the generator was made with.
    pub closed spec fn modulus(self) -> u64 {
        self.m
    }

    /// What holds of every generator: the modulus is a power of two and the current
    /// value lies below it.
    pub proof fn lemma_wf(self)
        requires
            self.wf(),
        ensures
            is_pow2(self.modulus() as int),
            self.current() < self.modulus(),
    {
    }

    /// A generator that starts at `seed` and runs modulo `modulus`.
    pub fn new(seed: u64, modulus: u64) -> (generator: LCG)
        requires
            is_pow2(modulus as int),
            seed < modulus,
        ensures
            generator.wf(),
            generator.current() == seed,
            generator.modulus() == modulus,
    {
        LCG { curr: seed, m: modulus, a: LCG_A, c: LCG_C }
    }

    /// A generator that starts at `seed` and runs modulo `modulus`, or the error
    /// for a degenerate generator where `modulus` is not a power of two (zero is
    /// none) or `seed` does not lie below it.
    pub fn try_new(seed: u64, modulus: u64) -> (made: Result<LCG, Error>)
        ensures
            made is Ok <==> is_pow2(modulus as int) && seed < modulus,
            made matches Ok(generator) ==> generator.wf() && generator.current() == seed
                && generator.modulus() == modulus,
            made matches Err(e) ==> e == Error::DegenerateGenerator,
    {
        if is_power_of_two(modulus) && seed < modulus {
            Ok(LCG::new(seed, modulus))
        } else {
            Err(Error::DegenerateGenerator)
        }
    }

    /// Hands out the current value and moves on by one step. There is always a
    /// next value.
    pub fn next(&mut self) -> (out: Option<u64>)
        ensures
            out == Some(old(self).current()),
            final(self).wf(),
            final(self).modulus() == old(self).modulus(),
            final(self).current() < final(self).modulus(),
            final(self).current() == lcg_step(
                old(self).current() as int,
                old(self).modulus() as int,
            ),
    {
        proof {
            use_type_invariant(&*self);
            lemma_pow2_positive(self.m as int);
        }
        let this_iter = self.curr;
        let v = self.a.wrapping_mul(self.curr).wrapping_add(self.c);
        let next = mod_power2(v, self.m);
        proof {
            let exact = LCG_A as int * this_iter as int + LCG_C as int;
            assert(v as int == exact % word_range()) by {
                let product = (LCG_A as nat * this_iter as nat) % (word_range() as nat);
                assert(self.a.wrapping_mul(self.curr) == product);
                vstd::arithmetic::div_mod::lemma_add_mod_noop(
                    LCG_A as int * this_iter as int,
                    1,
                    word_range(),
                );
                assert(1int % word_range() == 1);
                if product + 1 > u64::MAX {
                    assert(v == 0);
                    assert((product + 1) % (word_range() as nat) == 0);
                } else {
                    assert(v == product + 1);
                    assert((product + 1) % (word_range() as nat) == product + 1);
                }
            }
            lemma_wrap_keeps_mod(exact, self.m);
            vstd::arithmetic::div_mod::lemma_mod_bound(exact, self.m as int);
        }
        self.curr = next;
        Some(this_iter)
    }

    /// The first of the next outputs that lies below `bound`. The outputs before
    /// it are passed over and lost. Since the generator has full period, zero
    /// comes within `modulus` outputs, so there is such an output.
    pub fn next_below(&mut self, bound: u64) -> (value: u64)
        requires
            bound > 0,
        ensures
            value < bound,
            value == lcg_iterate(
                old(self).current() as int,
                old(self).modulus() as int,
                old(self).rejections(bound),
            ),
            final(self).current() == lcg_iterate(
                old(self).current() as int,
                old(self).modulus() as int,
                old(self).rejections(bound) + 1,
            ),
            final(self).modulus() == old(self).modulus(),
            final(self).current() < final(self).modulus(),
            old(self).rejections(bound) < old(self).modulus(),
    {
        let ghost seed = self.curr as int;
        let ghost m = self.m as int;
        let ghost skipped = self.rejections(bound);
        proof {
            use_type_invariant(&*self);
            let j = lemma_value_is_reached(seed, m, 0);
            lemma_rejected_is_first(seed, m, bound as int, m as nat, j);
        }
        let first = self.next();
        let mut value = first.unwrap();
        let ghost mut k: nat = 0;
        while value >= bound
            invariant
                k <= skipped,
                skipped < m,
                value == lcg_iterate(seed, m, k),
                self.current() == lcg_iterate(seed, m, k + 1),
                self.modulus() == m,
                self.current() < self.modulus(),
                lcg_iterate(seed, m, skipped) < bound,
                forall|i: nat| i < skipped ==> lcg_iterate(seed, m, i) >= bound,
            decreases skipped - k,
        {
            let out = self.next();
            value = out.unwrap();
            proof {
                k = k + 1;
            }
        }
        value
    }

    /// How many outputs `next_below` passes over before the one it hands out.
    pub open spec fn rejections(self, bound: u64) -> nat {
        rejected(
            self.current() as int,
            self.modulus() as int,
            bound as int,
            self.modulus() as nat,
        )
    }

    /// The next `n` outputs, in the order in which `next` would hand them out.
    pub fn take(&mut self, n: usize) -> (outputs: Vec<u64>)
        ensures
            outputs@.map_values(|v: u64| v as int) == lcg_outputs(
                old(self).current() as int,
                old(self).modulus() as int,
                n as nat,
            ),
            final(self).wf(),
            final(self).modulus() == old(self).modulus(),
            final(self).current() == lcg_iterate(
                old(self).current() as int,
                old(self).modulus() as int,
                n as nat,
            ),
    {
        let ghost seed = self.curr as int;
        let ghost m = self.m as int;
        let mut outputs: Vec<u64> = Vec::new();
        let mut i: usize = 0;
        proof {
            use_type_invariant(&*self);
        }
        while i < n
            invariant
                i <= n,
                self.wf(),
                self.modulus() == m,
                self.current() == lcg_iterate(seed, m, i as nat),
                outputs@.len() == i,
                forall|j: int| 0 <= j < i ==> outputs@[j] == lcg_iterate(seed, m, j as nat),
            decreases n - i,
        {
            let out = self.next();
            outputs.push(out.unwrap());
            i = i + 1;
        }
        assert(outputs@.map_values(|v: u64| v as int) =~= lcg_outputs(seed, m, n as nat));
        outputs
    }
}

/// Full period. For a modulus `m` that is a power of two and a seed below it,
/// `m` consecutive outputs of the generator are the integers of `[0, m)`: every
/// output lies in that range, no value comes twice, every value of the range
/// comes, and after `m` steps the generator is back at the seed.
pub proof fn lemma_full_period(seed: int, m: int)
    requires
        is_pow2(m),
        0 <= seed < m,
    ensures
        lcg_outputs(seed, m, m as nat).len() == m,
        lcg_outputs(seed, m, m as nat).no_duplicates(),
        lcg_outputs(seed, m, m as nat).to_set() == set_int_range(0, m),
        lcg_iterate(seed, m, m as nat) == seed,
{
    lemma_pow2_positive(m);
    let outputs = lcg_outputs(seed, m, m as nat);
    assert forall|i: int, j: int| 0 <= i < outputs.len() && 0 <= j < outputs.len() && i != j
        implies outputs[i] != outputs[j] by {
        if i < j {
            lemma_outputs_distinct(seed, m, i as nat, j as nat);
        } else {
            lemma_outputs_distinct(seed, m, j as nat, i as nat);
        }
    }
    assert forall|v: int| outputs.to_set().contains(v) <==> set_int_range(0, m).contains(v) by {
        if outputs.contains(v) {
            let j = choose|j: int| 0 <= j < outputs.len() && outputs[j] == v;
            lemma_iterate_in_range(seed, m, j as nat);
        }
        if 0 <= v < m {
            let j = lemma_value_is_reached(seed, m, v);
            assert(outputs[j as int] == v);
        }
    }
    assert(outputs.to_set() =~= set_int_range(0, m));
    lemma_returns_after_period(seed, m);
}

} // verus!
