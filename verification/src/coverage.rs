//! What a whole run of the sequencer hands out.
//!
//! The sequential modes have a closed form: step number `k` writes the block that
//! lies `k * (1 + interval)` blocks from the end where the run began, as long as
//! that block is within the bounds.
//!
//! The exactly-once mode passes over the generator's values that are not below
//! the number of blocks in range. Within one period of the generator every value
//! below that number comes once, so a run that stops after as many offsets as
//! there are blocks has taken each of them, and none twice.

use vstd::prelude::*;
use vstd::arithmetic::power2::is_pow2;
use vstd::set_lib::{
    lemma_int_range, lemma_len_subset, lemma_map_size, lemma_subset_equality, set_int_range,
};
use crate::lcg::{lcg_iterate, lemma_rejected_is_first, rejected};
use crate::period::{
    lemma_iterate_add, lemma_iterate_in_range, lemma_outputs_distinct, lemma_value_is_reached,
};
use crate::power2::lemma_pow2_positive;
use crate::sequencer::{lemma_scale_keeps_order, IOMode, SequencerView};

verus! {

impl SequencerView {
    /// The sequencer after `k` steps in which no block is drawn.
    pub open spec fn after(self, k: nat) -> SequencerView
        decreases k,
    {
        if k == 0 {
            self
        } else {
            self.after((k - 1) as nat).next(0).0
        }
    }

    /// Whether a run in which no block is drawn hands out the offset of `block`
    /// before it ends.
    pub open spec fn writes_block(self, block: int) -> bool {
        exists|k: nat| k < self.range() && #[trigger] self.offset_at(k) == Some(block * self.block_size)
    }

    /// The offset that step number `k` hands out, counting from zero, in a run in
    /// which no block is drawn.
    pub open spec fn offset_at(self, k: nat) -> Option<int> {
        self.after(k).next(0).1
    }
}

impl SequencerView {
    /// The block that a sequential mode writes when the iteration counter is `i`.
    pub open spec fn block_at(self, i: nat) -> int {
        if self.mode == IOMode::Sequential {
            (self.start + i) as int
        } else {
            (self.end - 1) - i
        }
    }

    /// Whether a sequential mode still writes when the iteration counter is `i`:
    /// upwards while the block is not beyond `end`, downwards while it is beyond
    /// `start`.
    pub open spec fn in_run(self, i: nat) -> bool {
        if self.mode == IOMode::Sequential {
            self.start + i <= self.end
        } else {
            (self.end - 1) - i > self.start
        }
    }

    /// How many of the first `k` steps of a sequential mode hand out an offset.
    pub open spec fn handed_out(self, k: nat) -> nat
        decreases k,
    {
        if k == 0 {
            0
        } else {
            let earlier = self.handed_out((k - 1) as nat);
            if self.in_run(earlier * (1 + self.interval)) {
                earlier + 1
            } else {
                earlier
            }
        }
    }
}

proof fn lemma_multiple_grows(a: nat, b: nat, stride: nat)
    by (nonlinear_arith)
    requires
        a <= b,
    ensures
        a * stride <= b * stride,
        (a + 1) * stride == a * stride + stride,
{
}

/// The sequencer of a sequential mode after `k` steps: the counter has grown by
/// `1 + interval` for every offset handed out, and once a step hands out none,
/// none follows.
proof fn lemma_sequential_state(s: SequencerView, k: nat)
    requires
        s.wf(),
        s.mode == IOMode::Sequential || s.mode == IOMode::SequentialReverse,
        s.iteration == 0,
    ensures
        s.after(k) == (SequencerView { iteration: s.handed_out(k) * (1 + s.interval), ..s }),
        s.handed_out(k) <= k,
        s.handed_out(k) < k ==> !s.in_run(s.handed_out(k) * (1 + s.interval)),
        s.offset_at(k) == (if s.in_run(s.handed_out(k) * (1 + s.interval)) {
            Some(s.block_at(s.handed_out(k) * (1 + s.interval)) * s.block_size)
        } else {
            None
        }),
    decreases k,
{
    let stride = 1 + s.interval;
    lemma_pow2_positive(s.block_size as int);
    if k > 0 {
        lemma_sequential_state(s, (k - 1) as nat);
        let earlier = s.handed_out((k - 1) as nat);
        lemma_multiple_grows(earlier, earlier, stride);
    } else {
        assert(0 * stride == 0) by (nonlinear_arith);
    }
    let i = s.handed_out(k) * stride;
    lemma_scale_keeps_order((s.start + i) as int, s.end as int, s.block_size as int);
    lemma_scale_keeps_order((s.end - 1) - i, s.start as int, s.block_size as int);
}

/// The sequential modes in closed form. Step number `k` of a run, counting from
/// zero, has the iteration counter `k * (1 + interval)`. Upwards it hands out
/// `(start + i) * block_size` for that counter `i`, until this exceeds
/// `end * block_size`; downwards it hands out `((end - 1) - i) * block_size`,
/// until this is at most `start * block_size`. After that the run has ended.
pub proof fn lemma_sequential_offsets(s: SequencerView, k: nat)
    requires
        s.wf(),
        s.mode == IOMode::Sequential || s.mode == IOMode::SequentialReverse,
        s.iteration == 0,
    ensures
        s.offset_at(k) == (if s.in_run(k * (1 + s.interval)) {
            Some(s.block_at(k * (1 + s.interval)) * s.block_size)
        } else {
            None
        }),
{
    let stride = 1 + s.interval;
    lemma_sequential_state(s, k);
    lemma_multiple_grows(s.handed_out(k), k, stride);
}

/// How many values the generator has given up when `k` of them were taken.
spec fn consumed(x: int, m: int, r: int, k: nat) -> nat
    decreases k,
{
    if k == 0 {
        0
    } else {
        let p = consumed(x, m, r, (k - 1) as nat);
        p + rejected(lcg_iterate(x, m, p), m, r, m as nat) + 1
    }
}

/// The value taken as number `k`, counting from zero.
spec fn taken(x: int, m: int, r: int, k: nat) -> int {
    lcg_iterate(x, m, (consumed(x, m, r, k + 1) - 1) as nat)
}

/// The positions below `p` at which the generator's value is below `r`.
spec fn hits(x: int, m: int, r: int, p: int) -> Set<int> {
    Set::new(|j: int| 0 <= j < p && lcg_iterate(x, m, j as nat) < r)
}

proof fn lemma_hits_finite(x: int, m: int, r: int, p: int)
    requires
        0 <= p,
    ensures
        hits(x, m, r, p).finite(),
        hits(x, m, r, p).len() <= p,
{
    lemma_int_range(0, p);
    lemma_len_subset(hits(x, m, r, p), set_int_range(0, p));
}

/// One period holds as many positions with a value below `r` as there are such
/// values.
proof fn lemma_hits_in_period(x: int, m: int, r: int)
    requires
        is_pow2(m),
        0 <= x < m,
        0 <= r <= m,
    ensures
        hits(x, m, r, m).finite(),
        hits(x, m, r, m).len() == r,
{
    lemma_pow2_positive(m);
    lemma_hits_finite(x, m, r, m);
    let all = hits(x, m, r, m);
    let output = |j: int| lcg_iterate(x, m, j as nat);
    assert(vstd::relations::injective_on(output, all)) by {
        assert forall|i: int, j: int|
            all.contains(i) && all.contains(j) && #[trigger] output(i) == #[trigger] output(
                j,
            ) implies i == j by {
            if i < j {
                lemma_outputs_distinct(x, m, i as nat, j as nat);
            } else if j < i {
                lemma_outputs_distinct(x, m, j as nat, i as nat);
            }
        }
    }
    assert forall|v: int| all.map(output).contains(v) <==> set_int_range(0, r).contains(v) by {
        if all.map(output).contains(v) {
            let j = choose|j: int| all.contains(j) && v == output(j);
            lemma_iterate_in_range(x, m, j as nat);
        }
        if 0 <= v < r {
            let j = lemma_value_is_reached(x, m, v);
            assert(all.contains(j as int));
            assert(output(j as int) == v);
        }
    }
    assert(all.map(output) =~= set_int_range(0, r));
    lemma_map_size(all, set_int_range(0, r), output);
    lemma_int_range(0, r);
}

/// While fewer values were taken than there are blocks, the run is within the
/// first period, and it has taken every value below `r` that came so far.
proof fn lemma_run_stays_in_period(x: int, m: int, r: int, k: nat)
    requires
        is_pow2(m),
        0 <= x < m,
        0 <= r <= m,
        k <= r,
    ensures
        consumed(x, m, r, k) <= m,
        hits(x, m, r, consumed(x, m, r, k) as int).len() == k,
        k > 0 ==> consumed(x, m, r, k) > consumed(x, m, r, (k - 1) as nat),
        k > 0 ==> 0 <= taken(x, m, r, (k - 1) as nat) < r,
    decreases k,
{
    lemma_pow2_positive(m);
    if k == 0 {
        assert(hits(x, m, r, 0) =~= Set::empty());
    } else {
        let p = consumed(x, m, r, (k - 1) as nat);
        lemma_run_stays_in_period(x, m, r, (k - 1) as nat);
        lemma_hits_in_period(x, m, r);
        lemma_hits_finite(x, m, r, p as int);
        let sofar = hits(x, m, r, p as int);
        let all = hits(x, m, r, m);
        // a position in this period with a value below `r` lies ahead
        if forall|j: int| all.contains(j) ==> sofar.contains(j) {
            assert(all =~= sofar);
            assert(false);
        }
        let j = choose|j: int| all.contains(j) && !sofar.contains(j);
        let y = lcg_iterate(x, m, p);
        lemma_iterate_in_range(x, m, p);
        lemma_iterate_add(x, m, p, (j - p) as nat);
        lemma_rejected_is_first(y, m, r, m as nat, (j - p) as nat);
        let s = rejected(y, m, r, m as nat);
        lemma_iterate_add(x, m, p, s);
        lemma_iterate_in_range(x, m, p + s);
        let grown = hits(x, m, r, (p + s + 1) as int);
        assert forall|i: int| grown.contains(i) <==> sofar.insert((p + s) as int).contains(i) by {
            if p <= i < p + s {
                lemma_iterate_add(x, m, p, (i - p) as nat);
            }
        }
        assert(grown =~= sofar.insert((p + s) as int));
    }
}

/// The positions of the values taken grow.
proof fn lemma_consumed_grows(x: int, m: int, r: int, i: nat, j: nat)
    requires
        i <= j,
    ensures
        consumed(x, m, r, i) <= consumed(x, m, r, j),
    decreases j,
{
    if i < j {
        lemma_consumed_grows(x, m, r, i, (j - 1) as nat);
    }
}

/// No value is taken twice.
proof fn lemma_taken_distinct(x: int, m: int, r: int, i: nat, j: nat)
    requires
        is_pow2(m),
        0 <= x < m,
        0 <= r <= m,
        i < j < r,
    ensures
        taken(x, m, r, i) != taken(x, m, r, j),
{
    lemma_run_stays_in_period(x, m, r, i + 1);
    lemma_run_stays_in_period(x, m, r, j + 1);
    lemma_consumed_grows(x, m, r, i + 1, j);
    lemma_outputs_distinct(
        x,
        m,
        (consumed(x, m, r, i + 1) - 1) as nat,
        (consumed(x, m, r, j + 1) - 1) as nat,
    );
}

/// Every value below `r` is taken.
proof fn lemma_taken_covers(x: int, m: int, r: int, v: int) -> (k: nat)
    requires
        is_pow2(m),
        0 <= x < m,
        0 <= r <= m,
        0 <= v < r,
    ensures
        k < r,
        taken(x, m, r, k) == v,
{
    let values = Seq::new(r as nat, |k: int| taken(x, m, r, k as nat));
    assert forall|i: int, j: int| 0 <= i < values.len() && 0 <= j < values.len() && i != j
        implies values[i] != values[j] by {
        if i < j {
            lemma_taken_distinct(x, m, r, i as nat, j as nat);
        } else {
            lemma_taken_distinct(x, m, r, j as nat, i as nat);
        }
    }
    values.unique_seq_to_set();
    lemma_int_range(0, r);
    assert forall|w: int| values.to_set().contains(w) implies set_int_range(0, r).contains(w) by {
        let k = choose|k: int| 0 <= k < values.len() && values[k] == w;
        lemma_run_stays_in_period(x, m, r, (k + 1) as nat);
    }
    lemma_len_subset(values.to_set(), set_int_range(0, r));
    lemma_subset_equality(values.to_set(), set_int_range(0, r));
    assert(set_int_range(0, r).contains(v));
    assert(values.to_set().contains(v));
    let k = choose|k: int| 0 <= k < values.len() && values[k] == v;
    k as nat
}

/// The sequencer of the exactly-once mode after `k` steps, and what step `k` hands
/// out.
proof fn lemma_exactly_once_state(s: SequencerView, k: nat)
    requires
        s.wf(),
        s.mode == IOMode::Random100,
        s.accepted == 0,
    ensures
        s.after(k).wf(),
        s.after(k) == (SequencerView {
            iteration: s.after(k).iteration,
            accepted: if k <= s.range() {
                k
            } else {
                s.range() as nat
            },
            value: s.after(k).value,
            ..s
        }),
        k <= s.range() ==> s.after(k).value == lcg_iterate(
            s.value as int,
            s.modulus as int,
            consumed(s.value as int, s.modulus as int, s.range(), k),
        ),
        k < s.range() ==> s.offset_at(k) == Some(
            (s.start + taken(s.value as int, s.modulus as int, s.range(), k)) * s.block_size,
        ),
        k >= s.range() ==> s.offset_at(k) is None,
    decreases k,
{
    let x = s.value as int;
    let m = s.modulus as int;
    let r = s.range();
    lemma_pow2_positive(m);
    if k == 0 {
        assert(consumed(x, m, r, 0) == 0);
        assert(lcg_iterate(x, m, 0) == x);
    } else {
        let before = s.after((k - 1) as nat);
        lemma_exactly_once_state(s, (k - 1) as nat);
        assert(s.after(k) == before.next(0).0);
        if k <= r {
            let p = consumed(x, m, r, (k - 1) as nat);
            let skipped = rejected(before.value as int, m, r, m as nat);
            assert(consumed(x, m, r, k) == p + skipped + 1);
            lemma_iterate_add(x, m, p, skipped + 1);
            lemma_iterate_in_range(x, m, p + skipped + 1);
        }
    }
    if k < r {
        let p = consumed(x, m, r, k);
        let here = s.after(k);
        let skipped = rejected(here.value as int, m, r, m as nat);
        assert(consumed(x, m, r, k + 1) == p + skipped + 1);
        lemma_iterate_add(x, m, p, skipped);
        assert(taken(x, m, r, k) == lcg_iterate(here.value as int, m, skipped));
    }
}

proof fn lemma_scale_is_injective(a: int, b: int, c: int)
    by (nonlinear_arith)
    requires
        c > 0,
        a * c == b * c,
    ensures
        a == b,
{
}

/// Exactly once. A run of the exactly-once mode over the blocks `start..end`
/// hands out `end - start` offsets and then ends; no offset comes twice; and
/// every block of the range has its offset among them. The seed decides the
/// order and nothing else.
pub proof fn lemma_exactly_once(s: SequencerView)
    requires
        s.wf(),
        s.mode == IOMode::Random100,
        s.accepted == 0,
    ensures
        forall|k: nat| k < s.range() ==> (#[trigger] s.offset_at(k)) is Some,
        forall|k: nat| k >= s.range() ==> (#[trigger] s.offset_at(k)) is None,
        forall|i: nat, j: nat|
            i < j < s.range() ==> #[trigger] s.offset_at(i) != #[trigger] s.offset_at(j),
        forall|block: int| s.start <= block < s.end ==> #[trigger] s.writes_block(block),
{
    let x = s.value as int;
    let m = s.modulus as int;
    let r = s.range();
    lemma_pow2_positive(s.block_size as int);
    assert forall|k: nat| k < s.range() implies (#[trigger] s.offset_at(k)) is Some by {
        lemma_exactly_once_state(s, k);
    }
    assert forall|k: nat| k >= s.range() implies (#[trigger] s.offset_at(k)) is None by {
        lemma_exactly_once_state(s, k);
    }
    assert forall|i: nat, j: nat| i < j < s.range() implies #[trigger] s.offset_at(i)
        != #[trigger] s.offset_at(j) by {
        lemma_exactly_once_state(s, i);
        lemma_exactly_once_state(s, j);
        lemma_taken_distinct(x, m, r, i, j);
        if s.offset_at(i) == s.offset_at(j) {
            lemma_scale_is_injective(
                s.start + taken(x, m, r, i),
                s.start + taken(x, m, r, j),
                s.block_size as int,
            );
        }
    }
    assert forall|block: int| s.start <= block < s.end implies #[trigger] s.writes_block(block) by {
        let k = lemma_taken_covers(x, m, r, block - s.start);
        lemma_exactly_once_state(s, k);
        assert(s.start + taken(x, m, r, k) == block);
        assert(s.offset_at(k) == Some(block * s.block_size));
    }
}

} // verus!
