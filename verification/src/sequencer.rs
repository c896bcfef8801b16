//! The block address sequencer: which byte offset a run writes to next.
//!
//! A sequencer covers the blocks `start..end` of a target, in one of four modes.
//! With `i` the iteration counter, which starts at zero and grows by
//! `1 + interval` at every offset handed out:
//!
//! | mode | offset | the run ends |
//! |---|---|---|
//! | `Sequential` | `(start + i) * block_size` | when the offset exceeds `end * block_size` |
//! | `SequentialReverse` | `((end - 1) - i) * block_size` | when the offset is at most `start * block_size` |
//! | `Random` | a block drawn from `start..end`, times `block_size` | never |
//! | `Random100` | `(start + v) * block_size`, `v` the generator's next value below `end - start` | after `end - start` offsets |
//!
//! The offsets are those of the integers: where `i` has outgrown the machine word
//! the sequential modes have ended, whatever the word would hold.

use vstd::prelude::*;
use vstd::arithmetic::power2::is_pow2;
use crate::error::Error;
use crate::fill::gen_range;
use crate::lcg::{is_power_of_two, lcg_iterate, rejected, LCG};
use crate::power2::{lemma_pow2_double, lemma_pow2_half, lemma_pow2_positive, word_range};

verus! {

/// The order in which a run visits the blocks.
#[derive(Debug, Clone, Copy, PartialEq, Eq, Structural)]
pub enum IOMode {
    /// From the first block upwards.
    Sequential,
    /// From the last block downwards.
    SequentialReverse,
    /// Blocks drawn at random, each draw on its own.
    Random,
    /// Every block once, in a pseudo-random order.
    Random100,
}

/// The smallest power of two that is not below `n`.
pub open spec fn pow2_at_least(n: nat) -> nat
    decreases n,
{
    if n <= 1 {
        1
    } else {
        2 * pow2_at_least(n / 2 + n % 2)
    }
}

/// `pow2_at_least(n)` is a power of two and not below `n`.
pub proof fn lemma_pow2_at_least(n: nat)
    ensures
        is_pow2(pow2_at_least(n) as int),
        pow2_at_least(n) >= n,
        pow2_at_least(n) >= 1,
    decreases n,
{
    if n <= 1 {
        reveal(is_pow2);
    } else {
        let h = n / 2 + n % 2;
        lemma_pow2_at_least(h);
        lemma_pow2_double(pow2_at_least(h) as int);
    }
}

/// No power of two that is not below `n` is smaller than `pow2_at_least(n)`.
pub proof fn lemma_pow2_at_least_is_smallest(n: nat, q: int)
    requires
        is_pow2(q),
        q >= n,
    ensures
        pow2_at_least(n) <= q,
    decreases n,
{
    lemma_pow2_positive(q);
    if n > 1 {
        lemma_pow2_half(q);
        lemma_pow2_at_least_is_smallest(n / 2 + n % 2, q / 2);
    }
}

/// The smallest power of two that is not below `n`, or nothing where it does not
/// fit the machine word.
pub fn smallest_power_of_two(n: u64) -> (p: Option<u64>)
    ensures
        p == (if pow2_at_least(n as nat) <= u64::MAX {
            Some(pow2_at_least(n as nat) as u64)
        } else {
            None::<u64>
        }),
    decreases n,
{
    if n <= 1 {
        Some(1)
    } else {
        match smallest_power_of_two(n / 2 + n % 2) {
            Some(half) => half.checked_mul(2),
            None => None,
        }
    }
}

/// The iteration counter of a run. It is kept as the low 64 bits and a mark that
/// says whether it has outgrown them.
#[derive(Clone, Copy)]
pub struct IterationCounter {
    low: u64,
    wrapped: bool,
    count: Ghost<nat>,
}

impl IterationCounter {
    #[verifier::type_invariant]
    pub closed spec fn wf(self) -> bool {
        &&& self.low == self.count@ % (word_range() as nat)
        &&& self.wrapped == (self.count@ >= word_range())
    }

    /// The counter.
    pub closed spec fn value(self) -> nat {
        self.count@
    }

    /// A counter at zero.
    pub fn new() -> (counter: IterationCounter)
        ensures
            counter.value() == 0,
    {
        proof {
            vstd::arithmetic::div_mod::lemma_small_mod(0, word_range() as nat);
        }
        IterationCounter { low: 0, wrapped: false, count: Ghost(0) }
    }

    /// Moves the counter on by `1 + interval`.
    pub fn advance(&mut self, interval: u64)
        ensures
            final(self).value() == old(self).value() + 1 + interval,
    {
        proof {
            use_type_invariant(&*self);
        }
        let ghost before = self.count@;
        let ghost after: nat = before + 1 + interval as nat;
        let ghost q: int = before as int / word_range();
        proof {
            vstd::arithmetic::div_mod::lemma_fundamental_div_mod(before as int, word_range());
        }
        let low = self.low.wrapping_add(interval).wrapping_add(1);
        let carry = match self.low.checked_add(interval) {
            Some(sum) => sum == u64::MAX,
            None => true,
        };
        proof {
            let total = self.low + interval + 1;
            if total < word_range() {
                vstd::arithmetic::div_mod::lemma_fundamental_div_mod_converse(
                    after as int,
                    word_range(),
                    q,
                    total,
                );
            } else if total < 2 * word_range() {
                vstd::arithmetic::div_mod::lemma_fundamental_div_mod_converse(
                    after as int,
                    word_range(),
                    q + 1,
                    total - word_range(),
                );
            }
            assert(low == after % (word_range() as nat));
            assert(carry == (total >= word_range()));
            assert((self.wrapped || carry) == (after >= word_range()));
        }
        *self = IterationCounter { low, wrapped: self.wrapped || carry, count: Ghost(after) };
    }

    /// The counter, where it fits the machine word.
    pub fn exact(&self) -> (i: Option<u64>)
        ensures
            i == (if self.value() <= u64::MAX {
                Some(self.value() as u64)
            } else {
                None::<u64>
            }),
    {
        proof {
            use_type_invariant(self);
            if !self.wrapped {
                vstd::arithmetic::div_mod::lemma_small_mod(self.count@, word_range() as nat);
            }
        }
        if self.wrapped {
            None
        } else {
            Some(self.low)
        }
    }

    /// The low 64 bits of the counter.
    pub fn low_bits(&self) -> (i: u64)
        ensures
            i == self.value() % (word_range() as nat),
    {
        proof {
            use_type_invariant(self);
        }
        self.low
    }
}

/// What a sequencer is, as numbers: its mode and bounds, the iteration counter,
/// how many offsets the exactly-once mode has handed out, and the current value
/// and the modulus of its generator.
pub struct SequencerView {
    pub mode: IOMode,
    pub start: nat,
    pub end: nat,
    pub block_size: nat,
    pub interval: nat,
    pub iteration: nat,
    pub accepted: nat,
    pub value: nat,
    pub modulus: nat,
}

impl SequencerView {
    /// The number of blocks in range.
    pub open spec fn range(self) -> int {
        self.end - self.start
    }

    /// What holds of every sequencer.
    pub open spec fn wf(self) -> bool {
        &&& is_pow2(self.block_size as int)
        &&& self.start <= self.end
        &&& self.end * self.block_size <= u64::MAX
        &&& self.interval <= u64::MAX
        &&& self.mode == IOMode::Random ==> self.start < self.end
        &&& is_pow2(self.modulus as int)
        &&& self.value < self.modulus
        &&& self.mode == IOMode::Random100 ==> self.range() <= self.modulus && self.accepted
            <= self.range()
    }

    /// The sequencer at the start of a run. In the exactly-once mode the generator
    /// starts at the seed block, counted from `start`.
    pub open spec fn fresh(
        mode: IOMode,
        start: u64,
        end: u64,
        block_size: u64,
        interval: u64,
        seed: u64,
    ) -> SequencerView {
        SequencerView {
            mode,
            start: start as nat,
            end: end as nat,
            block_size: block_size as nat,
            interval: interval as nat,
            iteration: 0,
            accepted: 0,
            value: if mode == IOMode::Random100 && start < end {
                (seed - start) as nat
            } else {
                0
            },
            modulus: if mode == IOMode::Random100 {
                pow2_at_least((end - start) as nat)
            } else {
                1
            },
        }
    }

    /// The same sequencer one iteration later.
    pub open spec fn advanced(self) -> SequencerView {
        SequencerView { iteration: self.iteration + 1 + self.interval, ..self }
    }

    /// One step: the sequencer afterwards and the offset, if the run has not ended.
    /// `draw` is the block that the random mode draws; the other modes do not look
    /// at it. A sequencer whose run has ended stays as it is.
    pub open spec fn next(self, draw: int) -> (SequencerView, Option<int>) {
        match self.mode {
            IOMode::Sequential => {
                let offset = (self.start + self.iteration) * self.block_size as int;
                if offset > self.end * self.block_size {
                    (self, None)
                } else {
                    (self.advanced(), Some(offset))
                }
            },
            IOMode::SequentialReverse => {
                let offset = ((self.end - 1) - self.iteration) * self.block_size;
                if offset <= self.start * self.block_size {
                    (self, None)
                } else {
                    (self.advanced(), Some(offset))
                }
            },
            IOMode::Random => (self.advanced(), Some(draw * self.block_size)),
            IOMode::Random100 => {
                if self.accepted >= self.range() {
                    (self, None)
                } else {
                    let skipped = rejected(
                        self.value as int,
                        self.modulus as int,
                        self.range(),
                        self.modulus,
                    );
                    let value = lcg_iterate(self.value as int, self.modulus as int, skipped);
                    let state = lcg_iterate(self.value as int, self.modulus as int, skipped + 1);
                    (
                        SequencerView {
                            accepted: self.accepted + 1,
                            value: state as nat,
                            ..self.advanced()
                        },
                        Some((self.start + value) * self.block_size),
                    )
                }
            },
        }
    }

    /// Whether `draw` is a block that the random mode may draw.
    pub open spec fn may_draw(self, draw: int) -> bool {
        self.mode == IOMode::Random ==> self.start <= draw < self.end
    }
}

/// An offset as an integer.
pub open spec fn offset_value(offset: Option<u64>) -> Option<int> {
    match offset {
        Some(o) => Some(o as int),
        None => None,
    }
}

/// The bounds that a sequencer can be made from: the block size is a power of
/// two, the range is not reversed and ends within the machine word, the random
/// mode has a block to draw, and the seed of the exactly-once mode is a block of
/// the range.
pub open spec fn valid_bounds(mode: IOMode, start: u64, end: u64, block_size: u64, seed: u64) -> bool {
    &&& is_pow2(block_size as int)
    &&& start <= end
    &&& end * block_size <= u64::MAX
    &&& mode == IOMode::Random ==> start < end
    &&& mode == IOMode::Random100 && start < end ==> start <= seed < end
}

/// Whether the modulus that the exactly-once mode needs fits the machine word.
pub open spec fn generator_fits(mode: IOMode, start: u64, end: u64) -> bool {
    mode == IOMode::Random100 ==> pow2_at_least((end - start) as nat) <= u64::MAX
}

/// The block address sequencer.
pub struct Sequencer {
    mode: IOMode,
    start: u64,
    end: u64,
    block_size: u64,
    interval: u64,
    counter: IterationCounter,
    accepted: u64,
    generator: LCG,
}

impl View for Sequencer {
    type V = SequencerView;

    closed spec fn view(&self) -> SequencerView {
        SequencerView {
            mode: self.mode,
            start: self.start as nat,
            end: self.end as nat,
            block_size: self.block_size as nat,
            interval: self.interval as nat,
            iteration: self.counter.value(),
            accepted: self.accepted as nat,
            value: self.generator.current() as nat,
            modulus: self.generator.modulus() as nat,
        }
    }
}

/// Blocks compare as their offsets do.
pub proof fn lemma_scale_keeps_order(a: int, b: int, c: int)
    by (nonlinear_arith)
    requires
        c > 0,
    ensures
        a * c > b * c <==> a > b,
        a * c <= b * c <==> a <= b,
{
}

impl Sequencer {
    #[verifier::type_invariant]
    pub closed spec fn wf(self) -> bool {
        self@.wf()
    }

    /// What holds of every sequencer.
    pub proof fn lemma_wf(self)
        requires
            self.wf(),
        ensures
            self@.wf(),
    {
    }

    /// A sequencer at the start of a run over the blocks `start..end`. `seed` is
    /// the block that the exactly-once mode writes first; the other modes do
    /// not look at it. Bounds that no run can be made from are a configuration
    /// error; a range whose generator does not fit the machine word is a
    /// degenerate generator.
    pub fn new(
        mode: IOMode,
        start: u64,
        end: u64,
        block_size: u64,
        interval: u64,
        seed: u64,
    ) -> (made: Result<Sequencer, Error>)
        ensures
            made is Ok <==> valid_bounds(mode, start, end, block_size, seed) && generator_fits(
                mode,
                start,
                end,
            ),
            made matches Ok(sequencer) ==> sequencer@.wf() && sequencer@ == SequencerView::fresh(
                mode,
                start,
                end,
                block_size,
                interval,
                seed,
            ),
            made matches Err(e) ==> e == (if valid_bounds(mode, start, end, block_size, seed) {
                Error::DegenerateGenerator
            } else {
                Error::Configuration
            }),
    {
        if !is_power_of_two(block_size) || start > end || end.checked_mul(block_size).is_none() {
            return Err(Error::Configuration);
        }
        let mut first: u64 = 0;
        let mut modulus: u64 = 1;
        match mode {
            IOMode::Random => {
                if start == end {
                    return Err(Error::Configuration);
                }
            },
            IOMode::Random100 => {
                if start < end {
                    if seed < start || seed >= end {
                        return Err(Error::Configuration);
                    }
                    first = seed - start;
                }
                match smallest_power_of_two(end - start) {
                    Some(p) => {
                        modulus = p;
                    },
                    None => {
                        return Err(Error::DegenerateGenerator);
                    },
                }
            },
            _ => {},
        }
        proof {
            lemma_pow2_at_least((end - start) as nat);
            lemma_pow2_at_least(0);
            assert(pow2_at_least(0) == 1);
        }
        let generator = LCG::new(first, modulus);
        let sequencer = Sequencer {
            mode,
            start,
            end,
            block_size,
            interval,
            counter: IterationCounter::new(),
            accepted: 0,
            generator,
        };
        Ok(sequencer)
    }

    /// A sequencer at the start of a run over the blocks `start..end`, with the
    /// first block of the exactly-once mode drawn at random from the range.
    pub fn with_random_seed(
        mode: IOMode,
        start: u64,
        end: u64,
        block_size: u64,
        interval: u64,
    ) -> (made: Result<Sequencer, Error>)
        ensures
            made is Ok <==> valid_bounds(mode, start, end, block_size, start) && generator_fits(
                mode,
                start,
                end,
            ),
            made matches Ok(sequencer) ==> sequencer@.wf() && exists|seed: u64|
                valid_bounds(mode, start, end, block_size, seed) && sequencer@
                    == #[trigger] SequencerView::fresh(mode, start, end, block_size, interval, seed),
            made matches Err(e) ==> e == (if valid_bounds(mode, start, end, block_size, start) {
                Error::DegenerateGenerator
            } else {
                Error::Configuration
            }),
    {
        let seed = match mode {
            IOMode::Random100 => if start < end {
                gen_range(start, end)
            } else {
                start
            },
            _ => start,
        };
        Sequencer::new(mode, start, end, block_size, interval, seed)
    }

    /// The access mode.
    pub fn mode(&self) -> (mode: IOMode)
        ensures
            mode == self@.mode,
    {
        self.mode
    }

    /// The first block of the range.
    pub fn start(&self) -> (block: u64)
        ensures
            block == self@.start,
    {
        self.start
    }

    /// The end block of the range.
    pub fn end(&self) -> (block: u64)
        ensures
            block == self@.end,
    {
        self.end
    }

    /// The size of a block in bytes.
    pub fn block_size(&self) -> (size: u64)
        ensures
            size == self@.block_size,
    {
        self.block_size
    }

    /// The number of blocks that are skipped between two writes.
    pub fn interval(&self) -> (blocks: u64)
        ensures
            blocks == self@.interval,
    {
        self.interval
    }

    /// Moves the iteration counter on by `1 + interval`.
    fn advance(&mut self)
        ensures
            final(self)@ == old(self)@.advanced(),
    {
        proof {
            use_type_invariant(&*self);
        }
        let mut counter = self.counter;
        counter.advance(self.interval);
        self.counter = counter;
    }

    /// The low 64 bits of the iteration counter.
    pub fn iteration(&self) -> (i: u64)
        ensures
            i == self@.iteration % (word_range() as nat),
    {
        self.counter.low_bits()
    }

    /// The next offset of the run, or nothing where the run has ended. `draw` is
    /// the block that the random mode writes to.
    pub fn next_offset_with(&mut self, draw: u64) -> (offset: Option<u64>)
        requires
            old(self)@.may_draw(draw as int),
        ensures
            (final(self)@, offset_value(offset)) == old(self)@.next(draw as int),
    {
        proof {
            use_type_invariant(&*self);
            lemma_pow2_positive(self.block_size as int);
        }
        let ghost before = self@;
        let ghost size = self.block_size as int;
        match self.mode {
            IOMode::Sequential => {
                let block = match self.counter.exact() {
                    Some(i) => self.start.checked_add(i),
                    None => None,
                };
                proof {
                    lemma_scale_keeps_order(
                        (before.start + before.iteration) as int,
                        before.end as int,
                        size,
                    );
                }
                match block {
                    Some(b) => {
                        if b > self.end {
                            None
                        } else {
                            self.advance();
                            Some(b * self.block_size)
                        }
                    },
                    None => None,
                }
            },
            IOMode::SequentialReverse => {
                let block = match self.counter.exact() {
                    Some(i) => if self.end >= 1 && i <= self.end - 1 {
                        Some((self.end - 1) - i)
                    } else {
                        None
                    },
                    None => None,
                };
                proof {
                    lemma_scale_keeps_order(
                        (before.end - 1) - before.iteration,
                        before.start as int,
                        size,
                    );
                    lemma_scale_keeps_order(
                        (before.end - 1) - before.iteration,
                        before.end as int,
                        size,
                    );
                }
                match block {
                    Some(b) => {
                        if b <= self.start {
                            None
                        } else {
                            self.advance();
                            Some(b * self.block_size)
                        }
                    },
                    None => None,
                }
            },
            IOMode::Random => {
                proof {
                    lemma_scale_keeps_order(draw as int, before.end as int, size);
                }
                self.advance();
                Some(draw * self.block_size)
            },
            IOMode::Random100 => {
                let range = self.end - self.start;
                if self.accepted >= range {
                    None
                } else {
                    let mut generator = self.generator;
                    let value = generator.next_below(range);
                    self.generator = generator;
                    self.accepted = self.accepted + 1;
                    self.advance();
                    proof {
                        lemma_scale_keeps_order(before.start + value, before.end as int, size);
                    }
                    Some((self.start + value) * self.block_size)
                }
            },
        }
    }

    /// The next offset of the run, or nothing where the run has ended. In the
    /// random mode the block is drawn here, so two sequencers in the same state
    /// may part ways; in the other modes the offset is the one that the state
    /// fixes.
    pub fn next_offset(&mut self) -> (offset: Option<u64>)
        ensures
            exists|draw: int| #[trigger]
                old(self)@.may_draw(draw) && (final(self)@, offset_value(offset)) == old(
                    self,
                )@.next(draw),
            old(self)@.mode != IOMode::Random ==> (final(self)@, offset_value(offset)) == old(
                self,
            )@.next(0),
    {
        let draw = self.draw();
        self.next_offset_with(draw)
    }

    /// A block for the next step: in the random mode one drawn from `start..end`,
    /// in the other modes, which do not look at it, zero.
    pub fn draw(&self) -> (draw: u64)
        ensures
            self@.may_draw(draw as int),
            self@.mode != IOMode::Random ==> draw == 0,
    {
        proof {
            use_type_invariant(self);
        }
        match self.mode {
            IOMode::Random => gen_range(self.start, self.end),
            _ => 0,
        }
    }
}

} // verus!
