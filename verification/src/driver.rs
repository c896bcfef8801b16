//! The write driver: what a run does next.
//!
//! A run writes one buffer to the same offset of every target, in the order of
//! the targets, then changes the buffer, then moves on to the next offset, until
//! the sequencer has none left. The driver decides; whoever holds the targets
//! acts. It is told how the last write went and answers with the next thing to
//! do:
//!
//! * before the first write, and after the last target of an iteration was
//!   written, it takes the next offset from the sequencer and asks for a write of
//!   the first target there, or ends the run where the sequencer has ended;
//! * after a write of any other target it asks for a write of the next target at
//!   the same offset;
//! * after a failed write or seek it gives up: there is no retry and no skipping.
//!
//! A run is not planned at all where the targets differ in length.

use vstd::prelude::*;
use crate::error::Error;
use crate::fill::{gen_range, initial_buffer, DataType};
use crate::options::ThermiteOptions;
use crate::power2::{lemma_pow2_positive, lemma_wrap_keeps_mod, word_range};
use crate::scramble::{page_len, scramble_input, scrambled, xor_scramble};
use crate::sequencer::{generator_fits, valid_bounds, IOMode, Sequencer, SequencerView};
use crate::watchdog::{refreshed, LastWriteTimestamps, Record, Timestamp};

verus! {

/// What the driver is told.
#[derive(Debug, Clone, Copy, PartialEq, Eq, Structural)]
pub enum Event {
    /// Nothing has happened yet, or the last answer is asked for again.
    Start,
    /// The write that was asked for has been made.
    Written,
    /// The seek or the write that was asked for has failed.
    Failed,
}

/// What the driver asks for.
#[derive(Debug, Clone, Copy, PartialEq, Eq, Structural)]
pub enum Action {
    /// Write the buffer to target number `target` at byte `offset`.
    Write { target: usize, offset: u64 },
    /// The run is over.
    Finish,
    /// The run is given up.
    Abort(Error),
}

/// Where a run stands.
#[derive(Debug, Clone, Copy, PartialEq, Eq, Structural)]
pub enum Phase {
    /// Between two iterations.
    Ready,
    /// A write of target number `target` at `offset` has been asked for, in the
    /// iteration whose counter is `index` in its low 64 bits.
    Writing { offset: u64, target: usize, index: u64 },
    /// The sequencer has ended.
    Finished,
    /// A write has failed.
    Failed,
}

/// The driver as plain values.
pub struct WriteDriverView {
    pub sequencer: SequencerView,
    pub buffer: Seq<u8>,
    pub pagesize: u64,
    pub targets: nat,
    pub names: Seq<String>,
    pub phase: Phase,
}

impl WriteDriverView {
    /// What holds of every driver: the buffer has the size of a block and can be
    /// mutated with the page size, there is a target, and the target that is
    /// being written is one of them.
    pub open spec fn wf(self) -> bool {
        &&& self.sequencer.wf()
        &&& self.buffer.len() == self.sequencer.block_size
        &&& scramble_input(self.buffer.len(), self.pagesize)
        &&& 0 < self.targets <= usize::MAX
        &&& self.names.len() == self.targets
        &&& self.phase matches Phase::Writing { target, .. } ==> target < self.targets
    }

    /// The records after the write that was asked for has been made at `now`:
    /// the target that was written takes the new time. Where no write was asked
    /// for, the records stay as they are.
    pub open spec fn recorded(self, records: Seq<Record>, now: Timestamp) -> Seq<Record> {
        match self.phase {
            Phase::Writing { target, .. } => refreshed(records, self.names[target as int]@, now),
            _ => records,
        }
    }

    /// The start of an iteration: the next offset is taken from the sequencer.
    pub open spec fn begin(self, draw: int) -> (WriteDriverView, Action) {
        let (sequencer, offset) = self.sequencer.next(draw);
        match offset {
            Some(o) => (
                WriteDriverView {
                    sequencer,
                    phase: Phase::Writing {
                        offset: o as u64,
                        target: 0,
                        index: (self.sequencer.iteration % (word_range() as nat)) as u64,
                    },
                    ..self
                },
                Action::Write { target: 0, offset: o as u64 },
            ),
            None => (WriteDriverView { sequencer, phase: Phase::Finished, ..self }, Action::Finish),
        }
    }

    /// One decision: the driver afterwards and what it asks for. `draw` is the
    /// block that the random mode draws where a new offset is taken.
    pub open spec fn step(self, event: Event, draw: int) -> (WriteDriverView, Action) {
        match self.phase {
            Phase::Ready => self.begin(draw),
            Phase::Writing { offset, target, index } => match event {
                Event::Start => (self, Action::Write { target, offset }),
                Event::Failed => (
                    WriteDriverView { phase: Phase::Failed, ..self },
                    Action::Abort(Error::Io),
                ),
                Event::Written => if target + 1 < self.targets {
                    (
                        WriteDriverView {
                            phase: Phase::Writing {
                                offset,
                                target: (target + 1) as usize,
                                index,
                            },
                            ..self
                        },
                        Action::Write { target: (target + 1) as usize, offset },
                    )
                } else {
                    (WriteDriverView {
                        buffer: scrambled(self.buffer, self.pagesize, index as nat),
                        phase: Phase::Ready,
                        ..self
                    }).begin(draw)
                },
            },
            Phase::Finished => (self, Action::Finish),
            Phase::Failed => (self, Action::Abort(Error::Io)),
        }
    }
}

/// Whether two of the targets differ in length.
pub open spec fn lengths_differ(lengths: Seq<u64>) -> bool {
    exists|i: int, j: int|
        0 <= i < lengths.len() && 0 <= j < lengths.len() && lengths[i] != lengths[j]
}

/// The first block of a run.
pub open spec fn effective_start(options: ThermiteOptions) -> u64 {
    options.startblock
}

/// The end block of a run: the one that was set, and where none was set the
/// number of whole blocks in a target.
pub open spec fn effective_end(options: ThermiteOptions, length: u64) -> u64 {
    if options.endblock != 0 {
        options.endblock
    } else {
        length / options.blocksize
    }
}

/// Why no bounds can be had for a run, if there is a reason: targets that differ
/// in length are a mismatch; a configuration that breaks a rule, and lengths that
/// are not one for each target, are a configuration error.
pub open spec fn bounds_failure(options: ThermiteOptions, lengths: Seq<u64>) -> Option<Error> {
    if lengths_differ(lengths) {
        Some(Error::TargetMismatch)
    } else if lengths.len() == 0 || lengths.len() != options.target@.len() || !options.valid() {
        Some(Error::Configuration)
    } else {
        None
    }
}

/// Checks that the targets have one length and that the configuration is valid,
/// and gives the first block and the end block of the run.
pub fn run_bounds(options: &ThermiteOptions, lengths: &Vec<u64>) -> (bounds: Result<(u64, u64), Error>)
    ensures
        bounds == (match bounds_failure(*options, lengths@) {
            Some(e) => Err(e),
            None => Ok::<(u64, u64), Error>(
                (effective_start(*options), effective_end(*options, lengths@[0])),
            ),
        }),
{
    let mut i: usize = 1;
    while i < lengths.len()
        invariant
            1 <= i,
            forall|j: int|
                0 <= j < i && j < lengths@.len() ==> #[trigger] lengths@[j] == lengths@[0],
        decreases lengths@.len() - i,
    {
        if lengths[i] != lengths[0] {
            assert(lengths_differ(lengths@));
            return Err(Error::TargetMismatch);
        }
        i = i + 1;
    }
    assert(!lengths_differ(lengths@));
    if lengths.len() == 0 || lengths.len() != options.target.len() {
        return Err(Error::Configuration);
    }
    proof {
        options.lemma_valid_is_flawless();
    }
    match options.check() {
        Err(_) => Err(Error::Configuration),
        Ok(()) => {
            proof {
                lemma_pow2_positive(options.blocksize as int);
            }
            let end = if options.endblock != 0 {
                options.endblock
            } else {
                lengths[0] / options.blocksize
            };
            Ok((options.startblock, end))
        },
    }
}

/// Why no run can be planned, if there is a reason: what `bounds_failure` says;
/// a buffer that is not one block long; and what the sequencer turns down.
pub open spec fn plan_failure(
    options: ThermiteOptions,
    lengths: Seq<u64>,
    seed: u64,
    buffer: Seq<u8>,
) -> Option<Error> {
    let start = effective_start(options);
    let end = effective_end(options, lengths[0]);
    if bounds_failure(options, lengths) is Some {
        bounds_failure(options, lengths)
    } else if buffer.len() != options.blocksize {
        Some(Error::Configuration)
    } else if !valid_bounds(options.mode, start, end, options.blocksize, seed) {
        Some(Error::Configuration)
    } else if !generator_fits(options.mode, start, end) {
        Some(Error::DegenerateGenerator)
    } else {
        None
    }
}

/// Why `WriteDriver::new` makes no driver, if there is a reason: what
/// `bounds_failure` says; a block that is too large for a buffer on this machine;
/// and what the sequencer turns down, whichever block of the range is drawn as
/// the seed. Where there is no reason, a driver is made.
pub open spec fn new_failure(options: ThermiteOptions, lengths: Seq<u64>) -> Option<Error> {
    let start = effective_start(options);
    let end = effective_end(options, lengths[0]);
    if bounds_failure(options, lengths) is Some {
        bounds_failure(options, lengths)
    } else if options.blocksize > usize::MAX {
        Some(Error::Configuration)
    } else if !valid_bounds(options.mode, start, end, options.blocksize, start) {
        Some(Error::Configuration)
    } else if !generator_fits(options.mode, start, end) {
        Some(Error::DegenerateGenerator)
    } else {
        None
    }
}

/// Whether `buffer` is one block of the kind of data asked for: zero bytes
/// throughout, or no zero byte at all.
pub open spec fn filled_as(buffer: Seq<u8>, data: DataType, blocksize: u64) -> bool {
    &&& buffer.len() == blocksize
    &&& data == DataType::Zero ==> buffer == Seq::new(blocksize as nat, |i: int| 0u8)
    &&& data == DataType::Random ==> forall|i: int| 0 <= i < buffer.len() ==> buffer[i] != 0
}

/// The driver at the start of a run.
pub open spec fn planned(
    options: ThermiteOptions,
    lengths: Seq<u64>,
    seed: u64,
    buffer: Seq<u8>,
) -> WriteDriverView {
    WriteDriverView {
        sequencer: SequencerView::fresh(
            options.mode,
            effective_start(options),
            effective_end(options, lengths[0]),
            options.blocksize,
            options.interval,
            seed,
        ),
        buffer,
        pagesize: options.pagesize,
        targets: options.target@.len(),
        names: options.target@,
        phase: Phase::Ready,
    }
}

/// The write driver.
pub struct WriteDriver {
    sequencer: Sequencer,
    buffer: Vec<u8>,
    pagesize: u64,
    targets: usize,
    names: Vec<String>,
    phase: Phase,
}

impl View for WriteDriver {
    type V = WriteDriverView;

    closed spec fn view(&self) -> WriteDriverView {
        WriteDriverView {
            sequencer: self.sequencer@,
            buffer: self.buffer@,
            pagesize: self.pagesize,
            targets: self.targets as nat,
            names: self.names@,
            phase: self.phase,
        }
    }
}

impl WriteDriver {
    /// What holds of every driver that `plan` or `new` has made.
    pub closed spec fn wf(&self) -> bool {
        self@.wf()
    }

    /// What `wf` says of the driver.
    pub proof fn lemma_wf(&self)
        requires
            self.wf(),
        ensures
            self@.wf(),
    {
    }

    /// Plans a run over targets of the given lengths, with `buffer` as the first
    /// content to write and `seed` as the block that the exactly-once mode writes
    /// first. Targets of different lengths are a mismatch, whatever else is
    /// given, and then there is no driver to ask for a write.
    pub fn plan(options: &ThermiteOptions, lengths: &Vec<u64>, seed: u64, buffer: Vec<u8>) -> (made:
        Result<WriteDriver, Error>)
        ensures
            lengths_differ(lengths@) ==> (made matches Err(e) && e == Error::TargetMismatch),
            match made {
                Ok(driver) => plan_failure(*options, lengths@, seed, buffer@) is None && driver.wf()
                    && driver@ == planned(*options, lengths@, seed, buffer@),
                Err(e) => plan_failure(*options, lengths@, seed, buffer@) == Some(e),
            },
    {
        let (start, end) = match run_bounds(options, lengths) {
            Ok(bounds) => bounds,
            Err(e) => {
                return Err(e);
            },
        };
        if buffer.len() as u64 != options.blocksize {
            return Err(Error::Configuration);
        }
        let sequencer = match Sequencer::new(
            options.mode,
            start,
            end,
            options.blocksize,
            options.interval,
            seed,
        ) {
            Ok(sequencer) => sequencer,
            Err(e) => {
                return Err(e);
            },
        };
        let mut names: Vec<String> = Vec::new();
        let mut i: usize = 0;
        while i < options.target.len()
            invariant
                i <= options.target@.len(),
                names@.len() == i,
                forall|j: int| 0 <= j < i ==> names@[j] == options.target@[j],
            decreases options.target@.len() - i,
        {
            names.push(options.target[i].clone());
            i = i + 1;
        }
        assert(names@ =~= options.target@);
        Ok(
            WriteDriver {
                sequencer,
                buffer,
                pagesize: options.pagesize,
                targets: options.target.len(),
                names,
                phase: Phase::Ready,
            },
        )
    }

    /// Plans a run over targets of the given lengths, with a buffer filled as the
    /// configuration asks and a first block for the exactly-once mode that is
    /// drawn from the range. Targets of different lengths are a mismatch,
    /// whatever else is given. Whether a driver is made, and which error comes
    /// where none is, does not depend on what is drawn; only the seed, and the
    /// bytes of a random buffer, do.
    pub fn new(options: &ThermiteOptions, lengths: &Vec<u64>) -> (made: Result<WriteDriver, Error>)
        ensures
            lengths_differ(lengths@) ==> (made matches Err(e) && e == Error::TargetMismatch),
            made is Ok <==> new_failure(*options, lengths@) is None,
            made matches Err(e) ==> new_failure(*options, lengths@) == Some(e),
            made matches Ok(driver) ==> driver.wf() && filled_as(
                driver@.buffer,
                options.data,
                options.blocksize,
            ) && exists|seed: u64|
                plan_failure(*options, lengths@, seed, driver@.buffer) is None && driver@
                    == #[trigger] planned(*options, lengths@, seed, driver@.buffer),
    {
        let (start, end) = match run_bounds(options, lengths) {
            Ok(bounds) => bounds,
            Err(e) => {
                return Err(e);
            },
        };
        let seed = match options.mode {
            IOMode::Random100 => if start < end {
                gen_range(start, end)
            } else {
                start
            },
            _ => start,
        };
        if options.blocksize > usize::MAX as u64 {
            return Err(Error::Configuration);
        }
        let buffer = initial_buffer(options.data, options.blocksize as usize);
        let ghost content = buffer@;
        let made = WriteDriver::plan(options, lengths, seed, buffer);
        proof {
            // the seed that was drawn is a block of the range, as the first block
            // is, so the bounds are valid with the one as with the other
            assert(valid_bounds(options.mode, start, end, options.blocksize, seed) == valid_bounds(
                options.mode,
                start,
                end,
                options.blocksize,
                start,
            ));
            if made is Ok {
                assert(made->Ok_0@ == planned(*options, lengths@, seed, content));
                assert(made->Ok_0@.buffer == content);
            } else {
                assert(plan_failure(*options, lengths@, seed, content) == Some(made->Err_0));
            }
        }
        made
    }

    /// The content to write.
    pub fn buffer(&self) -> (buffer: &Vec<u8>)
        ensures
            buffer@ == self@.buffer,
    {
        &self.buffer
    }

    /// The number of targets.
    pub fn targets(&self) -> (n: usize)
        ensures
            n == self@.targets,
    {
        self.targets
    }

    /// The sequencer of the run.
    pub fn sequencer(&self) -> (sequencer: &Sequencer)
        ensures
            sequencer@ == self@.sequencer,
    {
        &self.sequencer
    }

    /// The name of target number `target`.
    pub fn target_name(&self, target: usize) -> (name: &String)
        requires
            self.wf(),
            target < self@.targets,
        ensures
            *name == self@.names[target as int],
    {
        &self.names[target]
    }

    /// Notes in `records` that the write that was asked for has been made at
    /// `now`.
    pub fn record_write(&self, records: &mut LastWriteTimestamps, now: Timestamp)
        requires
            self.wf(),
            old(records).wf(),
        ensures
            final(records).wf(),
            final(records)@ == self@.recorded(old(records)@, now),
    {
        match self.phase {
            Phase::Writing { offset: _, target, index: _ } => {
                records.record(&self.names[target], now);
            },
            _ => {},
        }
    }

    /// Where the run stands.
    pub fn phase(&self) -> (phase: Phase)
        ensures
            phase == self@.phase,
    {
        self.phase
    }

    /// Takes the next offset from the sequencer.
    fn begin(&mut self, draw: u64) -> (action: Action)
        requires
            old(self).wf(),
            old(self)@.sequencer.may_draw(draw as int),
        ensures
            final(self).wf(),
            (final(self)@, action) == old(self)@.begin(draw as int),
    {
        let index = self.sequencer.iteration();
        let offset = self.sequencer.next_offset_with(draw);
        proof {
            use_type_invariant(&self.sequencer);
            self.sequencer.lemma_wf();
        }
        match offset {
            Some(o) => {
                self.phase = Phase::Writing { offset: o, target: 0, index };
                Action::Write { target: 0, offset: o }
            },
            None => {
                self.phase = Phase::Finished;
                Action::Finish
            },
        }
    }

    /// One decision, with `draw` as the block that the random mode writes to
    /// where a new offset is taken.
    pub fn step_with(&mut self, event: Event, draw: u64) -> (action: Action)
        requires
            old(self).wf(),
            old(self)@.sequencer.may_draw(draw as int),
        ensures
            final(self).wf(),
            (final(self)@, action) == old(self)@.step(event, draw as int),
    {
        match self.phase {
            Phase::Ready => self.begin(draw),
            Phase::Writing { offset, target, index } => match event {
                Event::Start => Action::Write { target, offset },
                Event::Failed => {
                    self.phase = Phase::Failed;
                    Action::Abort(Error::Io)
                },
                Event::Written => {
                    if target + 1 < self.targets {
                        self.phase = Phase::Writing { offset, target: target + 1, index };
                        Action::Write { target: target + 1, offset }
                    } else {
                        xor_scramble(&mut self.buffer, self.pagesize, index);
                        self.phase = Phase::Ready;
                        self.begin(draw)
                    }
                },
            },
            Phase::Finished => Action::Finish,
            Phase::Failed => Action::Abort(Error::Io),
        }
    }

    /// One decision. In the random mode the block is drawn here; in the other
    /// modes the answer is the one that the state and the event fix.
    pub fn step(&mut self, event: Event) -> (action: Action)
        requires
            old(self).wf(),
        ensures
            final(self).wf(),
            exists|draw: int| #[trigger]
                old(self)@.sequencer.may_draw(draw) && (final(self)@, action) == old(self)@.step(
                    event,
                    draw,
                ),
            old(self)@.sequencer.mode != IOMode::Random ==> (final(self)@, action) == old(
                self,
            )@.step(event, 0),
    {
        let draw = self.sequencer.draw();
        self.step_with(event, draw)
    }
}

/// Nothing is written after a failure or after the end: a driver that has given
/// up or finished stays as it is and never asks for a write again.
pub proof fn lemma_no_write_after_the_end(driver: WriteDriverView, event: Event, draw: int)
    requires
        driver.phase == Phase::Finished || driver.phase == Phase::Failed,
    ensures
        driver.step(event, draw).0 == driver,
        !(driver.step(event, draw).1 is Write),
{
}

/// The targets are written in their order, all at one offset: while a target
/// other than the last is being written, a write that went well is followed by a
/// write of the next target at the same offset, and the buffer stays as it is.
pub proof fn lemma_targets_in_order(driver: WriteDriverView, draw: int)
    requires
        driver.wf(),
        driver.phase is Writing,
        driver.phase->target + 1 < driver.targets,
    ensures
        driver.step(Event::Written, draw).1 == (Action::Write {
            target: (driver.phase->target + 1) as usize,
            offset: driver.phase->offset,
        }),
        driver.step(Event::Written, draw).0.buffer == driver.buffer,
        driver.step(Event::Written, draw).0.sequencer == driver.sequencer,
{
}

/// A failed write ends the run at once, whichever target it was.
pub proof fn lemma_failure_is_fatal(driver: WriteDriverView, draw: int)
    requires
        driver.phase is Writing,
    ensures
        driver.step(Event::Failed, draw).1 == Action::Abort(Error::Io),
        driver.step(Event::Failed, draw).0.phase == Phase::Failed,
{
}

/// The buffer is mutated as by the iteration counter itself, though only its low
/// 64 bits are kept: a page size divides `2^64`, so the positions that are
/// written and read are the same.
pub proof fn lemma_low_bits_suffice(data: Seq<u8>, pagesize: u64, iteration: nat)
    requires
        scramble_input(data.len(), pagesize),
        data.len() <= u64::MAX,
    ensures
        scrambled(data, pagesize, iteration % (word_range() as nat)) == scrambled(
            data,
            pagesize,
            iteration,
        ),
{
    let page = page_len(data.len(), pagesize);
    let low = iteration % (word_range() as nat);
    lemma_pow2_positive(data.len() as int);
    lemma_wrap_keeps_mod(iteration as int, page as u64);
    vstd::arithmetic::div_mod::lemma_add_mod_noop(iteration as int, 1, page);
    vstd::arithmetic::div_mod::lemma_add_mod_noop(low as int, 1, page);
    assert(scrambled(data, pagesize, low) =~= scrambled(data, pagesize, iteration));
}

} // verus!
