//! The stall watchdog: which targets have gone without a write for too long.
//!
//! The write driver records, for each target, when it last wrote to it. The
//! watchdog looks at those records from time to time and names each target whose
//! last write lies more than a threshold of seconds back. It changes nothing.
//!
//! The records keep the targets in the order in which they were first entered,
//! and hold each target once.

use vstd::prelude::*;

verus! {

/// The number of nanoseconds in a second.
pub const NANOS_PER_SEC: u64 = 1_000_000_000;

/// A point in time on a monotonic clock, in nanoseconds since the clock's origin.
#[derive(Debug, Clone, Copy, PartialEq, Eq, Structural)]
pub struct Timestamp {
    pub nanos: u64,
}

/// The time from `last` to `now` in nanoseconds, and zero where `now` is the
/// earlier of the two.
pub open spec fn elapsed_nanos(last: Timestamp, now: Timestamp) -> nat {
    if now.nanos >= last.nanos {
        (now.nanos - last.nanos) as nat
    } else {
        0
    }
}

/// Whether a target last written at `last` has stalled at `now`: more than
/// `threshold` seconds have passed.
pub open spec fn is_stalled(last: Timestamp, now: Timestamp, threshold: u64) -> bool {
    elapsed_nanos(last, now) > threshold * NANOS_PER_SEC
}

/// One record: a target and the time of the last write to it.
pub struct Record {
    pub target: Seq<char>,
    pub last_write: Timestamp,
}

/// A stall warning: the target and the whole seconds since the last write to it.
pub struct StallWarning {
    pub target: String,
    pub seconds: u64,
}

/// A stall warning as plain values.
pub struct StallWarningView {
    pub target: Seq<char>,
    pub seconds: nat,
}

impl View for StallWarning {
    type V = StallWarningView;

    open spec fn view(&self) -> StallWarningView {
        StallWarningView { target: self.target@, seconds: self.seconds as nat }
    }
}

/// The warning for a stalled record.
pub open spec fn warning_for(record: Record, now: Timestamp) -> StallWarningView {
    StallWarningView {
        target: record.target,
        seconds: elapsed_nanos(record.last_write, now) / (NANOS_PER_SEC as nat),
    }
}

/// The warnings of one poll: one for each stalled record, in the order of the
/// records.
pub open spec fn stall_warnings(records: Seq<Record>, now: Timestamp, threshold: u64) -> Seq<
    StallWarningView,
>
    decreases records.len(),
{
    if records.len() == 0 {
        Seq::empty()
    } else {
        let earlier = stall_warnings(records.drop_last(), now, threshold);
        if is_stalled(records.last().last_write, now, threshold) {
            earlier.push(warning_for(records.last(), now))
        } else {
            earlier
        }
    }
}

/// No target has two records.
pub open spec fn unique_targets(records: Seq<Record>) -> bool {
    forall|i: int, j: int|
        0 <= i < records.len() && 0 <= j < records.len() && i != j ==> records[i].target
            != records[j].target
}

/// Whether `target` has a record.
pub open spec fn has_target(records: Seq<Record>, target: Seq<char>) -> bool {
    exists|i: int| 0 <= i < records.len() && records[i].target == target
}

/// The records after a write to `target` at `now`: its record, if it has one,
/// holds the new time, and nothing else changes.
pub open spec fn refreshed(records: Seq<Record>, target: Seq<char>, now: Timestamp) -> Seq<Record> {
    Seq::new(
        records.len(),
        |i: int|
            if records[i].target == target {
                Record { target, last_write: now }
            } else {
                records[i]
            },
    )
}

/// The records after `target` was entered at `now`: a target that has a record
/// keeps its place and takes the new time, another one comes last.
pub open spec fn inserted(records: Seq<Record>, target: Seq<char>, now: Timestamp) -> Seq<Record> {
    if has_target(records, target) {
        refreshed(records, target, now)
    } else {
        records.push(Record { target, last_write: now })
    }
}

/// The records of a run that is about to start: every target entered at `now`, in
/// the order of the targets.
pub open spec fn entered(targets: Seq<String>, now: Timestamp) -> Seq<Record>
    decreases targets.len(),
{
    if targets.len() == 0 {
        Seq::empty()
    } else {
        inserted(entered(targets.drop_last(), now), targets.last()@, now)
    }
}

/// How many of the warnings are about `target`.
pub open spec fn warnings_about(warnings: Seq<StallWarningView>, target: Seq<char>) -> nat
    decreases warnings.len(),
{
    if warnings.len() == 0 {
        0
    } else {
        let earlier = warnings_about(warnings.drop_last(), target);
        if warnings.last().target == target {
            earlier + 1
        } else {
            earlier
        }
    }
}

/// The warnings as plain values.
pub open spec fn warning_views(warnings: Seq<StallWarning>) -> Seq<StallWarningView> {
    warnings.map_values(|w: StallWarning| w@)
}

/// The time of the last write to each target of a run.
pub struct LastWriteTimestamps {
    targets: Vec<String>,
    times: Vec<Timestamp>,
}

impl View for LastWriteTimestamps {
    type V = Seq<Record>;

    closed spec fn view(&self) -> Seq<Record> {
        Seq::new(
            self.targets@.len(),
            |i: int| Record { target: self.targets@[i]@, last_write: self.times@[i] },
        )
    }
}

impl LastWriteTimestamps {
    /// What holds of all records: each target has one time, and no target comes
    /// twice.
    pub closed spec fn wf(&self) -> bool {
        &&& self.targets@.len() == self.times@.len()
        &&& unique_targets(self@)
    }

    /// What `wf` says of the records.
    pub proof fn lemma_wf(&self)
        requires
            self.wf(),
        ensures
            unique_targets(self@),
    {
    }

    /// No records.
    pub fn new() -> (records: LastWriteTimestamps)
        ensures
            records.wf(),
            records@ == Seq::<Record>::empty(),
    {
        let records = LastWriteTimestamps { targets: Vec::new(), times: Vec::new() };
        assert(records@ =~= Seq::<Record>::empty());
        records
    }

    /// The number of targets.
    pub fn len(&self) -> (n: usize)
        requires
            self.wf(),
        ensures
            n == self@.len(),
    {
        self.targets.len()
    }

    /// Where the record of `target` is, if it has one.
    fn position(&self, target: &String) -> (found: Option<usize>)
        requires
            self.wf(),
        ensures
            found matches Some(i) ==> i < self@.len() && self@[i as int].target == target@,
            found is None ==> !has_target(self@, target@),
    {
        let mut i: usize = 0;
        while i < self.targets.len()
            invariant
                i <= self.targets@.len(),
                self.wf(),
                forall|j: int| 0 <= j < i ==> self@[j].target != target@,
            decreases self.targets@.len() - i,
        {
            if self.targets[i] == *target {
                return Some(i);
            }
            i = i + 1;
        }
        None
    }

    /// The time of the last write to `target`, if it has a record.
    pub fn last_write(&self, target: &String) -> (time: Option<Timestamp>)
        requires
            self.wf(),
        ensures
            time is Some <==> has_target(self@, target@),
            time matches Some(t) ==> exists|i: int|
                0 <= i < self@.len() && self@[i].target == target@ && self@[i].last_write == t,
    {
        match self.position(target) {
            Some(i) => Some(self.times[i]),
            None => None,
        }
    }

    /// Enters `target` with a first write at `now`. A target that has a record
    /// keeps its place and takes the new time.
    pub fn insert(&mut self, target: String, now: Timestamp)
        requires
            old(self).wf(),
        ensures
            final(self).wf(),
            final(self)@ == inserted(old(self)@, target@, now),
    {
        let ghost before = self@;
        match self.position(&target) {
            Some(i) => {
                self.times.set(i, now);
                assert(self@ =~= refreshed(before, target@, now));
            },
            None => {
                self.targets.push(target);
                self.times.push(now);
                assert(self@ =~= before.push(Record { target: target@, last_write: now }));
            },
        }
    }

    /// The records of a run that is about to start: every target entered at
    /// `now`.
    pub fn for_targets(targets: &Vec<String>, now: Timestamp) -> (records: LastWriteTimestamps)
        ensures
            records.wf(),
            records@ == entered(targets@, now),
    {
        let mut records = LastWriteTimestamps::new();
        let mut i: usize = 0;
        assert(targets@.take(0) =~= Seq::<String>::empty());
        while i < targets.len()
            invariant
                i <= targets@.len(),
                records.wf(),
                records@ == entered(targets@.take(i as int), now),
            decreases targets@.len() - i,
        {
            proof {
                assert(targets@.take(i + 1).drop_last() =~= targets@.take(i as int));
                assert(targets@.take(i + 1).last() == targets@[i as int]);
            }
            records.insert(targets[i].clone(), now);
            i = i + 1;
        }
        assert(targets@.take(i as int) =~= targets@);
        records
    }

    /// Notes a write to `target` at `now`. A target without a record gets none.
    pub fn record(&mut self, target: &String, now: Timestamp)
        requires
            old(self).wf(),
        ensures
            final(self).wf(),
            final(self)@ == refreshed(old(self)@, target@, now),
    {
        let ghost before = self@;
        match self.position(target) {
            Some(i) => {
                self.times.set(i, now);
            },
            None => {},
        }
        assert(self@ =~= refreshed(before, target@, now));
    }

    /// One poll of the watchdog at `now`: a warning for each target whose last
    /// write lies more than `threshold` seconds back, in the order of the
    /// records. The records stay as they are.
    pub fn stalled(&self, now: Timestamp, threshold: u64) -> (warnings: Vec<StallWarning>)
        requires
            self.wf(),
        ensures
            warning_views(warnings@) == stall_warnings(self@, now, threshold),
    {
        let mut warnings: Vec<StallWarning> = Vec::new();
        let mut i: usize = 0;
        assert(self@.take(0) =~= Seq::<Record>::empty());
        assert(warning_views(warnings@) =~= stall_warnings(self@.take(0), now, threshold));
        while i < self.targets.len()
            invariant
                i <= self.targets@.len(),
                self.wf(),
                warning_views(warnings@) == stall_warnings(self@.take(i as int), now, threshold),
            decreases self.targets@.len() - i,
        {
            let last = self.times[i];
            let ghost earlier = warning_views(warnings@);
            proof {
                assert(self@.take(i + 1).drop_last() =~= self@.take(i as int));
                assert(self@.take(i + 1).last() == self@[i as int]);
            }
            if now.nanos > last.nanos {
                let elapsed = now.nanos - last.nanos;
                if (elapsed as u128) > (threshold as u128) * (NANOS_PER_SEC as u128) {
                    let warning = StallWarning {
                        target: self.targets[i].clone(),
                        seconds: elapsed / NANOS_PER_SEC,
                    };
                    warnings.push(warning);
                    assert(warning_views(warnings@) =~= earlier.push(
                        warning_for(self@[i as int], now),
                    ));
                }
            }
            i = i + 1;
        }
        assert(self@.take(i as int) =~= self@);
        warnings
    }
}

/// Counting the warnings about a target, one warning more.
proof fn lemma_count_push(warnings: Seq<StallWarningView>, warning: StallWarningView, target: Seq<char>)
    ensures
        warnings_about(warnings.push(warning), target) == warnings_about(warnings, target) + (if warning.target
            == target {
            1nat
        } else {
            0nat
        }),
{
    assert(warnings.push(warning).drop_last() =~= warnings);
}

/// A poll says nothing about a target that has no record.
pub proof fn lemma_no_record_no_warning(
    records: Seq<Record>,
    now: Timestamp,
    threshold: u64,
    target: Seq<char>,
)
    requires
        !has_target(records, target),
    ensures
        warnings_about(stall_warnings(records, now, threshold), target) == 0,
    decreases records.len(),
{
    if records.len() > 0 {
        let rest = records.drop_last();
        assert(!has_target(rest, target)) by {
            if has_target(rest, target) {
                let i = choose|i: int| 0 <= i < rest.len() && rest[i].target == target;
                assert(records[i].target == target);
            }
        }
        lemma_no_record_no_warning(rest, now, threshold, target);
        assert(records[records.len() - 1].target != target);
        lemma_count_push(
            stall_warnings(rest, now, threshold),
            warning_for(records.last(), now),
            target,
        );
    }
}

/// One warning for each stalled target. A poll holds exactly one warning about a
/// target whose last write lies more than `threshold` seconds back, and none
/// about a target whose last write is more recent.
pub proof fn lemma_one_warning_per_stalled_target(
    records: Seq<Record>,
    now: Timestamp,
    threshold: u64,
    i: int,
)
    requires
        unique_targets(records),
        0 <= i < records.len(),
    ensures
        warnings_about(stall_warnings(records, now, threshold), records[i].target) == (if is_stalled(
            records[i].last_write,
            now,
            threshold,
        ) {
            1nat
        } else {
            0nat
        }),
    decreases records.len(),
{
    let rest = records.drop_last();
    let target = records[i].target;
    lemma_count_push(stall_warnings(rest, now, threshold), warning_for(records.last(), now), target);
    if i == records.len() - 1 {
        assert(!has_target(rest, target)) by {
            if has_target(rest, target) {
                let j = choose|j: int| 0 <= j < rest.len() && rest[j].target == target;
                assert(records[j].target == target);
            }
        }
        lemma_no_record_no_warning(rest, now, threshold, target);
    } else {
        assert(unique_targets(rest)) by {
            assert forall|a: int, b: int|
                0 <= a < rest.len() && 0 <= b < rest.len() && a != b implies rest[a].target
                != rest[b].target by {
                assert(records[a].target != records[b].target);
            }
        }
        assert(rest[i] == records[i]);
        lemma_one_warning_per_stalled_target(rest, now, threshold, i);
    }
}

/// Until it is refreshed, and not after. As long as nothing is written to a
/// stalled target, every later poll warns about it once again; once a write to
/// it is recorded, the polls are silent about it until more than `threshold`
/// seconds have passed anew.
pub proof fn lemma_warned_until_refreshed(
    records: Seq<Record>,
    threshold: u64,
    i: int,
    poll: Timestamp,
    later: Timestamp,
    written: Timestamp,
    after: Timestamp,
)
    requires
        unique_targets(records),
        0 <= i < records.len(),
        is_stalled(records[i].last_write, poll, threshold),
        poll.nanos <= later.nanos,
        !is_stalled(written, after, threshold),
    ensures
        warnings_about(stall_warnings(records, later, threshold), records[i].target) == 1,
        warnings_about(
            stall_warnings(refreshed(records, records[i].target, written), after, threshold),
            records[i].target,
        ) == 0,
{
    lemma_one_warning_per_stalled_target(records, later, threshold, i);
    let fresh = refreshed(records, records[i].target, written);
    assert(unique_targets(fresh)) by {
        assert forall|a: int, b: int|
            0 <= a < fresh.len() && 0 <= b < fresh.len() && a != b implies fresh[a].target
            != fresh[b].target by {
            assert(records[a].target != records[b].target);
        }
    }
    lemma_one_warning_per_stalled_target(fresh, after, threshold, i);
}

} // verus!
