//! Writing the buckets of a group to disk.
//!
//! A group whose number of buckets is not the one on disk is written in two phases: every bucket
//! goes to a new file beside its old one, a sentinel records the number of buckets to come, and only
//! then the new files take the places of the old ones and the marker is set. A crash after the
//! sentinel is rolled forward when the store is opened again; a crash before it leaves the old
//! files alone.
use vstd::prelude::*;

use crate::error::LocalImmutableStoreError;
use crate::local::codec::{file_bytes, ImmutableStoreVersion};
use crate::local::group::ImmutableStoreGroup;

verus! {

/// One thing to do on disk.
#[derive(Clone, Copy, Debug, PartialEq, Eq, Structural)]
pub enum FlushAction {
    /// Flush the pack files of the group.
    FlushPackstore,
    /// Make the directory of the group.
    CreateDirectory,
    /// Write a bucket to a new file beside its old one.
    WriteNew(usize),
    /// Write the sentinel with the number of buckets to come.
    WritePending(usize),
    /// Give the new file of a bucket the place of the old one.
    RenameNew(usize),
    /// Write the marker with the number of buckets.
    WriteMarker(usize),
    /// Delete the sentinel.
    DeletePending,
    /// Write a bucket to its file.
    WriteBucket(usize),
}

impl FlushAction {
    /// The phase of an action. A phase begins only if nothing failed in those before it.
    pub open spec fn phase(self) -> int {
        match self {
            FlushAction::FlushPackstore => 0,
            FlushAction::CreateDirectory => 1,
            FlushAction::WriteNew(_) => 2,
            FlushAction::WritePending(_) => 3,
            FlushAction::RenameNew(_) => 4,
            FlushAction::WriteMarker(_) => 5,
            FlushAction::DeletePending => 6,
            FlushAction::WriteBucket(_) => 7,
        }
    }

    /// The phase of an action.
    fn phase_number(self) -> (r: u8)
        ensures
            r == self.phase(),
    {
        match self {
            FlushAction::FlushPackstore => 0,
            FlushAction::CreateDirectory => 1,
            FlushAction::WriteNew(_) => 2,
            FlushAction::WritePending(_) => 3,
            FlushAction::RenameNew(_) => 4,
            FlushAction::WriteMarker(_) => 5,
            FlushAction::DeletePending => 6,
            FlushAction::WriteBucket(_) => 7,
        }
    }
}

impl ImmutableStoreGroup {
    /// Whether the number of buckets must be changed on disk. Groups in the format from before
    /// fan-out have no number on disk.
    pub open spec fn two_phase(self) -> bool {
        self.serialize_version == ImmutableStoreVersion::LazyFanOut.value() && self.committed_level
            != self.bucket_count
    }

    /// Whether a change of the number of buckets writes a bucket: one that has a file of the old
    /// layout, to replace it, and one that changed. A bucket that changed and is empty may have a
    /// file from before there was a marker, and is written as well.
    pub open spec fn rewrites(self, b: int) -> bool {
        0 <= b < self.bucket_count && (b < self.committed_level || self.dirty@[b])
    }

    /// Whether a flush at the number of buckets on disk writes a bucket: one that changed. A bucket
    /// that lost its last entry is written as well, so that the entry is not read back.
    pub open spec fn writes(self, b: int) -> bool {
        0 <= b < self.bucket_count && self.dirty@[b] && self.touched@[b]
    }

    /// The buckets below `n` that a change of the number of buckets writes, in order.
    pub open spec fn rewritten_below(self, n: int) -> Seq<usize>
        decreases n,
    {
        if n <= 0 {
            Seq::empty()
        } else if self.rewrites(n - 1) {
            self.rewritten_below(n - 1).push((n - 1) as usize)
        } else {
            self.rewritten_below(n - 1)
        }
    }

    /// The buckets below `n` that a flush at the number of buckets on disk writes, in order.
    pub open spec fn written_below(self, n: int) -> Seq<usize>
        decreases n,
    {
        if n <= 0 {
            Seq::empty()
        } else if self.writes(n - 1) {
            self.written_below(n - 1).push((n - 1) as usize)
        } else {
            self.written_below(n - 1)
        }
    }

    /// What a flush does, in order. Without new files there is nothing to roll forward, so that the
    /// sentinel is not needed. Where spreading the entries failed, only the pack files are flushed.
    pub open spec fn flush_plan(self, sync_data: bool, fan_out_failed: bool) -> Seq<FlushAction> {
        let first = if sync_data {
            seq![FlushAction::FlushPackstore]
        } else {
            Seq::empty()
        };
        let level = self.bucket_count;
        let new = self.rewritten_below(level as int);
        if fan_out_failed {
            first
        } else if self.two_phase() {
            let written = new.map_values(|b: usize| FlushAction::WriteNew(b));
            let renamed = new.map_values(|b: usize| FlushAction::RenameNew(b));
            if new.len() == 0 {
                first + seq![FlushAction::CreateDirectory] + seq![FlushAction::WriteMarker(level)]
            } else {
                first + seq![FlushAction::CreateDirectory] + written + seq![
                    FlushAction::WritePending(level),
                ] + renamed + seq![FlushAction::WriteMarker(level), FlushAction::DeletePending]
            }
        } else {
            first + self.written_below(level as int).map_values(
                |b: usize| FlushAction::WriteBucket(b),
            )
        }
    }

    /// The buckets that are written when the number of buckets changes.
    fn rewritten_buckets(&self) -> (r: Vec<usize>)
        requires
            self.wf(),
        ensures
            r@ == self.rewritten_below(self.bucket_count as int),
    {
        let mut found: Vec<usize> = Vec::new();
        let mut b: usize = 0;
        while b < self.bucket_count
            invariant
                self.wf(),
                b <= self.bucket_count,
                found@ == self.rewritten_below(b as int),
            decreases self.bucket_count - b,
        {
            if b < self.committed_level || self.dirty[b] {
                found.push(b);
            }
            b = b + 1;
        }
        found
    }

    /// The buckets that a flush writes when the number of buckets stays.
    fn written_buckets(&self) -> (r: Vec<usize>)
        requires
            self.wf(),
        ensures
            r@ == self.written_below(self.bucket_count as int),
    {
        let mut found: Vec<usize> = Vec::new();
        let mut b: usize = 0;
        while b < self.bucket_count
            invariant
                self.wf(),
                b <= self.bucket_count,
                found@ == self.written_below(b as int),
            decreases self.bucket_count - b,
        {
            if self.dirty[b] && self.touched[b] {
                found.push(b);
            }
            b = b + 1;
        }
        found
    }

    /// The buckets that a delayed flush writes.
    pub fn flush_delayed(&self) -> (r: Vec<usize>)
        requires
            self.wf(),
        ensures
            r@ == self.written_below(256),
    {
        let found = self.written_buckets();
        proof {
            self.lemma_nothing_beyond(256);
        }
        found
    }

    /// Buckets that are not in use are not written.
    proof fn lemma_nothing_beyond(self, n: int)
        requires
            self.bucket_count <= n,
        ensures
            self.written_below(n) == self.written_below(self.bucket_count as int),
        decreases n,
    {
        if n > self.bucket_count {
            self.lemma_nothing_beyond(n - 1);
        }
    }

    /// Claims a bucket for a flush and gives the bytes of its file. There is nothing to write for a
    /// bucket that did not change or that another flush has claimed.
    pub fn serialize(&mut self, b: usize) -> (r: Option<Vec<u8>>)
        requires
            old(self).wf(),
            b < 256,
        ensures
            final(self).wf(),
            final(self).dirty@ == if r is Some {
                old(self).dirty@.update(b as int, false)
            } else {
                old(self).dirty@
            },
            same_but_dirty(*old(self), *final(self)),
            r is Some == old(self).dirty@[b as int],
            r is Some ==> r->0@ == file_bytes(
                old(self).serialize_version,
                old(self).bucket@[b as int].sorted_index@,
                old(self).bucket@[b as int].entry@,
            ),
    {
        if !self.dirty[b] {
            return None;
        }
        self.dirty.set(b, false);
        match self.bucket[b].serialize_files(self.serialize_version) {
            Ok(bytes) => Some(bytes),
            Err(_) => None,
        }
    }

    /// Claims a bucket for a change of the number of buckets and gives the bytes of its new file,
    /// whether it has entries or not.
    pub fn serialize_to_new(&mut self, b: usize) -> (r: Vec<u8>)
        requires
            old(self).wf(),
            b < 256,
        ensures
            final(self).wf(),
            final(self).dirty@ == old(self).dirty@.update(b as int, false),
            same_but_dirty(*old(self), *final(self)),
            r@ == file_bytes(
                old(self).serialize_version,
                old(self).bucket@[b as int].sorted_index@,
                old(self).bucket@[b as int].entry@,
            ),
    {
        self.dirty.set(b, false);
        match self.bucket[b].serialize_files(self.serialize_version) {
            Ok(bytes) => bytes,
            Err(_) => Vec::new(),
        }
    }
}

/// Whether two groups differ in no more than which buckets are dirty.
pub open spec fn same_but_dirty(a: ImmutableStoreGroup, b: ImmutableStoreGroup) -> bool {
    b == (ImmutableStoreGroup { dirty: b.dirty, ..a })
}

/// Keeps a bucket dirty unless its file was written.
#[derive(Clone, Copy, Debug, PartialEq, Eq, Structural)]
pub struct SerializeFailureGuard {
    pub success: bool,
}

impl SerializeFailureGuard {
    /// A guard over a file that is not written yet.
    pub fn new() -> (r: SerializeFailureGuard)
        ensures
            !r.success,
    {
        SerializeFailureGuard { success: false }
    }

    /// Records that the file was written.
    pub fn success(&mut self)
        ensures
            final(self).success,
    {
        self.success = true;
    }

    /// Ends the guard. Without success the bucket is dirty again and the temporary file is to be
    /// removed: the result says so.
    pub fn release(self, dirty: &mut bool) -> (r: bool)
        ensures
            r == !self.success,
            *final(dirty) == (*old(dirty) || !self.success),
    {
        if !self.success {
            *dirty = true;
        }
        !self.success
    }
}

/// What failed first in a flush, and in which phase.
#[derive(Clone, Copy, Debug, PartialEq, Eq, Structural)]
pub struct FlushFailure {
    pub error: LocalImmutableStoreError,
    pub phase: u8,
}

/// A flush of a group on its way.
pub struct FlushPass {
    /// What to do, in order.
    pub plan: Vec<FlushAction>,
    /// The number of actions that were done or failed.
    pub at: usize,
    /// The first failure.
    pub failure: Option<FlushFailure>,
    /// The number of buckets that is on disk once all is done, where it changes.
    pub level: Option<usize>,
}

impl FlushPass {
    /// The flush has not gone past its plan.
    pub open spec fn wf(self) -> bool {
        self.at <= self.plan@.len()
    }

    /// What is to be done next.
    pub open spec fn upcoming(self) -> Option<FlushAction> {
        if self.ended() {
            None
        } else {
            Some(self.plan@[self.at as int])
        }
    }

    /// The flush once an action was done or failed.
    pub open spec fn reported(self, outcome: Result<(), LocalImmutableStoreError>) -> FlushPass {
        let action = self.plan@[self.at as int];
        FlushPass {
            at: (self.at + 1) as usize,
            failure: if outcome is Err && action != FlushAction::FlushPackstore && self.failure
                is None {
                Some(FlushFailure { error: outcome->Err_0, phase: action.phase() as u8 })
            } else {
                self.failure
            },
            ..self
        }
    }

    /// What a flush comes to, and the group after it.
    pub open spec fn finished(self, group: ImmutableStoreGroup) -> (
        Result<(), LocalImmutableStoreError>,
        ImmutableStoreGroup,
    ) {
        if self.failure is Some {
            (Err(self.failure->0.error), group)
        } else if self.level is Some {
            (Ok(()), ImmutableStoreGroup { committed_level: self.level->0, ..group })
        } else {
            (Ok(()), group)
        }
    }

    /// Whether the flush has nothing more to do: the plan is at its end, or a phase before the next
    /// action's failed.
    pub open spec fn ended(self) -> bool {
        self.at == self.plan@.len() || (self.failure is Some && self.failure->0.phase as int
            != self.plan@[self.at as int].phase())
    }

    /// Plans a flush. A failure to spread the entries before counts as the first failure.
    pub fn new(
        group: &ImmutableStoreGroup,
        sync_data: bool,
        fan_out: Result<(), LocalImmutableStoreError>,
    ) -> (r: FlushPass)
        requires
            group.wf(),
        ensures
            r.wf(),
            r.plan@ == group.flush_plan(sync_data, fan_out is Err),
            r.at == 0,
            r.failure == match fan_out {
                Ok(()) => None::<FlushFailure>,
                Err(e) => Some(FlushFailure { error: e, phase: 0 }),
            },
            r.level == if fan_out is Ok && group.two_phase() {
                Some(group.bucket_count)
            } else {
                None
            },
    {
        let mut plan: Vec<FlushAction> = Vec::new();
        if sync_data {
            plan.push(FlushAction::FlushPackstore);
        }
        let ghost first = plan@;
        let ghost goal = group.flush_plan(sync_data, fan_out is Err);
        assert(first =~= if sync_data {
            seq![FlushAction::FlushPackstore]
        } else {
            Seq::empty()
        });
        if let Err(e) = fan_out {
            let failure = Some(FlushFailure { error: e, phase: 0 });
            return FlushPass { plan, at: 0, failure, level: None };
        }
        let level: usize = group.bucket_count;
        let two_phase = group.serialize_version == ImmutableStoreVersion::LazyFanOut.number()
            && group.committed_level != level;
        if !two_phase {
            let written = group.written_buckets();
            let ghost tail = written@.map_values(|b: usize| FlushAction::WriteBucket(b));
            let mut i: usize = 0;
            while i < written.len()
                invariant
                    i <= written@.len(),
                    tail == written@.map_values(|b: usize| FlushAction::WriteBucket(b)),
                    plan@ =~= first + tail.take(i as int),
                decreases written@.len() - i,
            {
                plan.push(FlushAction::WriteBucket(written[i]));
                i = i + 1;
            }
            assert(plan@ =~= goal);
            return FlushPass { plan, at: 0, failure: None, level: None };
        }
        let new = group.rewritten_buckets();
        plan.push(FlushAction::CreateDirectory);
        if new.len() == 0 {
            plan.push(FlushAction::WriteMarker(level));
            assert(plan@ =~= goal);
            return FlushPass { plan, at: 0, failure: None, level: Some(level) };
        }
        let ghost start = plan@;
        let ghost files = new@.map_values(|b: usize| FlushAction::WriteNew(b));
        let mut i: usize = 0;
        while i < new.len()
            invariant
                i <= new@.len(),
                files == new@.map_values(|b: usize| FlushAction::WriteNew(b)),
                plan@ =~= start + files.take(i as int),
            decreases new@.len() - i,
        {
            plan.push(FlushAction::WriteNew(new[i]));
            i = i + 1;
        }
        plan.push(FlushAction::WritePending(level));
        let ghost middle = plan@;
        let ghost renames = new@.map_values(|b: usize| FlushAction::RenameNew(b));
        i = 0;
        while i < new.len()
            invariant
                i <= new@.len(),
                renames == new@.map_values(|b: usize| FlushAction::RenameNew(b)),
                plan@ =~= middle + renames.take(i as int),
            decreases new@.len() - i,
        {
            plan.push(FlushAction::RenameNew(new[i]));
            i = i + 1;
        }
        plan.push(FlushAction::WriteMarker(level));
        plan.push(FlushAction::DeletePending);
        assert(plan@ =~= goal);
        FlushPass { plan, at: 0, failure: None, level: Some(level) }
    }

    /// What to do next. After a failure the rest of its phase is still done, and nothing after it.
    pub fn next(&self) -> (r: Option<FlushAction>)
        requires
            self.wf(),
        ensures
            r == if self.ended() {
                None
            } else {
                Some(self.plan@[self.at as int])
            },
            r == self.upcoming(),
    {
        if self.at == self.plan.len() {
            return None;
        }
        let action = self.plan[self.at];
        if let Some(failure) = self.failure {
            if failure.phase != action.phase_number() {
                return None;
            }
        }
        Some(action)
    }

    /// Records how the action that `next` gave went. Flushing the pack files is not answered for.
    pub fn report(&mut self, outcome: Result<(), LocalImmutableStoreError>)
        requires
            old(self).wf(),
            !old(self).ended(),
        ensures
            final(self).wf(),
            final(self).at == old(self).at + 1,
            final(self).plan == old(self).plan,
            final(self).level == old(self).level,
            final(self).failure == if old(self).failure is None && outcome is Err && old(self).plan@[old(self).at as int] != FlushAction::FlushPackstore {
                Some(
                    FlushFailure {
                        error: outcome->Err_0,
                        phase: old(self).plan@[old(self).at as int].phase() as u8,
                    },
                )
            } else {
                old(self).failure
            },
            *final(self) == old(self).reported(outcome),
    {
        let count: usize = self.plan.len();
        assert(self.at < count);
        let action = self.plan[self.at];
        self.at = self.at + 1;
        if let Err(e) = outcome {
            if self.failure.is_none() && action != FlushAction::FlushPackstore {
                self.failure = Some(FlushFailure { error: e, phase: action.phase_number() });
            }
        }
    }

    /// Ends the flush. The number of buckets on disk changes only if all went well.
    pub fn finish(self, group: &mut ImmutableStoreGroup) -> (r: Result<
        (),
        LocalImmutableStoreError,
    >)
        requires
            self.wf(),
            self.ended(),
            old(group).wf(),
        ensures
            final(group).wf(),
            r == match self.failure {
                Some(failure) => Err::<(), LocalImmutableStoreError>(failure.error),
                None => Ok(()),
            },
            *final(group) == (ImmutableStoreGroup {
                committed_level: if r is Ok && self.level is Some {
                    self.level->0
                } else {
                    old(group).committed_level
                },
                ..*old(group)
            }),
            (r, *final(group)) == self.finished(*old(group)),
    {
        match self.failure {
            Some(failure) => Err(failure.error),
            None => {
                if let Some(level) = self.level {
                    group.committed_level = level;
                }
                Ok(())
            },
        }
    }
}

/// A bucket is among those that a change of the number of buckets writes if it is to be written.
proof fn lemma_rewritten(group: ImmutableStoreGroup, n: int, b: int)
    requires
        n <= 256,
    ensures
        0 <= b < n && group.rewrites(b) ==> group.rewritten_below(n).contains(b as usize),
    decreases n,
{
    if n > 0 {
        lemma_rewritten(group, n - 1, b);
        let rest = group.rewritten_below(n - 1);
        if 0 <= b < n && group.rewrites(b) {
            if b == n - 1 {
                assert(rest.push((n - 1) as usize)[rest.len() as int] == b as usize);
            } else if group.rewrites(n - 1) {
                let w = choose|w: int| 0 <= w < rest.len() && rest[w] == b as usize;
                assert(rest.push((n - 1) as usize)[w] == b as usize);
            }
        }
    }
}

/// A bucket is among those that a flush writes if it is to be written.
proof fn lemma_written(group: ImmutableStoreGroup, n: int, b: int)
    requires
        n <= 256,
    ensures
        0 <= b < n && group.writes(b) ==> group.written_below(n).contains(b as usize),
    decreases n,
{
    if n > 0 {
        lemma_written(group, n - 1, b);
        let rest = group.written_below(n - 1);
        if 0 <= b < n && group.writes(b) {
            if b == n - 1 {
                assert(rest.push((n - 1) as usize)[rest.len() as int] == b as usize);
            } else if group.writes(n - 1) {
                let w = choose|w: int| 0 <= w < rest.len() && rest[w] == b as usize;
                assert(rest.push((n - 1) as usize)[w] == b as usize);
            }
        }
    }
}

/// A flush goes through its phases in order: new files before the sentinel, the sentinel before any
/// new file takes its place, all of them before the marker, and the marker before the sentinel goes.
pub proof fn law_flush_phases_are_in_order(
    group: ImmutableStoreGroup,
    sync_data: bool,
    fan_out_failed: bool,
    i: int,
    j: int,
)
    requires
        0 <= i <= j < group.flush_plan(sync_data, fan_out_failed).len(),
    ensures
        group.flush_plan(sync_data, fan_out_failed)[i].phase() <= group.flush_plan(
            sync_data,
            fan_out_failed,
        )[j].phase(),
{
}

/// Every dirty bucket is written by a flush of its group, whether or not it has entries and whether
/// or not the number of buckets changes.
pub proof fn law_flush_writes_every_dirty_bucket(
    group: ImmutableStoreGroup,
    sync_data: bool,
    b: int,
)
    requires
        group.wf(),
        0 <= b < 256,
        group.dirty@[b],
    ensures
        group.flush_plan(sync_data, false).contains(FlushAction::WriteNew(b as usize))
            || group.flush_plan(sync_data, false).contains(FlushAction::WriteBucket(b as usize)),
{
    let plan = group.flush_plan(sync_data, false);
    let n = group.bucket_count as int;
    let first: int = if sync_data { 1 } else { 0 };
    assert(b < n);
    if !group.touched@[b] {
        assert(!group.dirty@[b]);
    }
    if group.two_phase() {
        lemma_rewritten(group, n, b);
        let new = group.rewritten_below(n);
        let w = choose|w: int| 0 <= w < new.len() && new[w] == b as usize;
        assert(plan[first + 1 + w] == FlushAction::WriteNew(b as usize));
    } else {
        lemma_written(group, n, b);
        let written = group.written_below(n);
        let w = choose|w: int| 0 <= w < written.len() && written[w] == b as usize;
        assert(plan[first + w] == FlushAction::WriteBucket(b as usize));
    }
}

/// When the number of buckets changes, every bucket that has a file of the old layout gets a new
/// one, and the new file takes the place of the old one.
pub proof fn law_old_files_are_replaced(group: ImmutableStoreGroup, sync_data: bool, b: int)
    requires
        group.wf(),
        group.two_phase(),
        0 <= b < group.committed_level,
        b < group.bucket_count,
    ensures
        group.flush_plan(sync_data, false).contains(FlushAction::WriteNew(b as usize)),
        group.flush_plan(sync_data, false).contains(FlushAction::RenameNew(b as usize)),
{
    let plan = group.flush_plan(sync_data, false);
    let n = group.bucket_count as int;
    let first: int = if sync_data { 1 } else { 0 };
    lemma_rewritten(group, n, b);
    let new = group.rewritten_below(n);
    let w = choose|w: int| 0 <= w < new.len() && new[w] == b as usize;
    assert(plan[first + 1 + w] == FlushAction::WriteNew(b as usize));
    assert(plan[first + 2 + new.len() + w] == FlushAction::RenameNew(b as usize));
}

/// A new file takes its place only if it was written before: whatever is renamed was written.
pub proof fn law_only_written_files_are_renamed(
    group: ImmutableStoreGroup,
    sync_data: bool,
    fan_out_failed: bool,
    j: int,
)
    requires
        0 <= j < group.flush_plan(sync_data, fan_out_failed).len(),
        group.flush_plan(sync_data, fan_out_failed)[j] is RenameNew,
    ensures
        exists|i: int|
            0 <= i < j && #[trigger] group.flush_plan(sync_data, fan_out_failed)[i]
                == FlushAction::WriteNew(group.flush_plan(sync_data, fan_out_failed)[j]->RenameNew_0),
{
    let plan = group.flush_plan(sync_data, fan_out_failed);
    let first: int = if sync_data { 1 } else { 0 };
    let new = group.rewritten_below(group.bucket_count as int);
    let w = j - first - 2 - new.len();
    assert(plan[first + 1 + w] == FlushAction::WriteNew(new[w]));
}

/// The buckets that a flush writes, in order.
proof fn lemma_chosen_buckets(group: ImmutableStoreGroup, n: int)
    requires
        n <= 256,
    ensures
        forall|k: int|
            0 <= k < group.rewritten_below(n).len() ==> 0 <= (#[trigger] group.rewritten_below(
                n,
            )[k]) < n && group.rewrites(group.rewritten_below(n)[k] as int),
        forall|k: int|
            0 <= k < group.written_below(n).len() ==> 0 <= (#[trigger] group.written_below(n)[k])
                < n && group.writes(group.written_below(n)[k] as int),
        forall|k: int, m: int|
            0 <= k < m < group.rewritten_below(n).len() ==> (#[trigger] group.rewritten_below(n)[k])
                < (#[trigger] group.rewritten_below(n)[m]),
        forall|k: int, m: int|
            0 <= k < m < group.written_below(n).len() ==> (#[trigger] group.written_below(n)[k]) < (
            #[trigger] group.written_below(n)[m]),
    decreases n,
{
    if n > 0 {
        lemma_chosen_buckets(group, n - 1);
        let (new, written) = (group.rewritten_below(n), group.written_below(n));
        let (fewer_new, fewer) = (group.rewritten_below(n - 1), group.written_below(n - 1));
        assert forall|k: int| 0 <= k < new.len() implies 0 <= (#[trigger] new[k]) < n
            && group.rewrites(new[k] as int) by {
            if k < fewer_new.len() {
                assert(new[k] == fewer_new[k]);
            }
        }
        assert forall|k: int| 0 <= k < written.len() implies 0 <= (#[trigger] written[k]) < n
            && group.writes(written[k] as int) by {
            if k < fewer.len() {
                assert(written[k] == fewer[k]);
            }
        }
    }
}

/// A flush does no more than it has to. It flushes the pack files first, and only if it is asked to.
/// Where the number of buckets that the disk is to record changes, it writes the buckets that changed
/// and those that have a file already, and records the number of buckets that there are. Otherwise it
/// writes the buckets that changed. Where the buckets could not be spread it writes none. Nothing is
/// done twice.
pub proof fn law_flush_does_no_more(
    group: ImmutableStoreGroup,
    sync_data: bool,
    fan_out_failed: bool,
    i: int,
)
    requires
        group.wf(),
        0 <= i < group.flush_plan(sync_data, fan_out_failed).len(),
    ensures
        ({
            let plan = group.flush_plan(sync_data, fan_out_failed);
            let changes = group.serialize_version == ImmutableStoreVersion::LazyFanOut.value()
                && group.committed_level != group.bucket_count;
            &&& match plan[i] {
                FlushAction::FlushPackstore => sync_data && i == 0,
                FlushAction::CreateDirectory => changes,
                FlushAction::WriteNew(b) => changes && b < group.bucket_count && (b
                    < group.committed_level || group.dirty@[b as int]),
                FlushAction::RenameNew(b) => changes && b < group.bucket_count && (b
                    < group.committed_level || group.dirty@[b as int]),
                FlushAction::WritePending(level) => changes && level == group.bucket_count,
                FlushAction::WriteMarker(level) => changes && level == group.bucket_count,
                FlushAction::DeletePending => changes,
                FlushAction::WriteBucket(b) => !changes && b < group.bucket_count
                    && group.dirty@[b as int],
            }
            &&& fan_out_failed ==> plan[i] == FlushAction::FlushPackstore
            &&& sync_data ==> plan[0] == FlushAction::FlushPackstore
            &&& forall|j: int| 0 <= j < i ==> #[trigger] plan[j] != plan[i]
        }),
{
    lemma_chosen_buckets(group, group.bucket_count as int);
    let plan = group.flush_plan(sync_data, fan_out_failed);
    let first: int = if sync_data {
        1
    } else {
        0
    };
    let new = group.rewritten_below(group.bucket_count as int);
    let n = new.len() as int;
    if !fan_out_failed && group.two_phase() && n > 0 {
        assert(plan.len() == first + 1 + n + 1 + n + 2);
        assert(forall|k: int|
            first + 1 <= k < first + 1 + n ==> #[trigger] plan[k] == FlushAction::WriteNew(
                new[k - first - 1],
            ));
        assert(forall|k: int|
            first + 2 + n <= k < first + 2 + 2 * n ==> #[trigger] plan[k]
                == FlushAction::RenameNew(new[k - first - 2 - n]));
    }
}

/// A flush that changes the number of buckets on disk records the number, and makes good on what it
/// began: a bucket that is written anew gets its place, and the sentinel is written and deleted.
pub proof fn law_flush_finishes_what_it_begins(
    group: ImmutableStoreGroup,
    sync_data: bool,
    b: usize,
)
    requires
        group.wf(),
        group.serialize_version == ImmutableStoreVersion::LazyFanOut.value(),
        group.committed_level != group.bucket_count,
    ensures
        ({
            let plan = group.flush_plan(sync_data, false);
            &&& plan.contains(FlushAction::WriteMarker(group.bucket_count))
            &&& plan.contains(FlushAction::WriteNew(b)) ==> plan.contains(FlushAction::RenameNew(b))
                && plan.contains(FlushAction::WritePending(group.bucket_count)) && plan.contains(
                FlushAction::DeletePending,
            )
        }),
{
    lemma_chosen_buckets(group, group.bucket_count as int);
    let plan = group.flush_plan(sync_data, false);
    let first: int = if sync_data {
        1
    } else {
        0
    };
    let new = group.rewritten_below(group.bucket_count as int);
    let n = new.len() as int;
    if n == 0 {
        assert(plan[first + 1] == FlushAction::WriteMarker(group.bucket_count));
    } else {
        assert(plan.len() == first + 1 + n + 1 + n + 2);
        assert(plan[first + 2 + 2 * n] == FlushAction::WriteMarker(group.bucket_count));
        assert(plan[first + 3 + 2 * n] == FlushAction::DeletePending);
        assert(plan[first + 1 + n] == FlushAction::WritePending(group.bucket_count));
        if plan.contains(FlushAction::WriteNew(b)) {
            let k = choose|k: int| 0 <= k < plan.len() && plan[k] == FlushAction::WriteNew(b);
            assert(plan[k + n + 1] == FlushAction::RenameNew(b));
        }
    }
}

/// After a failure a flush goes no further than the phase in which it failed.
pub proof fn law_failed_phase_is_the_last(pass: FlushPass)
    requires
        pass.wf(),
        pass.failure is Some,
        !pass.ended(),
    ensures
        pass.at < pass.plan@.len(),
        pass.plan@[pass.at as int].phase() == pass.failure->0.phase,
{
}

/// A flush fails exactly if an action failed that is more than a flush of the pack files, and then
/// with the first such failure. Actions of the same phase are still done, and no other. What the disk
/// is taken to record changes only if all went well.
pub proof fn law_first_failure_ends_the_flush(
    pass: FlushPass,
    outcome: Result<(), LocalImmutableStoreError>,
    group: ImmutableStoreGroup,
)
    requires
        pass.wf(),
        !pass.ended(),
    ensures
        ({
            let action = pass.plan@[pass.at as int];
            let after = pass.reported(outcome);
            let counts = outcome is Err && action != FlushAction::FlushPackstore;
            &&& pass.upcoming() == Some(action)
            &&& after.plan == pass.plan && after.level == pass.level && after.at == pass.at + 1
            &&& pass.failure is Some ==> after.failure == pass.failure
            &&& pass.failure is None && !counts ==> after.failure is None
            &&& pass.failure is None && counts ==> after.failure is Some
                && after.failure->0.error == outcome->Err_0 && (after.upcoming() is Some
                ==> after.upcoming()->0.phase() == action.phase())
            &&& after.failure is Some ==> after.finished(group) == (
                Err::<(), LocalImmutableStoreError>(after.failure->0.error),
                group,
            )
            &&& after.failure is None ==> after.finished(group).0 is Ok
            &&& after.failure is None && pass.level is Some ==> after.finished(
                group,
            ).1.committed_level == pass.level->0
            &&& pass.level is None ==> after.finished(group).1 == group
        }),
{
    assert(pass.at < pass.plan.len());
}

} // verus!
