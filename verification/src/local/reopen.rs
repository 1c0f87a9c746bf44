//! What a flush leaves on disk, and what is read from there when the store is opened again.
use vstd::prelude::*;

use crate::local::bucket::{data_at, in_order};
use crate::local::codec::{file_bytes, recovered, ImmutableStoreVersion};
use crate::local::data::{ImmutableData, ImmutableStoreEntry};
use crate::local::flush::FlushAction;
use crate::local::group::{bucket_of, ImmutableStoreGroup};
use crate::local::whole::law_buckets_survive_a_restart;
use crate::types::{Address, Partition};

verus! {

/// The files of a group.
pub struct GroupFiles {
    /// The files of the buckets.
    pub bucket: Map<int, Seq<u8>>,
    /// The new files beside them.
    pub new: Map<int, Seq<u8>>,
    /// The number of buckets that the marker records.
    pub marker: Option<usize>,
    /// The number of buckets that the sentinel records.
    pub pending: Option<usize>,
}

/// The bytes of the file of a bucket.
pub open spec fn bytes_of(group: ImmutableStoreGroup, b: int) -> Seq<u8> {
    file_bytes(
        group.serialize_version,
        group.bucket@[b].sorted_index@,
        group.bucket@[b].entry@,
    )
}

impl GroupFiles {
    /// The files once an action of a flush was done.
    pub open spec fn done(self, action: FlushAction, group: ImmutableStoreGroup) -> GroupFiles {
        match action {
            FlushAction::FlushPackstore | FlushAction::CreateDirectory => self,
            FlushAction::WriteNew(b) => GroupFiles {
                new: self.new.insert(b as int, bytes_of(group, b as int)),
                ..self
            },
            FlushAction::WritePending(level) => GroupFiles { pending: Some(level), ..self },
            FlushAction::RenameNew(b) => GroupFiles {
                bucket: self.bucket.insert(b as int, self.new[b as int]),
                new: self.new.remove(b as int),
                ..self
            },
            FlushAction::WriteMarker(level) => GroupFiles { marker: Some(level), ..self },
            FlushAction::DeletePending => GroupFiles { pending: None, ..self },
            FlushAction::WriteBucket(b) => GroupFiles {
                bucket: self.bucket.insert(b as int, bytes_of(group, b as int)),
                ..self
            },
        }
    }

    /// The files once a plan was carried out.
    #[verifier::opaque]
    pub open spec fn carried_out(self, plan: Seq<FlushAction>, group: ImmutableStoreGroup) -> GroupFiles
        decreases plan.len(),
    {
        if plan.len() == 0 {
            self
        } else {
            self.carried_out(plan.drop_last(), group).done(plan.last(), group)
        }
    }

    /// The file of a bucket, where there is one.
    pub open spec fn file(self, b: int) -> Option<Seq<u8>> {
        if self.bucket.dom().contains(b) {
            Some(self.bucket[b])
        } else {
            None
        }
    }

    /// The entries that a bucket gets when it is read.
    pub open spec fn slots(self, b: int) -> Seq<ImmutableStoreEntry> {
        let contents = recovered(self.file(b))->Ok_0.0;
        in_order(contents.entry, contents.sorted_index)
    }

    /// What a group that was opened with a number of buckets finds at an address once it was read.
    pub open spec fn data_in(self, level: int, partition: Partition, address: Address) -> Option<
        ImmutableData,
    > {
        data_at(self.slots(bucket_of(address.hash, level)), partition, address)
    }

    /// Whether reading a bucket gives what the group has in memory.
    pub open spec fn holds(self, group: ImmutableStoreGroup, b: int) -> bool {
        &&& recovered(self.file(b)) is Ok
        &&& self.slots(b) == group.bucket@[b].slots()
    }

    /// Whether the file of a bucket is that bucket, unless a flush has still to write it.
    pub open spec fn lags_behind(self, group: ImmutableStoreGroup, b: int) -> bool {
        !group.dirty@[b] && !(group.two_phase() && b < group.committed_level) ==> self.holds(
            group,
            b,
        )
    }
}

/// Carrying out two plans is carrying out one after the other.
proof fn lemma_one_after_the_other(
    files: GroupFiles,
    a: Seq<FlushAction>,
    b: Seq<FlushAction>,
    group: ImmutableStoreGroup,
)
    ensures
        files.carried_out(a + b, group) == files.carried_out(a, group).carried_out(b, group),
    decreases b.len(),
{
    reveal(GroupFiles::carried_out);
    if b.len() == 0 {
        assert(a + b =~= a);
    } else {
        lemma_one_after_the_other(files, a, b.drop_last(), group);
        assert((a + b).drop_last() =~= a + b.drop_last());
        assert((a + b).last() == b.last());
    }
}

/// Carrying out one action.
proof fn lemma_one_action(files: GroupFiles, action: FlushAction, group: ImmutableStoreGroup)
    ensures
        files.carried_out(seq![action], group) == files.done(action, group),
{
    reveal(GroupFiles::carried_out);
    assert(seq![action].drop_last() =~= Seq::empty());
    assert(files.carried_out(Seq::empty(), group) == files);
}

/// Carrying out nothing.
proof fn lemma_no_action(files: GroupFiles, group: ImmutableStoreGroup)
    ensures
        files.carried_out(Seq::empty(), group) == files,
{
    reveal(GroupFiles::carried_out);
}

/// Carrying out one more action.
proof fn lemma_one_more_action(
    files: GroupFiles,
    plan: Seq<FlushAction>,
    action: FlushAction,
    group: ImmutableStoreGroup,
)
    ensures
        files.carried_out(plan.push(action), group) == files.carried_out(plan, group).done(
            action,
            group,
        ),
{
    reveal(GroupFiles::carried_out);
    assert(plan.push(action).drop_last() =~= plan);
}

/// Writing the new files.
proof fn lemma_new_files(files: GroupFiles, group: ImmutableStoreGroup, n: int)
    requires
        0 <= n <= group.bucket_count <= 256,
    ensures
        ({
            let plan = group.rewritten_below(n).map_values(|b: usize| FlushAction::WriteNew(b));
            let after = files.carried_out(plan, group);
            &&& after == (GroupFiles { new: after.new, ..files })
            &&& forall|b: int|
                0 <= b < n && #[trigger] group.rewrites(b) ==> after.new[b] == bytes_of(group, b)
        }),
    decreases n,
{
    let write = |b: usize| FlushAction::WriteNew(b);
    let plan = group.rewritten_below(n).map_values(write);
    if n > 0 {
        lemma_new_files(files, group, n - 1);
        if group.rewrites(n - 1) {
            let before = group.rewritten_below(n - 1).map_values(write);
            let action = FlushAction::WriteNew((n - 1) as usize);
            assert(plan =~= before.push(action));
            lemma_one_more_action(files, before, action, group);
            let half = files.carried_out(before, group);
            let after = files.carried_out(plan, group);
            assert(after == half.done(action, group));
            assert forall|b: int| 0 <= b < n && #[trigger] group.rewrites(b) implies after.new[b]
                == bytes_of(group, b) by {
                if b < n - 1 {
                    assert(half.new[b] == bytes_of(group, b));
                }
            }
        }
    } else {
        assert(plan =~= Seq::empty());
        lemma_no_action(files, group);
    }
}

/// Giving the new files their places.
proof fn lemma_renamed_files(files: GroupFiles, group: ImmutableStoreGroup, n: int)
    requires
        0 <= n <= group.bucket_count <= 256,
    ensures
        ({
            let plan = group.rewritten_below(n).map_values(|b: usize| FlushAction::RenameNew(b));
            let after = files.carried_out(plan, group);
            &&& after == (GroupFiles { bucket: after.bucket, new: after.new, ..files })
            &&& forall|b: int| n <= b ==> #[trigger] after.new[b] == files.new[b]
            &&& forall|b: int|
                #[trigger] after.file(b) == if 0 <= b < n && group.rewrites(b) {
                    Some(files.new[b])
                } else {
                    files.file(b)
                }
        }),
    decreases n,
{
    let rename = |b: usize| FlushAction::RenameNew(b);
    let plan = group.rewritten_below(n).map_values(rename);
    if n > 0 {
        lemma_renamed_files(files, group, n - 1);
        let before = group.rewritten_below(n - 1).map_values(rename);
        let half = files.carried_out(before, group);
        if group.rewrites(n - 1) {
            let action = FlushAction::RenameNew((n - 1) as usize);
            assert(plan =~= before.push(action));
            lemma_one_more_action(files, before, action, group);
            let after = files.carried_out(plan, group);
            assert(after == half.done(action, group));
            assert(half.new[n - 1] == files.new[n - 1]);
            assert forall|b: int| #[trigger] after.file(b) == if 0 <= b < n && group.rewrites(b) {
                Some(files.new[b])
            } else {
                files.file(b)
            } by {
                assert(half.file(b) == if 0 <= b < n - 1 && group.rewrites(b) {
                    Some(files.new[b])
                } else {
                    files.file(b)
                });
            }
        }
    } else {
        assert(plan =~= Seq::empty());
        lemma_no_action(files, group);
    }
}

/// Writing the files in their places.
proof fn lemma_written_files(files: GroupFiles, group: ImmutableStoreGroup, n: int)
    requires
        0 <= n <= group.bucket_count <= 256,
    ensures
        ({
            let plan = group.written_below(n).map_values(|b: usize| FlushAction::WriteBucket(b));
            let after = files.carried_out(plan, group);
            &&& after == (GroupFiles { bucket: after.bucket, ..files })
            &&& forall|b: int|
                #[trigger] after.file(b) == if 0 <= b < n && group.writes(b) {
                    Some(bytes_of(group, b))
                } else {
                    files.file(b)
                }
        }),
    decreases n,
{
    let write = |b: usize| FlushAction::WriteBucket(b);
    let plan = group.written_below(n).map_values(write);
    if n > 0 {
        lemma_written_files(files, group, n - 1);
        let before = group.written_below(n - 1).map_values(write);
        let half = files.carried_out(before, group);
        if group.writes(n - 1) {
            let action = FlushAction::WriteBucket((n - 1) as usize);
            assert(plan =~= before.push(action));
            lemma_one_more_action(files, before, action, group);
            let after = files.carried_out(plan, group);
            assert(after == half.done(action, group));
            assert forall|b: int| #[trigger] after.file(b) == if 0 <= b < n && group.writes(b) {
                Some(bytes_of(group, b))
            } else {
                files.file(b)
            } by {
                assert(half.file(b) == if 0 <= b < n - 1 && group.writes(b) {
                    Some(bytes_of(group, b))
                } else {
                    files.file(b)
                });
            }
        }
    } else {
        assert(plan =~= Seq::empty());
        lemma_no_action(files, group);
    }
}

/// The new files of a change of the number of buckets, once they took their places.
proof fn lemma_new_layout(files: GroupFiles, group: ImmutableStoreGroup, b: int)
    requires
        group.bucket_count <= 256,
    ensures
        ({
            let level = group.bucket_count;
            let new = group.rewritten_below(level as int);
            let written = new.map_values(|c: usize| FlushAction::WriteNew(c));
            let renamed = new.map_values(|c: usize| FlushAction::RenameNew(c));
            let f1 = files.carried_out(written, group);
            let f2 = f1.done(FlushAction::WritePending(level), group);
            let f3 = f2.carried_out(renamed, group);
            f3.file(b) == if group.rewrites(b) {
                Some(bytes_of(group, b))
            } else {
                files.file(b)
            }
        }),
{
    let level = group.bucket_count;
    let n = level as int;
    let new = group.rewritten_below(n);
    let f1 = files.carried_out(new.map_values(|c: usize| FlushAction::WriteNew(c)), group);
    let f2 = f1.done(FlushAction::WritePending(level), group);
    lemma_new_files(files, group, n);
    lemma_renamed_files(f2, group, n);
    let f3 = f2.carried_out(new.map_values(|c: usize| FlushAction::RenameNew(c)), group);
    assert(f3.file(b) == if 0 <= b < n && group.rewrites(b) {
        Some(f2.new[b])
    } else {
        f2.file(b)
    });
    if group.rewrites(b) {
        assert(f1.new[b] == bytes_of(group, b));
    }
    assert(f2.file(b) == files.file(b));
}

/// The steps of a change of the number of buckets.
proof fn lemma_steps_of_a_change(files: GroupFiles, group: ImmutableStoreGroup)
    ensures
        ({
            let level = group.bucket_count;
            let new = group.rewritten_below(level as int);
            let written = new.map_values(|c: usize| FlushAction::WriteNew(c));
            let renamed = new.map_values(|c: usize| FlushAction::RenameNew(c));
            let f1 = files.carried_out(written, group);
            let f2 = f1.done(FlushAction::WritePending(level), group);
            let f3 = f2.carried_out(renamed, group);
            files.carried_out(
                written + seq![FlushAction::WritePending(level)] + renamed + seq![
                    FlushAction::WriteMarker(level),
                    FlushAction::DeletePending,
                ],
                group,
            ) == f3.done(FlushAction::WriteMarker(level), group).done(
                FlushAction::DeletePending,
                group,
            )
        }),
{
    let level = group.bucket_count;
    let new = group.rewritten_below(level as int);
    let written = new.map_values(|c: usize| FlushAction::WriteNew(c));
    let renamed = new.map_values(|c: usize| FlushAction::RenameNew(c));
    let pending = seq![FlushAction::WritePending(level)];
    let marker = seq![FlushAction::WriteMarker(level)];
    let delete = seq![FlushAction::DeletePending];
    let last = seq![FlushAction::WriteMarker(level), FlushAction::DeletePending];
    let f1 = files.carried_out(written, group);
    let f2 = f1.done(FlushAction::WritePending(level), group);
    let f3 = f2.carried_out(renamed, group);
    lemma_one_after_the_other(files, written, pending, group);
    lemma_one_action(f1, FlushAction::WritePending(level), group);
    lemma_one_after_the_other(files, written + pending, renamed, group);
    lemma_one_after_the_other(files, written + pending + renamed, last, group);
    assert(last =~= marker + delete);
    lemma_one_after_the_other(f3, marker, delete, group);
    lemma_one_action(f3, FlushAction::WriteMarker(level), group);
    lemma_one_action(
        f3.done(FlushAction::WriteMarker(level), group),
        FlushAction::DeletePending,
        group,
    );
}

/// What a flush leaves on disk: the file of every bucket that it writes is that bucket, every other
/// file is as it was, and the marker follows where the number of buckets changed.
pub proof fn law_flush_leaves_the_buckets_on_disk(
    files: GroupFiles,
    group: ImmutableStoreGroup,
    sync_data: bool,
    b: int,
)
    requires
        group.wf(),
    ensures
        ({
            let after = files.carried_out(group.flush_plan(sync_data, false), group);
            let written = if group.two_phase() {
                group.rewrites(b)
            } else {
                group.writes(b)
            };
            &&& after.file(b) == if written {
                Some(bytes_of(group, b))
            } else {
                files.file(b)
            }
            &&& after.marker == if group.two_phase() {
                Some(group.bucket_count)
            } else {
                files.marker
            }
        }),
{
    let n = group.bucket_count as int;
    let level = group.bucket_count;
    let plan = group.flush_plan(sync_data, false);
    let first = if sync_data {
        seq![FlushAction::FlushPackstore]
    } else {
        Seq::empty()
    };
    assert(files.carried_out(first, group) == files) by {
        if sync_data {
            lemma_one_action(files, FlushAction::FlushPackstore, group);
        } else {
            lemma_no_action(files, group);
        }
    }
    if group.two_phase() {
        let new = group.rewritten_below(n);
        let a = first + seq![FlushAction::CreateDirectory];
        assert(files.carried_out(a, group) == files) by {
            lemma_one_after_the_other(files, first, seq![FlushAction::CreateDirectory], group);
            lemma_one_action(files, FlushAction::CreateDirectory, group);
        }
        if new.len() == 0 {
            let marker = seq![FlushAction::WriteMarker(level)];
            assert(plan =~= a + marker);
            lemma_one_after_the_other(files, a, marker, group);
            lemma_one_action(files, FlushAction::WriteMarker(level), group);
            lemma_listed(group, n, b);
        } else {
            let written = new.map_values(|c: usize| FlushAction::WriteNew(c));
            let renamed = new.map_values(|c: usize| FlushAction::RenameNew(c));
            let rest = written + seq![FlushAction::WritePending(level)] + renamed + seq![
                FlushAction::WriteMarker(level),
                FlushAction::DeletePending,
            ];
            assert(plan =~= a + rest);
            lemma_one_after_the_other(files, a, rest, group);
            lemma_steps_of_a_change(files, group);
            lemma_new_layout(files, group, b);
        }
    } else {
        let written = group.written_below(n).map_values(|c: usize| FlushAction::WriteBucket(c));
        assert(plan =~= first + written);
        lemma_one_after_the_other(files, first, written, group);
        lemma_written_files(files, group, n);
        assert(files.carried_out(written, group).file(b) == if 0 <= b < n && group.writes(b) {
            Some(bytes_of(group, b))
        } else {
            files.file(b)
        });
    }
}

/// Where nothing is listed nothing is to be written.
proof fn lemma_listed(group: ImmutableStoreGroup, n: int, b: int)
    requires
        0 <= n <= group.bucket_count,
        group.rewritten_below(n).len() == 0,
    ensures
        0 <= b < n ==> !group.rewrites(b),
    decreases n,
{
    if n > 0 {
        lemma_listed(group, n - 1, b);
    }
}

/// A group that is flushed and opened again, in the number of buckets that it had, finds at an
/// address what it had there, evicted and obliterated entries among them: those that are gone stay
/// gone. Of what was on disk before, only the bucket of the address counts, and that only where the
/// flush does not write it.
pub proof fn law_flushed_groups_are_read_back(
    files: GroupFiles,
    group: ImmutableStoreGroup,
    sync_data: bool,
    partition: Partition,
    address: Address,
)
    requires
        group.wf(),
        group.serialize_version == ImmutableStoreVersion::LastAccessInEntry.value()
            || group.serialize_version == ImmutableStoreVersion::LazyFanOut.value(),
        files.lags_behind(group, bucket_of(address.hash, group.bucket_count as int)),
    ensures
        ({
            let after = files.carried_out(group.flush_plan(sync_data, false), group);
            let level = group.bucket_count as int;
            &&& after.holds(group, bucket_of(address.hash, level))
            &&& after.data_in(level, partition, address) == group.data_in(partition, address)
            &&& group.two_phase() ==> after.marker == Some(group.bucket_count)
        }),
{
    let b = bucket_of(address.hash, group.bucket_count as int);
    law_flush_leaves_the_buckets_on_disk(files, group, sync_data, b);
    assert(0 <= b < group.bucket_count);
    assert(!group.touched@[b] ==> !group.dirty@[b]);
    if group.dirty@[b] || (group.two_phase() && b < group.committed_level) {
        law_buckets_survive_a_restart(group, b);
        assert(group.bucket@[b].wf());
    }
}

} // verus!
