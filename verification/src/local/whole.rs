//! What holds of the store as a whole, across its groups and buckets.
use vstd::prelude::*;

use crate::local::bucket::{
    in_order, law_lookup_finds_the_best_match, lemma_search_by_keys, sorted,
};
use crate::local::codec::{
    file_bytes, law_bucket_file_round_trip, recovered, BucketFileView, ImmutableStoreVersion,
};
use crate::local::copy::{law_copy_leaves_other_addresses, CopyRequest};
use crate::local::data::ImmutableStoreEntry;
use crate::local::group::{contents_fit, ImmutableStoreGroup};
use crate::local::immutable_store::LocalImmutableStore;
use crate::local::obliterate::obliterate_result;
use crate::local::store::{law_store_leaves_other_hashes, law_stored_fragment_is_found, StoreRequest};
use crate::types::{key_of, Address, Partition, StoreMatch};

verus! {

/// A change in the bucket of one hash leaves the entries of every other bucket as they were.
pub proof fn lemma_other_buckets_stay(
    before: LocalImmutableStore,
    after: LocalImmutableStore,
    hash: crate::types::Hash,
    slots: Seq<ImmutableStoreEntry>,
    dirty: bool,
    other: crate::types::Hash,
)
    requires
        before.wf(),
        LocalImmutableStore::updated(before, after, hash, slots, dirty),
    ensures
        if other.first_byte() == hash.first_byte() && before.group_of(hash).home(other)
            == before.group_of(hash).home(hash) {
            after.slots_of(other) == slots && before.slots_of(other) == before.slots_of(hash)
        } else {
            after.slots_of(other) == before.slots_of(other)
        },
{
    let g = hash.first_byte();
    let h = other.first_byte();
    if g == h {
        let group = before.group@[g];
        assert(group.wf());
        let b = group.home(other);
        assert(0 <= b < 256);
        if b != group.home(hash) {
            assert(after.group@[g].bucket@[b] == group.bucket@[b]);
        }
    } else {
        assert(after.group@[h] == before.group@[h]);
    }
}

/// The bucket of a hash is in order.
pub proof fn lemma_bucket_of_hash(store: LocalImmutableStore, hash: crate::types::Hash)
    requires
        store.wf(),
    ensures
        store.group_of(hash).wf(),
        store.bucket_at(hash).wf(),
        sorted(store.slots_of(hash)),
{
    assert(store.group_of(hash).wf());
    assert(store.group_of(hash).bucket@[store.group_of(hash).home(hash)].wf());
}

/// A fragment that the store recorded is recorded at its very address.
pub proof fn law_store_records_the_fragment(
    before: LocalImmutableStore,
    after: LocalImmutableStore,
    request: StoreRequest,
    dirty: bool,
)
    requires
        before.wf(),
        request.result(before.slots_of(request.address.hash)).0 is Ok,
        request.result(before.slots_of(request.address.hash)).0->Ok_0 is Stored,
        LocalImmutableStore::updated(
            before,
            after,
            request.address.hash,
            request.result(before.slots_of(request.address.hash)).1,
            dirty,
        ),
    ensures
        after.data_in(request.partition, request.address) == Some(
            request.record(before.slots_of(request.address.hash)),
        ),
{
    let hash = request.address.hash;
    assert(before.group_of(hash).wf());
    assert(before.group_of(hash).bucket@[before.group_of(hash).home(hash)].wf());
    lemma_other_buckets_stay(
        before,
        after,
        hash,
        request.result(before.slots_of(hash)).1,
        dirty,
        hash,
    );
    law_stored_fragment_is_found(request, before.slots_of(hash));
}

/// Recording a fragment leaves what the store records at every address of another hash as it was.
pub proof fn law_storing_leaves_the_rest_of_the_store(
    before: LocalImmutableStore,
    after: LocalImmutableStore,
    request: StoreRequest,
    dirty: bool,
    partition: Partition,
    address: Address,
)
    requires
        before.wf(),
        address.hash != request.address.hash,
        LocalImmutableStore::updated(
            before,
            after,
            request.address.hash,
            request.result(before.slots_of(request.address.hash)).1,
            dirty,
        ),
    ensures
        after.data_in(partition, address) == before.data_in(partition, address),
{
    let hash = request.address.hash;
    let s = before.slots_of(hash);
    assert(before.group_of(hash).wf());
    assert(before.group_of(hash).bucket@[before.group_of(hash).home(hash)].wf());
    lemma_other_buckets_stay(before, after, hash, request.result(s).1, dirty, address.hash);
    law_store_leaves_other_hashes(request, s, partition, address);
}

/// Copying an entry leaves what the store records at every other address as it was, its source among
/// them.
pub proof fn law_copying_leaves_the_rest_of_the_store(
    before: LocalImmutableStore,
    after: LocalImmutableStore,
    request: CopyRequest,
    dirty: bool,
    partition: Partition,
    address: Address,
)
    requires
        before.wf(),
        key_of(partition, address) != key_of(request.destination_partition, request.destination()),
        LocalImmutableStore::updated(
            before,
            after,
            request.source_address.hash,
            request.result(before.slots_of(request.source_address.hash)).1,
            dirty,
        ),
    ensures
        after.data_in(partition, address) == before.data_in(partition, address),
{
    let hash = request.source_address.hash;
    let s = before.slots_of(hash);
    assert(before.group_of(hash).wf());
    assert(before.group_of(hash).bucket@[before.group_of(hash).home(hash)].wf());
    lemma_other_buckets_stay(before, after, hash, request.result(s).1, dirty, address.hash);
    law_copy_leaves_other_addresses(request, s, partition, address);
}

/// Obliterating an entry leaves what the store records at every other address as it was.
pub proof fn law_obliterating_leaves_the_rest_of_the_store(
    before: LocalImmutableStore,
    after: LocalImmutableStore,
    partition: Partition,
    address: Address,
    erased: bool,
    dirty: bool,
    other_partition: Partition,
    other: Address,
)
    requires
        before.wf(),
        key_of(other_partition, other) != key_of(partition, address),
        LocalImmutableStore::updated(
            before,
            after,
            address.hash,
            obliterate_result(before.slots_of(address.hash), partition, address, erased).1,
            dirty,
        ),
    ensures
        after.data_in(other_partition, other) == before.data_in(other_partition, other),
{
    let hash = address.hash;
    let s = before.slots_of(hash);
    let t = obliterate_result(s, partition, address, erased).1;
    assert(before.group_of(hash).wf());
    assert(before.group_of(hash).bucket@[before.group_of(hash).home(hash)].wf());
    law_lookup_finds_the_best_match(s, partition, address, StoreMatch::MatchFull);
    lemma_other_buckets_stay(before, after, hash, t, dirty, other.hash);
    lemma_search_by_keys(
        s,
        t,
        other_partition,
        other,
        StoreMatch::MatchFull,
        0,
        s.len() as int,
        0,
        StoreMatch::MatchNone,
    );
    law_lookup_finds_the_best_match(s, other_partition, other, StoreMatch::MatchFull);
}

/// What a bucket writes to its file is the bucket again when the file is read: the file fits the
/// bucket, has the same entries in the same order, and is not to be removed.
pub proof fn law_buckets_survive_a_restart(group: ImmutableStoreGroup, b: int)
    requires
        group.wf(),
        0 <= b < group.bucket_count,
        group.serialize_version == ImmutableStoreVersion::LastAccessInEntry.value()
            || group.serialize_version == ImmutableStoreVersion::LazyFanOut.value(),
    ensures
        ({
            let bucket = group.bucket@[b];
            let file = file_bytes(
                group.serialize_version,
                bucket.sorted_index@,
                bucket.entry@,
            );
            let contents = BucketFileView {
                sorted_index: bucket.sorted_index@,
                entry: bucket.entry@,
                upgrade_packfile: false,
                mark_dirty: false,
            };
            &&& recovered(Some(file)) == Ok::<
                (BucketFileView, bool),
                crate::error::LocalImmutableStoreError,
            >((contents, false))
            &&& contents_fit(contents, group.bucket_count as int, b)
            &&& in_order(contents.entry, contents.sorted_index) == bucket.slots()
        }),
{
    let bucket = group.bucket@[b];
    assert(bucket.wf());
    let version = if group.serialize_version == ImmutableStoreVersion::LazyFanOut.value() {
        ImmutableStoreVersion::LazyFanOut
    } else {
        ImmutableStoreVersion::LastAccessInEntry
    };
    law_bucket_file_round_trip(version, bucket.sorted_index@, bucket.entry@);
    assert(in_order(bucket.entry@, bucket.sorted_index@) =~= bucket.slots());
}

} // verus!
