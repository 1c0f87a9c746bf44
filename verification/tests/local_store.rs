//! The store on this machine.
use lore::error::{InternalError, LocalImmutableStoreError, StoreError};
use lore::fragment_engine::FragmentReference;
use lore::local::bucket::ImmutableStoreBucket;
use lore::local::copy::CopyRequest;
use lore::local::data::{ImmutableData, ImmutableStoreEntry};
use lore::local::group::{
    bucket_index_for, ImmutableStoreGroup, FAN_OUT_LEVEL_MAX, FAN_OUT_THRESHOLD_DEFAULT,
};
use lore::local::immutable_store::{
    ImmutableStoreSettings, LocalImmutableStore, Step, StoreLayout,
};
use lore::local::obliterate::{ObliterateOutcome, StoreObliterateStats};
use lore::local::obliterate_walk::{ObliteratePass, ObliterateStep};
use lore::local::put::sanitise_fragment_behavior_flags;
use lore::local::store::{StoreOutcome, StoreRequest};
use lore::types::{
    Address, Context, Fragment, PackRef, Partition, StoreMatch, PAYLOAD_COMPRESSED_ZSTD,
    PAYLOAD_FRAGMENTED, PAYLOAD_OBLITERATED, PAYLOAD_STORED_DURABLE, PAYLOAD_STORED_LOCAL,
};

const THRESHOLD: usize = 65536;

fn memory_layout() -> StoreLayout {
    StoreLayout {
        on_disk: false,
        index_existed: false,
        markers: vec![None; 256],
        directories: vec![],
        verify_write: None,
    }
}

fn store() -> LocalImmutableStore {
    LocalImmutableStore::new(&memory_layout(), ImmutableStoreSettings::default())
}

fn address(first: u8, rest: u8, context: u8) -> Address {
    let mut hash = [rest; 32];
    hash[0] = first;
    Address {
        hash: lore::types::Hash::from_bytes(&hash),
        context: Context::from_bytes(&[context; 16]),
    }
}

fn partition(n: u8) -> Partition {
    Partition::from_bytes(&[n; 16])
}

fn request(part: u8, addr: Address, flags: u32, payload: bool, at: Option<(u32, u32)>) -> StoreRequest {
    StoreRequest {
        partition: partition(part),
        address: addr,
        fragment: Fragment {
            flags,
            size_payload: 64,
            size_content: 64,
        },
        payload: if payload { Some(64) } else { None },
        force: false,
        size_threshold: THRESHOLD,
        allow_partial: true,
        packed: at.map(|(id, offset)| PackRef { id, offset }),
        now: 1000,
    }
}

fn done<T>(step: Step<T>) -> T {
    match step {
        Step::Done(value) => value,
        Step::LoadBucket { group, bucket } => panic!("asks for {group} {bucket}"),
    }
}

fn payload_data(pack_file: u32, encoding: u32, storage: u32) -> ImmutableData {
    ImmutableData {
        flags: encoding | storage,
        size_payload: if pack_file == 0 { 0 } else { 100 },
        size_content: 256,
        pack_offset: if pack_file == 0 { 0 } else { 200 },
        pack_file,
        last_access: 0,
    }
}

#[test]
fn immutable_store_settings_default_includes_fan_out_fields() {
    let s = ImmutableStoreSettings::default();
    assert_eq!(s.initial_fan_out_level, 1);
    assert_eq!(s.fan_out_threshold, FAN_OUT_THRESHOLD_DEFAULT);
    assert!(s.allow_partial_fragment && s.protect_local_fragment);
    assert_eq!(s.flush_delay_seconds, 5);
    assert_eq!(s.compaction_parallel_groups, 8);
}

#[test]
fn store_initializes_group_bucket_count_from_settings_level_1() {
    for group in &store().group {
        assert_eq!(group.bucket_count, 1);
    }
}

#[test]
fn store_initializes_group_bucket_count_from_settings_level_256() {
    let mut settings = ImmutableStoreSettings::default();
    settings.initial_fan_out_level = FAN_OUT_LEVEL_MAX;
    let store = LocalImmutableStore::new(&memory_layout(), settings);
    for group in &store.group {
        assert_eq!(group.bucket_count, FAN_OUT_LEVEL_MAX);
    }
}

#[test]
fn opening_decides_levels_and_version() {
    // A store from before markers keeps its flat layout and its version.
    let mut layout = memory_layout();
    layout.on_disk = true;
    layout.index_existed = true;
    let old = LocalImmutableStore::new(&layout, ImmutableStoreSettings::default());
    assert!(old.group.iter().all(|g| g.bucket_count == 256
        && g.committed_level == 0
        && g.serialize_version == 4));
    // A marker decides for its group, and the version for all.
    layout.markers[7] = Some(16);
    let marked = LocalImmutableStore::new(&layout, ImmutableStoreSettings::default());
    assert_eq!(marked.group[7].bucket_count, 16);
    assert_eq!(marked.group[7].committed_level, 16);
    assert_eq!(marked.group[8].bucket_count, 256);
    assert_eq!(marked.group[8].serialize_version, 5);
    // A fresh store starts at the level of its settings.
    layout.markers[7] = None;
    layout.index_existed = false;
    let fresh = LocalImmutableStore::new(&layout, ImmutableStoreSettings::default());
    assert!(fresh
        .group
        .iter()
        .all(|g| g.bucket_count == 1 && g.serialize_version == 5));
}

#[test]
fn invalid_percentages_become_the_default() {
    for (given, taken) in [(0usize, 70usize), (100, 70), (1000, 70), (1, 1), (99, 99)] {
        let mut settings = ImmutableStoreSettings::default();
        settings.target_size_percentage = given;
        settings.target_capacity_percentage = given;
        let store = LocalImmutableStore::new(&memory_layout(), settings);
        assert_eq!(store.settings.target_size_percentage, taken);
        assert_eq!(store.settings.target_capacity_percentage, taken);
    }
}

#[test]
fn the_environment_can_switch_on_reading_back() {
    for (value, on) in [("1", true), ("true", true), ("TrUe", true), ("0", false), ("", false), ("yes", false)] {
        let mut layout = memory_layout();
        layout.verify_write = Some(value.as_bytes().to_vec());
        let store = LocalImmutableStore::new(&layout, ImmutableStoreSettings::default());
        assert_eq!(store.settings.verify_write, on, "{value}");
    }
}

#[test]
fn merge_from_copy_source_adopts_payload_and_encoding() {
    let mut target = payload_data(1, 0, 0);
    let source = payload_data(2, PAYLOAD_COMPRESSED_ZSTD, 0);

    target.merge_from_copy_source(source, false);

    assert_eq!(target.pack_file, 2);
    assert_eq!(target.pack_offset, 200);
    assert_eq!(target.size_payload, 100);
    assert_ne!(target.flags & PAYLOAD_COMPRESSED_ZSTD, 0);
    assert_ne!(target.flags & PAYLOAD_STORED_LOCAL, 0);
}

#[test]
fn merge_from_copy_source_preserves_target_durable() {
    let mut target = payload_data(0, 0, PAYLOAD_STORED_DURABLE);
    let source = payload_data(2, 0, PAYLOAD_STORED_DURABLE);

    target.merge_from_copy_source(source, false);

    assert_ne!(target.flags & PAYLOAD_STORED_DURABLE, 0);
}

#[test]
fn merge_from_copy_source_durable_only_from_caller() {
    let source = payload_data(2, 0, PAYLOAD_STORED_DURABLE);

    let mut local_only = payload_data(0, 0, 0);
    local_only.merge_from_copy_source(source, false);
    assert_eq!(local_only.flags & PAYLOAD_STORED_DURABLE, 0);

    let mut remote_confirmed = payload_data(0, 0, 0);
    remote_confirmed.merge_from_copy_source(source, true);
    assert_ne!(remote_confirmed.flags & PAYLOAD_STORED_DURABLE, 0);
}

#[test]
fn a_payload_is_asked_for_and_then_recorded() {
    let mut store = store();
    let a = address(3, 1, 1);
    let mut r = request(1, a, 0, true, None);
    assert_eq!(done(store.put(&r, Ok(()))), Ok(StoreOutcome::NeedsPayload));
    r.packed = Some(PackRef { id: 2, offset: 30 });
    let recorded = ImmutableData {
        flags: 0,
        size_payload: 64,
        size_content: 64,
        pack_offset: 30,
        pack_file: 2,
        last_access: 1000,
    };
    assert_eq!(
        done(store.put(&r, Ok(()))),
        Ok(StoreOutcome::Stored(recorded))
    );
    // It is there now.
    let (fragment, data) = done(store.get(partition(1), a, StoreMatch::MatchFull, 0)).unwrap();
    assert_eq!(fragment.size_content, 64);
    assert_eq!(data, recorded);
    assert_eq!(LocalImmutableStore::load(&data).unwrap(), (2, 30, 64));
    // A second put has nothing to add.
    r.packed = None;
    assert_eq!(done(store.put(&r, Ok(()))), Ok(StoreOutcome::Kept));
    assert_eq!(store.fragment_count(), 1);
    assert!(store.group[3].dirty[0]);
}

#[test]
fn one_payload_serves_all_entries_of_a_hash() {
    let mut store = store();
    // Metadata first, in two places, then the payload in a third.
    for (p, c) in [(1u8, 9u8), (2, 5)] {
        let outcome = done(store.store(&request(p, address(8, 1, c), 0, false, None))).unwrap();
        match outcome {
            StoreOutcome::Stored(data) => assert_eq!(data.pack_file, 0),
            other => panic!("{other:?}"),
        }
    }
    let r = request(3, address(8, 1, 7), PAYLOAD_STORED_LOCAL, true, Some((4, 40)));
    done(store.store(&r)).unwrap();
    for (p, c) in [(1u8, 9u8), (2, 5), (3, 7)] {
        let found = done(store.find(partition(p), address(8, 1, c), StoreMatch::MatchFull, 0)).unwrap();
        assert_eq!((found.data.pack_file, found.data.pack_offset), (4, 40));
        assert_ne!(found.data.flags & PAYLOAD_STORED_LOCAL, 0);
    }
    // A new entry shares it without another write.
    let shared = done(store.store(&request(4, address(8, 1, 1), 0, true, None))).unwrap();
    match shared {
        StoreOutcome::Stored(data) => assert_eq!((data.pack_file, data.pack_offset), (4, 40)),
        other => panic!("{other:?}"),
    }
}

#[test]
fn lookups_find_the_best_match() {
    let mut store = store();
    done(store.store(&request(1, address(8, 1, 9), 0, true, Some((1, 1))))).unwrap();
    let cases = [
        (1u8, address(8, 1, 9), StoreMatch::MatchFull, StoreMatch::MatchFull),
        (1, address(8, 1, 8), StoreMatch::MatchFull, StoreMatch::MatchPartition),
        (2, address(8, 1, 9), StoreMatch::MatchFull, StoreMatch::MatchHash),
        (1, address(8, 2, 9), StoreMatch::MatchFull, StoreMatch::MatchNone),
        (1, address(8, 1, 9), StoreMatch::MatchHash, StoreMatch::MatchHash),
        (1, address(8, 1, 9), StoreMatch::MatchPartition, StoreMatch::MatchPartition),
    ];
    for (p, a, asked, made) in cases {
        assert_eq!(done(store.exist(partition(p), a, asked, 0)), Ok(made));
    }
    assert_eq!(
        done(store.exist(partition(1), address(8, 1, 9), StoreMatch::MatchNone, 0)),
        Err(StoreError::Internal(InternalError::InvalidQuery))
    );
    let batch = done(store.exist_batch(
        partition(1),
        &vec![address(8, 1, 9), address(9, 9, 9), address(8, 1, 1)],
        StoreMatch::MatchFull,
        0,
    ));
    assert_eq!(
        batch,
        Ok(vec![
            StoreMatch::MatchFull,
            StoreMatch::MatchNone,
            StoreMatch::MatchPartition
        ])
    );
}

#[test]
fn queries_say_where_a_fragment_is_stored() {
    let mut store = store();
    done(store.store(&request(1, address(8, 1, 9), 0, true, Some((1, 1))))).unwrap();
    let local = done(store.query(partition(1), address(8, 1, 9), StoreMatch::MatchFull, 0)).unwrap();
    assert_eq!(local.fragment.flags, PAYLOAD_STORED_LOCAL);
    store.settings.implicit_durable_stored = true;
    let both = done(store.query(partition(1), address(8, 1, 9), StoreMatch::MatchFull, 0)).unwrap();
    assert_eq!(
        both.fragment.flags,
        PAYLOAD_STORED_LOCAL | PAYLOAD_STORED_DURABLE
    );
}

#[test]
fn reads_stamp_the_time_only_where_asked_to() {
    let mut store = store();
    done(store.store(&request(1, address(8, 1, 9), 0, true, Some((1, 1))))).unwrap();
    store.group[8].dirty[0] = false;
    done(store.find(partition(1), address(8, 1, 9), StoreMatch::MatchFull, 5000)).unwrap();
    assert_eq!(store.group[8].bucket[0].entry[0].data.last_access, 1000);
    assert!(!store.group[8].dirty[0]);
    store.settings.atime = true;
    done(store.find(partition(1), address(8, 1, 9), StoreMatch::MatchFull, 5000)).unwrap();
    assert_eq!(store.group[8].bucket[0].entry[0].data.last_access, 5000);
    assert!(store.group[8].dirty[0]);
    done(store.exist_batch(partition(1), &vec![address(8, 1, 9)], StoreMatch::MatchFull, 6000)).unwrap();
    assert_eq!(store.group[8].bucket[0].entry[0].data.last_access, 6000);
}

#[test]
fn readers_learn_why_there_is_nothing() {
    let mut store = store();
    let a = address(8, 1, 9);
    assert_eq!(
        done(store.get(partition(1), a, StoreMatch::MatchFull, 0)),
        Err(StoreError::AddressNotFound(a))
    );
    done(store.store(&request(1, a, 0, false, None))).unwrap();
    assert_eq!(
        done(store.get(partition(1), a, StoreMatch::MatchFull, 0)),
        Err(StoreError::PayloadNotFound(a.hash))
    );
    assert_eq!(
        LocalImmutableStore::load(&ImmutableData::default()),
        Err(LocalImmutableStoreError::Internal(InternalError::NoLocalData))
    );
}

#[test]
fn invalid_fragments_are_refused() {
    let mut store = store();
    let a = address(8, 1, 9);
    let mut r = request(1, a, 0, true, None);
    r.fragment.size_payload = 0;
    assert_eq!(
        done(store.store(&r)),
        Err(LocalImmutableStoreError::Internal(InternalError::InvalidPayload))
    );
    r.fragment.size_payload = THRESHOLD as u32 + 1;
    assert_eq!(
        done(store.store(&r)),
        Err(LocalImmutableStoreError::Internal(InternalError::FragmentTooLarge))
    );
    r.fragment.size_payload = 65;
    assert_eq!(
        done(store.store(&r)),
        Err(LocalImmutableStoreError::Internal(InternalError::PayloadLengthMismatch))
    );
    r.fragment.size_payload = THRESHOLD as u32 + 1;
    r.payload = None;
    assert_eq!(done(store.put(&r, Ok(()))), Err(StoreError::Oversized));
    let mut bare = request(1, a, 0, false, None);
    bare.allow_partial = false;
    assert_eq!(
        done(store.store(&bare)),
        Err(LocalImmutableStoreError::Internal(InternalError::PayloadRequired))
    );
    let checked = request(1, a, 0, true, None);
    assert_eq!(
        done(store.put(&checked, Err(StoreError::Oversized))),
        Err(StoreError::Oversized)
    );
    assert_eq!(store.fragment_count(), 0);
}

#[test]
fn two_contents_of_one_hash_collide() {
    let mut store = store();
    let a = address(8, 1, 9);
    done(store.store(&request(1, a, 0, true, Some((1, 1))))).unwrap();
    let mut r = request(2, a, 0, true, None);
    r.fragment.size_content = 99;
    assert_eq!(
        done(store.store(&r)),
        Err(LocalImmutableStoreError::Internal(InternalError::HashCollision))
    );
    assert_eq!(
        done(store.put(&r, Ok(()))),
        Err(StoreError::Internal(InternalError::HashCollision))
    );
}

#[test]
fn a_put_keeps_what_is_known_of_durability() {
    let mut store = store();
    let a = address(8, 1, 9);
    done(store.put(&request(1, a, PAYLOAD_STORED_DURABLE, false, None), Ok(()))).unwrap();
    // A local write of the payload races the durable one.
    done(store.put(&request(1, a, 0, true, Some((1, 1))), Ok(()))).unwrap();
    let found = done(store.find(partition(1), a, StoreMatch::MatchFull, 0)).unwrap();
    assert_eq!(found.data.pack_file, 1);
    assert_ne!(found.data.flags & PAYLOAD_STORED_DURABLE, 0);
}

#[test]
fn force_writes_a_payload_though_one_is_there() {
    let mut store = store();
    let a = address(8, 1, 9);
    done(store.put(&request(1, a, 0, true, Some((1, 1))), Ok(()))).unwrap();
    let mut r = request(1, a, 0, true, None);
    r.force = true;
    assert_eq!(done(store.put(&r, Ok(()))), Ok(StoreOutcome::NeedsPayload));
    r.packed = Some(PackRef { id: 5, offset: 50 });
    done(store.put(&r, Ok(()))).unwrap();
    let found = done(store.find(partition(1), a, StoreMatch::MatchFull, 0)).unwrap();
    assert_eq!((found.data.pack_file, found.data.pack_offset), (5, 50));
}

#[test]
fn what_is_left_after_a_write_follows_the_settings() {
    let mut store = store();
    let mut data = payload_data(1, 0, 0);
    assert!(store.after_store(&data, true).flush);
    assert!(!store.after_store(&data, false).flush);
    assert!(!store.after_store(&data, true).verify);
    data.flags = PAYLOAD_STORED_DURABLE;
    assert!(!store.after_store(&data, true).flush);
    store.settings.flush_background = true;
    assert!(store.after_store(&data, true).flush);
    store.settings.verify_write = true;
    assert!(store.after_store(&data, true).verify);
    data.flags = PAYLOAD_OBLITERATED;
    assert!(!store.after_store(&data, true).verify);
    let hash = address(1, 2, 3).hash;
    assert!(LocalImmutableStore::check_written(Some(hash), hash).is_ok());
    assert!(LocalImmutableStore::check_written(None, hash).is_err());
    assert!(LocalImmutableStore::check_written(Some(address(1, 3, 3).hash), hash).is_err());
}

fn copy_request(from: u8, a: Address, to: u8, context: u8, now: u64) -> CopyRequest {
    CopyRequest {
        source_partition: partition(from),
        source_address: a,
        destination_partition: partition(to),
        destination_context: Context::from_bytes(&[context; 16]),
        durable: false,
        now,
    }
}

#[test]
fn copy_adopts_source_payload_and_decompresses_through_target_partition() {
    let mut store = store();
    let a = address(8, 1, 3);
    // The target has the content as it is, the source compressed.
    done(store.store(&request(1, a, 0, true, Some((1, 10))))).unwrap();
    let mut source = request(2, a, PAYLOAD_COMPRESSED_ZSTD, true, Some((2, 20)));
    source.force = true;
    source.fragment.size_payload = 16;
    source.payload = Some(16);
    done(store.store(&source)).unwrap();
    done(store.copy(&copy_request(2, a, 1, 3, 50))).unwrap();
    let (fragment, data) = done(store.get(partition(1), a, StoreMatch::MatchFull, 0)).unwrap();
    assert_ne!(fragment.flags & PAYLOAD_COMPRESSED_ZSTD, 0);
    assert_eq!((data.pack_file, data.pack_offset, data.size_payload), (2, 20, 16));
}

#[test]
fn copy_same_partition_new_context_adopts_payload_without_transfer() {
    let mut store = store();
    let source = address(8, 1, 0xb1);
    done(store.store(&request(1, source, 0, true, Some((1, 10))))).unwrap();
    done(store.copy(&copy_request(1, source, 1, 0xb2, 50))).unwrap();
    let destination = address(8, 1, 0xb2);
    for a in [destination, source] {
        let (_, data) = done(store.get(partition(1), a, StoreMatch::MatchFull, 0)).unwrap();
        assert_eq!((data.pack_file, data.pack_offset), (1, 10));
    }
    assert_eq!(store.fragment_count(), 2);
}

#[test]
fn copying_twice_changes_nothing_more() {
    let mut store = store();
    let a = address(8, 1, 3);
    assert_eq!(
        done(store.copy(&copy_request(1, a, 2, 4, 50))),
        Err(StoreError::AddressNotFound(a))
    );
    done(store.store(&request(1, a, PAYLOAD_STORED_DURABLE, true, Some((1, 10))))).unwrap();
    done(store.copy(&copy_request(1, a, 2, 4, 50))).unwrap();
    let once: Vec<ImmutableStoreEntry> = store.group[8].bucket[0].entry.clone();
    store.group[8].dirty[0] = false;
    done(store.copy(&copy_request(1, a, 2, 4, 99))).unwrap();
    assert_eq!(store.group[8].bucket[0].entry, once);
    assert!(!store.group[8].dirty[0]);
    assert_eq!(once[1].data.last_access, 50);
    assert_eq!(once[1].data.flags & PAYLOAD_STORED_DURABLE, 0);
}

#[test]
fn obliterating_erases_the_last_use_of_a_payload() {
    let mut store = store();
    let a = address(8, 1, 3);
    let b = address(8, 1, 4);
    let mut stats = StoreObliterateStats { num_fragments: 0, num_payloads: 0 };
    assert_eq!(
        done(store.obliterate(partition(1), a, false, &mut stats)),
        Err(StoreError::AddressNotFound(a))
    );
    done(store.store(&request(1, a, 0, true, Some((1, 10))))).unwrap();
    done(store.store(&request(1, b, 0, true, None))).unwrap();
    // The other entry still uses the payload.
    assert_eq!(
        done(store.obliterate(partition(1), a, false, &mut stats)),
        Ok(ObliterateOutcome::Obliterated)
    );
    assert_eq!(
        done(store.obliterate(partition(1), a, false, &mut stats)),
        Ok(ObliterateOutcome::AlreadyGone)
    );
    match done(store.obliterate(partition(1), b, false, &mut stats)) {
        Ok(ObliterateOutcome::ErasePayload(data)) => {
            assert_eq!((data.pack_file, data.pack_offset, data.size_payload), (1, 10, 64));
        }
        other => panic!("{other:?}"),
    }
    assert_eq!(
        done(store.obliterate(partition(1), b, true, &mut stats)),
        Ok(ObliterateOutcome::Obliterated)
    );
    assert_eq!(stats, StoreObliterateStats { num_fragments: 2, num_payloads: 1 });
    // What callers see of it.
    let found = done(store.find(partition(1), b, StoreMatch::MatchFull, 0)).unwrap();
    assert_eq!(found.data.flags, PAYLOAD_OBLITERATED);
    assert_eq!(found.data.size_content, 0);
    // It can be written again, whatever its size.
    let mut again = request(1, b, 0, true, Some((3, 30)));
    again.fragment.size_content = 77;
    assert!(matches!(done(store.put(&again, Ok(()))), Ok(StoreOutcome::Stored(_))));
}

#[test]
fn lists_are_obliterated_with_their_parts() {
    let mut bucket = ImmutableStoreBucket::new();
    let mut dirty = false;
    let list = address(8, 1, 3);
    bucket.store(&request(1, list, PAYLOAD_FRAGMENTED, true, Some((1, 10))), &mut dirty).unwrap();
    bucket.store(&request(1, address(8, 2, 3), 0, true, Some((1, 90))), &mut dirty).unwrap();
    assert_eq!(bucket.obliterate_children(partition(1), list).unwrap().unwrap().pack_offset, 10);
    assert_eq!(bucket.obliterate_children(partition(1), address(8, 2, 3)), Ok(None));
    assert!(bucket.obliterate_children(partition(2), list).is_err());
}

#[test]
fn marks_of_durability_can_be_set_and_taken() {
    let mut bucket = ImmutableStoreBucket::new();
    let mut dirty = false;
    for c in [5u8, 3, 4] {
        bucket.store(&request(1, address(8, 1, c), 0, true, Some((1, 10))), &mut dirty).unwrap();
    }
    bucket.mark_all_as_durably_stored();
    assert!(bucket.entry.iter().all(|e| e.data.flags == PAYLOAD_STORED_DURABLE | PAYLOAD_STORED_LOCAL));
    bucket.mark_as_not_durably_stored(partition(1), address(8, 1, 3));
    assert_eq!(bucket.at(0).data.flags, PAYLOAD_STORED_LOCAL);
    assert_ne!(bucket.at(1).data.flags & PAYLOAD_STORED_DURABLE, 0);
}

#[test]
fn entries_are_sorted_whatever_the_order_of_arrival() {
    let mut store = store();
    for (p, rest, c) in [(9u8, 5u8, 1u8), (1, 5, 9), (1, 5, 2), (4, 1, 1), (1, 200, 7), (9, 5, 0)] {
        done(store.store(&request(p, address(8, rest, c), 0, true, Some((1, rest as u32))))).unwrap();
    }
    let bucket = &store.group[8].bucket[0];
    assert!(bucket.is_well_formed());
    assert!(bucket.ensure_integrity(1000));
    assert!(!bucket.ensure_integrity(999));
    let keys: Vec<(u8, u128, u128)> = (0..6)
        .map(|i| {
            let e = bucket.at(i);
            ((e.address.hash.low % 256) as u8, e.partition.value % 256, e.address.context.value % 256)
        })
        .collect();
    assert_eq!(
        keys,
        vec![(1, 4, 1), (5, 1, 2), (5, 1, 9), (5, 9, 0), (5, 9, 1), (200, 1, 7)]
    );
}

#[test]
fn a_store_on_disk_asks_for_its_buckets() {
    let mut layout = memory_layout();
    layout.on_disk = true;
    let mut store = LocalImmutableStore::new(&layout, ImmutableStoreSettings::default());
    let a = address(8, 1, 3);
    match store.find(partition(1), a, StoreMatch::MatchFull, 0) {
        Step::LoadBucket { group, bucket } => assert_eq!((group, bucket), (8, 0)),
        Step::Done(_) => panic!("nothing was read"),
    }
    // A refusal needs no bucket.
    let mut r = request(1, a, 0, true, None);
    r.fragment.size_payload = 0;
    assert!(matches!(store.store(&r), Step::Done(Err(_))));
    assert_eq!(store.deserialize_all_buckets(8), vec![0]);
    assert_eq!(store.load_bucket(8, 0, &None), Ok((false, None)));
    assert!(store.deserialize_all_buckets(8).is_empty());
    assert!(done(store.find(partition(1), a, StoreMatch::MatchFull, 0)).is_ok());
}

#[test]
fn store_recovers_from_corrupt_bucket_and_remains_usable() {
    let mut layout = memory_layout();
    layout.on_disk = true;
    let settings = || ImmutableStoreSettings {
        initial_fan_out_level: 1,
        ..ImmutableStoreSettings::default()
    };
    let part = Partition::from_bytes(&[0x42; 16]);
    let a = address(8, 0xcd, 7);
    let mut asked = request(0x42, a, 0, true, Some((1, 10)));
    asked.fragment.size_payload = 256;
    asked.fragment.size_content = 256;
    asked.payload = Some(256);
    let mut before = LocalImmutableStore::new(&layout, settings());
    assert_eq!(before.load_bucket(8, 0, &None), Ok((false, None)));
    assert!(matches!(
        done(before.put(&asked, Ok(()))),
        Ok(StoreOutcome::Stored(_))
    ));
    let whole = before.group[8].serialize(0).unwrap();
    let mut reopened = LocalImmutableStore::new(&layout, settings());
    assert_eq!(reopened.load_bucket(8, 0, &Some(whole)), Ok((false, None)));
    assert!(done(reopened.get(part, a, StoreMatch::MatchFull, 0)).is_ok());

    // A crash left a header that claims entries which are not there.
    // What is left is less than one entry, or more; only the latter is removed at once.
    for (left, removed) in [(16, false), (116, true)] {
        let mut file = vec![5, 0, 0, 0, 0, 0, 0, 0];
        file.extend_from_slice(&4096u32.to_le_bytes());
        file.extend_from_slice(&[0u8; 4]);
        file.extend_from_slice(&vec![0u8; left]);
        let mut store = LocalImmutableStore::new(&layout, settings());
        assert_eq!(store.load_bucket(8, 0, &Some(file)), Ok((removed, None)));
        assert!(done(store.get(part, a, StoreMatch::MatchFull, 0)).is_err());
        assert!(matches!(
            done(store.put(&asked, Ok(()))),
            Ok(StoreOutcome::Stored(_))
        ));
        let (fragment, data) = done(store.get(part, a, StoreMatch::MatchFull, 0)).unwrap();
        assert_eq!((fragment.size_payload, fragment.size_content), (256, 256));
        assert_eq!((data.pack_file, data.pack_offset), (1, 10));
    }
}

#[test]
fn a_bucket_is_what_its_file_holds() {
    let mut layout = memory_layout();
    layout.on_disk = true;
    let mut bucket = ImmutableStoreBucket::new();
    let mut dirty = false;
    for (i, rest) in [1u8, 2, 3].iter().enumerate() {
        let place = Some((1, 10 * i as u32));
        bucket.store(&request(1, address(8, *rest, 3), 0, true, place), &mut dirty).unwrap();
    }
    let load = |bucket: &ImmutableStoreBucket| {
        let mut store = LocalImmutableStore::new(&layout, ImmutableStoreSettings::default());
        let file = bucket.serialize_files(5).unwrap();
        assert_eq!(store.load_bucket(8, 0, &Some(file)), Ok((false, None)));
        let read = &store.group[8].bucket[0];
        assert_eq!(read.entry, bucket.entry);
        assert_eq!(read.sorted_index, bucket.sorted_index);
        assert!(read.deserialized);
        assert!(!store.group[8].dirty[0]);
        assert_eq!(store.fragment_count(), 3);
        store
    };
    let mut store = load(&bucket);
    assert!(store.bucket_fits(8, 0));
    for (i, rest) in [1u8, 2, 3].iter().enumerate() {
        let a = address(8, *rest, 3);
        let (_, data) = done(store.get(partition(1), a, StoreMatch::MatchFull, 0)).unwrap();
        assert_eq!(data.pack_offset, 10 * i as u32);
    }
    // Out of order, twice the same address, and an index that names what is not there: all is kept
    // as it was read.
    bucket.sorted_index = vec![2, 0, 1];
    assert!(!load(&bucket).bucket_fits(8, 0));
    bucket.sorted_index = vec![0, 1, 2];
    bucket.entry[1].address = bucket.entry[0].address;
    assert!(!load(&bucket).bucket_fits(8, 0));
    bucket.sorted_index = vec![0, 1, 3];
    assert!(!load(&bucket).bucket_fits(8, 0));
}

#[test]
fn entries_of_other_buckets_are_kept_as_read() {
    let mut settings = ImmutableStoreSettings::default();
    settings.initial_fan_out_level = 4;
    let mut layout = memory_layout();
    layout.on_disk = true;
    let mut store = LocalImmutableStore::new(&layout, settings);
    let mut bucket = ImmutableStoreBucket::new();
    let mut dirty = false;
    // Second bytes 1 and 5 belong to bucket 1 of four, 2 belongs to bucket 2.
    for rest in [1u8, 2, 5] {
        bucket.store(&request(1, address(8, rest, 3), 0, true, Some((1, 0))), &mut dirty).unwrap();
    }
    let file = bucket.serialize_files(5).unwrap();
    assert_eq!(store.load_bucket(8, 1, &Some(file)), Ok((false, None)));
    assert_eq!(store.fragment_count(), 3);
    assert_eq!(store.group[8].bucket[1].entry, bucket.entry);
    assert!(!store.bucket_fits(8, 1));
}

#[test]
fn a_payload_reaches_every_entry_of_its_hash() {
    // Three entries without a payload: the payload that comes for the second is that of all.
    let mut bucket = ImmutableStoreBucket::new();
    let mut dirty = false;
    for context in [1u8, 2, 3] {
        let mut r = request(1, address(8, 7, context), 0, false, None);
        r.payload = None;
        assert!(matches!(bucket.store(&r, &mut dirty), Ok(StoreOutcome::Stored(_))));
    }
    for context in [2u8, 1, 3] {
        let mut b = ImmutableStoreBucket {
            entry: bucket.entry.clone(),
            sorted_index: bucket.sorted_index.clone(),
            deserialized: false,
            upgrade_packfile: false,
        };
        let r = request(1, address(8, 7, context), 0, true, Some((4, 96)));
        assert!(matches!(b.store(&r, &mut dirty), Ok(StoreOutcome::Stored(_))));
        for slot in 0..3 {
            let data = b.at(slot).data;
            assert_eq!((data.pack_file, data.pack_offset, data.size_payload), (4, 96, 64));
        }
    }
}

#[test]
fn a_forced_put_keeps_the_durable_flag() {
    let a = address(8, 1, 3);
    for atime in [false, true] {
        let mut store = store();
        store.settings.atime = atime;
        done(store.put(&request(1, a, PAYLOAD_STORED_DURABLE, true, Some((1, 10))), Ok(()))).unwrap();
        let mut again = request(1, a, 0, true, Some((2, 20)));
        again.force = true;
        let outcome = done(store.put(&again, Ok(()))).unwrap();
        let StoreOutcome::Stored(data) = outcome else {
            panic!("{outcome:?}");
        };
        assert_eq!((data.pack_file, data.pack_offset), (2, 20));
        assert_ne!(data.flags & PAYLOAD_STORED_DURABLE, 0);
        let found = done(store.query(partition(1), a, StoreMatch::MatchFull, 0)).unwrap();
        assert_ne!(found.fragment.flags & PAYLOAD_STORED_DURABLE, 0);
        // Elsewhere nothing is inherited.
        let other = address(8, 1, 4);
        let mut first = request(1, other, 0, true, Some((3, 0)));
        first.force = true;
        done(store.put(&first, Ok(()))).unwrap();
        let found = done(store.query(partition(1), other, StoreMatch::MatchFull, 0)).unwrap();
        assert_eq!(found.fragment.flags & PAYLOAD_STORED_DURABLE, 0);
    }
}

#[test]
fn a_refused_store_changes_nothing() {
    let mut bucket = ImmutableStoreBucket::new();
    let mut dirty = false;
    for context in [3u8, 1, 2] {
        bucket.store(&request(1, address(8, 7, context), 0, true, Some((1, 5))), &mut dirty).unwrap();
    }
    let (entry, index) = (bucket.entry.clone(), bucket.sorted_index.clone());
    dirty = false;
    let mut r = request(1, address(8, 7, 9), 0, true, Some((1, 9)));
    r.fragment.size_content = 65;
    assert_eq!(
        bucket.store(&r, &mut dirty),
        Err(LocalImmutableStoreError::Internal(InternalError::HashCollision))
    );
    assert_eq!((&bucket.entry, &bucket.sorted_index, dirty), (&entry, &index, false));
    assert_eq!(
        bucket.put(&r, Ok(()), false, &mut dirty),
        Err(StoreError::Internal(InternalError::HashCollision))
    );
    assert_eq!((&bucket.entry, &bucket.sorted_index, dirty), (&entry, &index, false));
}

#[test]
fn copying_onto_the_source_settles() {
    let mut store = store();
    let a = address(8, 1, 3);
    done(store.put(&request(1, a, 0, true, Some((1, 10))), Ok(()))).unwrap();
    let mut copy = CopyRequest {
        source_partition: partition(1),
        source_address: a,
        destination_partition: partition(1),
        destination_context: a.context,
        durable: true,
        now: 2000,
    };
    assert_eq!(done(store.copy(&copy)), Ok(()));
    let once = store.group[8].bucket[0].entry.clone();
    assert_eq!(once.len(), 1);
    assert_ne!(once[0].data.flags & PAYLOAD_STORED_DURABLE, 0);
    assert_eq!(once[0].data.last_access, 2000);
    copy.now = 3000;
    store.group[8].dirty[0] = false;
    assert_eq!(done(store.copy(&copy)), Ok(()));
    assert_eq!(store.group[8].bucket[0].entry, once);
    assert!(!store.group[8].dirty[0]);
}

#[test]
fn flags_that_steer_a_write_are_not_recorded() {
    let fragment = Fragment {
        flags: 0x8000_0201,
        size_payload: 3,
        size_content: 4,
    };
    let clean = sanitise_fragment_behavior_flags(fragment, 0x8000_0001);
    assert_eq!(clean.flags, 0x200);
    assert_eq!((clean.size_payload, clean.size_content), (3, 4));
}

#[test]
fn fan_out_spreads_entries_and_loses_none() {
    let mut group = ImmutableStoreGroup::new(1, 5, 3, 0);
    let mut addresses = vec![];
    for second in 0..20u8 {
        let mut hash = [second; 32];
        hash[0] = 8;
        let a = Address {
            hash: lore::types::Hash::from_bytes(&hash),
            context: Context { value: 1 },
        };
        addresses.push(a);
        group.store(&request(1, a, 0, true, Some((1, second as u32)))).unwrap();
    }
    assert_eq!(group.fan_out_pressure(), Some(20));
    // The buckets in use must have been read first.
    assert_eq!(
        group.maybe_fan_out_immutable_group(4),
        lore::local::fan_out::FanOutStep::LoadBucket(0)
    );
    group.bucket[0].deserialized = true;
    assert_eq!(
        group.maybe_fan_out_immutable_group(1),
        lore::local::fan_out::FanOutStep::Settled
    );
    assert_eq!(
        group.maybe_fan_out_immutable_group(4),
        lore::local::fan_out::FanOutStep::FannedOut
    );
    assert_eq!(group.bucket_count, 4);
    for b in 0..4 {
        assert_eq!(group.bucket[b].entry.len(), 5);
        assert!(group.dirty[b]);
        assert!(group.bucket[b].is_well_formed());
        // Nothing is read from disk over what is in memory.
        assert!(group.bucket[b].deserialized);
        assert_eq!(group.load_bucket(b, &None), Ok((0, false)));
        assert_eq!(group.bucket[b].entry.len(), 5);
    }
    assert!(!group.bucket[4].deserialized);
    for a in &addresses {
        let (data, made) = group.find(partition(1), *a, StoreMatch::MatchFull, false, 0).unwrap();
        assert_eq!(made, StoreMatch::MatchFull);
        assert_eq!(data.pack_offset, (a.hash.low % 256) as u32);
        assert_eq!(bucket_index_for(&a.hash, 4), (a.hash.low % 4) as usize);
    }
}

fn reference(n: u8, offset_content: u64) -> FragmentReference {
    FragmentReference {
        hash: address(n, n, 0).hash,
        offset_content,
    }
}

#[test]
fn listed_fragments_are_obliterated_first() {
    let at = |n: u8| Address {
        hash: address(n, n, 0).hash,
        context: Context { value: 9 },
    };
    let mut pass = ObliteratePass::new(at(1));
    let mut gone = vec![];
    let mut looks = 0;
    loop {
        match pass.next() {
            ObliterateStep::Done => break,
            ObliterateStep::Obliterate(a) => {
                gone.push(a);
                pass.obliterated();
            }
            ObliterateStep::Look(a) => {
                looks += 1;
                // One lists two, three and two again; three lists four.
                if a == at(1) {
                    pass.listed(Some(&vec![
                        reference(2, 0),
                        reference(3, 10),
                        reference(2, 20),
                    ]));
                } else if a == at(3) {
                    pass.listed(Some(&vec![reference(4, 0)]));
                } else {
                    pass.listed(None);
                }
            }
        }
    }
    assert_eq!(gone, vec![at(2), at(4), at(3), at(2), at(1)]);
    assert_eq!(looks, 5);
}
