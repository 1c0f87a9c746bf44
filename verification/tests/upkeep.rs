//! Eviction, compaction, verification and flushing.
use lore::error::{InternalError, LocalImmutableStoreError, StoreError};
use lore::gc_event::GcEvent;
use lore::local::bucket::ImmutableStoreBucket;
use lore::local::compact::CompactionPass;
use lore::local::data::{ImmutableData, ImmutableStoreEntry};
use lore::local::flush::{FlushAction, FlushPass, SerializeFailureGuard};
use lore::local::gc::{
    compact_resume_at, resume_bytes, CompactStep, GroupCompaction, ResumePoint,
};
use lore::local::group::ImmutableStoreGroup;
use lore::local::immutable_store::{
    ImmutableStoreSettings, LocalImmutableStore, Step, StoreLayout,
};
use lore::local::upgrade::{upgrade_needed, UpgradePass};
use lore::local::verify::PayloadState;
use lore::types::{
    Address, Context, PackRef, Partition, StoreMatch, PAYLOAD_COMPRESSED_ZSTD,
    PAYLOAD_STORED_DURABLE,
};

fn hash(n: u8) -> lore::types::Hash {
    let mut bytes = [0u8; 32];
    bytes[31] = n;
    bytes[2] = 1;
    lore::types::Hash::from_bytes(&bytes)
}

fn entry(h: u8, part: u8, context: u8, data: ImmutableData) -> ImmutableStoreEntry {
    ImmutableStoreEntry {
        address: Address {
            hash: hash(h),
            context: Context { value: context as u128 },
        },
        partition: Partition { value: part as u128 },
        data,
    }
}

fn data(size: u32, place: (u32, u32), last_access: u64) -> ImmutableData {
    ImmutableData {
        flags: 0,
        size_payload: size,
        size_content: size as u64,
        pack_offset: place.1,
        pack_file: place.0,
        last_access,
    }
}

fn bucket(entries: Vec<ImmutableStoreEntry>) -> ImmutableStoreBucket {
    let sorted_index = (0..entries.len() as u32).collect();
    ImmutableStoreBucket {
        entry: entries,
        sorted_index,
        deserialized: true,
        upgrade_packfile: false,
    }
}

fn store(parallel: usize) -> LocalImmutableStore {
    let mut settings = ImmutableStoreSettings::default();
    settings.compaction_parallel_groups = parallel;
    let layout = StoreLayout {
        on_disk: false,
        index_existed: false,
        markers: vec![None; 256],
        directories: vec![],
        verify_write: None,
    };
    LocalImmutableStore::new(&layout, settings)
}

#[test]
fn evict_bucket() {
    // Sorting does not matter for eviction: the index is in no order.
    let mut b = bucket(vec![]);
    for (i, size) in [100u32, 101, 99, 500, 100, 1000].iter().enumerate() {
        b.entry.push(entry(200 - i as u8, 1, 1, data(*size, (0, 0), *size as u64)));
    }
    b.sorted_index = vec![1, 4, 0, 3, 5, 2];
    let mut dirty = false;
    assert_eq!(b.evict_oldest_bucket(3, &mut dirty), 3);
    assert!(dirty);
    assert_eq!(b.entry.len(), 3);
    for e in &b.entry {
        assert!(e.data.last_access > 100);
        assert_eq!(e.data.last_access, e.data.size_payload as u64);
    }
    // What stays is in the order of the index, and the index counts it.
    let times: Vec<u64> = b.entry.iter().map(|e| e.data.last_access).collect();
    assert_eq!(times, vec![101, 500, 1000]);
    assert_eq!(b.sorted_index, vec![0, 1, 2]);
    dirty = false;
    assert_eq!(b.evict_oldest_bucket(3, &mut dirty), 0);
    assert!(!dirty);
    assert_eq!(b.sorted_index, vec![0, 1, 2]);
}

#[test]
fn entries_of_the_same_age_go_together() {
    let mut b = bucket((0..5).map(|i| entry(i, 1, 1, data(1, (0, 0), 7))).collect());
    let mut dirty = false;
    assert_eq!(b.evict_oldest_bucket(4, &mut dirty), 5);
    assert!(b.entry.is_empty());
}

#[test]
fn an_eviction_keeps_all_that_fits() {
    let times = [3u64, 9, 5, 5, 7, 1];
    for capacity in 0..7usize {
        let entries = times.iter().enumerate();
        let mut b = bucket(
            entries.map(|(i, t)| entry(i as u8, 1, 1, data(1, (0, 0), *t))).collect(),
        );
        let mut dirty = false;
        b.evict_oldest_bucket(capacity, &mut dirty);
        assert!(b.entry.len() <= capacity);
        for time in 0..10 {
            let newer = times.iter().filter(|t| **t > time).count();
            assert!(newer > capacity || newer <= b.entry.len());
        }
    }
}

#[test]
fn an_eviction_reports_what_it_does() {
    let mut s = store(8);
    for i in 0..5u8 {
        let at = s.group[0].bucket[0].entry.len() as u32;
        s.group[0].bucket[0].entry.push(entry(i, 2, i, data(10, (0, 0), i as u64)));
        s.group[0].bucket[0].sorted_index.push(at);
    }
    s.group[0].touched[0] = true;
    let (count, events) = s.evict_oldest(1);
    assert_eq!(count, 5);
    assert_eq!(
        events,
        vec![
            GcEvent::EvictionBegin(1),
            GcEvent::EvictionProgress(5),
            GcEvent::EvictionEnd(5)
        ]
    );
    assert_eq!(s.fragment_count(), 0);
    // With nothing to do nothing is reported.
    assert_eq!(s.evict_oldest(1), (0, vec![]));
}

#[test]
fn eviction_shares_the_limit_among_groups_and_buckets() {
    // 70 percent of 7680 over 256 groups leaves 21 entries for the one bucket of a group.
    let mut s = store(8);
    for g in 0..256usize {
        for i in 0..30u8 {
            s.group[g].bucket[0].entry.push(entry(i, 2, i, data(10, (0, 0), i as u64)));
            s.group[g].bucket[0].sorted_index.push(i as u32);
        }
        s.group[g].touched[0] = true;
    }
    // At the limit there is nothing to do, though every bucket has more than its share.
    assert_eq!(s.evict_oldest(7680), (0, vec![]));
    assert_eq!(s.fragment_count(), 7680);
    assert!(s.group.iter().all(|g| !g.dirty[0]));
    // One more entry, and every bucket goes down to its share.
    s.group[9].bucket[0].entry.push(entry(30, 2, 30, data(10, (0, 0), 30)));
    s.group[9].bucket[0].sorted_index.push(30);
    let (count, events) = s.evict_oldest(7680);
    assert_eq!(count, 255 * 9 + 10);
    assert_eq!(events.len(), 258);
    assert_eq!(events[0], GcEvent::EvictionBegin(7680));
    assert_eq!(events[10], GcEvent::EvictionProgress(10));
    assert_eq!(events[257], GcEvent::EvictionEnd(255 * 9 + 10));
    assert_eq!(s.fragment_count(), 256 * 21);
    assert!(s.group[8].bucket[0].entry.iter().all(|e| e.data.last_access >= 9));
    s.compact_stop();
    assert_eq!(s.evict_oldest(1), (0, vec![]));
    assert_eq!(s.fragment_count(), 256 * 21);
}

#[test]
fn a_store_within_its_limit_is_not_evicted() {
    let mut s = store(8);
    for i in 0..3u8 {
        s.group[0].bucket[0].entry.push(entry(i, 2, i, data(10, (0, 0), i as u64)));
        s.group[0].bucket[0].sorted_index.push(i as u32);
    }
    s.group[0].touched[0] = true;
    assert_eq!(s.evict_oldest(3), (0, vec![]));
    assert_eq!(s.fragment_count(), 3);
    assert!(!s.group[0].dirty[0]);
    assert_eq!(s.evict_oldest(2).0, 3);
}

#[test]
fn payloads_are_counted_once() {
    let b = bucket(vec![
        entry(1, 1, 1, data(100, (1, 0), 1)),
        entry(1, 1, 2, data(100, (1, 0), 2)),
        entry(2, 1, 1, data(50, (1, 100), 3)),
        entry(3, 1, 1, data(70, (0, 0), 4)),
    ]);
    assert_eq!(b.stored_payloads(), (2, 150));
}

fn durable(mut d: ImmutableData) -> ImmutableData {
    d.flags = PAYLOAD_STORED_DURABLE;
    d
}

fn group_of(entries: Vec<ImmutableStoreEntry>) -> ImmutableStoreGroup {
    let mut g = ImmutableStoreGroup::new(1, 5, 1000, 0);
    g.bucket[0] = bucket(entries);
    g.touched[0] = true;
    g
}

#[test]
fn small_payloads_go_first_until_the_target_is_met() {
    let entries = vec![
        entry(1, 1, 1, durable(data(100, (1, 0), 30))),
        entry(2, 1, 1, durable(data(10, (1, 100), 40))),
        entry(3, 1, 1, durable(data(20, (1, 110), 10))),
    ];
    let mut g = group_of(entries.clone());
    // Below the target nothing goes.
    assert_eq!(g.evict_group_sized(131, true), (0, 0));
    assert!(!g.dirty[0]);
    // 130 bytes are stored; the two smallest bring it below 101, and with the second of them all
    // that was not accessed after it goes.
    assert_eq!(g.evict_group_sized(101, true), (1, 20));
    assert!(g.dirty[0]);
    assert_eq!(g.bucket[0].entry[2].data.pack_file, 0);
    assert_eq!(g.bucket[0].entry[0].data.pack_file, 1);
    assert_eq!(g.bucket[0].entry[1].data.pack_file, 1);
}

#[test]
fn the_newest_access_of_a_payload_counts() {
    // The small payload is shared: it was accessed at 50 and, by another entry, at 5. The time of
    // the payload is 50, so that all accessed up to then goes with it.
    let mut g = group_of(vec![
        entry(1, 1, 1, durable(data(10, (1, 0), 50))),
        entry(1, 1, 2, durable(data(10, (1, 0), 5))),
        entry(2, 1, 1, durable(data(100, (1, 10), 20))),
    ]);
    assert_eq!(g.bucket[0].eviction_cutoff(true, 110, 105), 50);
    assert_eq!(g.evict_group_sized(105, true), (2, 110));
    assert!(g.bucket[0].entry.iter().all(|e| e.data.pack_file == 0));
}

#[test]
fn fragments_that_are_only_here_are_protected() {
    let entries = vec![
        entry(1, 1, 1, data(100, (1, 0), 1)),
        entry(2, 1, 1, durable(data(10, (1, 100), 40))),
    ];
    let mut g = group_of(entries.clone());
    assert_eq!(g.evict_group_sized(1, true), (1, 10));
    assert_eq!(g.bucket[0].entry[0].data.pack_file, 1);
    assert_eq!(g.bucket[0].entry[1].data.pack_file, 0);
    // Without protection the large one goes, and the small one was accessed after it.
    let mut g = group_of(entries);
    assert_eq!(g.evict_group_sized(1, false), (1, 100));
    assert_eq!(g.bucket[0].entry[0].data.pack_file, 0);
    assert_eq!(g.bucket[0].entry[1].data.pack_file, 1);
    // Had it been accessed before, both would go.
    let mut g = group_of(vec![
        entry(1, 1, 1, data(100, (1, 0), 40)),
        entry(2, 1, 1, durable(data(10, (1, 100), 1))),
    ]);
    assert_eq!(g.evict_group_sized(1, false), (2, 110));
}

#[test]
fn compact_bucket() {
    let (smaller, mid, greater) = (7u32, 11u32, 13u32);
    let file = |n: u32, id: u32, at: u32| data(n, (id, at), 0);
    let mut b = bucket(vec![]);
    b.entry.push(entry(20, 2, 1, file(mid, 1, 7)));
    b.entry.push(entry(30, 2, 2, file(greater, 1, 18)));
    b.entry.push(entry(10, 1, 1, file(smaller, 2, 0)));
    b.entry.push(entry(20, 0, 0, file(mid, 1, 7)));
    b.entry.push(entry(30, 1, 1, file(greater, 3, 18)));
    b.sorted_index = vec![2, 3, 0, 4, 1];
    assert!(b.is_well_formed());
    let moves: Vec<Option<PackRef>> = (0..5).map(|i| Some(PackRef { id: 9, offset: i * 100 })).collect();
    let mut dirty = false;
    let size = b.compact_bucket_packfile_impl(1, &moves, &mut dirty);
    assert_eq!(size, (mid + greater) as u64);
    assert!(dirty);
    assert!(b.entry.iter().all(|e| e.data.pack_file != 1));
    // Both entries of the middle hash have its one new place.
    assert_eq!((b.at(1).data.pack_file, b.at(1).data.pack_offset), (9, 100));
    assert_eq!((b.at(2).data.pack_file, b.at(2).data.pack_offset), (9, 100));
    // Entries of other pack files are left alone, also where the hash was rewritten.
    assert_eq!(b.at(0).data, file(smaller, 2, 0));
    assert_eq!(b.at(3).data, file(greater, 3, 18));
    assert_eq!((b.at(4).data.pack_file, b.at(4).data.pack_offset), (9, 400));
}

#[test]
fn payloads_that_cannot_be_moved() {
    let two = || {
        bucket(vec![
            entry(1, 1, 1, data(5, (1, 0), 0)),
            entry(2, 1, 1, data(6, (1, 5), 0)),
        ])
    };
    // Those before the last hash that was moved are lost.
    let mut b = two();
    let moves = vec![None, Some(PackRef { id: 2, offset: 0 })];
    let mut dirty = false;
    assert_eq!(b.compact_bucket_packfile_impl(1, &moves, &mut dirty), 6);
    assert_eq!((b.entry[0].data.pack_file, b.entry[0].data.pack_offset), (0, 0));
    assert_eq!(b.entry[1].data.pack_file, 2);
    assert!(dirty);
    // Those after it stay as they are.
    let mut b2 = two();
    let moves = vec![Some(PackRef { id: 2, offset: 0 }), None];
    dirty = false;
    assert_eq!(b2.compact_bucket_packfile_impl(1, &moves, &mut dirty), 5);
    assert_eq!(b2.entry[0].data.pack_file, 2);
    assert_eq!(b2.entry[1].data, data(6, (1, 5), 0));
    assert!(dirty);
    // So does all of a bucket where nothing was moved.
    let mut b3 = two();
    dirty = false;
    assert_eq!(b3.compact_bucket_packfile_impl(1, &vec![None, None], &mut dirty), 0);
    assert_eq!(b3.entry, two().entry);
    assert!(!dirty);
    // With nothing in the pack file nothing changes.
    let before = b.entry.clone();
    dirty = false;
    assert_eq!(b.compact_bucket_packfile_impl(7, &moves, &mut dirty), 0);
    assert_eq!(b.entry, before);
    assert!(!dirty);
}

#[test]
fn a_walk_gives_each_payload_once() {
    let b = bucket(vec![
        entry(1, 1, 1, data(5, (1, 0), 0)),
        entry(1, 1, 2, data(5, (1, 0), 0)),
        entry(2, 1, 1, data(6, (1, 5), 0)),
    ]);
    let mut pass = CompactionPass::new(1);
    let first = pass.next(&b).unwrap();
    assert_eq!(first.address.hash, hash(1));
    pass.repacked(&b, first, PackRef { id: 4, offset: 0 });
    let second = pass.next(&b).unwrap();
    assert_eq!(second.address.hash, hash(2));
    pass.repacked(&b, second, PackRef { id: 4, offset: 5 });
    assert!(pass.next(&b).is_none());
    assert_eq!(pass.compacted_size, 11);
    assert_eq!(pass.packfiles_to_flush, vec![4]);
}

#[test]
fn compaction_goes_step_by_step() {
    let mut s = store(100);
    let mut at = None;
    let mut groups = vec![];
    s.compaction_reclaimed = 5;
    loop {
        let (step, events) = s.compact_begin(1000, at, 1001);
        assert_eq!(events.len(), if at.is_none() { 1 } else { 0 });
        let CompactStep::Run { from, to, group_target } = step else {
            panic!("nothing to do");
        };
        assert_eq!(group_target, 700 / 256);
        groups.extend(from..to);
        let mut one = GroupCompaction::new();
        one.packfile_done(100, 40);
        assert_eq!(one.finish(&mut s), Some(GcEvent::CompactionProgress(60)));
        let (resume, next, events) = s.compact_end(to, Ok(()));
        at = next.unwrap();
        match at {
            Some(group) => {
                assert_eq!(resume, ResumePoint::At(group));
                assert!(events.is_empty());
            }
            None => {
                assert_eq!(resume, ResumePoint::Nowhere);
                assert_eq!(events, vec![GcEvent::CompactionEnd(180)]);
                break;
            }
        }
    }
    assert_eq!(groups, (0..256).collect::<Vec<usize>>());
}

#[test]
fn compaction_needs_a_reason() {
    let mut s = store(0);
    assert_eq!(s.compact_begin(1000, None, 999), (CompactStep::Skip, vec![]));
    assert_eq!(s.compact_begin(1000, None, 1000), (CompactStep::Skip, vec![]));
    // A pass on its way is not asked again, and one group at a time is the least.
    assert_eq!(
        s.compact_begin(1000, Some(3), 0).0,
        CompactStep::Run { from: 3, to: 4, group_target: 2 }
    );
    let (resume, result, events) =
        s.compact_end(4, Err(StoreError::Internal(InternalError::TaskFailed)));
    assert_eq!(resume, ResumePoint::At(4));
    assert!(result.is_err() && events.is_empty());
    s.compact_stop();
    assert_eq!(
        s.compact_begin(1000, None, 5000),
        (CompactStep::Skip, vec![GcEvent::CompactionBegin(1000)])
    );
}

#[test]
fn the_place_of_a_compaction_is_kept() {
    assert_eq!(compact_resume_at(&Some(resume_bytes(137))), Some(137));
    assert_eq!(resume_bytes(0x0102), vec![2, 1, 0, 0, 0, 0, 0, 0]);
    assert_eq!(compact_resume_at(&Some(vec![1, 2])), None);
    assert_eq!(compact_resume_at(&None), None);
}

#[test]
fn a_group_is_compacted_until_it_is_small_enough() {
    let mut c = GroupCompaction::new();
    assert!(c.is_done(Some(9), 10, true));
    assert!(!c.is_done(Some(10), 10, true));
    assert!(!c.is_done(None, 10, true));
    assert!(c.is_done(None, 10, false));
    c.packfile_done(10, 30);
    assert_eq!(c, GroupCompaction { packfile: 2, reclaimed: 0 });
    assert_eq!(c.finish(&mut store(1)), None);
}

#[test]
fn upgrading_moves_each_payload_once() {
    let mut b = bucket(vec![
        entry(1, 1, 1, data(5, (1, 0), 0)),
        entry(1, 1, 2, data(5, (1, 0), 0)),
        entry(2, 1, 1, data(6, (0, 0), 0)),
        entry(3, 1, 1, data(7, (1, 9), 0)),
    ]);
    let mut pass = UpgradePass::new();
    assert_eq!(pass.next(&mut b).unwrap().pack_offset, 0);
    pass.settle(&mut b, Some(PackRef { id: 5, offset: 50 }));
    assert_eq!(pass.next(&mut b).unwrap().pack_offset, 9);
    pass.settle(&mut b, None);
    assert!(pass.next(&mut b).is_none());
    let places: Vec<(u32, u32)> = b.entry.iter().map(|e| (e.data.pack_file, e.data.pack_offset)).collect();
    assert_eq!(places, vec![(5, 50), (5, 50), (0, 0), (0, 0)]);
    assert!(upgrade_needed(0, false));
    assert!(upgrade_needed(10, true));
    assert!(!upgrade_needed(10, false));
}

fn content(n: u8, length: u64) -> PayloadState {
    PayloadState::Content { length, hash: hash(n) }
}

#[test]
fn scanning_finds_damage_and_healing_drops_it() {
    let mut packed = data(5, (1, 60), 0);
    packed.flags = PAYLOAD_COMPRESSED_ZSTD;
    packed.size_content = 50;
    let entries = vec![
        entry(1, 1, 1, data(5, (1, 0), 0)),
        entry(2, 1, 1, data(6, (1, 5), 0)),
        entry(2, 1, 2, data(6, (1, 5), 0)),
        entry(3, 1, 1, data(7, (0, 0), 0)),
        entry(4, 1, 1, packed),
    ];
    let mut g = group_of(entries);
    let mut states: Vec<Vec<PayloadState>> = (0..256).map(|_| vec![]).collect();
    states[0] = vec![
        content(1, 5),
        content(9, 6),
        content(2, 6),
        PayloadState::Unreadable,
        content(4, 49),
    ];
    assert_eq!(g.verify(&states, false), (2, 2));
    assert_eq!(g.bucket[0].entry.len(), 5);
    assert!(!g.dirty[0]);
    // Every entry with the failed payload goes.
    assert_eq!(g.verify(&states, true), (2, 2));
    let left: Vec<u128> = g.bucket[0].entry.iter().map(|e| e.address.hash.low).collect();
    assert_eq!(left, vec![1, 3]);
    assert!(g.dirty[0]);
    // A healed bucket is not read again over what is in memory.
    assert!(g.bucket[0].deserialized && !g.bucket[0].upgrade_packfile);
}

#[test]
fn checking_a_group_stops_at_the_first_fault() {
    let mut packed = data(6, (1, 5), 0);
    packed.flags = PAYLOAD_COMPRESSED_ZSTD;
    let g = group_of(vec![
        entry(1, 1, 1, data(5, (1, 0), 0)),
        entry(1, 1, 2, data(5, (1, 0), 0)),
        entry(2, 1, 1, packed),
    ]);
    let mut states: Vec<Vec<PayloadState>> = (0..256).map(|_| vec![]).collect();
    // The second entry shares the payload of the first and is not looked at.
    states[0] = vec![content(1, 5), PayloadState::Unreadable, content(2, 6)];
    assert_eq!(g.group_verify_store(None, &states), Ok(()));
    states[0][2] = PayloadState::Undecodable;
    assert_eq!(
        g.group_verify_store(Some(0), &states),
        Err(StoreError::Internal(InternalError::DecompressionFailed))
    );
    assert_eq!(g.group_verify_store(Some(1), &states), Ok(()));
    states[0][0] = content(7, 5);
    assert_eq!(
        g.group_verify_store(None, &states),
        Err(StoreError::Internal(InternalError::HashMismatch))
    );
    states[0][0] = PayloadState::Unreadable;
    assert_eq!(
        g.group_verify_store(None, &states),
        Err(StoreError::Internal(InternalError::PackstoreRead))
    );
}

#[test]
fn overlapping_payloads_are_found() {
    let b = bucket(vec![
        entry(1, 1, 1, data(10, (1, 0), 0)),
        entry(2, 1, 1, data(10, (1, 9), 0)),
        entry(3, 1, 1, data(10, (1, 10), 0)),
        entry(4, 1, 1, data(10, (2, 5), 0)),
    ]);
    assert_eq!(b.overlapping(hash(1), data(10, (1, 0), 0)), vec![1]);
    assert_eq!(b.overlapping(hash(2), data(10, (1, 9), 0)), vec![0, 2]);
}

fn disk_store(entries: Vec<ImmutableStoreEntry>) -> LocalImmutableStore {
    let mut s = store(8);
    s.on_disk = true;
    s.group[0].bucket[0] = bucket(entries);
    s.group[0].touched[0] = true;
    s
}

#[test]
fn one_fragment_is_checked_in_all_its_places() {
    let target = Address { hash: hash(2), context: Context { value: 1 } };
    let part = Partition { value: 1 };
    let mut s = disk_store(vec![
        entry(1, 1, 1, data(5, (1, 0), 0)),
        entry(2, 1, 1, data(6, (1, 5), 0)),
        entry(2, 1, 7, data(6, (1, 5), 0)),
        entry(2, 3, 1, data(6, (2, 0), 0)),
        entry(3, 1, 1, data(5, (1, 90), 0)),
    ]);
    let slots = |s: &LocalImmutableStore, m: StoreMatch| match s.verify_fragment(target, part, m) {
        Step::Done(Ok((result, payloads))) => {
            let mut slots: Vec<usize> = result.matches.iter().map(|m| m.slot).collect();
            slots.sort();
            (slots, payloads.len())
        }
        _ => panic!("not found"),
    };
    assert_eq!(slots(&s, StoreMatch::MatchHash), (vec![1, 2, 3], 2));
    assert_eq!(slots(&s, StoreMatch::MatchPartition), (vec![1, 2], 1));
    assert_eq!(slots(&s, StoreMatch::MatchFull), (vec![1], 1));
    let Step::Done(Ok((result, payloads))) =
        s.verify_fragment(target, part, StoreMatch::MatchHash)
    else {
        panic!("not found");
    };
    assert_eq!(result.index_path, b"index/00/index_00".to_vec());
    assert_eq!((result.entry_count, result.packfile_entry_count), (5, 2));
    assert!(result.verification_result.is_ok() && !result.healed);
    assert!(result.hash.is_zero());
    assert_eq!((result.partition.value, result.context.value), (0, 0));
    // The payload of the first two fails.
    let states: Vec<PayloadState> = payloads
        .iter()
        .map(|d| if d.pack_file == 1 { content(9, 6) } else { content(2, 6) })
        .collect();
    let Ok(result) = s.verify_fragment_payloads(target, &payloads, &states, true, result) else {
        panic!("could be loaded");
    };
    assert_eq!(result.verification_result, Err(InternalError::HashMismatch));
    assert!(result.healed);
    let files: Vec<u32> = s.group[0].bucket[0].entry.iter().map(|e| e.data.pack_file).collect();
    assert_eq!(files, vec![1, 0, 0, 2, 1]);
    assert!(s.group[0].dirty[0]);
}

#[test]
fn a_check_of_a_fragment_can_fail_early() {
    let target = Address { hash: hash(2), context: Context { value: 1 } };
    let part = Partition { value: 1 };
    let mut s = disk_store(vec![entry(2, 1, 4, data(6, (1, 5), 0))]);
    assert!(matches!(
        s.verify_fragment(target, part, StoreMatch::MatchFull),
        Step::Done(Err(StoreError::AddressNotFound(_)))
    ));
    let Step::Done(Ok((result, payloads))) =
        s.verify_fragment(target, part, StoreMatch::MatchPartition)
    else {
        panic!("not found");
    };
    assert_eq!(
        s.verify_fragment_payloads(target, &payloads, &vec![PayloadState::Unreadable], true, result).err(),
        Some(StoreError::Internal(InternalError::PackstoreRead))
    );
    s.on_disk = false;
    assert!(matches!(
        s.verify_fragment(target, part, StoreMatch::MatchFull),
        Step::Done(Err(StoreError::Internal(InternalError::NoPath)))
    ));
}

fn run(pass: &mut FlushPass, fail_at: Option<FlushAction>) -> Vec<FlushAction> {
    let mut done = vec![];
    while let Some(action) = pass.next() {
        done.push(action);
        let outcome = if Some(action) == fail_at {
            Err(LocalImmutableStoreError::Internal(InternalError::FileSystem))
        } else {
            Ok(())
        };
        pass.report(outcome);
    }
    done
}

fn dirty_group(level: usize, committed: usize, dirty: &[usize]) -> ImmutableStoreGroup {
    let mut g = ImmutableStoreGroup::new(level, 5, 1000, committed);
    for b in dirty {
        let mut bytes = [0u8; 32];
        bytes[1] = *b as u8;
        let mut e = entry(1, 1, 1, data(5, (1, 0), 0));
        e.address.hash = lore::types::Hash::from_bytes(&bytes);
        g.bucket[*b] = bucket(vec![e]);
        g.touched[*b] = true;
        g.dirty[*b] = true;
    }
    g
}

#[test]
fn a_change_of_level_is_committed_in_two_phases() {
    let mut g = dirty_group(4, 2, &[1, 3]);
    let mut pass = FlushPass::new(&g, true, Ok(()));
    let done = run(&mut pass, None);
    assert_eq!(
        done,
        vec![
            FlushAction::FlushPackstore,
            FlushAction::CreateDirectory,
            FlushAction::WriteNew(0),
            FlushAction::WriteNew(1),
            FlushAction::WriteNew(3),
            FlushAction::WritePending(4),
            FlushAction::RenameNew(0),
            FlushAction::RenameNew(1),
            FlushAction::RenameNew(3),
            FlushAction::WriteMarker(4),
            FlushAction::DeletePending,
        ]
    );
    assert_eq!(pass.finish(&mut g), Ok(()));
    assert_eq!(g.committed_level, 4);
}

#[test]
fn a_failed_write_stops_the_commit_before_the_sentinel() {
    let mut g = dirty_group(4, 2, &[1, 3]);
    let mut pass = FlushPass::new(&g, false, Ok(()));
    let done = run(&mut pass, Some(FlushAction::WriteNew(0)));
    // The other new files are still written, and nothing after them.
    assert_eq!(done.last(), Some(&FlushAction::WriteNew(3)));
    assert_eq!(done.len(), 4);
    assert!(pass.finish(&mut g).is_err());
    assert_eq!(g.committed_level, 2);
    // A failed rename leaves the sentinel for a recovery.
    let mut pass = FlushPass::new(&g, false, Ok(()));
    let done = run(&mut pass, Some(FlushAction::RenameNew(1)));
    assert_eq!(done.last(), Some(&FlushAction::RenameNew(3)));
    assert!(pass.finish(&mut g).is_err());
    assert_eq!(g.committed_level, 2);
}

#[test]
fn a_group_without_files_needs_no_sentinel() {
    let mut g = ImmutableStoreGroup::new(4, 5, 1000, 0);
    let mut pass = FlushPass::new(&g, false, Ok(()));
    assert_eq!(
        run(&mut pass, None),
        vec![FlushAction::CreateDirectory, FlushAction::WriteMarker(4)]
    );
    assert_eq!(pass.finish(&mut g), Ok(()));
    assert_eq!(g.committed_level, 4);
}

#[test]
fn a_flush_at_the_same_level_writes_dirty_buckets() {
    let mut g = dirty_group(4, 4, &[1, 3]);
    assert!(g.any_dirty());
    let mut pass = FlushPass::new(&g, true, Ok(()));
    let done = run(&mut pass, Some(FlushAction::WriteBucket(1)));
    assert_eq!(
        done,
        vec![
            FlushAction::FlushPackstore,
            FlushAction::WriteBucket(1),
            FlushAction::WriteBucket(3)
        ]
    );
    assert!(pass.finish(&mut g).is_err());
    // Stores from before fan-out have no marker to write.
    g.serialize_version = 4;
    g.committed_level = 0;
    let mut pass = FlushPass::new(&g, false, Ok(()));
    assert_eq!(
        run(&mut pass, None),
        vec![FlushAction::WriteBucket(1), FlushAction::WriteBucket(3)]
    );
    assert_eq!(pass.finish(&mut g), Ok(()));
    assert_eq!(g.committed_level, 0);
    // Where spreading failed only the pack files are flushed.
    let error = LocalImmutableStoreError::Internal(InternalError::BucketFile);
    let mut pass = FlushPass::new(&g, true, Err(error));
    assert_eq!(run(&mut pass, None), vec![FlushAction::FlushPackstore]);
    assert_eq!(pass.finish(&mut g), Err(error));
}

#[test]
fn a_bucket_is_claimed_by_one_flush() {
    let mut g = dirty_group(4, 4, &[1]);
    let bytes = g.serialize(1).unwrap();
    assert_eq!(bytes.len(), 116);
    assert!(!g.dirty[1]);
    assert!(g.serialize(1).is_none());
    assert_eq!(g.serialize_to_new(1), bytes);
    assert_eq!(g.serialize_to_new(0).len(), 16);
    let mut guard = SerializeFailureGuard::new();
    assert!(guard.release(&mut g.dirty[1]));
    assert!(g.dirty[1]);
    g.dirty[1] = false;
    guard.success();
    assert!(!guard.release(&mut g.dirty[1]));
    assert!(!g.dirty[1]);
}
