//! Writing content and fragments.
use lore::error::{InternalError, StorageError, StoreError};
use lore::fragment_engine::{
    decode_list, encode_list, list_chunks, list_list_parts, plan_chunks, split_content,
    write_fragmented, write_fragmentlist, ChunkSizes, FragmentReference, FragmentedPlan, ListPlan,
};
use lore::hash_file::{hash_file, CompareAction, HashCheck, HashPlan};
use lore::in_flight::InFlight;
use lore::types::{
    Address, Context, Fragment, Partition, StoreMatch, StoreQueryResult, PAYLOAD_FRAGMENTED,
    PAYLOAD_STORED_DURABLE, PAYLOAD_STORED_LOCAL,
};
use lore::write::{
    after_wait, check_fragment, follower_future, write_content, write_from_file, write_raw,
    ContentPlan, FilePlan, Leader, LeaderAction, LeaderEvent, PutStep, StoreAction, StoreCall,
    StoreEvent, StoreFlow, StoreResult,
};

const SIZES: ChunkSizes = ChunkSizes {
    minimum: 512,
    expected: 1024,
    threshold: 4096,
};

fn hash(n: u8) -> lore::types::Hash {
    lore::types::Hash::from_bytes(&[n; 32])
}

fn address(n: u8) -> Address {
    Address {
        hash: hash(n),
        context: Context { value: n as u128 },
    }
}

fn noise(len: usize) -> Vec<u8> {
    let mut state = 0x2545_f491_4f6c_dd1du64;
    (0..len)
        .map(|_| {
            state ^= state << 13;
            state ^= state >> 7;
            state ^= state << 17;
            (state >> 24) as u8
        })
        .collect()
}

fn fragment(flags: u32, size: u32) -> Fragment {
    Fragment {
        flags,
        size_payload: size,
        size_content: size as u64,
    }
}

#[test]
fn content_is_cut_where_the_chunker_says() {
    let content = noise(100_000);
    let bounds = split_content(&content, 0, &SIZES);
    let mut expected = vec![0usize];
    for chunk in fastcdc::v2020::FastCDC::new(&content, 512, 1024, 4096) {
        expected.push(chunk.offset + chunk.length);
    }
    assert_eq!(bounds, expected);
    assert!(bounds.len() > 20);
    for pair in bounds.windows(2) {
        assert!(pair[1] - pair[0] <= 4096);
    }
    // A change at the end leaves the cuts before it where they were.
    let mut changed = content.clone();
    let last = changed.len() - 1;
    changed[last] ^= 1;
    let again = split_content(&changed, 0, &SIZES);
    assert_eq!(again[..again.len() - 2], bounds[..again.len() - 2]);
}

#[test]
fn content_can_be_cut_at_a_fixed_size() {
    let content = vec![0u8; 10];
    assert_eq!(split_content(&content, 4, &SIZES), vec![0, 4, 8, 10]);
    assert_eq!(split_content(&content, 5, &SIZES), vec![0, 5, 10]);
    assert_eq!(split_content(&content, 99, &SIZES), vec![0, 10]);
    assert_eq!(split_content(&[], 4, &SIZES), vec![0]);
    // What does not change is cut only where it must be.
    assert_eq!(split_content(&vec![0u8; 9000], 0, &SIZES), vec![0, 4096, 8192, 9000]);
}

#[test]
fn sizes_are_checked() {
    assert!(SIZES.is_valid());
    let mut bad = SIZES;
    bad.minimum = 63;
    assert!(!bad.is_valid());
    bad = SIZES;
    bad.expected = 5000;
    assert!(!bad.is_valid());
}

#[test]
fn chunks_become_a_list() {
    let content = noise(5000);
    let FragmentedPlan::Listed(chunks) = write_fragmented(&content, 0x40, 2000, &SIZES) else {
        panic!("three chunks");
    };
    assert_eq!(chunks.len(), 3);
    assert_eq!((chunks[2].start, chunks[2].end), (4000, 5000));
    assert_eq!(chunks[2].fragment, fragment(0x40, 1000));
    assert_eq!(plan_chunks(&vec![0, 2000, 4000, 5000], 0x40), chunks);
    let list = list_chunks(&chunks, &vec![hash(1), hash(2), hash(3)]);
    assert_eq!(
        list[1],
        FragmentReference {
            hash: hash(2),
            offset_content: 2000
        }
    );
    let plan = write_fragmentlist(&list, 5000, 0x40, 4096);
    // The list is held locally whatever was asked for the content.
    assert!(plan.cache_local(false) && plan.cache_local(true));
    match plan {
        ListPlan::Whole(f) => assert_eq!(
            f,
            Fragment {
                flags: 0x40 | PAYLOAD_FRAGMENTED,
                size_payload: 120,
                size_content: 5000
            }
        ),
        ListPlan::Parts(_) => panic!("fits"),
    }
    let bytes = encode_list(&list, 0, 3);
    assert_eq!(bytes.len(), 120);
    assert_eq!(&bytes[..32], &[1u8; 32]);
    assert_eq!(&bytes[72..80], &2000u64.to_le_bytes());
    assert_eq!(decode_list(&bytes), list);
    assert_eq!(decode_list(&bytes[..79]), list[..1].to_vec());
}

#[test]
fn long_lists_are_listed_in_turn() {
    // A fragment of 100 bytes holds two references.
    let mut list: Vec<FragmentReference> = (0..7u8)
        .map(|i| FragmentReference {
            hash: hash(i),
            offset_content: i as u64 * 10,
        })
        .collect();
    let mut lengths = vec![];
    let whole = loop {
        lengths.push(list.len());
        let plan = write_fragmentlist(&list, 65, 0, 100);
        if list.len() > 2 {
            assert!(!plan.cache_local(false) && plan.cache_local(true));
        }
        match plan {
            ListPlan::Whole(f) => break f,
            ListPlan::Parts(parts) => {
                let content: u64 = parts.iter().map(|p| p.fragment.size_content).sum();
                assert_eq!(content, 65);
                if list.len() == 7 {
                    assert_eq!((parts[1].from, parts[1].to), (2, 4));
                    assert_eq!(parts[1].offset_content, 20);
                    assert_eq!(parts[1].fragment.size_content, 20);
                    assert_eq!(parts[1].fragment.size_payload, 80);
                    assert_eq!(parts[3].fragment.size_content, 5);
                }
                let hashes = (0..parts.len() as u8).map(hash).collect();
                list = list_list_parts(&parts, &hashes);
            }
        }
    };
    assert_eq!(lengths, vec![7, 4, 2]);
    assert_eq!(whole.size_payload, 80);
    assert_eq!(whole.size_content, 65);
}

#[test]
fn a_single_chunk_needs_no_list() {
    // More than a fragment usually has, but cut at a size that it does not reach.
    let content = noise(5000);
    match write_fragmented(&content, 0x40, 6000, &SIZES) {
        FragmentedPlan::Single(f) => assert_eq!(f, fragment(0x40, 5000)),
        FragmentedPlan::Listed(_) => panic!("one chunk"),
    }
    match write_content(&content, 0x40, 5000, &SIZES) {
        ContentPlan::Single(f) => assert_eq!(f, fragment(0x40, 5000)),
        ContentPlan::Chunks(_) => panic!("one chunk"),
    }
    match write_content(&content, 0x40, 4999, &SIZES) {
        ContentPlan::Single(_) => panic!("two chunks"),
        ContentPlan::Chunks(chunks) => assert_eq!(chunks.len(), 2),
    }
    assert!(matches!(
        write_fragmented(&[], 0, 0, &SIZES),
        FragmentedPlan::Listed(chunks) if chunks.is_empty()
    ));
}

#[test]
fn small_content_is_one_fragment() {
    match write_content(&noise(4096), 3, 0, &SIZES) {
        ContentPlan::Single(f) => assert_eq!(f, fragment(3, 4096)),
        ContentPlan::Chunks(_) => panic!("fits"),
    }
    match write_content(&noise(4097), 3, 0, &SIZES) {
        ContentPlan::Single(_) => panic!("does not fit"),
        ContentPlan::Chunks(chunks) => {
            assert_eq!(chunks[0].start, 0);
            assert_eq!(chunks[chunks.len() - 1].end, 4097);
        }
    }
    let context = Context { value: 9 };
    match write_from_file(context, 0, true, false) {
        FilePlan::Empty(a, f) => {
            assert!(a.hash.is_zero() && a.context == context);
            assert_eq!(f, fragment(0, 0));
        }
        other => panic!("{other:?}"),
    }
    assert_eq!(
        write_from_file(context, 1, true, false),
        FilePlan::Content { clone_buffer: true }
    );
    assert_eq!(
        write_from_file(context, 1, false, false),
        FilePlan::Content { clone_buffer: false }
    );
}

#[test]
fn fragments_are_checked_before_they_are_stored() {
    let a = address(1);
    assert_eq!(check_fragment(&a, &fragment(0, 10), 10, 4096), Ok(()));
    let empty = Err(StorageError::Internal(InternalError::EmptyFragment));
    let mut zero = a;
    zero.hash = lore::types::Hash::zero();
    assert_eq!(check_fragment(&zero, &fragment(0, 10), 10, 4096), empty);
    assert_eq!(check_fragment(&a, &fragment(0, 10), 0, 4096), empty);
    assert_eq!(check_fragment(&a, &fragment(0, 0), 10, 4096), empty);
    assert_eq!(
        check_fragment(&a, &fragment(0, 4097), 4097, 4096),
        Err(StorageError::Oversized)
    );
    assert_eq!(
        check_fragment(&a, &fragment(0, 10), 11, 4096),
        Err(StorageError::Internal(InternalError::PayloadLengthMismatch))
    );
}

fn call(cache_local: bool, remote: bool, dispatched: bool) -> StoreCall {
    StoreCall {
        address: address(1),
        fragment: fragment(0, 64),
        cache_local,
        remote,
        dispatched,
    }
}

fn found(match_made: StoreMatch, flags: u32) -> StoreQueryResult {
    StoreQueryResult {
        fragment: fragment(flags, 64),
        match_made,
    }
}

#[test]
fn without_a_tracker_the_caller_leads() {
    let (mut flow, action) = StoreFlow::store_fragment(call(true, false, false));
    assert_eq!(action, StoreAction::Query);
    let action = flow.step(StoreEvent::Queried(None));
    let StoreAction::Lead(query) = action else {
        panic!("{action:?}");
    };
    let (leader, action) = Leader::leader_body(&flow.call, &query, false);
    assert_eq!(
        action,
        LeaderAction::Write {
            fragment: fragment(0, 64),
            with_payload: true
        }
    );
    assert_eq!(
        flow.step(StoreEvent::Led(leader.fragment)),
        StoreAction::Return(StoreResult {
            address: address(1),
            fragment: fragment(0, 64),
            deduplicated: false
        })
    );
}

#[test]
fn what_is_durable_is_not_stored_again() {
    let (mut flow, action) = StoreFlow::store_fragment(call(false, false, true));
    assert_eq!(action, StoreAction::TryAcquire);
    assert_eq!(flow.step(StoreEvent::Acquired), StoreAction::Query);
    let query = found(StoreMatch::MatchFull, PAYLOAD_STORED_DURABLE);
    assert_eq!(
        flow.step(StoreEvent::Queried(Some(query))),
        StoreAction::Return(StoreResult {
            address: address(1),
            fragment: query.fragment,
            deduplicated: true
        })
    );
}

#[test]
fn a_busy_address_is_followed() {
    let (mut flow, _) = StoreFlow::store_fragment(call(false, false, true));
    assert_eq!(
        flow.step(StoreEvent::Busy),
        StoreAction::Follow(StoreResult {
            address: address(1),
            fragment: fragment(0, 64),
            deduplicated: true
        })
    );
    // The leader left nothing behind.
    assert_eq!(
        follower_future(address(1), None),
        Err(StorageError::Internal(InternalError::LeaderFailed))
    );
}

#[test]
fn a_leader_of_a_known_hash_reports_a_duplicate() {
    let (mut flow, _) = StoreFlow::store_fragment(call(true, false, true));
    flow.step(StoreEvent::Acquired);
    let query = found(StoreMatch::MatchHash, 0);
    assert_eq!(
        flow.step(StoreEvent::Queried(Some(query))),
        StoreAction::SpawnLeader(
            query,
            StoreResult {
                address: address(1),
                fragment: fragment(0, 64),
                deduplicated: true
            }
        )
    );
    assert_eq!(
        flow.step(StoreEvent::LeadFailed(StorageError::SlowDown)),
        StoreAction::Fail(StorageError::SlowDown)
    );
}

#[test]
fn remote_writes_wait_for_each_other() {
    let (mut flow, _) = StoreFlow::store_fragment(call(true, true, false));
    let query = found(StoreMatch::MatchFull, PAYLOAD_STORED_LOCAL);
    assert_eq!(
        flow.step(StoreEvent::Queried(Some(query))),
        StoreAction::AcquireOrWait
    );
    assert_eq!(flow.step(StoreEvent::Acquired), StoreAction::Lead(query));
    assert_eq!(
        flow.step(StoreEvent::Busy),
        StoreAction::Return(StoreResult {
            address: address(1),
            fragment: query.fragment,
            deduplicated: true
        })
    );
}

#[test]
fn a_follower_takes_either_mark() {
    for flag in [PAYLOAD_STORED_LOCAL, PAYLOAD_STORED_DURABLE] {
        let query = found(StoreMatch::MatchFull, flag);
        assert_eq!(
            follower_future(address(1), Some(query)),
            Ok((address(1), query.fragment))
        );
    }
}

#[test]
fn a_follower_needs_a_marked_entry() {
    let failed = Err(StorageError::Internal(InternalError::LeaderFailed));
    assert_eq!(follower_future(address(1), None), failed);
    assert_eq!(
        follower_future(address(1), Some(found(StoreMatch::MatchFull, 0))),
        failed
    );
    assert_eq!(
        follower_future(
            address(1),
            Some(found(StoreMatch::MatchHash, PAYLOAD_STORED_LOCAL))
        ),
        failed
    );
}

#[test]
fn the_leader_uses_what_the_store_holds() {
    let query = found(StoreMatch::MatchHash, PAYLOAD_STORED_LOCAL);
    let (mut leader, action) = Leader::leader_body(&call(false, true, false), &query, true);
    assert_eq!(action, LeaderAction::LoadExisting);
    // The right content: no need to compress.
    let stored = fragment(0x10, 20);
    assert_eq!(
        leader.step(LeaderEvent::Loaded(stored, hash(1))),
        LeaderAction::Upload(stored)
    );
    // Held durably, and not wanted here.
    assert_eq!(
        leader.step(LeaderEvent::Uploaded(true)),
        LeaderAction::Write {
            fragment: fragment(0x10 | PAYLOAD_STORED_DURABLE, 20),
            with_payload: false
        }
    );
}

#[test]
fn the_leader_compresses_what_it_was_given() {
    let query = found(StoreMatch::MatchFull, PAYLOAD_STORED_LOCAL);
    let (mut leader, _) = Leader::leader_body(&call(false, true, false), &query, true);
    // The store holds something else.
    assert_eq!(
        leader.step(LeaderEvent::Loaded(fragment(0, 5), hash(9))),
        LeaderAction::Compress
    );
    let small = fragment(0x10, 30);
    assert_eq!(
        leader.step(LeaderEvent::Compressed(small)),
        LeaderAction::Upload(small)
    );
    // A failed upload keeps the payload here, and takes the flag away.
    assert_eq!(
        leader.step(LeaderEvent::Uploaded(false)),
        LeaderAction::Write {
            fragment: small,
            with_payload: true
        }
    );
    let (mut leader, _) = Leader::leader_body(&call(false, false, false), &query, true);
    assert_eq!(leader.step(LeaderEvent::NotLoaded), LeaderAction::Compress);
    assert_eq!(
        leader.step(LeaderEvent::NotCompressed),
        LeaderAction::Write {
            fragment: fragment(0, 64),
            with_payload: true
        }
    );
}

#[test]
fn only_a_busy_store_is_tried_again() {
    assert_eq!(write_raw(Ok(())), PutStep::Done);
    assert_eq!(write_raw(Err(StoreError::SlowDown)), PutStep::Wait);
    assert_eq!(
        write_raw(Err(StoreError::Oversized)),
        PutStep::Fail(StorageError::Oversized)
    );
    assert_eq!(
        write_raw(Err(StoreError::AddressNotFound(address(1)))),
        PutStep::Fail(StorageError::AddressNotFound(address(1)))
    );
    assert_eq!(after_wait(true), Ok(()));
    assert_eq!(after_wait(false), Err(StorageError::SlowDown));
}

#[test]
fn writers_of_one_fragment_wait_for_each_other() {
    let mut table = InFlight::new();
    let p = Partition { value: 1 };
    let guard = table.try_acquire_in_flight(p, address(1)).unwrap();
    let ticket = table.try_acquire_in_flight(p, address(1)).unwrap_err();
    assert_eq!(table.try_acquire_in_flight(p, address(1)), Err(ticket));
    assert_eq!(table.wait_if_in_flight(p, address(1)), Some(ticket));
    // Others are not in the way.
    let other = table.try_acquire_in_flight(p, address(2)).unwrap();
    let elsewhere = table
        .try_acquire_in_flight(Partition { value: 2 }, address(1))
        .unwrap();
    assert_eq!(table.release(guard), Some(ticket));
    assert_eq!(table.wait_if_in_flight(p, address(1)), None);
    let again = table.try_acquire_in_flight(p, address(1)).unwrap();
    let later = table.wait_if_in_flight(p, address(1)).unwrap();
    assert_ne!(later, ticket);
    assert_eq!(table.release(again), Some(later));
    assert!(table.release(other).is_some());
    assert!(table.release(elsewhere).is_some());
}

#[test]
fn files_are_hashed_by_their_size() {
    let a = address(1);
    assert_eq!(hash_file(0, 4096, Some(a), None), HashPlan::Empty);
    assert_eq!(hash_file(4096, 4096, Some(a), None), HashPlan::Whole);
    assert_eq!(hash_file(5000, 4096, Some(a), None), HashPlan::Compare(a));
    assert_eq!(hash_file(5000, 4096, Some(a), Some(5000)), HashPlan::Compare(a));
    assert_eq!(hash_file(5000, 4096, Some(a), Some(4999)), HashPlan::Split);
    assert_eq!(hash_file(5000, 4096, None, None), HashPlan::Split);
    let nothing = Address {
        hash: lore::types::Hash::zero(),
        context: Context { value: 0 },
    };
    assert_eq!(hash_file(5000, 4096, Some(nothing), None), HashPlan::Split);
}

fn reference(n: u8, offset: u64) -> FragmentReference {
    FragmentReference {
        hash: hash(n),
        offset_content: offset,
    }
}

fn list_fragment(size: u64) -> Fragment {
    Fragment {
        flags: PAYLOAD_FRAGMENTED,
        size_payload: 40,
        size_content: size,
    }
}

#[test]
fn chunks_are_compared_one_by_one() {
    let list = vec![reference(1, 0), reference(2, 10), reference(3, 25)];
    assert!(HashCheck::new(&fragment(0, 30), list.clone(), 30, 20).is_none());
    assert!(HashCheck::new(&list_fragment(31), list.clone(), 30, 20).is_none());
    assert!(HashCheck::new(&list_fragment(30), vec![], 30, 20).is_none());
    let mut check = HashCheck::new(&list_fragment(30), list, 30, 20).unwrap();
    assert_eq!(check.next(30), CompareAction::Hash { start: 0, end: 10 });
    check.hashed(hash(1));
    assert_eq!(check.next(30), CompareAction::Hash { start: 10, end: 25 });
    check.hashed(hash(2));
    assert_eq!(check.next(29), CompareAction::Different);
    assert_eq!(check.next(30), CompareAction::Hash { start: 25, end: 30 });
    check.hashed(hash(3));
    assert_eq!(check.next(30), CompareAction::Same);
}

#[test]
fn lists_of_lists_are_taken_apart() {
    let list = vec![reference(1, 0), reference(2, 10), reference(3, 50)];
    let mut check = HashCheck::new(&list_fragment(60), list, 60, 20).unwrap();
    check.hashed(hash(1));
    assert_eq!(check.next(60), CompareAction::LoadList(hash(2)));
    check.list_loaded(Some((
        list_fragment(40),
        vec![reference(7, 10), reference(8, 30)],
    )));
    assert_eq!(
        check.list,
        vec![reference(1, 0), reference(7, 10), reference(8, 30), reference(3, 50)]
    );
    assert_eq!(check.next(60), CompareAction::Hash { start: 10, end: 30 });
    check.hashed(hash(9));
    assert_eq!(check.next(60), CompareAction::Different);

    let mut check = HashCheck::new(&list_fragment(60), vec![reference(1, 0)], 60, 20).unwrap();
    check.list_loaded(None);
    assert_eq!(check.next(60), CompareAction::Different);
    let mut check = HashCheck::new(&list_fragment(60), vec![reference(1, 0)], 60, 20).unwrap();
    check.list_loaded(Some((fragment(0, 60), vec![])));
    assert_eq!(check.next(60), CompareAction::Different);
    // A list that is out of order is taken for a list of lists.
    let list = vec![reference(1, 20), reference(2, 10)];
    let check = HashCheck::new(&list_fragment(60), list, 60, 20).unwrap();
    assert_eq!(check.next(60), CompareAction::LoadList(hash(1)));
}

/// A stand-in for the hash of some bytes.
fn digest(bytes: &[u8]) -> lore::types::Hash {
    let mut high = 0x6c62_272e_07bb_0142_62b8_2175_6295_c58du128;
    for byte in bytes {
        high = (high ^ *byte as u128).wrapping_mul(0x0000_0000_0100_0000_0000_0000_0000_013b);
    }
    lore::types::Hash {
        high,
        low: bytes.len() as u128,
    }
}

/// The hash that content is written under.
fn written_under(content: &Vec<u8>, flags: u32, sizes: &ChunkSizes) -> lore::types::Hash {
    let chunks = match write_content(content, flags, 0, sizes) {
        ContentPlan::Single(_) => return digest(content),
        ContentPlan::Chunks(chunks) => chunks,
    };
    let hashes = chunks.iter().map(|c| digest(&content[c.start..c.end])).collect();
    let mut list = list_chunks(&chunks, &hashes);
    loop {
        match write_fragmentlist(&list, content.len() as u64, flags, sizes.threshold) {
            ListPlan::Whole(_) => return digest(&encode_list(&list, 0, list.len())),
            ListPlan::Parts(parts) => {
                let hashes =
                    parts.iter().map(|p| digest(&encode_list(&list, p.from, p.to))).collect();
                list = list_list_parts(&parts, &hashes);
            }
        }
    }
}

#[test]
fn hashing_gives_the_hash_of_writing() {
    // Small fragments, so that the list of a larger content is cut in turn.
    let sizes = ChunkSizes {
        minimum: 64,
        expected: 256,
        threshold: 1024,
    };
    let mut lists = 0;
    for len in [1usize, 1024, 1025, 9_000, 60_000] {
        let content = noise(len);
        let written = written_under(&content, PAYLOAD_STORED_DURABLE, &sizes);
        let hashed = match hash_file(len, sizes.threshold, None, None) {
            HashPlan::Empty | HashPlan::Compare(_) => panic!("{len}"),
            HashPlan::Whole => digest(&content),
            HashPlan::Split => {
                lists += 1;
                written_under(&content, 0, &sizes)
            }
        };
        assert_eq!(hashed, written);
    }
    assert_eq!(lists, 3);
    assert_eq!(hash_file(0, sizes.threshold, None, None), HashPlan::Empty);
    assert!(matches!(
        write_from_file(Context { value: 1 }, 0, false, false),
        FilePlan::Empty(a, _) if a.hash.is_zero()
    ));
}

#[test]
fn a_right_that_was_given_back_is_given_again() {
    let mut table = InFlight::new();
    let partition = Partition { value: 1 };
    let first = table.try_acquire_in_flight(partition, address(1)).unwrap();
    let ticket = table.try_acquire_in_flight(partition, address(1)).unwrap_err();
    // Others are not affected.
    let other = table.try_acquire_in_flight(partition, address(2)).unwrap();
    assert!(table.try_acquire_in_flight(Partition { value: 2 }, address(1)).is_ok());
    assert_eq!(table.try_acquire_in_flight(partition, address(1)).unwrap_err(), ticket);
    assert_eq!(table.release(first), Some(ticket));
    assert!(table.try_acquire_in_flight(partition, address(2)).is_err());
    let again = table.try_acquire_in_flight(partition, address(1)).unwrap();
    assert_ne!(table.try_acquire_in_flight(partition, address(1)).unwrap_err(), ticket);
    assert!(table.release(again).is_some());
    assert!(table.release(other).is_some());
}
