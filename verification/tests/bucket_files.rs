//! Bucket files.
use lore::error::{InternalError, LocalImmutableStoreError};
use lore::local::bucket::ImmutableStoreBucket;
use lore::local::codec::{
    deserialize_files, deserialize_files_parse, detect_any_older_immutable_bucket,
    format_bucket_path, Corruption, DeserializeFileError, ImmutableStoreVersion, ScannedFile,
};
use lore::local::data::{ImmutableData, ImmutableStoreEntry};
use lore::types::{Address, Context, Partition};

fn header(version: u32, count: u32) -> Vec<u8> {
    let mut bytes = Vec::new();
    bytes.extend_from_slice(&version.to_le_bytes());
    bytes.extend_from_slice(&0u32.to_le_bytes());
    bytes.extend_from_slice(&count.to_le_bytes());
    bytes.extend_from_slice(&0u32.to_le_bytes());
    bytes
}

fn bucket_file(version: u32) -> Vec<u8> {
    let mut bytes = header(version, 1);
    bytes.extend_from_slice(&0u32.to_le_bytes());
    bytes.extend_from_slice(&[0u8; 96]);
    bytes
}

fn bucket_file_with_count_mismatch(header_count: u32, actual: u32) -> Vec<u8> {
    let mut bytes = header(ImmutableStoreVersion::LazyFanOut.number(), header_count);
    for i in 0..actual {
        bytes.extend_from_slice(&i.to_le_bytes());
    }
    for _ in 0..actual {
        bytes.extend_from_slice(&[0u8; 96]);
    }
    bytes
}

fn entry(seed: u8, last_access: u64) -> ImmutableStoreEntry {
    let mut hash = [seed; 32];
    hash[31] = 0xfe;
    ImmutableStoreEntry {
        address: Address {
            hash: lore::types::Hash::from_bytes(&hash),
            context: Context::from_bytes(&[seed + 1; 16]),
        },
        partition: Partition::from_bytes(&[seed + 2; 16]),
        data: ImmutableData {
            flags: 0x0102_0304,
            size_payload: 0x1122_3344,
            size_content: 0x0102_0304_0506_0708,
            pack_offset: 77,
            pack_file: 3,
            last_access,
        },
    }
}

fn bucket(entries: Vec<ImmutableStoreEntry>) -> ImmutableStoreBucket {
    let sorted_index = (0..entries.len() as u32).collect();
    ImmutableStoreBucket {
        entry: entries,
        sorted_index,
        deserialized: true,
        upgrade_packfile: false,
    }
}

#[test]
fn lazy_fan_out_version_is_five() {
    assert_eq!(ImmutableStoreVersion::LazyFanOut.number(), 5);
}

#[test]
fn versions_are_numbered_in_order() {
    assert_eq!(ImmutableStoreVersion::Initial.number(), 1);
    assert_eq!(ImmutableStoreVersion::LastAccessTimestamps.number(), 2);
    assert_eq!(ImmutableStoreVersion::PackfilePerGroup.number(), 3);
    assert_eq!(ImmutableStoreVersion::LastAccessInEntry.number(), 4);
}

#[test]
fn deserialize_accepts_last_access_in_entry_v4() {
    let file = bucket_file(ImmutableStoreVersion::LastAccessInEntry.number());
    assert!(deserialize_files(&Some(file)).is_ok());
}

#[test]
fn deserialize_accepts_lazy_fan_out_v5() {
    let file = bucket_file(ImmutableStoreVersion::LazyFanOut.number());
    let (contents, remove) = deserialize_files(&Some(file)).ok().unwrap();
    assert!(!remove);
    assert_eq!(contents.entry.len(), 1);
    assert_eq!(contents.entry[0].data, ImmutableData::default());
    assert!(!contents.mark_dirty);
    assert!(!contents.upgrade_packfile);
}

#[test]
fn deserialize_rejects_unknown_future_version() {
    let result = deserialize_files(&Some(bucket_file(100)));
    // An error, and no word of removing the file.
    assert_eq!(
        result.err(),
        Some(LocalImmutableStoreError::Internal(
            InternalError::IncompatibleVersion
        ))
    );
}

#[test]
fn future_versions_end_before_the_damaged_ones() {
    assert_eq!(
        deserialize_files_parse(&bucket_file(6)).err(),
        Some(DeserializeFileError::FutureVersion(6))
    );
    assert_eq!(
        deserialize_files_parse(&bucket_file(0xfffe)).err(),
        Some(DeserializeFileError::FutureVersion(0xfffe))
    );
    assert_eq!(
        deserialize_files_parse(&bucket_file(0)).err(),
        Some(DeserializeFileError::Corrupt(Corruption::Version(0)))
    );
    // The version counts even if nothing after it makes sense.
    assert_eq!(
        deserialize_files_parse(&header(9, 12345)).err(),
        Some(DeserializeFileError::FutureVersion(9))
    );
}

#[test]
fn deserialize_recovers_from_bad_count_header() {
    let file = bucket_file_with_count_mismatch(670, 518);
    assert_eq!(
        deserialize_files_parse(&file).err(),
        Some(DeserializeFileError::Corrupt(Corruption::Count {
            header: 670,
            expected: 518
        }))
    );
    let (contents, remove) = deserialize_files(&Some(file)).ok().unwrap();
    assert!(contents.sorted_index.is_empty());
    assert!(contents.entry.is_empty());
    assert!(!contents.mark_dirty);
    assert!(remove);
}

#[test]
fn deserialize_recovers_from_invalid_version() {
    let (contents, remove) = deserialize_files(&Some(bucket_file(0xFFFF))).ok().unwrap();
    assert!(contents.sorted_index.is_empty());
    assert!(contents.entry.is_empty());
    assert!(remove);
}

#[test]
fn deserialize_recovers_from_truncated_entries() {
    let mut bytes = header(ImmutableStoreVersion::LazyFanOut.number(), 3);
    for i in 0u32..3 {
        bytes.extend_from_slice(&i.to_le_bytes());
    }
    bytes.extend_from_slice(&[0u8; 96]);
    bytes.extend_from_slice(&[0u8; 48]);
    let (contents, remove) = deserialize_files(&Some(bytes)).ok().unwrap();
    assert!(contents.sorted_index.is_empty());
    assert!(contents.entry.is_empty());
    assert!(remove);
}

#[test]
fn deserialize_recovers_from_short_header() {
    let (contents, remove) = deserialize_files(&Some(vec![0u8; 4])).ok().unwrap();
    assert!(contents.sorted_index.is_empty());
    assert!(contents.entry.is_empty());
    assert!(remove);
    assert_eq!(
        deserialize_files_parse(&[0u8; 15]).err(),
        Some(DeserializeFileError::Corrupt(Corruption::Header))
    );
}

#[test]
fn a_missing_file_is_an_empty_bucket() {
    let (contents, remove) = deserialize_files(&None).ok().unwrap();
    assert!(contents.entry.is_empty());
    assert!(!remove);
}

#[test]
fn a_file_without_entries_is_an_empty_bucket() {
    let contents = deserialize_files_parse(&header(5, 0)).ok().unwrap();
    assert!(contents.entry.is_empty());
    // With less than one entry behind the header the count is not looked at.
    let mut bytes = header(5, 9);
    bytes.extend_from_slice(&[0u8; 99]);
    assert!(deserialize_files_parse(&bytes).ok().unwrap().entry.is_empty());
}

#[test]
fn old_entries_lose_their_time_and_are_written_again() {
    for version in [2u32, 3] {
        let mut bytes = header(version, 2);
        bytes.extend_from_slice(&1u32.to_le_bytes());
        bytes.extend_from_slice(&0u32.to_le_bytes());
        for seed in [7u8, 6] {
            bytes.extend_from_slice(&[seed; 64]);
            bytes.extend_from_slice(&5u32.to_le_bytes());
            bytes.extend_from_slice(&100u32.to_le_bytes());
            bytes.extend_from_slice(&200u64.to_le_bytes());
            bytes.extend_from_slice(&11u32.to_le_bytes());
            bytes.extend_from_slice(&4u32.to_le_bytes());
        }
        // The times that used to follow the entries.
        bytes.extend_from_slice(&[1u8; 8]);
        let contents = deserialize_files_parse(&bytes).ok().unwrap();
        assert_eq!(contents.sorted_index, vec![1, 0]);
        assert_eq!(contents.entry.len(), 2);
        assert_eq!(
            contents.entry[0].data,
            ImmutableData {
                flags: 5,
                size_payload: 100,
                size_content: 200,
                pack_offset: 11,
                pack_file: 4,
                last_access: 0
            }
        );
        assert_eq!(contents.entry[1].partition, Partition::from_bytes(&[6; 16]));
        assert!(contents.mark_dirty);
        assert_eq!(contents.upgrade_packfile, version == 2);
    }
}

#[test]
fn a_bucket_is_read_back_as_it_was_written() {
    for version in [4u32, 5] {
        let written = bucket(vec![entry(1, 10), entry(2, 20), entry(9, u64::MAX)]);
        let bytes = written.serialize_files(version).unwrap();
        assert_eq!(bytes.len(), 16 + 3 * 100);
        assert_eq!(&bytes[..4], &version.to_le_bytes());
        // The first entry stands behind the index, hash first.
        assert_eq!(&bytes[28..59], &[1u8; 31]);
        assert_eq!(bytes[59], 0xfe);
        let mut read = ImmutableStoreBucket {
            entry: vec![],
            sorted_index: vec![],
            deserialized: false,
            upgrade_packfile: true,
        };
        let mut dirty = false;
        assert_eq!(read.deserialize(&Some(bytes), &mut dirty), Ok((3, false)));
        assert_eq!(read.entry, written.entry);
        assert_eq!(read.sorted_index, written.sorted_index);
        assert!(read.deserialized && !read.upgrade_packfile && !dirty);
        // A bucket is read once.
        assert_eq!(read.deserialize(&Some(vec![1]), &mut dirty), Ok((0, false)));
        assert_eq!(read.entry.len(), 3);
    }
}

#[test]
fn a_bucket_with_a_broken_index_is_not_written() {
    let mut broken = bucket(vec![entry(1, 10)]);
    broken.sorted_index.push(0);
    assert_eq!(
        broken.serialize_files(5).err(),
        Some(LocalImmutableStoreError::Internal(
            InternalError::IndexMismatch
        ))
    );
}

#[test]
fn paths_have_two_digits() {
    assert_eq!(format_bucket_path(0, 0), b"index/00/index_00".to_vec());
    assert_eq!(format_bucket_path(0xab, 0xf), b"index/ab/index_0f".to_vec());
    assert_eq!(format_bucket_path(255, 255), b"index/ff/index_ff".to_vec());
    assert_eq!(format_bucket_path(256, 257), b"index/00/index_01".to_vec());
}

fn scanned(name: &str, version: Option<u32>) -> ScannedFile {
    ScannedFile {
        name: name.as_bytes().to_vec(),
        version: version.map(|v| v.to_le_bytes()),
    }
}

#[test]
fn older_buckets_are_found_by_their_version() {
    assert!(!detect_any_older_immutable_bucket(&vec![]));
    assert!(!detect_any_older_immutable_bucket(&vec![vec![
        scanned("index_00", Some(4)),
        scanned("index_01", Some(1)),
    ]]));
    assert!(detect_any_older_immutable_bucket(&vec![
        vec![scanned("index_00", Some(5))],
        vec![
            scanned("level", Some(0)),
            scanned("index_07.new", Some(1)),
            scanned("index_02", Some(3)),
        ],
    ]));
    assert!(!detect_any_older_immutable_bucket(&vec![vec![scanned(
        "index_00", None
    )]]));
    assert!(!detect_any_older_immutable_bucket(&vec![vec![scanned(
        "inde", Some(1)
    )]]));
}
