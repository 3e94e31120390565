//! Records, headers, filters, MemTables and merges: everything that needs no
//! filesystem.

use std::collections::{BTreeSet, VecDeque};

use lsm_kv::bloom::BloomFilter;
use lsm_kv::error::{Error, IoError, IoErrorKind};
use lsm_kv::header::{
    classify, encode, frames_start, manifest_checksum, wal_checksum, Checksum, Kind, HEADER_LEN,
    MANIFEST_MAGIC, MANIFEST_VERSION, WAL_MAGIC, WAL_VERSION,
};
use lsm_kv::manifest::VersionEdit;
use lsm_kv::memtable::{MemTable, DEFAULT_THRESHOLD};
use lsm_kv::record::Record;
use lsm_kv::scan::{Item, Merge};
use lsm_kv::snapshots::Horizons;
use lsm_kv::{compaction, directory, frame, lz4, manifest, names, rebuild, text, tiers, wal};

// ------------------------------------------------------------------ filters

const LN2: f64 = std::f64::consts::LN_2;

/// A filter for `n` keys at a false-positive rate.
fn sized(expected_n: usize, fp_rate: f64) -> BloomFilter {
    let n = expected_n.max(1) as f64;
    let m = (-n * fp_rate.ln() / (LN2 * LN2)).ceil().max(1.0);
    let bit_count = m as u64;
    let k = ((bit_count as f64 / n) * LN2).round().max(1.0) as u32;
    BloomFilter::new(bit_count, k)
}

#[test]
fn no_false_negatives() {
    let mut f = sized(1000, 0.01);
    for i in 0..1000u32 {
        f.insert(&i.to_le_bytes());
    }
    for i in 0..1000u32 {
        assert!(f.contains(&i.to_le_bytes()), "missing key {i}");
    }
}

#[test]
fn false_positive_rate_is_near_target() {
    let n = 10_000u32;
    let mut f = sized(n as usize, 0.01);
    for i in 0..n {
        f.insert(&i.to_le_bytes());
    }
    let mut fp = 0;
    let trials = 10_000u32;
    for i in n..n + trials {
        if f.contains(&i.to_le_bytes()) {
            fp += 1;
        }
    }
    let rate = fp as f64 / trials as f64;
    assert!(rate < 0.03, "false-positive rate too high: {rate}");
}

#[test]
fn encode_decode_round_trip() {
    let mut f = sized(500, 0.01);
    for i in 0..500u32 {
        f.insert(&i.to_le_bytes());
    }
    let decoded = BloomFilter::decode(&f.encode()).unwrap();
    assert_eq!(decoded.hash_count(), f.hash_count());
    assert_eq!(decoded.bit_count(), f.bit_count());
    for i in 0..500u32 {
        assert!(decoded.contains(&i.to_le_bytes()));
    }
}

#[test]
fn empty_filter_is_valid() {
    let f = sized(0, 0.01);
    assert!(!f.contains(b"anything"));
    let decoded = BloomFilter::decode(&f.encode()).unwrap();
    assert!(!decoded.contains(b"anything"));
}

#[test]
fn decode_rejects_short_buffer() {
    assert!(BloomFilter::decode(&[0u8; 4]).is_err());
}

#[test]
fn a_filter_sets_the_bits_that_two_hashes_choose() {
    let mut f = BloomFilter::new(97, 3);
    f.insert(b"key");
    let h1 = xxhash_rust::xxh3::xxh3_64_with_seed(b"key", 0);
    let h2 = xxhash_rust::xxh3::xxh3_64_with_seed(b"key", 1);
    let mut bits = vec![0u8; 13];
    for i in 0..3u64 {
        let bit = h1.wrapping_add(i.wrapping_mul(h2)) % 97;
        bits[(bit / 8) as usize] |= 1 << (bit % 8);
    }
    let bytes = f.encode();
    assert_eq!(bytes.len(), 12 + 13);
    assert!(bytes.ends_with(&bits));
}

#[test]
fn a_filter_of_no_bits_or_no_hashes_is_refused() {
    let mut bytes = BloomFilter::new(64, 3).encode();
    for b in bytes.iter_mut().take(12) {
        *b = 0;
    }
    assert!(BloomFilter::decode(&bytes).is_err());
}

// ------------------------------------------------------------------ headers

#[test]
fn a_written_header_classifies_as_this_version() {
    let bytes = encode(WAL_MAGIC, WAL_VERSION);
    assert_eq!(
        classify(&bytes, WAL_MAGIC, WAL_VERSION, "wal").unwrap(),
        Kind::Versioned(WAL_VERSION)
    );
    assert_eq!(frames_start(Kind::Versioned(WAL_VERSION)), HEADER_LEN);
}

#[test]
fn an_empty_file_is_empty_rather_than_legacy() {
    assert_eq!(
        classify(&[], WAL_MAGIC, WAL_VERSION, "wal").unwrap(),
        Kind::Empty
    );
}

#[test]
fn a_headerless_file_is_read_as_legacy() {
    let bytes = [0xde, 0xad, 0xbe, 0xef, 4, 0, 0, 0];
    assert_eq!(
        classify(&bytes, WAL_MAGIC, WAL_VERSION, "wal").unwrap(),
        Kind::Legacy
    );
    assert_eq!(frames_start(Kind::Legacy), 0);
}

#[test]
fn the_other_files_magic_is_not_accepted() {
    let bytes = encode(MANIFEST_MAGIC, MANIFEST_VERSION);
    assert_eq!(
        classify(&bytes, WAL_MAGIC, WAL_VERSION, "wal").unwrap(),
        Kind::Legacy
    );
}

#[test]
fn a_version_from_the_future_is_refused_rather_than_guessed_at() {
    let mut bytes = encode(WAL_MAGIC, WAL_VERSION);
    bytes[4..6].copy_from_slice(&(WAL_VERSION + 1).to_le_bytes());
    let err = classify(&bytes, WAL_MAGIC, WAL_VERSION, "wal").unwrap_err();
    assert!(
        matches!(err, Error::BadFormat(_)),
        "a future version gave {err:?} rather than BadFormat"
    );
    assert_eq!(
        err.message(),
        "unsupported sstable format: wal is version 4; this build understands up to 3"
    );
}

#[test]
fn the_checksum_is_decided_by_the_version_not_by_this_build() {
    assert_eq!(wal_checksum(Kind::Legacy), Checksum::IsoHdlc);
    assert_eq!(wal_checksum(Kind::Versioned(1)), Checksum::IsoHdlc);
    assert_eq!(wal_checksum(Kind::Versioned(2)), Checksum::IsoHdlc);
    assert_eq!(wal_checksum(Kind::Versioned(3)), Checksum::Castagnoli);

    assert_eq!(manifest_checksum(Kind::Legacy), Checksum::IsoHdlc);
    assert_eq!(manifest_checksum(Kind::Versioned(1)), Checksum::IsoHdlc);
    assert_eq!(manifest_checksum(Kind::Versioned(2)), Checksum::Castagnoli);
}

#[test]
fn the_two_checksums_are_actually_different() {
    let payload = b"a frame's worth of bytes, more or less";
    assert_ne!(
        Checksum::IsoHdlc.hash(payload),
        Checksum::Castagnoli.hash(payload)
    );
}

#[test]
fn a_file_shorter_than_a_header_is_legacy_not_a_bad_header() {
    assert_eq!(
        classify(b"LSM", WAL_MAGIC, WAL_VERSION, "wal").unwrap(),
        Kind::Legacy
    );
}

#[test]
fn the_hashes_have_their_check_values() {
    // The check values of the two CRCs are those of the nine digits.
    assert_eq!(Checksum::IsoHdlc.hash(b"123456789"), 0xcbf4_3926);
    assert_eq!(Checksum::Castagnoli.hash(b"123456789"), 0xe306_9283);
}

// ------------------------------------------------------------------ records

#[test]
fn put_round_trip() {
    let r = Record::put(b"key".to_vec(), b"value".to_vec(), 7);
    let bytes = r.encode();
    assert_eq!(bytes.len(), r.encoded_len());
    let mut pos = 0;
    let decoded = Record::decode_at(&bytes, &mut pos).unwrap();
    assert_eq!(decoded, r);
    assert_eq!(pos, bytes.len());
}

#[test]
fn tombstone_round_trip() {
    let r = Record::tombstone(b"gone".to_vec(), 99);
    let mut pos = 0;
    let decoded = Record::decode_at(&r.encode(), &mut pos).unwrap();
    assert_eq!(decoded, r);
    assert!(decoded.value.is_none());
}

#[test]
fn truncated_input_errors() {
    let bytes = Record::put(b"k".to_vec(), b"v".to_vec(), 1).encode();
    let mut pos = 0;
    assert!(Record::decode_at(&bytes[..bytes.len() - 1], &mut pos).is_err());
}

#[test]
fn decodes_consecutive_records() {
    let mut buf = Vec::new();
    Record::put(b"a".to_vec(), b"1".to_vec(), 1).encode_into(&mut buf);
    Record::tombstone(b"b".to_vec(), 2).encode_into(&mut buf);
    let mut pos = 0;
    let first = Record::decode_at(&buf, &mut pos).unwrap();
    let second = Record::decode_at(&buf, &mut pos).unwrap();
    assert_eq!(first.key, b"a");
    assert_eq!(second.key, b"b");
    assert_eq!(pos, buf.len());
}

#[test]
fn a_record_is_laid_out_field_by_field() {
    let bytes = Record::put(b"ab".to_vec(), b"xyz".to_vec(), 0x0102).encode();
    assert_eq!(
        bytes,
        [2, 1, 0, 0, 0, 0, 0, 0, 0, 2, 0, 0, 0, b'a', b'b', 3, 0, 0, 0, b'x', b'y', b'z']
    );
    let gone = Record::tombstone(b"ab".to_vec(), 1).encode();
    assert_eq!(gone, [1, 0, 0, 0, 0, 0, 0, 0, 1, 2, 0, 0, 0, b'a', b'b', 0, 0, 0, 0]);
}

#[test]
fn a_record_of_an_unknown_type_is_corrupt() {
    let mut bytes = Record::put(b"k".to_vec(), b"v".to_vec(), 1).encode();
    bytes[8] = 2;
    let mut pos = 0;
    let err = Record::decode_at(&bytes, &mut pos).unwrap_err();
    assert_eq!(err.message(), "corrupt data: bad record type 2");
}

// ---------------------------------------------------------------- memtables

#[test]
fn insert_and_get() {
    let mut m = MemTable::new(DEFAULT_THRESHOLD);
    m.insert(Record::put(b"k".to_vec(), b"v".to_vec(), 1));
    assert_eq!(m.get(b"k").unwrap().value, Some(b"v".to_vec()));
    assert_eq!(m.get(b"missing"), None);
}

#[test]
fn the_newest_record_may_have_the_highest_number() {
    let mut m = MemTable::new(64);
    let last = Record::put(b"k".to_vec(), b"v".to_vec(), u64::MAX);
    m.insert(last.clone());
    assert_eq!(m.get(b"k"), Some(&last));
    m.insert(Record::put(b"k".to_vec(), b"older".to_vec(), 1));
    m.insert(Record::put(b"a".to_vec(), b"other".to_vec(), 2));
    assert_eq!(m.get(b"k"), Some(&last));
    // Below the highest bound it is not seen.
    assert_eq!(m.get_at(b"k", u64::MAX).unwrap().seq, 1);
    assert_eq!(m.get(b"b"), None);
}

#[test]
fn a_rewrite_is_a_new_version_and_the_newest_one_wins() {
    let mut m = MemTable::new(DEFAULT_THRESHOLD);
    m.insert(Record::put(b"k".to_vec(), b"short".to_vec(), 1));
    let size_after_first = m.size();
    m.insert(Record::put(
        b"k".to_vec(),
        b"a much longer value".to_vec(),
        2,
    ));
    assert_eq!(m.len(), 2, "the older version was discarded");
    assert!(m.size() > size_after_first);
    assert_eq!(m.get(b"k").unwrap().seq, 2);
}

#[test]
fn a_horizon_between_two_writes_sees_the_older_one() {
    let mut m = MemTable::new(DEFAULT_THRESHOLD);
    m.insert(Record::put(b"k".to_vec(), b"first".to_vec(), 1));
    m.insert(Record::put(b"k".to_vec(), b"second".to_vec(), 2));

    assert_eq!(
        m.get_at(b"k", 2).map(|r| r.value.clone()),
        Some(Some(b"first".to_vec())),
        "a horizon at 2 must see the write at 1"
    );
    assert_eq!(
        m.get_at(b"k", 3).map(|r| r.value.clone()),
        Some(Some(b"second".to_vec()))
    );
    assert!(
        m.get_at(b"k", 1).is_none(),
        "a horizon below every version must see nothing"
    );
}

#[test]
fn tombstone_shadows_the_value_beneath_it() {
    let mut m = MemTable::new(DEFAULT_THRESHOLD);
    m.insert(Record::put(b"k".to_vec(), b"v".to_vec(), 1));
    m.insert(Record::tombstone(b"k".to_vec(), 2));
    assert!(m.get(b"k").unwrap().value.is_none());
    assert_eq!(
        m.get_at(b"k", 2).unwrap().value,
        Some(b"v".to_vec()),
        "a horizon below the tombstone must still see the value"
    );
}

#[test]
fn iter_is_key_ascending_and_sequence_descending() {
    let mut m = MemTable::new(DEFAULT_THRESHOLD);
    for k in [b"c", b"a", b"b"] {
        m.insert(Record::put(k.to_vec(), b"v".to_vec(), 1));
    }
    m.insert(Record::put(b"b".to_vec(), b"v2".to_vec(), 9));

    let order: Vec<(Vec<u8>, u64)> = m.iter().map(|r| (r.key.clone(), r.seq)).collect();
    assert_eq!(
        order,
        vec![
            (b"a".to_vec(), 1),
            (b"b".to_vec(), 9),
            (b"b".to_vec(), 1),
            (b"c".to_vec(), 1),
        ]
    );
}

#[test]
fn range_respects_both_bounds() {
    let mut m = MemTable::new(DEFAULT_THRESHOLD);
    for k in [b"a", b"b", b"c", b"d"] {
        m.insert(Record::put(k.to_vec(), b"v".to_vec(), 1));
    }
    let keys = |start: Option<&[u8]>, end: Option<&[u8]>| -> Vec<Vec<u8>> {
        m.range(start, end).map(|r| r.key.clone()).collect()
    };
    assert_eq!(
        keys(Some(b"b"), Some(b"d")),
        vec![b"b".to_vec(), b"c".to_vec()],
        "the end bound must be exclusive and the start inclusive"
    );
    assert_eq!(keys(None, Some(b"b")), vec![b"a".to_vec()]);
    assert_eq!(keys(Some(b"c"), None), vec![b"c".to_vec(), b"d".to_vec()]);
    assert_eq!(keys(None, None).len(), 4);
    assert!(keys(Some(b"x"), None).is_empty());
}

#[test]
fn range_includes_every_version_of_the_start_key() {
    let mut m = MemTable::new(DEFAULT_THRESHOLD);
    m.insert(Record::put(b"k".to_vec(), b"one".to_vec(), 1));
    m.insert(Record::put(b"k".to_vec(), b"two".to_vec(), 2));
    let seqs: Vec<u64> = m.range(Some(b"k"), None).map(|r| r.seq).collect();
    assert_eq!(seqs, vec![2, 1]);
}

#[test]
fn is_full_tracks_threshold() {
    let mut m = MemTable::new(64);
    assert!(!m.is_full());
    let mut n = 0u8;
    while !m.is_full() {
        m.insert(Record::put(vec![n], b"value".to_vec(), u64::from(n)));
        n += 1;
    }
    assert!(m.is_full());
    // Each of them takes 23 bytes.
    assert_eq!((n, m.size()), (3, 69));
}

#[test]
fn rewriting_one_key_still_fills_the_memtable() {
    let mut m = MemTable::new(1024);
    for seq in 0..1000u64 {
        m.insert(Record::put(b"k".to_vec(), b"value".to_vec(), seq));
        if m.is_full() {
            return;
        }
    }
    panic!("a thousand versions of one key did not fill a 1 KiB MemTable");
}

#[test]
fn a_table_put_together_in_any_order_reads_the_same() {
    let records = vec![
        Record::put(b"b".to_vec(), b"1".to_vec(), 1),
        Record::put(b"a".to_vec(), b"2".to_vec(), 2),
        Record::tombstone(b"b".to_vec(), 3),
    ];
    let mut whole = MemTable::new(DEFAULT_THRESHOLD);
    assert!(rebuild::room_for(&whole, &records));
    rebuild::insert_all(&mut whole, records.clone());
    let mut sorted = MemTable::new(DEFAULT_THRESHOLD);
    rebuild::insert_all(&mut sorted, whole.as_slice().to_vec());
    assert_eq!(whole.as_slice(), sorted.as_slice());
    let order: Vec<u64> = whole.iter().map(|r| r.seq).collect();
    assert_eq!(order, vec![2, 3, 1]);
}

// ------------------------------------------------------------------- merges

fn put(key: &str, value: &str, seq: u64) -> Item {
    Ok(Record::put(
        key.as_bytes().to_vec(),
        value.as_bytes().to_vec(),
        seq,
    ))
}

fn dead(key: &str, seq: u64) -> Item {
    Ok(Record::tombstone(key.as_bytes().to_vec(), seq))
}

fn merge_of(sources: Vec<Vec<Item>>, bound: u64, end: Option<&str>) -> Merge {
    Merge::new(
        sources.into_iter().map(VecDeque::from).collect(),
        bound,
        end.map(|e| e.as_bytes().to_vec()),
    )
}

fn merged(sources: Vec<Vec<Item>>, bound: u64, end: Option<&str>) -> Vec<(String, String)> {
    let mut merge = merge_of(sources, bound, end);
    let mut out = Vec::new();
    while let Some(r) = merge.next() {
        let (k, v) = r.unwrap();
        out.push((String::from_utf8(k).unwrap(), String::from_utf8(v).unwrap()));
    }
    out
}

#[test]
fn sources_interleave_by_key() {
    let got = merged(
        vec![
            vec![put("a", "1", 1), put("c", "3", 3)],
            vec![put("b", "2", 2), put("d", "4", 4)],
        ],
        u64::MAX,
        None,
    );
    assert_eq!(
        got,
        vec![
            ("a".into(), "1".into()),
            ("b".into(), "2".into()),
            ("c".into(), "3".into()),
            ("d".into(), "4".into()),
        ]
    );
}

#[test]
fn the_highest_sequence_wins_regardless_of_source_order() {
    let newer_second = merged(
        vec![vec![put("k", "old", 1)], vec![put("k", "new", 9)]],
        u64::MAX,
        None,
    );
    let newer_first = merged(
        vec![vec![put("k", "new", 9)], vec![put("k", "old", 1)]],
        u64::MAX,
        None,
    );
    assert_eq!(newer_second, vec![("k".into(), "new".into())]);
    assert_eq!(newer_first, newer_second);
}

#[test]
fn a_tombstone_removes_the_key_rather_than_appearing_as_one() {
    let got = merged(
        vec![
            vec![dead("k", 9), put("k", "old", 1)],
            vec![put("z", "z", 2)],
        ],
        u64::MAX,
        None,
    );
    assert_eq!(got, vec![("z".into(), "z".into())]);
}

#[test]
fn a_horizon_below_a_tombstone_sees_what_it_covered() {
    let got = merged(vec![vec![dead("k", 9), put("k", "old", 1)]], 5, None);
    assert_eq!(got, vec![("k".into(), "old".into())]);
}

#[test]
fn the_end_bound_is_exclusive() {
    let got = merged(
        vec![vec![put("a", "1", 1), put("b", "2", 2), put("c", "3", 3)]],
        u64::MAX,
        Some("c"),
    );
    assert_eq!(
        got,
        vec![("a".into(), "1".into()), ("b".into(), "2".into())]
    );
}

#[test]
fn an_error_in_a_source_is_reported_rather_than_skipped() {
    let sources = vec![
        vec![Err(Error::Corrupt("block".into()))],
        vec![put("a", "1", 1)],
    ];
    let mut merge = merge_of(sources, u64::MAX, None);
    assert!(
        merge.next().is_some_and(|r| r.is_err()),
        "a failing source was overtaken by a working one"
    );
}

#[test]
fn no_sources_is_an_empty_scan() {
    let empty: Vec<Vec<Item>> = vec![];
    assert!(merged(empty, u64::MAX, None).is_empty());
}

#[test]
fn a_source_that_is_fed_later_is_merged_like_one_that_was_full() {
    let mut merge = merge_of(vec![vec![], vec![put("b", "2", 2)]], u64::MAX, None);
    assert!(merge.is_dry(0) && !merge.is_dry(1));
    merge.feed(
        0,
        VecDeque::from(vec![Record::put(b"a".to_vec(), b"1".to_vec(), 1)]),
    );
    assert_eq!(merge.next().unwrap().unwrap().0, b"a".to_vec());
    assert_eq!(merge.next().unwrap().unwrap().0, b"b".to_vec());
    assert!(merge.next().is_none());
}

// --------------------------------------------------------------- compaction

fn rec(key: &str, value: Option<&str>, seq: u64) -> Record {
    match value {
        Some(v) => Record::put(key.as_bytes().to_vec(), v.as_bytes().to_vec(), seq),
        None => Record::tombstone(key.as_bytes().to_vec(), seq),
    }
}

#[test]
fn compaction_keeps_what_a_snapshot_can_see() {
    let inputs = || {
        vec![
            vec![rec("k", Some("v1"), 1)],
            vec![rec("k", Some("v5"), 5)],
            vec![rec("k", None, 9)],
        ]
    };
    let seqs = |rs: Vec<Record>| rs.iter().map(|r| r.seq).collect::<Vec<u64>>();
    // No snapshot: the deletion hides everything, and goes itself if it may.
    assert_eq!(
        seqs(compaction::compact_records(inputs(), u64::MAX, false)),
        vec![9]
    );
    assert!(compaction::compact_records(inputs(), u64::MAX, true).is_empty());
    // A snapshot between the second and the third write.
    assert_eq!(
        seqs(compaction::compact_records(inputs(), 6, true)),
        vec![9, 5]
    );
    // A snapshot between the first and the second.
    assert_eq!(
        seqs(compaction::compact_records(inputs(), 2, true)),
        vec![9, 5, 1]
    );
}

#[test]
fn the_first_run_of_one_tier_is_picked() {
    assert_eq!(tiers::pick_compaction(&[1000, 900, 300, 290, 260], 3), Some((2, 5)));
    assert_eq!(tiers::pick_compaction(&[1000, 900, 300, 290, 260], 2), Some((0, 2)));
    assert_eq!(tiers::pick_compaction(&[1000, 400, 200, 100], 2), None);
    assert_eq!(tiers::pick_compaction(&[7, 7], 3), None);
    // 511 has nine bits, and 512 has ten.
    assert_eq!(tiers::pick_compaction(&[511, 512], 2), None);
    assert_eq!(tiers::pick_compaction(&[512, 1023], 2), Some((0, 2)));
    assert_eq!(tiers::pick_compaction(&[0, 0], 2), Some((0, 2)));
}

#[test]
fn the_lowest_horizon_in_use_is_the_one_that_counts() {
    let mut h = Horizons::new();
    assert_eq!(h.lowest(), u64::MAX);
    h.hold(7);
    h.hold(3);
    h.hold(3);
    assert_eq!(h.lowest(), 3);
    h.release(3);
    assert_eq!(h.lowest(), 3);
    h.release(3);
    assert_eq!(h.lowest(), 7);
    h.release(100);
    h.release(7);
    assert_eq!(h.lowest(), u64::MAX);
}

// --------------------------------------------------------- names and numbers

#[test]
fn parse_sst_id_matching() {
    assert_eq!(names::parse_sst_id("sst_0000000007.db"), Some(7));
    assert_eq!(names::parse_sst_id("wal.log"), None);
    assert_eq!(names::parse_sst_id("sst_.db"), None);
}

#[test]
fn names_are_made_and_taken_apart() {
    assert_eq!(names::sst_path("/db", 7), "/db/sst_0000000007.db");
    assert_eq!(names::manifest_path("/db", 3), "/db/MANIFEST-000003");
    assert_eq!(names::current_line(3), "MANIFEST-000003\n");
    assert_eq!(names::base("/db/sst_0000000007.db"), "sst_0000000007.db");
    assert_eq!(names::parse_sst_id("sst_+5.db"), Some(5));
    assert_eq!(names::parse_sst_id("sst_18446744073709551616.db"), None);
    assert_eq!(names::parse_current(b" MANIFEST-000012\n").unwrap(), 12);
    let err = names::parse_current(b"garbage\"").unwrap_err();
    assert!(
        err.message().contains("\"garbage\\\"\""),
        "the pointer is not quoted: {}",
        err.message()
    );
    let err = names::parse_current(&[b'M', 0xff]).unwrap_err();
    assert!(err.message().contains('\u{fffd}'), "{}", err.message());
}

#[test]
fn numbers_are_written_and_read_in_decimal() {
    assert_eq!(text::decimal(0), "0");
    assert_eq!(text::decimal(u64::MAX), "18446744073709551615");
    assert_eq!(text::padded_decimal(42, 6), "000042");
    assert_eq!(text::padded_decimal(1234567, 6), "1234567");
    let parse = |s: &str| text::parse_u64(&text::chars_of(s));
    assert_eq!(parse("18446744073709551615"), Some(u64::MAX));
    assert_eq!(parse("18446744073709551616"), None);
    assert_eq!(parse(""), None);
    assert_eq!(parse("+"), None);
    assert_eq!(parse("1a"), None);
}

#[test]
fn what_a_crash_leaves_is_told_from_what_is_live() {
    let live: BTreeSet<u64> = BTreeSet::from([1, 2]);
    assert!(!directory::is_left_over("LOCK", &live));
    assert!(!directory::is_left_over("sst_0000000001.db", &live));
    assert!(directory::is_left_over("sst_0000000003.db", &live));
    assert!(directory::is_left_over("sst_0000000001.db.tmp", &live));
    assert!(directory::is_left_over("wal.log.tmp", &live));
    assert!(!directory::is_left_over("wal.log", &live));
    assert!(!directory::is_left_over("CURRENT", &live));
    assert!(!directory::is_left_over("somebody-elses-file", &live));
}

#[test]
fn only_a_held_lock_is_reported_as_one() {
    let held = directory::lock_error("/db", IoError::new(IoErrorKind::WouldBlock, "held"));
    assert_eq!(
        held.message(),
        "database directory is already open by another handle: /db"
    );
    let other = directory::lock_error("/db", IoError::new(IoErrorKind::Other, "no space"));
    assert_eq!(other.message(), "io error: no space");
}

// ------------------------------------------------------------ frames and logs

fn framed(checksum: u32, payload: &[u8]) -> Vec<u8> {
    let mut bytes = Vec::new();
    bytes.extend(checksum.to_le_bytes());
    bytes.extend((payload.len() as u32).to_le_bytes());
    bytes.extend(payload);
    bytes
}

#[test]
fn a_frame_is_a_checksum_a_length_and_a_payload() {
    let mut out = Vec::new();
    frame::push_frame(&mut out, Checksum::Castagnoli, b"123456789");
    assert_eq!(out, framed(0xe306_9283, b"123456789"));
    assert_eq!(frame::next_frame(&out, 0, Checksum::Castagnoli), Some(17));
    assert_eq!(frame::next_frame(&out, 17, Checksum::Castagnoli), None);
    assert_eq!(frame::next_frame(&out, 0, Checksum::IsoHdlc), None);
    assert_eq!(frame::next_frame(&out[..16], 0, Checksum::Castagnoli), None);
}

fn log_of(batches: &[&[Record]]) -> Vec<u8> {
    let mut log = encode(WAL_MAGIC, WAL_VERSION).to_vec();
    for batch in batches {
        let mut payload = (batch.len() as u32).to_le_bytes().to_vec();
        for r in batch.iter() {
            r.encode_into(&mut payload);
        }
        frame::push_frame(&mut log, Checksum::Castagnoli, &payload);
    }
    log
}

#[test]
fn wherever_a_log_is_cut_whole_batches_are_replayed() {
    let a = [rec("a", Some("1"), 1)];
    let b = [rec("b", Some("2"), 2), rec("c", None, 3)];
    let log = log_of(&[&a, &b]);
    let one = log_of(&[&a]).len();
    for n in 0..=log.len() {
        let replayed = wal::replay_bytes(&log[..n]).unwrap();
        let expected = if n < one {
            0
        } else if n < log.len() {
            1
        } else {
            3
        };
        assert_eq!(replayed.len(), expected, "cut at {n}");
    }
}

#[test]
fn a_frame_that_verifies_and_does_not_decode_is_corrupt() {
    let mut log = encode(WAL_MAGIC, WAL_VERSION).to_vec();
    frame::push_frame(&mut log, Checksum::Castagnoli, &[1, 0]);
    let err = wal::replay_bytes(&log).unwrap_err();
    assert_eq!(
        err.message(),
        "corrupt data: WAL frame too short for a batch count"
    );
    let mut log = encode(WAL_MAGIC, WAL_VERSION).to_vec();
    frame::push_frame(&mut log, Checksum::Castagnoli, &[0, 0, 0, 0, 9]);
    let err = wal::replay_bytes(&log).unwrap_err();
    assert_eq!(err.message(), "corrupt data: trailing bytes in WAL frame");
}

#[test]
fn a_batch_fits_a_frame_unless_the_frame_takes_only_one_record() {
    let two = [rec("a", Some("1"), 1), rec("b", Some("2"), 2)];
    assert!(wal::fits(true, &two));
    assert!(!wal::fits(false, &two));
    assert!(wal::fits(false, &two[..1]));
}

#[test]
fn edits_are_written_and_read_back() {
    for edit in [
        VersionEdit::AddTable { id: 7 },
        VersionEdit::DeleteTable { id: u64::MAX },
        VersionEdit::SetNextSeq(0x0102),
        VersionEdit::SetNextSstId(3),
    ] {
        let bytes = edit.encode();
        assert_eq!(bytes.len(), 9);
        assert_eq!(VersionEdit::decode(&bytes).unwrap(), edit);
    }
    assert_eq!(
        VersionEdit::SetNextSeq(0x0102).encode(),
        [2, 2, 1, 0, 0, 0, 0, 0, 0]
    );
    let err = VersionEdit::decode(&[4, 0, 0, 0, 0, 0, 0, 0, 0]).unwrap_err();
    assert_eq!(err.message(), "corrupt data: bad manifest edit tag 4");
    let err = VersionEdit::decode(&[0, 1]).unwrap_err();
    assert_eq!(err.message(), "corrupt data: bad manifest payload length");
}

#[test]
fn a_manifest_replays_to_the_tables_that_are_left() {
    let mut log = encode(MANIFEST_MAGIC, MANIFEST_VERSION).to_vec();
    for edit in [
        VersionEdit::AddTable { id: 1 },
        VersionEdit::AddTable { id: 2 },
        VersionEdit::DeleteTable { id: 1 },
        VersionEdit::SetNextSeq(9),
    ] {
        frame::push_frame(&mut log, Checksum::Castagnoli, &edit.encode());
    }
    let state = manifest::replay_bytes("m", &log).unwrap();
    assert_eq!(state.live_tables, BTreeSet::from([2]));
    assert_eq!(state.next_seq, 9);
    // What the snapshot says is what there was.
    let mut again = encode(MANIFEST_MAGIC, MANIFEST_VERSION).to_vec();
    for edit in state.snapshot_edits() {
        frame::push_frame(&mut again, Checksum::Castagnoli, &edit.encode());
    }
    let same = manifest::replay_bytes("m", &again).unwrap();
    assert_eq!(same.live_tables, state.live_tables);
    assert_eq!(same.next_seq, 9);
    let err = manifest::replay_bytes("m", &log[..11]).unwrap_err();
    assert!(
        err.message().starts_with("corrupt data: m holds 3 bytes and not one readable frame"),
        "{}",
        err.message()
    );
}

// ------------------------------------------------------------------ blocks

#[test]
fn a_block_is_expanded_to_what_was_compressed() {
    let raw: Vec<u8> = (0..10_000u32).map(|i| (i / 100) as u8).collect();
    let packed = lz4_flex::compress_prepend_size(&raw);
    assert_eq!(lz4::expand(&packed).unwrap(), raw);
    assert!(lz4::expand(&packed[..packed.len() - 1]).is_err());
    assert!(lz4::expand(&[1, 2]).is_err());
}

#[test]
fn a_length_that_overflows_is_refused_and_no_other() {
    // Literals, as many as the bytes `0xff` count.
    let counted = |n: usize| {
        let mut block = vec![1, 0, 0, 0, 0xf0];
        block.resize(5 + n, 0xff);
        block.push(0);
        lz4::expand(&block).unwrap_err()
    };
    let refused = "a length in the block is too large";
    let longest = if usize::MAX as u64 > u32::MAX as u64 {
        16_843_009
    } else {
        8_421_504
    };
    assert_eq!(counted(longest), refused);
    assert_eq!(counted(longest - 1), "literal is out of bounds of the input");
    // A size that cannot be allocated is refused on a small machine only.
    assert!(lz4::expand(&[0, 0, 0, 0, 0]).is_ok());
}
