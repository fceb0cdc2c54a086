//! Byte formats: frames, records, snapshots and segment names.

use kvstore::error::KvError;
use kvstore::frame::{
    check_crc, encode_frame, frame_with, write_frame, FrameError, FrameReader, MAX_PAYLOAD_LEN,
};
use kvstore::journal::{log_frame, log_frames, snapshot_payload};
use kvstore::keymap::KeyMap;
use kvstore::record::{
    decode_entry, decode_header, decode_record, encode_entry, encode_header, encode_record,
    record_error_text, EntrySnapshot, LogRecord, Mutation, SnapshotHeader, SNAPSHOT_MAGIC,
};
use kvstore::store::Entry;
use kvstore::wal;

#[test]
fn frame_layout() {
    // The CRC-32 of "123456789" is 0xCBF43926.
    let mut expected = b"KVS1\x09\x00\x00\x00123456789KVS2".to_vec();
    expected.extend_from_slice(&[0x26, 0x39, 0xf4, 0xcb]);
    assert_eq!(encode_frame(b"123456789"), expected);
    let mut buf = vec![7];
    write_frame(&mut buf, b"123456789");
    assert_eq!(buf[0], 7);
    assert_eq!(&buf[1..], &expected[..]);
}

#[test]
fn frames_are_read_back_in_order() {
    let mut data = Vec::new();
    let payloads: [&[u8]; 4] = [b"one", b"", b"KVS1KVS2", &[0xff; 300]];
    for p in payloads {
        write_frame(&mut data, p);
    }
    let total = data.len() as u64;
    let mut r = FrameReader::new(data);
    assert_eq!(r.position(), 0);
    for p in payloads {
        assert_eq!(r.next_frame().unwrap(), p);
    }
    assert_eq!(r.position(), total);
    assert!(matches!(r.next_frame(), Err(FrameError::Eof)));
    assert_eq!(r.seek(19), 19);
    assert_eq!(r.next_frame().unwrap(), b"");
}

#[test]
fn cut_frames_are_torn_and_do_not_move_the_reader() {
    let whole = encode_frame(b"payload");
    for n in 1..whole.len() {
        let mut r = FrameReader::new(whole[..n].to_vec());
        assert!(matches!(r.next_frame(), Err(FrameError::Torn)), "{n}");
        assert_eq!(r.position(), 0);
    }
}

fn corrupt(data: Vec<u8>) -> String {
    match FrameReader::new(data).next_frame() {
        Err(FrameError::Corrupt(m)) => m,
        other => panic!("{other:?}"),
    }
}

#[test]
fn corrupt_frames() {
    let whole = encode_frame(b"ab");
    let mut bad = whole.clone();
    bad[3] = 0xAF;
    assert_eq!(corrupt(bad), "bad payload magic [4b, 56, 53, af] at offset 0");
    let mut bad = whole.clone();
    bad[4..8].copy_from_slice(&(MAX_PAYLOAD_LEN + 1).to_le_bytes());
    assert_eq!(
        corrupt(bad),
        "frame payload length 67108865 exceeds limit 67108864"
    );
    let mut bad = whole.clone();
    bad[10] = 0;
    assert_eq!(corrupt(bad), "bad checksum frame magic");
    let mut bad = whole.clone();
    bad[9] = b'c';
    assert_eq!(corrupt(bad), "CRC mismatch at frame ending at offset 18");
    assert_eq!(FrameError::Eof.message(), "end of frames");
    assert_eq!(FrameError::Torn.message(), "torn (incomplete) frame at tail");
    assert_eq!(FrameError::Corrupt("x".into()).message(), "corrupt frame: x");
    let io = std::io::Error::new(std::io::ErrorKind::Other, "gone");
    assert_eq!(FrameError::from(io).message(), "I/O error: gone");
}

fn record() -> LogRecord {
    LogRecord {
        lsn: 0x0102,
        mutations: vec![
            Mutation::Put {
                key: b"k".to_vec(),
                value: b"vw".to_vec(),
            },
            Mutation::Delete { key: b"x".to_vec() },
        ],
    }
}

#[test]
fn record_layout() {
    let expected: Vec<u8> = [
        &[2u8, 1, 0, 0, 0, 0, 0, 0][..],
        &[2, 0, 0, 0, 0, 0, 0, 0],
        &[0, 0, 0, 0],
        &[1, 0, 0, 0, 0, 0, 0, 0],
        b"k",
        &[2, 0, 0, 0, 0, 0, 0, 0],
        b"vw",
        &[1, 0, 0, 0],
        &[1, 0, 0, 0, 0, 0, 0, 0],
        b"x",
    ]
    .concat();
    assert_eq!(encode_record(&record()).unwrap(), expected);
    assert_eq!(decode_record(&expected).unwrap(), record());
    // What follows a record is ignored; a record cut short is none.
    let mut more = expected.clone();
    more.push(9);
    assert_eq!(decode_record(&more).unwrap(), record());
    for n in 0..expected.len() {
        assert!(decode_record(&expected[..n]).is_err());
    }
    let mut bad = expected.clone();
    bad[16] = 2;
    assert_eq!(
        decode_record(&bad).unwrap_err(),
        "invalid value: integer `2`, expected variant index 0 <= i < 2"
    );
    bad[19] = 0xff;
    assert_eq!(
        decode_record(&bad).unwrap_err(),
        "invalid value: integer `4278190082`, expected variant index 0 <= i < 2"
    );
    assert_eq!(
        decode_record(&expected[..7]).unwrap_err(),
        "io error: unexpected end of file"
    );
    assert_eq!(record_error_text("x, expected `Ok` or `Err`"), "x, expected variant index 0 <= i < 2");
    assert_eq!(record_error_text("`Ok` or `Err`."), "`Ok` or `Err`.");
    assert_eq!(record_error_text(""), "");
    assert_eq!(record().mutations[0].key(), b"k");
    assert_eq!(record().mutations[1].key(), b"x");
    assert_eq!(record().copy(), record());
}

#[test]
fn snapshot_header_and_entry_layout() {
    let header = SnapshotHeader {
        magic: SNAPSHOT_MAGIC,
        lsn: 5,
        key_count: 3,
    };
    let bytes = encode_header(&header).unwrap();
    assert_eq!(&bytes[..8], b"KVSSNAP1");
    assert_eq!(bytes.len(), 24);
    assert_eq!(bytes[8], 5);
    assert_eq!(bytes[16], 3);
    assert_eq!(decode_header(&bytes).unwrap(), header);
    assert!(decode_header(&bytes[..23]).is_err());

    let entry = EntrySnapshot {
        key: b"ab".to_vec(),
        value: b"c".to_vec(),
        version: 9,
    };
    let bytes = encode_entry(entry.clone()).unwrap();
    assert_eq!(
        bytes,
        [
            &[2u8, 0, 0, 0, 0, 0, 0, 0][..],
            b"ab",
            &[1, 0, 0, 0, 0, 0, 0, 0],
            b"c",
            &[9, 0, 0, 0, 0, 0, 0, 0],
        ]
        .concat()
    );
    assert_eq!(decode_entry(&bytes).unwrap(), entry);
    assert!(decode_entry(&bytes[..bytes.len() - 1]).is_err());
}

#[test]
fn snapshots_are_read_back() {
    let mut table = KeyMap::new();
    for (k, v, version) in [("b", "2", 7u64), ("a", "1", 3), ("c", "", 9)] {
        table.insert(
            k.as_bytes().to_vec(),
            Entry {
                value: v.as_bytes().to_vec(),
                version,
            },
        );
    }
    let (meta, bytes) = kvstore::snapshot::write(9, &table).unwrap();
    assert_eq!(meta.lsn, 9);
    let s = kvstore::snapshot::load("p", Some(bytes)).unwrap().unwrap();
    assert_eq!(s.lsn, 9);
    assert_eq!(s.entries.len(), 3);
    assert_eq!(s.entries.key_at(0), b"a");
    assert_eq!(s.entries.get(b"b").unwrap().version, 7);
    assert_eq!(s.entries.get(b"c").unwrap().value, b"");
    assert!(kvstore::snapshot::load("p", None).unwrap().is_none());
}

#[test]
fn apply_record_changes_the_table() {
    let mut table = KeyMap::new();
    table.insert(
        b"x".to_vec(),
        Entry {
            value: vec![1],
            version: 1,
        },
    );
    kvstore::snapshot::apply_record(&mut table, &record());
    assert_eq!(table.len(), 1);
    assert_eq!(table.get(b"k").unwrap().version, 0x0102);
    assert!(!table.contains(b"x"));
}

#[test]
fn segment_names() {
    assert_eq!(wal::segment_name(7), "wal-00000000000000000007");
    assert_eq!(wal::segment_name(u64::MAX), "wal-18446744073709551615");
    assert_eq!(wal::segment_path("d", 1), "d/wal-00000000000000000001");
    assert_eq!(wal::segment_path("d/", 1), "d/wal-00000000000000000001");
    assert_eq!(kvstore::snapshot::snapshot_path("d/e"), "d/e/snapshot.bin");
    assert_eq!(kvstore::snapshot::snapshot_path(""), "snapshot.bin");
    for i in [0, 1, 99, u64::MAX] {
        assert_eq!(wal::parse_segment_name(&wal::segment_name(i)), Some(i));
    }
    // Names come in the order of their indices.
    let order = [0, 1, 9, 10, 11, 99, 100, 12_345, 99_999, u64::MAX - 1, u64::MAX];
    for i in order {
        for j in order {
            assert_eq!(wal::segment_name(i) < wal::segment_name(j), i < j);
        }
    }
    assert_eq!(wal::parse_segment_name("wal-18446744073709551616"), None);
    assert_eq!(wal::parse_segment_name("wal-0000000000000000001"), None);
    assert_eq!(wal::parse_segment_name("wal-000000000000000000x1"), None);
    assert_eq!(wal::parse_segment_name("val-00000000000000000001"), None);
    assert_eq!(wal::parse_segment_name("wal-+0000000000000000001"), Some(1));
    assert_eq!(wal::parse_segment_name("wal-\u{e9}000000000000000001"), None);
    let names: Vec<String> = [
        "wal-00000000000000000010",
        "snapshot.bin",
        "wal-00000000000000000002",
        "wal-+0000000000000000002",
    ]
    .iter()
    .map(|s| s.to_string())
    .collect();
    assert_eq!(wal::segment_indices(&names), vec![2, 10]);
}

#[test]
fn last_lsn_of_a_segment() {
    let frame = encode_frame(&encode_record(&record()).unwrap());
    assert_eq!(wal::last_lsn_in_file("p", vec![]).unwrap(), 0);
    assert_eq!(wal::last_lsn_in_file("p", frame.clone()).unwrap(), 0x0102);
    let err = wal::last_lsn_in_file("p", frame[..5].to_vec()).unwrap_err();
    assert_eq!(
        err.message(),
        "persistent data is corrupt: cannot scan sealed segment p: torn (incomplete) frame at tail"
    );
}

#[test]
fn numbers_as_text() {
    assert_eq!(kvstore::text::number_text(0), "0");
    assert_eq!(kvstore::text::number_text(u64::MAX), "18446744073709551615");
    assert_eq!(kvstore::text::signed_text(i64::MIN), "-9223372036854775808");
    assert_eq!(kvstore::text::hex_text(0xa7), "a7");
    assert_eq!(kvstore::text::read_unsigned(b"18446744073709551615"), Some(u64::MAX));
    assert_eq!(kvstore::text::read_unsigned(b"18446744073709551616"), None);
    assert_eq!(kvstore::text::read_signed(b"-9223372036854775808"), Some(i64::MIN));
    assert_eq!(kvstore::text::read_signed(b"9223372036854775808"), None);
    assert_eq!(kvstore::text::trim(" \u{2003}x y\n"), "x y");
    assert_eq!(kvstore::text::trim(" \t "), "");
}

#[test]
fn one_flipped_bit_is_corruption() {
    let whole = encode_frame(b"payload");
    for i in (0..whole.len()).filter(|i| !(4..8).contains(i)) {
        for bit in 0..8 {
            let mut bad = whole.clone();
            bad[i] ^= 1 << bit;
            corrupt(bad);
        }
    }
}

#[test]
fn frame_with_a_given_checksum() {
    assert_eq!(
        frame_with(b"a", 0x0102_0304),
        b"KVS1\x01\x00\x00\x00aKVS2\x04\x03\x02\x01"
    );
    assert_eq!(encode_frame(b"123456789"), frame_with(b"123456789", 0xCBF4_3926));
    assert!(check_crc(7, 7, 40).is_ok());
    match check_crc(7, 8, 40) {
        Err(FrameError::Corrupt(m)) => assert_eq!(m, "CRC mismatch at frame ending at offset 40"),
        other => panic!("{other:?}"),
    }
}

#[test]
fn little_endian_numbers() {
    assert_eq!(kvstore::endian::le32_bytes(0x0102_0304), [4, 3, 2, 1]);
    assert_eq!(kvstore::endian::read_le32(&[4, 3, 2, 1]), 0x0102_0304);
    assert_eq!(kvstore::endian::read_le32(&[0xff; 4]), u32::MAX);
}

#[test]
fn cut_snapshots_are_refused() {
    let mut table = KeyMap::new();
    for k in [&b"a"[..], b"b"] {
        table.insert(
            k.to_vec(),
            Entry {
                value: vec![1, 2],
                version: 1,
            },
        );
    }
    let (_, bytes) = kvstore::snapshot::write(1, &table).unwrap();
    for n in 0..bytes.len() {
        let r = kvstore::snapshot::load("p", Some(bytes[..n].to_vec()));
        assert!(matches!(r, Err(kvstore::error::StoreError::Corruption(_))), "{n}");
    }
    assert!(kvstore::snapshot::load("p", Some(bytes)).is_ok());
}

#[test]
fn log_frame_layout() {
    let one = log_frame(b"123456789").unwrap();
    assert_eq!(one, b"\x09\x00\x00\x00\x26\x39\xf4\xcb123456789");
    let two = log_frame(b"").unwrap();
    assert_eq!(two, [0; 8]);
    let data = [one.clone(), two].concat();
    let (payloads, end) = log_frames(data.clone()).unwrap();
    assert_eq!(payloads, vec![b"123456789".to_vec(), vec![]]);
    assert_eq!(end, 25);
    assert_eq!(log_frames(vec![]).unwrap(), (vec![], 0));

    // A torn tail is dropped.
    for n in 17..25 {
        let (payloads, end) = log_frames(data[..n].to_vec()).unwrap();
        assert_eq!((payloads.len(), end), (1, 17), "{n}");
    }
    // Any other change behind a length is corruption at the frame's offset.
    for i in 4..17 {
        let mut bad = [log_frame(b"").unwrap(), one.clone()].concat();
        bad[8 + i] ^= 0x10;
        match log_frames(bad) {
            Err(KvError::CorruptWal { offset, message }) => {
                assert_eq!((offset, message.as_str()), (8, "CRC mismatch"));
            }
            other => panic!("{other:?}"),
        }
    }
}

#[test]
fn snapshot_file_of_the_versioned_store() {
    let file = log_frame(b"state").unwrap();
    assert_eq!(snapshot_payload(file.clone()).unwrap(), b"state");
    let refused = |data: Vec<u8>| match snapshot_payload(data) {
        Err(KvError::CorruptSnapshot(m)) => m,
        other => panic!("{other:?}"),
    };
    for n in 0..file.len() {
        assert_eq!(refused(file[..n].to_vec()), "unexpected end of file");
    }
    let mut bad = file.clone();
    bad[9] = 0;
    assert_eq!(refused(bad), "CRC mismatch");
    let mut long = file.clone();
    long.extend_from_slice(b"xy");
    assert_eq!(refused(long), "2 bytes behind the end");
}
