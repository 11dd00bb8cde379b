use aqfs::aqfs::{Error, FileMeta, Path, Timestamp};
use aqfs::codec::{decode_journal_file, encode_journal_file, Journal, JournalFile, JournalRecord};
use aqfs::keys::{make_content_key, make_segment_key};

fn ts(y: i32, mo: u32, d: u32, h: u32, mi: u32, s: u32, n: u32) -> Timestamp {
    Timestamp::from_fields(y, mo, d, h, mi, s, n)
}

fn meta(segments: &[&str], mtime: Timestamp) -> FileMeta {
    FileMeta {
        path: Path::new(segments.iter().map(|s| s.to_string()).collect()),
        mtime,
    }
}

#[test]
fn codec_round_trips_create_and_remove() {
    let t1 = ts(2021, 7, 8, 9, 10, 11, 121_314_151);
    let t2 = ts(2022, 1, 2, 3, 4, 5, 6);
    let jf = JournalFile {
        records: vec![
            JournalRecord {
                journal: Journal::CreateFile {
                    meta: meta(&["docs", "r\u{e9}sum\u{e9}.txt"], t1),
                    key: "data/0123abcd".to_string(),
                },
                timestamp: t1,
                key: "journal/20210708091011121314151-0123abcd".to_string(),
            },
            JournalRecord {
                journal: Journal::RemoveFile {
                    meta: meta(&["docs", "old"], t2),
                },
                timestamp: t2,
                key: "journal/20220102030405000000006-ffff".to_string(),
            },
        ],
    };
    let bytes = encode_journal_file(&jf);
    let back = decode_journal_file(bytes.as_slice()).unwrap();
    assert_eq!(back.records.len(), 2);
    match &back.records[0].journal {
        Journal::CreateFile { meta: m, key } => {
            assert_eq!(m.path.segments().clone(), vec!["docs", "r\u{e9}sum\u{e9}.txt"]);
            assert_eq!(m.mtime, t1);
            assert_eq!(key, "data/0123abcd");
        }
        _ => panic!("first record is not a creation"),
    }
    assert_eq!(back.records[0].timestamp, t1);
    assert_eq!(back.records[0].key, "journal/20210708091011121314151-0123abcd");
    match &back.records[1].journal {
        Journal::RemoveFile { meta: m } => {
            assert_eq!(m.path.segments().clone(), vec!["docs", "old"]);
            assert_eq!(m.mtime, t2);
        }
        _ => panic!("second record is not a removal"),
    }
    assert_eq!(back.records[1].timestamp, t2);
    assert_eq!(back.records[1].key, "journal/20220102030405000000006-ffff");
}

#[test]
fn codec_round_trips_empty_segment() {
    let jf = JournalFile { records: vec![] };
    let bytes = encode_journal_file(&jf);
    let back = decode_journal_file(bytes.as_slice()).unwrap();
    assert_eq!(back.records.len(), 0);
}

#[test]
fn decode_rejects_garbage() {
    match decode_journal_file(&[1, 2, 3]) {
        Err(Error::SerdeFail(_)) => {}
        _ => panic!("truncated input must be a codec failure"),
    }
}

#[test]
fn decode_rejects_trailing_bytes() {
    let jf = JournalFile { records: vec![] };
    let mut bytes = encode_journal_file(&jf);
    bytes.push(0);
    match decode_journal_file(bytes.as_slice()) {
        Err(Error::SerdeFail(_)) => {}
        _ => panic!("trailing bytes must be a codec failure"),
    }
}

#[test]
fn decode_rejects_corrupted_tag() {
    let t1 = ts(2021, 7, 8, 9, 10, 11, 0);
    let jf = JournalFile {
        records: vec![JournalRecord {
            journal: Journal::RemoveFile {
                meta: meta(&["x"], t1),
            },
            timestamp: t1,
            key: "k".to_string(),
        }],
    };
    let mut bytes = encode_journal_file(&jf);
    // The tag byte of the first record sits right after the 8-byte count.
    bytes[8] = 7;
    match decode_journal_file(bytes.as_slice()) {
        Err(Error::SerdeFail(_)) => {}
        _ => panic!("an unknown tag must be a codec failure"),
    }
}

#[test]
fn segment_key_renders_fixed_width_timestamp() {
    let t = ts(1970, 1, 1, 0, 0, 0, 0);
    assert_eq!(
        make_segment_key(&t, "abc"),
        "journal/19700101000000000000000-abc"
    );
    let t2 = ts(2021, 2, 3, 4, 5, 6, 7);
    assert_eq!(
        make_segment_key(&t2, "zz"),
        "journal/20210203040506000000007-zz"
    );
}

#[test]
fn content_key_prefixes_identifier() {
    assert_eq!(make_content_key("xyz"), "data/xyz");
}

#[test]
fn segment_keys_sort_chronologically() {
    let early = make_segment_key(&ts(2021, 2, 3, 4, 5, 6, 999_999_999), "zzzz");
    let later = make_segment_key(&ts(2021, 2, 3, 4, 5, 7, 0), "0000");
    assert!(early < later);
    let much_later = make_segment_key(&ts(2022, 1, 1, 0, 0, 0, 0), "aaaa");
    assert!(later < much_later);
}
