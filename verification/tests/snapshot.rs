use aqfs::aqfs::{Error, FileMeta, Path, Timestamp};
use aqfs::codec::{encode_journal_file, Journal, JournalFile, JournalRecord};
use aqfs::journal::{build_snapshot, plan_create_file, plan_remove_file, RemoteEntry, Segment};

fn ts(y: i32, mo: u32, d: u32, h: u32, mi: u32, s: u32, n: u32) -> Timestamp {
    Timestamp::from_fields(y, mo, d, h, mi, s, n)
}

fn meta(name: &str, mtime: Timestamp) -> FileMeta {
    FileMeta {
        path: Path::new(vec![name.to_string()]),
        mtime,
    }
}

fn create_segment(key: &str, name: &str, content_key: &str, t: Timestamp) -> Segment {
    let jf = JournalFile {
        records: vec![JournalRecord {
            journal: Journal::CreateFile {
                meta: meta(name, t),
                key: content_key.to_string(),
            },
            timestamp: t,
            key: key.to_string(),
        }],
    };
    Segment {
        key: key.to_string(),
        data: encode_journal_file(&jf),
    }
}

fn remove_segment(key: &str, name: &str, t: Timestamp) -> Segment {
    let jf = JournalFile {
        records: vec![JournalRecord {
            journal: Journal::RemoveFile { meta: meta(name, t) },
            timestamp: t,
            key: key.to_string(),
        }],
    };
    Segment {
        key: key.to_string(),
        data: encode_journal_file(&jf),
    }
}

fn clone_segments(segs: &[Segment]) -> Vec<Segment> {
    segs.iter()
        .map(|s| Segment {
            key: s.key.clone(),
            data: s.data.clone(),
        })
        .collect()
}

fn entry_names(entries: &[RemoteEntry]) -> Vec<(String, String)> {
    entries
        .iter()
        .map(|e| (e.meta.path.to_string(), e.content_key.clone()))
        .collect()
}

#[test]
fn snapshot_of_single_create() {
    let t = ts(2021, 1, 1, 0, 0, 0, 0);
    let segs = vec![create_segment("journal/20210101000000000000000-a", "f", "data/c1", t)];
    let entries = build_snapshot(segs).unwrap();
    assert_eq!(entry_names(&entries), vec![("f".to_string(), "data/c1".to_string())]);
}

#[test]
fn removal_excludes_path() {
    let t1 = ts(2021, 1, 1, 0, 0, 0, 0);
    let t2 = ts(2021, 1, 2, 0, 0, 0, 0);
    let segs = vec![
        create_segment("journal/20210101000000000000000-a", "f", "data/c1", t1),
        remove_segment("journal/20210102000000000000000-b", "f", t2),
    ];
    let entries = build_snapshot(segs).unwrap();
    assert_eq!(entries.len(), 0);
}

#[test]
fn last_key_wins() {
    let t1 = ts(2021, 1, 1, 0, 0, 0, 0);
    let t2 = ts(2021, 1, 2, 0, 0, 0, 0);
    let t3 = ts(2021, 1, 3, 0, 0, 0, 0);
    let k1 = "journal/20210101000000000000000-a";
    let k2 = "journal/20210102000000000000000-b";
    let k3 = "journal/20210103000000000000000-c";
    // Hand the segments over out of order: replay follows key order.
    let segs = vec![
        remove_segment(k2, "p", t2),
        create_segment(k3, "p", "data/late", t3),
        create_segment(k1, "p", "data/early", t1),
    ];
    let entries = build_snapshot(clone_segments(&segs)).unwrap();
    assert_eq!(
        entry_names(&entries),
        vec![("p".to_string(), "data/late".to_string())]
    );
    // Without the later creation, the removal is the last word on the path.
    let segs2 = vec![
        remove_segment(k2, "p", t2),
        create_segment(k1, "p", "data/early", t1),
    ];
    let entries2 = build_snapshot(segs2).unwrap();
    assert_eq!(entries2.len(), 0);
}

#[test]
fn replay_is_deterministic() {
    let t1 = ts(2021, 1, 1, 0, 0, 0, 0);
    let t2 = ts(2021, 1, 2, 0, 0, 0, 0);
    let segs = vec![
        create_segment("journal/20210102000000000000000-b", "q", "data/c2", t2),
        create_segment("journal/20210101000000000000000-a", "p", "data/c1", t1),
    ];
    let first = build_snapshot(clone_segments(&segs)).unwrap();
    let second = build_snapshot(clone_segments(&segs)).unwrap();
    assert_eq!(entry_names(&first), entry_names(&second));
    // A permuted listing of the same segments reconstructs the same state.
    let mut permuted = clone_segments(&segs);
    permuted.reverse();
    let third = build_snapshot(permuted).unwrap();
    assert_eq!(entry_names(&first), entry_names(&third));
}

#[test]
fn batch_fetch_fails_atomically() {
    let t1 = ts(2021, 1, 1, 0, 0, 0, 0);
    let t2 = ts(2021, 1, 2, 0, 0, 0, 0);
    let good1 = create_segment("journal/20210101000000000000000-a", "p", "data/c1", t1);
    let good2 = create_segment("journal/20210102000000000000000-b", "q", "data/c2", t2);
    let mut bad_bytes = good2.data.clone();
    bad_bytes.truncate(bad_bytes.len() - 1);
    let bad = Segment {
        key: "journal/20210103000000000000000-c".to_string(),
        data: bad_bytes,
    };
    match build_snapshot(vec![good1, good2, bad]) {
        Err(Error::SerdeFail(_)) => {}
        Ok(_) => panic!("a snapshot must not be built from a partially decodable journal"),
        Err(_) => panic!("the failure must be a codec failure"),
    }
}

#[test]
fn create_plan_writes_one_creation_record() {
    let m = meta("planned", ts(2021, 5, 6, 7, 8, 9, 10));
    let plan = plan_create_file(&m, b"payload".to_vec());
    assert_eq!(plan.content, b"payload".to_vec());
    assert!(plan.content_key.starts_with("data/"));
    assert_eq!(plan.content_key.len(), 37);
    assert!(plan.content_key[5..]
        .chars()
        .all(|c| c.is_ascii_hexdigit() && !c.is_ascii_uppercase()));
    assert!(plan.segment_key.starts_with("journal/"));
    assert_eq!(plan.segment_key.len(), 64);
    let decoded = aqfs::codec::decode_journal_file(plan.segment.as_slice()).unwrap();
    assert_eq!(decoded.records.len(), 1);
    match &decoded.records[0].journal {
        Journal::CreateFile { meta: m2, key } => {
            assert_eq!(m2.path.to_string(), "planned");
            assert_eq!(*key, plan.content_key);
        }
        _ => panic!("a create plan must hold a creation record"),
    }
    assert_eq!(decoded.records[0].key, plan.segment_key);
}

#[test]
fn remove_plan_writes_one_tombstone_record() {
    let m = meta("doomed", ts(2021, 5, 6, 7, 8, 9, 10));
    let plan = plan_remove_file(&m);
    assert!(plan.segment_key.starts_with("journal/"));
    assert_eq!(plan.segment_key.len(), 64);
    let decoded = aqfs::codec::decode_journal_file(plan.segment.as_slice()).unwrap();
    assert_eq!(decoded.records.len(), 1);
    match &decoded.records[0].journal {
        Journal::RemoveFile { meta: m2 } => {
            assert_eq!(m2.path.to_string(), "doomed");
        }
        _ => panic!("a remove plan must hold a removal record"),
    }
}

#[test]
fn journal_round_trip_create_read() {
    // Create a file against an empty journal, then list and read it back.
    let m = meta("round", ts(2021, 9, 9, 9, 9, 9, 9));
    let plan = plan_create_file(&m, b"round trip content".to_vec());
    let mut contents: Vec<(String, Vec<u8>)> = Vec::new();
    contents.push((plan.content_key.clone(), plan.content.clone()));
    let segs = vec![Segment {
        key: plan.segment_key.clone(),
        data: plan.segment.clone(),
    }];
    let entries = build_snapshot(segs).unwrap();
    assert_eq!(entries.len(), 1);
    assert_eq!(entries[0].meta.path.to_string(), "round");
    assert_eq!(entries[0].meta.mtime, m.mtime);
    let body = contents
        .iter()
        .find(|(k, _)| *k == entries[0].content_key)
        .map(|(_, v)| v.clone())
        .unwrap();
    assert_eq!(body, b"round trip content".to_vec());
}

// A minimal journal-backed store for exercising the planners end to end:
// a list of segment objects and a list of content objects.
struct TestStore {
    segments: Vec<Segment>,
    contents: Vec<(String, Vec<u8>)>,
}

impl TestStore {
    fn new() -> TestStore {
        TestStore {
            segments: Vec::new(),
            contents: Vec::new(),
        }
    }

    fn create(&mut self, m: &FileMeta, body: Vec<u8>) {
        let plan = plan_create_file(m, body);
        self.contents.push((plan.content_key.clone(), plan.content));
        self.segments.push(Segment {
            key: plan.segment_key,
            data: plan.segment,
        });
    }

    fn list(&self) -> Vec<RemoteEntry> {
        build_snapshot(clone_segments(&self.segments)).unwrap()
    }

    fn read(&self, key: &str) -> Vec<u8> {
        self.contents
            .iter()
            .find(|(k, _)| k == key)
            .map(|(_, v)| v.clone())
            .unwrap()
    }
}

#[test]
fn sync_is_non_differential() {
    let m = meta("c", ts(2021, 3, 3, 3, 3, 3, 3));
    let body = b"same content".to_vec();
    let mut store_a = TestStore::new();
    let mut store_b = TestStore::new();
    store_a.create(&m, body.clone());
    store_b.create(&m, body.clone());
    assert_eq!(store_a.segments.len(), 1);
    assert_eq!(store_b.segments.len(), 1);
    // A full two-pass copy with no existence or content check: every listed
    // file is re-created on the other side, identical or not.
    let listed_a = store_a.list();
    for e in &listed_a {
        let body = store_a.read(&e.content_key);
        store_b.create(&e.meta, body);
    }
    let listed_b = store_b.list();
    for e in &listed_b {
        let body = store_b.read(&e.content_key);
        store_a.create(&e.meta, body);
    }
    // Both journals grew although both sides already held the same record.
    assert!(store_a.segments.len() >= 2);
    assert!(store_b.segments.len() >= 2);
    // Replay still shows a single logical file on each side.
    assert_eq!(store_a.list().len(), 1);
    assert_eq!(store_b.list().len(), 1);
}
