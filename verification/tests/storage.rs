use aqfs::aqfs::{Error, File, FileMeta, Path, RamFile, RamStorage, StorageEntity, Timestamp};
use aqfs::sync::StorageSyncer;

fn ts_epoch() -> Timestamp {
    Timestamp::from_fields(1970, 1, 1, 0, 0, 0, 0)
}

#[test]
fn ram_storage_works() -> Result<(), Error> {
    let mut storage = RamStorage::new();
    let files = storage.list_files()?;
    assert_eq!(files.len(), 0);
    storage.create_file(RamFile::new(
        FileMeta {
            path: Path::new(vec!["dummy-path".to_string()]),
            mtime: ts_epoch(),
        },
        "dummy content".to_string().into_bytes(),
    ))?;
    let mut files = storage.list_files()?;
    assert_eq!(files.len(), 1);
    let bytes = files[0].read_all()?;
    assert_eq!(std::str::from_utf8(&bytes).unwrap(), "dummy content");
    storage.remove_file(&files[0])?;
    let files = storage.list_files()?;
    assert_eq!(files.len(), 0);
    Ok(())
}

fn is_storages_equivalent(st0: &mut RamStorage, st1: &mut RamStorage) -> bool {
    let st0_files = st0.list_files().unwrap();
    let st1_files = st1.list_files().unwrap();
    let mut files: Vec<(String, Timestamp, Vec<u8>)> = Vec::new();
    for mut f in st0_files.into_iter() {
        let name = f.meta().path.to_string();
        let mtime = f.meta().mtime;
        let data = f.read_all().unwrap();
        files.push((name, mtime, data));
    }
    for mut f in st1_files.into_iter() {
        let name = f.meta().path.to_string();
        let mtime = f.meta().mtime;
        let data = f.read_all().unwrap();
        match files.iter().find(|(n, t, _)| *n == name && *t == mtime) {
            None => return false,
            Some((_, _, d0)) => {
                if *d0 != data {
                    return false;
                }
            }
        }
    }
    true
}

#[test]
fn sync_works() -> Result<(), Error> {
    let mut st0 = RamStorage::new();
    st0.create_file(RamFile::new(
        FileMeta {
            path: Path::new(vec!["dummy-path0".to_string()]),
            mtime: ts_epoch(),
        },
        "dummy content 0".to_string().into_bytes(),
    ))?;
    let mut st1 = RamStorage::new();
    st1.create_file(RamFile::new(
        FileMeta {
            path: Path::new(vec!["dummy-path1".to_string()]),
            mtime: ts_epoch(),
        },
        "dummy content 1".to_string().into_bytes(),
    ))?;
    let mut syncer = StorageSyncer::new(st0, st1);
    syncer.sync()?;
    assert_eq!(syncer.st0.list_files().unwrap().len(), 2);
    assert_eq!(syncer.st1.list_files().unwrap().len(), 2);
    assert!(is_storages_equivalent(&mut syncer.st0, &mut syncer.st1));
    Ok(())
}

#[test]
fn sync_populates_both_sides() {
    let mut st_a = RamStorage::new();
    st_a.create_file(RamFile::new(
        FileMeta {
            path: Path::new(vec!["a".to_string()]),
            mtime: ts_epoch(),
        },
        b"alpha".to_vec(),
    ))
    .unwrap();
    let mut st_b = RamStorage::new();
    st_b.create_file(RamFile::new(
        FileMeta {
            path: Path::new(vec!["b".to_string()]),
            mtime: ts_epoch(),
        },
        b"beta".to_vec(),
    ))
    .unwrap();
    let mut syncer = StorageSyncer::new(st_a, st_b);
    syncer.sync().unwrap();
    for st in [&mut syncer.st0, &mut syncer.st1] {
        let files = st.list_files().unwrap();
        let names: Vec<String> = files.iter().map(|f| f.meta().path.to_string()).collect();
        assert!(names.contains(&"a".to_string()));
        assert!(names.contains(&"b".to_string()));
    }
}

#[test]
fn path_to_string_joins_segments() {
    let p = Path::new(vec!["home".to_string(), "user".to_string(), "file.txt".to_string()]);
    assert_eq!(p.to_string(), "home/user/file.txt");
    let single = Path::new(vec!["top".to_string()]);
    assert_eq!(single.to_string(), "top");
    let empty = Path::new(vec![]);
    assert_eq!(empty.to_string(), "");
}

#[test]
fn timestamp_from_fields_clamps() {
    let t = Timestamp::from_fields(2021, 2, 3, 4, 5, 6, 7);
    assert_eq!(
        (t.year, t.month, t.day, t.hour, t.minute, t.second, t.nanos),
        (2021, 2, 3, 4, 5, 6, 7)
    );
    let leap = Timestamp::from_fields(2021, 6, 30, 23, 59, 59, 1_500_000_000);
    assert_eq!(leap.nanos, 999_999_999);
    let far = Timestamp::from_fields(123_456, 0, 40, 99, 99, 99, 0);
    assert_eq!(
        (far.year, far.month, far.day, far.hour, far.minute, far.second),
        (9999, 1, 31, 23, 59, 59)
    );
}
