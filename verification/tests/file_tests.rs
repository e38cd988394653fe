use std::io::Read;
use std::io::Seek;
use std::io::SeekFrom;
use std::io::Write;

use kv::Backing;
use kv::Error;
use kv::MemBacking;
use kv::Store;
use rand::Rng;

/// A file-backed medium: appends go to the end, reads rewind to the start,
/// as the `Backing` contract asks of a persistent log.
struct FileBack<F> {
    file: F,
}

impl<F: Read + Write + Seek> Backing for FileBack<F> {
    fn append(&mut self, data: &[u8]) -> Result<(), String> {
        self.file
            .seek(SeekFrom::End(0))
            .map_err(|e| e.to_string())?;
        self.file.write_all(data).map_err(|e| e.to_string())
    }

    fn read_all(&mut self) -> Result<Vec<u8>, String> {
        self.file
            .seek(SeekFrom::Start(0))
            .map_err(|e| e.to_string())?;
        let mut buf = Vec::new();
        self.file
            .read_to_end(&mut buf)
            .map_err(|e| e.to_string())?;
        Ok(buf)
    }
}

/// A medium whose every operation fails, to surface the write and read
/// error paths.
struct BrokenBack;

impl Backing for BrokenBack {
    fn append(&mut self, _data: &[u8]) -> Result<(), String> {
        Err("append failed".to_string())
    }

    fn read_all(&mut self) -> Result<Vec<u8>, String> {
        Err("read failed".to_string())
    }
}

#[test]
fn fuzz_test() {
    let f = tempfile::NamedTempFile::new().unwrap();
    let store: Store<u8, _> = Store::new(FileBack {
        file: f.reopen().unwrap(),
    });
    let mut map = std::collections::HashMap::<String, u8>::new();

    let mut rng = rand::thread_rng();
    for _ in 0..100_000 {
        let key = format!("key{}", rng.gen::<u32>());
        let value = rng.gen();

        store.set(&key, &value).unwrap();
        map.insert(key, value);
    }

    let store = store.to_map().unwrap();
    for (key, value) in map {
        assert_eq!(value, *store.get(&key).unwrap());
    }
}

#[test]
fn persistence_across_reopen() {
    let f = tempfile::NamedTempFile::new().unwrap();
    {
        let store: Store<String, _> = Store::new(FileBack {
            file: f.reopen().unwrap(),
        });
        store.set("kept", &"across".to_string()).unwrap();
        store.set("gone", &"soon".to_string()).unwrap();
        store.unset("gone").unwrap();
    }
    // a fresh handle against the same path sees all committed records
    let store: Store<String, _> = Store::new(FileBack {
        file: f.reopen().unwrap(),
    });
    assert_eq!(store.get("kept").unwrap(), Some("across".to_string()));
    assert_eq!(store.get("gone").unwrap(), None);
    // appending never truncates what was there
    store.set("more", &"data".to_string()).unwrap();
    assert_eq!(store.get("kept").unwrap(), Some("across".to_string()));
    assert_eq!(store.get("more").unwrap(), Some("data".to_string()));
}

#[test]
fn backend_equivalence() {
    let f = tempfile::NamedTempFile::new().unwrap();
    let file_store: Store<String, _> = Store::new(FileBack {
        file: f.reopen().unwrap(),
    });
    let mem_store: Store<String, MemBacking> = Store::in_memory();

    let ops: [(&str, Option<&str>); 6] = [
        ("a", Some("1")),
        ("b", Some("2")),
        ("a", Some("3")),
        ("b", None),
        ("c", Some("4")),
        ("a", None),
    ];
    for (key, value) in ops {
        match value {
            Some(v) => {
                file_store.set(key, &v.to_string()).unwrap();
                mem_store.set(key, &v.to_string()).unwrap();
            }
            None => {
                file_store.unset(key).unwrap();
                mem_store.unset(key).unwrap();
            }
        }
    }
    for key in ["a", "b", "c", "never set"] {
        assert_eq!(file_store.get(key).unwrap(), mem_store.get(key).unwrap());
    }
}

#[test]
fn broken_medium_reports_write_and_read_errors() {
    let store: Store<u8, BrokenBack> = Store::new(BrokenBack);
    assert_eq!(store.set("k", &1), Err(Error::Write("append failed".to_string())));
    assert_eq!(store.get("k"), Err(Error::Read("read failed".to_string())));
    assert_eq!(store.unset("k"), Err(Error::Write("append failed".to_string())));
    assert!(matches!(store.to_map(), Err(Error::Read(_))));
}

#[test]
fn interleaved_clones_stay_consistent() {
    // eight handles of one store, their operations interleaved; every
    // record is read back whole and the handles agree at every point
    let store: Store<String, MemBacking> = Store::in_memory();
    let handles: Vec<Store<String, MemBacking>> = (0..8).map(|_| store.clone()).collect();
    for round in 0..50 {
        for (worker, handle) in handles.iter().enumerate() {
            let key = format!("worker{worker}");
            handle.set(&key, &format!("round{round}")).unwrap();
            let seen = handle.get(&key).unwrap().unwrap();
            assert_eq!(seen, format!("round{round}"));
            handle.unset(&key).unwrap();
            handle.set(&key, &format!("again{round}")).unwrap();
        }
    }
    for worker in 0..8 {
        let key = format!("worker{worker}");
        assert_eq!(store.get(&key).unwrap(), Some("again49".to_string()));
    }
}
