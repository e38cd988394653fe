use kv::Backing;
use kv::Error;
use kv::MemBacking;
use kv::Store;

#[test]
fn validate_key_test() {
    assert_eq!(Ok(""), kv::validate_key(""));
    assert_eq!(Ok("key"), kv::validate_key("key"));
    assert_eq!(Ok("key with spaces"), kv::validate_key("key with spaces"));
    assert!(kv::validate_key("this,is,a,bad,key").is_err());
    assert!(kv::validate_key("this is\nalso bad").is_err());
}

#[test]
fn set_then_get() {
    let store: Store<String, MemBacking> = Store::in_memory();
    store.set("k", &"value".to_string()).unwrap();
    assert_eq!(store.get("k").unwrap(), Some("value".to_string()));
}

#[test]
fn last_write_wins() {
    let store: Store<String, MemBacking> = Store::in_memory();
    store.set("k", &"first".to_string()).unwrap();
    store.set("k", &"second".to_string()).unwrap();
    assert_eq!(store.get("k").unwrap(), Some("second".to_string()));
}

#[test]
fn tombstone() {
    let store: Store<String, MemBacking> = Store::in_memory();
    store.set("k", &"value".to_string()).unwrap();
    store.unset("k").unwrap();
    assert_eq!(store.get("k").unwrap(), None);
}

#[test]
fn unset_never_set_key() {
    let store: Store<u8, MemBacking> = Store::in_memory();
    store.unset("ghost").unwrap();
    assert_eq!(store.get("ghost").unwrap(), None);
}

#[test]
fn absent_key() {
    let store: Store<u8, MemBacking> = Store::in_memory();
    assert_eq!(store.get("missing").unwrap(), None);
}

#[test]
fn absent_key_amid_garbage() {
    let mut backing = MemBacking::new();
    backing
        .append(b"no payload here\n\xff\xfe,broken\ngood,7\n")
        .unwrap();
    let store: Store<u8, MemBacking> = Store::new(backing);
    // a key that no record claims resolves cleanly despite the corruption
    assert_eq!(store.get("missing").unwrap(), None);
    // and a healthy record still resolves
    assert_eq!(store.get("good").unwrap(), Some(7));
}

#[test]
fn lazy_validation() {
    let mut backing = MemBacking::new();
    backing.append(b"key1,1\nkey2").unwrap();
    let store: Store<u8, MemBacking> = Store::new(backing);
    assert_eq!(store.get("not a key").unwrap(), None);
    assert_eq!(store.get("key1").unwrap(), Some(1));
    assert!(matches!(store.get("key2"), Err(Error::Read(_))));
}

#[test]
fn early_corruption_beats_later_write() {
    let mut backing = MemBacking::new();
    backing.append(b"key2\nkey2,7\n").unwrap();
    let store: Store<u8, MemBacking> = Store::new(backing);
    // the malformed record for key2 surfaces even though a good one follows
    assert!(matches!(store.get("key2"), Err(Error::Read(_))));
}

#[test]
fn invalid_key_is_rejected() {
    let store: Store<String, MemBacking> = Store::in_memory();
    let v = "v".to_string();
    assert_eq!(
        store.set("a,b", &v),
        Err(Error::InvalidKey("a,b".to_string()))
    );
    assert_eq!(
        store.unset("new\nline"),
        Err(Error::InvalidKey("new\nline".to_string()))
    );
    assert_eq!(
        store.get("key-dash"),
        Err(Error::InvalidKey("key-dash".to_string()))
    );
}

#[test]
fn payload_may_hold_delimiters() {
    // if the codec handed strings through unchanged, the comma and the line
    // feed in this value would corrupt the log
    let store: Store<String, MemBacking> = Store::in_memory();
    let tricky = "a,b\nc,d".to_string();
    store.set("k", &tricky).unwrap();
    store.set("other", &"x".to_string()).unwrap();
    assert_eq!(store.get("k").unwrap(), Some(tricky));
    assert_eq!(store.get("other").unwrap(), Some("x".to_string()));
}

#[test]
fn u8_values_round_trip() {
    let store: Store<u8, MemBacking> = Store::in_memory();
    store.set("zero", &0).unwrap();
    store.set("max", &255).unwrap();
    assert_eq!(store.get("zero").unwrap(), Some(0));
    assert_eq!(store.get("max").unwrap(), Some(255));
}

#[test]
fn to_map_honors_overwrites_and_tombstones() {
    let store: Store<u8, MemBacking> = Store::in_memory();
    store.set("a", &1).unwrap();
    store.set("b", &2).unwrap();
    store.set("a", &3).unwrap();
    store.set("c", &4).unwrap();
    store.unset("b").unwrap();
    let map = store.to_map().unwrap();
    assert_eq!(map.len(), 2);
    assert_eq!(map.get("a"), Some(&3));
    assert_eq!(map.get("b"), None);
    assert_eq!(map.get("c"), Some(&4));
}

#[test]
fn to_map_rejects_any_corruption() {
    let mut backing = MemBacking::new();
    backing.append(b"good,1\nbad record\n").unwrap();
    let store: Store<u8, MemBacking> = Store::new(backing);
    assert!(matches!(store.to_map(), Err(Error::Read(_))));
}

#[test]
fn split_key_value_splits_at_first_comma() {
    assert_eq!(kv::split_key_value("a,b,c", 0), Ok(("a", "b,c")));
    assert_eq!(kv::split_key_value("k,", 3), Ok(("k", "")));
    assert_eq!(kv::split_key_value(",v", 1), Ok(("", "v")));
    assert!(matches!(
        kv::split_key_value("no delimiter", 2),
        Err(Error::Read(_))
    ));
}

#[test]
fn error_constructors_and_messages() {
    assert_eq!(
        kv::write_err("boom".to_string()),
        Error::Write("boom".to_string())
    );
    assert_eq!(
        kv::read_err("broke".to_string()),
        Error::Read("broke".to_string())
    );
    assert_eq!(kv::read_err("broke".to_string()).message(), "broke");
    let e = kv::line_error(3, "key2");
    match e {
        Error::Read(msg) => {
            assert_eq!(msg, "Invalid data as line 3: `key2`");
        }
        other => panic!("expected a read error, got {:?}", other),
    }
}

#[test]
fn clones_share_one_log() {
    let store: Store<u8, MemBacking> = Store::in_memory();
    let other = store.clone();
    store.set("k", &9).unwrap();
    assert_eq!(other.get("k").unwrap(), Some(9));
    other.unset("k").unwrap();
    assert_eq!(store.get("k").unwrap(), None);
}

#[test]
fn to_map_rejects_non_text_keys() {
    let mut backing = MemBacking::new();
    backing.append(b"\xff\xfe,1\n").unwrap();
    let store: Store<u8, MemBacking> = Store::new(backing);
    assert!(matches!(store.to_map(), Err(Error::Read(_))));
    // the same corruption does not disturb a keyed lookup
    assert_eq!(store.get("other").unwrap(), None);
}
