use icepeak_kv::data::arc_str::ArcString;
use icepeak_kv::data::primitives::PrimitiveCastError;
use icepeak_kv::data::Data;
use icepeak_kv::{key_hash, KeyValueStorage};

#[test]
fn get_set() {
    let mut db = KeyValueStorage::new(8);

    let key = "key";
    let data = ArcString::new("123".to_string());

    let prev_data = db.set(key.to_string(), data.clone().into_data(), None);
    assert!(prev_data.is_none());

    let got = db.get::<ArcString>(key).unwrap();
    assert!(got.is_some());

    let got_data = got.unwrap();
    assert_eq!(got_data, data);
}

#[test]
fn kv_basics() {
    let mut kv = KeyValueStorage::new(8);

    let key = "key";
    let data = ArcString::new("123".to_string());

    let prev_data = kv.set(key.to_string(), data.clone().into_data(), None);
    assert!(prev_data.is_none());

    let data_ptr = kv.get::<ArcString>(key).unwrap();
    assert!(data_ptr.is_some());

    let data_ptr = data_ptr.unwrap();
    assert_eq!(data_ptr, data);

    kv.remove(key);

    let data_ptr = kv.get::<ArcString>(key).unwrap();
    assert!(data_ptr.is_none());
}

#[test]
fn key_expires() {
    let mut kv = KeyValueStorage::new(8);

    let key = "key";
    let data = ArcString::new("123".to_string());
    let now: i64 = 1_000_000;

    let expires = now + 100;
    let prev_data = kv.set(key.to_string(), data.clone().into_data(), Some(expires));
    assert!(prev_data.is_none());

    let data_ptr = kv.get_at::<ArcString>(key, now).unwrap();
    assert!(data_ptr.is_some());

    let data_ptr = data_ptr.unwrap();
    assert_eq!(data_ptr, data);

    // Wait ...
    let later = now + 200;

    let data_ptr = kv.get_at::<ArcString>(key, later).unwrap();
    assert!(data_ptr.is_none());
}

#[test]
fn insert_overwrite_returns_previous() {
    let mut kv = KeyValueStorage::new(4);
    let v1 = ArcString::new("one".to_string());
    let v2 = ArcString::new("two".to_string());

    let prev = kv.set("k".to_string(), v1.clone().into_data(), None);
    assert!(prev.is_none());

    let prev = kv.set("k".to_string(), v2.clone().into_data(), None);
    assert_eq!(prev.unwrap().as_slice(), b"one");

    let got = kv.get::<ArcString>("k").unwrap().unwrap();
    assert_eq!(got, v2);
}

#[test]
fn absent_key_reads_as_absent_not_error() {
    let mut kv = KeyValueStorage::new(3);
    let got = kv.get::<ArcString>("never-set");
    assert!(got.unwrap().is_none());
    let got = kv.get::<u64>("never-set");
    assert!(got.unwrap().is_none());
}

#[test]
fn removal_is_idempotent_and_silent() {
    let mut kv = KeyValueStorage::new(2);
    kv.remove("ghost");

    kv.set("k".to_string(), ArcString::new("v".to_string()).into_data(), None);
    kv.remove("k");
    assert!(kv.get::<ArcString>("k").unwrap().is_none());
    kv.remove("k");
    assert!(kv.get::<ArcString>("k").unwrap().is_none());
}

#[test]
fn update_without_stamp_keeps_expiration() {
    let mut kv = KeyValueStorage::new(2);
    let now: i64 = 50_000;
    kv.set("k".to_string(), ArcString::new("a".to_string()).into_data(), Some(now + 100));
    // replacing the value without a stamp must not clear the expiration
    kv.set("k".to_string(), ArcString::new("b".to_string()).into_data(), None);

    let live = kv.get_at::<ArcString>("k", now).unwrap().unwrap();
    assert_eq!(live, ArcString::new("b".to_string()));
    assert!(kv.get_at::<ArcString>("k", now + 101).unwrap().is_none());
}

#[test]
fn update_with_stamp_replaces_expiration() {
    let mut kv = KeyValueStorage::new(2);
    let now: i64 = 50_000;
    kv.set("k".to_string(), ArcString::new("a".to_string()).into_data(), Some(now + 100));
    kv.set("k".to_string(), ArcString::new("b".to_string()).into_data(), Some(now + 500));

    assert!(kv.get_at::<ArcString>("k", now + 200).unwrap().is_some());
    assert!(kv.get_at::<ArcString>("k", now + 501).unwrap().is_none());
}

#[test]
fn expired_key_is_deleted_passively() {
    let mut kv = KeyValueStorage::new(2);
    let now: i64 = 1_000;
    kv.set("k".to_string(), ArcString::new("v".to_string()).into_data(), Some(now + 10));

    // first read after the deadline deletes the entry
    assert!(kv.get_at::<ArcString>("k", now + 11).unwrap().is_none());
    // the key now behaves like one that was never set, even read earlier
    assert!(kv.get_at::<ArcString>("k", now).unwrap().is_none());
}

#[test]
fn decode_error_is_surfaced_and_harmless() {
    let mut kv = KeyValueStorage::new(2);
    kv.set("k".to_string(), ArcString::new("ab".to_string()).into_data(), None);

    // two bytes cannot be read as a u32
    let got = kv.get_at::<u32>("k", 0);
    assert_eq!(got, Err(PrimitiveCastError::NotEnoughData(4)));

    // the failed decode did not disturb the entry
    let still = kv.get::<ArcString>("k").unwrap().unwrap();
    assert_eq!(still, ArcString::new("ab".to_string()));
}

#[test]
fn typed_values_round_trip_through_storage() {
    let mut kv = KeyValueStorage::new(5);
    kv.set("n".to_string(), 0xDEAD_BEEFu32.into_data(), None);
    kv.set("i".to_string(), (-12345i64).into_data(), None);

    assert_eq!(kv.get::<u32>("n").unwrap(), Some(0xDEAD_BEEF));
    assert_eq!(kv.get::<i64>("i").unwrap(), Some(-12345));
}

#[test]
fn many_keys_across_shards() {
    let mut kv = KeyValueStorage::new(7);
    for i in 0..100u32 {
        let key = format!("key-{}", i);
        kv.set(key, i.into_data(), None);
    }
    for i in 0..100u32 {
        let key = format!("key-{}", i);
        assert_eq!(kv.get::<u32>(&key).unwrap(), Some(i));
    }
    for i in (0..100u32).step_by(2) {
        let key = format!("key-{}", i);
        kv.remove(&key);
    }
    for i in 0..100u32 {
        let key = format!("key-{}", i);
        let got = kv.get::<u32>(&key).unwrap();
        if i % 2 == 0 {
            assert!(got.is_none());
        } else {
            assert_eq!(got, Some(i));
        }
    }
}

#[test]
fn key_hash_is_deterministic_and_key_only() {
    assert_eq!(key_hash("abc"), key_hash("abc"));
    assert_ne!(key_hash("abc"), key_hash("abd"));
    // djb2: h = h * 33 + c, starting from 5381
    assert_eq!(key_hash("abc"), 193_485_963);
    assert_eq!(key_hash(""), 5381);
}
