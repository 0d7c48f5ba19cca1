use icepeak_kv::data::arc_str::ArcString;
use icepeak_kv::data::Data;
use icepeak_kv::shard::value::ShardedValue;
use icepeak_kv::shard::{EntryStatus, Shard};

/// Every remaining key's recorded position must match its actual position
/// in the key list.
fn assert_index_invariant(shard: &Shard, alive: &[String]) {
    for key in alive {
        let idx = shard
            .index_of(key)
            .expect("an alive key must be present in the shard");
        assert_eq!(shard.key_at(idx), key);
    }
    assert_eq!(shard.len(), alive.len());
}

#[test]
fn index_invariant_under_random_removal() {
    let mut shard = Shard::new();
    let mut alive: Vec<String> = Vec::new();

    // a fixed linear-congruential sequence stands in for the random order
    let mut rng_state: u64 = 0x9E37_79B9;
    let mut next = move || {
        rng_state = rng_state.wrapping_mul(6_364_136_223_846_793_005).wrapping_add(1);
        rng_state >> 33
    };

    for i in 0..40u32 {
        let key = format!("key-{}", i);
        shard.insert(key.clone(), i.into_data(), None);
        alive.push(key);
        assert_index_invariant(&shard, &alive);
    }

    let mut round = 0u32;
    while !alive.is_empty() {
        // remove a pseudo-randomly chosen key
        let pick = (next() as usize) % alive.len();
        let key = alive.swap_remove(pick);
        shard.remove(&key);
        assert_index_invariant(&shard, &alive);

        // interleave further inserts every third removal
        if round % 3 == 0 {
            let key = format!("extra-{}", round);
            shard.insert(key.clone(), round.into_data(), None);
            alive.push(key);
            assert_index_invariant(&shard, &alive);
        }
        round += 1;
        assert!(round < 1000, "removal loop must terminate");
    }
    assert_eq!(shard.len(), 0);
}

#[test]
fn shard_status_reports_the_three_cases() {
    let mut shard = Shard::new();
    assert_eq!(shard.status("k", 0), EntryStatus::Absent);

    shard.insert("k".to_string(), ArcString::new("v".to_string()).into_data(), Some(100));
    assert_eq!(shard.status("k", 100), EntryStatus::Live);
    assert_eq!(shard.status("k", 101), EntryStatus::Expired);
}

#[test]
fn remove_expired_only_removes_expired() {
    let mut shard = Shard::new();
    shard.insert("k".to_string(), ArcString::new("v".to_string()).into_data(), Some(100));

    shard.remove_expired("k", 50);
    assert_eq!(shard.len(), 1);

    shard.remove_expired("absent", 500);
    assert_eq!(shard.len(), 1);

    shard.remove_expired("k", 500);
    assert_eq!(shard.len(), 0);
}

#[test]
fn random_key_expire_check_deletes_an_expired_key() {
    let mut shard = Shard::new();
    shard.insert("k".to_string(), ArcString::new("v".to_string()).into_data(), Some(5));

    // live at its deadline: nothing happens
    assert!(!shard.random_key_expire_check(7, 5));
    assert_eq!(shard.len(), 1);

    // expired afterwards: the sampled key is deleted on the spot
    assert!(shard.random_key_expire_check(7, 6));
    assert_eq!(shard.len(), 0);

    // an empty shard is left alone
    assert!(!shard.random_key_expire_check(7, 6));
}

#[test]
fn sweep_converges_without_spinning() {
    let mut shard = Shard::new();
    for i in 0..50u32 {
        shard.insert(format!("key-{}", i), i.into_data(), Some(5));
    }

    let mut rng_state: u64 = 42;
    let mut passes = 0u32;
    loop {
        let mut samples: Vec<u64> = Vec::new();
        for _ in 0..20 {
            rng_state = rng_state.wrapping_mul(6_364_136_223_846_793_005).wrapping_add(1);
            samples.push(rng_state >> 17);
        }
        let repeat = shard.clean_pass(&samples, 100);
        passes += 1;
        assert!(passes <= 200, "the sweep must stop");
        if !repeat {
            break;
        }
    }
    // everything was expired, so the sweep kept repeating until the samples
    // stopped finding stale keys; the shard must have shrunk considerably
    assert!(shard.len() < 50);
}

#[test]
fn sweep_leaves_live_keys_alone() {
    let mut shard = Shard::new();
    for i in 0..30u32 {
        let expires = if i % 2 == 0 { Some(5) } else { None };
        shard.insert(format!("key-{}", i), i.into_data(), expires);
    }

    let samples: Vec<u64> = (0..30u64).collect();
    let mut passes = 0u32;
    while shard.clean_pass(&samples, 100) {
        passes += 1;
        assert!(passes <= 200, "the sweep must stop");
    }

    // no key without a stamp may ever be swept
    for i in (1..30u32).step_by(2) {
        let key = format!("key-{}", i);
        assert_eq!(shard.get::<u32>(&key, 100).unwrap(), Some(i));
    }
}

#[test]
fn clean_pass_on_empty_input_never_repeats() {
    let mut shard = Shard::new();
    assert!(!shard.clean_pass(&vec![1, 2, 3], 100));

    shard.insert("k".to_string(), 1u32.into_data(), None);
    let no_samples: Vec<u64> = Vec::new();
    assert!(!shard.clean_pass(&no_samples, 100));
}

#[test]
fn sharded_value_expiry() {
    let v = ShardedValue { data: 1u8.into_data(), idx: 0, expires: Some(10) };
    assert!(!v.expired_at(10));
    assert!(v.expired_at(11));

    let eternal = ShardedValue { data: 1u8.into_data(), idx: 0, expires: None };
    assert!(!eternal.expired_at(i64::MAX));
    assert!(!eternal.expired());

    // stamped far in the past: the clock has surely moved beyond it
    let stale = ShardedValue { data: 1u8.into_data(), idx: 0, expires: Some(0) };
    assert!(stale.expired());
}

#[test]
fn shard_get_performs_passive_expiration() {
    let mut shard = Shard::new();
    shard.insert("k".to_string(), 7u32.into_data(), Some(100));

    assert_eq!(shard.get::<u32>("k", 100).unwrap(), Some(7));
    assert_eq!(shard.get::<u32>("k", 101).unwrap(), None);
    // the expired entry was physically deleted, key list included
    assert_eq!(shard.len(), 0);
}

#[test]
fn shard_insert_returns_previous_bytes() {
    let mut shard = Shard::new();
    assert!(shard.insert("k".to_string(), 1u8.into_data(), None).is_none());
    let prev = shard.insert("k".to_string(), 2u8.into_data(), None).unwrap();
    assert_eq!(prev.as_slice(), &[1]);
}
