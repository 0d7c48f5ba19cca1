//! An in-process, sharded key-value store with per-key time-to-live expiration.
//!
//! Values are stored as opaque byte buffers; a conversion trait turns typed
//! values into that representation and back. Keys are routed to independent
//! shards by a deterministic hash of the key alone, so a key keeps its shard
//! for the store's lifetime.
#![allow(unused_imports)]
use vstd::prelude::*;
use vstd::string::StrSliceExecFns;

pub mod data;
pub mod shard;

mod clock;

use crate::data::{Data, DataBytes};
use crate::shard::value::{Record, StoredRecord};
use crate::shard::Shard;

verus! {

/// The djb2 hash of a sequence of characters, reduced to the machine word.
pub open spec fn djb2(s: Seq<char>) -> nat
    decreases s.len(),
{
    if s.len() == 0 {
        5381
    } else {
        (djb2(s.drop_last()) * 33 + (s.last() as nat)) % (usize::MAX as nat + 1)
    }
}

/// djb2 hash of a key. Deterministic and derived from the key alone: no
/// process-random seed, so shard assignment is stable within a process.
pub fn key_hash(input: &str) -> (r: usize)
    ensures
        r as nat == djb2(input@),
{
    let x: usize = 33;
    let mut r: usize = 5381;
    let len = input.unicode_len();
    let mut i: usize = 0;
    while i < len
        invariant
            x == 33,
            i <= len,
            len == input@.len(),
            r as nat == djb2(input@.take(i as int)),
        decreases len - i,
    {
        let c = input.get_char(i);
        let rm = r.wrapping_mul(x);
        let rs = rm.wrapping_add(c as usize);
        proof {
            lemma_djb2_step(input@, i as int, r as nat, c);
            let m = usize::MAX as nat + 1;
            vstd::arithmetic::div_mod::lemma_mod_bound(r as int * 33, m as int);
            assert(rm as nat == (r as nat * 33) % m);
            lemma_wrap_to_mod(rm as nat, c as nat, m);
            assert(rs as nat == (rm as nat + c as nat) % m);
        }
        r = rs;
        i = i + 1;
    }
    proof {
        assert(input@.take(len as int) =~= input@);
    }
    r
}

/// One step of the djb2 fold: extending the hashed prefix by one character.
proof fn lemma_djb2_step(s: Seq<char>, i: int, r: nat, c: char)
    requires
        0 <= i < s.len(),
        r == djb2(s.take(i)),
        c == s[i],
    ensures
        djb2(s.take(i + 1)) == ((r * 33) % (usize::MAX as nat + 1) + (c as nat)) % (usize::MAX
            as nat + 1),
{
    let m = usize::MAX as nat + 1;
    assert(s.take(i + 1).drop_last() =~= s.take(i));
    assert(s.take(i + 1).last() == c);
    assert(djb2(s.take(i + 1)) == (r * 33 + (c as nat)) % m);
    vstd::arithmetic::div_mod::lemma_add_mod_noop(r as int * 33, c as int, m as int);
    vstd::arithmetic::div_mod::lemma_small_mod(c as nat, m);
    vstd::arithmetic::div_mod::lemma_mod_twice(r as int * 33, m as int);
}

/// Key/value storage.
///
/// Contains shards - a number of key-to-record maps fixed at construction.
/// For each key, the owning shard is selected by the key's hash, so
/// operations on keys of different shards never disturb each other.
pub struct KeyValueStorage {
    shards: Vec<Shard>,
}

/// The expiration stamp an insert leaves behind: a supplied stamp wins;
/// without one, an existing entry keeps its stamp and a fresh entry gets
/// none.
pub open spec fn upsert_expires(prev: Option<Record>, expires: Option<i64>) -> Option<i64> {
    if expires is Some {
        expires
    } else {
        match prev {
            Some(r) => r.expires,
            None => None,
        }
    }
}

/// The record a map holds for a key, if any.
pub open spec fn spec_lookup(m: Map<Seq<char>, Record>, k: Seq<char>) -> Option<Record> {
    if m.contains_key(k) {
        Some(m[k])
    } else {
        None
    }
}

impl View for KeyValueStorage {
    type V = Map<Seq<char>, Record>;

    /// The store's contents: the records of all shards together.
    closed spec fn view(&self) -> Map<Seq<char>, Record> {
        Map::new(
            |k: Seq<char>| self.shard_for(k).records().contains_key(k),
            |k: Seq<char>| self.shard_for(k).records()[k],
        )
    }
}

impl KeyValueStorage {
    /// The model of the shard that owns key `k`.
    closed spec fn shard_for(&self, k: Seq<char>) -> crate::shard::ShardModel {
        self.shards@[(djb2(k) % self.shards@.len()) as int]@
    }

    /// The store's internal invariant: at least one shard, every shard well
    /// formed, and every key held by the shard its hash selects.
    pub closed spec fn wf(&self) -> bool {
        &&& self.shards@.len() > 0
        &&& forall|i: int| 0 <= i < self.shards@.len() ==> (#[trigger] self.shards@[i])@.wf()
        &&& forall|i: int, k: Seq<char>|
            0 <= i < self.shards@.len() && (#[trigger] self.shards@[i]@.map.contains_key(k))
                ==> djb2(k) % self.shards@.len() == i
    }

    /// Create a storage of `shard_count` independent shards. Any positive
    /// count works; the count is fixed for the store's lifetime.
    pub fn new(shard_count: usize) -> (s: Self)
        requires
            shard_count > 0,
        ensures
            s.wf(),
            s@ == Map::<Seq<char>, Record>::empty(),
    {
        let mut shards: Vec<Shard> = Vec::new();
        let mut i: usize = 0;
        while i < shard_count
            invariant
                i == shards@.len(),
                i <= shard_count,
                forall|j: int| 0 <= j < i ==> (#[trigger] shards@[j])@.wf(),
                forall|j: int|
                    0 <= j < i ==> (#[trigger] shards@[j])@.map
                        == Map::<Seq<char>, StoredRecord>::empty(),
            decreases shard_count - i,
        {
            shards.push(Shard::new());
            i = i + 1;
        }
        let s = KeyValueStorage { shards };
        proof {
            assert(s@ =~= Map::<Seq<char>, Record>::empty());
        }
        s
    }

    /// Get the shard that owns the key's hash.
    fn get_shard(&mut self, key: &str) -> (shard: &mut Shard)
        requires
            old(self).shards@.len() > 0,
        ensures
            ({
                let idx = (djb2(key@) % old(self).shards@.len()) as int;
                &&& *shard == old(self).shards@[idx]
                &&& final(self).shards@ == old(self).shards@.update(idx, *final(shard))
            }),
    {
        let idx = key_hash(key) % self.shards.len();
        proof {
            vstd::arithmetic::div_mod::lemma_mod_bound(
                djb2(key@) as int,
                self.shards@.len() as int,
            );
        }
        vstd::std_specs::vec::vec_index_mut(&mut self.shards, idx)
    }

    /// Set data for the specified key. If data was previously set for this
    /// key, it is replaced and the old bytes are returned. The expiration
    /// stamp is replaced only when a new one is supplied: omitting it on an
    /// update keeps the entry's existing stamp.
    pub fn set(&mut self, key: String, data: DataBytes, expires: Option<i64>) -> (prev: Option<
        DataBytes,
    >)
        requires
            old(self).wf(),
        ensures
            final(self).wf(),
            final(self)@ == old(self)@.insert(
                key@,
                Record { data: data@, expires: upsert_expires(spec_lookup(old(self)@, key@), expires) },
            ),
            prev matches Some(p) ==> old(self)@.contains_key(key@) && p@ == old(self)@[key@].data,
            prev is None ==> !old(self)@.contains_key(key@),
    {
        let ghost n = self.shards@.len();
        let ghost idx = (djb2(key@) % n) as int;
        let shard = self.get_shard(key.as_str());
        let prev = shard.insert(key, data, expires);
        proof {
            lemma_facade_one_shard_changed(*old(self), *self, idx);
            assert(old(self).shard_for(key@) == old(self).shards@[idx]@);
            assert(final(self)@ =~= old(self)@.insert(
                key@,
                Record {
                    data: data@,
                    expires: upsert_expires(spec_lookup(old(self)@, key@), expires),
                },
            ));
        }
        prev
    }

    /// Retrieve data by key, as of time `now` (absolute milliseconds). An
    /// expired entry is physically deleted and reported as absent, exactly
    /// like a key that was never set. A live entry is decoded as `T`; a
    /// decode failure is reported without touching the store.
    pub fn get_at<T: Data>(&mut self, key: &str, now: i64) -> (r: Result<Option<T>, T::Error>)
        requires
            old(self).wf(),
        ensures
            final(self).wf(),
            lookup_outcome::<T>(old(self)@, final(self)@, key@, now, r),
    {
        let ghost n = self.shards@.len();
        let ghost idx = (djb2(key@) % n) as int;
        let shard = self.get_shard(key);
        let r = shard.get::<T>(key, now);
        proof {
            lemma_facade_one_shard_changed(*old(self), *self, idx);
            let m0 = old(self).shard_for(key@);
            if m0.map.contains_key(key@) && crate::shard::value::spec_expired(
                m0.map[key@].expires,
                now,
            ) {
                crate::shard::lemma_remove_records(m0, key@);
                assert(final(self)@ =~= old(self)@.remove(key@));
            } else {
                assert(final(self)@ =~= old(self)@);
            }
        }
        r
    }

    /// Retrieve data by key, against the current clock. The outcome is that
    /// of [`Self::get_at`] at the moment the clock returned: an absent key
    /// reads as absent whatever the time, and an entry that never expires
    /// is returned whatever the time.
    pub fn get<T: Data>(&mut self, key: &str) -> (r: Result<Option<T>, T::Error>)
        requires
            old(self).wf(),
        ensures
            final(self).wf(),
            exists|t: i64| lookup_outcome::<T>(old(self)@, final(self)@, key@, t, r),
    {
        let now = crate::clock::now_millis();
        let r = self.get_at::<T>(key, now);
        proof {
            assert(lookup_outcome::<T>(old(self)@, self@, key@, now, r));
        }
        r
    }

    /// Remove the value from the storage. Removing an absent key is a
    /// silent no-op.
    pub fn remove(&mut self, key: &str)
        requires
            old(self).wf(),
        ensures
            final(self).wf(),
            final(self)@ == old(self)@.remove(key@),
    {
        let ghost n = self.shards@.len();
        let ghost idx = (djb2(key@) % n) as int;
        let shard = self.get_shard(key);
        shard.remove(key);
        proof {
            lemma_facade_one_shard_changed(*old(self), *self, idx);
            assert(final(self)@ =~= old(self)@.remove(key@));
        }
    }
}

/// What one lookup does to the store, seen from outside. `m0` is the store
/// before the call and `m1` after it; `r` is what the caller got back for
/// `key` at time `now`. An absent key is read without effect; an expired
/// entry is deleted and read as absent; a live entry is decoded and the
/// store left alone.
pub open spec fn lookup_outcome<T: Data>(
    m0: Map<Seq<char>, Record>,
    m1: Map<Seq<char>, Record>,
    key: Seq<char>,
    now: i64,
    r: Result<Option<T>, T::Error>,
) -> bool {
    &&& !m0.contains_key(key) ==> m1 == m0 && (r matches Ok(v) && v is None)
    &&& m0.contains_key(key) && crate::shard::value::spec_expired(m0[key].expires, now) ==> m1
        == m0.remove(key) && (r matches Ok(v) && v is None)
    &&& m0.contains_key(key) && !crate::shard::value::spec_expired(m0[key].expires, now) ==> m1
        == m0 && {
        let bytes = m0[key].data;
        &&& T::decodable(bytes) ==> (r matches Ok(v) && v matches Some(t) && t.deep_view()
            == T::decoded(bytes))
        &&& !T::decodable(bytes) ==> (r matches Err(e) && e == T::decode_err(bytes))
    }
}

/// Insert, then insert again under the same key: the second insert finds
/// the first value as the previous one, and a lookup afterwards finds the
/// second value. This is the store [`KeyValueStorage::set`] leaves behind,
/// stated over its model.
pub proof fn lemma_insert_overwrite(
    m: Map<Seq<char>, Record>,
    k: Seq<char>,
    d1: Seq<u8>,
    e1: Option<i64>,
    d2: Seq<u8>,
    e2: Option<i64>,
)
    ensures
        ({
            let m1 = m.insert(k, Record { data: d1, expires: upsert_expires(spec_lookup(m, k), e1) });
            let m2 = m1.insert(
                k,
                Record { data: d2, expires: upsert_expires(spec_lookup(m1, k), e2) },
            );
            &&& (spec_lookup(m1, k) matches Some(r) && r.data == d1)
            &&& (spec_lookup(m2, k) matches Some(r) && r.data == d2)
        }),
{
}

/// Expiry of a stamped entry: after a set with stamp `e`, the entry holds
/// the new bytes and is live at every time up to and including `e`, and
/// expired at every later time. By [`lookup_outcome`], a lookup up to the
/// deadline therefore returns the value, and one past it deletes the entry
/// and reports the key absent.
pub proof fn lemma_ttl_expiry(m: Map<Seq<char>, Record>, k: Seq<char>, d: Seq<u8>, e: i64, t: i64)
    ensures
        ({
            let m1 = m.insert(
                k,
                Record { data: d, expires: upsert_expires(spec_lookup(m, k), Some(e)) },
            );
            &&& m1[k].data == d
            &&& t <= e ==> !crate::shard::value::spec_expired(m1[k].expires, t)
            &&& t > e ==> crate::shard::value::spec_expired(m1[k].expires, t)
        }),
{
}

/// Removal is idempotent and makes the key absent: removing an absent key
/// changes nothing, a removed key reads as absent, and removing twice is
/// removing once.
pub proof fn lemma_remove_idempotent(m: Map<Seq<char>, Record>, k: Seq<char>)
    ensures
        !m.contains_key(k) ==> m.remove(k) == m,
        spec_lookup(m.remove(k), k) is None,
        m.remove(k).remove(k) == m.remove(k),
{
    if !m.contains_key(k) {
        assert(m.remove(k) =~= m);
    }
    assert(m.remove(k).remove(k) =~= m.remove(k));
}

/// When only shard `idx` differs between two stores of equal shard count,
/// keys of other shards see the same records in both.
proof fn lemma_facade_one_shard_changed(s0: KeyValueStorage, s1: KeyValueStorage, idx: int)
    requires
        s0.shards@.len() == s1.shards@.len(),
        s0.shards@.len() > 0,
        forall|j: int| 0 <= j < s0.shards@.len() && j != idx ==> s0.shards@[j] == s1.shards@[j],
    ensures
        forall|k: Seq<char>|
            (djb2(k) % s0.shards@.len()) as int != idx ==> #[trigger] s0.shard_for(k)
                == s1.shard_for(k),
{
}

/// Adding two reduced values and reducing once more is the same as a modular add.
proof fn lemma_wrap_to_mod(a: nat, b: nat, m: nat)
    requires
        a < m,
        b < m,
    ensures
        (a + b) % m == if a + b >= m { (a + b - m) as nat } else { a + b },
{
    if a + b >= m {
        vstd::arithmetic::div_mod::lemma_fundamental_div_mod_converse_mod(
            a as int + b as int,
            m as int,
            1,
            a as int + b as int - m as int,
        );
    } else {
        vstd::arithmetic::div_mod::lemma_small_mod((a + b) as nat, m);
    }
}

} // verus!
