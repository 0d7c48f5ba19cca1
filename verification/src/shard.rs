//! A shard: one independently owned partition of the key space.
//!
//! A shard holds a map from key to stored record and, beside it, the list of
//! its keys. The list exists so the sweeper can sample a key by position;
//! each record carries the position of its own key, and the invariant
//! [`ShardModel::wf`] keeps the list and the map describing each other.
#![allow(unused_imports)]
use crate::data::{Data, DataBytes};
use crate::shard::value::{record_of, spec_expired, Record, ShardedValue, StoredRecord};
use vstd::hash_map::StringHashMap;
use vstd::prelude::*;

pub mod clean;
pub mod value;

verus! {

/// The abstract state of a shard: the stored records by key, and the key
/// list the records point into.
pub struct ShardModel {
    pub map: Map<Seq<char>, StoredRecord>,
    pub keys: Seq<Seq<char>>,
}

impl ShardModel {
    /// The shard invariant. Every record's recorded index is the actual
    /// position of its key in the key list, and every listed key is in the
    /// map with exactly that position recorded. In particular the list
    /// holds each key once, and list and map cover the same keys.
    pub open spec fn wf(self) -> bool {
        &&& forall|k: Seq<char>| #[trigger] self.map.contains_key(k) ==> self.map[k].idx
            < self.keys.len() && self.keys[self.map[k].idx as int] == k
        &&& forall|i: int|
            0 <= i < self.keys.len() ==> self.map.contains_key(#[trigger] self.keys[i])
                && self.map[self.keys[i]].idx == i
    }

    /// The shard's contents as a caller sees them: bytes and expiration
    /// stamp by key, without the positional bookkeeping.
    pub open spec fn records(self) -> Map<Seq<char>, Record> {
        self.map.map_values(|r: StoredRecord| record_of(r))
    }
}

/// The state of a shard after removing a present key `k`: the record leaves
/// the map, the last listed key is swapped into the removed key's position
/// and dropped from the end, and the moved key's record is patched to carry
/// its new position.
pub open spec fn remove_model(m: ShardModel, k: Seq<char>) -> ShardModel
    recommends
        m.wf(),
        m.map.contains_key(k),
{
    let i = m.map[k].idx;
    let moved = m.keys.last();
    let keys2 = m.keys.update(i as int, moved).drop_last();
    if i + 1 == m.keys.len() {
        ShardModel { map: m.map.remove(k), keys: keys2 }
    } else {
        ShardModel {
            map: m.map.remove(k).insert(
                moved,
                StoredRecord { data: m.map[moved].data, idx: i, expires: m.map[moved].expires },
            ),
            keys: keys2,
        }
    }
}

/// Swap-remove preserves the shard invariant.
pub(crate) proof fn lemma_wf_remove(m: ShardModel, k: Seq<char>)
    requires
        m.wf(),
        m.map.contains_key(k),
    ensures
        remove_model(m, k).wf(),
{
    let m2 = remove_model(m, k);
    let i = m.map[k].idx;
    let n = m.keys.len();
    let moved = m.keys.last();
    assert forall|k2: Seq<char>| #[trigger] m2.map.contains_key(k2) implies m2.map[k2].idx
        < m2.keys.len() && m2.keys[m2.map[k2].idx as int] == k2 by {
        assert(m.map.contains_key(k2));
        if k2 != moved {
            // its old position is neither the removed slot nor the last one
            assert(m.keys[m.map[k2].idx as int] == k2);
            assert(m.map[k2].idx != i) by {
                assert(m.keys[i as int] == k);
            }
            assert(m.map[k2].idx != n - 1);
        }
    }
    assert forall|j: int| 0 <= j < m2.keys.len() implies m2.map.contains_key(
        #[trigger] m2.keys[j],
    ) && m2.map[m2.keys[j]].idx == j by {
        if j == i {
            assert(m2.keys[j] == moved);
        } else {
            assert(m2.keys[j] == m.keys[j]);
            assert(m.map.contains_key(m.keys[j]));
            assert(m.keys[j] != k) by {
                assert(m.map[m.keys[j]].idx == j);
                assert(m.map[k].idx == i);
            }
            assert(m.keys[j] != moved) by {
                assert(m.map[moved].idx == n - 1);
            }
        }
    }
}

/// Forgetting the bookkeeping, swap-remove is exactly removal of the key.
pub(crate) proof fn lemma_remove_records(m: ShardModel, k: Seq<char>)
    requires
        m.wf(),
        m.map.contains_key(k),
    ensures
        remove_model(m, k).records() == m.records().remove(k),
{
    assert(remove_model(m, k).records() =~= m.records().remove(k));
}

/// Replacing the record of a present key, keeping its recorded position,
/// preserves the shard invariant.
proof fn lemma_wf_insert_existing(m: ShardModel, k: Seq<char>, r: StoredRecord)
    requires
        m.wf(),
        m.map.contains_key(k),
        r.idx == m.map[k].idx,
    ensures
        (ShardModel { map: m.map.insert(k, r), keys: m.keys }).wf(),
{
    let m2 = ShardModel { map: m.map.insert(k, r), keys: m.keys };
    assert forall|k2: Seq<char>| #[trigger] m2.map.contains_key(k2) implies m2.map[k2].idx
        < m2.keys.len() && m2.keys[m2.map[k2].idx as int] == k2 by {
        if k2 != k {
            assert(m.map.contains_key(k2));
        }
    }
}

/// Appending a fresh key to the key list and recording that position in its
/// new record preserves the shard invariant.
proof fn lemma_wf_insert_fresh(m: ShardModel, k: Seq<char>, r: StoredRecord)
    requires
        m.wf(),
        !m.map.contains_key(k),
        r.idx == m.keys.len(),
    ensures
        (ShardModel { map: m.map.insert(k, r), keys: m.keys.push(k) }).wf(),
{
    let m2 = ShardModel { map: m.map.insert(k, r), keys: m.keys.push(k) };
    assert forall|k2: Seq<char>| #[trigger] m2.map.contains_key(k2) implies m2.map[k2].idx
        < m2.keys.len() && m2.keys[m2.map[k2].idx as int] == k2 by {
        if k2 != k {
            assert(m.map.contains_key(k2));
        }
    }
    assert forall|i: int| 0 <= i < m2.keys.len() implies m2.map.contains_key(
        #[trigger] m2.keys[i],
    ) && m2.map[m2.keys[i]].idx == i by {
        if i < m.keys.len() {
            assert(m.map.contains_key(m.keys[i]));
        }
    }
}

/// What a lookup finds for a key at a given moment.
#[derive(Clone, Copy, Debug, PartialEq, Eq, Structural)]
pub enum EntryStatus {
    Absent,
    Expired,
    Live,
}

/// Container of keys and values.
pub struct Shard {
    /// Map with the stored data.
    map: StringHashMap<ShardedValue>,
    /// Array of keys that exist in the map, needed for retrieval of a key
    /// by position during active cleaning.
    keys: Vec<String>,
}

impl View for Shard {
    type V = ShardModel;

    closed spec fn view(&self) -> ShardModel {
        ShardModel {
            map: self.map@.map_values(|v: ShardedValue| v@),
            keys: self.keys.deep_view(),
        }
    }
}

impl Shard {
    pub fn new() -> (s: Self)
        ensures
            s@.wf(),
            s@.map == Map::<Seq<char>, StoredRecord>::empty(),
            s@.keys == Seq::<Seq<char>>::empty(),
    {
        let s = Shard { map: StringHashMap::new(), keys: Vec::new() };
        proof {
            assert(s@.map =~= Map::<Seq<char>, StoredRecord>::empty());
            assert(s@.keys =~= Seq::<Seq<char>>::empty());
        }
        s
    }

    /// The number of keys the shard holds.
    pub fn len(&self) -> (n: usize)
        ensures
            n == self@.keys.len(),
    {
        self.keys.len()
    }

    /// Clone the stored record of a key that is known to be present.
    fn lookup_present(&self, key: &str) -> (r: ShardedValue)
        requires
            self@.map.contains_key(key@),
        ensures
            r@ == self@.map[key@],
    {
        match self.map.get(key) {
            Some(v) => ShardedValue { data: v.data.clone(), idx: v.idx, expires: v.expires },
            None => {
                proof {
                    // `get` saw no entry, yet the key is in the map's view.
                    assert(false);
                }
                ShardedValue { data: DataBytes::new(Vec::new()), idx: 0, expires: None }
            },
        }
    }

    /// Set data for the specified key. If data was previously set for this
    /// key, it is replaced and the old bytes are returned; the expiration
    /// stamp is replaced only when a new one is supplied. A new key is
    /// appended to the key list and its position recorded.
    pub fn insert(&mut self, key: String, data: DataBytes, expires: Option<i64>) -> (prev: Option<
        DataBytes,
    >)
        requires
            old(self)@.wf(),
        ensures
            final(self)@.wf(),
            old(self)@.map.contains_key(key@) ==> {
                &&& final(self)@.keys == old(self)@.keys
                &&& final(self)@.map == old(self)@.map.insert(
                    key@,
                    StoredRecord {
                        data: data@,
                        idx: old(self)@.map[key@].idx,
                        expires: if expires is Some {
                            expires
                        } else {
                            old(self)@.map[key@].expires
                        },
                    },
                )
                &&& (prev matches Some(p) && p@ == old(self)@.map[key@].data)
            },
            !old(self)@.map.contains_key(key@) ==> {
                &&& final(self)@.keys == old(self)@.keys.push(key@)
                &&& final(self)@.map == old(self)@.map.insert(
                    key@,
                    StoredRecord { data: data@, idx: old(self)@.keys.len(), expires },
                )
                &&& prev is None
            },
    {
        if self.map.contains_key(key.as_str()) {
            let entry = self.lookup_present(key.as_str());
            let new_expires = if expires.is_some() {
                expires
            } else {
                entry.expires
            };
            self.map.insert(key, ShardedValue { data, idx: entry.idx, expires: new_expires });
            proof {
                assert(self@.keys =~= old(self)@.keys);
                assert(self@.map =~= old(self)@.map.insert(
                    key@,
                    StoredRecord {
                        data: data@,
                        idx: old(self)@.map[key@].idx,
                        expires: if expires is Some {
                            expires
                        } else {
                            old(self)@.map[key@].expires
                        },
                    },
                ));
                lemma_wf_insert_existing(
                    old(self)@,
                    key@,
                    StoredRecord {
                        data: data@,
                        idx: old(self)@.map[key@].idx,
                        expires: if expires is Some {
                            expires
                        } else {
                            old(self)@.map[key@].expires
                        },
                    },
                );
            }
            Some(entry.data)
        } else {
            let idx = self.keys.len();
            self.keys.push(key.clone());
            self.map.insert(key, ShardedValue { data, idx, expires });
            proof {
                assert(self@.keys =~= old(self)@.keys.push(key@));
                assert(self@.map =~= old(self)@.map.insert(
                    key@,
                    StoredRecord { data: data@, idx: old(self)@.keys.len(), expires },
                ));
                lemma_wf_insert_fresh(
                    old(self)@,
                    key@,
                    StoredRecord { data: data@, idx: old(self)@.keys.len(), expires },
                );
            }
            None
        }
    }

    /// Remove data from the shard. Removing an absent key changes nothing;
    /// removing a present key also takes its key out of the key list by
    /// swapping the last key into its place, whose record is patched to its
    /// new position.
    pub fn remove(&mut self, key: &str)
        requires
            old(self)@.wf(),
        ensures
            final(self)@.wf(),
            final(self)@.records() == old(self)@.records().remove(key@),
            old(self)@.map.contains_key(key@) ==> final(self)@ == remove_model(old(self)@, key@),
            !old(self)@.map.contains_key(key@) ==> final(self)@ == old(self)@,
    {
        if !self.map.contains_key(key) {
            proof {
                assert(self@.records() =~= self@.records().remove(key@));
            }
            return ;
        }
        let entry = self.lookup_present(key);
        let idx = entry.idx;
        self.map.remove(key);
        proof {
            assert(old(self)@.map.contains_key(key@));
            assert(old(self)@.map[key@].idx < old(self)@.keys.len());
            assert(idx < self.keys@.len());
        }
        let _removed = self.keys.swap_remove(idx);
        if idx < self.keys.len() {
            // a key moved into the freed position: record that position
            let moved = self.keys[idx].clone();
            proof {
                assert(moved@ == old(self)@.keys.last());
                assert(self@.map.contains_key(moved@)) by {
                    assert(old(self)@.map.contains_key(old(self)@.keys.last()));
                    assert(moved@ != key@) by {
                        assert(old(self)@.map[old(self)@.keys.last()].idx
                            == old(self)@.keys.len() - 1);
                    }
                }
            }
            let mrec = self.lookup_present(moved.as_str());
            self.map.insert(moved, ShardedValue { data: mrec.data, idx, expires: mrec.expires });
        }
        proof {
            let m = old(self)@;
            assert(self@.keys =~= m.keys.update(
                m.map[key@].idx as int,
                m.keys.last(),
            ).drop_last());
            assert(self@.map =~= remove_model(m, key@).map);
            lemma_wf_remove(m, key@);
            lemma_remove_records(m, key@);
        }
    }

    /// The key stored at position `i` of the key list.
    pub fn key_at(&self, i: usize) -> (k: &String)
        requires
            i < self@.keys.len(),
        ensures
            k@ == self@.keys[i as int],
    {
        &self.keys[i]
    }

    /// The recorded position of a key's entry, if the key is present.
    pub fn index_of(&self, key: &str) -> (r: Option<usize>)
        ensures
            match r {
                Some(i) => self@.map.contains_key(key@) && i as nat == self@.map[key@].idx,
                None => !self@.map.contains_key(key@),
            },
    {
        match self.map.get(key) {
            Some(v) => Some(v.idx),
            None => None,
        }
    }

    /// What the shard holds for `key` at time `now`, without changing it.
    pub fn status(&self, key: &str, now: i64) -> (s: EntryStatus)
        ensures
            match s {
                EntryStatus::Absent => !self@.map.contains_key(key@),
                EntryStatus::Expired => self@.map.contains_key(key@) && spec_expired(
                    self@.map[key@].expires,
                    now,
                ),
                EntryStatus::Live => self@.map.contains_key(key@) && !spec_expired(
                    self@.map[key@].expires,
                    now,
                ),
            },
    {
        match self.map.get(key) {
            None => EntryStatus::Absent,
            Some(v) => {
                if v.expired_at(now) {
                    EntryStatus::Expired
                } else {
                    EntryStatus::Live
                }
            },
        }
    }

    /// Decode the bytes stored under `key`, without changing the shard.
    /// Expiration is not consulted here; `status` decides that.
    pub fn read_value<T: Data>(&self, key: &str) -> (r: Option<Result<T, T::Error>>)
        ensures
            match r {
                None => !self@.map.contains_key(key@),
                Some(dec) => self@.map.contains_key(key@) && {
                    let bytes = self@.map[key@].data;
                    &&& T::decodable(bytes) ==> (dec matches Ok(v) && v.deep_view()
                        == T::decoded(bytes))
                    &&& !T::decodable(bytes) ==> (dec matches Err(e) && e == T::decode_err(bytes))
                },
            },
    {
        match self.map.get(key) {
            None => None,
            Some(v) => Some(T::from_data(v.data.clone())),
        }
    }

    /// The exclusive pass of passive expiration: physically delete `key` if
    /// it is present and expired at `now`; otherwise change nothing.
    pub fn remove_expired(&mut self, key: &str, now: i64)
        requires
            old(self)@.wf(),
        ensures
            final(self)@.wf(),
            old(self)@.map.contains_key(key@) && spec_expired(old(self)@.map[key@].expires, now)
                ==> final(self)@ == remove_model(old(self)@, key@),
            !(old(self)@.map.contains_key(key@) && spec_expired(old(self)@.map[key@].expires, now))
                ==> final(self)@ == old(self)@,
    {
        let expired = match self.map.get(key) {
            Some(v) => v.expired_at(now),
            None => false,
        };
        if expired {
            self.remove(key);
        }
    }

    /// Retrieve data by key at time `now`. An expired entry is physically
    /// deleted and reported as absent, exactly like a key that was never
    /// set; a live entry is decoded without changing the shard.
    pub fn get<T: Data>(&mut self, key: &str, now: i64) -> (r: Result<Option<T>, T::Error>)
        requires
            old(self)@.wf(),
        ensures
            final(self)@.wf(),
            !old(self)@.map.contains_key(key@) ==> final(self)@ == old(self)@ && (r matches Ok(v)
                && v is None),
            old(self)@.map.contains_key(key@) && spec_expired(old(self)@.map[key@].expires, now)
                ==> final(self)@ == remove_model(old(self)@, key@) && (r matches Ok(v)
                && v is None),
            old(self)@.map.contains_key(key@) && !spec_expired(old(self)@.map[key@].expires, now)
                ==> final(self)@ == old(self)@ && {
                let bytes = old(self)@.map[key@].data;
                &&& T::decodable(bytes) ==> (r matches Ok(v) && v matches Some(t) && t.deep_view()
                    == T::decoded(bytes))
                &&& !T::decodable(bytes) ==> (r matches Err(e) && e == T::decode_err(bytes))
            },
    {
        match self.status(key, now) {
            EntryStatus::Absent => Ok(None),
            EntryStatus::Expired => {
                self.remove(key);
                Ok(None)
            },
            EntryStatus::Live => {
                match self.read_value::<T>(key) {
                    Some(dec) => {
                        match dec {
                            Ok(v) => Ok(Some(v)),
                            Err(e) => Err(e),
                        }
                    },
                    None => {
                        proof {
                            // `status` saw the key, so `read_value` cannot miss it.
                            assert(false);
                        }
                        Ok(None)
                    },
                }
            },
        }
    }
}

} // verus!
