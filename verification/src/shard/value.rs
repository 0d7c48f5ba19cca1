//! One stored record: the value's bytes, its key's position in the shard's
//! key list, and its expiration time.
#![allow(unused_imports)]
use crate::data::DataBytes;
use vstd::prelude::*;

verus! {

/// Value in the map of stored data.
pub struct ShardedValue {
    /// The actual data.
    pub data: DataBytes,
    /// Index of the key in the keys array.
    pub idx: usize,
    /// Time when the value expires (absolute milliseconds); `None` never
    /// expires.
    pub expires: Option<i64>,
}

/// What a [`ShardedValue`] stands for: its bytes, its key's recorded
/// position, and its expiration stamp.
pub struct StoredRecord {
    pub data: Seq<u8>,
    pub idx: nat,
    pub expires: Option<i64>,
}

/// What a caller of the store sees of one entry: the bytes and the
/// expiration stamp. The recorded position is shard-internal bookkeeping.
pub struct Record {
    pub data: Seq<u8>,
    pub expires: Option<i64>,
}

/// Forget the bookkeeping of a stored record.
pub open spec fn record_of(r: StoredRecord) -> Record {
    Record { data: r.data, expires: r.expires }
}

impl View for ShardedValue {
    type V = StoredRecord;

    open spec fn view(&self) -> StoredRecord {
        StoredRecord { data: self.data@, idx: self.idx as nat, expires: self.expires }
    }
}

/// Whether a record with expiration stamp `expires` is expired at time
/// `now`: a record without a stamp never expires.
pub open spec fn spec_expired(expires: Option<i64>, now: i64) -> bool {
    match expires {
        Some(e) => now > e,
        None => false,
    }
}

impl ShardedValue {
    /// Check if the value has expired at time `now` (absolute milliseconds).
    pub fn expired_at(&self, now: i64) -> (r: bool)
        ensures
            r == spec_expired(self@.expires, now),
    {
        match self.expires {
            Some(e) => now > e,
            None => false,
        }
    }

    /// Check if the value has expired, against the current clock. A value
    /// without an expiration stamp is never expired, whatever the clock says.
    pub fn expired(&self) -> (r: bool)
        ensures
            self@.expires is None ==> !r,
    {
        let now = crate::clock::now_millis();
        self.expired_at(now)
    }
}

} // verus!
