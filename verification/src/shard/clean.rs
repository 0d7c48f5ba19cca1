//! Active expiration: the bounded, sampling sweep that reclaims expired
//! entries without scanning the whole shard.
//!
//! One pass draws a bounded number of random positions from the key list,
//! deletes the expired keys it lands on, and asks for an immediate repeat
//! when at least a fifth of the checked keys were expired — the shard is
//! then assumed to carry much stale data. The randomness and the timer live
//! with the caller; these functions take the drawn samples and the current
//! time as arguments and are specified for every value of them.
#![allow(unused_imports)]
use crate::shard::value::spec_expired;
use crate::shard::{remove_model, EntryStatus, Shard, ShardModel};
use vstd::prelude::*;

verus! {

/// The number of checks for potentially expired keys in one pass.
pub const RANDOM_KEY_EXPIRE_CHECK_COUNT: usize = 20;

/// One sampling step of the sweep: the raw sample is reduced to a position
/// in the current key list, and the key there is deleted if it is expired
/// at `now`. An empty shard is left alone.
pub open spec fn sweep_step(m: ShardModel, sample: u64, now: i64) -> (ShardModel, bool)
    recommends
        m.wf(),
{
    if m.keys.len() == 0 {
        (m, false)
    } else {
        let k = m.keys[(sample as nat % m.keys.len()) as int];
        if spec_expired(m.map[k].expires, now) {
            (remove_model(m, k), true)
        } else {
            (m, false)
        }
    }
}

/// A whole pass over the given samples, in order, counting how many of the
/// sampled keys were expired.
pub open spec fn sweep_model(m: ShardModel, samples: Seq<u64>, now: i64) -> (ShardModel, nat)
    recommends
        m.wf(),
    decreases samples.len(),
{
    if samples.len() == 0 {
        (m, 0)
    } else {
        let first = sweep_step(m, samples[0], now);
        let rest = sweep_model(first.0, samples.drop_first(), now);
        (rest.0, rest.1 + if first.1 {
            1nat
        } else {
            0nat
        })
    }
}

/// How many keys one pass checks: one per sample, but no more than the
/// shard held keys when the pass began.
pub open spec fn spec_check_count(m: ShardModel, samples: Seq<u64>) -> nat {
    if samples.len() <= m.keys.len() {
        samples.len()
    } else {
        m.keys.len()
    }
}

/// Extending a pass by one more sample performs one more step at its end.
proof fn lemma_sweep_model_snoc(m: ShardModel, samples: Seq<u64>, x: u64, now: i64)
    ensures
        sweep_model(m, samples.push(x), now) == {
            let before = sweep_model(m, samples, now);
            let last = sweep_step(before.0, x, now);
            (last.0, before.1 + if last.1 {
                1nat
            } else {
                0nat
            })
        },
    decreases samples.len(),
{
    let pushed = samples.push(x);
    if samples.len() == 0 {
        assert(pushed[0] == x);
        assert(pushed.drop_first() =~= Seq::<u64>::empty());
        assert(sweep_model(sweep_step(m, x, now).0, pushed.drop_first(), now).1 == 0);
    } else {
        assert(pushed.drop_first() =~= samples.drop_first().push(x));
        assert(pushed[0] == samples[0]);
        let m1 = sweep_step(m, samples[0], now);
        lemma_sweep_model_snoc(m1.0, samples.drop_first(), x, now);
        let r = sweep_model(m1.0, samples.drop_first(), now);
        assert(sweep_model(m1.0, pushed.drop_first(), now) == {
            let last = sweep_step(r.0, x, now);
            (last.0, r.1 + if last.1 {
                1nat
            } else {
                0nat
            })
        });
        assert(sweep_model(m, samples, now).0 == r.0);
    }
}

/// One sweep step only ever deletes: it keeps the invariant, never adds a
/// key, never changes a surviving record's bytes or stamp, and only removes
/// a record that was expired at the sweep's time.
proof fn lemma_sweep_step_only_removes(m: ShardModel, sample: u64, now: i64)
    requires
        m.wf(),
    ensures
        ({
            let m2 = sweep_step(m, sample, now).0;
            &&& m2.wf()
            &&& m2.keys.len() <= m.keys.len()
            &&& forall|k: Seq<char>| #[trigger] m2.map.contains_key(k) ==> m.map.contains_key(k)
                && m2.map[k].data == m.map[k].data && m2.map[k].expires == m.map[k].expires
            &&& forall|k: Seq<char>| #[trigger] m.map.contains_key(k) && !m2.map.contains_key(k)
                ==> spec_expired(m.map[k].expires, now)
        }),
{
    if m.keys.len() > 0 {
        let k = m.keys[(sample as nat % m.keys.len()) as int];
        vstd::arithmetic::div_mod::lemma_mod_bound(sample as int, m.keys.len() as int);
        assert(m.map.contains_key(k));
        if spec_expired(m.map[k].expires, now) {
            crate::shard::lemma_wf_remove(m, k);
        }
    }
}

/// A whole sweep only ever deletes, and every key it deletes was expired at
/// the sweep's time. The shard can only shrink, and what survives is
/// untouched: running the sweeper never disturbs live data.
pub proof fn lemma_sweep_only_removes(m: ShardModel, samples: Seq<u64>, now: i64)
    requires
        m.wf(),
    ensures
        ({
            let m2 = sweep_model(m, samples, now).0;
            &&& m2.wf()
            &&& m2.keys.len() <= m.keys.len()
            &&& forall|k: Seq<char>| #[trigger] m2.map.contains_key(k) ==> m.map.contains_key(k)
                && m2.map[k].data == m.map[k].data && m2.map[k].expires == m.map[k].expires
            &&& forall|k: Seq<char>| #[trigger] m.map.contains_key(k) && !m2.map.contains_key(k)
                ==> spec_expired(m.map[k].expires, now)
        }),
    decreases samples.len(),
{
    if samples.len() > 0 {
        lemma_sweep_step_only_removes(m, samples[0], now);
        lemma_sweep_only_removes(sweep_step(m, samples[0], now).0, samples.drop_first(), now);
    }
}

impl Shard {
    /// Take the key at a randomly sampled position and check whether it has
    /// expired at `now`. If it has, delete it on the spot. Returns whether
    /// the sampled key had expired.
    pub fn random_key_expire_check(&mut self, sample: u64, now: i64) -> (expired: bool)
        requires
            old(self)@.wf(),
        ensures
            final(self)@.wf(),
            (final(self)@, expired) == sweep_step(old(self)@, sample, now),
    {
        let len = self.len();
        if len == 0 {
            return false;
        }
        let pos = (sample % (len as u64)) as usize;
        proof {
            vstd::arithmetic::div_mod::lemma_mod_bound(sample as int, len as int);
            assert(pos as nat == sample as nat % old(self)@.keys.len());
        }
        let key = self.key_at(pos).clone();
        match self.status(key.as_str(), now) {
            EntryStatus::Expired => {
                self.remove(key.as_str());
                true
            },
            _ => {
                proof {
                    // a listed key is always present in the map, so the
                    // only outcome besides expired is a live entry
                    assert(old(self)@.map.contains_key(key@));
                }
                false
            },
        }
    }

    /// One cleaning pass. Checks `min(samples.len(), len())` sampled
    /// positions, deletes the expired keys found there, and reports whether
    /// cleaning should repeat at once: it should when the pass checked
    /// anything at all and at least a fifth of the checked keys were
    /// expired. An empty shard, or an empty sample set, never asks for a
    /// repeat, so a sweep driven by this answer cannot spin.
    pub fn clean_pass(&mut self, samples: &Vec<u64>, now: i64) -> (repeat: bool)
        requires
            old(self)@.wf(),
        ensures
            final(self)@.wf(),
            ({
                let count = spec_check_count(old(self)@, samples@);
                let pass = sweep_model(old(self)@, samples@.take(count as int), now);
                &&& final(self)@ == pass.0
                &&& repeat == (count > 0 && pass.1 * 5 >= count)
            }),
    {
        let mut check_count = samples.len();
        let keys_count = self.len();
        if keys_count < check_count {
            check_count = keys_count;
        }
        let mut expired: usize = 0;
        let mut i: usize = 0;
        proof {
            assert(samples@.take(0) =~= Seq::<u64>::empty());
        }
        while i < check_count
            invariant
                i <= check_count,
                check_count == spec_check_count(old(self)@, samples@),
                check_count <= samples@.len(),
                expired <= i,
                old(self)@.wf(),
                self@.wf(),
                (self@, expired as nat) == sweep_model(old(self)@, samples@.take(i as int), now),
            decreases check_count - i,
        {
            let sample = samples[i];
            let hit = self.random_key_expire_check(sample, now);
            proof {
                assert(samples@.take(i as int + 1) =~= samples@.take(i as int).push(
                    samples@[i as int],
                ));
                lemma_sweep_model_snoc(old(self)@, samples@.take(i as int), samples@[i as int], now);
            }
            if hit {
                expired = expired + 1;
            }
            i = i + 1;
        }
        check_count > 0 && (expired as u128) * 5 >= (check_count as u128)
    }
}

} // verus!
