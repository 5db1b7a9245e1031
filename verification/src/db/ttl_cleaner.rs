//! The active expiration path: one sweep removes every entry whose expiry
//! has passed. A background task outside the crate wakes on a fixed
//! interval, takes the engine's lock, and calls `sweep_expired`; that loop
//! is plain scheduling and holds no logic of its own.

use vstd::prelude::*;
use crate::db::value::{ValueEntry, EntryView, expired};
use crate::db::storage::{Store, distinct_keys};

verus! {

/// The model with every expired pair dropped, order kept.
pub open spec fn sweep_model(m: Seq<(Seq<u8>, EntryView)>, now: u64) -> Seq<(Seq<u8>, EntryView)>
    decreases m.len(),
{
    if m.len() == 0 {
        m
    } else if expired(m.last().1, now) {
        sweep_model(m.drop_last(), now)
    } else {
        sweep_model(m.drop_last(), now).push(m.last())
    }
}

/// Each surviving pair of a sweep was a pair before it.
pub proof fn lemma_sweep_sub(m: Seq<(Seq<u8>, EntryView)>, now: u64)
    ensures
        forall|i: int|
            0 <= i < sweep_model(m, now).len() ==> exists|j: int|
                0 <= j < m.len() && m[j] == #[trigger] sweep_model(m, now)[i],
        sweep_model(m, now).len() <= m.len(),
    decreases m.len(),
{
    if m.len() > 0 {
        lemma_sweep_sub(m.drop_last(), now);
        let sw = sweep_model(m, now);
        let swd = sweep_model(m.drop_last(), now);
        assert forall|i: int| 0 <= i < sw.len() implies exists|j: int|
            0 <= j < m.len() && m[j] == #[trigger] sw[i] by {
            if !expired(m.last().1, now) && i == sw.len() - 1 {
                assert(m[m.len() - 1] == sw[i]);
            } else {
                assert(sw[i] == swd[i]);
                let j0 = choose|j: int| 0 <= j < m.drop_last().len() && m.drop_last()[j] == swd[i];
                assert(m[j0] == sw[i]);
            }
        }
    }
}

/// Law (active expiration): a sweep leaves no expired entry behind, and
/// loses nothing that was still alive — it removes exactly the entries
/// whose expiry has passed.
pub proof fn lemma_sweep_exact(m: Seq<(Seq<u8>, EntryView)>, now: u64)
    ensures
        forall|i: int|
            0 <= i < sweep_model(m, now).len() ==> !expired(
                (#[trigger] sweep_model(m, now)[i]).1,
                now,
            ),
        forall|j: int|
            0 <= j < m.len() && !expired((#[trigger] m[j]).1, now) ==> exists|i: int|
                0 <= i < sweep_model(m, now).len() && sweep_model(m, now)[i] == m[j],
    decreases m.len(),
{
    if m.len() > 0 {
        lemma_sweep_exact(m.drop_last(), now);
        let sw = sweep_model(m, now);
        let swd = sweep_model(m.drop_last(), now);
        assert forall|j: int|
            0 <= j < m.len() && !expired((#[trigger] m[j]).1, now) implies exists|i: int|
            0 <= i < sw.len() && sw[i] == m[j] by {
            if j < m.len() - 1 {
                assert(m.drop_last()[j] == m[j]);
                let i0 = choose|i: int| 0 <= i < swd.len() && swd[i] == m.drop_last()[j];
                assert(sw[i0] == m[j]);
            } else {
                assert(m[j] == m.last());
                assert(sw[sw.len() - 1] == m.last());
            }
        }
    }
}

/// A sweep keeps distinct keys distinct.
pub proof fn lemma_sweep_distinct(m: Seq<(Seq<u8>, EntryView)>, now: u64)
    requires
        distinct_keys(m),
    ensures
        distinct_keys(sweep_model(m, now)),
    decreases m.len(),
{
    if m.len() > 0 {
        assert(distinct_keys(m.drop_last()));
        lemma_sweep_distinct(m.drop_last(), now);
        if !expired(m.last().1, now) {
            lemma_sweep_sub(m.drop_last(), now);
            let sw = sweep_model(m, now);
            let swd = sweep_model(m.drop_last(), now);
            assert forall|a: int, b: int|
                0 <= a < b < sw.len() implies (#[trigger] sw[a]).0 != (#[trigger] sw[b]).0 by {
                if b < sw.len() - 1 {
                    assert(sw[a] == swd[a] && sw[b] == swd[b]);
                } else {
                    assert(sw[a] == swd[a]);
                    assert(sw[b] == m.last());
                    let j0 = choose|j: int|
                        0 <= j < m.drop_last().len() && m.drop_last()[j] == swd[a];
                    assert(m[j0] == sw[a]);
                    assert(m[j0].0 != m[m.len() - 1].0);
                }
            }
        }
    }
}

impl Store {
    /// Removes every entry whose expiry lies strictly before `now`,
    /// keeping the rest in order: the Reaper's one pass over the map.
    pub fn sweep_expired(&mut self, now: u64)
        ensures
            final(self).model() == sweep_model(old(self).model(), now),
    {
        proof {
            use_type_invariant(&*self);
        }
        let ghost m = self.model();
        let snapshot = self.take_entries();
        let mut kept: Vec<(Vec<u8>, ValueEntry)> = Vec::new();
        let mut i: usize = 0;
        while i < snapshot.len()
            invariant
                i <= snapshot@.len(),
                m.len() == snapshot@.len(),
                forall|t: int|
                    0 <= t < m.len() ==> m[t] == ((#[trigger] snapshot@[t]).0@, snapshot@[t].1@),
                Seq::new(kept@.len(), |t: int| (kept@[t].0@, kept@[t].1@)) =~= sweep_model(
                    m.subrange(0, i as int),
                    now,
                ),
            decreases snapshot@.len() - i,
        {
            let is_expired = match snapshot[i].1.expire_at {
                Some(t) => now > t,
                None => false,
            };
            let ghost km = Seq::new(kept@.len(), |t: int| (kept@[t].0@, kept@[t].1@));
            if !is_expired {
                let k = crate::db::storage::clone_bytes(&snapshot[i].0);
                let v = crate::db::storage::clone_bytes(&snapshot[i].1.value);
                kept.push((k, ValueEntry { value: v, expire_at: snapshot[i].1.expire_at }));
                proof {
                    assert(Seq::new(kept@.len(), |t: int| (kept@[t].0@, kept@[t].1@)) =~= km.push(
                        m[i as int]));
                }
            }
            proof {
                assert(m.subrange(0, i + 1 as int).drop_last() =~= m.subrange(0, i as int));
                assert(m.subrange(0, i + 1 as int).last() == m[i as int]);
            }
            i = i + 1;
        }
        proof {
            assert(m.subrange(0, m.len() as int) =~= m);
            lemma_sweep_distinct(m, now);
        }
        self.put_entries(kept);
    }
}

} // verus!
