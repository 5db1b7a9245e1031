//! The storage engine: an exclusively-owned mapping from key to entry.
//!
//! The engine's state is modelled as a sequence of key/entry pairs with
//! distinct keys; `lookup` is the map it denotes. Reads that meet an
//! expired entry remove it on the spot (lazy expiration); the active sweep
//! lives in the TTL module. One caller at a time owns the engine — the lock
//! that serializes connections sits outside the crate and hands `&mut
//! Store` in.

use vstd::prelude::*;
use crate::db::value::{ValueEntry, EntryView, expired};
use crate::num::{i64_digits, spec_parse_i64, parse_i64, push_i64_digits};

verus! {

/// Index of the first pair holding `k`, or `-1`.
pub open spec fn find_key(m: Seq<(Seq<u8>, EntryView)>, k: Seq<u8>) -> int
    decreases m.len(),
{
    if m.len() == 0 {
        -1
    } else if m[0].0 == k {
        0
    } else {
        let r = find_key(m.drop_first(), k);
        if r == -1 {
            -1
        } else {
            r + 1
        }
    }
}

/// The entry stored under `k`, if any.
pub open spec fn lookup(m: Seq<(Seq<u8>, EntryView)>, k: Seq<u8>) -> Option<EntryView> {
    if find_key(m, k) == -1 {
        None
    } else {
        Some(m[find_key(m, k)].1)
    }
}

/// No key occurs twice.
pub open spec fn distinct_keys(m: Seq<(Seq<u8>, EntryView)>) -> bool {
    forall|i: int, j: int| 0 <= i < j < m.len() ==> (#[trigger] m[i]).0 != (#[trigger] m[j]).0
}

/// The keys in storage order.
pub open spec fn key_seq(m: Seq<(Seq<u8>, EntryView)>) -> Seq<Seq<u8>> {
    Seq::new(m.len(), |i: int| m[i].0)
}

/// What `find_key` reports is a first occurrence.
pub proof fn lemma_find_key_props(m: Seq<(Seq<u8>, EntryView)>, k: Seq<u8>)
    ensures
        ({
            let r = find_key(m, k);
            if r == -1 {
                forall|j: int| 0 <= j < m.len() ==> (#[trigger] m[j]).0 != k
            } else {
                0 <= r < m.len() && m[r].0 == k && forall|j: int|
                    0 <= j < r ==> (#[trigger] m[j]).0 != k
            }
        }),
    decreases m.len(),
{
    if m.len() > 0 && m[0].0 != k {
        let rest = m.drop_first();
        lemma_find_key_props(rest, k);
        if find_key(rest, k) == -1 {
            assert forall|j: int| 0 <= j < m.len() implies (#[trigger] m[j]).0 != k by {
                if j >= 1 {
                    assert(rest[j - 1] == m[j]);
                }
            }
        } else {
            let r = find_key(m, k);
            assert(m[r] == rest[r - 1]);
            assert forall|j: int| 0 <= j < r implies (#[trigger] m[j]).0 != k by {
                if j >= 1 {
                    assert(rest[j - 1] == m[j]);
                }
            }
        }
    }
}

/// A first occurrence is what `find_key` reports.
pub proof fn lemma_find_key_at(m: Seq<(Seq<u8>, EntryView)>, k: Seq<u8>, i: int)
    requires
        0 <= i < m.len(),
        m[i].0 == k,
        forall|j: int| 0 <= j < i ==> (#[trigger] m[j]).0 != k,
    ensures
        find_key(m, k) == i,
    decreases i,
{
    if i > 0 {
        lemma_find_key_at(m.drop_first(), k, i - 1);
    }
}

/// With the key nowhere, `find_key` reports `-1`.
pub proof fn lemma_find_key_none(m: Seq<(Seq<u8>, EntryView)>, k: Seq<u8>)
    requires
        forall|j: int| 0 <= j < m.len() ==> (#[trigger] m[j]).0 != k,
    ensures
        find_key(m, k) == -1,
    decreases m.len(),
{
    if m.len() > 0 {
        lemma_find_key_none(m.drop_first(), k);
    }
}

/// Removing a pair keeps the keys distinct.
pub proof fn lemma_distinct_remove(m: Seq<(Seq<u8>, EntryView)>, i: int)
    requires
        distinct_keys(m),
        0 <= i < m.len(),
    ensures
        distinct_keys(m.remove(i)),
{
    assert forall|a: int, b: int|
        0 <= a < b < m.remove(i).len() implies (#[trigger] m.remove(i)[a]).0 != (
    #[trigger] m.remove(i)[b]).0 by {
        let a0 = if a < i { a } else { a + 1 };
        let b0 = if b < i { b } else { b + 1 };
        assert(m.remove(i)[a] == m[a0]);
        assert(m.remove(i)[b] == m[b0]);
    }
}

/// Replacing the pair at a key's own index keeps the keys distinct.
pub proof fn lemma_distinct_update(m: Seq<(Seq<u8>, EntryView)>, i: int, p: (Seq<u8>, EntryView))
    requires
        distinct_keys(m),
        0 <= i < m.len(),
        p.0 == m[i].0,
    ensures
        distinct_keys(m.update(i, p)),
{
}

/// Appending a pair under an absent key keeps the keys distinct.
pub proof fn lemma_distinct_push(m: Seq<(Seq<u8>, EntryView)>, p: (Seq<u8>, EntryView))
    requires
        distinct_keys(m),
        find_key(m, p.0) == -1,
    ensures
        distinct_keys(m.push(p)),
{
    lemma_find_key_props(m, p.0);
    assert forall|a: int, b: int|
        0 <= a < b < m.push(p).len() implies (#[trigger] m.push(p)[a]).0 != (
    #[trigger] m.push(p)[b]).0 by {
        if b < m.len() {
            assert(m.push(p)[a] == m[a]);
            assert(m.push(p)[b] == m[b]);
        } else {
            assert(m.push(p)[a] == m[a]);
            assert(m.push(p)[b] == p);
        }
    }
}

/// Appending under an absent key makes it found, with its new entry.
pub proof fn lemma_lookup_push(m: Seq<(Seq<u8>, EntryView)>, k: Seq<u8>, e: EntryView)
    requires
        find_key(m, k) == -1,
    ensures
        lookup(m.push((k, e)), k) == Some(e),
{
    lemma_find_key_props(m, k);
    assert forall|j: int| 0 <= j < m.len() implies (#[trigger] m.push((k, e))[j]).0 != k by {
        assert(m.push((k, e))[j] == m[j]);
    }
    lemma_find_key_at(m.push((k, e)), k, m.len() as int);
}

/// Replacing a key's pair at its own index leaves it found, with the new
/// entry.
pub proof fn lemma_lookup_update(m: Seq<(Seq<u8>, EntryView)>, k: Seq<u8>, e: EntryView)
    requires
        find_key(m, k) != -1,
    ensures
        lookup(m.update(find_key(m, k), (k, e)), k) == Some(e),
{
    let i = find_key(m, k);
    lemma_find_key_props(m, k);
    let m2 = m.update(i, (k, e));
    assert forall|j: int| 0 <= j < i implies (#[trigger] m2[j]).0 != k by {
        assert(m2[j] == m[j]);
    }
    lemma_find_key_at(m2, k, i);
}

/// Bytewise equality of two byte strings.
pub fn bytes_eq(a: &[u8], b: &[u8]) -> (r: bool)
    ensures
        r == (a@ == b@),
{
    if a.len() != b.len() {
        return false;
    }
    let mut i: usize = 0;
    while i < a.len()
        invariant
            i <= a.len(),
            a@.len() == b@.len(),
            forall|j: int| 0 <= j < i ==> a@[j] == b@[j],
        decreases a.len() - i,
    {
        if a[i] != b[i] {
            return false;
        }
        i = i + 1;
    }
    proof {
        assert(a@ =~= b@);
    }
    true
}

/// Copies a byte vector.
pub fn clone_bytes(v: &Vec<u8>) -> (r: Vec<u8>)
    ensures
        r@ == v@,
{
    let mut out: Vec<u8> = Vec::new();
    let mut i: usize = 0;
    while i < v.len()
        invariant
            i <= v.len(),
            out@ == v@.subrange(0, i as int),
        decreases v.len() - i,
    {
        out.push(v[i]);
        proof {
            assert(out@ =~= v@.subrange(0, i + 1 as int));
        }
        i = i + 1;
    }
    proof {
        assert(out@ =~= v@);
    }
    out
}

/// Why `increment` refused to act.
#[derive(Debug, Clone, Copy, PartialEq, Eq, Structural)]
pub enum IncrError {
    /// The stored value is not the decimal text of a signed 64-bit integer.
    NotAnInteger,
    /// The stored value is the largest representable integer already.
    Overflow,
}

/// The model after the lazy-expiration step a read performs on `k`.
pub open spec fn live_model(m: Seq<(Seq<u8>, EntryView)>, k: Seq<u8>, now: u64) -> Seq<
    (Seq<u8>, EntryView),
> {
    let i = find_key(m, k);
    if i != -1 && expired(m[i].1, now) {
        m.remove(i)
    } else {
        m
    }
}

/// Saturating instant arithmetic for expiry deadlines.
pub open spec fn sat_add(a: u64, b: u64) -> u64 {
    if a + b > u64::MAX {
        u64::MAX
    } else {
        (a + b) as u64
    }
}

/// A TTL given in seconds, on the engine's millisecond clock, saturating.
pub open spec fn ticks_of_secs(sec: u64) -> u64 {
    if sec * 1000 > u64::MAX {
        u64::MAX
    } else {
        (sec * 1000) as u64
    }
}

/// Converts a TTL in seconds to engine clock ticks.
pub fn secs_to_ticks(sec: u64) -> (r: u64)
    ensures
        r == ticks_of_secs(sec),
{
    match sec.checked_mul(1000) {
        Some(v) => v,
        None => u64::MAX,
    }
}

/// The storage engine.
pub struct Store {
    entries: Vec<(Vec<u8>, ValueEntry)>,
}

impl Store {
    /// The engine's state: its key/entry pairs in storage order, with keys
    /// distinct.
    pub closed spec fn model(self) -> Seq<(Seq<u8>, EntryView)> {
        Seq::new(self.entries@.len(), |i: int| (self.entries@[i].0@, self.entries@[i].1@))
    }

    #[verifier::type_invariant]
    pub(crate) open spec fn wf(self) -> bool {
        distinct_keys(self.model())
    }

    /// A fresh, empty engine.
    pub fn new() -> (s: Store)
        ensures
            s.model() == Seq::<(Seq<u8>, EntryView)>::empty(),
    {
        let s = Store { entries: Vec::new() };
        proof {
            assert(s.model() =~= Seq::<(Seq<u8>, EntryView)>::empty());
        }
        s
    }

    /// Index of the pair holding `key`.
    fn find(&self, key: &[u8]) -> (r: Option<usize>)
        ensures
            match r {
                Some(i) => find_key(self.model(), key@) == i && i < self.model().len(),
                None => find_key(self.model(), key@) == -1,
            },
    {
        let ghost m = self.model();
        let mut i: usize = 0;
        while i < self.entries.len()
            invariant
                i <= self.entries@.len(),
                m == self.model(),
                m.len() == self.entries@.len(),
                forall|j: int| 0 <= j < i ==> (#[trigger] m[j]).0 != key@,
            decreases self.entries@.len() - i,
        {
            if bytes_eq(self.entries[i].0.as_slice(), key) {
                proof {
                    lemma_find_key_at(m, key@, i as int);
                }
                return Some(i);
            }
            i = i + 1;
        }
        proof {
            lemma_find_key_none(m, key@);
        }
        None
    }

    /// How many keys are stored, expired or not.
    pub fn len(&self) -> (r: usize)
        ensures
            r == self.model().len(),
    {
        self.entries.len()
    }

    /// The stored value under `key`, with lazy expiration: an entry whose
    /// expiry has passed is removed and reported absent.
    pub fn get(&mut self, key: &[u8], now: u64) -> (r: Option<Vec<u8>>)
        ensures
            ({
                let m = old(self).model();
                match lookup(m, key@) {
                    None => r is None && final(self).model() == m,
                    Some(e) => if expired(e, now) {
                        r is None && final(self).model() == m.remove(find_key(m, key@))
                    } else {
                        (r matches Some(v) && v@ == e.value) && final(self).model() == m
                    },
                }
            }),
    {
        proof {
            use_type_invariant(&*self);
        }
        let ghost m = self.model();
        match self.find(key) {
            None => None,
            Some(i) => {
                let is_expired = match self.entries[i].1.expire_at {
                    Some(t) => now > t,
                    None => false,
                };
                if is_expired {
                    let mut es: Vec<(Vec<u8>, ValueEntry)> = Vec::new();
                    core::mem::swap(&mut es, &mut self.entries);
                    es.remove(i);
                    proof {
                        lemma_distinct_remove(m, i as int);
                        assert(Seq::new(es@.len(), |t: int| (es@[t].0@, es@[t].1@)) =~= m.remove(
                            i as int));
                    }
                    core::mem::swap(&mut es, &mut self.entries);
                    proof {
                        assert(self.model() =~= m.remove(i as int));
                    }
                    None
                } else {
                    let v = clone_bytes(&self.entries[i].1.value);
                    Some(v)
                }
            },
        }
    }

    /// Reports whether `key` is stored, with the same lazy expiration as
    /// `get`.
    pub fn contains(&mut self, key: &[u8], now: u64) -> (r: bool)
        ensures
            ({
                let m = old(self).model();
                match lookup(m, key@) {
                    None => r == false && final(self).model() == m,
                    Some(e) => if expired(e, now) {
                        r == false && final(self).model() == m.remove(find_key(m, key@))
                    } else {
                        r == true && final(self).model() == m
                    },
                }
            }),
    {
        proof {
            use_type_invariant(&*self);
        }
        let ghost m = self.model();
        match self.find(key) {
            None => false,
            Some(i) => {
                let is_expired = match self.entries[i].1.expire_at {
                    Some(t) => now > t,
                    None => false,
                };
                if is_expired {
                    let mut es: Vec<(Vec<u8>, ValueEntry)> = Vec::new();
                    core::mem::swap(&mut es, &mut self.entries);
                    es.remove(i);
                    proof {
                        lemma_distinct_remove(m, i as int);
                        assert(Seq::new(es@.len(), |t: int| (es@[t].0@, es@[t].1@)) =~= m.remove(
                            i as int));
                    }
                    core::mem::swap(&mut es, &mut self.entries);
                    proof {
                        assert(self.model() =~= m.remove(i as int));
                    }
                    false
                } else {
                    true
                }
            },
        }
    }

    /// Stores `value` under `key`, replacing any existing entry wholesale:
    /// an old expiry is discarded unless the call supplies a new one.
    pub fn set(&mut self, key: Vec<u8>, value: Vec<u8>, expire_at: Option<u64>)
        ensures
            ({
                let m = old(self).model();
                let e = EntryView { value: value@, expire_at };
                if find_key(m, key@) == -1 {
                    final(self).model() == m.push((key@, e))
                } else {
                    final(self).model() == m.update(find_key(m, key@), (key@, e))
                }
            }),
    {
        proof {
            use_type_invariant(&*self);
        }
        let ghost m = self.model();
        let ghost kview = key@;
        let ghost eview = EntryView { value: value@, expire_at };
        let entry = ValueEntry { value, expire_at };
        match self.find(key.as_slice()) {
            Some(i) => {
                let pair = (key, entry);
                proof {
                    lemma_find_key_props(m, kview);
                    lemma_distinct_update(m, i as int, (kview, eview));
                }
                let mut es: Vec<(Vec<u8>, ValueEntry)> = Vec::new();
                core::mem::swap(&mut es, &mut self.entries);
                es[i] = pair;
                proof {
                    assert(Seq::new(es@.len(), |t: int| (es@[t].0@, es@[t].1@)) =~= m.update(
                        i as int, (kview, eview)));
                }
                core::mem::swap(&mut es, &mut self.entries);
                proof {
                    assert(self.model() =~= m.update(i as int, (kview, eview)));
                }
            },
            None => {
                proof {
                    lemma_distinct_push(m, (kview, eview));
                }
                let mut es: Vec<(Vec<u8>, ValueEntry)> = Vec::new();
                core::mem::swap(&mut es, &mut self.entries);
                es.push((key, entry));
                proof {
                    assert(Seq::new(es@.len(), |t: int| (es@[t].0@, es@[t].1@)) =~= m.push(
                        (kview, eview)));
                }
                core::mem::swap(&mut es, &mut self.entries);
                proof {
                    assert(self.model() =~= m.push((kview, eview)));
                }
            },
        }
    }

    /// Removes `key`, reporting whether it was stored.
    pub fn delete(&mut self, key: &[u8]) -> (r: bool)
        ensures
            ({
                let m = old(self).model();
                if find_key(m, key@) == -1 {
                    r == false && final(self).model() == m
                } else {
                    r == true && final(self).model() == m.remove(find_key(m, key@))
                }
            }),
    {
        proof {
            use_type_invariant(&*self);
        }
        let ghost m = self.model();
        match self.find(key) {
            None => false,
            Some(i) => {
                let mut es: Vec<(Vec<u8>, ValueEntry)> = Vec::new();
                core::mem::swap(&mut es, &mut self.entries);
                es.remove(i);
                proof {
                    lemma_distinct_remove(m, i as int);
                    assert(Seq::new(es@.len(), |t: int| (es@[t].0@, es@[t].1@)) =~= m.remove(
                        i as int));
                }
                core::mem::swap(&mut es, &mut self.entries);
                proof {
                    assert(self.model() =~= m.remove(i as int));
                }
                true
            },
        }
    }

    /// Adds one to the integer stored under `key`, initializing an absent
    /// (or just-expired) key to zero first. The whole read-modify-write
    /// happens under one exclusive borrow, which is what makes concurrent
    /// increments lose nothing.
    pub fn increment(&mut self, key: &[u8], now: u64) -> (r: Result<i64, IncrError>)
        ensures
            ({
                let m1 = live_model(old(self).model(), key@, now);
                let i = find_key(m1, key@);
                if i == -1 {
                    r == Ok::<i64, IncrError>(1i64) && final(self).model() == m1.push(
                        (key@, EntryView { value: i64_digits(1), expire_at: None }),
                    )
                } else {
                    let e = m1[i].1;
                    match spec_parse_i64(e.value) {
                        None => r == Err::<i64, IncrError>(IncrError::NotAnInteger)
                            && final(self).model() == m1,
                        Some(n) => if n == i64::MAX {
                            r == Err::<i64, IncrError>(IncrError::Overflow) && final(self).model()
                                == m1
                        } else {
                            r == Ok::<i64, IncrError>((n + 1) as i64) && final(self).model()
                                == m1.update(
                                i,
                                (
                                    key@,
                                    EntryView {
                                        value: i64_digits((n + 1) as i64),
                                        expire_at: e.expire_at,
                                    },
                                ),
                            )
                        },
                    }
                }
            }),
    {
        proof {
            use_type_invariant(&*self);
        }
        let ghost m = self.model();
        proof {
            lemma_find_key_props(m, key@);
        }
        let found = self.find(key);
        let mut absent = true;
        let mut idx: usize = 0;
        match found {
            None => {
                proof {
                    assert(live_model(m, key@, now) == m);
                }
            },
            Some(i) => {
                let is_expired = match self.entries[i].1.expire_at {
                    Some(t) => now > t,
                    None => false,
                };
                if is_expired {
                    let mut es: Vec<(Vec<u8>, ValueEntry)> = Vec::new();
                    core::mem::swap(&mut es, &mut self.entries);
                    es.remove(i);
                    proof {
                        lemma_distinct_remove(m, i as int);
                        assert(Seq::new(es@.len(), |t: int| (es@[t].0@, es@[t].1@)) =~= m.remove(
                            i as int));
                    }
                    core::mem::swap(&mut es, &mut self.entries);
                    proof {
                        assert(self.model() =~= m.remove(i as int));
                        lemma_find_key_props(m, key@);
                        lemma_remove_still_absent(m, key@, i as int);
                    }
                } else {
                    absent = false;
                    idx = i;
                    proof {
                        assert(live_model(m, key@, now) == m);
                    }
                }
            },
        }
        let ghost m1 = live_model(m, key@, now);
        proof {
            assert(self.model() == m1);
        }
        if absent {
            proof {
                use_type_invariant(&*self);
                lemma_distinct_push(
                    m1,
                    (key@, EntryView { value: i64_digits(1), expire_at: None }),
                );
            }
            let mut one: Vec<u8> = Vec::new();
            one.push(49);
            proof {
                assert(one@ =~= i64_digits(1)) by {
                    crate::num::lemma_dec_digits_val(1);
                    assert(i64_digits(1) == crate::num::dec_digits(1));
                    assert(crate::num::dec_digits(1) == seq![49u8]);
                }
            }
            let kcopy = copy_key(key);
            let mut es: Vec<(Vec<u8>, ValueEntry)> = Vec::new();
            core::mem::swap(&mut es, &mut self.entries);
            es.push((kcopy, ValueEntry { value: one, expire_at: None }));
            proof {
                assert(Seq::new(es@.len(), |t: int| (es@[t].0@, es@[t].1@)) =~= m1.push(
                    (key@, EntryView { value: i64_digits(1), expire_at: None })));
            }
            core::mem::swap(&mut es, &mut self.entries);
            proof {
                assert(self.model() =~= m1.push(
                    (key@, EntryView { value: i64_digits(1), expire_at: None })));
            }
            Ok(1)
        } else {
            let current = match parse_i64(self.entries[idx].1.value.as_slice()) {
                Some(n) => n,
                None => {
                    return Err(IncrError::NotAnInteger);
                },
            };
            if current == i64::MAX {
                return Err(IncrError::Overflow);
            }
            let next = current + 1;
            let mut text: Vec<u8> = Vec::new();
            push_i64_digits(&mut text, next);
            proof {
                use_type_invariant(&*self);
                lemma_distinct_update(
                    m1,
                    idx as int,
                    (key@, EntryView { value: i64_digits(next), expire_at: m1[idx as int].1.expire_at }),
                );
            }
            let kcopy = copy_key(key);
            let keep_expire = self.entries[idx].1.expire_at;
            let pair = (kcopy, ValueEntry { value: text, expire_at: keep_expire });
            let ghost target = m1.update(
                idx as int,
                (key@, EntryView { value: i64_digits(next), expire_at: m1[idx as int].1.expire_at }),
            );
            let mut es: Vec<(Vec<u8>, ValueEntry)> = Vec::new();
            core::mem::swap(&mut es, &mut self.entries);
            es[idx] = pair;
            proof {
                assert(Seq::new(es@.len(), |t: int| (es@[t].0@, es@[t].1@)) =~= target);
            }
            core::mem::swap(&mut es, &mut self.entries);
            proof {
                assert(self.model() =~= target);
            }
            Ok(next)
        }
    }

    /// Sets the expiry of an existing key to `now + ttl` on the engine's
    /// clock, saturating at the clock's end; reports whether the key was
    /// stored. No lazy check happens here: re-arming a not-yet-swept entry
    /// revives it.
    pub fn expire(&mut self, key: &[u8], ttl: u64, now: u64) -> (r: bool)
        ensures
            ({
                let m = old(self).model();
                let i = find_key(m, key@);
                if i == -1 {
                    r == false && final(self).model() == m
                } else {
                    r == true && final(self).model() == m.update(
                        i,
                        (m[i].0, EntryView { value: m[i].1.value, expire_at: Some(sat_add(now, ttl)) }),
                    )
                }
            }),
    {
        proof {
            use_type_invariant(&*self);
        }
        let ghost m = self.model();
        match self.find(key) {
            None => false,
            Some(i) => {
                let deadline = now.saturating_add(ttl);
                proof {
                    lemma_find_key_props(m, key@);
                    lemma_distinct_update(
                        m,
                        i as int,
                        (
                            m[i as int].0,
                            EntryView {
                                value: m[i as int].1.value,
                                expire_at: Some(sat_add(now, ttl)),
                            },
                        ),
                    );
                }
                let value = clone_bytes(&self.entries[i].1.value);
                let kcopy = clone_bytes(&self.entries[i].0);
                let pair = (kcopy, ValueEntry { value, expire_at: Some(deadline) });
                let ghost target = m.update(
                    i as int,
                    (
                        m[i as int].0,
                        EntryView { value: m[i as int].1.value, expire_at: Some(sat_add(now, ttl)) },
                    ),
                );
                let mut es: Vec<(Vec<u8>, ValueEntry)> = Vec::new();
                core::mem::swap(&mut es, &mut self.entries);
                es[i] = pair;
                proof {
                    assert(Seq::new(es@.len(), |t: int| (es@[t].0@, es@[t].1@)) =~= target);
                }
                core::mem::swap(&mut es, &mut self.entries);
                proof {
                    assert(self.model() =~= target);
                }
                true
            },
        }
    }

    /// A snapshot of every stored key, in storage order, without any lazy
    /// expiration: keys past their expiry but not yet swept still appear.
    pub fn keys(&self) -> (r: Vec<Vec<u8>>)
        ensures
            r.deep_view() == key_seq(self.model()),
    {
        let mut out: Vec<Vec<u8>> = Vec::new();
        let mut i: usize = 0;
        while i < self.entries.len()
            invariant
                i <= self.entries@.len(),
                out.deep_view() =~= key_seq(self.model()).subrange(0, i as int),
            decreases self.entries@.len() - i,
        {
            let ghost pre = out.deep_view();
            let k = clone_bytes(&self.entries[i].0);
            let ghost kv = k@;
            out.push(k);
            proof {
                assert(out.deep_view() =~~= pre.push(kv));
                assert(out.deep_view() =~~= key_seq(self.model()).subrange(0, i + 1 as int));
            }
            i = i + 1;
        }
        proof {
            assert(key_seq(self.model()).subrange(0, self.entries@.len() as int) =~= key_seq(
                self.model()));
        }
        out
    }

    /// Empties the engine and hands its pairs out, for a pass that rebuilds
    /// them.
    pub(crate) fn take_entries(&mut self) -> (r: Vec<(Vec<u8>, ValueEntry)>)
        ensures
            Seq::new(r@.len(), |i: int| (r@[i].0@, r@[i].1@)) == old(self).model(),
            final(self).model() == Seq::<(Seq<u8>, EntryView)>::empty(),
    {
        proof {
            use_type_invariant(&*self);
        }
        let ghost m = self.model();
        let mut es: Vec<(Vec<u8>, ValueEntry)> = Vec::new();
        core::mem::swap(&mut es, &mut self.entries);
        proof {
            assert(self.model() =~= Seq::<(Seq<u8>, EntryView)>::empty());
            assert(Seq::new(es@.len(), |i: int| (es@[i].0@, es@[i].1@)) =~= m);
        }
        es
    }

    /// Installs a rebuilt pair list, whose keys must be distinct.
    pub(crate) fn put_entries(&mut self, es: Vec<(Vec<u8>, ValueEntry)>)
        requires
            distinct_keys(Seq::new(es@.len(), |i: int| (es@[i].0@, es@[i].1@))),
        ensures
            final(self).model() == Seq::new(es@.len(), |i: int| (es@[i].0@, es@[i].1@)),
    {
        proof {
            use_type_invariant(&*self);
        }
        let ghost target = Seq::new(es@.len(), |i: int| (es@[i].0@, es@[i].1@));
        self.entries = es;
        proof {
            assert(self.model() =~= target);
        }
    }

    /// Removes every entry unconditionally.
    pub fn clear(&mut self)
        ensures
            final(self).model() == Seq::<(Seq<u8>, EntryView)>::empty(),
    {
        proof {
            use_type_invariant(&*self);
        }
        let mut es: Vec<(Vec<u8>, ValueEntry)> = Vec::new();
        core::mem::swap(&mut es, &mut self.entries);
        es.clear();
        core::mem::swap(&mut es, &mut self.entries);
        proof {
            assert(self.model() =~= Seq::<(Seq<u8>, EntryView)>::empty());
        }
    }
}

/// After removing the sole pair holding `k`, the key is absent.
proof fn lemma_remove_still_absent(m: Seq<(Seq<u8>, EntryView)>, k: Seq<u8>, i: int)
    requires
        distinct_keys(m),
        0 <= i < m.len(),
        find_key(m, k) == i,
    ensures
        find_key(m.remove(i), k) == -1,
{
    lemma_find_key_props(m, k);
    assert forall|j: int| 0 <= j < m.remove(i).len() implies (#[trigger] m.remove(i)[j]).0
        != k by {
        let j0 = if j < i {
            j
        } else {
            j + 1
        };
        assert(m.remove(i)[j] == m[j0]);
    }
    lemma_find_key_none(m.remove(i), k);
}

/// Copies a key slice into an owned vector.
fn copy_key(key: &[u8]) -> (r: Vec<u8>)
    ensures
        r@ == key@,
{
    let mut out: Vec<u8> = Vec::new();
    let mut i: usize = 0;
    while i < key.len()
        invariant
            i <= key@.len(),
            out@ == key@.subrange(0, i as int),
        decreases key@.len() - i,
    {
        out.push(key[i]);
        proof {
            assert(out@ =~= key@.subrange(0, i + 1 as int));
        }
        i = i + 1;
    }
    proof {
        assert(out@ =~= key@);
    }
    out
}

/// A fresh, empty engine; the process makes one and shares it among all
/// connections behind its lock.
pub fn new_db() -> (s: Store)
    ensures
        s.model() == Seq::<(Seq<u8>, EntryView)>::empty(),
{
    Store::new()
}

} // verus!
