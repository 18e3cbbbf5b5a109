//! The key-value store and its expiration index.
//!
//! Times are milliseconds on a monotonic clock that the caller reads; a
//! deadline is the time at which an entry stops being live.
use vstd::prelude::*;

use crate::text::{copy_bytes, same_bytes};

verus! {

/// What the store holds under a key.
pub struct Stored {
    pub data: Seq<u8>,
    pub expires_at: Option<u64>,
}

/// An entry of the store, under its key.
struct Entry {
    key: Vec<u8>,
    id: u64,
    data: Vec<u8>,
    expires_at: Option<u64>,
}

/// A record of the expiration index: at `when`, the entry `id` under `key`
/// expires.
struct Expiration {
    when: u64,
    id: u64,
    key: Vec<u8>,
}

/// The store: entries by key, and an index of their deadlines ordered by
/// deadline, then by id.
pub struct Db {
    entries: Vec<Entry>,
    expirations: Vec<Expiration>,
    next_id: u64,
    shutdown: bool,
    model: Ghost<Map<Seq<u8>, Stored>>,
}

/// The deadline `ms` milliseconds after `now`, saturating.
pub open spec fn deadline(now: u64, ms: u64) -> u64 {
    if now + ms > u64::MAX {
        u64::MAX
    } else {
        (now + ms) as u64
    }
}

/// An entry whose deadline has come by `now`.
pub open spec fn expired(s: Stored, now: u64) -> bool {
    s.expires_at matches Some(t) && t <= now
}

/// The entries of `m` that are live at `now`.
pub open spec fn live_at(m: Map<Seq<u8>, Stored>, now: u64) -> Map<Seq<u8>, Stored> {
    Map::new(|k: Seq<u8>| m.contains_key(k) && !expired(m[k], now), |k: Seq<u8>| m[k])
}

/// `t` is the earliest deadline of an entry of `m`.
pub open spec fn is_earliest(m: Map<Seq<u8>, Stored>, t: u64) -> bool {
    &&& exists|k: Seq<u8>| m.contains_key(k) && #[trigger] m[k].expires_at == Some(t)
    &&& forall|k: Seq<u8>| m.contains_key(k) && (#[trigger] m[k].expires_at) is Some ==> t <= m[k].expires_at->Some_0
}

/// No entry of `m` has a deadline.
pub open spec fn no_deadline(m: Map<Seq<u8>, Stored>) -> bool {
    forall|k: Seq<u8>| m.contains_key(k) ==> (#[trigger] m[k].expires_at) is None
}

/// A write with deadline `when` moves the earliest deadline of `m` forward.
pub open spec fn wakes_sweeper(m: Map<Seq<u8>, Stored>, when: Option<u64>) -> bool {
    when matches Some(w) && forall|k: Seq<u8>|
        m.contains_key(k) && (#[trigger] m[k].expires_at) is Some ==> w < m[k].expires_at->Some_0
}

spec fn linked(e: Entry, x: Expiration) -> bool {
    e.key@ == x.key@ && e.id == x.id && e.expires_at == Some(x.when)
}

spec fn before(x: Expiration, y: Expiration) -> bool {
    x.when < y.when || (x.when == y.when && x.id < y.id)
}

spec fn stored(e: Entry) -> Stored {
    Stored { data: e.data@, expires_at: e.expires_at }
}

spec fn keys_unique(s: Seq<Entry>) -> bool {
    forall|i: int, j: int| 0 <= i < s.len() && 0 <= j < s.len() && i != j ==> #[trigger] s[i].key@ != #[trigger] s[j].key@
}

spec fn ids_unique(s: Seq<Entry>) -> bool {
    forall|i: int, j: int| 0 <= i < s.len() && 0 <= j < s.len() && i != j ==> #[trigger] s[i].id != #[trigger] s[j].id
}

spec fn ids_below(s: Seq<Entry>, n: u64) -> bool {
    forall|i: int| 0 <= i < s.len() ==> #[trigger] s[i].id < n
}

spec fn sorted(x: Seq<Expiration>) -> bool {
    forall|i: int, j: int| 0 <= i < j < x.len() ==> before(#[trigger] x[i], #[trigger] x[j])
}

/// Some entry of `s` owns the record `r`.
spec fn has_owner(s: Seq<Entry>, r: Expiration) -> bool {
    exists|i: int| 0 <= i < s.len() && #[trigger] linked(s[i], r)
}

/// The index `x` holds the record of the entry `e`.
spec fn has_record(x: Seq<Expiration>, e: Entry) -> bool {
    exists|j: int| 0 <= j < x.len() && #[trigger] linked(e, x[j])
}

/// Each record of the index belongs to an entry.
spec fn records_linked(s: Seq<Entry>, x: Seq<Expiration>) -> bool {
    forall|j: int| 0 <= j < x.len() ==> has_owner(s, #[trigger] x[j])
}

/// Each entry with a deadline has its record in the index.
spec fn entries_linked(s: Seq<Entry>, x: Seq<Expiration>) -> bool {
    forall|i: int| 0 <= i < s.len() && (#[trigger] s[i]).expires_at is Some ==> has_record(x, s[i])
}

/// Each entry with a deadline but the one at `ix` has its record in the index.
spec fn linked_except(s: Seq<Entry>, x: Seq<Expiration>, ix: int) -> bool {
    forall|c: int| 0 <= c < s.len() && c != ix && (#[trigger] s[c]).expires_at is Some ==> has_record(x, s[c])
}

spec fn model_holds(s: Seq<Entry>, m: Map<Seq<u8>, Stored>) -> bool {
    &&& forall|i: int| 0 <= i < s.len() ==> m.contains_key(#[trigger] s[i].key@) && m[s[i].key@] == stored(s[i])
    &&& forall|k: Seq<u8>| #[trigger] m.contains_key(k) ==> exists|i: int| 0 <= i < s.len() && s[i].key@ == k
}

proof fn lemma_remove_sorted(x: Seq<Expiration>, j: int)
    requires
        sorted(x),
        0 <= j < x.len(),
    ensures
        sorted(x.remove(j)),
{
    let y = x.remove(j);
    assert forall|a: int, b: int| 0 <= a < b < y.len() implies before(#[trigger] y[a], #[trigger] y[b]) by {
        let a2 = if a < j { a } else { a + 1 };
        let b2 = if b < j { b } else { b + 1 };
        assert(y[a] == x[a2] && y[b] == x[b2]);
    }
}

proof fn lemma_remove_records(e: Seq<Entry>, x: Seq<Expiration>, j: int)
    requires
        records_linked(e, x),
        0 <= j < x.len(),
    ensures
        records_linked(e, x.remove(j)),
{
    let y = x.remove(j);
    assert forall|a: int| 0 <= a < y.len() implies has_owner(e, y[a]) by {
        let a2 = if a < j { a } else { a + 1 };
        assert(y[a] == x[a2]);
    }
}

proof fn lemma_remove_entries(e: Seq<Entry>, x: Seq<Expiration>, i: int, j: int)
    requires
        entries_linked(e, x),
        ids_unique(e),
        0 <= i < e.len(),
        0 <= j < x.len(),
        linked(e[i], x[j]),
    ensures
        linked_except(e, x.remove(j), i),
{
    let y = x.remove(j);
    assert forall|c: int| 0 <= c < e.len() && c != i && (#[trigger] e[c]).expires_at is Some implies has_record(y, e[c]) by {
        let a0 = choose|a0: int| 0 <= a0 < x.len() && linked(e[c], x[a0]);
        assert(e[c].id != e[i].id);
        let a1 = if a0 < j { a0 } else { a0 - 1 };
        assert(y[a1] == x[a0]);
    }
}

proof fn lemma_remove_unlinked(e: Seq<Entry>, x: Seq<Expiration>, i: int, j: int)
    requires
        sorted(x),
        0 <= i < e.len(),
        0 <= j < x.len(),
        linked(e[i], x[j]),
    ensures
        forall|a: int| 0 <= a < x.remove(j).len() ==> !linked(e[i], #[trigger] x.remove(j)[a]),
{
    let y = x.remove(j);
    assert forall|a: int| 0 <= a < y.len() implies !linked(e[i], #[trigger] y[a]) by {
        let a2 = if a < j { a } else { a + 1 };
        assert(y[a] == x[a2]);
        if a2 < j {
            assert(before(x[a2], x[j]));
        } else {
            assert(before(x[j], x[a2]));
        }
    }
}

proof fn lemma_insert_sorted(x: Seq<Expiration>, p: int, r: Expiration)
    requires
        sorted(x),
        0 <= p <= x.len(),
        forall|q: int| 0 <= q < p ==> (#[trigger] x[q]).when <= r.when,
        forall|q: int| p <= q < x.len() ==> r.when < (#[trigger] x[q]).when,
        forall|a: int| 0 <= a < x.len() ==> (#[trigger] x[a]).id < r.id,
    ensures
        sorted(x.insert(p, r)),
{
    let y = x.insert(p, r);
    assert forall|a: int, b: int| 0 <= a < b < y.len() implies before(#[trigger] y[a], #[trigger] y[b]) by {
        if a < p && b < p {
            assert(y[a] == x[a] && y[b] == x[b]);
        } else if a < p && b == p {
            assert(y[a] == x[a]);
        } else if a < p {
            assert(y[a] == x[a] && y[b] == x[b - 1]);
        } else if a == p {
            assert(y[b] == x[b - 1]);
        } else {
            assert(y[a] == x[a - 1] && y[b] == x[b - 1]);
        }
    }
}

proof fn lemma_insert_linked(e: Seq<Entry>, x: Seq<Expiration>, p: int, r: Expiration, ix: int)
    requires
        records_linked(e, x),
        linked_except(e, x, ix),
        0 <= ix < e.len(),
        linked(e[ix], r),
        0 <= p <= x.len(),
    ensures
        records_linked(e, x.insert(p, r)),
        entries_linked(e, x.insert(p, r)),
{
    let y = x.insert(p, r);
    assert(y[p] == r);
    assert forall|a: int| 0 <= a < y.len() implies has_owner(e, y[a]) by {
        if a < p {
            assert(y[a] == x[a]);
        } else if a > p {
            assert(y[a] == x[a - 1]);
        } else {
            assert(linked(e[ix], y[a]));
        }
    }
    assert forall|c: int| 0 <= c < e.len() && (#[trigger] e[c]).expires_at is Some implies has_record(y, e[c]) by {
        if c != ix {
            let a = choose|a: int| 0 <= a < x.len() && linked(e[c], #[trigger] x[a]);
            if a < p {
                assert(y[a] == x[a]);
            } else {
                assert(y[a + 1] == x[a]);
            }
        } else {
            assert(linked(e[c], y[p]));
        }
    }
}

proof fn lemma_drop_entry(e: Seq<Entry>, x: Seq<Expiration>, m: Map<Seq<u8>, Stored>, i: int)
    requires
        0 <= i < e.len(),
        keys_unique(e),
        ids_unique(e),
        records_linked(e, x),
        linked_except(e, x, i),
        forall|a: int| 0 <= a < x.len() ==> !linked(e[i], #[trigger] x[a]),
        model_holds(e, m),
    ensures
        keys_unique(e.remove(i)),
        ids_unique(e.remove(i)),
        records_linked(e.remove(i), x),
        entries_linked(e.remove(i), x),
        model_holds(e.remove(i), m.remove(e[i].key@)),
        forall|n: u64| ids_below(e, n) ==> ids_below(e.remove(i), n),
{
    let f = e.remove(i);
    assert forall|c: int| 0 <= c < f.len() implies #[trigger] f[c] == e[if c < i { c } else { c + 1 }] by {}
    assert forall|a: int, b: int| 0 <= a < f.len() && 0 <= b < f.len() && a != b implies #[trigger] f[a].key@ != #[trigger] f[b].key@ by {
        let a2 = if a < i { a } else { a + 1 };
        let b2 = if b < i { b } else { b + 1 };
        assert(f[a] == e[a2] && f[b] == e[b2]);
    }
    assert forall|a: int, b: int| 0 <= a < f.len() && 0 <= b < f.len() && a != b implies #[trigger] f[a].id != #[trigger] f[b].id by {
        let a2 = if a < i { a } else { a + 1 };
        let b2 = if b < i { b } else { b + 1 };
        assert(f[a] == e[a2] && f[b] == e[b2]);
    }
    assert forall|j: int| 0 <= j < x.len() implies has_owner(f, #[trigger] x[j]) by {
        let c = choose|c: int| 0 <= c < e.len() && linked(e[c], x[j]);
        assert(c != i);
        let c2 = if c < i { c } else { c - 1 };
        assert(f[c2] == e[c]);
        assert(linked(f[c2], x[j]));
    }
    assert forall|c: int| 0 <= c < f.len() && (#[trigger] f[c]).expires_at is Some implies has_record(x, f[c]) by {
        let c2 = if c < i { c } else { c + 1 };
        assert(f[c] == e[c2]);
    }
    let m2 = m.remove(e[i].key@);
    assert forall|c: int| 0 <= c < f.len() implies m2.contains_key(#[trigger] f[c].key@) && m2[f[c].key@] == stored(f[c]) by {
        let c2 = if c < i { c } else { c + 1 };
        assert(f[c] == e[c2]);
    }
    assert forall|k: Seq<u8>| #[trigger] m2.contains_key(k) implies exists|c: int| 0 <= c < f.len() && f[c].key@ == k by {
        let c = choose|c: int| 0 <= c < e.len() && e[c].key@ == k;
        assert(c != i);
        let c2 = if c < i { c } else { c - 1 };
        assert(f[c2] == e[c]);
    }
    assert forall|n: u64| ids_below(e, n) implies ids_below(f, n) by {
        assert forall|c: int| 0 <= c < f.len() implies #[trigger] f[c].id < n by {
            let c2 = if c < i { c } else { c + 1 };
            assert(f[c] == e[c2]);
        }
    }
}

impl View for Db {
    type V = Map<Seq<u8>, Stored>;

    closed spec fn view(&self) -> Map<Seq<u8>, Stored> {
        self.model@
    }
}

impl Db {
    /// The invariant of the store.
    pub closed spec fn wf(&self) -> bool {
        &&& keys_unique(self.entries@)
        &&& ids_unique(self.entries@)
        &&& ids_below(self.entries@, self.next_id)
        &&& sorted(self.expirations@)
        &&& records_linked(self.entries@, self.expirations@)
        &&& entries_linked(self.entries@, self.expirations@)
        &&& model_holds(self.entries@, self.model@)
    }

    /// Whether the store has been told to stop its sweeper.
    pub closed spec fn is_shut_down(&self) -> bool {
        self.shutdown
    }

    /// How many more writes can be given ids never used before.
    pub closed spec fn writes_left(&self) -> nat {
        (u64::MAX - self.next_id) as nat
    }

    /// Whether a write can still be given an id never used before.
    pub open spec fn has_fresh_id(&self) -> bool {
        self.writes_left() > 0
    }

    /// An empty store.
    pub fn new() -> (r: Db)
        ensures
            r.wf(),
            r@ == Map::<Seq<u8>, Stored>::empty(),
            !r.is_shut_down(),
            r.writes_left() == u64::MAX,
    {
        Db {
            entries: Vec::new(),
            expirations: Vec::new(),
            next_id: 0,
            shutdown: false,
            model: Ghost(Map::empty()),
        }
    }

    /// Where the entry under `key` stands.
    fn find(&self, key: &[u8]) -> (r: Option<usize>)
        ensures
            r matches Some(i) ==> i < self.entries@.len() && self.entries@[i as int].key@ == key@,
            r is None ==> forall|i: int| 0 <= i < self.entries@.len() ==> #[trigger] self.entries@[i].key@ != key@,
    {
        let mut i: usize = 0;
        while i < self.entries.len()
            invariant
                i <= self.entries@.len(),
                forall|j: int| 0 <= j < i ==> #[trigger] self.entries@[j].key@ != key@,
            decreases self.entries@.len() - i,
        {
            if same_bytes(self.entries[i].key.as_slice(), key) {
                return Some(i);
            }
            i = i + 1;
        }
        None
    }

    /// The value under `key`, copied out.
    pub fn get(&self, key: &[u8]) -> (r: Option<Vec<u8>>)
        requires
            self.wf(),
        ensures
            match r {
                Some(v) => self@.contains_key(key@) && v@ == self@[key@].data,
                None => !self@.contains_key(key@),
            },
    {
        match self.find(key) {
            Some(i) => {
                let v = copy_bytes(self.entries[i].data.as_slice());
                Some(v)
            },
            None => {
                proof {
                    if self@.contains_key(key@) {
                        let i = choose|i: int| 0 <= i < self.entries@.len() && self.entries@[i].key@ == key@;
                        assert(self.entries@[i].key@ != key@);
                    }
                }
                None
            },
        }
    }

    /// The earliest deadline in the index.
    fn next_expiration(&self) -> (r: Option<u64>)
        requires
            self.wf(),
        ensures
            r matches Some(t) ==> is_earliest(self@, t),
            r is None ==> no_deadline(self@),
    {
        if self.expirations.len() == 0 {
            proof {
                assert forall|k: Seq<u8>| self@.contains_key(k) implies (#[trigger] self@[k].expires_at) is None by {
                    let i = choose|i: int| 0 <= i < self.entries@.len() && self.entries@[i].key@ == k;
                    if self.entries@[i].expires_at is Some {
                        let j = choose|j: int| 0 <= j < self.expirations@.len() && linked(self.entries@[i], #[trigger] self.expirations@[j]);
                    }
                }
            }
            None
        } else {
            let t = self.expirations[0].when;
            proof {
                let x0 = self.expirations@[0];
                let i0 = choose|i: int| 0 <= i < self.entries@.len() && linked(self.entries@[i], x0);
                assert(self@[self.entries@[i0].key@].expires_at == Some(t));
                assert forall|k: Seq<u8>| self@.contains_key(k) && (#[trigger] self@[k].expires_at) is Some implies t
                    <= self@[k].expires_at->Some_0 by {
                    let i = choose|i: int| 0 <= i < self.entries@.len() && self.entries@[i].key@ == k;
                    let j = choose|j: int| 0 <= j < self.expirations@.len() && linked(self.entries@[i], #[trigger] self.expirations@[j]);
                    if j > 0 {
                        assert(before(self.expirations@[0], self.expirations@[j]));
                    }
                }
            }
            Some(t)
        }
    }

    /// Where the record of the entry at `i` stands in the index.
    fn find_record(&self, i: usize) -> (r: usize)
        requires
            self.wf(),
            i < self.entries@.len(),
            self.entries@[i as int].expires_at is Some,
        ensures
            r < self.expirations@.len(),
            linked(self.entries@[i as int], self.expirations@[r as int]),
    {
        let ghost e = self.entries@[i as int];
        let ghost w = choose|j: int| 0 <= j < self.expirations@.len() && linked(e, #[trigger] self.expirations@[j]);
        let id = self.entries[i].id;
        let mut j: usize = 0;
        while j < self.expirations.len()
            invariant
                self.wf(),
                i < self.entries@.len(),
                e == self.entries@[i as int],
                0 <= w < self.expirations@.len(),
                linked(e, self.expirations@[w]),
                id == e.id,
                j <= w,
            decreases self.expirations@.len() - j,
        {
            if self.expirations[j].id == id {
                proof {
                    let i2 = choose|i2: int| 0 <= i2 < self.entries@.len() && linked(self.entries@[i2], #[trigger] self.expirations@[j as int]);
                    assert(self.entries@[i2].id == self.entries@[i as int].id);
                    assert(i2 == i);
                }
                return j;
            }
            j = j + 1;
        }
        j
    }

    /// Removes the record of the entry at `i` from the index, if it has one.
    fn unlink(&mut self, i: usize)
        requires
            old(self).wf(),
            i < old(self).entries@.len(),
        ensures
            final(self).entries@ == old(self).entries@,
            final(self).model@ == old(self).model@,
            final(self).next_id == old(self).next_id,
            final(self).shutdown == old(self).shutdown,
            sorted(final(self).expirations@),
            records_linked(final(self).entries@, final(self).expirations@),
            linked_except(final(self).entries@, final(self).expirations@, i as int),
            forall|a: int| 0 <= a < final(self).expirations@.len() ==> !linked(final(self).entries@[i as int], #[trigger] final(self).expirations@[a]),
    {
        let ghost e0 = self.entries@;
        if self.entries[i].expires_at.is_some() {
            let j = self.find_record(i);
            let ghost x0 = self.expirations@;
            self.expirations.remove(j);
            proof {
                lemma_remove_sorted(x0, j as int);
                lemma_remove_records(e0, x0, j as int);
                lemma_remove_entries(e0, x0, i as int, j as int);
                lemma_remove_unlinked(e0, x0, i as int, j as int);
            }
        }
    }

    /// Puts `rec` into the index at its place in the order.
    fn index_deadline(&mut self, rec: Expiration, ix: Ghost<int>)
        requires
            sorted(old(self).expirations@),
            records_linked(old(self).entries@, old(self).expirations@),
            linked_except(old(self).entries@, old(self).expirations@, ix@),
            0 <= ix@ < old(self).entries@.len(),
            linked(old(self).entries@[ix@], rec),
            forall|a: int| 0 <= a < old(self).expirations@.len() ==> (#[trigger] old(self).expirations@[a]).id < rec.id,
        ensures
            final(self).entries@ == old(self).entries@,
            final(self).model@ == old(self).model@,
            final(self).next_id == old(self).next_id,
            final(self).shutdown == old(self).shutdown,
            sorted(final(self).expirations@),
            records_linked(final(self).entries@, final(self).expirations@),
            entries_linked(final(self).entries@, final(self).expirations@),
    {
        let ghost x1 = self.expirations@;
        let ghost e1 = self.entries@;
        let w = rec.when;
        let mut p: usize = 0;
        while p < self.expirations.len() && self.expirations[p].when <= w
            invariant
                p <= self.expirations@.len(),
                self.expirations@ == x1,
                forall|q: int| 0 <= q < p ==> (#[trigger] x1[q]).when <= w,
            decreases self.expirations@.len() - p,
        {
            p = p + 1;
        }
        let ghost r = rec;
        self.expirations.insert(p, rec);
        proof {
            assert forall|q: int| p <= q < x1.len() implies w < (#[trigger] x1[q]).when by {
                if q > p {
                    assert(before(x1[p as int], x1[q]));
                }
            }
            lemma_insert_sorted(x1, p as int, r);
            lemma_insert_linked(e1, x1, p as int, r, ix@);
        }
    }

    /// Stores `value` under `key`, with a deadline `expire` milliseconds
    /// after `now` when one is given, and replaces what was there. Returns
    /// whether the new deadline comes before every deadline the store held,
    /// so that the sweeper must be woken.
    #[verifier::rlimit(60)]
    pub fn set(&mut self, key: Vec<u8>, value: Vec<u8>, expire: Option<u64>, now: u64) -> (notify: bool)
        requires
            old(self).wf(),
            old(self).has_fresh_id(),
        ensures
            final(self).wf(),
            final(self)@ == old(self)@.insert(
                key@,
                Stored {
                    data: value@,
                    expires_at: match expire {
                        Some(ms) => Some(deadline(now, ms)),
                        None => None,
                    },
                },
            ),
            notify == wakes_sweeper(
                old(self)@,
                match expire {
                    Some(ms) => Some(deadline(now, ms)),
                    None => None,
                },
            ),
            final(self).is_shut_down() == old(self).is_shut_down(),
            final(self).writes_left() == old(self).writes_left() - 1,
    {
        let id = self.next_id;
        self.next_id = self.next_id + 1;
        let when: Option<u64> = match expire {
            Some(ms) => Some(
                if ms > u64::MAX - now {
                    u64::MAX
                } else {
                    now + ms
                },
            ),
            None => None,
        };
        let ghost new_stored = Stored { data: value@, expires_at: when };
        let notify = match when {
            Some(w) => match self.next_expiration() {
                Some(t) => t > w,
                None => true,
            },
            None => false,
        };
        proof {
            if let Some(w) = when {
                if notify {
                    assert forall|k: Seq<u8>|
                        old(self)@.contains_key(k) && (#[trigger] old(self)@[k].expires_at) is Some implies w
                        < old(self)@[k].expires_at->Some_0 by {
                    }
                }
            }
        }
        let key_copy = copy_bytes(key.as_slice());
        let found = self.find(key.as_slice());
        let ghost e0 = self.entries@;
        let ghost m0 = self.model@;
        // Drop the record of the entry that is replaced.
        match found {
            Some(i) => {
                self.unlink(i);
            },
            None => {},
        }
        let ghost x1 = self.expirations@;
        let ghost ix: int = match found {
            Some(i) => i as int,
            None => e0.len() as int,
        };
        let entry = Entry { key, id, data: value, expires_at: when };
        match found {
            Some(i) => {
                self.entries.set(i, entry);
            },
            None => {
                self.entries.push(entry);
            },
        }
        self.model = Ghost(m0.insert(key_copy@, new_stored));
        proof {
            let e1 = self.entries@;
            assert(e1.len() == if found is Some { e0.len() } else { e0.len() + 1 });
            assert(e1[ix].key@ == key_copy@ && e1[ix].id == id && e1[ix].expires_at == when);
            assert forall|c: int| 0 <= c < e1.len() && c != ix implies #[trigger] e1[c] == e0[c] by {}
            assert forall|a: int| 0 <= a < x1.len() implies has_owner(e1, x1[a]) by {
                let c = choose|c: int| 0 <= c < e0.len() && linked(e0[c], #[trigger] x1[a]);
                assert(c != ix);
                assert(e1[c] == e0[c]);
            }
            assert forall|c: int| 0 <= c < e1.len() && c != ix && (#[trigger] e1[c]).expires_at is Some implies has_record(x1, e1[c]) by {
                assert(e1[c] == e0[c]);
            }
            assert forall|a: int| 0 <= a < x1.len() implies (#[trigger] x1[a]).id < id by {
                let c = choose|c: int| 0 <= c < e0.len() && linked(e0[c], #[trigger] x1[a]);
            }
            assert(keys_unique(e1)) by {
                assert forall|a: int, b: int| 0 <= a < e1.len() && 0 <= b < e1.len() && a != b implies #[trigger] e1[a].key@ != #[trigger] e1[b].key@ by {
                    if a != ix && b != ix {
                        assert(e1[a] == e0[a] && e1[b] == e0[b]);
                    } else if a == ix {
                        assert(e1[b] == e0[b]);
                    } else {
                        assert(e1[a] == e0[a]);
                    }
                }
            }
            assert(ids_unique(e1)) by {
                assert forall|a: int, b: int| 0 <= a < e1.len() && 0 <= b < e1.len() && a != b implies #[trigger] e1[a].id != #[trigger] e1[b].id by {
                    if a != ix && b != ix {
                        assert(e1[a] == e0[a] && e1[b] == e0[b]);
                    } else if a == ix {
                        assert(e1[b] == e0[b]);
                    } else {
                        assert(e1[a] == e0[a]);
                    }
                }
            }
            assert(ids_below(e1, self.next_id)) by {
                assert forall|a: int| 0 <= a < e1.len() implies #[trigger] e1[a].id < self.next_id by {
                    if a != ix {
                        assert(e1[a] == e0[a]);
                    }
                }
            }
            assert(model_holds(e1, self.model@)) by {
                assert forall|a: int| 0 <= a < e1.len() implies self.model@.contains_key(#[trigger] e1[a].key@)
                    && self.model@[e1[a].key@] == stored(e1[a]) by {
                    if a != ix {
                        assert(e1[a] == e0[a]);
                        assert(e1[a].key@ != key_copy@);
                    }
                }
                assert forall|k: Seq<u8>| #[trigger] self.model@.contains_key(k) implies exists|a: int|
                    0 <= a < e1.len() && e1[a].key@ == k by {
                    if k != key_copy@ {
                        let a = choose|a: int| 0 <= a < e0.len() && e0[a].key@ == k;
                        assert(a != ix);
                        assert(e1[a] == e0[a]);
                    }
                }
            }
        }
        // Index the new deadline.
        match when {
            Some(w) => {
                self.index_deadline(Expiration { when: w, id, key: key_copy }, Ghost(ix));
            },
            None => {},
        }
        notify
    }

    /// Removes every entry whose deadline has come by `now`, earliest first,
    /// and returns the earliest deadline still ahead, if any. Once the store
    /// is shut down it does nothing and returns `None`.
    pub fn purge_expired_keys(&mut self, now: u64) -> (r: Option<u64>)
        requires
            old(self).wf(),
        ensures
            final(self).wf(),
            final(self).is_shut_down() == old(self).is_shut_down(),
            final(self).writes_left() == old(self).writes_left(),
            old(self).is_shut_down() ==> r is None && final(self)@ == old(self)@,
            !old(self).is_shut_down() ==> final(self)@ == live_at(old(self)@, now),
            !old(self).is_shut_down() ==> match r {
                Some(t) => now < t && is_earliest(final(self)@, t),
                None => no_deadline(final(self)@),
            },
    {
        if self.shutdown {
            return None;
        }
        let ghost m0 = self.model@;
        while self.expirations.len() > 0 && self.expirations[0].when <= now
            invariant
                self.wf(),
                !self.shutdown,
                self.next_id == old(self).next_id,
                m0 == old(self)@,
                forall|k: Seq<u8>| #[trigger] self@.contains_key(k) ==> m0.contains_key(k) && self@[k] == m0[k],
                forall|k: Seq<u8>| #[trigger] m0.contains_key(k) && !self@.contains_key(k) ==> expired(m0[k], now),
            decreases self.expirations@.len(),
        {
            let ghost e = self.entries@;
            let ghost x = self.expirations@;
            let ghost m = self.model@;
            proof {
                assert(m == self@);
                assert(forall|k2: Seq<u8>| m.contains_key(k2) ==> m0.contains_key(k2) && m[k2] == m0[k2]);
                assert(forall|k2: Seq<u8>| m0.contains_key(k2) && !m.contains_key(k2) ==> expired(m0[k2], now));
            }
            let found = self.find(self.expirations[0].key.as_slice());
            proof {
                let c = choose|c: int| 0 <= c < e.len() && linked(e[c], x[0]);
                assert(found matches Some(i) && i == c) by {
                    if let Some(i) = found {
                        if i != c {
                            assert(e[i as int].key@ != e[c].key@);
                        }
                    }
                }
            }
            let i = match found {
                Some(i) => i,
                None => {
                    return None;
                },
            };
            let ghost k = e[i as int].key@;
            self.expirations.remove(0);
            self.entries.remove(i);
            self.model = Ghost(m.remove(k));
            proof {
                lemma_remove_sorted(x, 0);
                lemma_remove_records(e, x, 0);
                lemma_remove_entries(e, x, i as int, 0);
                lemma_remove_unlinked(e, x, i as int, 0);
                lemma_drop_entry(e, x.remove(0), m, i as int);
                assert(linked(e[i as int], x[0]));
                assert(m.contains_key(k) && m[k] == stored(e[i as int]));
                assert(expired(m0[k], now));
                assert forall|k2: Seq<u8>| #[trigger] self@.contains_key(k2) implies m0.contains_key(k2) && self@[k2] == m0[k2] by {
                    assert(m.contains_key(k2));
                }
                assert forall|k2: Seq<u8>| #[trigger] m0.contains_key(k2) && !self@.contains_key(k2) implies expired(m0[k2], now) by {
                    if k2 != k {
                        assert(!m.contains_key(k2));
                    }
                }
            }
        }
        proof {
            let m = self.model@;
            let e = self.entries@;
            let x = self.expirations@;
            assert(m == self@);
            assert(forall|k2: Seq<u8>| m.contains_key(k2) ==> m0.contains_key(k2) && m[k2] == m0[k2]);
            assert(forall|k2: Seq<u8>| m0.contains_key(k2) && !m.contains_key(k2) ==> expired(m0[k2], now));
            assert forall|k: Seq<u8>| #[trigger] m0.contains_key(k) && expired(m0[k], now) implies !m.contains_key(k) by {
                if m.contains_key(k) {
                    let c = choose|c: int| 0 <= c < e.len() && e[c].key@ == k;
                    assert(m[k] == stored(e[c]));
                    assert(has_record(x, e[c]));
                    let a = choose|a: int| 0 <= a < x.len() && linked(e[c], x[a]);
                    if a > 0 {
                        assert(before(x[0], x[a]));
                    }
                }
            }
            assert(m =~= live_at(m0, now));
        }
        let r = self.next_expiration();
        proof {
            if let Some(t) = r {
                let k = choose|k: Seq<u8>| self@.contains_key(k) && #[trigger] self@[k].expires_at == Some(t);
            }
        }
        r
    }

    /// Whether the sweeper has been told to stop.
    pub fn is_shutdown(&self) -> (r: bool)
        ensures
            r == self.is_shut_down(),
    {
        self.shutdown
    }

    /// Whether another write can be made.
    pub fn can_write(&self) -> (r: bool)
        ensures
            r == self.has_fresh_id(),
    {
        self.next_id < u64::MAX
    }

    /// Tells the sweeper to stop; the entries stay as they are.
    pub fn shutdown_purge_task(&mut self)
        requires
            old(self).wf(),
        ensures
            final(self).wf(),
            final(self)@ == old(self)@,
            final(self).is_shut_down(),
            final(self).writes_left() == old(self).writes_left(),
    {
        self.shutdown = true;
    }
}

/// A read right after a write of `value` under `key` finds `value`,
/// whatever the store held before.
pub proof fn lemma_set_then_get(m: Map<Seq<u8>, Stored>, key: Seq<u8>, value: Seq<u8>, expires_at: Option<u64>)
    ensures
        m.insert(key, Stored { data: value, expires_at }).contains_key(key),
        m.insert(key, Stored { data: value, expires_at })[key].data == value,
{
}

/// An entry written with a time to live of `ms` at `now` stays live until
/// its deadline, and a sweep at or after the deadline removes it.
pub proof fn lemma_ttl_expiry(m: Map<Seq<u8>, Stored>, key: Seq<u8>, value: Seq<u8>, now: u64, ms: u64, t: u64)
    ensures
        ({
            let m1 = m.insert(key, Stored { data: value, expires_at: Some(deadline(now, ms)) });
            &&& t < deadline(now, ms) ==> live_at(m1, t).contains_key(key) && live_at(m1, t)[key].data == value
            &&& deadline(now, ms) <= t ==> !live_at(m1, t).contains_key(key)
        }),
{
}

/// Writing a key again without a time to live drops the deadline of the
/// earlier write: no sweep, at any time, removes the new value.
pub proof fn lemma_overwrite_clears_ttl(
    m: Map<Seq<u8>, Stored>,
    key: Seq<u8>,
    v1: Seq<u8>,
    v2: Seq<u8>,
    when: u64,
    t: u64,
)
    ensures
        ({
            let m1 = m.insert(key, Stored { data: v1, expires_at: Some(when) });
            let m2 = m1.insert(key, Stored { data: v2, expires_at: None });
            live_at(m2, t).contains_key(key) && live_at(m2, t)[key].data == v2
        }),
{
}

} // verus!
