use vstd::prelude::*;

use crate::hash::{digest, digest_of};
use crate::manifest::copy_range;

verus! {

/// What the cache holds for one chunk digest.
pub struct Slot {
    pub data: Seq<u8>,
    pub refs: nat,
}

/// Why a cache operation was refused.
#[derive(Clone, Copy, Debug, PartialEq, Eq, Structural)]
pub enum CacheError {
    /// No entry for the digest.
    NotFound,
    /// The bytes do not hash to the digest they were offered under.
    HashMismatch,
    /// Another content is stored under the same digest: an internal defect.
    Collision,
    /// The reference count cannot grow any further.
    RefLimit,
    /// The entry holds no reference to release.
    NotReferenced,
    /// The byte count of the cache would leave the machine's range.
    Full,
}

/// One stored chunk.
pub struct CacheEntry {
    pub hash: u64,
    pub data: Vec<u8>,
    pub refs: u64,
    pub stamp: u64,
}

impl CacheEntry {
    pub open spec fn slot(&self) -> Slot {
        Slot { data: self.data@, refs: self.refs as nat }
    }
}

/// Bytes held by a sequence of entries.
pub open spec fn total(s: Seq<CacheEntry>) -> nat
    decreases s.len(),
{
    if s.len() == 0 {
        0
    } else {
        total(s.drop_last()) + s.last().data@.len()
    }
}

proof fn lemma_total_remove(s: Seq<CacheEntry>, i: int)
    requires
        0 <= i < s.len(),
    ensures
        total(s.remove(i)) + s[i].data@.len() == total(s),
    decreases s.len(),
{
    if i == s.len() - 1 {
        assert(s.remove(i) =~= s.drop_last());
    } else {
        lemma_total_remove(s.drop_last(), i);
        assert(s.remove(i).drop_last() =~= s.drop_last().remove(i));
    }
}

/// Cache after offering `data` under `hash`: stored once, never overwritten.
pub open spec fn stored(m: Map<u64, Slot>, hash: u64, data: Seq<u8>) -> Map<u64, Slot> {
    if m.contains_key(hash) || digest_of(data) != hash {
        m
    } else {
        m.insert(hash, Slot { data: data, refs: 0 })
    }
}

/// Cache after taking one more reference on a stored chunk; a count at
/// its limit stays where it is.
pub open spec fn acquired(m: Map<u64, Slot>, hash: u64) -> Map<u64, Slot> {
    if m.contains_key(hash) && m[hash].refs < u64::MAX {
        m.insert(hash, Slot { data: m[hash].data, refs: m[hash].refs + 1 })
    } else {
        m
    }
}

/// Cache after giving back one reference.
pub open spec fn released(m: Map<u64, Slot>, hash: u64) -> Map<u64, Slot> {
    if m.contains_key(hash) && m[hash].refs > 0 {
        m.insert(hash, Slot { data: m[hash].data, refs: (m[hash].refs - 1) as nat })
    } else {
        m
    }
}

/// Whether some complete chunk of a manifest has digest `h`.
pub open spec fn holds(hs: Seq<u64>, done: Seq<bool>, h: u64) -> bool {
    exists|i: int| 0 <= i < hs.len() && i < done.len() && #[trigger] done[i] && hs[i] == h
}

/// The distinct digests of the complete chunks of a manifest, each at its
/// first complete index: a manifest holds one reference per digest, however
/// often the digest repeats in it.
pub open spec fn held_of(hs: Seq<u64>, done: Seq<bool>) -> Seq<u64>
    decreases hs.len(),
{
    if hs.len() == 0 || done.len() == 0 {
        Seq::empty()
    } else if done.last() && !holds(hs.drop_last(), done.drop_last(), hs.last()) {
        held_of(hs.drop_last(), done.drop_last()).push(hs.last())
    } else {
        held_of(hs.drop_last(), done.drop_last())
    }
}

/// A manifest holds each digest of its complete chunks once, and no other.
pub proof fn lemma_held_once(hs: Seq<u64>, done: Seq<bool>, h: u64)
    requires
        hs.len() == done.len(),
    ensures
        occurrences(held_of(hs, done), h) == if holds(hs, done, h) {
            1nat
        } else {
            0nat
        },
        held_of(hs, done).len() <= hs.len(),
        forall|a: int| 0 <= a < held_of(hs, done).len() ==> holds(hs, done, #[trigger] held_of(hs, done)[a]),
    decreases hs.len(),
{
    if hs.len() > 0 {
        let p = hs.drop_last();
        let d = done.drop_last();
        lemma_held_once(p, d, h);
        let n = hs.len() - 1;
        assert forall|x: u64| holds(hs, done, x) <==> (holds(p, d, x) || (done[n] && hs[n] == x)) by {
            if holds(p, d, x) {
                let i = choose|i: int| 0 <= i < p.len() && i < d.len() && #[trigger] d[i] && p[i] == x;
                assert(done[i] && hs[i] == x);
            }
            if holds(hs, done, x) && !(done[n] && hs[n] == x) {
                let i = choose|i: int| 0 <= i < hs.len() && i < done.len() && #[trigger] done[i] && hs[i] == x;
                assert(d[i] && p[i] == x);
            }
        }
        let q = held_of(p, d);
        if done.last() && !holds(p, d, hs.last()) {
            assert(q.push(hs.last()).drop_last() =~= q);
        }
        assert forall|a: int| 0 <= a < held_of(hs, done).len() implies holds(hs, done, #[trigger] held_of(hs, done)[a]) by {
            if a < q.len() {
                assert(holds(p, d, q[a]));
            }
        }
    }
}

/// Cache after taking one reference on each digest in turn.
pub open spec fn acquire_each(m: Map<u64, Slot>, hs: Seq<u64>) -> Map<u64, Slot>
    decreases hs.len(),
{
    if hs.len() == 0 {
        m
    } else {
        acquired(acquire_each(m, hs.drop_last()), hs.last())
    }
}

/// Cache after giving back one reference on each digest in turn.
pub open spec fn release_each(m: Map<u64, Slot>, hs: Seq<u64>) -> Map<u64, Slot>
    decreases hs.len(),
{
    if hs.len() == 0 {
        m
    } else {
        released(release_each(m, hs.drop_last()), hs.last())
    }
}

/// How many times a digest occurs in a sequence.
pub open spec fn occurrences(hs: Seq<u64>, h: u64) -> nat
    decreases hs.len(),
{
    if hs.len() == 0 {
        0
    } else {
        occurrences(hs.drop_last(), h) + if hs.last() == h {
            1nat
        } else {
            0nat
        }
    }
}

/// Taking and giving back references never adds, removes or changes
/// stored content.
pub proof fn lemma_refs_keep_content(m: Map<u64, Slot>, hs: Seq<u64>)
    ensures
        acquire_each(m, hs).dom() == m.dom(),
        release_each(m, hs).dom() == m.dom(),
        forall|k: u64| #[trigger] m.contains_key(k) ==> acquire_each(m, hs)[k].data == m[k].data
            && release_each(m, hs)[k].data == m[k].data,
    decreases hs.len(),
{
    if hs.len() > 0 {
        lemma_refs_keep_content(m, hs.drop_last());
        assert(acquire_each(m, hs).dom() =~= m.dom());
        assert(release_each(m, hs).dom() =~= m.dom());
    }
}

/// Taking one reference per occurrence: the count of each stored digest
/// grows by the number of times it occurs, as long as no count reaches
/// its limit.
pub proof fn lemma_acquire_each_counts(m: Map<u64, Slot>, hs: Seq<u64>)
    requires
        forall|i: int| 0 <= i < hs.len() ==> m.contains_key(#[trigger] hs[i]),
        forall|k: u64| #[trigger] m.contains_key(k) ==> m[k].refs + hs.len() < u64::MAX,
    ensures
        forall|k: u64| #[trigger] m.contains_key(k) ==> acquire_each(m, hs)[k].refs == m[k].refs
            + occurrences(hs, k),
    decreases hs.len(),
{
    if hs.len() > 0 {
        let p = hs.drop_last();
        lemma_acquire_each_counts(m, p);
        lemma_refs_keep_content(m, p);
        lemma_occurrences_bound(p, hs.last());
        assert(m.contains_key(hs[hs.len() - 1]));
    }
}

proof fn lemma_occurrences_bound(hs: Seq<u64>, h: u64)
    ensures
        occurrences(hs, h) <= hs.len(),
    decreases hs.len(),
{
    if hs.len() > 0 {
        lemma_occurrences_bound(hs.drop_last(), h);
    }
}

/// Offering content under a digest never changes what is already stored
/// under any digest, so sessions sharing the cache cannot corrupt each
/// other's chunks, and stored content stays stored.
pub proof fn lemma_store_never_overwrites(m: Map<u64, Slot>, hash: u64, data: Seq<u8>)
    ensures
        forall|k: u64| #[trigger] m.contains_key(k) ==> stored(m, hash, data).contains_key(k)
            && stored(m, hash, data)[k] == m[k],
        stored(stored(m, hash, data), hash, data) == stored(m, hash, data),
        digest_of(data) == hash ==> stored(m, hash, data).contains_key(hash),
{
}

/// Two manifests that share chunks: after both have taken their references,
/// each shared digest is still one entry with its content unchanged, and
/// its count grows by one for each manifest that holds it, however often
/// the digest repeats within either manifest.
pub proof fn lemma_dedup(
    m: Map<u64, Slot>,
    hs1: Seq<u64>,
    done1: Seq<bool>,
    hs2: Seq<u64>,
    done2: Seq<bool>,
)
    requires
        hs1.len() == done1.len(),
        hs2.len() == done2.len(),
        forall|i: int| 0 <= i < hs1.len() && #[trigger] done1[i] ==> m.contains_key(hs1[i]),
        forall|i: int| 0 <= i < hs2.len() && #[trigger] done2[i] ==> m.contains_key(hs2[i]),
        forall|k: u64| #[trigger] m.contains_key(k) ==> m[k].refs + hs1.len() + hs2.len()
            < u64::MAX,
    ensures
        ({
            let after = acquire_each(acquire_each(m, held_of(hs1, done1)), held_of(hs2, done2));
            &&& after.dom() == m.dom()
            &&& forall|k: u64| #[trigger] m.contains_key(k) ==> after[k].data == m[k].data
                && after[k].refs == m[k].refs + (if holds(hs1, done1, k) {
                1nat
            } else {
                0nat
            }) + (if holds(hs2, done2, k) {
                1nat
            } else {
                0nat
            })
        }),
{
    let first = held_of(hs1, done1);
    let second = held_of(hs2, done2);
    lemma_held_once(hs1, done1, 0);
    lemma_held_once(hs2, done2, 0);
    assert forall|i: int| 0 <= i < first.len() implies m.contains_key(#[trigger] first[i]) by {
        let j = choose|j: int| 0 <= j < hs1.len() && j < done1.len() && #[trigger] done1[j] && hs1[j] == first[i];
    }
    assert forall|i: int| 0 <= i < second.len() implies m.contains_key(#[trigger] second[i]) by {
        let j = choose|j: int| 0 <= j < hs2.len() && j < done2.len() && #[trigger] done2[j] && hs2[j] == second[i];
    }
    let mid = acquire_each(m, first);
    lemma_acquire_each_counts(m, first);
    lemma_refs_keep_content(m, first);
    lemma_refs_keep_content(mid, second);
    assert forall|k: u64| #[trigger] mid.contains_key(k) implies mid[k].refs + second.len() < u64::MAX by {
        lemma_occurrences_bound(first, k);
    }
    assert forall|i: int| 0 <= i < second.len() implies mid.contains_key(#[trigger] second[i]) by {
        assert(m.contains_key(second[i]));
    }
    lemma_acquire_each_counts(mid, second);
    assert forall|k: u64| #[trigger] m.contains_key(k) implies acquire_each(mid, second)[k].refs
        == m[k].refs + (if holds(hs1, done1, k) { 1nat } else { 0nat }) + (if holds(hs2, done2, k) {
        1nat
    } else {
        0nat
    }) by {
        lemma_held_once(hs1, done1, k);
        lemma_held_once(hs2, done2, k);
    }
}

/// Content-addressed chunk store with reference counts and a byte budget.
pub struct ResumeCache {
    entries: Vec<CacheEntry>,
    bytes: usize,
    budget: usize,
    clock: u64,
    slots: Ghost<Map<u64, Slot>>,
    stamps: Ghost<Map<u64, nat>>,
}

impl View for ResumeCache {
    type V = Map<u64, Slot>;

    closed spec fn view(&self) -> Map<u64, Slot> {
        self.slots@
    }
}

impl ResumeCache {
    /// Entries and ghost maps agree, digests are unique and match content,
    /// and the byte count is exact.
    pub closed spec fn wf(&self) -> bool {
        &&& forall|i: int, j: int|
            0 <= i < j < self.entries@.len() ==> #[trigger] self.entries@[i].hash
                != #[trigger] self.entries@[j].hash
        &&& forall|i: int|
            0 <= i < self.entries@.len() ==> {
                let e = #[trigger] self.entries@[i];
                &&& self.slots@.contains_key(e.hash)
                &&& self.slots@[e.hash] == e.slot()
                &&& self.stamps@.contains_key(e.hash)
                &&& self.stamps@[e.hash] == e.stamp as nat
                &&& digest_of(e.data@) == e.hash
                &&& e.stamp <= self.clock
            }
        &&& forall|h: u64|
            #[trigger] self.slots@.contains_key(h) ==> exists|i: int|
                0 <= i < self.entries@.len() && #[trigger] self.entries@[i].hash == h
        &&& self.stamps@.dom() == self.slots@.dom()
        &&& self.bytes == total(self.entries@)
    }

    /// How recently each stored chunk was used: larger is more recent.
    pub closed spec fn recency(&self) -> Map<u64, nat> {
        self.stamps@
    }

    /// Recency after touching `hash`: it becomes at least as recent as
    /// every chunk held before, and no other chunk's recency moves.
    pub open spec fn touched(&self, before: &Self, hash: u64) -> bool {
        &&& self.recency().contains_key(hash)
        &&& self.recency() == before.recency().insert(hash, self.recency()[hash])
        &&& forall|k: u64|
            #[trigger] before.recency().contains_key(k) ==> before.recency()[k]
                <= self.recency()[hash]
    }

    /// Bytes held.
    pub closed spec fn held(&self) -> nat {
        self.bytes as nat
    }

    /// Byte budget that eviction works towards.
    pub closed spec fn budget_spec(&self) -> nat {
        self.budget as nat
    }

    /// An empty cache with a byte budget.
    pub fn new(budget: usize) -> (r: Self)
        ensures
            r.wf(),
            r@ == Map::<u64, Slot>::empty(),
            r.held() == 0,
            r.budget_spec() == budget,
    {
        ResumeCache {
            entries: Vec::new(),
            bytes: 0,
            budget,
            clock: 0,
            slots: Ghost(Map::empty()),
            stamps: Ghost(Map::empty()),
        }
    }

    /// Bytes held.
    pub fn stored_bytes(&self) -> (r: usize)
        ensures
            r == self.held(),
    {
        self.bytes
    }

    /// Number of stored chunks.
    pub fn entry_count(&self) -> (r: usize)
        requires
            self.wf(),
        ensures
            r == self@.len(),
    {
        proof {
            let s = self.entries@.map_values(|e: CacheEntry| e.hash);
            assert forall|i: int, j: int| 0 <= i < j < s.len() implies s[i] != s[j] by {
                assert(self.entries@[i].hash != self.entries@[j].hash);
            }
            assert forall|i: int| 0 <= i < s.len() implies self@.contains_key(#[trigger] s[i]) by {
                assert(s[i] == self.entries@[i].hash);
            }
            assert forall|k: u64| #[trigger] self@.contains_key(k) implies exists|i: int|
                0 <= i < s.len() && s[i] == k by {
                let i = choose|i: int| 0 <= i < self.entries@.len() && #[trigger] self.entries@[i].hash == k;
                assert(s[i] == k);
            }
            crate::keys::lemma_keys_len(self@, s);
        }
        self.entries.len()
    }

    fn find(&self, hash: u64) -> (r: Option<usize>)
        requires
            self.wf(),
        ensures
            match r {
                Some(i) => i < self.entries@.len() && self.entries@[i as int].hash == hash,
                None => !self@.contains_key(hash),
            },
    {
        let mut i: usize = 0;
        while i < self.entries.len()
            invariant
                self.wf(),
                i <= self.entries@.len(),
                forall|j: int| 0 <= j < i ==> self.entries@[j].hash != hash,
            decreases self.entries@.len() - i,
        {
            if self.entries[i].hash == hash {
                return Some(i);
            }
            i = i + 1;
        }
        None
    }

    /// Whether a chunk with this digest is stored.
    pub fn has(&self, hash: u64) -> (r: bool)
        requires
            self.wf(),
        ensures
            r == self@.contains_key(hash),
    {
        self.find(hash).is_some()
    }

    /// The stored bytes of a chunk.
    pub fn get(&self, hash: u64) -> (r: Result<Vec<u8>, CacheError>)
        requires
            self.wf(),
        ensures
            match r {
                Ok(v) => self@.contains_key(hash) && v@ == self@[hash].data,
                Err(e) => !self@.contains_key(hash) && e == CacheError::NotFound,
            },
    {
        match self.find(hash) {
            Some(i) => Ok(self.entries[i].data.clone()),
            None => Err(CacheError::NotFound),
        }
    }

    fn tick(&mut self) -> (r: u64)
        ensures
            r == old(self).clock,
            final(self).clock >= old(self).clock,
            final(self).entries == old(self).entries,
            final(self).bytes == old(self).bytes,
            final(self).budget == old(self).budget,
            final(self).slots == old(self).slots,
            final(self).stamps == old(self).stamps,
    {
        let now = self.clock;
        self.clock = self.clock.saturating_add(1);
        now
    }

    /// Whether offering `data` under `hash` succeeds.
    pub open spec fn put_succeeds(&self, hash: u64, data: Seq<u8>) -> bool {
        &&& digest_of(data) == hash
        &&& if self@.contains_key(hash) {
            self@[hash].data == data
        } else {
            self.held() + data.len() <= usize::MAX
        }
    }

    /// Store a chunk under its digest. The bytes are hashed first; a digest
    /// already stored is left as it is, and a different content under it is
    /// reported as a collision.
    pub fn put(&mut self, hash: u64, data: &[u8]) -> (r: Result<(), CacheError>)
        requires
            old(self).wf(),
        ensures
            final(self).wf(),
            final(self).budget_spec() == old(self).budget_spec(),
            digest_of(data@) != hash ==> r == Err::<(), CacheError>(CacheError::HashMismatch),
            digest_of(data@) == hash && old(self)@.contains_key(hash) ==> r == (if old(
                self,
            )@[hash].data == data@ {
                Ok::<(), CacheError>(())
            } else {
                Err(CacheError::Collision)
            }),
            digest_of(data@) == hash && !old(self)@.contains_key(hash) ==> r == (if old(
                self,
            ).held() + data@.len() <= usize::MAX {
                Ok::<(), CacheError>(())
            } else {
                Err(CacheError::Full)
            }),
            r is Ok <==> old(self).put_succeeds(hash, data@),
            r is Ok ==> final(self)@ == stored(old(self)@, hash, data@),
            r is Err ==> final(self)@ == old(self)@,
            r is Ok ==> final(self).held() == old(self).held() + (if old(self)@.contains_key(hash) {
                0
            } else {
                data@.len()
            }),
            r is Err ==> final(self).held() == old(self).held(),
            r is Ok && !old(self)@.contains_key(hash) ==> final(self).touched(old(self), hash),
            r is Err || old(self)@.contains_key(hash) ==> final(self).recency() == old(
                self,
            ).recency(),
    {
        if digest(data) != hash {
            return Err(CacheError::HashMismatch);
        }
        match self.find(hash) {
            Some(i) => {
                if bytes_equal(self.entries[i].data.as_slice(), data) {
                    Ok(())
                } else {
                    Err(CacheError::Collision)
                }
            },
            None => {
                if self.bytes > usize::MAX - data.len() {
                    return Err(CacheError::Full);
                }
                let now = self.tick();
                let e = CacheEntry { hash, data: copy_range(data, 0, data.len()), refs: 0, stamp: now };
                assert(e.data@ =~= data@);
                proof {
                    assert forall|j: int| 0 <= j < self.entries@.len() implies self.entries@[j].hash != hash by {
                        assert(self.slots@.contains_key(self.entries@[j].hash));
                    }
                }
                let ghost before = self.entries@;
                self.bytes = self.bytes + data.len();
                self.entries.push(e);
                self.slots = Ghost(self.slots@.insert(hash, Slot { data: data@, refs: 0 }));
                self.stamps = Ghost(self.stamps@.insert(hash, now as nat));
                proof {
                    assert(self.entries@.drop_last() =~= before);
                    let n = self.entries@.len() - 1;
                    assert(self.entries@[n].hash == hash);
                    assert forall|k: u64| #[trigger] self.slots@.contains_key(k) implies exists|i: int|
                        0 <= i < self.entries@.len() && #[trigger] self.entries@[i].hash == k by {
                        if k != hash {
                            let i = choose|i: int| 0 <= i < before.len() && #[trigger] before[i].hash == k;
                            assert(self.entries@[i].hash == k);
                        }
                    }
                    assert(self.stamps@.dom() =~= self.slots@.dom());
                }
                Ok(())
            },
        }
    }

    fn find_victim(&self) -> (r: Option<usize>)
        requires
            self.wf(),
        ensures
            match r {
                Some(i) => {
                    &&& i < self.entries@.len()
                    &&& self.entries@[i as int].refs == 0
                    &&& forall|j: int|
                        0 <= j < self.entries@.len() && #[trigger] self.entries@[j].refs == 0
                            ==> self.entries@[i as int].stamp <= self.entries@[j].stamp
                },
                None => forall|j: int|
                    0 <= j < self.entries@.len() ==> #[trigger] self.entries@[j].refs > 0,
            },
    {
        let mut best: Option<usize> = None;
        let mut i: usize = 0;
        while i < self.entries.len()
            invariant
                i <= self.entries@.len(),
                match best {
                    Some(b) => {
                        &&& b < i
                        &&& self.entries@[b as int].refs == 0
                        &&& forall|j: int|
                            0 <= j < i && #[trigger] self.entries@[j].refs == 0
                                ==> self.entries@[b as int].stamp <= self.entries@[j].stamp
                    },
                    None => forall|j: int| 0 <= j < i ==> #[trigger] self.entries@[j].refs > 0,
                },
            decreases self.entries@.len() - i,
        {
            if self.entries[i].refs == 0 {
                match best {
                    None => {
                        best = Some(i);
                    },
                    Some(b) => {
                        if self.entries[i].stamp < self.entries[b].stamp {
                            best = Some(i);
                        }
                    },
                }
            }
            i = i + 1;
        }
        best
    }

    fn remove_at(&mut self, i: usize)
        requires
            old(self).wf(),
            i < old(self).entries@.len(),
        ensures
            final(self).wf(),
            final(self).budget == old(self).budget,
            final(self).entries@ == old(self).entries@.remove(i as int),
            final(self)@ == old(self)@.remove(old(self).entries@[i as int].hash),
            final(self).recency() == old(self).recency().remove(old(self).entries@[i as int].hash),
            final(self).held() + old(self).entries@[i as int].data@.len() == old(self).held(),
    {
        let ghost before = self.entries@;
        proof {
            lemma_total_remove(before, i as int);
        }
        let h = self.entries[i].hash;
        let n = self.entries[i].data.len();
        self.bytes = self.bytes - n;
        self.entries.remove(i);
        self.slots = Ghost(self.slots@.remove(h));
        self.stamps = Ghost(self.stamps@.remove(h));
        proof {
            let after = self.entries@;
            assert forall|a: int, b: int|
                0 <= a < b < after.len() implies #[trigger] after[a].hash != #[trigger] after[b].hash by {
                let a2 = if a < i { a } else { a + 1 };
                let b2 = if b < i { b } else { b + 1 };
                assert(before[a2].hash != before[b2].hash);
            }
            assert forall|j: int| 0 <= j < after.len() implies #[trigger] after[j].hash != h by {
                let j2 = if j < i { j } else { j + 1 };
                assert(before[i as int].hash != before[j2].hash || j2 == i);
                if j2 < i {
                    assert(before[j2].hash != before[i as int].hash);
                } else {
                    assert(before[i as int].hash != before[j2].hash);
                }
            }
            assert forall|j: int| 0 <= j < after.len() implies {
                let e = #[trigger] after[j];
                &&& self.slots@.contains_key(e.hash)
                &&& self.slots@[e.hash] == e.slot()
                &&& self.stamps@.contains_key(e.hash)
                &&& self.stamps@[e.hash] == e.stamp as nat
                &&& digest_of(e.data@) == e.hash
            } by {
                let j2 = if j < i { j } else { j + 1 };
                assert(after[j] == before[j2]);
                assert(after[j].hash != h);
            }
            assert forall|k: u64| #[trigger] self.slots@.contains_key(k) implies exists|j: int|
                0 <= j < after.len() && #[trigger] after[j].hash == k by {
                let j2 = choose|j2: int| 0 <= j2 < before.len() && #[trigger] before[j2].hash == k;
                assert(j2 != i);
                let j = if j2 < i { j2 } else { j2 - 1 };
                assert(after[j].hash == k);
            }
            assert(self.stamps@.dom() =~= self.slots@.dom());
        }
    }

    /// Free space: removes unreferenced chunks, least recently used first,
    /// until the bytes held fit the budget or every chunk left is referenced.
    /// A referenced chunk is never removed, kept chunks are untouched, and
    /// the last removal was made while the bytes held exceeded the budget.
    pub fn evict(&mut self)
        requires
            old(self).wf(),
        ensures
            final(self).wf(),
            final(self).budget_spec() == old(self).budget_spec(),
            final(self).held() <= final(self).budget_spec() || forall|k: u64|
                #[trigger] final(self)@.contains_key(k) ==> final(self)@[k].refs > 0,
            old(self).held() <= old(self).budget_spec() ==> final(self)@ == old(self)@,
            final(self)@ != old(self)@ ==> exists|k: u64|
                #[trigger] old(self)@.contains_key(k) && !final(self)@.contains_key(k)
                    && final(self).held() + old(self)@[k].data.len() > final(self).budget_spec(),
            forall|k: u64|
                #[trigger] final(self)@.contains_key(k) ==> old(self)@.contains_key(k)
                    && final(self)@[k] == old(self)@[k] && final(self).recency()[k]
                    == old(self).recency()[k],
            forall|k: u64|
                #[trigger] old(self)@.contains_key(k) && !final(self)@.contains_key(k)
                    ==> old(self)@[k].refs == 0,
            forall|k: u64, k2: u64|
                #[trigger] old(self)@.contains_key(k) && !final(self)@.contains_key(k)
                    && #[trigger] final(self)@.contains_key(k2) && final(self)@[k2].refs == 0
                    ==> old(self).recency()[k] <= final(self).recency()[k2],
    {
        let ghost orig = self@;
        let ghost orig_rec = self.recency();
        while self.bytes > self.budget
            invariant
                self.wf(),
                self.budget == old(self).budget,
                orig == old(self)@,
                orig_rec == old(self).recency(),
                old(self).held() <= old(self).budget_spec() ==> self.bytes == old(self).bytes
                    && self@ == orig,
                self@ != orig ==> exists|k: u64|
                    #[trigger] orig.contains_key(k) && !self@.contains_key(k) && self.bytes
                        + orig[k].data.len() > self.budget,
                forall|k: u64|
                    #[trigger] self@.contains_key(k) ==> orig.contains_key(k) && self@[k] == orig[k]
                        && self.recency()[k] == orig_rec[k],
                forall|k: u64|
                    #[trigger] orig.contains_key(k) && !self@.contains_key(k) ==> orig[k].refs == 0,
                forall|k: u64, k2: u64|
                    #[trigger] orig.contains_key(k) && !self@.contains_key(k)
                        && #[trigger] self@.contains_key(k2) && self@[k2].refs == 0
                        ==> orig_rec[k] <= self.recency()[k2],
            ensures
                self.bytes <= self.budget || forall|k: u64|
                    #[trigger] self@.contains_key(k) ==> self@[k].refs > 0,
            decreases self.entries@.len(),
        {
            match self.find_victim() {
                None => {
                    proof {
                        assert forall|k: u64| #[trigger] self@.contains_key(k) implies self@[k].refs > 0 by {
                            let j = choose|j: int| 0 <= j < self.entries@.len() && #[trigger] self.entries@[j].hash == k;
                            assert(self.entries@[j].refs > 0);
                        }
                    }
                    break;
                },
                Some(i) => {
                    let ghost pre = self@;
                    let ghost pre_rec = self.recency();
                    let ghost victim = self.entries@[i as int];
                    proof {
                        assert forall|k2: u64| #[trigger] pre.contains_key(k2) && pre[k2].refs == 0 implies
                            pre_rec[victim.hash] <= pre_rec[k2] by {
                            let j = choose|j: int| 0 <= j < self.entries@.len() && #[trigger] self.entries@[j].hash == k2;
                            assert(self.entries@[j].refs == 0);
                        }
                    }
                    self.remove_at(i);
                    proof {
                        assert forall|k: u64, k2: u64|
                            #[trigger] orig.contains_key(k) && !self@.contains_key(k)
                                && #[trigger] self@.contains_key(k2) && self@[k2].refs == 0
                                implies orig_rec[k] <= self.recency()[k2] by {
                            assert(pre.contains_key(k2));
                            if k != victim.hash {
                                assert(!pre.contains_key(k));
                            }
                        }
                    }
                },
            }
        }
    }

    fn set_refs(&mut self, i: usize, refs: u64)
        requires
            old(self).wf(),
            i < old(self).entries@.len(),
        ensures
            final(self).wf(),
            final(self).budget == old(self).budget,
            final(self).bytes == old(self).bytes,
            final(self)@ == old(self)@.insert(
                old(self).entries@[i as int].hash,
                Slot { data: old(self).entries@[i as int].data@, refs: refs as nat },
            ),
            final(self).touched(old(self), old(self).entries@[i as int].hash),
    {
        let now = self.tick();
        let h = self.entries[i].hash;
        let ghost before = self.entries@;
        self.entries[i].refs = refs;
        self.entries[i].stamp = now;
        self.slots = Ghost(self.slots@.insert(h, Slot { data: before[i as int].data@, refs: refs as nat }));
        self.stamps = Ghost(self.stamps@.insert(h, now as nat));
        proof {
            assert forall|a: int, b: int|
                0 <= a < b < self.entries@.len() implies #[trigger] self.entries@[a].hash
                != #[trigger] self.entries@[b].hash by {
                assert(before[a].hash != before[b].hash);
            }
            assert forall|k: u64| #[trigger] self.slots@.contains_key(k) implies exists|j: int|
                0 <= j < self.entries@.len() && #[trigger] self.entries@[j].hash == k by {
                if k != h {
                    let j = choose|j: int| 0 <= j < before.len() && #[trigger] before[j].hash == k;
                    assert(self.entries@[j].hash == k);
                } else {
                    assert(self.entries@[i as int].hash == k);
                }
            }
            assert forall|j: int| 0 <= j < self.entries@.len() implies before[j].data@ == self.entries@[j].data@ by {}
            assert(self.entries@.len() == before.len());
            lemma_total_same_data(before, self.entries@);
            assert(self.stamps@.dom() =~= self.slots@.dom());
        }
    }

    /// Take one reference on a stored chunk, so that eviction keeps it.
    pub fn acquire(&mut self, hash: u64) -> (r: Result<(), CacheError>)
        requires
            old(self).wf(),
        ensures
            final(self).wf(),
            final(self).budget_spec() == old(self).budget_spec(),
            final(self).held() == old(self).held(),
            !old(self)@.contains_key(hash) ==> r == Err::<(), CacheError>(CacheError::NotFound),
            old(self)@.contains_key(hash) ==> r == (if old(self)@[hash].refs < u64::MAX {
                Ok::<(), CacheError>(())
            } else {
                Err(CacheError::RefLimit)
            }),
            final(self)@ == acquired(old(self)@, hash),
            r is Ok ==> final(self).touched(old(self), hash),
            r is Err ==> final(self).recency() == old(self).recency(),
    {
        match self.find(hash) {
            None => Err(CacheError::NotFound),
            Some(i) => {
                let refs = self.entries[i].refs;
                if refs == u64::MAX {
                    return Err(CacheError::RefLimit);
                }
                self.set_refs(i, refs + 1);
                Ok(())
            },
        }
    }

    /// Take one reference on each digest in turn.
    pub fn acquire_all(&mut self, hashes: &[u64])
        requires
            old(self).wf(),
        ensures
            final(self).wf(),
            final(self).budget_spec() == old(self).budget_spec(),
            final(self).held() == old(self).held(),
            final(self)@ == acquire_each(old(self)@, hashes@),
    {
        let mut i: usize = 0;
        while i < hashes.len()
            invariant
                self.wf(),
                i <= hashes@.len(),
                self.budget_spec() == old(self).budget_spec(),
                self.held() == old(self).held(),
                self@ == acquire_each(old(self)@, hashes@.take(i as int)),
            decreases hashes@.len() - i,
        {
            let _ = self.acquire(hashes[i]);
            assert(hashes@.take(i + 1).drop_last() =~= hashes@.take(i as int));
            i = i + 1;
        }
        assert(hashes@.take(i as int) =~= hashes@);
    }

    /// Give back one reference on each digest in turn.
    pub fn release_all(&mut self, hashes: &[u64])
        requires
            old(self).wf(),
        ensures
            final(self).wf(),
            final(self).budget_spec() == old(self).budget_spec(),
            final(self).held() == old(self).held(),
            final(self)@ == release_each(old(self)@, hashes@),
    {
        let mut i: usize = 0;
        while i < hashes.len()
            invariant
                self.wf(),
                i <= hashes@.len(),
                self.budget_spec() == old(self).budget_spec(),
                self.held() == old(self).held(),
                self@ == release_each(old(self)@, hashes@.take(i as int)),
            decreases hashes@.len() - i,
        {
            let _ = self.release(hashes[i]);
            assert(hashes@.take(i + 1).drop_last() =~= hashes@.take(i as int));
            i = i + 1;
        }
        assert(hashes@.take(i as int) =~= hashes@);
    }

    /// Give back one reference on a stored chunk.
    pub fn release(&mut self, hash: u64) -> (r: Result<(), CacheError>)
        requires
            old(self).wf(),
        ensures
            final(self).wf(),
            final(self).budget_spec() == old(self).budget_spec(),
            final(self).held() == old(self).held(),
            !old(self)@.contains_key(hash) ==> r == Err::<(), CacheError>(CacheError::NotFound),
            old(self)@.contains_key(hash) ==> r == (if old(self)@[hash].refs > 0 {
                Ok::<(), CacheError>(())
            } else {
                Err(CacheError::NotReferenced)
            }),
            final(self)@ == released(old(self)@, hash),
            r is Ok ==> final(self).touched(old(self), hash),
            r is Err ==> final(self).recency() == old(self).recency(),
    {
        match self.find(hash) {
            None => Err(CacheError::NotFound),
            Some(i) => {
                let refs = self.entries[i].refs;
                if refs == 0 {
                    return Err(CacheError::NotReferenced);
                }
                self.set_refs(i, refs - 1);
                Ok(())
            },
        }
    }
}

proof fn lemma_total_same_data(a: Seq<CacheEntry>, b: Seq<CacheEntry>)
    requires
        a.len() == b.len(),
        forall|j: int| 0 <= j < a.len() ==> a[j].data@ == b[j].data@,
    ensures
        total(a) == total(b),
    decreases a.len(),
{
    if a.len() > 0 {
        lemma_total_same_data(a.drop_last(), b.drop_last());
    }
}

/// Whether two byte slices hold the same bytes.
pub fn bytes_equal(a: &[u8], b: &[u8]) -> (r: bool)
    ensures
        r == (a@ == b@),
{
    if a.len() != b.len() {
        return false;
    }
    let mut i: usize = 0;
    while i < a.len()
        invariant
            a@.len() == b@.len(),
            i <= a@.len(),
            forall|j: int| 0 <= j < i ==> a@[j] == b@[j],
        decreases a@.len() - i,
    {
        if a[i] != b[i] {
            return false;
        }
        i = i + 1;
    }
    assert(a@ =~= b@);
    true
}

} // verus!
