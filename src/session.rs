use vstd::prelude::*;
use vstd::set_lib::{lemma_int_range, set_int_range};

use crate::cache::{CacheError, acquire_each, acquired, held_of, holds, release_each, stored, ResumeCache, Slot};
use crate::error::{resumable_spec, FailureKind};
use crate::hash::{combine, combined_of, digest, digest_of};
use crate::manifest::{assemble, chunk_count, digests_of, lemma_round_trip, split, views, Manifest};
use crate::trust::{authorize_pins, authorize_result, FirstContact, TrustStore};

verus! {

/// Which side of a transfer a session plays.
#[derive(Clone, Copy, Debug, PartialEq, Eq, Structural)]
pub enum Role {
    /// Opens the connection and sends the file.
    Initiator,
    /// Accepts the connection and receives the file.
    Responder,
}

/// Where a session stands.
#[derive(Clone, Copy, Debug, PartialEq, Eq, Structural)]
pub enum SessionState {
    Init,
    Connecting,
    Handshaking,
    TrustCheck,
    Negotiating,
    Transferring,
    Verifying,
    Closed,
    Failed(FailureKind),
}

/// What a finished session reports.
#[derive(Clone, Copy, Debug, PartialEq, Eq, Structural)]
pub enum SessionOutcome {
    /// The file arrived whole; the number of bytes.
    Completed(u64),
    /// The kind of failure, and whether the progress is kept for a later session.
    Failed(FailureKind, bool),
}

/// What became of one received chunk.
#[derive(Clone, Copy, Debug, PartialEq, Eq, Structural)]
pub enum ChunkOutcome {
    /// Verified, stored and marked complete.
    Stored,
    /// Did not match its digest: ask for it again.
    Resend,
    /// The session ended with this failure.
    Failed(FailureKind),
}

/// Limits and policy of a session.
#[derive(Clone, Copy, Debug, PartialEq, Eq, Structural)]
pub struct SessionConfig {
    /// Connection attempts before giving up.
    pub max_attempts: u32,
    /// Delay before the first retry.
    pub backoff_base: u64,
    /// Longest delay between retries.
    pub backoff_cap: u64,
    /// Resends of one chunk before the transfer fails.
    pub max_chunk_retries: u32,
    /// Largest chunk size a responder accepts.
    pub max_chunk_size: usize,
    /// Largest number of unacknowledged chunks in flight.
    pub window: usize,
    /// What to do on first contact with a host.
    pub policy: FirstContact,
}

/// Delay before retry number `n`: the base doubled for each earlier retry,
/// never above the cap.
pub open spec fn backoff_spec(base: u64, cap: u64, n: nat) -> u64
    decreases n,
{
    if n <= 1 {
        if base <= cap {
            base
        } else {
            cap
        }
    } else {
        let p = backoff_spec(base, cap, (n - 1) as nat);
        if p as int * 2 <= cap as int {
            (p * 2) as u64
        } else {
            cap
        }
    }
}

/// Delay before retry number `attempt`, doubling up to the cap.
pub fn backoff_delay(base: u64, cap: u64, attempt: u32) -> (r: u64)
    ensures
        r == backoff_spec(base, cap, attempt as nat),
{
    let mut d: u64 = if base <= cap {
        base
    } else {
        cap
    };
    let mut k: u32 = 1;
    while k < attempt
        invariant
            1 <= k,
            attempt >= 1 ==> k <= attempt,
            attempt < 1 ==> k == 1,
            d == backoff_spec(base, cap, k as nat),
        decreases attempt - k,
    {
        d = if d <= cap / 2 {
            d * 2
        } else {
            cap
        };
        k = k + 1;
    }
    assert(backoff_spec(base, cap, 0) == backoff_spec(base, cap, 1));
    d
}

/// Whether the sender may put one more chunk in flight.
pub fn window_allows(in_flight: usize, window: usize) -> (r: bool)
    ensures
        r == (in_flight < window),
{
    in_flight < window
}

/// Completion bitmap of a manifest against what the cache holds.
pub open spec fn bitmap_of(m: Map<u64, Slot>, hs: Seq<u64>) -> Seq<bool> {
    hs.map_values(|h: u64| m.contains_key(h))
}

/// Indices of the chunks still to transfer.
pub open spec fn pending_set(done: Seq<bool>) -> Set<int> {
    Set::new(|i: int| 0 <= i < done.len() && !done[i])
}

/// Whether `i` is the lowest index still to transfer.
pub open spec fn is_next(done: Seq<bool>, i: int) -> bool {
    &&& 0 <= i < done.len()
    &&& !done[i]
    &&& forall|j: int| 0 <= j < i ==> done[j]
}

/// Whether a proposed manifest can be accepted under a chunk size limit.
pub open spec fn acceptable(p: Manifest, max_chunk_size: usize) -> bool {
    &&& 0 < p.chunk_size <= max_chunk_size
    &&& p.hashes@.len() == chunk_count(p.size as nat, p.chunk_size as nat)
}

/// Whether the cache holds every chunk of `content` under its digest, with
/// exactly the sender's bytes.
pub open spec fn holds_chunks(m: Map<u64, Slot>, content: Seq<u8>, chunk_size: nat) -> bool {
    forall|i: int|
        0 <= i < split(content, chunk_size).len() ==> m.contains_key(
            digest_of(#[trigger] split(content, chunk_size)[i]),
        ) && m[digest_of(split(content, chunk_size)[i])].data == split(content, chunk_size)[i]
}

/// Contents stored in the cache for a sequence of digests.
pub open spec fn cached_chunks(m: Map<u64, Slot>, hs: Seq<u64>) -> Seq<Seq<u8>> {
    hs.map_values(|h: u64| m[h].data)
}

/// Whether the cache holds every chunk and their digests combine to the
/// manifest's whole-file digest.
pub open spec fn verifies(m: Map<u64, Slot>, hs: Seq<u64>) -> bool {
    &&& forall|i: int| 0 <= i < hs.len() ==> m.contains_key(#[trigger] hs[i])
    &&& combined_of(digests_of(cached_chunks(m, hs))) == combined_of(hs)
}

/// The state of one transfer.
pub struct Session {
    pub id: u64,
    pub role: Role,
    pub peer: String,
    pub state: SessionState,
    pub manifest: Option<Manifest>,
    pub attempts: u32,
    pub retries: Vec<u32>,
    pub fingerprint: u64,
    pub config: SessionConfig,
}

/// Whether a session state is final.
pub open spec fn is_terminal(s: SessionState) -> bool {
    s == SessionState::Closed || s is Failed
}

impl Session {
    /// A manifest, once there, is well formed and has one retry counter
    /// per chunk; transferring and verifying need one.
    pub open spec fn wf(&self) -> bool {
        &&& match self.manifest {
            Some(m) => m.wf() && self.retries@.len() == m.hashes@.len(),
            None => true,
        }
        &&& (self.state == SessionState::Transferring || self.state == SessionState::Verifying
            || self.state == SessionState::Closed) ==> self.manifest is Some
    }

    /// Digests on which this session holds a cache reference.
    pub open spec fn held(&self) -> Seq<u64> {
        match self.manifest {
            Some(m) => held_of(m.hashes@, m.done@),
            None => Seq::empty(),
        }
    }

    /// Fields that only the manifest-related steps change stay put.
    pub open spec fn same_identity(&self, other: &Session) -> bool {
        &&& self.id == other.id
        &&& self.role == other.role
        &&& self.peer@ == other.peer@
        &&& self.config == other.config
    }

    /// A session that has not started.
    pub fn new(id: u64, role: Role, peer: String, config: SessionConfig) -> (r: Session)
        ensures
            r.wf(),
            r.id == id,
            r.role == role,
            r.peer@ == peer@,
            r.config == config,
            r.state == SessionState::Init,
            r.manifest is None,
            r.attempts == 0,
    {
        Session {
            id,
            role,
            peer,
            state: SessionState::Init,
            manifest: None,
            attempts: 0,
            retries: Vec::new(),
            fingerprint: 0,
            config,
        }
    }

    /// Begin: the initiator opens a connection, the responder accepts one.
    pub fn start(&mut self)
        requires
            old(self).wf(),
            old(self).state == SessionState::Init,
        ensures
            final(self).wf(),
            final(self).same_identity(old(self)),
            final(self).state == SessionState::Connecting,
            final(self).manifest == old(self).manifest,
            final(self).attempts == 0,
    {
        self.state = SessionState::Connecting;
        self.attempts = 0;
    }

    /// Result of an attempt to establish the channel. On failure the session
    /// retries after the returned delay until the attempts run out, and then
    /// fails with a network error.
    pub fn connect_result(&mut self, ok: bool) -> (r: Option<u64>)
        requires
            old(self).wf(),
            old(self).state == SessionState::Connecting,
        ensures
            final(self).wf(),
            final(self).same_identity(old(self)),
            final(self).manifest == old(self).manifest,
            ok ==> final(self).state == SessionState::Handshaking && r is None
                && final(self).attempts == old(self).attempts,
            !ok && old(self).attempts + 1 >= old(self).config.max_attempts ==> final(self).state
                == SessionState::Failed(FailureKind::NetworkError) && r is None
                && final(self).attempts == old(self).attempts,
            !ok && old(self).attempts + 1 < old(self).config.max_attempts ==> final(self).state
                == SessionState::Connecting && final(self).attempts == old(self).attempts + 1
                && r == Some(
                backoff_spec(
                    old(self).config.backoff_base,
                    old(self).config.backoff_cap,
                    (old(self).attempts + 1) as nat,
                ),
            ),
    {
        if ok {
            self.state = SessionState::Handshaking;
            return None;
        }
        if self.attempts.saturating_add(1) >= self.config.max_attempts {
            self.state = SessionState::Failed(FailureKind::NetworkError);
            None
        } else {
            self.attempts = self.attempts + 1;
            Some(backoff_delay(self.config.backoff_base, self.config.backoff_cap, self.attempts))
        }
    }

    /// The authenticated channel is up and the peer's certificate
    /// fingerprint has been read.
    pub fn handshake(&mut self, fingerprint: u64)
        requires
            old(self).wf(),
            old(self).state == SessionState::Handshaking,
        ensures
            final(self).wf(),
            final(self).same_identity(old(self)),
            final(self).manifest == old(self).manifest,
            final(self).state == SessionState::TrustCheck,
            final(self).fingerprint == fingerprint,
    {
        self.fingerprint = fingerprint;
        self.state = SessionState::TrustCheck;
    }

    /// Check the peer's fingerprint against the trust store under the
    /// configured first-contact policy.
    pub fn trust_check(&mut self, store: &mut TrustStore, now: u64) -> (r: Result<(), FailureKind>)
        requires
            old(self).wf(),
            old(self).state == SessionState::TrustCheck,
            old(store).wf(),
        ensures
            final(self).wf(),
            final(store).wf(),
            final(self).same_identity(old(self)),
            final(self).manifest == old(self).manifest,
            final(self).fingerprint == old(self).fingerprint,
            r == authorize_result(
                old(store)@,
                old(self).peer@,
                old(self).fingerprint,
                old(self).config.policy,
            ),
            final(store)@ == authorize_pins(
                old(store)@,
                old(self).peer@,
                old(self).fingerprint,
                now,
                old(self).config.policy,
            ),
            final(self).state == (match r {
                Ok(_) => SessionState::Negotiating,
                Err(k) => SessionState::Failed(k),
            }),
    {
        let r = store.authorize(&self.peer, self.fingerprint, now, self.config.policy);
        match r {
            Ok(_) => {
                self.state = SessionState::Negotiating;
            },
            Err(k) => {
                self.state = SessionState::Failed(k);
            },
        }
        r
    }

    /// Settle the manifest. A proposal with a chunk size of zero, above the
    /// limit, or with a digest count that does not fit its size is refused.
    /// Otherwise each chunk already in the cache is marked complete at once,
    /// with a reference taken on it, and the transfer begins; when every
    /// chunk is already there, verification follows directly.
    pub fn negotiate(&mut self, proposal: Manifest, cache: &mut ResumeCache) -> (r: Result<
        (),
        FailureKind,
    >)
        requires
            old(self).wf(),
            old(self).state == SessionState::Negotiating,
            old(cache).wf(),
        ensures
            final(self).wf(),
            final(cache).wf(),
            final(self).same_identity(old(self)),
            final(cache).held() == old(cache).held(),
            final(cache).budget_spec() == old(cache).budget_spec(),
            !acceptable(proposal, old(self).config.max_chunk_size) ==> r == Err::<(), FailureKind>(
                FailureKind::ProtocolViolation,
            ) && final(self).state == SessionState::Failed(FailureKind::ProtocolViolation)
                && final(cache)@ == old(cache)@ && final(self).manifest == old(self).manifest,
            acceptable(proposal, old(self).config.max_chunk_size) ==> r is Ok
                && final(self).manifest is Some && ({
                let m = final(self).manifest->Some_0;
                &&& final(self).state == if m.complete_spec() {
                    SessionState::Verifying
                } else {
                    SessionState::Transferring
                }
                &&& m.name@ == proposal.name@
                &&& m.size == proposal.size
                &&& m.chunk_size == proposal.chunk_size
                &&& m.hashes@ == proposal.hashes@
                &&& m.done@ == bitmap_of(old(cache)@, proposal.hashes@)
                &&& final(cache)@ == acquire_each(old(cache)@, held_of(m.hashes@, m.done@))
                &&& forall|i: int| 0 <= i < final(self).retries@.len() ==> final(self).retries@[i] == 0
            }),
    {
        let ok = proposal.chunk_size > 0 && proposal.chunk_size <= self.config.max_chunk_size
            && proposal.hashes.len() == chunk_count_of(proposal.size, proposal.chunk_size);
        if !ok {
            self.state = SessionState::Failed(FailureKind::ProtocolViolation);
            return Err(FailureKind::ProtocolViolation);
        }
        let Manifest { name, size, chunk_size, hashes, done: _ } = proposal;
        let ghost orig = cache@;
        let mut done: Vec<bool> = Vec::new();
        let mut retries: Vec<u32> = Vec::new();
        let mut i: usize = 0;
        while i < hashes.len()
            invariant
                cache.wf(),
                i <= hashes@.len(),
                done@.len() == i,
                retries@.len() == i,
                cache.held() == old(cache).held(),
                cache.budget_spec() == old(cache).budget_spec(),
                orig == old(cache)@,
                done@ == bitmap_of(orig, hashes@).take(i as int),
                cache@ == acquire_each(orig, held_of(hashes@.take(i as int), done@)),
                forall|j: int| 0 <= j < i ==> retries@[j] == 0,
            decreases hashes@.len() - i,
        {
            let h = hashes[i];
            proof {
                crate::cache::lemma_refs_keep_content(orig, held_of(hashes@.take(i as int), done@));
            }
            let present = cache.has(h);
            let ghost before_done = done@;
            let earlier = held_in(&hashes, &done, i, h);
            proof {
                assert(done@.take(i as int) =~= done@);
            }
            if present && !earlier {
                cache.acquire(h);
            }
            done.push(present);
            retries.push(0);
            proof {
                assert(done@ =~= bitmap_of(orig, hashes@).take(i + 1));
                assert(hashes@.take(i + 1).drop_last() =~= hashes@.take(i as int));
                assert(done@.drop_last() =~= before_done);
                let held_before = held_of(hashes@.take(i as int), before_done);
                assert(hashes@.take(i + 1).last() == h);
                if present && !earlier {
                    assert(held_of(hashes@.take(i + 1), done@) == held_before.push(h));
                    assert(held_before.push(h).drop_last() =~= held_before);
                } else {
                    assert(held_of(hashes@.take(i + 1), done@) == held_before);
                }
            }
            i = i + 1;
        }
        proof {
            assert(hashes@.take(i as int) =~= hashes@);
            assert(done@ =~= bitmap_of(orig, hashes@));
        }
        let m = Manifest { name, size, chunk_size, hashes, done };
        let complete = m.is_complete();
        self.manifest = Some(m);
        self.retries = retries;
        if complete {
            self.state = SessionState::Verifying;
        } else {
            self.state = SessionState::Transferring;
        }
        Ok(())
    }
}

/// Number of chunks of a file, computed without overflow.
pub fn chunk_count_of(size: usize, chunk_size: usize) -> (r: usize)
    requires
        chunk_size > 0,
    ensures
        r == chunk_count(size as nat, chunk_size as nat),
{
    let q = size / chunk_size;
    let rem = size % chunk_size;
    proof {
        let s = size as int;
        let c = chunk_size as int;
        vstd::arithmetic::div_mod::lemma_fundamental_div_mod(s, c);
        if rem == 0 {
            vstd::arithmetic::div_mod::lemma_fundamental_div_mod_converse(s + c - 1, c, q as int, c - 1);
        } else {
            assert((q as int + 1) * c == q as int * c + c) by (nonlinear_arith);
            assert(c >= 2);
            assert(q as int * c >= q as int * 2) by (nonlinear_arith)
                requires
                    c >= 2,
                    q >= 0,
            ;
            vstd::arithmetic::div_mod::lemma_fundamental_div_mod_converse(
                s + c - 1,
                c,
                q as int + 1,
                rem as int - 1,
            );
        }
    }
    if rem == 0 {
        q
    } else {
        q + 1
    }
}


/// Whether one of the first `n` chunks is complete under digest `h`.
fn held_in(hs: &Vec<u64>, done: &Vec<bool>, n: usize, h: u64) -> (r: bool)
    requires
        n <= hs@.len(),
        n <= done@.len(),
    ensures
        r == holds(hs@.take(n as int), done@.take(n as int), h),
{
    let mut j: usize = 0;
    while j < n
        invariant
            n <= hs@.len(),
            n <= done@.len(),
            j <= n,
            forall|k: int| 0 <= k < j ==> !(done@[k] && hs@[k] == h),
        decreases n - j,
    {
        if done[j] && hs[j] == h {
            proof {
                assert(done@.take(n as int)[j as int] && hs@.take(n as int)[j as int] == h);
            }
            return true;
        }
        j = j + 1;
    }
    proof {
        if holds(hs@.take(n as int), done@.take(n as int), h) {
            let k = choose|k: int|
                0 <= k < n && k < n && #[trigger] done@.take(n as int)[k] && hs@.take(n as int)[k] == h;
            assert(done@[k] && hs@[k] == h);
        }
    }
    false
}

/// Distinct digests of the chunks of a manifest that are marked complete.
fn held_hashes(m: &Manifest) -> (r: Vec<u64>)
    requires
        m.wf(),
    ensures
        r@ == held_of(m.hashes@, m.done@),
{
    let mut out: Vec<u64> = Vec::new();
    let mut i: usize = 0;
    while i < m.hashes.len()
        invariant
            m.wf(),
            i <= m.hashes@.len(),
            out@ == held_of(m.hashes@.take(i as int), m.done@.take(i as int)),
        decreases m.hashes@.len() - i,
    {
        let ghost prev = out@;
        let earlier = held_in(&m.hashes, &m.done, i, m.hashes[i]);
        if m.done[i] && !earlier {
            out.push(m.hashes[i]);
        }
        proof {
            assert(m.hashes@.take(i + 1).drop_last() =~= m.hashes@.take(i as int));
            assert(m.done@.take(i + 1).drop_last() =~= m.done@.take(i as int));
            assert(m.done@.take(i + 1).last() == m.done@[i as int]);
            assert(m.hashes@.take(i + 1).last() == m.hashes@[i as int]);
        }
        i = i + 1;
    }
    proof {
        assert(m.hashes@.take(i as int) =~= m.hashes@);
        assert(m.done@.take(i as int) =~= m.done@);
    }
    out
}

impl Session {
    /// Give back the references this session holds and end in a failure of
    /// the given kind; a session that has already ended cannot fail again,
    /// so its references are never given back twice. The manifest and its bitmap are kept, so that the
    /// chunks already in the cache need not be sent again.
    pub fn fail(&mut self, kind: FailureKind, cache: &mut ResumeCache)
        requires
            old(self).wf(),
            !is_terminal(old(self).state),
            old(cache).wf(),
        ensures
            final(self).wf(),
            final(cache).wf(),
            final(self).same_identity(old(self)),
            final(self).state == SessionState::Failed(kind),
            final(self).manifest == old(self).manifest,
            final(self).retries@ == old(self).retries@,
            final(cache)@ == release_each(old(cache)@, old(self).held()),
            final(cache).held() == old(cache).held(),
            final(cache).budget_spec() == old(cache).budget_spec(),
    {
        match &self.manifest {
            Some(m) => {
                let hs = held_hashes(m);
                cache.release_all(hs.as_slice());
            },
            None => {},
        }
        self.state = SessionState::Failed(kind);
    }

    /// Cancellation by the user or the operator: always resumable.
    pub fn cancel(&mut self, cache: &mut ResumeCache)
        requires
            old(self).wf(),
            !is_terminal(old(self).state),
            old(cache).wf(),
        ensures
            final(self).wf(),
            final(cache).wf(),
            final(self).same_identity(old(self)),
            final(self).state == SessionState::Failed(FailureKind::Cancelled),
            final(self).manifest == old(self).manifest,
            final(cache)@ == release_each(old(cache)@, old(self).held()),
            final(cache).held() == old(cache).held(),
            final(cache).budget_spec() == old(cache).budget_spec(),
    {
        self.fail(FailureKind::Cancelled, cache);
    }

    /// Lowest index still to transfer, if any.
    pub fn next_pending(&self) -> (r: Option<usize>)
        requires
            self.wf(),
            self.manifest is Some,
        ensures
            match r {
                Some(i) => is_next(self.manifest->Some_0.done@, i as int),
                None => self.manifest->Some_0.complete_spec(),
            },
    {
        match &self.manifest {
            Some(m) => first_missing(&m.done),
            None => None,
        }
    }

    /// Every index still to transfer, in ascending order.
    pub fn pending_indices(&self) -> (r: Vec<usize>)
        requires
            self.wf(),
            self.manifest is Some,
        ensures
            forall|a: int, b: int| 0 <= a < b < r@.len() ==> r@[a] < r@[b],
            r@.map_values(|i: usize| i as int).to_set() == pending_set(
                self.manifest->Some_0.done@,
            ),
    {
        let mut out: Vec<usize> = Vec::new();
        match &self.manifest {
            Some(m) => {
                let mut i: usize = 0;
                while i < m.done.len()
                    invariant
                        i <= m.done@.len(),
                        forall|a: int, b: int| 0 <= a < b < out@.len() ==> out@[a] < out@[b],
                        forall|a: int| 0 <= a < out@.len() ==> out@[a] < i,
                        forall|a: int| 0 <= a < out@.len() ==> !m.done@[out@[a] as int],
                        forall|j: int|
                            0 <= j < i && !m.done@[j] ==> exists|a: int|
                                0 <= a < out@.len() && out@[a] == j,
                    decreases m.done@.len() - i,
                {
                    if !m.done[i] {
                        let ghost prev = out@;
                        out.push(i);
                        proof {
                            assert forall|j: int|
                                0 <= j < i + 1 && !m.done@[j] implies exists|a: int|
                                    0 <= a < out@.len() && out@[a] == j by {
                                if j == i {
                                    assert(out@[prev.len() as int] == j);
                                } else {
                                    let a = choose|a: int| 0 <= a < prev.len() && prev[a] == j;
                                    assert(out@[a] == j);
                                }
                            }
                        }
                    }
                    i = i + 1;
                }
                proof {
                    let s = out@.map_values(|i: usize| i as int);
                    assert forall|j: int| s.to_set().contains(j) <==> pending_set(m.done@).contains(j) by {
                        if pending_set(m.done@).contains(j) {
                            let a = choose|a: int| 0 <= a < out@.len() && out@[a] == j;
                            assert(s[a] == j);
                        }
                        if s.to_set().contains(j) {
                            let a = choose|a: int| 0 <= a < s.len() && s[a] == j;
                            assert(out@[a] as int == j);
                        }
                    }
                    assert(s.to_set() =~= pending_set(m.done@));
                }
            },
            None => {},
        }
        out
    }

    /// Take in the chunk at `index`. Chunks come strictly in ascending
    /// order, so any index but the lowest one still missing is a protocol
    /// violation. A chunk that does not hash to its declared digest is asked
    /// for again until its retries run out; a matching one is stored in the
    /// cache, referenced once per digest and marked complete; a cache with no
    /// room left ends the session as storage-full, content already stored
    /// differently under the digest as an integrity mismatch. Once every chunk is complete
    /// the session moves on to verification. A failure gives back the
    /// session's references.
    pub fn receive_chunk(&mut self, index: usize, data: &[u8], cache: &mut ResumeCache) -> (r:
        ChunkOutcome)
        requires
            old(self).wf(),
            old(self).state == SessionState::Transferring,
            old(cache).wf(),
        ensures
            final(self).wf(),
            final(cache).wf(),
            final(self).same_identity(old(self)),
            final(cache).budget_spec() == old(cache).budget_spec(),
            ({
                let m = old(self).manifest->Some_0;
                let h = m.hashes@[index as int];
                let fails = |k: FailureKind|
                    {
                        &&& r == ChunkOutcome::Failed(k)
                        &&& final(self).state == SessionState::Failed(k)
                        &&& final(self).manifest == old(self).manifest
                        &&& final(cache)@ == release_each(old(cache)@, old(self).held())
                    };
                &&& !is_next(m.done@, index as int) ==> fails(FailureKind::ProtocolViolation)
                &&& is_next(m.done@, index as int) && digest_of(data@) != h
                    && old(self).retries@[index as int] >= old(self).config.max_chunk_retries
                    ==> fails(FailureKind::IntegrityMismatch)
                &&& is_next(m.done@, index as int) && digest_of(data@) != h
                    && old(self).retries@[index as int] < old(self).config.max_chunk_retries ==> {
                    &&& r == ChunkOutcome::Resend
                    &&& final(cache).held() == old(cache).held()
                    &&& final(self).state == SessionState::Transferring
                    &&& final(self).manifest == old(self).manifest
                    &&& final(self).retries@ == old(self).retries@.update(
                        index as int,
                        (old(self).retries@[index as int] + 1) as u32,
                    )
                    &&& final(cache)@ == old(cache)@
                }
                &&& is_next(m.done@, index as int) && digest_of(data@) == h && !old(
                    cache,
                ).put_succeeds(h, data@) ==> fails(
                    if old(cache)@.contains_key(h) {
                        FailureKind::IntegrityMismatch
                    } else {
                        FailureKind::StorageFull
                    },
                )
                &&& is_next(m.done@, index as int) && old(cache).put_succeeds(h, data@) ==> {
                    let m2 = final(self).manifest->Some_0;
                    &&& r == ChunkOutcome::Stored
                    &&& final(cache).held() <= old(cache).held() + data@.len()
                    &&& final(self).manifest is Some
                    &&& m2.name == m.name
                    &&& m2.size == m.size
                    &&& m2.chunk_size == m.chunk_size
                    &&& m2.hashes == m.hashes
                    &&& m2.done@ == m.done@.update(index as int, true)
                    &&& final(self).retries@ == old(self).retries@
                    &&& final(cache)@ == if holds(m.hashes@, m.done@, h) {
                        stored(old(cache)@, h, data@)
                    } else {
                        acquired(stored(old(cache)@, h, data@), h)
                    }
                    &&& final(self).state == if m2.complete_spec() {
                        SessionState::Verifying
                    } else {
                        SessionState::Transferring
                    }
                }
            }),
    {
        let mut slot: Option<Manifest> = None;
        std::mem::swap(&mut self.manifest, &mut slot);
        let mut m = match slot {
            Some(m) => m,
            None => {
                return ChunkOutcome::Failed(FailureKind::ProtocolViolation);
            },
        };
        let next = first_missing(&m.done);
        if next != Some(index) {
            self.manifest = Some(m);
            self.fail(FailureKind::ProtocolViolation, cache);
            return ChunkOutcome::Failed(FailureKind::ProtocolViolation);
        }
        let h = m.hashes[index];
        if digest(data) != h {
            if self.retries[index] >= self.config.max_chunk_retries {
                self.manifest = Some(m);
                self.fail(FailureKind::IntegrityMismatch, cache);
                return ChunkOutcome::Failed(FailureKind::IntegrityMismatch);
            }
            let n = self.retries[index] + 1;
            self.retries[index] = n;
            self.manifest = Some(m);
            return ChunkOutcome::Resend;
        }
        match cache.put(h, data) {
            Err(e) => {
                let kind = match e {
                    CacheError::Full => FailureKind::StorageFull,
                    _ => FailureKind::IntegrityMismatch,
                };
                self.manifest = Some(m);
                self.fail(kind, cache);
                ChunkOutcome::Failed(kind)
            },
            Ok(_) => {
                let earlier = held_in(&m.hashes, &m.done, m.hashes.len(), h);
                proof {
                    assert(m.hashes@.take(m.hashes@.len() as int) =~= m.hashes@);
                    assert(m.done@.take(m.hashes@.len() as int) =~= m.done@);
                }
                if !earlier {
                    let _ = cache.acquire(h);
                }
                m.done[index] = true;
                let complete = m.is_complete();
                self.manifest = Some(m);
                if complete {
                    self.state = SessionState::Verifying;
                }
                ChunkOutcome::Stored
            },
        }
    }
}

/// Lowest index of a bitmap that is not set.
fn first_missing(done: &Vec<bool>) -> (r: Option<usize>)
    ensures
        match r {
            Some(i) => is_next(done@, i as int),
            None => forall|j: int| 0 <= j < done@.len() ==> done@[j],
        },
{
    let mut i: usize = 0;
    while i < done.len()
        invariant
            i <= done@.len(),
            forall|j: int| 0 <= j < i ==> done@[j],
        decreases done@.len() - i,
    {
        if !done[i] {
            return Some(i);
        }
        i = i + 1;
    }
    None
}


/// Outcome reported for a session state, if it is terminal.
pub open spec fn outcome_of(state: SessionState, size: usize) -> Option<SessionOutcome> {
    match state {
        SessionState::Closed => Some(SessionOutcome::Completed(size as u64)),
        SessionState::Failed(k) => Some(SessionOutcome::Failed(k, resumable_spec(k))),
        _ => None,
    }
}

impl Session {
    /// Check the whole file: every chunk is read back from the cache and
    /// hashed again, and the digests must combine to the manifest's
    /// whole-file digest. On success the file's bytes are returned and the
    /// session waits for them to be written out; otherwise it fails with an
    /// integrity mismatch, keeping the cache for a later attempt. When the
    /// cache holds the sender's chunks of the file the manifest describes,
    /// the result is that file byte for byte, the empty file included.
    pub fn verify_file(&mut self, cache: &mut ResumeCache) -> (r: Option<Vec<u8>>)
        requires
            old(self).wf(),
            old(self).state == SessionState::Verifying,
            old(cache).wf(),
        ensures
            final(self).wf(),
            final(cache).wf(),
            final(self).same_identity(old(self)),
            final(self).manifest == old(self).manifest,
            final(cache).budget_spec() == old(cache).budget_spec(),
            ({
                let hs = old(self).manifest->Some_0.hashes@;
                &&& r is Some <==> verifies(old(cache)@, hs)
                &&& r is Some ==> r->Some_0@ == cached_chunks(old(cache)@, hs).flatten()
                    && final(self).state == SessionState::Verifying && final(cache)@ == old(
                    cache,
                )@
                &&& r is None ==> final(self).state == SessionState::Failed(
                    FailureKind::IntegrityMismatch,
                ) && final(cache)@ == release_each(old(cache)@, old(self).held())
                &&& forall|c: Seq<u8>|
                    old(self).manifest->Some_0.describes(c) && #[trigger] holds_chunks(
                        old(cache)@,
                        c,
                        old(self).manifest->Some_0.chunk_size as nat,
                    ) ==> r is Some && r->Some_0@ == c
            }),
    {
        proof {
            let m0 = self.manifest->Some_0;
            assert forall|c: Seq<u8>|
                m0.describes(c) && #[trigger] holds_chunks(old(cache)@, c, m0.chunk_size as nat)
                implies verifies(old(cache)@, m0.hashes@) && cached_chunks(
                old(cache)@,
                m0.hashes@,
            ).flatten() == c by {
                lemma_transfer_round_trip(c, m0.chunk_size as nat, old(cache)@);
            }
        }
        let mut chunks: Vec<Vec<u8>> = Vec::new();
        let mut digests: Vec<u64> = Vec::new();
        let mut ok = true;
        let ghost hs = self.manifest->Some_0.hashes@;
        match &self.manifest {
            Some(m) => {
                let mut i: usize = 0;
                while ok && i < m.hashes.len()
                    invariant
                        hs == m.hashes@,
                        i <= hs.len(),
                        cache.wf(),
                        ok ==> views(chunks@) == cached_chunks(cache@, hs.take(i as int)),
                        ok ==> digests@ == digests_of(views(chunks@)),
                        ok ==> forall|j: int| 0 <= j < i ==> cache@.contains_key(#[trigger] hs[j]),
                        !ok ==> !(forall|j: int| 0 <= j < hs.len() ==> cache@.contains_key(#[trigger] hs[j])),
                    decreases hs.len() - i,
                {
                    match cache.get(m.hashes[i]) {
                        Ok(d) => {
                            let ghost pv = views(chunks@);
                            let ghost pd = digests@;
                            digests.push(digest(d.as_slice()));
                            chunks.push(d);
                            proof {
                                assert(views(chunks@) =~= pv.push(cache@[hs[i as int]].data));
                                assert(cached_chunks(cache@, hs.take(i + 1)) =~= pv.push(cache@[hs[i as int]].data));
                                assert(digests@ =~= digests_of(views(chunks@)));
                            }
                        },
                        Err(_) => {
                            ok = false;
                        },
                    }
                    i = i + 1;
                }
                if ok {
                    assert(hs.take(i as int) =~= hs);
                }
            },
            None => {},
        }
        let matches = ok && match &self.manifest {
            Some(m) => combine(digests.as_slice()) == m.file_digest(),
            None => false,
        };
        if matches {
            proof {
                assert(cached_chunks(cache@, hs) =~= views(chunks@));
            }
            Some(assemble(&chunks))
        } else {
            proof {
                if ok {
                    assert(cached_chunks(cache@, hs) =~= views(chunks@));
                }
            }
            self.fail(FailureKind::IntegrityMismatch, cache);
            None
        }
    }

    /// The verified file has been written to its destination: give back the
    /// session's references and close.
    pub fn complete(&mut self, cache: &mut ResumeCache)
        requires
            old(self).wf(),
            old(self).state == SessionState::Verifying,
            old(cache).wf(),
        ensures
            final(self).wf(),
            final(cache).wf(),
            final(self).same_identity(old(self)),
            final(self).state == SessionState::Closed,
            final(self).manifest == old(self).manifest,
            final(cache)@ == release_each(old(cache)@, old(self).held()),
            final(cache).held() == old(cache).held(),
            final(cache).budget_spec() == old(cache).budget_spec(),
    {
        match &self.manifest {
            Some(m) => {
                let hs = held_hashes(m);
                cache.release_all(hs.as_slice());
            },
            None => {},
        }
        self.state = SessionState::Closed;
    }

    /// What the session reports once it has ended.
    pub fn outcome(&self) -> (r: Option<SessionOutcome>)
        requires
            self.wf(),
        ensures
            r == outcome_of(
                self.state,
                match self.manifest {
                    Some(m) => m.size,
                    None => 0,
                },
            ),
    {
        let size: usize = match &self.manifest {
            Some(m) => m.size,
            None => 0,
        };
        match self.state {
            SessionState::Closed => Some(SessionOutcome::Completed(size as u64)),
            SessionState::Failed(k) => Some(SessionOutcome::Failed(k, k.is_resumable())),
            _ => None,
        }
    }

    /// Whether the session has ended.
    pub fn is_finished(&self) -> (r: bool)
        ensures
            r == is_terminal(self.state),
    {
        match self.state {
            SessionState::Closed => true,
            SessionState::Failed(_) => true,
            _ => false,
        }
    }
}

/// When the cache holds exactly the sender's chunks under the manifest's
/// digests, verification passes and the reassembled file is the sender's
/// file byte for byte.
pub proof fn lemma_transfer_round_trip(content: Seq<u8>, chunk_size: nat, m: Map<u64, Slot>)
    requires
        chunk_size > 0,
        holds_chunks(m, content, chunk_size),
    ensures
        ({
            let hs = digests_of(split(content, chunk_size));
            &&& verifies(m, hs)
            &&& cached_chunks(m, hs).flatten() == content
        }),
{
    let parts = split(content, chunk_size);
    let hs = digests_of(parts);
    assert(cached_chunks(m, hs) =~= parts);
    assert forall|i: int| 0 <= i < hs.len() implies m.contains_key(#[trigger] hs[i]) by {
        assert(hs[i] == digest_of(parts[i]));
    }
    assert(digests_of(cached_chunks(m, hs)) =~= hs);
    lemma_round_trip(content, chunk_size);
}

/// Restarting with the same manifest after the first `n` of its chunks
/// reached the cache leaves exactly the remaining ones to transfer: the
/// indices from `n` on, `hs.len() - n` of them.
pub proof fn lemma_resume(m: Map<u64, Slot>, hs: Seq<u64>, n: int)
    requires
        0 <= n <= hs.len(),
        forall|i: int| 0 <= i < n ==> m.contains_key(#[trigger] hs[i]),
        forall|i: int| n <= i < hs.len() ==> !m.contains_key(#[trigger] hs[i]),
    ensures
        pending_set(bitmap_of(m, hs)) == set_int_range(n, hs.len() as int),
        pending_set(bitmap_of(m, hs)).len() == hs.len() - n,
{
    assert(pending_set(bitmap_of(m, hs)) =~= set_int_range(n, hs.len() as int));
    lemma_int_range(n, hs.len() as int);
}

/// Sessions share only the cache, and what one session does to it when it
/// stores and references a chunk, or gives its references back, never
/// removes or alters content stored under any digest: every chunk another
/// session has stored stays there with the same bytes.
pub proof fn lemma_sessions_isolated(m: Map<u64, Slot>, h: u64, data: Seq<u8>, held: Seq<u64>)
    ensures
        forall|k: u64| #[trigger] m.contains_key(k) ==> {
            let after = acquired(stored(m, h, data), h);
            &&& after.contains_key(k)
            &&& after[k].data == m[k].data
        },
        forall|k: u64| #[trigger] m.contains_key(k) ==> {
            &&& release_each(m, held).contains_key(k)
            &&& release_each(m, held)[k].data == m[k].data
        },
{
    crate::cache::lemma_refs_keep_content(m, held);
}

/// Two files negotiated one after the other against the same cache: every
/// chunk already stored is still one entry with the same bytes, and its
/// count has grown by one for each manifest that lists its digest, whether
/// a manifest lists it once or many times.
pub proof fn lemma_negotiated_dedup(m: Map<u64, Slot>, hs1: Seq<u64>, hs2: Seq<u64>)
    requires
        forall|k: u64| #[trigger] m.contains_key(k) ==> m[k].refs + hs1.len() + hs2.len()
            < u64::MAX,
    ensures
        ({
            let mid = acquire_each(m, held_of(hs1, bitmap_of(m, hs1)));
            let after = acquire_each(mid, held_of(hs2, bitmap_of(mid, hs2)));
            &&& after.dom() == m.dom()
            &&& forall|k: u64| #[trigger] m.contains_key(k) ==> after[k].data == m[k].data
                && after[k].refs == m[k].refs + (if hs1.contains(k) {
                1nat
            } else {
                0nat
            }) + (if hs2.contains(k) {
                1nat
            } else {
                0nat
            })
        }),
{
    let d1 = bitmap_of(m, hs1);
    let mid = acquire_each(m, held_of(hs1, d1));
    crate::cache::lemma_refs_keep_content(m, held_of(hs1, d1));
    assert(bitmap_of(mid, hs2) =~= bitmap_of(m, hs2));
    let d2 = bitmap_of(m, hs2);
    crate::cache::lemma_dedup(m, hs1, d1, hs2, d2);
    assert forall|k: u64| #[trigger] m.contains_key(k) implies (holds(hs1, d1, k) <==> hs1.contains(
        k,
    )) && (holds(hs2, d2, k) <==> hs2.contains(k)) by {
        if hs1.contains(k) {
            let i = choose|i: int| 0 <= i < hs1.len() && hs1[i] == k;
            assert(d1[i]);
        }
        if hs2.contains(k) {
            let i = choose|i: int| 0 <= i < hs2.len() && hs2[i] == k;
            assert(d2[i]);
        }
    }
}

/// A cancelled session, or one force-failed by a server drain, can always
/// be resumed.
pub proof fn lemma_cancel_resumable(size: usize)
    ensures
        outcome_of(SessionState::Failed(FailureKind::Cancelled), size) == Some(
            SessionOutcome::Failed(FailureKind::Cancelled, true),
        ),
{
}


/// Sender-side flow control: how many chunks are unacknowledged, and how
/// many acknowledgment timeouts have been met in a row.
pub struct SendWindow {
    pub window: usize,
    pub in_flight: usize,
    pub timeouts: u32,
    pub max_timeouts: u32,
}

impl SendWindow {
    /// Never more chunks in flight than the window allows.
    pub open spec fn wf(&self) -> bool {
        self.in_flight <= self.window
    }

    /// Nothing in flight yet.
    pub fn new(window: usize, max_timeouts: u32) -> (r: SendWindow)
        ensures
            r.wf(),
            r.window == window,
            r.max_timeouts == max_timeouts,
            r.in_flight == 0,
            r.timeouts == 0,
    {
        SendWindow { window, in_flight: 0, timeouts: 0, max_timeouts }
    }

    /// The window a session's configuration sets, with nothing in flight.
    pub fn from_config(config: &SessionConfig, max_timeouts: u32) -> (r: SendWindow)
        ensures
            r.wf(),
            r.window == config.window,
            r.max_timeouts == max_timeouts,
            r.in_flight == 0,
            r.timeouts == 0,
    {
        SendWindow::new(config.window, max_timeouts)
    }

    /// Put one more chunk in flight, if the window has room.
    pub fn try_send(&mut self) -> (r: bool)
        requires
            old(self).wf(),
        ensures
            final(self).wf(),
            r == (old(self).in_flight < old(self).window),
            final(self).in_flight == if r {
                old(self).in_flight + 1
            } else {
                old(self).in_flight as int
            },
            final(self).window == old(self).window,
            final(self).timeouts == old(self).timeouts,
            final(self).max_timeouts == old(self).max_timeouts,
    {
        if window_allows(self.in_flight, self.window) {
            self.in_flight = self.in_flight + 1;
            true
        } else {
            false
        }
    }

    /// The oldest chunk in flight was acknowledged.
    pub fn acknowledge(&mut self)
        requires
            old(self).wf(),
        ensures
            final(self).wf(),
            final(self).in_flight == if old(self).in_flight > 0 {
                old(self).in_flight - 1
            } else {
                0
            },
            final(self).timeouts == 0,
            final(self).window == old(self).window,
            final(self).max_timeouts == old(self).max_timeouts,
    {
        if self.in_flight > 0 {
            self.in_flight = self.in_flight - 1;
        }
        self.timeouts = 0;
    }

    /// No acknowledgment came in time: the chunk is sent again, until the
    /// timeouts in a row exceed their limit, which ends the session.
    pub fn timed_out(&mut self) -> (r: Result<(), FailureKind>)
        requires
            old(self).wf(),
        ensures
            final(self).wf(),
            final(self).in_flight == old(self).in_flight,
            final(self).window == old(self).window,
            final(self).max_timeouts == old(self).max_timeouts,
            old(self).timeouts >= old(self).max_timeouts ==> r == Err::<(), FailureKind>(
                FailureKind::Timeout,
            ) && final(self).timeouts == old(self).timeouts,
            old(self).timeouts < old(self).max_timeouts ==> r is Ok && final(self).timeouts
                == old(self).timeouts + 1,
    {
        if self.timeouts >= self.max_timeouts {
            Err(FailureKind::Timeout)
        } else {
            self.timeouts = self.timeouts + 1;
            Ok(())
        }
    }
}


/// Bytes of the chunks that are not complete.
pub open spec fn pending_bytes(ch: Seq<Vec<u8>>, done: Seq<bool>) -> nat
    decreases ch.len(),
{
    if ch.len() == 0 || done.len() == 0 {
        0
    } else {
        pending_bytes(ch.drop_last(), done.drop_last()) + if done.last() {
            0
        } else {
            ch.last()@.len()
        }
    }
}

proof fn lemma_pending_bytes_update(ch: Seq<Vec<u8>>, d: Seq<bool>, i: int)
    requires
        ch.len() == d.len(),
        0 <= i < d.len(),
        !d[i],
    ensures
        pending_bytes(ch, d.update(i, true)) + ch[i]@.len() == pending_bytes(ch, d),
    decreases ch.len(),
{
    if i == d.len() - 1 {
        assert(d.update(i, true).drop_last() =~= d.drop_last());
    } else {
        lemma_pending_bytes_update(ch.drop_last(), d.drop_last(), i);
        assert(d.update(i, true).drop_last() =~= d.drop_last().update(i, true));
    }
}

/// Whether the sender's chunks can all be taken into a cache: each missing
/// chunk hashes to its digest, missing chunks sharing a digest are equal,
/// the cache holds no other bytes under their digests, and their bytes fit
/// the cache's byte count.
pub open spec fn chunks_fit(
    m: Map<u64, Slot>,
    held: nat,
    hs: Seq<u64>,
    done: Seq<bool>,
    ch: Seq<Vec<u8>>,
) -> bool {
    &&& forall|i: int| 0 <= i < hs.len() && !done[i] ==> digest_of(ch[i]@) == #[trigger] hs[i]
    &&& forall|i: int, j: int|
        0 <= i < hs.len() && 0 <= j < hs.len() && !done[i] && !done[j] && #[trigger] hs[i]
            == #[trigger] hs[j] ==> ch[i]@ == ch[j]@
    &&& forall|i: int|
        0 <= i < hs.len() && !done[i] && m.contains_key(#[trigger] hs[i]) ==> m[hs[i]].data
            == ch[i]@
    &&& held + pending_bytes(ch, done) <= usize::MAX
}

impl Session {
    /// Run the transfer from the sender's chunks: the lowest missing chunk
    /// is taken in each step until the session leaves the transferring
    /// state. Returns the indices taken, in ascending order and each once:
    /// all of them were missing when the run began, and once the file is
    /// complete they are exactly the chunks that were missing. When the
    /// sender's chunks fit the cache the file always becomes complete, and
    /// the cache then holds each of them under its digest. Otherwise the
    /// session fails as an integrity mismatch or for lack of room. Stored
    /// content is never removed or altered.
    pub fn receive_pending(&mut self, chunks: &Vec<Vec<u8>>, cache: &mut ResumeCache) -> (sent:
        Vec<usize>)
        requires
            old(self).wf(),
            old(self).state == SessionState::Transferring,
            old(cache).wf(),
            chunks@.len() == old(self).manifest->Some_0.hashes@.len(),
        ensures
            final(self).wf(),
            final(cache).wf(),
            final(self).same_identity(old(self)),
            final(self).manifest is Some,
            final(self).manifest->Some_0.hashes == old(self).manifest->Some_0.hashes,
            final(self).state == SessionState::Verifying || final(self).state is Failed,
            forall|a: int, b: int| 0 <= a < b < sent@.len() ==> sent@[a] < sent@[b],
            forall|a: int|
                0 <= a < sent@.len() ==> pending_set(old(self).manifest->Some_0.done@).contains(
                    #[trigger] sent@[a] as int,
                ),
            final(self).state == SessionState::Verifying ==> forall|j: int|
                #[trigger] pending_set(old(self).manifest->Some_0.done@).contains(j) ==> exists|
                    a: int,
                | 0 <= a < sent@.len() && sent@[a] == j,
            final(self).state is Failed ==> final(self).state == SessionState::Failed(
                FailureKind::IntegrityMismatch,
            ) || final(self).state == SessionState::Failed(FailureKind::StorageFull),
            chunks_fit(
                old(cache)@,
                old(cache).held(),
                old(self).manifest->Some_0.hashes@,
                old(self).manifest->Some_0.done@,
                chunks@,
            ) ==> final(self).state == SessionState::Verifying,
            final(self).state == SessionState::Verifying ==> forall|i: int|
                0 <= i < chunks@.len() && !old(self).manifest->Some_0.done@[i]
                    ==> final(cache)@.contains_key(
                    #[trigger] old(self).manifest->Some_0.hashes@[i],
                ) && final(cache)@[old(self).manifest->Some_0.hashes@[i]].data == chunks@[i]@,
            forall|k: u64| #[trigger] old(cache)@.contains_key(k) ==> final(cache)@.contains_key(k)
                && final(cache)@[k].data == old(cache)@[k].data,
    {
        let ghost d0 = self.manifest->Some_0.done@;
        let ghost h0 = self.manifest->Some_0.hashes;
        let ghost orig = cache@;
        let ghost ready = chunks_fit(orig, cache.held(), h0@, d0, chunks@);
        let mut sent: Vec<usize> = Vec::new();
        while self.state == SessionState::Transferring
            invariant
                self.wf(),
                cache.wf(),
                self.same_identity(old(self)),
                self.manifest is Some,
                self.manifest->Some_0.hashes == h0,
                d0 == old(self).manifest->Some_0.done@,
                h0 == old(self).manifest->Some_0.hashes,
                chunks@.len() == h0@.len(),
                self.manifest->Some_0.done@.len() == d0.len(),
                self.state == SessionState::Transferring || self.state == SessionState::Verifying
                    || self.state is Failed,
                self.state == SessionState::Verifying ==> self.manifest->Some_0.complete_spec(),
                forall|j: int| 0 <= j < d0.len() && d0[j] ==> self.manifest->Some_0.done@[j],
                forall|j: int|
                    0 <= j < d0.len() && self.manifest->Some_0.done@[j] && !d0[j] ==> exists|a: int|
                        0 <= a < sent@.len() && sent@[a] == j,
                forall|a: int| 0 <= a < sent@.len() ==> pending_set(d0).contains(#[trigger] sent@[a] as int),
                forall|a: int| 0 <= a < sent@.len() ==> self.manifest->Some_0.done@[#[trigger] sent@[a] as int],
                forall|a: int, j: int|
                    #![trigger sent@[a], self.manifest->Some_0.done@[j]]
                    0 <= a < sent@.len() && 0 <= j <= sent@[a] ==> self.manifest->Some_0.done@[j],
                forall|a: int, b: int| 0 <= a < b < sent@.len() ==> sent@[a] < sent@[b],
                orig == old(cache)@,
                ready == chunks_fit(orig, old(cache).held(), h0@, d0, chunks@),
                forall|k: u64| #[trigger] orig.contains_key(k) ==> cache@.contains_key(k)
                    && cache@[k].data == orig[k].data,
                self.state is Failed ==> self.state == SessionState::Failed(
                    FailureKind::IntegrityMismatch,
                ) || self.state == SessionState::Failed(FailureKind::StorageFull),
                ready ==> !(self.state is Failed),
                forall|i: int|
                    0 <= i < d0.len() && !d0[i] && self.manifest->Some_0.done@[i]
                        ==> cache@.contains_key(#[trigger] h0@[i]) && cache@[h0@[i]].data
                        == chunks@[i]@,
                ready ==> forall|i: int|
                    0 <= i < d0.len() && !d0[i] && cache@.contains_key(#[trigger] h0@[i])
                        ==> cache@[h0@[i]].data == chunks@[i]@,
                ready ==> cache.held() + pending_bytes(chunks@, self.manifest->Some_0.done@)
                    <= old(cache).held() + pending_bytes(chunks@, d0),
            ensures
                self.state != SessionState::Transferring,
            decreases d0.len() - sent@.len(),
        {
            let i = match self.next_pending() {
                Some(i) => i,
                None => {
                    self.state = SessionState::Verifying;
                    break;
                },
            };
            proof {
                assert(pending_set(d0).contains(i as int)) by {
                    if d0[i as int] {
                        assert(self.manifest->Some_0.done@[i as int]);
                    }
                }
                assert forall|a: int| 0 <= a < sent@.len() implies sent@[a] < i by {
                    if sent@[a] >= i {
                        assert(self.manifest->Some_0.done@[i as int]);
                    }
                }
                lemma_sent_bound(sent@, i as int);
            }
            let ghost prev = sent@;
            let ghost done_before = self.manifest->Some_0.done@;
            let ghost c_before = cache@;
            let ghost held_before = self.held();
            proof {
                lemma_pending_bytes_update(chunks@, done_before, i as int);
                if ready {
                    assert(digest_of(chunks@[i as int]@) == h0@[i as int]);
                    assert(cache.put_succeeds(h0@[i as int], chunks@[i as int]@));
                }
            }
            let outcome = self.receive_chunk(i, chunks[i].as_slice(), cache);
            proof {
                if outcome != ChunkOutcome::Stored && outcome != ChunkOutcome::Resend {
                    crate::cache::lemma_refs_keep_content(c_before, held_before);
                }
                if outcome == ChunkOutcome::Stored {
                    let h = h0@[i as int];
                    crate::cache::lemma_store_never_overwrites(c_before, h, chunks@[i as int]@);
                    assert(cache@.contains_key(h) && cache@[h].data == chunks@[i as int]@);
                    assert forall|k: u64| #[trigger] c_before.contains_key(k) implies cache@.contains_key(k)
                        && cache@[k].data == c_before[k].data by {}
                    assert forall|k: u64| #[trigger] cache@.contains_key(k) && k != h implies c_before.contains_key(k)
                        && cache@[k].data == c_before[k].data by {}
                }
            }
            match outcome {
                ChunkOutcome::Stored => {
                    sent.push(i);
                    proof {
                        let dn = self.manifest->Some_0.done@;
                        assert(dn == done_before.update(i as int, true));
                        assert forall|j: int|
                            0 <= j < d0.len() && dn[j] && !d0[j] implies exists|a: int|
                                0 <= a < sent@.len() && sent@[a] == j by {
                            if j == i {
                                assert(sent@[prev.len() as int] == j);
                            } else {
                                let a = choose|a: int| 0 <= a < prev.len() && prev[a] == j;
                                assert(sent@[a] == j);
                            }
                        }
                        assert forall|a: int, j: int|
                            #![trigger sent@[a], self.manifest->Some_0.done@[j]]
                            0 <= a < sent@.len() && 0 <= j <= sent@[a] implies self.manifest->Some_0.done@[j] by {
                            if a < prev.len() {
                                assert(done_before[j]);
                            } else if j < i {
                                assert(done_before[j]);
                            }
                        }
                    }
                },
                _ => {
                    if self.state == SessionState::Transferring {
                        let ghost c1 = cache@;
                        let ghost held1 = self.held();
                        self.fail(FailureKind::IntegrityMismatch, cache);
                        proof {
                            crate::cache::lemma_refs_keep_content(c1, held1);
                        }
                    }
                    break;
                },
            }
        }
        proof {
            if self.state == SessionState::Verifying {
                assert forall|j: int| #[trigger] pending_set(d0).contains(j) implies exists|a: int|
                    0 <= a < sent@.len() && sent@[a] == j by {
                    assert(self.manifest->Some_0.done@[j]);
                }
            }
        }
        sent
    }
}

proof fn lemma_sent_bound(sent: Seq<usize>, i: int)
    requires
        0 <= i,
        forall|a: int| 0 <= a < sent.len() ==> sent[a] < i,
        forall|a: int, b: int| 0 <= a < b < sent.len() ==> sent[a] < sent[b],
    ensures
        sent.len() <= i,
    decreases sent.len(),
{
    if sent.len() > 0 {
        let p = sent.drop_last();
        assert forall|a: int| 0 <= a < p.len() implies p[a] < sent.last() by {
            assert(sent[a] < sent[sent.len() - 1]);
        }
        lemma_sent_bound(p, sent.last() as int);
    }
}

} // verus!
