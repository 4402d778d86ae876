use vstd::prelude::*;

use crate::error::FailureKind;

verus! {

/// Whether a pinned certificate has been approved.
#[derive(Clone, Copy, Debug, PartialEq, Eq, Structural)]
pub enum TrustStatus {
    Pending,
    Trusted,
}

/// How a presented certificate compares with what is pinned for its host.
#[derive(Clone, Copy, Debug, PartialEq, Eq, Structural)]
pub enum TrustVerdict {
    /// No approved pin for the host and nothing contradicting the certificate.
    New,
    /// The host is trusted with exactly this fingerprint.
    Known,
    /// The host is pinned to another fingerprint.
    Changed,
}

/// What to do on first contact with an unknown host.
#[derive(Clone, Copy, Debug, PartialEq, Eq, Structural)]
pub enum FirstContact {
    /// Pin the certificate as trusted and proceed.
    AutoAccept,
    /// Pin the certificate as pending and refuse until it is approved.
    RequireApproval,
}

/// What is pinned for one host.
#[derive(Clone, Copy, Debug, PartialEq, Eq, Structural)]
pub struct Pin {
    pub fingerprint: u64,
    pub first_seen: u64,
    pub status: TrustStatus,
}

/// One host-to-fingerprint binding.
pub struct TrustRecord {
    pub host: String,
    pub fingerprint: u64,
    pub first_seen: u64,
    pub status: TrustStatus,
}

impl TrustRecord {
    pub open spec fn pin(&self) -> Pin {
        Pin { fingerprint: self.fingerprint, first_seen: self.first_seen, status: self.status }
    }
}

/// Host-fingerprint bindings, at most one per host.
pub struct TrustStore {
    records: Vec<TrustRecord>,
    pins: Ghost<Map<Seq<char>, Pin>>,
}

/// Classification of a certificate against the pins.
pub open spec fn verdict_of(m: Map<Seq<char>, Pin>, host: Seq<char>, fp: u64) -> TrustVerdict {
    if !m.contains_key(host) {
        TrustVerdict::New
    } else if m[host].fingerprint != fp {
        TrustVerdict::Changed
    } else if m[host].status == TrustStatus::Trusted {
        TrustVerdict::Known
    } else {
        TrustVerdict::New
    }
}

/// Status given to a pin created on first contact.
pub open spec fn first_status(policy: FirstContact) -> TrustStatus {
    match policy {
        FirstContact::AutoAccept => TrustStatus::Trusted,
        FirstContact::RequireApproval => TrustStatus::Pending,
    }
}

/// Pins after recording a first contact: an insert only for an unknown host.
pub open spec fn recorded(
    m: Map<Seq<char>, Pin>,
    host: Seq<char>,
    fp: u64,
    now: u64,
    policy: FirstContact,
) -> Map<Seq<char>, Pin> {
    if m.contains_key(host) {
        m
    } else {
        m.insert(host, Pin { fingerprint: fp, first_seen: now, status: first_status(policy) })
    }
}

/// Pins after an explicit trust action. The first-seen time is kept while
/// the fingerprint stays the same.
pub open spec fn approved(m: Map<Seq<char>, Pin>, host: Seq<char>, fp: u64, now: u64) -> Map<
    Seq<char>,
    Pin,
> {
    let seen = if m.contains_key(host) && m[host].fingerprint == fp {
        m[host].first_seen
    } else {
        now
    };
    m.insert(host, Pin { fingerprint: fp, first_seen: seen, status: TrustStatus::Trusted })
}

/// Outcome of the trust check of a session.
pub open spec fn authorize_result(
    m: Map<Seq<char>, Pin>,
    host: Seq<char>,
    fp: u64,
    policy: FirstContact,
) -> Result<(), FailureKind> {
    match verdict_of(m, host, fp) {
        TrustVerdict::Known => Ok(()),
        TrustVerdict::Changed => Err(FailureKind::TrustViolation),
        TrustVerdict::New => if policy == FirstContact::AutoAccept {
            Ok(())
        } else {
            Err(FailureKind::TrustViolation)
        },
    }
}

/// Pins after the trust check of a session: a first contact is recorded.
pub open spec fn authorize_pins(
    m: Map<Seq<char>, Pin>,
    host: Seq<char>,
    fp: u64,
    now: u64,
    policy: FirstContact,
) -> Map<Seq<char>, Pin> {
    if verdict_of(m, host, fp) == TrustVerdict::New {
        recorded(m, host, fp, now, policy)
    } else {
        m
    }
}

impl View for TrustStore {
    type V = Map<Seq<char>, Pin>;

    closed spec fn view(&self) -> Map<Seq<char>, Pin> {
        self.pins@
    }
}

impl TrustStore {
    /// Records and pins agree, and hosts are unique.
    pub closed spec fn wf(&self) -> bool {
        &&& forall|i: int, j: int|
            0 <= i < j < self.records@.len() ==> #[trigger] self.records@[i].host@
                != #[trigger] self.records@[j].host@
        &&& forall|i: int|
            0 <= i < self.records@.len() ==> self.pins@.contains_key(
                #[trigger] self.records@[i].host@,
            ) && self.pins@[self.records@[i].host@] == self.records@[i].pin()
        &&& forall|h: Seq<char>|
            #[trigger] self.pins@.contains_key(h) ==> exists|i: int|
                0 <= i < self.records@.len() && #[trigger] self.records@[i].host@ == h
    }

    /// An empty store.
    pub fn new() -> (r: Self)
        ensures
            r.wf(),
            r@ == Map::<Seq<char>, Pin>::empty(),
    {
        TrustStore { records: Vec::new(), pins: Ghost(Map::empty()) }
    }

    /// Number of pinned hosts.
    pub fn len(&self) -> (r: usize)
        requires
            self.wf(),
        ensures
            r == self@.len(),
    {
        proof {
            let s = self.records@.map_values(|r: TrustRecord| r.host@);
            assert forall|i: int, j: int| 0 <= i < j < s.len() implies s[i] != s[j] by {
                assert(self.records@[i].host@ != self.records@[j].host@);
            }
            assert forall|i: int| 0 <= i < s.len() implies self@.contains_key(#[trigger] s[i]) by {
                assert(s[i] == self.records@[i].host@);
            }
            assert forall|k: Seq<char>| #[trigger] self@.contains_key(k) implies exists|i: int|
                0 <= i < s.len() && s[i] == k by {
                let i = choose|i: int| 0 <= i < self.records@.len() && #[trigger] self.records@[i].host@ == k;
                assert(s[i] == k);
            }
            crate::keys::lemma_keys_len(self@, s);
        }
        self.records.len()
    }

    fn find(&self, host: &String) -> (r: Option<usize>)
        requires
            self.wf(),
        ensures
            match r {
                Some(i) => i < self.records@.len() && self.records@[i as int].host@ == host@,
                None => !self@.contains_key(host@),
            },
    {
        let mut i: usize = 0;
        while i < self.records.len()
            invariant
                self.wf(),
                i <= self.records@.len(),
                forall|j: int| 0 <= j < i ==> self.records@[j].host@ != host@,
            decreases self.records@.len() - i,
        {
            if self.records[i].host == *host {
                return Some(i);
            }
            i = i + 1;
        }
        None
    }

    /// Pin recorded for a host, if any.
    pub fn lookup(&self, host: &String) -> (r: Option<Pin>)
        requires
            self.wf(),
        ensures
            r == (if self@.contains_key(host@) {
                Some(self@[host@])
            } else {
                None
            }),
    {
        match self.find(host) {
            Some(i) => {
                let rec = &self.records[i];
                Some(Pin { fingerprint: rec.fingerprint, first_seen: rec.first_seen, status: rec.status })
            },
            None => None,
        }
    }

    /// Classify a presented certificate; never changes the store.
    pub fn check(&self, host: &String, fingerprint: u64) -> (r: TrustVerdict)
        requires
            self.wf(),
        ensures
            r == verdict_of(self@, host@, fingerprint),
    {
        match self.find(host) {
            None => TrustVerdict::New,
            Some(i) => {
                let rec = &self.records[i];
                if rec.fingerprint != fingerprint {
                    TrustVerdict::Changed
                } else if rec.status == TrustStatus::Trusted {
                    TrustVerdict::Known
                } else {
                    TrustVerdict::New
                }
            },
        }
    }

    fn push_new(&mut self, rec: TrustRecord)
        requires
            old(self).wf(),
            !old(self)@.contains_key(rec.host@),
        ensures
            final(self).wf(),
            final(self)@ == old(self)@.insert(rec.host@, rec.pin()),
    {
        let ghost h = rec.host@;
        let ghost p = rec.pin();
        proof {
            assert forall|j: int| 0 <= j < self.records@.len() implies self.records@[j].host@ != h by {
                assert(self.pins@.contains_key(self.records@[j].host@));
            }
        }
        self.records.push(rec);
        self.pins = Ghost(self.pins@.insert(h, p));
        proof {
            let n = self.records@.len() - 1;
            assert(self.records@[n].host@ == h);
            assert forall|k: Seq<char>| #[trigger] self.pins@.contains_key(k) implies exists|i: int|
                0 <= i < self.records@.len() && #[trigger] self.records@[i].host@ == k by {
                if k != h {
                    let i = choose|i: int| 0 <= i < old(self).records@.len() && #[trigger] old(self).records@[i].host@ == k;
                    assert(self.records@[i].host@ == k);
                }
            }
        }
    }

    fn replace_at(&mut self, i: usize, rec: TrustRecord)
        requires
            old(self).wf(),
            i < old(self).records@.len(),
            old(self).records@[i as int].host@ == rec.host@,
        ensures
            final(self).wf(),
            final(self)@ == old(self)@.insert(rec.host@, rec.pin()),
    {
        let ghost h = rec.host@;
        let ghost p = rec.pin();
        self.records[i] = rec;
        self.pins = Ghost(self.pins@.insert(h, p));
        proof {
            assert forall|a: int, b: int|
                0 <= a < b < self.records@.len() implies #[trigger] self.records@[a].host@
                != #[trigger] self.records@[b].host@ by {
                assert(old(self).records@[a].host@ != old(self).records@[b].host@);
            }
            assert forall|k: Seq<char>| #[trigger] self.pins@.contains_key(k) implies exists|j: int|
                0 <= j < self.records@.len() && #[trigger] self.records@[j].host@ == k by {
                if k != h {
                    let j = choose|j: int| 0 <= j < old(self).records@.len() && #[trigger] old(self).records@[j].host@ == k;
                    assert(self.records@[j].host@ == k);
                } else {
                    assert(self.records@[i as int].host@ == k);
                }
            }
        }
    }

    /// Record a first contact: pins the certificate for an unknown host with
    /// the status the policy gives; a known host is left as it is.
    pub fn record(&mut self, host: &String, fingerprint: u64, now: u64, policy: FirstContact)
        requires
            old(self).wf(),
        ensures
            final(self).wf(),
            final(self)@ == recorded(old(self)@, host@, fingerprint, now, policy),
    {
        if self.find(host).is_none() {
            let status = match policy {
                FirstContact::AutoAccept => TrustStatus::Trusted,
                FirstContact::RequireApproval => TrustStatus::Pending,
            };
            self.push_new(TrustRecord { host: host.clone(), fingerprint, first_seen: now, status });
        }
    }

    /// Explicit trust action: pins the host to this fingerprint as trusted,
    /// overwriting whatever was pinned before.
    pub fn approve(&mut self, host: &String, fingerprint: u64, now: u64)
        requires
            old(self).wf(),
        ensures
            final(self).wf(),
            final(self)@ == approved(old(self)@, host@, fingerprint, now),
    {
        match self.find(host) {
            None => {
                self.push_new(
                    TrustRecord {
                        host: host.clone(),
                        fingerprint,
                        first_seen: now,
                        status: TrustStatus::Trusted,
                    },
                );
            },
            Some(i) => {
                let seen = if self.records[i].fingerprint == fingerprint {
                    self.records[i].first_seen
                } else {
                    now
                };
                self.replace_at(
                    i,
                    TrustRecord {
                        host: host.clone(),
                        fingerprint,
                        first_seen: seen,
                        status: TrustStatus::Trusted,
                    },
                );
            },
        }
    }

    /// The trust check of a session: a known certificate passes, a changed
    /// one never does, and a new one passes only under auto-accept. A first
    /// contact is recorded either way.
    pub fn authorize(&mut self, host: &String, fingerprint: u64, now: u64, policy: FirstContact) -> (r:
        Result<(), FailureKind>)
        requires
            old(self).wf(),
        ensures
            final(self).wf(),
            r == authorize_result(old(self)@, host@, fingerprint, policy),
            final(self)@ == authorize_pins(old(self)@, host@, fingerprint, now, policy),
    {
        match self.check(host, fingerprint) {
            TrustVerdict::Known => Ok(()),
            TrustVerdict::Changed => Err(FailureKind::TrustViolation),
            TrustVerdict::New => {
                self.record(host, fingerprint, now, policy);
                match policy {
                    FirstContact::AutoAccept => Ok(()),
                    FirstContact::RequireApproval => Err(FailureKind::TrustViolation),
                }
            },
        }
    }
}

/// Once a first contact has pinned a host, a certificate with any other
/// fingerprint is classified as changed and refused under either policy.
pub proof fn lemma_trust_pinning(
    m: Map<Seq<char>, Pin>,
    host: Seq<char>,
    fp: u64,
    other: u64,
    now: u64,
    first: FirstContact,
    later: FirstContact,
)
    requires
        !m.contains_key(host),
        other != fp,
    ensures
        ({
            let m1 = authorize_pins(m, host, fp, now, first);
            &&& m1.contains_key(host)
            &&& m1[host].fingerprint == fp
            &&& m1[host].status == first_status(first)
            &&& verdict_of(m1, host, other) == TrustVerdict::Changed
            &&& authorize_result(m1, host, other, later) == Err::<(), FailureKind>(
                FailureKind::TrustViolation,
            )
            &&& authorize_pins(m1, host, other, now, later) == m1
        }),
{
}

/// A changed certificate never alters the pins, whatever the policy.
pub proof fn lemma_changed_never_updates(
    m: Map<Seq<char>, Pin>,
    host: Seq<char>,
    fp: u64,
    now: u64,
    policy: FirstContact,
)
    requires
        verdict_of(m, host, fp) == TrustVerdict::Changed,
    ensures
        authorize_pins(m, host, fp, now, policy) == m,
        authorize_result(m, host, fp, policy) == Err::<(), FailureKind>(FailureKind::TrustViolation),
{
}

} // verus!
