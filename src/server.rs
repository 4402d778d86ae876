use vstd::prelude::*;

verus! {

/// Where a listening server stands.
#[derive(Clone, Copy, Debug, PartialEq, Eq, Structural)]
pub enum Lifecycle {
    Stopped,
    Listening,
    Draining,
}

/// What became of an incoming connection.
#[derive(Clone, Copy, Debug, PartialEq, Eq, Structural)]
pub enum Admission {
    /// A responder session runs for it now.
    Started,
    /// Every session slot is busy: it waits in the queue.
    Queued,
    /// Not listening, a known id, or the queue is full: a transient refusal.
    Rejected,
}

/// Progress of a drain.
#[derive(Debug, PartialEq, Eq)]
pub enum DrainStep {
    /// Sessions are still finishing and the timeout has not passed.
    Waiting,
    /// Every session reached a terminal state by itself; the server stopped.
    Drained,
    /// The timeout passed: these sessions are to be cancelled, and the
    /// server stopped.
    Forced(Vec<u64>),
}

/// A listening endpoint with admission control over its sessions.
pub struct ServerHandle {
    endpoint: String,
    state: Lifecycle,
    active: Vec<u64>,
    queued: Vec<u64>,
    max_active: usize,
    max_queued: usize,
}

/// Whether a sequence holds no value twice.
pub open spec fn distinct(s: Seq<u64>) -> bool {
    forall|i: int, j: int| 0 <= i < j < s.len() ==> s[i] != s[j]
}

impl ServerHandle {
    pub closed spec fn endpoint_spec(&self) -> Seq<char> {
        self.endpoint@
    }

    /// The endpoint the server listens on.
    pub fn endpoint(&self) -> (r: &String)
        ensures
            r@ == self.endpoint_spec(),
    {
        &self.endpoint
    }

    pub closed spec fn state_spec(&self) -> Lifecycle {
        self.state
    }

    /// Ids of the running sessions, in the order they started.
    pub closed spec fn active_spec(&self) -> Seq<u64> {
        self.active@
    }

    /// Ids of the waiting connections, oldest first.
    pub closed spec fn queued_spec(&self) -> Seq<u64> {
        self.queued@
    }

    pub closed spec fn max_active_spec(&self) -> nat {
        self.max_active as nat
    }

    pub closed spec fn max_queued_spec(&self) -> nat {
        self.max_queued as nat
    }

    /// Bounds hold, ids are unique, a stopped server has no sessions, a
    /// draining one has no queue and still some session running, and the queue is used only while every
    /// session slot is busy.
    pub open spec fn wf(&self) -> bool {
        &&& self.active_spec().len() <= self.max_active_spec()
        &&& self.queued_spec().len() <= self.max_queued_spec()
        &&& distinct(self.active_spec() + self.queued_spec())
        &&& self.state_spec() == Lifecycle::Stopped ==> self.active_spec().len() == 0
            && self.queued_spec().len() == 0
        &&& self.state_spec() == Lifecycle::Draining ==> self.queued_spec().len() == 0
            && self.active_spec().len() > 0
        &&& self.queued_spec().len() > 0 ==> self.active_spec().len() == self.max_active_spec()
    }

    /// Start listening on an endpoint with at most `max_active` sessions at
    /// a time and at most `max_queued` connections waiting.
    pub fn open(endpoint: String, max_active: usize, max_queued: usize) -> (r: ServerHandle)
        ensures
            r.wf(),
            r.endpoint_spec() == endpoint@,
            r.state_spec() == Lifecycle::Listening,
            r.active_spec() == Seq::<u64>::empty(),
            r.queued_spec() == Seq::<u64>::empty(),
            r.max_active_spec() == max_active,
            r.max_queued_spec() == max_queued,
    {
        ServerHandle {
            endpoint,
            state: Lifecycle::Listening,
            active: Vec::new(),
            queued: Vec::new(),
            max_active,
            max_queued,
        }
    }

    pub fn state(&self) -> (r: Lifecycle)
        ensures
            r == self.state_spec(),
    {
        self.state
    }

    /// Ids of the running sessions.
    pub fn active_ids(&self) -> (r: Vec<u64>)
        ensures
            r@ == self.active_spec(),
    {
        self.active.clone()
    }

    /// Ids of the waiting connections.
    pub fn queued_ids(&self) -> (r: Vec<u64>)
        ensures
            r@ == self.queued_spec(),
    {
        self.queued.clone()
    }

    fn position(v: &Vec<u64>, id: u64) -> (r: Option<usize>)
        ensures
            match r {
                Some(i) => i < v@.len() && v@[i as int] == id,
                None => !v@.contains(id),
            },
    {
        let mut i: usize = 0;
        while i < v.len()
            invariant
                i <= v@.len(),
                forall|j: int| 0 <= j < i ==> v@[j] != id,
            decreases v@.len() - i,
        {
            if v[i] == id {
                return Some(i);
            }
            i = i + 1;
        }
        None
    }

    /// Admission control for a new connection: it starts a session while a
    /// slot is free, waits while the queue has room, and is refused
    /// otherwise, as it is when the server is not listening or the id is
    /// already known.
    pub fn accept(&mut self, id: u64) -> (r: Admission)
        requires
            old(self).wf(),
        ensures
            final(self).wf(),
            final(self).endpoint_spec() == old(self).endpoint_spec(),
            final(self).state_spec() == old(self).state_spec(),
            final(self).max_active_spec() == old(self).max_active_spec(),
            final(self).max_queued_spec() == old(self).max_queued_spec(),
            ({
                let known = (old(self).active_spec() + old(self).queued_spec()).contains(id);
                let listening = old(self).state_spec() == Lifecycle::Listening;
                &&& (!listening || known) ==> r == Admission::Rejected
                &&& listening && !known && old(self).active_spec().len()
                    < old(self).max_active_spec() ==> r == Admission::Started
                &&& listening && !known && old(self).active_spec().len()
                    >= old(self).max_active_spec() && old(self).queued_spec().len()
                    < old(self).max_queued_spec() ==> r == Admission::Queued
                &&& listening && !known && old(self).active_spec().len()
                    >= old(self).max_active_spec() && old(self).queued_spec().len()
                    >= old(self).max_queued_spec() ==> r == Admission::Rejected
            }),
            r == Admission::Started ==> final(self).active_spec() == old(self).active_spec().push(id)
                && final(self).queued_spec() == old(self).queued_spec(),
            r == Admission::Queued ==> final(self).queued_spec() == old(self).queued_spec().push(id)
                && final(self).active_spec() == old(self).active_spec(),
            r == Admission::Rejected ==> final(self).active_spec() == old(self).active_spec()
                && final(self).queued_spec() == old(self).queued_spec(),
    {
        let ghost both = self.active@ + self.queued@;
        if self.state != Lifecycle::Listening {
            return Admission::Rejected;
        }
        let in_active = Self::position(&self.active, id);
        let in_queue = Self::position(&self.queued, id);
        proof {
            if both.contains(id) {
                let k = choose|k: int| 0 <= k < both.len() && both[k] == id;
                if k < self.active@.len() {
                    assert(self.active@[k] == id);
                } else {
                    assert(self.queued@[k - self.active@.len()] == id);
                }
            }
            if in_active.is_some() {
                let k = in_active.unwrap() as int;
                assert(both[k] == id);
            }
            if in_queue.is_some() {
                let k = in_queue.unwrap() as int;
                assert(both[self.active@.len() + k] == id);
            }
        }
        if in_active.is_some() || in_queue.is_some() {
            return Admission::Rejected;
        }
        if self.active.len() < self.max_active {
            self.active.push(id);
            proof {
                let nb = self.active@ + self.queued@;
                assert(self.queued@.len() == 0);
                assert(nb =~= both.push(id));
            }
            Admission::Started
        } else if self.queued.len() < self.max_queued {
            self.queued.push(id);
            proof {
                let nb = self.active@ + self.queued@;
                assert(nb =~= both.push(id));
            }
            Admission::Queued
        } else {
            Admission::Rejected
        }
    }

    /// A session reached a terminal state. Its slot goes to the oldest
    /// waiting connection, whose id is returned; a draining server whose
    /// last session ended stops.
    pub fn finished(&mut self, id: u64) -> (r: Option<u64>)
        requires
            old(self).wf(),
        ensures
            final(self).wf(),
            final(self).endpoint_spec() == old(self).endpoint_spec(),
            final(self).max_active_spec() == old(self).max_active_spec(),
            final(self).max_queued_spec() == old(self).max_queued_spec(),
            !old(self).active_spec().contains(id) ==> r is None && final(self).active_spec()
                == old(self).active_spec() && final(self).queued_spec() == old(self).queued_spec()
                && final(self).state_spec() == old(self).state_spec(),
            old(self).active_spec().contains(id) ==> {
                let i = old(self).active_spec().index_of(id);
                let rest = old(self).active_spec().remove(i);
                &&& old(self).queued_spec().len() == 0 ==> r is None && final(self).active_spec()
                    == rest && final(self).queued_spec() == old(self).queued_spec()
                &&& old(self).queued_spec().len() > 0 ==> r == Some(old(self).queued_spec()[0])
                    && final(self).active_spec() == rest.push(old(self).queued_spec()[0])
                    && final(self).queued_spec() == old(self).queued_spec().drop_first()
            },
            final(self).state_spec() == if old(self).state_spec() == Lifecycle::Draining
                && final(self).active_spec().len() == 0 {
                Lifecycle::Stopped
            } else {
                old(self).state_spec()
            },
    {
        let ghost a0 = self.active@;
        let ghost q0 = self.queued@;
        match Self::position(&self.active, id) {
            None => None,
            Some(i) => {
                proof {
                    assert(a0.contains(id));
                    assert forall|k: int| 0 <= k < a0.len() && a0[k] == id implies k == i by {
                        let both = a0 + q0;
                        if k != i {
                            if k < i {
                                assert(both[k] != both[i as int]);
                            } else {
                                assert(both[i as int] != both[k]);
                            }
                        }
                    }
                    a0.index_of_first_ensures(id);
                }
                self.active.remove(i);
                let ghost rest = self.active@;
                let mut promoted: Option<u64> = None;
                if self.queued.len() > 0 {
                    let next = self.queued.remove(0);
                    self.active.push(next);
                    promoted = Some(next);
                }
                if self.state == Lifecycle::Draining && self.active.len() == 0 {
                    self.state = Lifecycle::Stopped;
                }
                proof {
                    let both0 = a0 + q0;
                    let nb = self.active@ + self.queued@;
                    assert forall|x: int, y: int| 0 <= x < y < nb.len() implies nb[x] != nb[y] by {
                        let mx = if x < rest.len() {
                            if x < i { x } else { x + 1 }
                        } else if q0.len() > 0 && x == rest.len() {
                            a0.len() as int
                        } else {
                            x + 1
                        };
                        let my = if y < rest.len() {
                            if y < i { y } else { y + 1 }
                        } else if q0.len() > 0 && y == rest.len() {
                            a0.len() as int
                        } else {
                            y + 1
                        };
                        assert(nb[x] == both0[mx]);
                        assert(nb[y] == both0[my]);
                        assert(mx != my);
                        if mx < my {
                            assert(both0[mx] != both0[my]);
                        } else {
                            assert(both0[my] != both0[mx]);
                        }
                    }
                }
                promoted
            },
        }
    }

    /// Stop accepting: a listening server starts draining, refusing the
    /// connections still waiting (their ids are returned), and stops at once
    /// when no session is running. In any other state nothing changes.
    pub fn close(&mut self) -> (r: Vec<u64>)
        requires
            old(self).wf(),
        ensures
            final(self).wf(),
            final(self).endpoint_spec() == old(self).endpoint_spec(),
            final(self).max_active_spec() == old(self).max_active_spec(),
            final(self).max_queued_spec() == old(self).max_queued_spec(),
            final(self).active_spec() == old(self).active_spec(),
            old(self).state_spec() != Lifecycle::Listening ==> r@ == Seq::<u64>::empty()
                && final(self).state_spec() == old(self).state_spec() && final(self).queued_spec()
                == old(self).queued_spec(),
            old(self).state_spec() == Lifecycle::Listening ==> r@ == old(self).queued_spec()
                && final(self).queued_spec() == Seq::<u64>::empty() && final(self).state_spec() == (
            if old(self).active_spec().len() == 0 {
                Lifecycle::Stopped
            } else {
                Lifecycle::Draining
            }),
    {
        if self.state != Lifecycle::Listening {
            return Vec::new();
        }
        let mut refused: Vec<u64> = Vec::new();
        std::mem::swap(&mut refused, &mut self.queued);
        if self.active.len() == 0 {
            self.state = Lifecycle::Stopped;
        } else {
            self.state = Lifecycle::Draining;
        }
        proof {
            assert(self.active@ + self.queued@ =~= self.active@);
            let both = old(self).active@ + old(self).queued@;
            assert forall|x: int, y: int| 0 <= x < y < self.active@.len() implies self.active@[x]
                != self.active@[y] by {
                assert(both[x] != both[y]);
            }
        }
        refused
    }

    /// One look at a drain in progress. A stopped server is drained. A
    /// draining server past its timeout stops and hands back the sessions
    /// still running, to be cancelled; their progress stays resumable.
    pub fn drain_tick(&mut self, elapsed: u64, timeout: u64) -> (r: DrainStep)
        requires
            old(self).wf(),
        ensures
            final(self).wf(),
            final(self).endpoint_spec() == old(self).endpoint_spec(),
            final(self).max_active_spec() == old(self).max_active_spec(),
            final(self).max_queued_spec() == old(self).max_queued_spec(),
            old(self).state_spec() == Lifecycle::Stopped ==> r == DrainStep::Drained
                && *final(self) == *old(self),
            old(self).state_spec() == Lifecycle::Listening ==> r == DrainStep::Waiting
                && *final(self) == *old(self),
            old(self).state_spec() == Lifecycle::Draining && elapsed < timeout ==> r
                == DrainStep::Waiting && *final(self) == *old(self),
            old(self).state_spec() == Lifecycle::Draining && elapsed >= timeout ==> r is Forced
                && r->Forced_0@ == old(self).active_spec() && final(self).state_spec()
                == Lifecycle::Stopped && final(self).active_spec() == Seq::<u64>::empty()
                && final(self).queued_spec() == Seq::<u64>::empty(),
    {
        match self.state {
            Lifecycle::Stopped => DrainStep::Drained,
            Lifecycle::Listening => DrainStep::Waiting,
            Lifecycle::Draining => {
                if elapsed < timeout {
                    DrainStep::Waiting
                } else {
                    let mut forced: Vec<u64> = Vec::new();
                    std::mem::swap(&mut forced, &mut self.active);
                    self.state = Lifecycle::Stopped;
                    proof {
                        assert(self.active@ + self.queued@ =~= Seq::<u64>::empty());
                    }
                    DrainStep::Forced(forced)
                }
            },
        }
    }
}

/// A server reports stopped only with no session running and none waiting:
/// every session it started has reached a terminal state or was handed
/// back to be cancelled.
pub proof fn lemma_stopped_is_empty(s: ServerHandle)
    requires
        s.wf(),
        s.state_spec() == Lifecycle::Stopped,
    ensures
        s.active_spec().len() == 0,
        s.queued_spec().len() == 0,
{
}

} // verus!
