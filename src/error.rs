use vstd::prelude::*;

verus! {

/// Why a session ended in a failed state.
#[derive(Clone, Copy, Debug, PartialEq, Eq, Structural)]
pub enum FailureKind {
    /// Transport failure; transient and retried with backoff.
    NetworkError,
    /// Peer certificate not trusted; needs an explicit trust action.
    TrustViolation,
    /// Negotiation mismatch or malformed message; never retried.
    ProtocolViolation,
    /// A chunk or the whole file did not match its declared digest.
    IntegrityMismatch,
    /// A timer ran out; retried like a network error.
    Timeout,
    /// Stopped by the user or the operator; progress is kept.
    Cancelled,
    /// The cache could not take a verified chunk for lack of room; progress
    /// is kept.
    StorageFull,
}

/// Whether a failure of this kind leaves progress that a later session resumes.
pub open spec fn resumable_spec(kind: FailureKind) -> bool {
    match kind {
        FailureKind::TrustViolation => false,
        FailureKind::ProtocolViolation => false,
        _ => true,
    }
}

/// Whether a failure of this kind is worth retrying with backoff.
pub open spec fn transient_spec(kind: FailureKind) -> bool {
    kind == FailureKind::NetworkError || kind == FailureKind::Timeout
}

impl FailureKind {
    /// Whether the partial progress of a session that failed this way is kept.
    pub fn is_resumable(&self) -> (r: bool)
        ensures
            r == resumable_spec(*self),
    {
        match self {
            FailureKind::TrustViolation => false,
            FailureKind::ProtocolViolation => false,
            _ => true,
        }
    }

    /// Whether this failure is transient and is retried with backoff.
    pub fn is_transient(&self) -> (r: bool)
        ensures
            r == transient_spec(*self),
    {
        match self {
            FailureKind::NetworkError => true,
            FailureKind::Timeout => true,
            _ => false,
        }
    }
}

} // verus!
