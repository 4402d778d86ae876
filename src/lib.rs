//! Secure peer-to-peer file transfer engine: trust pinning, a resumable
//! content-addressed chunk cache, the per-transfer session machine and the
//! lifecycle of a listening server.
pub mod cache;
pub mod error;
pub mod hash;
pub mod keys;
pub mod manifest;
pub mod server;
pub mod session;
pub mod trust;

pub use cache::{bytes_equal, CacheEntry, CacheError, ResumeCache};
pub use error::FailureKind;
pub use hash::{combine, digest};
pub use manifest::{assemble, copy_range, round_trip, split_chunks, Manifest};
pub use server::{Admission, DrainStep, Lifecycle, ServerHandle};
pub use session::{
    backoff_delay, chunk_count_of, window_allows, ChunkOutcome, Role, Session, SessionConfig,
    SendWindow, SessionOutcome, SessionState,
};
pub use trust::{FirstContact, Pin, TrustRecord, TrustStatus, TrustStore, TrustVerdict};
