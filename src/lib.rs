//! A file-backed to-do list: the task data model, its text encoding, and the
//! command logic that turns one invocation into at most one rewrite of the file.
//!
//! Separate invocations are not coordinated: two processes that rewrite the
//! same file at once can lose an update.
use vstd::prelude::*;

pub mod model;
pub mod text;
pub mod scalar;
pub mod codec;
pub mod command;

verus! {

/// Relies on `SystemTime::elapsed` on `UNIX_EPOCH`: the current time in whole
/// seconds since the Unix epoch, or 0 where the system clock reads earlier
/// than the epoch. Nothing is promised of the value.
#[verifier::external_body]
pub fn timestamp() -> u64 {
    match std::time::UNIX_EPOCH.elapsed() {
        Ok(d) => d.as_secs(),
        Err(_) => 0,
    }
}

} // verus!
