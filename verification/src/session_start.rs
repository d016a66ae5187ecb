//! Whether the manual was already put into an agent's context.
use vstd::prelude::*;
use crate::paths::{join_path, joined_path};

verus! {

/// How far ahead of the server's own start a delivery may sit and still belong to the same
/// session. The hook and the server are launched together in an order neither of them controls,
/// so the marker can land on either side of the server coming up.
pub const TOLERANCE_MS: u64 = 600_000;

/// The file a delivery is recorded in.
pub const MARKER_FILE: &'static str = "session-start.json";

/// Where a delivery is recorded, given the directory the project's caches are kept in.
pub fn marker_path(cache_directory: &str) -> (r: String)
    ensures
        r@ == joined_path(cache_directory@, MARKER_FILE@),
{
    join_path(cache_directory, MARKER_FILE)
}

/// Whether a delivery recorded by the hook is recent enough to belong to the session the server
/// starting at `server_started_ms` is serving. A marker left behind by an earlier session, and a
/// project whose client never runs the hook at all, both answer false.
pub fn delivered_for_session(delivered_at_ms: Option<u64>, server_started_ms: u64) -> (b: bool)
    ensures
        b == (delivered_at_ms matches Some(delivered) && delivered + TOLERANCE_MS
            >= server_started_ms),
{
    match delivered_at_ms {
        Some(delivered) => delivered.saturating_add(TOLERANCE_MS) >= server_started_ms,
        None => false,
    }
}

} // verus!
