//! The rows the local database keeps, as plain values.
use vstd::prelude::*;

verus! {

/// One linked KFIRE server.
#[derive(Debug, Clone)]
pub struct ServerRow {
    pub id: String,
    pub url: String,
    pub refresh_token: String,
    pub org_name: String,
    /// `inherit`, `online`, `invisible` or `offline`.
    pub status_override: String,
}

/// One catalogue entry, as cached from the server's games list.
#[derive(Debug, Clone)]
pub struct CachedGame {
    pub slug: String,
    pub name: String,
    pub executable_names: Vec<String>,
}

/// A presence event queued while offline, for one server.
#[derive(Debug, Clone)]
pub struct PendingEvent {
    pub id: i64,
    /// `game_started`, `game_stopped` or `match_result`.
    pub event_type: String,
    pub game_slug: String,
    /// RFC 3339.
    pub ts: String,
    pub payload: Option<String>,
}

} // verus!
