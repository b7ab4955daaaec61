//! The decisions of a server's presence connection: how long to wait before
//! reconnecting, what to tell the member, and what each way a connection
//! ends leads to.
use vstd::prelude::*;
use rand::Rng;
use crate::api::{spec_is_definitive_rejection, ApiError};
use crate::text::{append_chars, chars_of, str_eq};
use crate::time::{nanos_of, parse_rfc3339, rfc3339_instant, Instant};

verus! {

/// The wire protocol's version, sent in `hello`.
pub const PROTOCOL_VERSION: u64 = 1;

/// Seconds between heartbeats.
pub const HEARTBEAT_SECS: u64 = 30;

/// Seconds to wait for `hello_ack`.
pub const HELLO_ACK_TIMEOUT_SECS: u64 = 10;

/// Seconds after which the games catalogue is downloaded again: a day.
pub const CATALOG_MAX_AGE_SECS: i64 = 86400;

/// `2^e`.
pub open spec fn pow2(e: nat) -> nat
    decreases e,
{
    if e == 0 {
        1
    } else {
        2 * pow2((e - 1) as nat)
    }
}

/// The wait before reconnect attempt `attempt`, in milliseconds, for this
/// jitter: `2^min(attempt, 6)` seconds plus the jitter, at most a minute.
pub open spec fn spec_backoff_ms(attempt: u32, jitter: u64) -> u64 {
    let e: nat = if attempt < 6 { attempt as nat } else { 6 };
    let d = pow2(e) * 1000 + jitter;
    if d < 60000 {
        d as u64
    } else {
        60000
    }
}

/// The wait before reconnect attempt `attempt`, in milliseconds, given the
/// jitter drawn for it.
pub fn backoff_delay_ms(attempt: u32, jitter: u64) -> (r: u64)
    requires
        jitter < 1000,
    ensures
        r == spec_backoff_ms(attempt, jitter),
{
    let e: u32 = if attempt < 6 { attempt } else { 6 };
    let mut base: u64 = 1;
    let mut k: u32 = 0;
    while k < e
        invariant
            k <= e,
            e <= 6,
            base == pow2(k as nat),
            base <= 64,
        decreases e - k,
    {
        base = base * 2;
        k = k + 1;
        proof {
            assert(pow2(k as nat) == 2 * pow2((k - 1) as nat));
            assert(pow2(6) == 64) by {
                reveal_with_fuel(pow2, 7);
            }
            if k <= 6 {
                lemma_pow2_mono(k as nat, 6);
            }
        }
    }
    let d = base * 1000 + jitter;
    if d < 60000 {
        d
    } else {
        60000
    }
}

proof fn lemma_pow2_mono(a: nat, b: nat)
    requires
        a <= b,
    ensures
        pow2(a) <= pow2(b),
    decreases b,
{
    if a < b {
        lemma_pow2_mono(a, (b - 1) as nat);
    }
}

/// `rand::thread_rng().gen_range(0..1000)`: a jitter below a second.
#[verifier::external_body]
fn jitter_ms() -> (r: u64)
    ensures
        r < 1000,
{
    rand::thread_rng().gen_range(0..1000u64)
}

/// The wait before reconnect attempt `attempt`, in milliseconds, with a
/// random jitter below a second.
pub fn backoff_ms(attempt: u32) -> (r: u64)
    ensures
        exists|j: u64| j < 1000 && r == spec_backoff_ms(attempt, j),
{
    let j = jitter_ms();
    backoff_delay_ms(attempt, j)
}

/// The member-facing detail of a dropped connection: a bare
/// "reconnecting…" with no reason, the reason in brackets otherwise.
pub open spec fn spec_reconnect_detail(reason: Seq<char>) -> Seq<char> {
    if reason.len() == 0 {
        "reconnecting…"@
    } else {
        "reconnecting… ("@ + reason + ")"@
    }
}

/// Builds the user-facing "disconnected" detail from the reason the
/// connection ended.
pub fn reconnect_detail(reason: &str) -> (r: String)
    ensures
        r@ == spec_reconnect_detail(reason@),
{
    if reason.is_empty() {
        "reconnecting…".to_owned()
    } else {
        let mut out = "reconnecting… (".to_owned();
        append_chars(&mut out, chars_of(reason).as_slice());
        append_chars(&mut out, chars_of(")").as_slice());
        out
    }
}

/// How a connection ended.
pub enum ServeEnd {
    /// Unlink requested: stop for good.
    Shutdown,
    /// Could not establish or authenticate: keep growing the backoff.
    ConnectFailed(String),
    /// An established connection dropped: reconnect quickly.
    Dropped(String),
}

/// What the connection task does next.
pub enum Next {
    /// Stop for good, first telling the member this status and detail when
    /// there is one.
    Stop { status: Option<(String, String)>, forget_server: bool },
    /// Report `disconnected` with this detail, wait the backoff of
    /// `backoff_attempt`, and try again with this attempt count.
    Retry { detail: String, attempt: u32, backoff_attempt: u32 },
}

/// After a connection ended: stop on shutdown; otherwise retry, the attempt
/// count growing after a failed connection and starting over after a dropped
/// one, the backoff never below the first step.
pub fn after_serve(attempt: u32, end: ServeEnd) -> (r: Next)
    ensures
        match end {
            ServeEnd::Shutdown => r matches Next::Stop { status: None, forget_server: false },
            ServeEnd::ConnectFailed(e) => r matches Next::Retry { detail, attempt: a, backoff_attempt: b }
                && detail@ == spec_reconnect_detail(e@) && a == (if attempt == u32::MAX { attempt } else { (attempt + 1) as u32 })
                && b == a,
            ServeEnd::Dropped(e) => r matches Next::Retry { detail, attempt: a, backoff_attempt: b }
                && detail@ == spec_reconnect_detail(e@) && a == 0 && b == 1,
        },
{
    match end {
        ServeEnd::Shutdown => Next::Stop { status: None, forget_server: false },
        ServeEnd::ConnectFailed(e) => {
            let a = attempt.saturating_add(1);
            Next::Retry { detail: reconnect_detail(e.as_str()), attempt: a, backoff_attempt: if a >= 1 { a } else { 1 } }
        },
        ServeEnd::Dropped(e) => Next::Retry { detail: reconnect_detail(e.as_str()), attempt: 0, backoff_attempt: 1 },
    }
}

/// After refreshing the access token failed: only a definitive refusal of
/// the refresh token (see `ApiError::is_definitive_rejection`) ends the link,
/// the server then forgotten and the member told to link again. Any other
/// failure, a network one or a transient answer such as a restarting
/// server's, is retried with a growing backoff.
pub fn after_refresh_error(attempt: u32, err: &ApiError) -> (r: Next)
    ensures
        spec_is_definitive_rejection(err) ==> (r matches Next::Stop { status: Some(st), forget_server: true }
            && st.0@ == "logged_out"@ && st.1@ == "session expired, please link again"@),
        !spec_is_definitive_rejection(err) ==> (r matches Next::Retry { detail, attempt: a, backoff_attempt: b }
            && detail@ == "server unreachable: "@ + match err {
                ApiError::Network(e) => e@,
                ApiError::Server { message, .. } => message@,
            } && a == (if attempt == u32::MAX { attempt } else { (attempt + 1) as u32 }) && b == a),
{
    if err.is_definitive_rejection() {
        return Next::Stop {
            status: Some(("logged_out".to_owned(), "session expired, please link again".to_owned())),
            forget_server: true,
        };
    }
    let a = attempt.saturating_add(1);
    let mut detail = "server unreachable: ".to_owned();
    match err {
        ApiError::Network(e) => append_chars(&mut detail, chars_of(e.as_str()).as_slice()),
        ApiError::Server { message, .. } => append_chars(&mut detail, chars_of(message.as_str()).as_slice()),
    }
    Next::Retry { detail, attempt: a, backoff_attempt: a }
}

/// What an incoming message is, by its `type`.
#[derive(Debug, Clone, Copy, PartialEq, Eq)]
pub enum Incoming {
    /// Forwarded to the UI.
    Presence,
    /// Logged as the server's error notice.
    ErrorNotice,
    /// Ignored, for forward compatibility.
    Ignored,
}

/// The kind of an incoming message of this `type`.
pub fn incoming_kind(typ: &str) -> (r: Incoming)
    ensures
        r == (if typ@ == "presence_update"@ {
            Incoming::Presence
        } else if typ@ == "error"@ {
            Incoming::ErrorNotice
        } else {
            Incoming::Ignored
        }),
{
    if str_eq(typ, "presence_update") {
        Incoming::Presence
    } else if str_eq(typ, "error") {
        Incoming::ErrorNotice
    } else {
        Incoming::Ignored
    }
}

/// Whether the first answer completes the handshake.
pub fn is_hello_ack(typ: &str) -> (r: bool)
    ensures
        r == (typ@ == "hello_ack"@),
{
    str_eq(typ, "hello_ack")
}

/// Whether the catalogue must be downloaded again: never synced, a stamp
/// that does not read as a time, or a stamp more than a day old.
pub open spec fn spec_catalog_stale(synced_at: Option<Seq<char>>, now: Instant) -> bool {
    match synced_at {
        None => true,
        Some(s) => match rfc3339_instant(s) {
            None => true,
            Some(t) => nanos_of(now) - nanos_of(t) > CATALOG_MAX_AGE_SECS * 1_000_000_000,
        },
    }
}

/// Whether the catalogue is stale, given the stamp of its last sync (`None`
/// when never synced) and now.
pub fn catalog_stale(synced_at: Option<&str>, now: Instant) -> (r: bool)
    requires
        now.nanos < 2_000_000_000,
    ensures
        r == spec_catalog_stale(
            match synced_at {
                Some(s) => Some(s@),
                None => None,
            },
            now,
        ),
{
    match synced_at {
        None => true,
        Some(s) => match parse_rfc3339(s) {
            None => true,
            Some(t) => {
                let n = (now.secs as i128) * 1_000_000_000 + (now.nanos as i128);
                let m = (t.secs as i128) * 1_000_000_000 + (t.nanos as i128);
                n - m > (CATALOG_MAX_AGE_SECS as i128) * 1_000_000_000
            },
        },
    }
}

/// Whether a queued event may be sent at `now`: it is not held, or the
/// instant it is held until has come, or that instant does not read as one.
pub open spec fn spec_is_released(hold_until: Option<Seq<char>>, now: Instant) -> bool {
    match hold_until {
        None => true,
        Some(s) => match rfc3339_instant(s) {
            None => true,
            Some(t) => nanos_of(t) <= nanos_of(now),
        },
    }
}

/// Whether a queued event may be sent at `now`, given the instant it is held
/// until, if any.
pub fn is_released(hold_until: Option<&str>, now: Instant) -> (r: bool)
    ensures
        r == spec_is_released(
            match hold_until {
                Some(s) => Some(s@),
                None => None,
            },
            now,
        ),
{
    match hold_until {
        None => true,
        Some(s) => match parse_rfc3339(s) {
            None => true,
            Some(t) => {
                let n = (now.secs as i128) * 1_000_000_000 + (now.nanos as i128);
                let m = (t.secs as i128) * 1_000_000_000 + (t.nanos as i128);
                m <= n
            },
        },
    }
}

/// Whether `serde_json` reads this text as a JSON value.
pub uninterp spec fn json_text(text: Seq<char>) -> bool;

/// `serde_json::from_str::<serde_json::Value>(text).is_ok()`: whether the
/// text reads as one JSON value. The contract says only that the answer
/// depends on the text alone; which texts are JSON is left unstated.
#[verifier::external_body]
fn reads_as_json(text: &str) -> (r: bool)
    ensures
        r == json_text(text@),
{
    serde_json::from_str::<serde_json::Value>(text).is_ok()
}

/// The body sent for a queued event: the payload stored with it (a match
/// result stores the whole object it must send), when that reads as JSON.
/// `None` when there is none or it does not read, and the event goes out with
/// the body a session event has always carried, its game and start time.
pub fn queued_body(payload: Option<&str>) -> (r: Option<String>)
    ensures
        match payload {
            Some(p) => if json_text(p@) {
                r matches Some(b) && b@ == p@
            } else {
                r is None
            },
            None => r is None,
        },
{
    match payload {
        Some(p) => if reads_as_json(p) {
            Some(p.to_string())
        } else {
            None
        },
        None => None,
    }
}

/// The body of a queued event: the payload stored with it, or the body a
/// session event has always carried, its game and start time.
#[derive(Debug, Clone, PartialEq)]
pub enum QueuedMessage {
    Stored(String),
    Session { game_slug: String, started_at: String },
}

/// A queued message, as text.
pub enum QueuedMessageView {
    Stored(Seq<char>),
    Session { game_slug: Seq<char>, started_at: Seq<char> },
}

impl View for QueuedMessage {
    type V = QueuedMessageView;

    open spec fn view(&self) -> QueuedMessageView {
        match self {
            QueuedMessage::Stored(b) => QueuedMessageView::Stored(b@),
            QueuedMessage::Session { game_slug, started_at } => QueuedMessageView::Session {
                game_slug: game_slug@,
                started_at: started_at@,
            },
        }
    }
}

/// What is sent for a queued event of this game, queued at `ts`: its stored
/// payload when it has one that reads as JSON, else its game and start time.
pub fn queued_message(payload: Option<&str>, game_slug: &str, ts: &str) -> (r: QueuedMessage)
    ensures
        r@ == match payload {
            Some(p) => if json_text(p@) {
                QueuedMessageView::Stored(p@)
            } else {
                QueuedMessageView::Session { game_slug: game_slug@, started_at: ts@ }
            },
            None => QueuedMessageView::Session { game_slug: game_slug@, started_at: ts@ },
        },
{
    match queued_body(payload) {
        Some(b) => QueuedMessage::Stored(b),
        None => QueuedMessage::Session { game_slug: game_slug.to_string(), started_at: ts.to_string() },
    }
}

/// What draining the queue does once the send of one of its events has been
/// answered.
#[derive(Debug, Clone, Copy, PartialEq, Eq)]
pub enum DrainNext {
    /// Sent: delete it, then send the event at this position.
    DeleteThenSend(usize),
    /// Sent, and it was the last: delete it, the queue is drained.
    DeleteThenDone,
    /// Not sent: keep it and every event after it, and drop the connection.
    Stop,
}

/// After the send of event `index` of `count` queued ones: an event is
/// deleted only once sent, the events go out in order, and the first failed
/// send stops the drain with that event still queued.
pub fn drain_next(index: usize, count: usize, sent: bool) -> (r: DrainNext)
    requires
        index < count,
    ensures
        !sent ==> r == DrainNext::Stop,
        sent && index + 1 < count ==> r == DrainNext::DeleteThenSend((index + 1) as usize),
        sent && index + 1 == count ==> r == DrainNext::DeleteThenDone,
{
    if !sent {
        DrainNext::Stop
    } else if index + 1 < count {
        DrainNext::DeleteThenSend(index + 1)
    } else {
        DrainNext::DeleteThenDone
    }
}

// ---------------------------------------------------------------------------
// Laws

/// The wait before a reconnect is never under a second nor over a minute,
/// whatever the attempt and the jitter drawn.
pub proof fn law_backoff_is_bounded(attempt: u32, jitter: u64)
    requires
        jitter < 1000,
    ensures
        1000 <= spec_backoff_ms(attempt, jitter) <= 60000,
{
    let e: nat = if attempt < 6 { attempt as nat } else { 6 };
    lemma_pow2_mono(0, e);
    lemma_pow2_mono(e, 6);
    assert(pow2(6) == 64) by {
        reveal_with_fuel(pow2, 7);
    }
}

/// For the same jitter, a later attempt never waits less.
pub proof fn law_backoff_never_shrinks(a: u32, b: u32, jitter: u64)
    requires
        a <= b,
        jitter < 1000,
    ensures
        spec_backoff_ms(a, jitter) <= spec_backoff_ms(b, jitter),
{
    let ea: nat = if a < 6 { a as nat } else { 6 };
    let eb: nat = if b < 6 { b as nat } else { 6 };
    lemma_pow2_mono(ea, eb);
}

} // verus!
