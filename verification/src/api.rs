//! The control-plane client's rules: the errors a server gives and which of
//! them end a link, and the URLs derived from a server's address.
use vstd::prelude::*;
use crate::text::{append_chars, chars_of, str_eq, trim, trimmed};

verus! {

/// What a call to the server can fail with.
#[derive(Debug)]
pub enum ApiError {
    Network(String),
    /// The server answered with a non-2xx `status`. `code` is its JSON error
    /// code, or `unknown` when the body was not one.
    Server { status: u16, code: String, message: String },
}

/// The machine-readable code of an error.
pub open spec fn spec_code(e: &ApiError) -> Seq<char> {
    match e {
        ApiError::Network(_) => "network"@,
        ApiError::Server { code, .. } => code@,
    }
}

/// Whether the server definitively refused the refresh token: a 401 with
/// `invalid_refresh_token`, or a 403 with `banned`.
pub open spec fn spec_is_definitive_rejection(e: &ApiError) -> bool {
    match e {
        ApiError::Server { status, code, .. } => (*status == 401 && code@ == "invalid_refresh_token"@) || (
        *status == 403 && code@ == "banned"@),
        ApiError::Network(_) => false,
    }
}

impl ApiError {
    /// Machine-readable error code (for the UI to special-case).
    pub fn code(&self) -> (r: &str)
        ensures
            r@ == spec_code(self),
    {
        match self {
            ApiError::Network(_) => "network",
            ApiError::Server { code, .. } => code.as_str(),
        }
    }

    /// True when the server has definitively refused this refresh token, so
    /// the link is dead. Anything else is transient and retried.
    pub fn is_definitive_rejection(&self) -> (r: bool)
        ensures
            r == spec_is_definitive_rejection(self),
    {
        match self {
            ApiError::Server { status, code, .. } => (*status == 401 && str_eq(code.as_str(), "invalid_refresh_token"))
                || (*status == 403 && str_eq(code.as_str(), "banned")),
            ApiError::Network(_) => false,
        }
    }

    /// What the member reads: `network error: …` for a network failure, the
    /// server's message otherwise.
    pub fn message(&self) -> (r: String)
        ensures
            r@ == match self {
                ApiError::Network(e) => "network error: "@ + e@,
                ApiError::Server { message, .. } => message@,
            },
    {
        match self {
            ApiError::Network(e) => {
                let mut out = "network error: ".to_owned();
                append_chars(&mut out, chars_of(e.as_str()).as_slice());
                out
            },
            ApiError::Server { message, .. } => message.clone(),
        }
    }
}

/// The error for a non-2xx answer, given the `(code, message)` its body held
/// when it was one: `unknown` and a generic message otherwise.
pub fn server_error(status: u16, body: Option<(String, String)>) -> (r: ApiError)
    ensures
        match body {
            Some(b) => r matches ApiError::Server { status: s, code, message } && s == status && code@ == b.0@
                && message@ == b.1@,
            None => r matches ApiError::Server { status: s, code, message } && s == status && code@ == "unknown"@
                && message@ == "unexpected server error"@,
        },
{
    match body {
        Some((code, message)) => ApiError::Server { status, code, message },
        None => ApiError::Server {
            status,
            code: "unknown".to_owned(),
            message: "unexpected server error".to_owned(),
        },
    }
}

/// The text with every trailing `/` removed.
pub open spec fn trim_end_slashes(s: Seq<char>) -> Seq<char>
    decreases s.len(),
{
    if s.len() > 0 && s.last() == '/' {
        trim_end_slashes(s.drop_last())
    } else {
        s
    }
}

/// A server's origin as it is kept: surrounding whitespace removed first,
/// then every trailing `/`.
pub open spec fn spec_base_url(s: Seq<char>) -> Seq<char> {
    trim_end_slashes(trim(s))
}

/// The WebSocket URL for a server origin: `https://` becomes `wss://`,
/// `http://` becomes `ws://`, anything else is taken as a host for `wss://`;
/// then `/ws`.
pub open spec fn spec_ws_url(base: Seq<char>) -> Seq<char> {
    let host = if base.len() >= 8 && base.take(8) == "https://"@ {
        "wss://"@ + base.skip(8)
    } else if base.len() >= 7 && base.take(7) == "http://"@ {
        "ws://"@ + base.skip(7)
    } else {
        "wss://"@ + base
    };
    host + "/ws"@
}

/// The server's address, for the REST and WebSocket URLs.
pub struct ApiClient {
    pub base_url: String,
}

impl ApiClient {
    /// `base_url` is the server origin, e.g. `https://kfire.example.org`.
    /// Whitespace is trimmed before the trailing slashes, so that a pasted
    /// address never leaks a space into the WebSocket URL.
    pub fn new(base_url: &str) -> (c: Self)
        ensures
            c.base_url@ == spec_base_url(base_url@),
    {
        let t = trimmed(chars_of(base_url).as_slice());
        let mut end = t.len();
        proof {
            assert(t@.take(t@.len() as int) =~= t@);
        }
        while end > 0 && t[end - 1] == '/'
            invariant
                end <= t@.len(),
                trim_end_slashes(t@) == trim_end_slashes(t@.take(end as int)),
            decreases end,
        {
            proof {
                assert(t@.take(end as int).drop_last() =~= t@.take(end - 1));
            }
            end = end - 1;
        }
        proof {
            assert(t@.take(end as int) =~= t@.subrange(0, end as int));
        }
        let mut s = String::new();
        append_chars(&mut s, &t.as_slice()[0..end]);
        ApiClient { base_url: s }
    }

    /// The WebSocket URL of the server.
    pub fn ws_url(&self) -> (r: String)
        ensures
            r@ == spec_ws_url(self.base_url@),
    {
        let b = chars_of(self.base_url.as_str());
        let https = chars_of("https://");
        let http = chars_of("http://");
        let mut out = String::new();
        if b.len() >= 8 && crate::text::chars_eq(&b.as_slice()[0..8], https.as_slice()) {
            proof {
                assert(b@.subrange(0, 8) =~= b@.take(8));
                assert(b@.subrange(8, b@.len() as int) =~= b@.skip(8));
            }
            append_chars(&mut out, chars_of("wss://").as_slice());
            append_chars(&mut out, &b.as_slice()[8..b.len()]);
        } else if b.len() >= 7 && crate::text::chars_eq(&b.as_slice()[0..7], http.as_slice()) {
            proof {
                assert(b@.subrange(0, 7) =~= b@.take(7));
                assert(b@.subrange(7, b@.len() as int) =~= b@.skip(7));
                if b@.len() >= 8 {
                    assert(b@.take(8) != "https://"@) by {
                        if b@.take(8) == "https://"@ {
                            assert(b@.subrange(0, 8) =~= b@.take(8));
                        }
                    }
                }
            }
            append_chars(&mut out, chars_of("ws://").as_slice());
            append_chars(&mut out, &b.as_slice()[7..b.len()]);
        } else {
            proof {
                if b@.len() >= 8 {
                    assert(b@.subrange(0, 8) =~= b@.take(8));
                }
                if b@.len() >= 7 {
                    assert(b@.subrange(0, 7) =~= b@.take(7));
                }
            }
            append_chars(&mut out, chars_of("wss://").as_slice());
            append_chars(&mut out, b.as_slice());
        }
        append_chars(&mut out, chars_of("/ws").as_slice());
        out
    }
}

/// The platform name sent with a device, from `std::env::consts::OS`.
pub fn platform(os: &str) -> (r: &'static str)
    ensures
        r@ == (if os@ == "windows"@ {
            "windows"@
        } else if os@ == "macos"@ {
            "macos"@
        } else {
            "linux"@
        }),
{
    if str_eq(os, "windows") {
        "windows"
    } else if str_eq(os, "macos") {
        "macos"
    } else {
        "linux"
    }
}

} // verus!
