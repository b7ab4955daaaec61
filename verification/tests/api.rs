use kfire_client::api::{platform, server_error, ApiClient, ApiError};

#[test]
fn new_trims_whitespace_and_trailing_slash() {
    let c = ApiClient::new("  https://kfire.example.org/  ");
    assert_eq!(c.base_url, "https://kfire.example.org");
    assert_eq!(c.ws_url(), "wss://kfire.example.org/ws");
}

#[test]
fn ws_url_has_no_space_with_trailing_space_input() {
    let c = ApiClient::new("https://kfire.example.org ");
    assert!(!c.ws_url().contains(' '), "ws_url must not contain a space");
}

#[test]
fn a_plain_http_server_gets_a_plain_websocket() {
    assert_eq!(ApiClient::new("http://localhost:8080").ws_url(), "ws://localhost:8080/ws");
    assert_eq!(ApiClient::new("kfire.example.org").ws_url(), "wss://kfire.example.org/ws");
    assert_eq!(ApiClient::new("https://a.b//").base_url, "https://a.b");
}

#[test]
fn a_proxy_502_during_a_redeploy_is_not_a_rejection() {
    let e = server_error(502, None);
    assert!(!e.is_definitive_rejection(), "a 502 must not unlink the server: {e:?}");
    assert_eq!(e.code(), "unknown");
}

#[test]
fn a_server_500_is_not_a_rejection() {
    let e = server_error(500, Some(("internal".into(), "boom".into())));
    assert!(!e.is_definitive_rejection(), "{e:?}");
}

#[test]
fn rate_limiting_is_not_a_rejection() {
    let e = server_error(429, None);
    assert!(!e.is_definitive_rejection(), "{e:?}");
}

#[test]
fn a_cloudflare_403_page_is_not_a_ban() {
    let e = server_error(403, None);
    assert!(!e.is_definitive_rejection(), "{e:?}");
}

#[test]
fn an_invalid_refresh_token_is_a_rejection() {
    let e = server_error(401, Some(("invalid_refresh_token".into(), "refresh token is not valid".into())));
    assert!(e.is_definitive_rejection(), "{e:?}");
}

#[test]
fn a_ban_is_a_rejection() {
    let e = server_error(403, Some(("banned".into(), "this account is banned".into())));
    assert!(e.is_definitive_rejection(), "{e:?}");
}

#[test]
fn errors_have_codes_and_messages() {
    let n = ApiError::Network("timed out".into());
    assert_eq!(n.code(), "network");
    assert_eq!(n.message(), "network error: timed out");
    let s = server_error(400, Some(("bad".into(), "Bad request".into())));
    assert_eq!(s.code(), "bad");
    assert_eq!(s.message(), "Bad request");
    assert_eq!(server_error(500, None).message(), "unexpected server error");
}

#[test]
fn the_platform_is_named_for_the_server() {
    assert_eq!(platform("windows"), "windows");
    assert_eq!(platform("macos"), "macos");
    assert_eq!(platform("linux"), "linux");
    assert_eq!(platform("freebsd"), "linux");
}
