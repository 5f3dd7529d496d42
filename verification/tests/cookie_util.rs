use zbar::cookie_util::{chrome_like_headers, normalize_cookie_secret};

#[test]
fn bare_cookie_passthrough() {
    assert_eq!(
        normalize_cookie_secret("sessionid=abc; uid=42"),
        "sessionid=abc; uid=42"
    );
    assert_eq!(
        normalize_cookie_secret("  Cookie: sessionid=abc; uid=42  "),
        "sessionid=abc; uid=42"
    );
    assert_eq!(
        normalize_cookie_secret("'\"sessionid=abc\"'"),
        "sessionid=abc"
    );
}

#[test]
fn curl_single_h_cookie() {
    let cmd = "curl 'https://qoder.com/api/v2/me/usages/big_model_credits' \
         -H 'User-Agent: Mozilla/5.0' \
         -H 'Cookie: sessionid=abc; uid=42' \
         -H 'Accept: application/json'";
    assert_eq!(normalize_cookie_secret(cmd), "sessionid=abc; uid=42");
}

#[test]
fn curl_multiple_h_cookies_joined() {
    let cmd = "curl 'https://longcat.chat/api/v1/user-current' \\\n \
         -H \"Cookie: sessionid=old\" \\\n \
         -H 'Cookie: sessionid=new; uid=42' \\\n \
         -H 'Referer: https://longcat.chat/platform/usage'";
    assert_eq!(normalize_cookie_secret(cmd), "sessionid=new; uid=42");
}

#[test]
fn curl_cookie_flag_and_bash_ansi_quoting() {
    assert_eq!(
        normalize_cookie_secret("curl 'https://x' --cookie 'a=1; b=2'"),
        "a=1; b=2"
    );
    assert_eq!(normalize_cookie_secret("curl 'https://x' -b 'a=1'"), "a=1");
    assert_eq!(
        normalize_cookie_secret("curl 'https://x' -H $'Cookie: a=1'"),
        "a=1"
    );
    assert_eq!(
        normalize_cookie_secret("curl 'https://x' --cookie 'Cookie: a=1'"),
        "a=1"
    );
}

#[test]
fn curl_without_cookie_returns_empty() {
    let cmd = "curl 'https://qoder.com/api' -H 'User-Agent: Mozilla/5.0' -H 'Accept: */*'";
    assert_eq!(normalize_cookie_secret(cmd), "");
    assert_eq!(normalize_cookie_secret("--header -H --cookie"), "");
    assert_eq!(normalize_cookie_secret("   "), "");
}

#[test]
fn multibyte_content_is_safe_to_scan() {
    let cmd = "curl 'https://longcat.chat/api' # 下面是登录态（勿泄露）\n -H 'Cookie: a=1; b=2'";
    assert_eq!(normalize_cookie_secret(cmd), "a=1; b=2");
    let bare = "会话a=1; b=2";
    assert_eq!(normalize_cookie_secret(bare), "会话a=1; b=2");
}

#[test]
fn chrome_headers_shape() {
    let headers = chrome_like_headers("a=1", "https://qoder.com", "https://qoder.com/account/usage");
    assert_eq!(headers.len(), 6);
    let get = |name: &str| {
        headers
            .iter()
            .find(|(k, _)| k == name)
            .map(|(_, v)| v.as_str())
    };
    assert_eq!(get("Cookie"), Some("a=1"));
    assert_eq!(get("Accept"), Some("application/json, text/plain, */*"));
    assert_eq!(get("Accept-Language"), Some("en-US,en;q=0.9"));
    assert_eq!(
        get("User-Agent"),
        Some("Mozilla/5.0 (Windows NT 10.0; Win64; x64) AppleWebKit/537.36 (KHTML, like Gecko) Chrome/143.0.0.0 Safari/537.36")
    );
    assert_eq!(get("Origin"), Some("https://qoder.com"));
    assert_eq!(get("Referer"), Some("https://qoder.com/account/usage"));
}

#[test]
fn pairs_without_equals_are_dropped_and_later_names_win() {
    assert_eq!(normalize_cookie_secret("a=1; junk; ; b=2; a=3"), "a=3; b=2");
    assert_eq!(normalize_cookie_secret("=x; c=4"), "c=4");
}

#[test]
fn normalising_twice_changes_nothing_for_plain_cookie_text() {
    for raw in [
        " a=1 ; b=2;a=3 ",
        "Cookie: sid=x; theme=dark",
        "curl 'https://example.com' -H 'Cookie: a=1; b=2' -b 'c=3'",
        "\"'k=v'\"",
    ] {
        let once = normalize_cookie_secret(raw);
        assert_eq!(normalize_cookie_secret(&once), once, "{raw}");
    }
    let once = normalize_cookie_secret("'curl=1'");
    assert_eq!(once, "curl=1");
    assert_eq!(normalize_cookie_secret(&once), "");
}

#[test]
fn later_value_keeps_first_position() {
    assert_eq!(normalize_cookie_secret("a=1; b=2; a=3"), "a=3; b=2");
    assert_eq!(normalize_cookie_secret("x=0; y=1; z=2; y=9; x=5"), "x=5; y=9; z=2");
}

#[test]
fn flags_inside_words_carry_no_cookie() {
    assert_eq!(normalize_cookie_secret("curl 'https://h' x-b 'a=1'"), "");
    assert_eq!(normalize_cookie_secret("curl 'https://h' -b '   '"), "");
}
