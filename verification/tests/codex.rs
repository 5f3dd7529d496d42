use zbar::codex::{
    backfill_selection, classify_rate_window, normalize_proxy_url, parse_scutil_proxy, resets_at_ms,
    session_id_from_stem, sessions_dir,
};
use zbar::throttle::ImportThrottle;

#[test]
fn scutil_https_preferred() {
    let out = "<dictionary> {\n  HTTPEnable : 1\n  HTTPProxy : 127.0.0.1\n  HTTPPort : 7890\n  HTTPSEnable : 1\n  HTTPSProxy : 127.0.0.1\n  HTTPSPort : 7891\n  SOCKSEnable : 0\n}\n";
    assert_eq!(parse_scutil_proxy(out).as_deref(), Some("http://127.0.0.1:7891"));
}

#[test]
fn scutil_http_fallback() {
    let out = "<dictionary> {\n  HTTPEnable : 1\n  HTTPProxy : 127.0.0.1\n  HTTPPort : 1087\n  HTTPSEnable : 0\n}\n";
    assert_eq!(parse_scutil_proxy(out).as_deref(), Some("http://127.0.0.1:1087"));
}

#[test]
fn scutil_socks_fallback() {
    let out = "<dictionary> {\n  HTTPEnable : 0\n  HTTPSEnable : 0\n  SOCKSEnable : 1\n  SOCKSProxy : 127.0.0.1\n  SOCKSPort : 1080\n}\n";
    assert_eq!(parse_scutil_proxy(out).as_deref(), Some("socks5://127.0.0.1:1080"));
}

#[test]
fn scutil_all_disabled() {
    let out = "<dictionary> {\n  HTTPEnable : 0\n  HTTPSEnable : 0\n  SOCKSEnable : 0\n}\n";
    assert_eq!(parse_scutil_proxy(out), None);
}

#[test]
fn normalize_proxy_url_adds_scheme() {
    assert_eq!(normalize_proxy_url("127.0.0.1:33210"), "http://127.0.0.1:33210");
    assert_eq!(normalize_proxy_url("socks5://127.0.0.1:1080"), "socks5://127.0.0.1:1080");
}

#[test]
fn scutil_missing_lines_mean_not_enabled() {
    assert_eq!(parse_scutil_proxy("<dictionary> {\n}\n"), None);
    let http_only = "<dictionary> {\n  HTTPEnable : 1\n  HTTPProxy : 127.0.0.1\n  HTTPPort : 7890\n}\n";
    assert_eq!(parse_scutil_proxy(http_only).as_deref(), Some("http://127.0.0.1:7890"));
    let socks_only = "  SOCKSEnable : 1\n  SOCKSProxy : h\n  SOCKSPort : 1\n  HTTPSEnable : 1\n";
    assert_eq!(parse_scutil_proxy(socks_only).as_deref(), Some("socks5://h:1"));
    let out = "  HTTPSEnable : 1\r\n  HTTPSProxy : 10.0.0.1\r\n  HTTPSPort : 8080\r\n";
    assert_eq!(parse_scutil_proxy(out).as_deref(), Some("http://10.0.0.1:8080"));
}

#[test]
fn rate_windows_are_classified_by_length_then_field() {
    assert_eq!(classify_rate_window(Some(10080), "hour5"), "weekly");
    assert_eq!(classify_rate_window(Some(2880), "hour5"), "weekly");
    assert_eq!(classify_rate_window(Some(300), "weekly"), "hour5");
    assert_eq!(classify_rate_window(None, "weekly"), "weekly");
    assert_eq!(classify_rate_window(None, "hour5"), "hour5");
    assert_eq!(resets_at_ms(Some(1_787_364_605)), Some(1_787_364_605_000));
    assert_eq!(resets_at_ms(None), None);
}

#[test]
fn session_id_is_uuid_tail_of_stem() {
    assert_eq!(
        session_id_from_stem("rollout-2026-06-22T12-41-14-0197a1b2-c3d4-7e8f-9a0b-1c2d3e4f5a6b"),
        "0197a1b2-c3d4-7e8f-9a0b-1c2d3e4f5a6b"
    );
    assert_eq!(session_id_from_stem("short"), "short");
    let no_uuid = "rollout-aaaaaaaaaaaaaaaaaaaaaaaaaaaaaaaaaaaaaaaa";
    assert_eq!(session_id_from_stem(no_uuid), no_uuid);
}

#[test]
fn sessions_dir_reports_missing_directory() {
    assert_eq!(sessions_dir("/x/.codex/sessions", true), Ok("/x/.codex/sessions".to_string()));
    let err = sessions_dir("/x/.codex/sessions", false).unwrap_err();
    assert!(err.starts_with("未找到 Codex 会话目录: /x/.codex/sessions。"));
    assert!(err.contains("ZBAR_CODEX_HOME"));
}

#[test]
fn import_is_throttled_for_five_seconds() {
    let mut gate = ImportThrottle { last_import_ms: None };
    assert!(zbar::codex::import_incremental(&mut gate, 10_000));
    assert!(!zbar::codex::import_incremental(&mut gate, 14_999));
    assert_eq!(gate.last_import_ms, Some(10_000));
    assert!(zbar::codex::import_incremental(&mut gate, 15_000));
    assert_eq!(gate.last_import_ms, Some(15_000));
}

#[test]
fn backfill_selection_keeps_first_new_second_in_time_order() {
    let ts = [5000i64, 1000, 1500, 2999, -5, 7000];
    assert_eq!(backfill_selection(&ts, &[2], 0, 6000), vec![1, 0]);
}

#[test]
fn backfill_selection_ties_keep_file_order() {
    let ts = [4000i64, 3000, 3000];
    assert_eq!(backfill_selection(&ts, &[], 0, 10_000), vec![1, 0]);
}

#[test]
fn backfill_selection_day_bounds_are_inclusive() {
    let ts = [100i64, 2000, 2001];
    assert_eq!(backfill_selection(&ts, &[], 100, 2000), vec![0, 1]);
}

#[test]
fn backfill_selection_seconds_round_toward_zero() {
    let ts = [-1500i64, -1200, -999];
    assert_eq!(backfill_selection(&ts, &[], -2000, 0), vec![0, 2]);
    assert_eq!(backfill_selection(&ts, &[0], -2000, 0), vec![0]);
    assert_eq!(backfill_selection(&ts, &[-1, 0], -2000, 0), Vec::<usize>::new());
}
