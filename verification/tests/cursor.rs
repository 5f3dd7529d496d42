use zbar::cursor::{
    http_error_message, jwt_is_valid, jwt_payload_claims, jwt_user_id,
    build_cookie, cursor_event_bucket, fetch_cursor_period_buckets, migration_needed,
    pick_first_cookie, round_for_cache, user_id_from_sub, CursorEventTokens, CursorUsageEvent,
    ManualQuotaFailure, MANUAL_COOKIE_EXPIRED_MSG,
};
use zbar::provider_credentials::CredentialQuerySnapshot;

fn snap(id: &str, kind: &str, secret: &str) -> CredentialQuerySnapshot {
    CredentialQuerySnapshot {
        id: id.into(),
        label: id.into(),
        kind: kind.into(),
        secret: secret.into(),
        region: None,
    }
}

#[test]
fn event_kind_maps_to_cursor_quota_window() {
    assert_eq!(cursor_event_bucket(Some("USAGE_EVENT_KIND_INCLUDED_IN_PRO")), Some("auto"));
    assert_eq!(cursor_event_bucket(Some("USAGE_EVENT_KIND_ON_DEMAND")), Some("api"));
    assert_eq!(cursor_event_bucket(Some("OTHER_EVENT")), None);
}

#[test]
fn migration_decision_is_idempotent_and_value_gated() {
    assert!(!migration_needed("manual", "", 0));
    assert!(!migration_needed("manual", "   ", 0));
    assert!(!migration_needed("manual", "WorkosCursorSessionToken=1%3A%3Aabc", 1));
    assert!(!migration_needed("manual", "WorkosCursorSessionToken=1%3A%3Aabc", 3));
    assert!(migration_needed("manual", "WorkosCursorSessionToken=1%3A%3Aabc", 0));
    assert!(migration_needed("manual", "  cookie  ", 0));
    assert!(!migration_needed("auto", "WorkosCursorSessionToken=1%3A%3Aabc", 0));
    assert!(!migration_needed("unknown", "WorkosCursorSessionToken=1%3A%3Aabc", 0));
}

#[test]
fn pick_first_cookie_empty_and_non_cookie_snapshots() {
    assert!(pick_first_cookie(&[]).is_none());
    let snaps = vec![snap("a", "apiKey", "sk-xxx"), snap("b", "token", "tok")];
    assert!(pick_first_cookie(&snaps).is_none());
}

#[test]
fn pick_first_cookie_takes_earliest_entry() {
    let snaps = vec![
        snap("old", "cookie", "WorkosCursorSessionToken=1%3A%3Aold"),
        snap("new", "cookie", "WorkosCursorSessionToken=2%3A%3Anew"),
    ];
    assert_eq!(
        pick_first_cookie(&snaps).as_deref(),
        Some("WorkosCursorSessionToken=1%3A%3Aold")
    );
}

#[test]
fn pick_first_cookie_skips_blank_secrets() {
    let snaps = vec![
        snap("blank", "cookie", "   "),
        snap("valid", "cookie", "  WorkosCursorSessionToken=2%3A%3Av"),
    ];
    assert_eq!(
        pick_first_cookie(&snaps).as_deref(),
        Some("WorkosCursorSessionToken=2%3A%3Av")
    );
    let blank = vec![snap("b1", "cookie", ""), snap("b2", "cookie", " ")];
    assert!(pick_first_cookie(&blank).is_none());
}

#[test]
fn manual_quota_entry_error_keeps_failure_status_and_message() {
    let f = ManualQuotaFailure::expired();
    assert_eq!(f.status, "expired");
    assert_eq!(f.message, MANUAL_COOKIE_EXPIRED_MSG);
    let e = ManualQuotaFailure::error("Cursor 额度查询失败（HTTP 500）".to_string());
    assert_eq!(e.status, "error");
    assert_eq!(e.message, "Cursor 额度查询失败（HTTP 500）");
}

#[test]
fn cookie_and_user_id_shapes() {
    assert_eq!(build_cookie("user_1", "tok"), "WorkosCursorSessionToken=user_1%3A%3Atok");
    assert_eq!(user_id_from_sub("auth0|user_123").as_deref(), Ok("user_123"));
    assert_eq!(user_id_from_sub("github|x|"), Ok("x".to_string()));
    assert_eq!(user_id_from_sub("plain"), Ok("plain".to_string()));
    assert!(user_id_from_sub("").is_err());
}

#[test]
fn cache_key_rounds_toward_zero_to_ten_minutes() {
    assert_eq!(round_for_cache(1_234_567), 1_200_000);
    assert_eq!(round_for_cache(600_000), 600_000);
    assert_eq!(round_for_cache(0), 0);
    assert_eq!(round_for_cache(-1), 0);
    assert_eq!(round_for_cache(-600_000), -600_000);
    assert_eq!(round_for_cache(-600_001), -600_000);
    assert_eq!(round_for_cache(i64::MIN), (i64::MIN / 600_000) * 600_000);
}

fn ev(ts: Option<i64>, inp: i64, out: i64) -> CursorUsageEvent {
    CursorUsageEvent {
        timestamp: ts,
        tokens: Some(CursorEventTokens {
            input_tokens: Some(inp),
            output_tokens: Some(out),
            cache_write_tokens: None,
            cache_read_tokens: Some(-5),
        }),
    }
}

#[test]
fn period_buckets_split_events_by_timestamp() {
    let periods = [(0, 100), (100, 200), (50, 300)];
    let events = vec![
        ev(Some(10), 5, 5),
        ev(Some(100), 1, 2),
        ev(Some(250), 7, 0),
        ev(Some(0), 9, 9),
        ev(None, 9, 9),
        ev(Some(150), 0, 0),
        CursorUsageEvent { timestamp: Some(20), tokens: None },
        ev(Some(500), 4, 4),
    ];
    let b = fetch_cursor_period_buckets(&periods, &events);
    assert_eq!(b.len(), 3);
    assert_eq!((b[0].reset_at, b[0].end_at, b[0].total_tokens, b[0].requests), (0, 100, 10, 1));
    assert_eq!((b[1].total_tokens, b[1].requests), (3, 1));
    assert_eq!((b[2].total_tokens, b[2].requests), (7, 1));
    assert!(fetch_cursor_period_buckets(&[], &events).is_empty());
}

#[test]
fn jwt_claims_give_user_id_and_validity() {
    let token = "hdr.eyJzdWIiOiJhdXRoMHx1c2VyXzEyMyIsImV4cCI6MjAwMDAwMDAwMH0=.sig";
    let unpadded = "hdr.eyJzdWIiOiJhdXRoMHx1c2VyXzEyMyIsImV4cCI6MjAwMDAwMDAwMH0.sig";
    assert_eq!(jwt_user_id(token).as_deref(), Ok("user_123"));
    assert_eq!(jwt_user_id(unpadded).as_deref(), Ok("user_123"));
    assert_eq!(
        jwt_payload_claims(unpadded),
        Ok((Some("auth0|user_123".to_string()), Some(2_000_000_000)))
    );
    assert!(jwt_is_valid(token, 1_999_999_000));
    assert!(!jwt_is_valid(token, 1_999_999_940));
    assert!(jwt_is_valid("no-dots", 0));
    assert_eq!(jwt_user_id("no-dots").unwrap_err(), "access token 不是有效的 JWT 格式");
    assert_eq!(
        jwt_user_id("h.eyJleHAiOjEwMH0.s").unwrap_err(),
        "JWT payload 中缺少 sub 字段"
    );
    assert!(jwt_user_id("h.!!!.s").unwrap_err().starts_with("base64 解码失败: "));
    assert!(jwt_user_id("h.bm90IGpzb24.s").unwrap_err().starts_with("解析 JWT payload 失败: "));
}

#[test]
fn http_failures_have_their_texts() {
    assert_eq!(
        http_error_message(Some(401), "usage-summary", ""),
        "Cursor 未登录或会话已过期（usage-summary HTTP 401），请在 Cursor 应用中重新登录"
    );
    assert_eq!(http_error_message(Some(500), "events", ""), "Cursor events 请求失败: HTTP 500");
    assert_eq!(
        http_error_message(None, "auth/me", "timeout"),
        "Cursor auth/me 网络请求失败: timeout"
    );
    let f = ManualQuotaFailure::from_http(Some(403), "");
    assert_eq!((f.status, f.message.as_str()), ("expired", MANUAL_COOKIE_EXPIRED_MSG));
    let f = ManualQuotaFailure::from_http(Some(502), "");
    assert_eq!((f.status, f.message.as_str()), ("error", "Cursor 额度查询失败（HTTP 502）"));
    let f = ManualQuotaFailure::from_http(None, "dns");
    assert_eq!((f.status, f.message.as_str()), ("error", "Cursor 网络请求失败: dns"));
}
