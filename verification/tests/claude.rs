use zbar::claude::{
    credentials_from_fields, parse_credentials_json,
    computed_total, keep_usage_line, plan_display_name, projects_dir, ClaudeUsageFailure,
};
use zbar::claude_quota::{
    entry_from_usage_raw, parse_usage_response, quota_windows_from_limits, OAuthLimit, OAuthUsageResponse,
    OAuthWindow,
};
use zbar::throttle::ImportThrottle;

#[test]
fn failure_messages_and_user_visibility() {
    let m = ClaudeUsageFailure::missing_oauth();
    assert_eq!(m.message(), "未找到 Anthropic OAuth 凭证，请在终端运行一次编程助手 CLI 完成登录授权");
    assert_eq!(m.user_message(), Some(m.message()));
    let t = ClaudeUsageFailure::TokenRejected;
    assert_eq!(t.message(), "OAuth Token 已失效，请在终端重新运行编程助手 CLI 授权");
    assert_eq!(t.user_message().as_deref(), Some("OAuth Token 已失效，请在终端重新运行编程助手 CLI 授权"));
    let o = ClaudeUsageFailure::Other("网络错误或服务不可用: timeout".into());
    assert_eq!(o.message(), "网络错误或服务不可用: timeout");
    assert_eq!(o.user_message(), None);
}

#[test]
fn plan_tiers_with_multiplier_get_short_names() {
    assert_eq!(plan_display_name("default_claude_max_20x"), "Max 20x");
    assert_eq!(plan_display_name("DEFAULT_CLAUDE_MAX_5X"), "Max 5x");
    assert_eq!(plan_display_name("pro"), "pro");
}

fn usage_window(util: usize, reset: Option<&str>) -> Option<OAuthWindow> {
    Some(OAuthWindow { utilization: Some(util), resets_at: reset.map(|r| r.to_string()) })
}

fn empty_reply() -> OAuthUsageResponse {
    OAuthUsageResponse {
        five_hour: None,
        seven_day: None,
        seven_day_sonnet: None,
        seven_day_opus: None,
        extra_usage: None,
        limits: vec![],
    }
}

#[test]
fn manual_entry_status_mapping() {
    for status in [401u16, 403] {
        let raw = Ok((status, Some("denied".to_string())));
        let entry = entry_from_usage_raw(&raw, Ok(empty_reply()));
        assert_eq!(entry.status, "expired", "HTTP {status} 应判定为 expired");
        assert!(entry.message.as_deref().unwrap().contains("Token 已失效"), "expired 消息应包含 Token 已失效");
        assert!(entry.windows.is_empty());
    }
    let raw: Result<(u16, Option<String>), ClaudeUsageFailure> =
        Err(ClaudeUsageFailure::Other("网络错误或服务不可用: timeout".into()));
    let entry = entry_from_usage_raw(&raw, Ok(empty_reply()));
    assert_eq!(entry.status, "error");
    assert!(entry.message.unwrap().contains("网络错误"));
    let entry = entry_from_usage_raw(&Ok((500, Some("oops".into()))), Ok(empty_reply()));
    assert_eq!(entry.status, "error");
    assert!(entry.message.unwrap().contains("500"));
    // "not json": the reply cannot be read, and the read error is the message.
    let entry = entry_from_usage_raw(
        &Ok((200, Some("not json".into()))),
        Err(ClaudeUsageFailure::Other("解析实时额度失败: expected ident at line 1 column 2".into())),
    );
    assert_eq!(entry.status, "error");
    assert!(entry.message.unwrap().contains("解析实时额度失败"));
}

#[test]
fn manual_entry_ok_windows() {
    // Numbers of the reply, by position: 10.0, 20.0, 66.0, 44.0, 3.2, 35.0.
    let nums = [10.0f64, 20.0, 66.0, 44.0, 3.2, 35.0];
    let reply = OAuthUsageResponse {
        five_hour: usage_window(0, Some("2026-08-14T12:00:00Z")),
        seven_day: usage_window(1, Some("2026-08-17T03:30:00Z")),
        seven_day_opus: usage_window(2, None),
        seven_day_sonnet: usage_window(3, None),
        extra_usage: Some((Some(4), Some(5))),
        limits: vec![],
    };
    let entry = entry_from_usage_raw(&Ok((200, Some("{..}".into()))), Ok(reply));
    assert_eq!(entry.status, "ok");
    assert_eq!(entry.message, None);
    let keys: Vec<&str> = entry.windows.iter().map(|w| w.key.as_str()).collect();
    assert_eq!(keys, vec!["hour5", "weekly", "opus_weekly", "sonnet_weekly", "extra_usage"]);
    assert_eq!(entry.windows[0].title, "5 小时");
    assert_eq!(entry.windows[1].title, "本周");
    assert_eq!(entry.windows[2].title, "Opus 周额度");
    assert_eq!(entry.windows[3].title, "Sonnet 周额度");
    assert_eq!(entry.windows[0].resets_at, Some(1_786_708_800_000));
    let extra = &entry.windows[4];
    assert_eq!(extra.title, "超额消费");
    assert_eq!(extra.used.map(|i| nums[i]), Some(3.2));
    assert_eq!(extra.total.map(|i| nums[i]), Some(35.0));
    assert_eq!(extra.unit.as_deref(), Some("$"));
    assert_eq!(extra.used_percent, None);
    // A reply without any window ("{}") is an error.
    let entry = entry_from_usage_raw(&Ok((200, Some("{}".into()))), Ok(empty_reply()));
    assert_eq!(entry.status, "error");
}

#[test]
fn scoped_weekly_limits_fill_empty_model_rows() {
    let limit = |util: Option<usize>, kind: Option<&str>, scope: &str, scoped: Option<bool>| OAuthLimit {
        utilization: util,
        resets_at: None,
        limit_type: kind.map(|k| k.to_string()),
        scope: Some(scope.to_string()),
        weekly_scoped: scoped,
    };
    let mut reply = empty_reply();
    reply.seven_day_opus = usage_window(9, None);
    reply.limits = vec![
        limit(Some(1), Some("seven_day"), "All models", Some(true)),
        limit(Some(2), Some("five_hour"), "Sonnet", Some(true)),
        limit(Some(3), Some("seven_day"), "SONNET only", Some(false)),
        limit(None, Some("seven_day"), "Sonnet", Some(true)),
        limit(Some(4), Some("weekly"), "Sonnet", Some(true)),
        limit(Some(5), None, "sonnet", Some(true)),
        limit(Some(6), Some("seven_day"), "Opus", Some(true)),
    ];
    let l = parse_usage_response(reply);
    assert_eq!(l.sonnet_weekly_pct, Some(4));
    assert_eq!(l.opus_weekly_pct, Some(9));
    assert_eq!(l.primary_pct, None);
    let rows = quota_windows_from_limits(&l);
    let keys: Vec<&str> = rows.iter().map(|w| w.key.as_str()).collect();
    assert_eq!(keys, vec!["opus_weekly", "sonnet_weekly"]);
}

#[test]
fn projects_dir_and_throttle() {
    assert_eq!(projects_dir("/h/.agent/projects", true), Ok("/h/.agent/projects".to_string()));
    assert!(projects_dir("/h/.agent/projects", false).unwrap_err().contains("ZBAR_CLAUDE_HOME"));
    let mut gate = ImportThrottle { last_import_ms: Some(100) };
    assert!(!zbar::claude::import_incremental(&mut gate, 50));
    assert!(!zbar::claude::import_incremental(&mut gate, 5099));
    assert!(zbar::claude::import_incremental(&mut gate, 5100));
    assert_eq!(computed_total(1, 2, 3, 4), 10);
}

#[test]
fn parse_credentials_variants() {
    let auth = parse_credentials_json(
        r#"{"claudeAiOauth":{"accessToken":"tok","refreshToken":"r",
            "expiresAt":1755000000000,"scopes":["user:profile"],
            "rateLimitTier":"pro","subscriptionType":"pro"}}"#,
    )
    .expect("standard credentials");
    assert_eq!(auth.access_token, "tok");
    assert_eq!(auth.plan_label.as_deref(), Some("pro"));

    let tier_only =
        parse_credentials_json(r#"{"claudeAiOauth":{"accessToken":"tok","rateLimitTier":"max5"}}"#)
            .expect("tier-only credentials");
    assert_eq!(tier_only.plan_label.as_deref(), Some("max5"));

    for broken in [r#"{"mcpOAuth":{}}"#, r#"{"claudeAiOauth":{}}"#] {
        let err = parse_credentials_json(broken).expect_err("missing OAuth entry");
        match err {
            ClaudeUsageFailure::MissingOAuth(m) => {
                assert_eq!(m, ClaudeUsageFailure::missing_oauth().message());
            }
            other => panic!("expected MissingOAuth, got {other:?}"),
        }
    }
    assert!(matches!(parse_credentials_json("not json"), Err(ClaudeUsageFailure::Other(_))));
}

#[test]
fn plan_tier_multiplier_label() {
    let parse_label = |json: &str| parse_credentials_json(json).expect("credentials").plan_label;
    assert_eq!(
        parse_label(r#"{"claudeAiOauth":{"accessToken":"t","rateLimitTier":"default_claude_max_5x"}}"#).as_deref(),
        Some("Max 5x")
    );
    assert_eq!(
        parse_label(r#"{"claudeAiOauth":{"accessToken":"t","rateLimitTier":"default_claude_max_20x"}}"#).as_deref(),
        Some("Max 20x")
    );
    assert_eq!(
        parse_label(
            r#"{"claudeAiOauth":{"accessToken":"t","rateLimitTier":"default_claude_max_20x","subscriptionType":"max"}}"#
        )
        .as_deref(),
        Some("Max 20x")
    );
    assert_eq!(
        parse_label(r#"{"claudeAiOauth":{"accessToken":"t","rateLimitTier":"max","subscriptionType":"pro"}}"#).as_deref(),
        Some("pro")
    );
    assert_eq!(
        parse_label(r#"{"claudeAiOauth":{"accessToken":"t","rateLimitTier":"max5"}}"#).as_deref(),
        Some("max5")
    );
}

#[test]
fn credentials_from_fields_trims_and_reports_parse_errors() {
    let auth = credentials_from_fields(Ok((
        true,
        Some("  tok  ".to_string()),
        Some("   ".to_string()),
        Some(" team ".to_string()),
    )))
    .expect("fields with a token");
    assert_eq!(auth.access_token, "tok");
    assert_eq!(auth.plan_label.as_deref(), Some("team"));
    let blank = credentials_from_fields(Ok((true, Some(" ".to_string()), None, None)));
    assert!(matches!(blank, Err(ClaudeUsageFailure::MissingOAuth(_))));
    match credentials_from_fields(Err("EOF".to_string())) {
        Err(ClaudeUsageFailure::Other(m)) => assert_eq!(m, "解析 Anthropic 凭据失败: EOF"),
        other => panic!("expected Other, got {other:?}"),
    }
}

#[test]
fn usage_line_filter() {
    let c = Some((10i64, 5i64, 0i64, 0i64));
    assert!(keep_usage_line(Some("assistant"), Some("sonnet-4"), c, Some(1), 0));
    assert!(!keep_usage_line(Some("user"), Some("sonnet-4"), c, Some(1), 0));
    assert!(!keep_usage_line(Some("assistant"), Some("<synthetic>"), c, Some(1), 0));
    assert!(!keep_usage_line(Some("assistant"), Some(""), c, Some(1), 0));
    assert!(!keep_usage_line(Some("assistant"), Some("sonnet-4"), Some((0, 0, 0, 0)), Some(1), 0));
    assert!(!keep_usage_line(Some("assistant"), Some("sonnet-4"), Some((i64::MAX, 1, 0, 0)), Some(1), 0));
    assert!(!keep_usage_line(Some("assistant"), Some("sonnet-4"), None, Some(1), 0));
    assert!(!keep_usage_line(Some("assistant"), Some("sonnet-4"), c, None, 0));
    assert!(!keep_usage_line(Some("assistant"), Some("sonnet-4"), c, Some(1), i64::MAX));
}
