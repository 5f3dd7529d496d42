use zbar::coding_plan::{NumReading, QDoc, Reading};
use zbar::token_plan::{classify_payload, entry_from_bundle, parse_team_summary, Bundle, Reply};

fn none() -> Reading {
    Reading { num: None, amount: None, nonzero: None, time_ms: None }
}

fn whole(ix: usize, v: i64) -> NumReading {
    NumReading { at: ix, whole: Some(v), shown: v.to_string(), positive: v > 0 }
}

fn n(ix: usize, v: i64) -> QDoc {
    let time_ms = if v > 1_000_000_000_000 { v } else { v * 1000 };
    QDoc::Num(Reading { num: Some(whole(ix, v)), amount: Some(whole(ix, v)), nonzero: Some(v != 0), time_ms: Some(time_ms) })
}

/// A fraction (a share such as 0.25), at position `ix`.
fn frac(ix: usize) -> QDoc {
    let r = || NumReading { at: ix, whole: None, shown: String::new(), positive: true };
    QDoc::Num(Reading { num: Some(r()), amount: Some(r()), nonzero: Some(true), time_ms: None })
}

fn s(text: &str) -> QDoc {
    QDoc::Str(text.to_string(), none())
}

fn s_time(text: &str, ms: i64) -> QDoc {
    QDoc::Str(text.to_string(), Reading { num: None, amount: None, nonzero: None, time_ms: Some(ms) })
}

/// A string amount such as "1,200", at position `ix`.
fn s_amount(text: &str, ix: usize, v: i64) -> QDoc {
    QDoc::Str(text.to_string(), Reading { num: None, amount: Some(whole(ix, v)), nonzero: None, time_ms: None })
}

fn b(v: bool) -> QDoc {
    QDoc::Bool(v, none())
}

fn obj(entries: Vec<(&str, QDoc)>) -> QDoc {
    let mut es: Vec<(String, QDoc)> = entries.into_iter().map(|(k, v)| (k.to_string(), v)).collect();
    es.sort_by(|a, b| a.0.cmp(&b.0));
    QDoc::Obj(es)
}

fn ok(doc: QDoc) -> Reply {
    Reply { raw: Ok((200, Some("{..}".to_string()))), doc: Some(doc) }
}

fn raw(r: Result<(u16, Option<String>), String>) -> Reply {
    Reply { raw: r, doc: None }
}

fn no_team_subscription() -> Reply {
    ok(obj(vec![("successResponse", b(true)), ("Data", obj(vec![("TotalCount", n(90, 0))]))]))
}

fn bundle(team: Reply, usage: Option<Reply>) -> Bundle {
    Bundle { team, usage, subscription: None, quota_config: None }
}

#[test]
fn parses_team_summary_with_nested_string_envelope_on_document() {
    let data = obj(vec![
        ("TotalCount", n(0, 1)),
        (
            "Data",
            obj(vec![
                ("TotalCount", n(1, 1)),
                ("planName", s("企业版")),
                ("usedQuota", s_amount("1,200", 2, 1200)),
                ("totalQuota", n(3, 6000)),
                ("remainingQuota", n(4, 4800)),
                ("nextRefreshTime", s_time("2030-10-27T05:06:07Z", 1_919_307_967_000)),
            ]),
        ),
    ]);
    let team = ok(obj(vec![("successResponse", b(true)), ("data", data)]));
    let d = entry_from_bundle(&bundle(team, None));
    assert_eq!(d.status, "ok");
    assert_eq!(d.plan_name.as_deref(), Some("企业版"));
    assert_eq!(d.windows.len(), 1);
    let w = &d.windows[0];
    assert_eq!(w.key, "credits");
    assert_eq!(w.title, "积分池");
    assert_eq!((w.used, w.total, w.remaining), (Some(2), Some(3), Some(4)));
    assert!(!w.used_by_difference);
    assert_eq!(w.unit, "积分");
    assert_eq!(w.resets_at, Some(1_919_307_967_000));

    let team = ok(obj(vec![
        ("successResponse", b(true)),
        (
            "Data",
            obj(vec![
                ("TotalCount", n(0, 2)),
                ("totalQuota", n(1, 100)),
                ("remainingQuota", n(2, 30)),
                ("nextRefreshTime", n(3, 1_730_018_000)),
            ]),
        ),
    ]));
    let d = entry_from_bundle(&bundle(team, None));
    assert_eq!(d.status, "ok");
    let w = &d.windows[0];
    assert!(w.used_by_difference);
    assert_eq!((w.used, w.total, w.remaining), (None, Some(1), Some(2)));
    assert_eq!(d.plan_name.as_deref(), Some("TOKEN PLAN"));
    assert_eq!(w.resets_at, Some(1_730_018_000_000));
}

#[test]
fn parses_personal_double_windows_with_quota_config_on_document() {
    let usage = ok(obj(vec![
        ("successResponse", b(true)),
        (
            "data",
            obj(vec![
                ("per5HourPercentage", frac(0)),
                ("per1WeekPercentage", frac(1)),
                ("per5HourResetTime", n(2, 1_730_018_000)),
                ("per1WeekResetTime", s_time("2030-10-27 05:06:07", 1_919_307_967_000)),
            ]),
        ),
    ]));
    let sub = ok(obj(vec![("successResponse", b(true)), ("data", obj(vec![("specCode", s("pro"))]))]));
    let cfg = ok(obj(vec![
        ("successResponse", b(true)),
        ("data", obj(vec![("pro", obj(vec![("five_hour", n(3, 100)), ("weekly", n(4, 500))]))])),
    ]));
    let d = entry_from_bundle(&Bundle {
        team: no_team_subscription(),
        usage: Some(usage),
        subscription: Some(sub),
        quota_config: Some(cfg),
    });
    assert_eq!(d.status, "ok");
    assert_eq!(d.plan_name.as_deref(), Some("Pro"));
    assert_eq!(d.windows.len(), 2);
    assert_eq!((d.windows[0].key.as_str(), d.windows[0].title.as_str()), ("hour5", "5h"));
    assert_eq!((d.windows[0].ratio, d.windows[0].total), (Some(0), Some(3)));
    assert_eq!(d.windows[0].resets_at, Some(1_730_018_000_000));
    assert_eq!((d.windows[1].key.as_str(), d.windows[1].title.as_str()), ("weekly", "7天"));
    assert_eq!((d.windows[1].ratio, d.windows[1].total), (Some(1), Some(4)));
    assert_eq!(d.windows[1].resets_at, Some(1_919_307_967_000));

    let usage = ok(obj(vec![("successResponse", b(true)), ("data", obj(vec![("per1WeekPercentage", frac(0))]))]));
    let d = entry_from_bundle(&bundle(no_team_subscription(), Some(usage)));
    assert_eq!(d.status, "ok");
    assert_eq!(d.plan_name.as_deref(), Some("Personal"));
    assert_eq!(d.windows.len(), 1);
    assert_eq!((d.windows[0].ratio, d.windows[0].total, d.windows[0].used), (Some(0), None, None));
}

#[test]
fn team_total_count_zero_without_usage_reports_no_subscription_on_document() {
    for data in [obj(vec![]), obj(vec![("other", n(0, 1))])] {
        let usage = ok(obj(vec![("successResponse", b(true)), ("data", data)]));
        let d = entry_from_bundle(&bundle(no_team_subscription(), Some(usage)));
        assert_eq!(d.status, "error");
        assert!(d.windows.is_empty());
        assert_eq!(d.message.as_deref(), Some("未找到有效的百炼 Token 包订阅"));
    }
}

#[test]
fn team_failure_degrades_to_personal_windows_on_document() {
    let teams = vec![
        raw(Err("阿里 Token Plan 额度网络错误或服务不可用: timeout".to_string())),
        ok(obj(vec![("successResponse", b(false)), ("errorMsg", s("internal error"))])),
        raw(Ok((500, Some("internal".to_string())))),
    ];
    for team in teams {
        let usage = ok(obj(vec![("successResponse", b(true)), ("data", obj(vec![("per5HourPercentage", frac(0))]))]));
        let d = entry_from_bundle(&bundle(team, Some(usage)));
        assert_eq!(d.status, "ok");
        assert_eq!(d.windows.len(), 1);
        assert_eq!(d.windows[0].ratio, Some(0));
    }
}

#[test]
fn unauthorized_login_html_and_payload_map_expired_on_document() {
    let teams = vec![
        raw(Ok((401, Some(r#"{"detail":"unauthorized"}"#.to_string())))),
        raw(Ok((403, Some("forbidden".to_string())))),
        raw(Ok((200, Some("<!DOCTYPE html><html><body>please login</body></html>".to_string())))),
        ok(obj(vec![("successResponse", b(false)), ("errorMsg", s("NeedLogin"))])),
        ok(obj(vec![("code", s("NeedLogin")), ("data", obj(vec![]))])),
    ];
    for team in teams {
        let d = entry_from_bundle(&bundle(team, None));
        assert_eq!(d.status, "expired");
        assert_eq!(d.message.as_deref(), Some("会话已失效，请重新登录百炼控制台后更新 Cookie"));
        assert!(d.windows.is_empty());
    }
}

#[test]
fn workspace_not_authorized_maps_to_sec_token_error_on_document() {
    let body = || {
        ok(obj(vec![
            ("successResponse", b(false)),
            ("errorCode", s("BailianGateway.Workspace.NotAuthorised")),
            ("errorMsg", s("workspace not authorised")),
        ]))
    };
    let d = entry_from_bundle(&bundle(body(), None));
    assert_eq!(d.status, "error");
    assert_eq!(d.message.as_deref(), Some("缺少控制台 sec_token，请从百炼订阅页请求中复制完整 Cookie"));
    let usage = ok(obj(vec![("successResponse", b(true)), ("data", obj(vec![("per5HourPercentage", frac(0))]))]));
    let d = entry_from_bundle(&bundle(body(), Some(usage)));
    assert_eq!(d.status, "ok");
    assert_eq!(d.windows.len(), 1);
}

#[test]
fn other_failures_map_to_error_on_document() {
    let d = entry_from_bundle(&bundle(
        raw(Ok((500, Some("internal".to_string())))),
        Some(raw(Err("阿里 Token Plan 额度网络错误或服务不可用: dns".to_string()))),
    ));
    assert_eq!(d.status, "error");
    assert!(d.message.unwrap().contains("网络错误或服务不可用"));
    let limited = || ok(obj(vec![("successResponse", b(false)), ("errorMsg", s("rate limited"))]));
    let d = entry_from_bundle(&bundle(no_team_subscription(), Some(limited())));
    assert_eq!(d.message.as_deref(), Some("未找到有效的百炼 Token 包订阅"));
    let d = entry_from_bundle(&bundle(raw(Ok((500, Some("internal".to_string())))), Some(limited())));
    assert_eq!(d.status, "error");
    assert_eq!(d.message.as_deref(), Some("百炼平台返回错误: rate limited"));
    let d = entry_from_bundle(&bundle(raw(Ok((200, Some("not json".to_string())))), None));
    assert_eq!(d.status, "error");
    assert_eq!(d.message.as_deref(), Some("百炼 Token 包响应解析失败"));
    let d = entry_from_bundle(&bundle(raw(Ok((502, None))), None));
    assert_eq!(d.message.as_deref(), Some("百炼 Token 包查询失败（HTTP 502）"));
}

#[test]
fn flexible_fields_and_percent_guards() {
    let usage = ok(obj(vec![("successResponse", b(true)), ("data", obj(vec![("per5HourPercentage", n(0, 2))]))]));
    let sub = ok(obj(vec![
        ("successResponse", b(true)),
        ("data", obj(vec![("list", QDoc::Arr(vec![obj(vec![("spec_code", s("MAX"))])]))])),
    ]));
    let cfg = ok(obj(vec![
        ("successResponse", b(true)),
        ("data", obj(vec![("max", obj(vec![("five_hour", s_amount("1,000", 1, 1000))]))])),
    ]));
    let d = entry_from_bundle(&Bundle {
        team: no_team_subscription(),
        usage: Some(usage),
        subscription: Some(sub),
        quota_config: Some(cfg),
    });
    assert_eq!(d.status, "ok");
    assert_eq!(d.plan_name.as_deref(), Some("Max"));
    assert_eq!((d.windows[0].ratio, d.windows[0].total), (Some(0), Some(1)));

    let team = ok(obj(vec![
        ("successResponse", b(true)),
        ("Data", obj(vec![("TotalCount", n(0, 3)), ("usedQuota", n(1, 5)), ("totalQuota", n(2, 0))])),
    ]));
    let d = entry_from_bundle(&bundle(team, None));
    assert_eq!(d.status, "ok");
    assert_eq!((d.windows[0].used, d.windows[0].total), (Some(1), Some(2)));
}

#[test]
fn envelope_classes() {
    assert!(classify_payload(&obj(vec![("successResponse", b(true))])).is_ok());
    let doc = obj(vec![("statusCode", n(0, 500))]);
    match classify_payload(&doc) {
        Err(zbar::alibabatoken::PayloadError::Api(m)) => assert_eq!(m, "status code 500"),
        other => panic!("{other:?}"),
    }
    let doc = obj(vec![("result", obj(vec![("Success", s("false")), ("Code", s("Throttling"))]))]);
    match classify_payload(&doc) {
        Err(zbar::alibabatoken::PayloadError::Api(m)) => assert_eq!(m, "Throttling"),
        other => panic!("{other:?}"),
    }
    let doc = obj(vec![("successResponse", b(false)), ("statusCode", n(0, 403))]);
    assert!(matches!(classify_payload(&doc), Err(zbar::alibabatoken::PayloadError::InvalidCredentials)));
    assert!(parse_team_summary(&obj(vec![("foo", n(0, 1))])).is_none());
}
