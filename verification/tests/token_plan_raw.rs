use zbar::reply_doc::ScalarReading;
use zbar::token_plan::{entry_from_bundle, reply_from_raw, success_payload_without_windows, Bundle, TokenPlanDecision};
use zbar::coding_plan::{NumReading, Reading};

type Raw = Result<(u16, Option<String>), String>;

fn flexible_f64(v: &serde_json::Value) -> Option<f64> {
    match v {
        serde_json::Value::Number(n) => n.as_f64(),
        serde_json::Value::String(s) => s.trim().parse::<f64>().ok(),
        _ => None,
    }
}

fn time_flexible(v: &serde_json::Value) -> Option<i64> {
    if let Some(n) = flexible_f64(v) {
        return Some(if n > 1_000_000_000_000.0 { n as i64 } else { (n * 1000.0) as i64 });
    }
    let s = v.as_str()?.trim();
    if let Ok(dt) = chrono::DateTime::parse_from_rfc3339(s) {
        return Some(dt.timestamp_millis());
    }
    if let Ok(dt) = chrono::NaiveDateTime::parse_from_str(s, "%Y-%m-%d %H:%M:%S") {
        return Some(dt.and_utc().timestamp_millis());
    }
    None
}

fn num_reading(x: f64, nums: &mut Vec<f64>) -> NumReading {
    nums.push(x);
    NumReading {
        at: nums.len() - 1,
        whole: if x.fract() == 0.0 && x.abs() < 9.0e18 { Some(x as i64) } else { None },
        shown: format!("{x}"),
        positive: x > 0.0,
    }
}

fn reading_of(v: &serde_json::Value, nums: &mut Vec<f64>) -> Reading {
    let amount = match v {
        serde_json::Value::String(s) => s.trim().replace(',', "").parse::<f64>().ok(),
        _ => flexible_f64(v),
    };
    Reading {
        num: flexible_f64(v).map(|x| num_reading(x, nums)),
        amount: amount.map(|x| num_reading(x, nums)),
        nonzero: v.as_f64().map(|x| x != 0.0),
        time_ms: time_flexible(v),
    }
}

fn walk(v: &serde_json::Value, nums: &mut Vec<f64>, out: &mut Vec<ScalarReading>) {
    match v {
        serde_json::Value::String(s) => {
            let t = s.trim();
            if t.starts_with('{') || t.starts_with('[') {
                if let Ok(nested) = serde_json::from_str::<serde_json::Value>(t) {
                    if nested.is_object() || nested.is_array() {
                        walk(&nested, nums, out);
                    }
                }
            }
            out.push(ScalarReading { is_text: true, text: s.clone(), reading: reading_of(v, nums) });
        }
        serde_json::Value::Number(n) => {
            out.push(ScalarReading { is_text: false, text: n.to_string(), reading: reading_of(v, nums) });
        }
        serde_json::Value::Array(items) => items.iter().for_each(|x| walk(x, nums, out)),
        serde_json::Value::Object(map) => map.values().for_each(|x| walk(x, nums, out)),
        _ => {}
    }
}

fn table_of(raw: &Raw, nums: &mut Vec<f64>) -> Vec<ScalarReading> {
    let mut table = Vec::new();
    if let Ok((_, Some(body))) = raw {
        if let Ok(v) = serde_json::from_str::<serde_json::Value>(body.trim()) {
            walk(&v, nums, &mut table);
        }
    }
    table
}

/// One window of the card, in numbers.
struct Card {
    used_percent: Option<f64>,
    used: Option<f64>,
    total: Option<f64>,
}

/// The card of a credential's replies, numbers computed as the card does.
fn card(team: Raw, usage: Option<Raw>, sub: Option<Raw>, cfg: Option<Raw>) -> (TokenPlanDecision, Vec<Card>) {
    let mut nums = Vec::new();
    let mut reply = |r: Raw| {
        let t = table_of(&r, &mut nums);
        reply_from_raw(r, &t)
    };
    let bundle = Bundle {
        team: reply(team),
        usage: usage.map(&mut reply),
        subscription: sub.map(&mut reply),
        quota_config: cfg.map(&mut reply),
    };
    let d = entry_from_bundle(&bundle);
    let num = |i: Option<usize>| i.map(|i| nums[i]);
    let cards = d
        .windows
        .iter()
        .map(|w| {
            let total = num(w.total);
            match num(w.ratio) {
                Some(ratio) => {
                    let pct = (ratio * 100.0).clamp(0.0, 100.0);
                    Card { used_percent: Some(pct), used: total.map(|t| ((t * pct / 100.0) * 100.0).round() / 100.0), total }
                }
                None => {
                    let used = if w.used_by_difference {
                        match (total, num(w.remaining)) {
                            (Some(t), Some(r)) => Some((t - r).max(0.0)),
                            _ => None,
                        }
                    } else {
                        num(w.used)
                    };
                    let used_percent = match (used, total) {
                        (Some(u), Some(t)) if t > 0.0 => Some((u / t * 100.0).clamp(0.0, 100.0)),
                        _ => None,
                    };
                    Card { used_percent, used, total }
                }
            }
        })
        .collect();
    (d, cards)
}

fn ok_raw(body: &str) -> Raw {
    Ok((200, Some(body.to_string())))
}

#[test]
fn parses_team_summary_with_nested_string_envelope() {
    let body = r#"{
        "successResponse": true,
        "data": "{\"TotalCount\":1,\"Data\":{\"TotalCount\":1,\"planName\":\"企业版\",\"usedQuota\":\"1,200\",\"totalQuota\":6000,\"remainingQuota\":4800,\"nextRefreshTime\":\"2030-10-27T05:06:07Z\"}}"
    }"#;
    let (d, c) = card(ok_raw(body), None, None, None);
    assert_eq!(d.status, "ok");
    assert_eq!(d.plan_name.as_deref(), Some("企业版"));
    assert_eq!(d.windows.len(), 1);
    let w = &d.windows[0];
    assert_eq!(w.key, "credits");
    assert_eq!(w.title, "积分池");
    assert_eq!(c[0].used, Some(1200.0));
    assert_eq!(c[0].total, Some(6000.0));
    assert_eq!(c[0].used_percent, Some(20.0));
    assert_eq!(w.unit, "积分");
    assert_eq!(w.resets_at, Some(1_919_307_967_000));
    let body = r#"{"successResponse":true,"Data":{"TotalCount":2,"totalQuota":100,
        "remainingQuota":30,"nextRefreshTime":1730018000}}"#;
    let (d, c) = card(ok_raw(body), None, None, None);
    assert_eq!(d.status, "ok");
    assert_eq!(c[0].used, Some(70.0));
    assert_eq!(d.plan_name.as_deref(), Some("TOKEN PLAN"));
}

#[test]
fn parses_personal_double_windows_with_quota_config() {
    let (d, c) = card(
        ok_raw(r#"{"successResponse":true,"Data":{"TotalCount":0}}"#),
        Some(ok_raw(
            r#"{"successResponse":true,"data":"{\"per5HourPercentage\":0.25,\"per1WeekPercentage\":0.5,\"per5HourResetTime\":1730018000,\"per1WeekResetTime\":\"2030-10-27 05:06:07\"}"}"#,
        )),
        Some(ok_raw(r#"{"successResponse":true,"data":{"specCode":"pro"}}"#)),
        Some(ok_raw(r#"{"successResponse":true,"data":{"pro":{"five_hour":100,"weekly":500}}}"#)),
    );
    assert_eq!(d.status, "ok");
    assert_eq!(d.plan_name.as_deref(), Some("Pro"));
    assert_eq!(d.windows.len(), 2);
    assert_eq!(d.windows[0].key, "hour5");
    assert_eq!(d.windows[0].title, "5h");
    assert_eq!(c[0].used_percent, Some(25.0));
    assert_eq!(c[0].total, Some(100.0));
    assert_eq!(c[0].used, Some(25.0));
    assert_eq!(d.windows[0].resets_at, Some(1_730_018_000_000));
    assert_eq!(d.windows[1].key, "weekly");
    assert_eq!(d.windows[1].title, "7天");
    assert_eq!(c[1].used_percent, Some(50.0));
    assert_eq!(c[1].total, Some(500.0));
    assert_eq!(c[1].used, Some(250.0));
    assert_eq!(d.windows[1].resets_at, Some(1_919_307_967_000));
    let (d, c) = card(
        ok_raw(r#"{"successResponse":true,"Data":{"TotalCount":0}}"#),
        Some(ok_raw(r#"{"successResponse":true,"data":{"per1WeekPercentage":0.3}}"#)),
        None,
        None,
    );
    assert_eq!(d.status, "ok");
    assert_eq!(d.plan_name.as_deref(), Some("Personal"));
    assert_eq!(d.windows.len(), 1);
    assert_eq!(c[0].used_percent, Some(30.0));
    assert_eq!(c[0].total, None);
    assert_eq!(c[0].used, None);
}

#[test]
fn team_total_count_zero_without_usage_reports_no_subscription() {
    for usage in [r#"{"successResponse":true,"data":{}}"#, r#"{"successResponse":true,"data":{"other":1}}"#] {
        let (d, _) = card(ok_raw(r#"{"successResponse":true,"Data":{"TotalCount":0}}"#), Some(ok_raw(usage)), None, None);
        assert_eq!(d.status, "error");
        assert!(d.windows.is_empty());
        assert_eq!(d.message.as_deref(), Some("未找到有效的百炼 Token 包订阅"));
    }
}

#[test]
fn team_failure_degrades_to_personal_windows() {
    for team in [
        Err("阿里 Token Plan 额度网络错误或服务不可用: timeout".to_string()),
        ok_raw(r#"{"successResponse":false,"errorMsg":"internal error"}"#),
        Ok((500, Some("internal".to_string()))),
    ] {
        let (d, c) = card(team, Some(ok_raw(r#"{"successResponse":true,"data":{"per5HourPercentage":0.4}}"#)), None, None);
        assert_eq!(d.status, "ok");
        assert_eq!(d.windows.len(), 1);
        assert_eq!(c[0].used_percent, Some(40.0));
    }
}

#[test]
fn unauthorized_login_html_and_payload_map_expired() {
    for team in [
        Ok((401u16, Some(r#"{"detail":"unauthorized"}"#.to_string()))),
        Ok((403u16, Some("forbidden".to_string()))),
        ok_raw("<!DOCTYPE html><html><body>please login</body></html>"),
        ok_raw(r#"{"successResponse":false,"errorMsg":"NeedLogin"}"#),
        ok_raw(r#"{"code":"NeedLogin","data":{}}"#),
    ] {
        let (d, _) = card(team, None, None, None);
        assert_eq!(d.status, "expired");
        assert_eq!(d.message.as_deref(), Some("会话已失效，请重新登录百炼控制台后更新 Cookie"));
        assert!(d.windows.is_empty());
    }
}

#[test]
fn workspace_not_authorized_maps_to_sec_token_error() {
    let body = r#"{"successResponse":false,
        "errorCode":"BailianGateway.Workspace.NotAuthorised",
        "errorMsg":"workspace not authorised"}"#;
    let (d, _) = card(ok_raw(body), None, None, None);
    assert_eq!(d.status, "error");
    assert_eq!(d.message.as_deref(), Some("缺少控制台 sec_token，请从百炼订阅页请求中复制完整 Cookie"));
    let (d, _) = card(ok_raw(body), Some(ok_raw(r#"{"successResponse":true,"data":{"per5HourPercentage":0.1}}"#)), None, None);
    assert_eq!(d.status, "ok");
    assert_eq!(d.windows.len(), 1);
}

#[test]
fn other_failures_map_to_error() {
    let (d, _) = card(
        Ok((500, Some("internal".to_string()))),
        Some(Err("阿里 Token Plan 额度网络错误或服务不可用: dns".to_string())),
        None,
        None,
    );
    assert_eq!(d.status, "error");
    let msg = d.message.expect("error 条目必须有原因");
    assert!(msg.contains("网络错误或服务不可用"), "{msg}");
    assert!(!msg.contains("Cookie="), "错误消息不得含 Cookie 内容");
    let (d, _) = card(
        ok_raw(r#"{"successResponse":true,"Data":{"TotalCount":0}}"#),
        Some(ok_raw(r#"{"successResponse":false,"errorMsg":"rate limited"}"#)),
        None,
        None,
    );
    assert_eq!(d.status, "error");
    assert_eq!(d.message.as_deref(), Some("未找到有效的百炼 Token 包订阅"));
    let (d, _) = card(
        Ok((500, Some("internal".to_string()))),
        Some(ok_raw(r#"{"successResponse":false,"errorMsg":"rate limited"}"#)),
        None,
        None,
    );
    assert_eq!(d.status, "error");
    assert!(d.message.unwrap().contains("rate limited"));
    let (d, _) = card(ok_raw("not json"), None, None, None);
    assert_eq!(d.status, "error");
    assert!(d.message.unwrap().contains("解析失败"));
}

#[test]
fn usage_retry_only_for_success_without_windows() {
    let table = Vec::new();
    assert!(success_payload_without_windows(r#"{"successResponse":true,"data":{}}"#, &table));
    assert!(!success_payload_without_windows(r#"{"successResponse":true,"data":{"per5HourPercentage":0.4}}"#, &table));
    assert!(!success_payload_without_windows(r#"{"successResponse":false,"errorMsg":"x"}"#, &table));
    assert!(!success_payload_without_windows("not json", &table));
}

fn snap(id: &str, label: &str, kind: &str, secret: &str, region: Option<&str>) -> zbar::provider_credentials::CredentialQuerySnapshot {
    zbar::provider_credentials::CredentialQuerySnapshot {
        id: id.into(),
        label: label.into(),
        kind: kind.into(),
        secret: secret.into(),
        region: region.map(|r| r.into()),
    }
}

#[test]
fn non_cookie_and_empty_cookie_credentials_short_circuit() {
    let snapshots = vec![
        snap("a", "apiKey 条目", "apiKey", "sk-x", Some("global")),
        snap("b", "无效 cURL", "cookie", "curl 'https://bailian.console.aliyun.com' -H 'User-Agent: x'", None),
    ];
    let plans = zbar::token_plan::plan_cookie_queries(&snapshots);
    assert_eq!(plans.len(), 1, "apiKey 凭证不应被 cookie 型 provider 消费");
    assert_eq!(plans[0].0, "b");
    match &plans[0].2 {
        Err(m) => assert!(m.contains("解析出 Cookie")),
        Ok(_) => panic!("an empty cookie must short-circuit"),
    }
}

#[test]
fn cookie_query_picks_csrf_and_team_hit_settles() {
    let snapshots = vec![snap("c", "主号", "cookie", "cna=1; login_aliyunid_csrf=t-1; csrf=t-2", None)];
    let plans = zbar::token_plan::plan_cookie_queries(&snapshots);
    match &plans[0].2 {
        Ok((cookie, csrf)) => {
            assert_eq!(cookie, "cna=1; login_aliyunid_csrf=t-1; csrf=t-2");
            assert_eq!(csrf, "t-1");
        }
        Err(m) => panic!("unexpected error {m}"),
    }
    let mut nums = Vec::new();
    let hit = ok_raw(r#"{"successResponse":true,"Data":{"TotalCount":1,"totalQuota":100}}"#);
    let t = table_of(&hit, &mut nums);
    assert!(zbar::token_plan::team_hit(&reply_from_raw(hit, &t)));
    let miss = ok_raw(r#"{"successResponse":true,"Data":{"TotalCount":0}}"#);
    let t = table_of(&miss, &mut nums);
    assert!(!zbar::token_plan::team_hit(&reply_from_raw(miss, &t)));
}
