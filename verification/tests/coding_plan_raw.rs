use zbar::coding_plan::{entry_from_raw, CodingPlanDecision, NumReading, Reading};
use zbar::reply_doc::{read_body, ScalarReading};

const NOW: i64 = 1_800_000_000_000;

fn flexible_f64(v: &serde_json::Value) -> Option<f64> {
    match v {
        serde_json::Value::Number(n) => n.as_f64(),
        serde_json::Value::String(s) => s.trim().parse::<f64>().ok(),
        _ => None,
    }
}

fn time_flexible(v: &serde_json::Value) -> Option<i64> {
    if let Some(n) = flexible_f64(v) {
        return Some(if n > 1_000_000_000_000.0 { n as i64 } else { (n * 1000.0) as i64 });
    }
    let s = v.as_str()?.trim();
    if let Ok(dt) = chrono::DateTime::parse_from_rfc3339(s) {
        return Some(dt.timestamp_millis());
    }
    if let Ok(dt) = chrono::NaiveDateTime::parse_from_str(s, "%Y-%m-%d %H:%M:%S") {
        return Some(dt.and_utc().timestamp_millis());
    }
    None
}

fn num_reading(x: f64, nums: &mut Vec<f64>) -> NumReading {
    nums.push(x);
    NumReading {
        at: nums.len() - 1,
        whole: if x.fract() == 0.0 && x.abs() < 9.0e18 { Some(x as i64) } else { None },
        shown: format!("{x}"),
        positive: x > 0.0,
    }
}

fn reading_of(v: &serde_json::Value, nums: &mut Vec<f64>) -> Reading {
    let amount = match v {
        serde_json::Value::String(s) => s.trim().replace(',', "").parse::<f64>().ok(),
        _ => flexible_f64(v),
    };
    Reading {
        num: flexible_f64(v).map(|x| num_reading(x, nums)),
        amount: amount.map(|x| num_reading(x, nums)),
        nonzero: v.as_f64().map(|x| x != 0.0),
        time_ms: time_flexible(v),
    }
}

fn walk(v: &serde_json::Value, nums: &mut Vec<f64>, out: &mut Vec<ScalarReading>) {
    match v {
        serde_json::Value::String(s) => {
            let t = s.trim();
            if t.starts_with('{') || t.starts_with('[') {
                if let Ok(nested) = serde_json::from_str::<serde_json::Value>(t) {
                    if nested.is_object() || nested.is_array() {
                        walk(&nested, nums, out);
                    }
                }
            }
            out.push(ScalarReading { is_text: true, text: s.clone(), reading: reading_of(v, nums) });
        }
        serde_json::Value::Number(n) => {
            out.push(ScalarReading { is_text: false, text: n.to_string(), reading: reading_of(v, nums) });
        }
        serde_json::Value::Array(items) => items.iter().for_each(|x| walk(x, nums, out)),
        serde_json::Value::Object(map) => map.values().for_each(|x| walk(x, nums, out)),
        _ => {}
    }
}

/// The card of a query's result, with the numbers its windows point to.
fn entry(raw: &Result<(u16, Option<String>), String>) -> (CodingPlanDecision, Vec<f64>) {
    let mut nums = Vec::new();
    let mut table = Vec::new();
    if let Ok((_, Some(body))) = raw {
        if let Ok(v) = serde_json::from_str::<serde_json::Value>(body) {
            walk(&v, &mut nums, &mut table);
        }
    }
    (entry_from_raw(raw, &table, NOW).0, nums)
}

fn ok_raw(body: &str) -> Result<(u16, Option<String>), String> {
    Ok((200, Some(body.to_string())))
}

fn pct(d: &CodingPlanDecision, nums: &[f64], i: usize) -> Option<f64> {
    let w = &d.windows[i];
    match (w.used.map(|k| nums[k]), w.total.map(|k| nums[k])) {
        (Some(u), Some(t)) if t > 0.0 => Some((u / t * 100.0).clamp(0.0, 100.0)),
        _ => None,
    }
}

const SAMPLE_BODY: &str = r#"{
    "requestId": "req-1",
    "success": true,
    "data": "{\"codingPlanInstanceInfos\":[{\"planName\":\"Coding Plan Lite\",\"instanceName\":\"实例A\",\"packageName\":\"qwen-coder-lite\",\"status\":\"VALID\",\"codingPlanQuotaInfo\":{\"per5HourUsedQuota\":30,\"per5HourTotalQuota\":100,\"per5HourQuotaNextRefreshTime\":1730018000,\"perWeekUsedQuota\":120,\"perWeekTotalQuota\":500,\"perWeekQuotaNextRefreshTime\":\"2030-10-27 05:06:07\",\"perBillMonthUsedQuota\":300,\"perBillMonthTotalQuota\":1000,\"perBillMonthQuotaNextRefreshTime\":\"2030-10-01T00:00:00Z\"}}]}"
}"#;

#[test]
fn parses_sample_three_windows_with_string_envelope() {
    let (d, nums) = entry(&ok_raw(SAMPLE_BODY));
    assert_eq!(d.status, "ok");
    assert_eq!(d.plan_name.as_deref(), Some("Coding Plan Lite"));
    assert_eq!(d.windows.len(), 3);
    let hour5 = &d.windows[0];
    assert_eq!(hour5.key, "hour5");
    assert_eq!(hour5.title, "5h");
    assert_eq!(hour5.used.map(|k| nums[k]), Some(30.0));
    assert_eq!(hour5.total.map(|k| nums[k]), Some(100.0));
    assert_eq!(pct(&d, &nums, 0), Some(30.0));
    assert_eq!(hour5.unit, "次");
    assert_eq!(hour5.resets_at, Some(1_730_018_000_000));
    let weekly = &d.windows[1];
    assert_eq!(weekly.key, "weekly");
    assert_eq!(weekly.title, "本周");
    assert_eq!(pct(&d, &nums, 1), Some(24.0));
    assert_eq!(weekly.resets_at, Some(1_919_307_967_000));
    let monthly = &d.windows[2];
    assert_eq!(monthly.key, "monthly");
    assert_eq!(monthly.title, "本月");
    assert_eq!(pct(&d, &nums, 2), Some(30.0));
    assert_eq!(monthly.resets_at, Some(1_917_043_200_000));
}

#[test]
fn parses_plain_top_level_envelope() {
    let raw = ok_raw(
        r#"{"code":200,"data":{"codingPlanInstanceInfos":[
           {"instanceName":"备用实例名","packageName":"pkg-pro","status":"ACTIVE",
            "codingPlanQuotaInfo":{"per5HourUsedQuota":10,"per5HourTotalQuota":200}}]}}"#,
    );
    let (d, nums) = entry(&raw);
    assert_eq!(d.status, "ok");
    assert_eq!(d.plan_name.as_deref(), Some("备用实例名"));
    assert_eq!(d.windows.len(), 1);
    assert_eq!(pct(&d, &nums, 0), Some(5.0));
    assert_eq!(d.windows[0].resets_at, None);
}

#[test]
fn plan_name_prefers_plan_name_field() {
    let raw = ok_raw(
        r#"{"data":{"codingPlanInstanceInfos":[
           {"planName":"Plan-Top","instanceName":"Inst-Mid","packageName":"Pkg-Low",
            "codingPlanQuotaInfo":{"perWeekUsedQuota":1,"perWeekTotalQuota":10}}]}}"#,
    );
    assert_eq!(entry(&raw).0.plan_name.as_deref(), Some("Plan-Top"));
    let raw = ok_raw(
        r#"{"data":{"codingPlanInstanceInfos":[
           {"instanceName":"Inst-Mid","packageName":"Pkg-Low",
            "codingPlanQuotaInfo":{"perWeekUsedQuota":1,"perWeekTotalQuota":10}}]}}"#,
    );
    assert_eq!(entry(&raw).0.plan_name.as_deref(), Some("Inst-Mid"));
    let raw = ok_raw(
        r#"{"data":{"codingPlanInstanceInfos":[
           {"packageName":"Pkg-Low",
            "codingPlanQuotaInfo":{"perWeekUsedQuota":1,"perWeekTotalQuota":10}}]}}"#,
    );
    assert_eq!(entry(&raw).0.plan_name.as_deref(), Some("Pkg-Low"));
}

#[test]
fn console_need_login_maps_to_error() {
    for body in [r#"{"code":"ConsoleNeedLogin","data":null}"#, r#"{"status":"-1|NEED_LOGIN","data":null}"#] {
        let (d, _) = entry(&ok_raw(body));
        assert_eq!(d.status, "error", "{body} 应判定 error");
        assert!(d.windows.is_empty());
        assert_eq!(d.message.as_deref(), Some("该账号需要网页登录会话，API Key 模式暂不支持此账号"));
    }
    let (d, _) = entry(&ok_raw(r#"{"message":"please log in to console"}"#));
    assert_eq!(d.status, "error");
    assert_eq!(d.message.as_deref(), Some("该账号需要网页登录会话，API Key 模式暂不支持此账号"));
}

#[test]
fn unauthorized_maps_to_expired() {
    for status in [401u16, 403] {
        let raw = Ok((status, Some(r#"{"message":"forbidden"}"#.to_string())));
        let (d, _) = entry(&raw);
        assert_eq!(d.status, "expired", "HTTP {status} 应判定为 expired");
        assert_eq!(d.message.as_deref(), Some("API Key 无效或已过期"));
        assert!(d.windows.is_empty());
    }
    let (d, _) = entry(&ok_raw(r#"{"statusCode":401,"message":"Invalid API Key"}"#));
    assert_eq!(d.status, "expired");
    assert_eq!(d.message.as_deref(), Some("API Key 无效或已过期"));
}

#[test]
fn multiple_instances_picks_active_one() {
    let raw = ok_raw(
        r#"{"data":{"codingPlanInstanceInfos":[
           {"planName":"Expired-Plan","status":"EXPIRED",
            "codingPlanQuotaInfo":{"per5HourUsedQuota":99,"per5HourTotalQuota":100}},
           {"planName":"Active-Plan","status":"VALID","isActive":true,
            "codingPlanQuotaInfo":{"per5HourUsedQuota":20,"per5HourTotalQuota":100,
             "perWeekUsedQuota":5,"perWeekTotalQuota":10}}]}}"#,
    );
    let (d, nums) = entry(&raw);
    assert_eq!(d.status, "ok");
    assert_eq!(d.plan_name.as_deref(), Some("Active-Plan"));
    assert_eq!(pct(&d, &nums, 0), Some(20.0));
    let raw = ok_raw(
        r#"{"data":{"codingPlanInstanceInfos":[
           {"planName":"First","status":"EXPIRED",
            "codingPlanQuotaInfo":{"per5HourUsedQuota":9,"per5HourTotalQuota":10}},
           {"planName":"Second","status":"STOPPED",
            "codingPlanQuotaInfo":{"per5HourUsedQuota":1,"per5HourTotalQuota":10}}]}}"#,
    );
    let (d, nums) = entry(&raw);
    assert_eq!(d.plan_name.as_deref(), Some("First"));
    assert_eq!(pct(&d, &nums, 0), Some(90.0));
}

#[test]
fn time_fields_parse_flexible_shapes() {
    let raw = ok_raw(
        r#"{"data":{"codingPlanInstanceInfos":[{"status":"VALID",
           "codingPlanQuotaInfo":{"per5HourUsedQuota":1,"per5HourTotalQuota":2,
           "per5HourQuotaNextRefreshTime":1730018000000}}]}}"#,
    );
    assert_eq!(entry(&raw).0.windows[0].resets_at, Some(1_730_018_000_000));
    let raw = ok_raw(
        r#"{"data":{"codingPlanInstanceInfos":[{"status":"VALID",
           "codingPlanQuotaInfo":{"per5HourUsedQuota":1,"per5HourTotalQuota":2,
           "per5HourQuotaNextRefreshTime":"1730018000"}}]}}"#,
    );
    assert_eq!(entry(&raw).0.windows[0].resets_at, Some(1_730_018_000_000));
    let raw = ok_raw(
        r#"{"data":{"codingPlanInstanceInfos":[{"status":"VALID",
           "codingPlanQuotaInfo":{"per5HourUsedQuota":1,"per5HourTotalQuota":2,
           "per5HourQuotaNextRefreshTime":"n/a"}}]}}"#,
    );
    let (d, _) = entry(&raw);
    assert_eq!(d.status, "ok");
    assert_eq!(d.windows[0].resets_at, None);
}

#[test]
fn failures_map_to_error() {
    let raw: Result<(u16, Option<String>), String> = Err("网络错误或服务不可用: connection timed out".to_string());
    let (d, _) = entry(&raw);
    assert_eq!(d.status, "error");
    assert!(d.message.unwrap().contains("网络错误或服务不可用"));
    let (d, _) = entry(&Ok((500, Some("internal".to_string()))));
    assert_eq!(d.status, "error");
    assert!(d.message.unwrap().contains("500"));
    for body in ["", "not json"] {
        let (d, _) = entry(&ok_raw(body));
        assert_eq!(d.status, "error", "body={body} 应判定 error");
    }
    let (d, _) = entry(&ok_raw(r#"{"statusCode":1001,"message":"internal error"}"#));
    assert_eq!(d.status, "error");
    let message = d.message.expect("error 条目必须有原因");
    assert!(message.contains("internal error"), "消息应带 message: {message}");
    assert!(!message.contains("sk-"), "错误消息不得含 secret 片段");
}

#[test]
fn missing_quota_maps_to_error() {
    let (d, _) = entry(&ok_raw(r#"{"data":{}}"#));
    assert_eq!(d.status, "error");
    assert!(d.message.unwrap().contains("缺少配额数据"));
    let (d, _) = entry(&ok_raw(r#"{"data":{"codingPlanInstanceInfos":[{"planName":"P","status":"VALID"}]}}"#));
    assert_eq!(d.status, "error");
    assert!(d.message.unwrap().contains("缺少配额数据"));
}

#[test]
fn body_read_opens_embedded_documents() {
    let table = vec![];
    let q = read_body(r#"{"a":"{\"b\":[1,\"x\"]}","c":null}"#, &table);
    assert!(q.is_some());
    assert!(read_body("not json", &table).is_none());
    // A string that is no JSON object stays a string.
    match read_body(r#"{"a":" {oops"}"#, &table) {
        Some(zbar::coding_plan::QDoc::Obj(es)) => {
            assert!(matches!(&es[0].1, zbar::coding_plan::QDoc::Str(s, _) if s == " {oops"));
        }
        _ => panic!("an object was expected"),
    }
}
