use zbar::coding_plan::{
    active_signal_score, coding_plan_entry, find_quota_info, pick_instance, plan_name_of, NumReading, QDoc,
    Reading,
};

const NOW: i64 = 1_800_000_000_000;

fn no_reading() -> Reading {
    Reading { num: None, amount: None, nonzero: None, time_ms: None }
}

fn whole(ix: usize, v: i64) -> NumReading {
    NumReading { at: ix, whole: Some(v), shown: v.to_string(), positive: v > 0 }
}

/// A whole JSON number, at position `ix` of the caller's numbers.
fn n(ix: usize, v: i64) -> QDoc {
    let time_ms = if v > 1_000_000_000_000 { v } else { v * 1000 };
    QDoc::Num(Reading {
        num: Some(whole(ix, v)),
        amount: Some(whole(ix, v)),
        nonzero: Some(v != 0),
        time_ms: Some(time_ms),
    })
}

fn s(text: &str) -> QDoc {
    QDoc::Str(text.to_string(), no_reading())
}

fn s_time(text: &str, ms: i64) -> QDoc {
    QDoc::Str(text.to_string(), Reading { num: None, amount: None, nonzero: None, time_ms: Some(ms) })
}

fn obj(entries: Vec<(&str, QDoc)>) -> QDoc {
    let mut es: Vec<(String, QDoc)> = entries.into_iter().map(|(k, v)| (k.to_string(), v)).collect();
    es.sort_by(|a, b| a.0.cmp(&b.0));
    QDoc::Obj(es)
}

fn ok200() -> Result<(u16, Option<String>), String> {
    Ok((200, Some("{..}".to_string())))
}

fn instances(list: Vec<QDoc>) -> QDoc {
    obj(vec![("data", obj(vec![("codingPlanInstanceInfos", QDoc::Arr(list))]))])
}

#[test]
fn parses_plain_top_level_envelope_on_document() {
    let doc = obj(vec![
        ("code", n(0, 200)),
        (
            "data",
            obj(vec![(
                "codingPlanInstanceInfos",
                QDoc::Arr(vec![obj(vec![
                    ("instanceName", s("备用实例名")),
                    ("packageName", s("pkg-pro")),
                    ("status", s("ACTIVE")),
                    ("codingPlanQuotaInfo", obj(vec![("per5HourUsedQuota", n(1, 10)), ("per5HourTotalQuota", n(2, 200))])),
                ])]),
            )]),
        ),
    ]);
    let d = coding_plan_entry(&ok200(), Some(doc), NOW);
    assert_eq!(d.status, "ok");
    assert_eq!(d.plan_name.as_deref(), Some("备用实例名"));
    assert_eq!(d.windows.len(), 1);
    assert_eq!(d.windows[0].key, "hour5");
    assert_eq!(d.windows[0].title, "5h");
    assert_eq!(d.windows[0].unit, "次");
    assert_eq!((d.windows[0].used, d.windows[0].total), (Some(1), Some(2)));
    assert_eq!(d.windows[0].resets_at, None);
}

#[test]
fn three_windows_with_reset_shapes() {
    let quota = obj(vec![
        ("per5HourUsedQuota", n(0, 30)),
        ("per5HourTotalQuota", n(1, 100)),
        ("per5HourQuotaNextRefreshTime", n(2, 1_730_018_000)),
        ("perWeekUsedQuota", n(3, 120)),
        ("perWeekTotalQuota", n(4, 500)),
        ("perWeekQuotaNextRefreshTime", s_time("2030-10-27 05:06:07", 1_919_307_967_000)),
        ("perBillMonthUsedQuota", n(5, 300)),
        ("perBillMonthTotalQuota", n(6, 1000)),
        ("perBillMonthQuotaNextRefreshTime", s_time("2030-10-01T00:00:00Z", 1_917_043_200_000)),
    ]);
    let doc = instances(vec![obj(vec![
        ("planName", s("Coding Plan Lite")),
        ("status", s("VALID")),
        ("codingPlanQuotaInfo", quota),
    ])]);
    let d = coding_plan_entry(&ok200(), Some(doc), NOW);
    assert_eq!(d.status, "ok");
    assert_eq!(d.plan_name.as_deref(), Some("Coding Plan Lite"));
    let keys: Vec<&str> = d.windows.iter().map(|w| w.key.as_str()).collect();
    assert_eq!(keys, vec!["hour5", "weekly", "monthly"]);
    let titles: Vec<&str> = d.windows.iter().map(|w| w.title.as_str()).collect();
    assert_eq!(titles, vec!["5h", "本周", "本月"]);
    assert_eq!(d.windows[0].resets_at, Some(1_730_018_000_000));
    assert_eq!(d.windows[1].resets_at, Some(1_919_307_967_000));
    assert_eq!(d.windows[2].resets_at, Some(1_917_043_200_000));
}

#[test]
fn plan_name_prefers_plan_name_field_on_document() {
    let inst = |fields: Vec<(&str, QDoc)>| {
        let mut f = fields;
        f.push(("codingPlanQuotaInfo", obj(vec![("perWeekUsedQuota", n(0, 1)), ("perWeekTotalQuota", n(1, 10))])));
        instances(vec![obj(f)])
    };
    let d = coding_plan_entry(
        &ok200(),
        Some(inst(vec![("planName", s("Plan-Top")), ("instanceName", s("Inst-Mid")), ("packageName", s("Pkg-Low"))])),
        NOW,
    );
    assert_eq!(d.plan_name.as_deref(), Some("Plan-Top"));
    let d = coding_plan_entry(
        &ok200(),
        Some(inst(vec![("instanceName", s("Inst-Mid")), ("packageName", s("Pkg-Low"))])),
        NOW,
    );
    assert_eq!(d.plan_name.as_deref(), Some("Inst-Mid"));
    let d = coding_plan_entry(&ok200(), Some(inst(vec![("packageName", s("Pkg-Low"))])), NOW);
    assert_eq!(d.plan_name.as_deref(), Some("Pkg-Low"));
    let top = obj(vec![("planName", s("  ")), ("plan_name", s("ignored"))]);
    assert_eq!(plan_name_of(None, &top), None);
}

#[test]
fn console_need_login_maps_to_error_on_document() {
    for (key, val) in [("code", "ConsoleNeedLogin"), ("status", "-1|NEED_LOGIN")] {
        let doc = obj(vec![(key, s(val)), ("data", QDoc::Null)]);
        let d = coding_plan_entry(&ok200(), Some(doc), NOW);
        assert_eq!(d.status, "error", "{key}={val} 应判定 error");
        assert!(d.windows.is_empty());
        assert_eq!(d.message.as_deref(), Some("该账号需要网页登录会话，API Key 模式暂不支持此账号"));
    }
    let d = coding_plan_entry(&ok200(), Some(obj(vec![("message", s("please log in to console"))])), NOW);
    assert_eq!(d.status, "error");
    assert_eq!(d.message.as_deref(), Some("该账号需要网页登录会话，API Key 模式暂不支持此账号"));
}

#[test]
fn unauthorized_maps_to_expired_on_document() {
    for status in [401u16, 403] {
        let raw = Ok((status, Some(r#"{"message":"forbidden"}"#.to_string())));
        let d = coding_plan_entry(&raw, Some(obj(vec![("message", s("forbidden"))])), NOW);
        assert_eq!(d.status, "expired", "HTTP {status} 应判定为 expired");
        assert_eq!(d.message.as_deref(), Some("API Key 无效或已过期"));
        assert!(d.windows.is_empty());
    }
    let doc = obj(vec![("statusCode", n(0, 401)), ("message", s("Invalid API Key"))]);
    let d = coding_plan_entry(&ok200(), Some(doc), NOW);
    assert_eq!(d.status, "expired");
    assert_eq!(d.message.as_deref(), Some("API Key 无效或已过期"));
}

#[test]
fn multiple_instances_picks_active_one_on_document() {
    let quota = |u: i64| obj(vec![("per5HourUsedQuota", n(0, u)), ("per5HourTotalQuota", n(1, 100))]);
    let doc = instances(vec![
        obj(vec![("planName", s("Expired-Plan")), ("status", s("EXPIRED")), ("codingPlanQuotaInfo", quota(99))]),
        obj(vec![
            ("planName", s("Active-Plan")),
            ("status", s("VALID")),
            ("isActive", QDoc::Bool(true, no_reading())),
            ("codingPlanQuotaInfo", quota(20)),
        ]),
    ]);
    let d = coding_plan_entry(&ok200(), Some(doc), NOW);
    assert_eq!(d.status, "ok");
    assert_eq!(d.plan_name.as_deref(), Some("Active-Plan"));
    let doc = instances(vec![
        obj(vec![("planName", s("First")), ("status", s("EXPIRED")), ("codingPlanQuotaInfo", quota(9))]),
        obj(vec![("planName", s("Second")), ("status", s("STOPPED")), ("codingPlanQuotaInfo", quota(1))]),
    ]);
    let d = coding_plan_entry(&ok200(), Some(doc), NOW);
    assert_eq!(d.plan_name.as_deref(), Some("First"));
}

#[test]
fn instance_scores() {
    assert_eq!(active_signal_score(&obj(vec![("status", s(" valid "))]), NOW), 3);
    assert_eq!(active_signal_score(&obj(vec![("instanceStatus", s("Terminated"))]), NOW), -1);
    assert_eq!(active_signal_score(&obj(vec![("active", s(" Yes "))]), NOW), 3);
    assert_eq!(active_signal_score(&obj(vec![("isActive", QDoc::Bool(false, no_reading()))]), NOW), -1);
    assert_eq!(active_signal_score(&obj(vec![("endTime", n(0, NOW + 1))]), NOW), 1);
    assert_eq!(active_signal_score(&obj(vec![("endTime", n(0, NOW))]), NOW), 0);
    assert_eq!(active_signal_score(&obj(vec![("status", s("pending"))]), NOW), 0);
    let list = vec![obj(vec![("endTime", n(0, NOW + 5))]), obj(vec![("status", s("ACTIVE"))])];
    let picked = pick_instance(&list, NOW).unwrap();
    assert!(matches!(picked, QDoc::Obj(es) if es[0].0 == "status"));
    assert!(pick_instance(&vec![], NOW).is_none());
}

#[test]
fn failures_map_to_error_on_document() {
    let raw: Result<(u16, Option<String>), String> = Err("网络错误或服务不可用: connection timed out".to_string());
    let d = coding_plan_entry(&raw, None, NOW);
    assert_eq!(d.status, "error");
    assert!(d.message.unwrap().contains("网络错误或服务不可用"));
    let d = coding_plan_entry(&Ok((500, Some("internal".to_string()))), None, NOW);
    assert_eq!(d.status, "error");
    assert_eq!(d.message.as_deref(), Some("阿里 Coding Plan 额度查询失败（HTTP 500）"));
    let d = coding_plan_entry(&Ok((200, Some("  ".to_string()))), None, NOW);
    assert_eq!(d.message.as_deref(), Some("阿里 Coding Plan 额度响应为空"));
    let d = coding_plan_entry(&Ok((200, Some("not json".to_string()))), None, NOW);
    assert_eq!(d.message.as_deref(), Some("阿里 Coding Plan 额度响应解析失败"));
    let doc = obj(vec![("statusCode", n(0, 1001)), ("message", s("internal error"))]);
    let d = coding_plan_entry(&ok200(), Some(doc), NOW);
    assert_eq!(d.status, "error");
    assert_eq!(d.message.as_deref(), Some("阿里云平台返回错误: internal error（code 1001）"));
    let doc = obj(vec![("code", n(0, 7))]);
    let d = coding_plan_entry(&ok200(), Some(doc), NOW);
    assert_eq!(d.message.as_deref(), Some("阿里云平台返回错误: unknown error（code 7）"));
}

#[test]
fn missing_quota_maps_to_error_on_document() {
    let d = coding_plan_entry(&ok200(), Some(obj(vec![("data", obj(vec![]))])), NOW);
    assert_eq!(d.status, "error");
    assert!(d.message.unwrap().contains("缺少配额数据"));
    let doc = instances(vec![obj(vec![("planName", s("P")), ("status", s("VALID"))])]);
    let d = coding_plan_entry(&ok200(), Some(doc), NOW);
    assert_eq!(d.status, "error");
    assert!(d.message.unwrap().contains("缺少配额数据"));
}

#[test]
fn quota_object_found_by_its_counts() {
    let doc = obj(vec![("data", obj(vec![("usage", obj(vec![("perWeekTotalQuota", n(0, 10))]))]))]);
    let q = find_quota_info(&doc).unwrap();
    assert!(matches!(q, QDoc::Obj(es) if es[0].0 == "perWeekTotalQuota"));
    let d = coding_plan_entry(&ok200(), Some(doc), NOW);
    assert_eq!(d.status, "ok");
    assert_eq!(d.windows[0].key, "weekly");
    assert_eq!((d.windows[0].used, d.windows[0].total), (None, Some(0)));
}
