use zbar::usage_feed::{
    change_key, write_needed,
    attach_models, build_models_map, feed_step, last_activity_ms, merge_sub_runs,
    merge_subagent_turns, render_heartbeat_js, render_usage_js, start, start_if_installed, stop,
    FeedAction, FeedControl, FeedStart, ModelsMap, SubAgg, SubTurnRow, UsageRun, UsageTurn,
    MAX_TURNS, PENDING_SCAN_ROWS, RUN_WINDOW_MS, TOOL_WINDOW_MS, WINDOW_MS,
};

fn turn(id: &str, sess: &str, start: i64, end: Option<i64>) -> UsageTurn {
    UsageTurn {
        turn_id: id.to_string(),
        user_message_id: None,
        session_id: sess.to_string(),
        status: "completed".to_string(),
        start,
        end,
        input_tokens: 100,
        output_tokens: 200,
        cache_read: 50,
        cache_write: 10,
        reasoning: 5,
        requests: 2,
        retries: 0,
        tool_calls: 1,
        dur: Some(4000),
        ttft: Some(900),
        sub: None,
        subagent: None,
        models: String::new(),
    }
}

fn sub_turn(id: &str, sess: &str, parent: &str, start: i64, end: Option<i64>) -> SubTurnRow {
    SubTurnRow {
        turn_id: id.to_string(),
        session_id: sess.to_string(),
        parent_session_id: Some(parent.to_string()),
        status: "completed".to_string(),
        started_at: start,
        completed_at: end,
        user_message_id: Some(format!("msg_{id}")),
        dur: Some(350),
        ttft: Some(100),
        input_tokens: 30,
        output_tokens: 40,
        cache_read: 20,
        cache_write: 0,
        reasoning: 0,
        requests: 1,
        retries: 0,
        tool_calls: 0,
    }
}

fn run(turn_id: &str, sess: &str, parent: Option<&str>, start: i64) -> UsageRun {
    UsageRun {
        turn_id: turn_id.to_string(),
        user_message_id: None,
        session_id: sess.to_string(),
        parent_session_id: parent.map(|p| p.to_string()),
        input_tokens: 10,
        output_tokens: 20,
        cache_read: 3,
        cache_write: 1,
        reasoning: 2,
        requests: 1,
        start,
        merged: None,
        sub: None,
    }
}

#[test]
fn last_activity_takes_max_of_turn_ends_and_run_starts() {
    let t1 = turn("turn_1", "sess_1", 1000, Some(5000));
    let t2 = turn("turn_2", "sess_1", 2000, Some(9000));
    let t_noend = turn("turn_3", "sess_1", 3000, None);
    let r = UsageRun {
        turn_id: "turn_activity".to_string(),
        user_message_id: None,
        session_id: "sess_1".to_string(),
        parent_session_id: None,
        input_tokens: 0,
        output_tokens: 0,
        cache_read: 0,
        cache_write: 0,
        reasoning: 0,
        requests: 1,
        start: 12000,
        merged: None,
        sub: None,
    };
    assert_eq!(last_activity_ms(&vec![], &vec![], None, None), 0, "无活动应为 0");
    let t2b = turn("turn_2", "sess_1", 2000, Some(9000));
    let t_noend_b = turn("turn_3", "sess_1", 3000, None);
    assert_eq!(
        last_activity_ms(&vec![t1, t2b, t_noend_b], &vec![], None, None),
        9000,
        "取完成轮 end 的最大值（缺 end 的行不参与）"
    );
    let t1b = turn("turn_1", "sess_1", 1000, Some(5000));
    assert_eq!(last_activity_ms(&vec![t1b], &vec![r], None, None), 12000, "进行中轮 start 参与取大");
    assert_eq!(last_activity_ms(&vec![turn("turn_2", "sess_1", 2000, Some(9000))], &vec![], Some(9500), None), 9500);
    assert_eq!(
        last_activity_ms(&vec![turn("turn_2", "sess_1", 2000, Some(9000))], &vec![], Some(8000), None),
        9000,
        "更早的 pu 不拉低 la（取大语义）"
    );
    assert_eq!(
        last_activity_ms(&vec![turn("turn_2", "sess_1", 2000, Some(9000))], &vec![], Some(9500), Some(9800)),
        9800,
        "ta 应参与 la 取大（V6）"
    );
    assert_eq!(
        last_activity_ms(&vec![turn("turn_2", "sess_1", 2000, Some(9000))], &vec![], Some(9500), Some(8000)),
        9500,
        "更早的 ta 不拉低 la（取大语义）"
    );
    let before = last_activity_ms(&vec![t2, turn("turn_3", "sess_1", 3000, None)], &vec![], None, None);
    let after = last_activity_ms(&vec![t_noend], &vec![], None, None);
    assert_eq!(before, 9000);
    assert!(after < before, "轮滑出后 la 只会变小：{after}");
    assert_eq!(after, 0, "剩余行无 end 时 la 归 0（更快入睡）");
}

#[test]
fn subagent_merge_by_time_window_orphans_and_overruns() {
    let mut turns = vec![
        turn("turn_main", "sess_main", 1000, Some(5000)),
        turn("turn_other", "sess_other", 1000, Some(9000)),
    ];
    let mut sub4 = sub_turn("turn_sub4", "sess_sub_d", "sess_main", 1100, Some(1500));
    sub4.completed_at = None;
    let subs = vec![
        sub_turn("turn_sub1", "sess_sub_a", "sess_main", 1100, Some(1500)),
        sub_turn("turn_sub2", "sess_sub_b", "sess_main", 2000, Some(3000)),
        sub_turn("turn_sub3", "sess_sub_c", "sess_other", 1200, Some(1400)),
        sub4,
        sub_turn("turn_sub5", "sess_sub_e", "sess_main", 500, Some(900)),
        sub_turn("turn_sub6", "sess_sub_f", "sess_main", 2000, Some(6000)),
    ];
    let (pairs, orphans) = merge_subagent_turns(&mut turns, subs);
    assert_eq!(
        pairs,
        vec![
            ("turn_main".to_string(), "turn_sub1".to_string()),
            ("turn_main".to_string(), "turn_sub2".to_string()),
            ("turn_other".to_string(), "turn_sub3".to_string()),
        ]
    );
    let main = turns.iter().find(|t| t.turn_id == "turn_main").unwrap();
    assert_eq!(main.input_tokens, 160);
    assert_eq!(main.output_tokens, 280);
    assert_eq!(main.cache_read, 90);
    assert_eq!(main.requests, 4);
    assert_eq!(main.dur, Some(4000));
    assert_eq!(main.ttft, Some(900));
    let sub = main.sub.as_ref().expect("并入后应有子聚合");
    assert_eq!(sub.n, 2);
    assert_eq!(sub.requests, 2);
    assert_eq!(sub.input_tokens, 60);
    assert_eq!(sub.output_tokens, 80);
    assert_eq!(sub.cache_read, 40);
    let other = turns.iter().find(|t| t.turn_id == "turn_other").unwrap();
    assert_eq!(other.input_tokens, 130, "另一会话主轮应并入自己的子轮");
    assert_eq!(other.sub.as_ref().unwrap().n, 1);
    assert_eq!(orphans.len(), 1, "游离子轮应仅含 sub5：{orphans:?}");
    assert_eq!(orphans[0].turn_id, "turn_sub5");
}

#[test]
fn model_list_merges_subagent_models_deduplicated() {
    let mut turns = vec![turn("turn_main", "sess_main", 1000, Some(5000))];
    let mut models = ModelsMap::new();
    models.insert("turn_main".to_string(), vec!["GLM-5.3".to_string()]);
    models.insert(
        "turn_sub1".to_string(),
        vec!["GLM-5.3".to_string(), "GLM-4.7".to_string()],
    );
    let pairs = vec![("turn_main".to_string(), "turn_sub1".to_string())];
    attach_models(&mut turns, &models, &pairs);
    assert_eq!(turns[0].models, "GLM-5.3,GLM-4.7", "应去重合并主轮与子轮模型");

    let mut turns = vec![turn("turn_x", "sess", 1, Some(2))];
    attach_models(&mut turns, &ModelsMap::new(), &[]);
    assert_eq!(turns[0].models, "");
}

#[test]
fn build_models_map_dedups_and_keeps_order() {
    let map = build_models_map(vec![
        ("t1".into(), "b-model".into()),
        ("t1".into(), "a-model".into()),
        ("t1".into(), "b-model".into()),
        ("t2".into(), "m".into()),
    ]);
    assert_eq!(map.get("t1").unwrap(), &vec!["b-model".to_string(), "a-model".to_string()]);
    assert_eq!(map.get("t2").unwrap(), &vec!["m".to_string()]);
}

#[test]
fn export_window_and_limit_constants() {
    assert_eq!(WINDOW_MS, 7 * 24 * 3600 * 1000, "导出窗口应为 7 天");
    assert_eq!(MAX_TURNS, 3000, "导出行数上限应为 3000 轮");
    assert_eq!(RUN_WINDOW_MS, 10 * 60 * 1000, "runs 新鲜度窗口应为 10 分钟");
    assert_eq!(PENDING_SCAN_ROWS, 64, "pu 尾部扫查应为 64 行（实测见模块头）");
    assert_eq!(TOOL_WINDOW_MS, 10 * 60 * 1000, "ta 窗口应为 10 分钟（崩溃残留兜底）");
}

#[test]
fn heartbeat_text_has_the_exact_shape() {
    assert_eq!(render_heartbeat_js(1234567), "window.__ZBAR_USAGE_HB__ = 1234567;\n");
    assert_eq!(render_heartbeat_js(0), "window.__ZBAR_USAGE_HB__ = 0;\n");
    assert_eq!(render_heartbeat_js(-42), "window.__ZBAR_USAGE_HB__ = -42;\n");
    assert_eq!(
        render_heartbeat_js(i64::MIN),
        format!("window.__ZBAR_USAGE_HB__ = {};\n", i64::MIN)
    );
}

#[test]
fn usage_text_carries_signals_and_arrays() {
    let text = render_usage_js(100, 90, Some(80), None, Some(-1), "[1]", "[]", "[{\"s\":1}]");
    assert_eq!(
        text,
        "window.__ZBAR_USAGE__ = {\"v\":2,\"ts\":100,\"la\":90,\"pu\":80,\"ta\":null,\"fe\":-1,\"turns\":[1],\"runs\":[],\"sess\":[{\"s\":1}]};\n"
    );
}

#[test]
fn sub_agg_add_counts_one_turn() {
    let mut a = SubAgg::empty();
    a.add(2, 30, 40, 5, 6, 7);
    a.add(1, 1, 1, 1, 1, 1);
    assert_eq!(a.n, 2);
    assert_eq!(a.requests, 3);
    assert_eq!(a.input_tokens, 31);
    assert_eq!(a.reasoning, 8);
}

#[test]
fn live_merge_sums_sub_runs_and_orphans_into_main_run() {
    let mut runs = vec![
        run("t_main", "sess_main", None, 100),
        run("t_sub_a", "sess_subagent_a", Some("sess_main"), 110),
        run("t_sub_b", "sess_subagent_b", Some("sess_main"), 120),
        run("t_sub_c", "sess_subagent_c", Some("sess_nomain"), 130),
    ];
    let orphans = vec![sub_turn("turn_o", "sess_subagent_o", "sess_main", 90, Some(95))];
    merge_sub_runs(&mut runs, &orphans);
    let sub = runs[0].sub.expect("main run gets live sub totals");
    assert_eq!(sub.n, 3);
    assert_eq!(sub.input_tokens, 10 + 10 + 30);
    assert_eq!(sub.requests, 3);
    assert_eq!(runs[1].merged, Some(1));
    assert_eq!(runs[2].merged, Some(1));
    assert_eq!(runs[3].merged, None, "parent without a main run is not marked");
    assert!(runs[1].sub.is_none());
}

#[test]
fn feed_control_start_stop_and_loop_decisions() {
    let mut ctl = FeedControl { stop_requested: false };
    stop(&mut ctl);
    assert!(ctl.stop_requested);
    assert_eq!(feed_step(ctl.stop_requested, true, 5000, 5000), FeedAction::Exit);
    assert_eq!(start_if_installed(&mut ctl, false, false), FeedStart::NotInstalled);
    assert!(ctl.stop_requested);
    assert_eq!(start(&mut ctl, true), FeedStart::AlreadyRunning);
    assert!(!ctl.stop_requested);
    assert_eq!(start_if_installed(&mut ctl, true, false), FeedStart::Spawn);
    assert_eq!(feed_step(false, false, 0, 0), FeedAction::Exit);
    assert_eq!(feed_step(false, true, 2000, 0), FeedAction::ExportFull);
    assert_eq!(feed_step(false, true, 1999, 1000), FeedAction::ExportSpeed);
    assert_eq!(feed_step(false, true, 1999, 999), FeedAction::Sleep);
}

#[test]
fn change_key_ignores_timestamps_and_marks_absent_signals() {
    let k = change_key(Some(5), None, Some(-1), "[1]", "[]", "[]");
    assert_eq!(k, "[1]\u{1}[]\u{1}[]\u{1}5\u{1}-\u{1}-1\u{1}");
    assert!(write_needed(&None, &k));
    assert!(!write_needed(&Some(k.clone()), &k));
    let k2 = change_key(None, None, Some(-1), "[1]", "[]", "[]");
    assert!(write_needed(&Some(k), &k2));
}

#[test]
fn merge_moves_sub_numbers_into_main_turns_without_loss() {
    let mut turns = vec![
        turn("t_a", "sess_p", 1000, Some(5000)),
        turn("t_b", "sess_q", 1000, Some(5000)),
    ];
    let before: i64 = turns.iter().map(|t| t.input_tokens + t.tool_calls).sum();
    let subs = vec![
        sub_turn("s1", "sess_subagent_1", "sess_p", 1500, Some(2000)),
        sub_turn("s2", "sess_subagent_2", "sess_q", 1200, Some(4000)),
        sub_turn("s3", "sess_subagent_3", "sess_x", 1200, Some(4000)),
    ];
    let (pairs, _orphans) = merge_subagent_turns(&mut turns, subs);
    let after: i64 = turns.iter().map(|t| t.input_tokens + t.tool_calls).sum();
    assert_eq!(pairs.len(), 2);
    assert_eq!(after, before + 2 * 30);
    assert_eq!(turns[0].input_tokens, 130);
    assert_eq!(turns[1].output_tokens, 240);
}

#[test]
fn last_activity_grows_with_more_data() {
    let small = last_activity_ms(&vec![turn("t1", "s", 0, Some(3000))], &vec![], None, None);
    let large = last_activity_ms(
        &vec![turn("t1", "s", 0, Some(3000)), turn("t2", "s", 0, Some(2000))],
        &vec![run("r", "s", None, 2500)],
        Some(100),
        None,
    );
    assert_eq!(small, 3000);
    assert!(small <= large);
    assert_eq!(large, 3000);
}
