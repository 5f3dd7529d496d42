use zbar::export_rows::{collect_runs_from_rows, collect_turns_from_rows, pick_pending_user};
use zbar::usage_feed::{SubTurnRow, UsageRun, UsageTurn, MAX_TURNS};

fn main_turn(id: &str, sess: &str, start: i64, end: Option<i64>) -> UsageTurn {
    UsageTurn {
        turn_id: id.to_string(),
        user_message_id: Some(format!("msg_{id}")),
        session_id: sess.to_string(),
        status: "completed".to_string(),
        start,
        end,
        input_tokens: 100,
        output_tokens: 200,
        cache_read: 50,
        cache_write: 10,
        reasoning: 5,
        requests: 2,
        retries: 0,
        tool_calls: 1,
        dur: Some(4000),
        ttft: Some(900),
        sub: None,
        subagent: None,
        models: String::new(),
    }
}

fn sub_row(id: &str, sess: &str, parent: &str, start: i64, end: Option<i64>) -> SubTurnRow {
    SubTurnRow {
        turn_id: id.to_string(),
        session_id: sess.to_string(),
        parent_session_id: Some(parent.to_string()),
        status: "completed".to_string(),
        started_at: start,
        completed_at: end,
        user_message_id: Some(format!("msg_{id}")),
        dur: Some(350),
        ttft: Some(100),
        input_tokens: 30,
        output_tokens: 40,
        cache_read: 20,
        cache_write: 0,
        reasoning: 0,
        requests: 1,
        retries: 0,
        tool_calls: 0,
    }
}

fn run_row(turn_id: &str, sess: &str, parent: Option<&str>, start: i64) -> UsageRun {
    UsageRun {
        turn_id: turn_id.to_string(),
        user_message_id: None,
        session_id: sess.to_string(),
        parent_session_id: parent.map(|p| p.to_string()),
        input_tokens: 10,
        output_tokens: 20,
        cache_read: 3,
        cache_write: 1,
        reasoning: 2,
        requests: 1,
        start,
        merged: None,
        sub: None,
    }
}

#[test]
fn export_keeps_newest_turns_in_start_order() {
    let mut mains: Vec<UsageTurn> = (1..=3005)
        .map(|i| main_turn(&format!("t{i}"), "sess_1", i, Some(i + 1)))
        .collect();
    mains.push(main_turn("no_start", "sess_1", 0, None));
    mains.push(main_turn("", "sess_1", 4000, None));
    let (turns, orphans) = collect_turns_from_rows(mains, Vec::new(), Vec::new());
    assert_eq!(turns.len(), MAX_TURNS);
    assert_eq!(turns[0].turn_id, "t6");
    assert_eq!(turns[MAX_TURNS - 1].turn_id, "t3005");
    assert!(turns.windows(2).all(|w| w[0].start <= w[1].start));
    assert!(turns.iter().all(|t| t.models.is_empty()));
    assert!(orphans.is_empty());
}

#[test]
fn subagent_turn_gets_its_own_row_beside_the_merged_main_row() {
    let mains = vec![main_turn("t1", "sess_1", 1000, Some(5000))];
    let subs = vec![sub_row("s1", "sess_subagent_a", "sess_1", 2000, Some(3000))];
    let models = vec![
        ("t1".to_string(), "glm-4.6".to_string()),
        ("s1".to_string(), "glm-4.5-air".to_string()),
        ("t1".to_string(), "glm-4.6".to_string()),
    ];
    let (turns, orphans) = collect_turns_from_rows(mains, subs, models);
    assert!(orphans.is_empty());
    assert_eq!(turns.len(), 2);
    let main = &turns[0];
    assert_eq!(main.turn_id, "t1");
    assert_eq!(main.input_tokens, 130);
    assert_eq!(main.sub.map(|s| s.n), Some(1));
    assert_eq!(main.dur, Some(4000));
    assert_eq!(main.subagent, None);
    assert_eq!(main.models, "glm-4.6,glm-4.5-air");
    let own = &turns[1];
    assert_eq!(own.turn_id, "s1");
    assert_eq!(own.session_id, "sess_subagent_a");
    assert_eq!(own.user_message_id.as_deref(), Some("msg_s1"));
    assert_eq!(own.start, 2000);
    assert_eq!(own.end, Some(3000));
    assert_eq!(own.input_tokens, 30);
    assert_eq!(own.dur, Some(350));
    assert_eq!(own.sub, None);
    assert_eq!(own.subagent, Some(1));
    assert_eq!(own.models, "glm-4.5-air");
}

#[test]
fn equal_starts_keep_main_rows_first_and_orphans_come_back() {
    let mains = vec![
        main_turn("t2", "sess_1", 5000, Some(6000)),
        main_turn("t1", "sess_1", 1000, Some(2000)),
    ];
    let subs = vec![
        sub_row("s_same", "sess_subagent_b", "sess_9", 5000, Some(5500)),
        sub_row("s_early", "sess_subagent_c", "sess_9", 500, Some(800)),
    ];
    let (turns, orphans) = collect_turns_from_rows(mains, subs, Vec::new());
    let ids: Vec<&str> = turns.iter().map(|t| t.turn_id.as_str()).collect();
    assert_eq!(ids, vec!["s_early", "t1", "t2", "s_same"]);
    let orphan_ids: Vec<&str> = orphans.iter().map(|o| o.turn_id.as_str()).collect();
    assert_eq!(orphan_ids, vec!["s_same", "s_early"]);
}

#[test]
fn runs_drop_done_and_broken_rows_and_merge_live_subagents() {
    let rows = vec![
        run_row("turn_done", "sess_1", None, 100),
        run_row("turn_live", "sess_1", Some("stale_parent"), 200),
        run_row("turn_nosess", "", None, 300),
        run_row("turn_nostart", "sess_2", None, 0),
        run_row("turn_sub", "sess_subagent_x", Some("sess_1"), 250),
    ];
    let done = vec!["turn_done".to_string()];
    let runs = collect_runs_from_rows(rows, &done, &[]);
    assert_eq!(runs.len(), 2);
    assert_eq!(runs[0].turn_id, "turn_live");
    assert_eq!(runs[0].parent_session_id, None);
    let sub = runs[0].sub.expect("main run carries its sub-agent totals");
    assert_eq!((sub.n, sub.input_tokens, sub.requests), (1, 10, 1));
    assert_eq!(runs[1].turn_id, "turn_sub");
    assert_eq!(runs[1].parent_session_id.as_deref(), Some("sess_1"));
    assert_eq!(runs[1].merged, Some(1));
}

fn msg(id: &str, sess: &str, t: Option<i64>) -> (String, String, Option<i64>) {
    (id.to_string(), sess.to_string(), t)
}

#[test]
fn pending_user_skips_answered_broken_and_stale_messages() {
    let rows = vec![
        msg("m3", "sess_a", Some(9000)),
        msg("m2", "", Some(8000)),
        msg("m1", "sess_b", Some(0)),
        msg("m0", "sess_c", Some(1000)),
        msg("mx", "sess_d", Some(500)),
    ];
    let done = vec!["m3".to_string()];
    let live = vec!["sess_d".to_string()];
    let p = pick_pending_user(rows, &done, 10_000, 2_000, &live).expect("corroborated message");
    assert_eq!((p.id.as_str(), p.session_id.as_str(), p.time_created), ("mx", "sess_d", 500));

    let rows = vec![msg("m5", "sess_e", Some(9_500)), msg("m4", "sess_d", Some(100))];
    let p = pick_pending_user(rows, &done, 10_000, 2_000, &live).expect("fresh message");
    assert_eq!(p.id, "m5");

    let rows = vec![msg("m0", "sess_c", Some(1000)), msg("m9", "sess_c", None)];
    assert!(pick_pending_user(rows, &done, 10_000, 2_000, &live).is_none());
}
