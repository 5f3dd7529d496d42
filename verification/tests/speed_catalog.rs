use zbar::speed_catalog::{
    request_order, session_ids_for_rows, RequestRow, RequestTiming, SpeedCatalog,
};
use zbar::session_stats::SessionTotals;
use zbar::speed_view::{session_latest, SpeedView};
use zbar::usage_feed::{UsageRun, UsageTurn};

fn timing(started: Option<i64>, completed: Option<i64>, duration: Option<i64>) -> RequestTiming {
    RequestTiming {
        output_tokens: 0,
        started_at: started,
        first_token_at: None,
        completed_at: completed,
        duration_ms: duration,
    }
}

fn row(sess: Option<&str>, turn: Option<&str>, out: i64, started: i64, completed: i64, done: bool) -> RequestRow {
    RequestRow {
        session_id: sess.map(|s| s.to_string()),
        turn_id: turn.map(|t| t.to_string()),
        output_tokens: out,
        started_at: Some(started),
        first_token_at: Some(started + 10),
        completed_at: Some(completed),
        duration_ms: None,
        completed: done,
    }
}

#[test]
fn request_order_prefers_completion_then_start_plus_duration() {
    assert_eq!(request_order(&timing(Some(10), Some(500), Some(40))), 500);
    assert_eq!(request_order(&timing(Some(10), Some(0), Some(40))), 50);
    assert_eq!(request_order(&timing(Some(10), None, Some(0))), 10);
    assert_eq!(request_order(&timing(Some(i64::MAX - 5), None, Some(40))), i64::MAX - 5);
    assert_eq!(request_order(&timing(Some(-100), None, Some(40))), -60);
    assert_eq!(request_order(&timing(Some(-100), None, None)), 0);
    assert_eq!(request_order(&timing(None, None, Some(40))), 0);
}

#[test]
fn catalog_keeps_the_latest_request_per_session_and_turn() {
    let rows = vec![
        row(Some("sess_a"), Some("t1"), 10, 50, 100, true),
        row(Some("sess_a"), Some("t1"), 20, 60, 200, true),
        row(Some("sess_a"), Some("t2"), 30, 70, 150, true),
        row(Some("sess_a"), Some("t2"), 40, 80, 150, false),
        row(None, Some("t9"), 99, 1, 999, true),
        row(Some(""), Some("t9"), 99, 1, 999, true),
        row(Some("sess_b"), None, 5, 1, 120, true),
    ];
    let cat = SpeedCatalog::from_rows(&rows);
    let s = cat.for_session("sess_a").expect("session a");
    assert_eq!((s.order, s.timing.output_tokens), (200, 20));
    let t1 = cat.for_turn("sess_a", "t1").expect("turn t1");
    assert_eq!(t1.order, 200);
    let t2 = cat.for_turn("sess_a", "t2").expect("turn t2");
    assert_eq!((t2.order, t2.timing.output_tokens, t2.timing.started_at), (150, 0, Some(80)));
    assert!(cat.for_turn("sess_a", "t9").is_none());
    assert!(cat.for_session("").is_none());
    assert_eq!(cat.for_session("sess_b").map(|r| r.order), Some(120));
    assert!(cat.for_turn("sess_b", "t1").is_none());

    let members = vec!["sess_b".to_string(), "sess_a".to_string(), "sess_x".to_string()];
    assert_eq!(cat.latest_for_members(&members, None).map(|r| r.order), Some(200));
    assert_eq!(cat.latest_for_members(&members, Some(55)).map(|r| r.order), Some(200));
    assert_eq!(cat.latest_for_members(&members, Some(61)), None);
    assert_eq!(cat.latest_for_members(&members[..1], Some(1)).map(|r| r.order), Some(120));
}

fn turn(sess: &str) -> UsageTurn {
    UsageTurn {
        turn_id: format!("turn_{sess}"),
        user_message_id: None,
        session_id: sess.to_string(),
        status: "completed".to_string(),
        start: 1,
        end: Some(2),
        input_tokens: 0,
        output_tokens: 0,
        cache_read: 0,
        cache_write: 0,
        reasoning: 0,
        requests: 0,
        retries: 0,
        tool_calls: 0,
        dur: None,
        ttft: None,
        sub: None,
        subagent: None,
        models: String::new(),
    }
}

fn run(sess: &str) -> UsageRun {
    UsageRun {
        turn_id: format!("run_{sess}"),
        user_message_id: None,
        session_id: sess.to_string(),
        parent_session_id: None,
        input_tokens: 0,
        output_tokens: 0,
        cache_read: 0,
        cache_write: 0,
        reasoning: 0,
        requests: 0,
        start: 1,
        merged: None,
        sub: None,
    }
}

#[test]
fn export_sessions_are_listed_once() {
    let turns = vec![turn("s1"), turn("s2"), turn("s1")];
    let runs = vec![run("s3"), run("s2")];
    let ids = session_ids_for_rows(&turns, &runs, Some("s4"));
    assert_eq!(ids, vec!["s1", "s2", "s3", "s4"]);
    let ids = session_ids_for_rows(&turns, &runs, Some(""));
    assert_eq!(ids, vec!["s1", "s2", "s3"]);
    assert!(session_ids_for_rows(&Vec::new(), &Vec::new(), None).is_empty());
}

fn totals(sess: &str, members: &[&str], round: Option<i64>, generating: bool) -> SessionTotals {
    SessionTotals {
        session_id: sess.to_string(),
        total: 0,
        plain_in: 0,
        out_tokens: 0,
        cache_read: 0,
        requests: 0,
        member_session_ids: members.iter().map(|m| m.to_string()).collect(),
        round_started_at: round,
        generating,
    }
}

#[test]
fn speed_view_keeps_runs_and_active_trees_only() {
    let runs = vec![run("sess_subagent_a")];
    let stats = vec![
        totals("root", &["root", "sess_subagent_a"], None, true),
        totals("idle", &["idle"], None, false),
        totals("waiting", &["waiting"], Some(700), true),
        totals("", &[""], None, false),
    ];
    let view = SpeedView::from_rows(&runs, &stats, Some("waiting"));
    assert_eq!(view.runs.len(), 1);
    assert_eq!(view.runs[0].session_id, "sess_subagent_a");
    let kept: Vec<&str> = view.sessions.iter().map(|s| s.session_id.as_str()).collect();
    assert_eq!(kept, vec!["root", "waiting"]);
    assert_eq!(view.sessions[1].round_started_at, Some(700));
    let ids = view.session_ids();
    assert_eq!(ids, vec!["root", "sess_subagent_a", "waiting"]);

    let rows = vec![
        row(Some("root"), Some("t1"), 10, 100, 300, true),
        row(Some("sess_subagent_a"), Some("t2"), 10, 800, 900, true),
        row(Some("waiting"), Some("t3"), 10, 600, 650, true),
    ];
    let cat = SpeedCatalog::from_rows(&rows);
    assert_eq!(session_latest(&view.sessions[0], &cat).map(|r| r.order), Some(900));
    assert_eq!(session_latest(&view.sessions[1], &cat), None);
    let lone = SpeedView::from_rows(&runs, &vec![totals("root", &[], None, false)], Some("root"));
    assert_eq!(session_latest(&lone.sessions[0], &cat).map(|r| r.order), Some(300));
}
