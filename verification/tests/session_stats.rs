use zbar::export_rows::PendingUser;
use zbar::session_stats::{session_totals, speed_state_of, SessionUsageAgg, SpeedState};
use zbar::usage_feed::UsageRun;

fn agg(sess: &str, plain_in: i64, out: i64, cr: i64, rq: i64) -> (String, SessionUsageAgg) {
    (
        sess.to_string(),
        SessionUsageAgg { plain_in, out_tokens: out, cache_read: cr, requests: rq },
    )
}

fn run(sess: &str, start: i64) -> UsageRun {
    UsageRun {
        turn_id: format!("turn_{sess}_{start}"),
        user_message_id: None,
        session_id: sess.to_string(),
        parent_session_id: None,
        input_tokens: 0,
        output_tokens: 0,
        cache_read: 0,
        cache_write: 0,
        reasoning: 0,
        requests: 1,
        start,
        merged: None,
        sub: None,
    }
}

fn names(xs: &[&str]) -> Vec<String> {
    xs.iter().map(|x| x.to_string()).collect()
}

#[test]
fn tree_totals_sum_members_and_track_the_round() {
    let aggs = vec![agg("root", 100, 20, 300, 4), agg("sess_subagent_a", 10, 2, 30, 1), agg("other", 1, 1, 1, 1)];
    let members = names(&["root", "sess_subagent_a", "missing"]);
    let runs = vec![run("sess_subagent_a", 500), run("other", 900)];
    let t = session_totals(&"root".to_string(), &members, &aggs, &runs, &None);
    assert_eq!((t.plain_in, t.out_tokens, t.cache_read, t.requests), (110, 22, 330, 5));
    assert_eq!(t.total, 462);
    assert_eq!(t.member_session_ids, members);
    assert_eq!(t.round_started_at, None);
    assert!(t.generating);

    let pending = Some(PendingUser { id: "m1".into(), session_id: "root".into(), time_created: 600 });
    let t = session_totals(&"root".to_string(), &members, &aggs, &runs, &pending);
    assert_eq!(t.round_started_at, Some(600));
    assert!(t.generating);

    let idle = session_totals(&"other".to_string(), &names(&["other"]), &aggs, &Vec::new(), &pending);
    assert_eq!((idle.total, idle.round_started_at, idle.generating), (3, None, false));
}

#[test]
fn speed_state_comes_from_speed_then_round() {
    assert_eq!(speed_state_of(true, false), SpeedState::Recent);
    assert_eq!(speed_state_of(true, true), SpeedState::Recent);
    assert_eq!(speed_state_of(false, true), SpeedState::Measuring);
    assert_eq!(speed_state_of(false, false), SpeedState::Unavailable);
    let a = SessionUsageAgg { plain_in: 1, out_tokens: 2, cache_read: 3, requests: 9 };
    assert_eq!(a.total(), 6);
}
