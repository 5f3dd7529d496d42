use zbar::claude::{backfill_due, cwd_of_line, dedupe_key, resume_line_seq, usable_model};
use zbar::throttle::ImportThrottle;
use zbar::codex::{model_revision_at, snapshot_is_newer};
use zbar::import_plan::{advance, plan_resume, ReadProgress, ResumePlan};
use zbar::timestamps::line_started_at;

#[test]
fn resume_restarts_rewritten_files_and_skips_unchanged() {
    assert_eq!(plan_resume(None, 10), Some(ResumePlan { start_offset: 0, reparse: true }));
    assert_eq!(plan_resume(Some((40, 100)), 90), Some(ResumePlan { start_offset: 0, reparse: true }));
    assert_eq!(plan_resume(Some((40, 100)), 120), Some(ResumePlan { start_offset: 40, reparse: false }));
    assert_eq!(plan_resume(Some((100, 100)), 100), None);
}

#[test]
fn progress_only_counts_complete_lines() {
    let p = ReadProgress { pos: 10, last_complete_end: 10 };
    let p = advance(p, 5, true);
    assert_eq!(p, ReadProgress { pos: 15, last_complete_end: 15 });
    let p = advance(p, 3, false);
    assert_eq!(p, ReadProgress { pos: 18, last_complete_end: 15 });
}

#[test]
fn dedupe_keys_prefer_message_ids() {
    assert_eq!(dedupe_key(Some("msg_01abc"), "sess-1", 7), "msg_01abc");
    assert_eq!(dedupe_key(Some(""), "sess-1", 7), "sess-1|7");
    assert_eq!(dedupe_key(Some("a|b"), "sess-1", 7), "sess-1|7");
    assert_eq!(dedupe_key(None, "sess-1", -2), "sess-1|-2");
}

#[test]
fn line_numbers_resume_after_the_largest_used() {
    let keys = vec![
        "s1|3".to_string(),
        "s1|12".to_string(),
        "s1|x".to_string(),
        "s10|99".to_string(),
        "msg_1".to_string(),
        "s1|+5".to_string(),
    ];
    assert_eq!(resume_line_seq(&keys, "s1"), 12);
    assert_eq!(resume_line_seq(&keys, "s2"), 0);
    assert_eq!(resume_line_seq(&["s|-4".to_string()], "s"), -4);
    assert_eq!(resume_line_seq(&["s|9223372036854775808".to_string()], "s"), 0);
    assert_eq!(resume_line_seq(&["s|-9223372036854775808".to_string()], "s"), i64::MIN);
}

#[test]
fn usable_lines_need_real_models_and_timestamps() {
    assert!(usable_model(Some("sonnet-4")));
    assert!(!usable_model(Some("<synthetic>")));
    assert!(!usable_model(Some("")));
    assert!(!usable_model(None));
    assert_eq!(cwd_of_line(Some("  /work/app  ")).as_deref(), Some("/work/app"));
    assert_eq!(cwd_of_line(Some("   ")), None);
    assert_eq!(line_started_at(Some("2026-06-22T12:41:14.214Z")), Some(1782132074214));
    assert_eq!(line_started_at(Some("not a time")), None);
    assert_eq!(line_started_at(None), None);
}

#[test]
fn codex_revisions_increase_and_snapshots_do_not_regress() {
    assert_eq!(model_revision_at(1000, 5), 1000);
    assert_eq!(model_revision_at(1000, 2000), 2001);
    assert_eq!(model_revision_at(0, i64::MAX), i64::MAX);
    assert!(snapshot_is_newer(None, 5));
    assert!(snapshot_is_newer(Some(5), 5));
    assert!(!snapshot_is_newer(Some(6), 5));
}

#[test]
fn project_backfill_runs_at_most_every_thirty_seconds() {
    let mut gate = ImportThrottle { last_import_ms: None };
    assert!(backfill_due(&mut gate, 1_000));
    assert_eq!(gate.last_import_ms, Some(1_000));
    assert!(!backfill_due(&mut gate, 30_999));
    assert_eq!(gate.last_import_ms, Some(1_000));
    assert!(backfill_due(&mut gate, 31_000));
    assert_eq!(gate.last_import_ms, Some(31_000));
    assert!(!gate.check_every(31_500, 1_000));
    assert!(gate.check_every(32_000, 1_000));
}
