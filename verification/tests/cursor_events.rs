use zbar::cursor::CursorEventTokens;
use zbar::cursor_events::{aggregate_event_tokens, current_model, CursorEvent};

fn ev(ts: Option<i64>, toks: Option<(i64, i64, i64, i64)>, model: Option<&str>, day: Option<&str>) -> CursorEvent {
    CursorEvent {
        timestamp: ts,
        tokens: toks.map(|(i, o, w, r)| CursorEventTokens {
            input_tokens: Some(i),
            output_tokens: Some(o),
            cache_write_tokens: Some(w),
            cache_read_tokens: Some(r),
        }),
        model: model.map(|m| m.to_string()),
        day: day.map(|d| d.to_string()),
    }
}

#[test]
fn event_totals_skip_invalid_and_empty_events() {
    let events = vec![
        ev(Some(1000), Some((100, 50, 10, 200)), Some("gpt"), Some("2026-08-13")),
        ev(Some(2000), Some((0, 0, 0, 0)), Some("gpt"), Some("2026-08-13")),
        ev(None, Some((5, 5, 5, 5)), Some("gpt"), None),
        ev(Some(3000), Some((-7, 20, 0, 0)), None, Some("2026-08-14")),
        ev(Some(4000), None, Some("gpt"), Some("2026-08-14")),
        ev(Some(5000), Some((1, 1, 1, 1)), Some("gpt"), Some("2026-08-13")),
    ];
    let (sum, models, model_of) = aggregate_event_tokens(&events, false);
    assert_eq!((sum.tokens, sum.input, sum.output, sum.cache_read, sum.requests), (384, 101, 71, 201, 3));
    let keys: Vec<&str> = models.iter().map(|g| g.key.as_str()).collect();
    assert_eq!(keys, vec!["gpt", "unknown"]);
    assert_eq!((models[0].totals.tokens, models[0].totals.requests), (364, 2));
    assert_eq!((models[1].totals.tokens, models[1].totals.input), (20, 0));
    assert_eq!(model_of, vec![Some(0), None, None, Some(1), None, Some(0)]);

    let (_, days, day_of) = aggregate_event_tokens(&events, true);
    let keys: Vec<&str> = days.iter().map(|g| g.key.as_str()).collect();
    assert_eq!(keys, vec!["2026-08-13", "2026-08-14"]);
    assert_eq!((days[0].totals.tokens, days[0].totals.requests), (364, 2));
    assert_eq!(day_of, vec![Some(0), None, None, Some(1), None, Some(0)]);
}

#[test]
fn event_totals_of_nothing() {
    let (sum, groups, of) = aggregate_event_tokens(&vec![], false);
    assert_eq!((sum.tokens, sum.requests), (0, 0));
    assert!(groups.is_empty() && of.is_empty());
}

#[test]
fn current_model_is_the_latest_named_event() {
    let events = vec![
        ev(Some(1000), None, Some("gpt-a"), None),
        ev(Some(3000), None, Some("gpt-b"), None),
        ev(Some(3000), None, Some("gpt-c"), None),
        ev(Some(9000), None, Some(""), None),
        ev(Some(-5), None, Some("gpt-d"), None),
        ev(None, None, Some("gpt-e"), None),
        ev(Some(2000), None, None, None),
    ];
    // Ties go to the later event, as `max_by_key` does.
    assert_eq!(current_model(&events), Some(("gpt-c".to_string(), 3000)));
    assert_eq!(current_model(&vec![ev(Some(1), None, None, None)]), None);
}
