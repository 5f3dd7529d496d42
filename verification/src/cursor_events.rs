//! Cursor usage events added up: the token and request totals of the
//! events that count, and the same totals per model and per day. The costs
//! are floating point and stay with the caller, which gets for each event
//! the group it falls in.
use crate::cursor::{event_tokens, pos, CursorEventTokens};
use crate::text::{chars_eq, chars_of};
use vstd::prelude::*;

verus! {

/// One usage event: its instant, token counts, model, and the local day it
/// falls on (`yyyy-MM-dd`, none when the instant has no local day).
pub struct CursorEvent {
    pub timestamp: Option<i64>,
    pub tokens: Option<CursorEventTokens>,
    pub model: Option<String>,
    pub day: Option<String>,
}

/// Token, input, output, cache-read and request totals.
pub struct EventTotals {
    pub tokens: i64,
    pub input: i64,
    pub output: i64,
    pub cache_read: i64,
    pub requests: i64,
}

/// The totals of one model or one day.
pub struct EventGroup {
    pub key: String,
    pub totals: EventTotals,
}

/// An event counts when it has a positive instant and token usage with a
/// positive total.
pub open spec fn counted(e: CursorEvent) -> bool {
    match (e.timestamp, e.tokens) {
        (Some(ts), Some(t)) => ts > 0 && event_tokens(t) > 0,
        _ => false,
    }
}

/// The group of an event: its model (`unknown` without one), or its day.
pub open spec fn key_of(e: CursorEvent, by_day: bool) -> Option<Seq<char>> {
    if by_day {
        match e.day {
            Some(d) => Some(d@),
            None => None,
        }
    } else {
        match e.model {
            Some(m) => Some(m@),
            None => Some("unknown"@),
        }
    }
}

/// What an event adds to total number `f`: 0 tokens, 1 input, 2 output, 3
/// cache read, 4 one request.
pub open spec fn field(e: CursorEvent, f: int) -> int {
    if f == 4 {
        1
    } else {
        match e.tokens {
            Some(t) => if f == 0 {
                event_tokens(t)
            } else if f == 1 {
                pos(t.input_tokens)
            } else if f == 2 {
                pos(t.output_tokens)
            } else {
                pos(t.cache_read_tokens)
            },
            None => 0,
        }
    }
}

/// Total number `f` over the events that count and fall in group `key`
/// (all of them when `key` is none).
pub open spec fn sum_of(events: Seq<CursorEvent>, key: Option<Seq<char>>, by_day: bool, f: int) -> int
    decreases events.len(),
{
    if events.len() == 0 {
        0
    } else {
        let e = events.last();
        sum_of(events.drop_last(), key, by_day, f) + if counted(e) && (key is None || key_of(
            e,
            by_day,
        ) == key) {
            field(e, f)
        } else {
            0
        }
    }
}

/// The groups in the order their first counted event comes.
pub open spec fn group_keys(events: Seq<CursorEvent>, by_day: bool) -> Seq<Seq<char>>
    decreases events.len(),
{
    if events.len() == 0 {
        Seq::empty()
    } else {
        let prev = group_keys(events.drop_last(), by_day);
        let e = events.last();
        if counted(e) && key_of(e, by_day) is Some && !prev.contains(key_of(e, by_day)->0) {
            prev.push(key_of(e, by_day)->0)
        } else {
            prev
        }
    }
}

pub open spec fn totals_spec(t: EventTotals) -> Seq<int> {
    seq![t.tokens as int, t.input as int, t.output as int, t.cache_read as int, t.requests as int]
}

pub open spec fn sums_spec(events: Seq<CursorEvent>, key: Option<Seq<char>>, by_day: bool) -> Seq<int> {
    seq![
        sum_of(events, key, by_day, 0),
        sum_of(events, key, by_day, 1),
        sum_of(events, key, by_day, 2),
        sum_of(events, key, by_day, 3),
        sum_of(events, key, by_day, 4),
    ]
}

proof fn lemma_field_bounds(e: CursorEvent, f: int)
    requires
        0 <= f < 4,
    ensures
        0 <= field(e, f) <= field(e, 0),
{
}

proof fn lemma_field_nonneg(e: CursorEvent, f: int)
    requires
        0 <= f <= 4,
    ensures
        field(e, f) >= 0,
{
}

proof fn lemma_sum_bounds(events: Seq<CursorEvent>, key: Option<Seq<char>>, by_day: bool, j: int, f: int)
    requires
        0 <= j <= events.len(),
        0 <= f <= 4,
    ensures
        0 <= sum_of(events.take(j), key, by_day, f) <= sum_of(events, None, by_day, f),
        f < 4 ==> sum_of(events, None, by_day, f) <= sum_of(events, None, by_day, 0),
        sum_of(events, None, by_day, 4) <= events.len(),
    decreases events.len(),
{
    if events.len() > 0 {
        let e = events.last();
        if j == events.len() {
            assert(events.take(j) =~= events);
            lemma_sum_bounds(events.drop_last(), key, by_day, j - 1, f);
            lemma_sum_bounds(events.drop_last(), None, by_day, j - 1, f);
        } else {
            lemma_sum_bounds(events.drop_last(), key, by_day, j, f);
            assert(events.drop_last().take(j) =~= events.take(j));
        }
        lemma_sum_bounds(events.drop_last(), None, by_day, events.len() - 1, f);
        assert(events.drop_last().take(events.len() - 1) =~= events.drop_last());
        lemma_field_nonneg(e, f);
        if f < 4 {
            lemma_field_bounds(e, f);
            lemma_sum_bounds(events.drop_last(), None, by_day, 0, 0);
        }
    }
}

fn pos128(x: Option<i64>) -> (r: i128)
    ensures
        r == pos(x),
{
    match x {
        Some(v) => if v > 0 {
            v as i128
        } else {
            0
        },
        None => 0,
    }
}

fn key_exec(e: &CursorEvent, by_day: bool) -> (r: Option<String>)
    ensures
        match r {
            Some(k) => key_of(*e, by_day) == Some(k@),
            None => key_of(*e, by_day) is None,
        },
{
    if by_day {
        match &e.day {
            Some(d) => Some(d.clone()),
            None => None,
        }
    } else {
        match &e.model {
            Some(m) => Some(m.clone()),
            None => Some("unknown".to_owned()),
        }
    }
}

pub open spec fn keys_distinct(ks: Seq<Seq<char>>) -> bool {
    forall|a: int, b: int| 0 <= a < b < ks.len() ==> ks[a] != ks[b]
}

proof fn lemma_group_keys_distinct(events: Seq<CursorEvent>, by_day: bool)
    ensures
        keys_distinct(group_keys(events, by_day)),
    decreases events.len(),
{
    if events.len() > 0 {
        lemma_group_keys_distinct(events.drop_last(), by_day);
        let prev = group_keys(events.drop_last(), by_day);
        let e = events.last();
        if counted(e) && key_of(e, by_day) is Some && !prev.contains(key_of(e, by_day)->0) {
            let k = key_of(e, by_day)->0;
            assert forall|a: int, b: int| 0 <= a < b < prev.push(k).len() implies prev.push(k)[a]
                != prev.push(k)[b] by {
                if b == prev.len() {
                    assert(prev.push(k)[a] == prev[a]);
                    assert(prev.contains(prev[a]));
                }
            }
        }
    }
}

fn add_field(t: &EventTotals, e: &CursorEvent, parts: (i128, i128, i128, i128)) -> (r: EventTotals)
    requires
        e.tokens is Some,
        parts.0 == field(*e, 0),
        parts.1 == field(*e, 1),
        parts.2 == field(*e, 2),
        parts.3 == field(*e, 3),
        forall|f: int| 0 <= f < 5 ==> #[trigger] totals_spec(*t)[f] + field(*e, f) <= i64::MAX,
        forall|f: int| 0 <= f < 5 ==> #[trigger] totals_spec(*t)[f] >= 0,
    ensures
        forall|f: int| 0 <= f < 5 ==> #[trigger] totals_spec(r)[f] == totals_spec(*t)[f] + field(*e, f),
{
    assert(totals_spec(*t)[0] + field(*e, 0) <= i64::MAX);
    assert(totals_spec(*t)[1] + field(*e, 1) <= i64::MAX);
    assert(totals_spec(*t)[2] + field(*e, 2) <= i64::MAX);
    assert(totals_spec(*t)[3] + field(*e, 3) <= i64::MAX);
    assert(totals_spec(*t)[4] + field(*e, 4) <= i64::MAX);
    let r = EventTotals {
        tokens: (t.tokens as i128 + parts.0) as i64,
        input: (t.input as i128 + parts.1) as i64,
        output: (t.output as i128 + parts.2) as i64,
        cache_read: (t.cache_read as i128 + parts.3) as i64,
        requests: t.requests + 1,
    };
    assert forall|f: int| 0 <= f < 5 implies #[trigger] totals_spec(r)[f] == totals_spec(*t)[f] + field(
        *e,
        f,
    ) by {}
    r
}

proof fn lemma_sum_step(events: Seq<CursorEvent>, i: int, key: Option<Seq<char>>, by_day: bool, f: int)
    requires
        0 <= i < events.len(),
    ensures
        sum_of(events.take(i + 1), key, by_day, f) == sum_of(events.take(i), key, by_day, f) + if counted(
            events[i],
        ) && (key is None || key_of(events[i], by_day) == key) {
            field(events[i], f)
        } else {
            0
        },
{
    assert(events.take(i + 1).drop_last() =~= events.take(i));
    assert(events.take(i + 1).last() == events[i]);
}

/// The totals over the events that count, and per group (model or day, as
/// `by_day` says): the groups in the order their first counted event comes,
/// and for each event the group it falls in (none when it does not count or
/// has no group).
pub fn aggregate_event_tokens(events: &Vec<CursorEvent>, by_day: bool) -> (r: (
    EventTotals,
    Vec<EventGroup>,
    Vec<Option<usize>>,
))
    requires
        sum_of(events@, None, by_day, 0) <= i64::MAX,
        events.len() <= i64::MAX,
    ensures
        totals_spec(r.0) == sums_spec(events@, None, by_day),
        r.1.len() == group_keys(events@, by_day).len(),
        keys_distinct(group_keys(events@, by_day)),
        forall|g: int|
            0 <= g < r.1.len() ==> (#[trigger] r.1[g]).key@ == group_keys(events@, by_day)[g]
                && totals_spec(r.1[g].totals) == sums_spec(
                events@,
                Some(group_keys(events@, by_day)[g]),
                by_day,
            ),
        r.2.len() == events.len(),
        forall|i: int|
            0 <= i < events.len() ==> ((#[trigger] r.2[i]) is Some <==> counted(events[i])
                && key_of(events[i], by_day) is Some),
        forall|i: int|
            0 <= i < events.len() && (#[trigger] r.2[i]) is Some ==> r.2[i]->0 < r.1.len()
                && key_of(events[i], by_day) == Some(group_keys(events@, by_day)[r.2[i]->0 as int]),
{
    let n = events.len();
    let mut sum = EventTotals { tokens: 0, input: 0, output: 0, cache_read: 0, requests: 0 };
    let mut groups: Vec<EventGroup> = Vec::new();
    let mut of: Vec<Option<usize>> = Vec::new();
    let mut i: usize = 0;
    assert(events@.take(0) =~= Seq::<CursorEvent>::empty());
    assert(totals_spec(sum) =~= sums_spec(events@.take(0), None, by_day));
    while i < n
        invariant
            n == events.len(),
            i <= n,
            sum_of(events@, None, by_day, 0) <= i64::MAX,
            n <= i64::MAX,
            totals_spec(sum) == sums_spec(events@.take(i as int), None, by_day),
            groups.len() == group_keys(events@.take(i as int), by_day).len(),
            keys_distinct(group_keys(events@.take(i as int), by_day)),
            forall|g: int|
                0 <= g < groups.len() ==> (#[trigger] groups[g]).key@ == group_keys(
                    events@.take(i as int),
                    by_day,
                )[g] && totals_spec(groups[g].totals) == sums_spec(
                    events@.take(i as int),
                    Some(group_keys(events@.take(i as int), by_day)[g]),
                    by_day,
                ),
            of.len() == i,
            forall|m: int|
                0 <= m < i ==> ((#[trigger] of[m]) is Some <==> counted(events[m]) && key_of(
                    events[m],
                    by_day,
                ) is Some),
            forall|m: int|
                0 <= m < i && (#[trigger] of[m]) is Some ==> of[m]->0 < groups.len() && key_of(
                    events[m],
                    by_day,
                ) == Some(group_keys(events@.take(i as int), by_day)[of[m]->0 as int]),
        decreases n - i,
    {
        let ghost ki = group_keys(events@.take(i as int), by_day);
        let ghost e = events@[i as int];
        proof {
            lemma_group_keys_distinct(events@.take(i + 1), by_day);
            assert(events@.take(i + 1).drop_last() =~= events@.take(i as int));
            assert(events@.take(i + 1).last() == e);
            assert forall|key: Option<Seq<char>>, f: int| true implies #[trigger] sum_of(
                events@.take(i + 1),
                key,
                by_day,
                f,
            ) == sum_of(events@.take(i as int), key, by_day, f) + if counted(e) && (key is None
                || key_of(e, by_day) == key) {
                field(e, f)
            } else {
                0
            } by {
                lemma_sum_step(events@, i as int, key, by_day, f);
            }
        }
        let ev = &events[i];
        let ts_ok = match ev.timestamp {
            Some(t) => t > 0,
            None => false,
        };
        let parts: Option<(i128, i128, i128, i128)> = match &ev.tokens {
            Some(t) => {
                let a = pos128(t.input_tokens);
                let b = pos128(t.output_tokens);
                let c = pos128(t.cache_write_tokens);
                let d = pos128(t.cache_read_tokens);
                Some((a + b + c + d, a, b, d))
            },
            None => None,
        };
        let is_counted = ts_ok && match parts {
            Some(p) => p.0 > 0,
            None => false,
        };
        assert(is_counted == counted(e));
        if is_counted {
            let p = parts.unwrap();
            proof {
                assert forall|f: int| 0 <= f < 5 implies #[trigger] totals_spec(sum)[f] + field(e, f)
                    <= i64::MAX && totals_spec(sum)[f] >= 0 by {
                    lemma_sum_bounds(events@, None, by_day, i + 1, f);
                    lemma_sum_bounds(events@, None, by_day, i as int, f);
                    lemma_sum_bounds(events@, None, by_day, n as int, 0);
                }
            }
            sum = add_field(&sum, ev, p);
            assert(totals_spec(sum) =~= sums_spec(events@.take(i + 1), None, by_day));
            match key_exec(ev, by_day) {
                Some(k) => {
                    let kc = chars_of(k.as_str());
                    let mut g: usize = 0;
                    let mut found = false;
                    while g < groups.len() && !found
                        invariant
                            g <= groups.len(),
                            kc@ == k@,
                            found ==> g < groups.len() && groups[g as int].key@ == k@,
                            !found ==> forall|h: int| 0 <= h < g ==> groups[h].key@ != k@,
                        decreases groups.len() - g + (if found { 0int } else { 1int }),
                    {
                        if chars_eq(&chars_of(groups[g].key.as_str()), &kc) {
                            found = true;
                        } else {
                            g += 1;
                        }
                    }
                    let ghost old_groups = groups@;
                    if found {
                        assert(ki[g as int] == k@);
                        assert(ki.contains(k@));
                        assert(group_keys(events@.take(i + 1), by_day) == ki);
                        proof {
                            assert forall|f: int| 0 <= f < 5 implies #[trigger] totals_spec(
                                groups[g as int].totals,
                            )[f] + field(e, f) <= i64::MAX && totals_spec(groups[g as int].totals)[f]
                                >= 0 by {
                                lemma_sum_bounds(events@, Some(k@), by_day, i + 1, f);
                                lemma_sum_bounds(events@, Some(k@), by_day, i as int, f);
                                lemma_sum_bounds(events@, None, by_day, n as int, 0);
                            }
                        }
                        let t = add_field(&groups[g].totals, ev, p);
                        let key = groups[g].key.clone();
                        groups.set(g, EventGroup { key, totals: t });
                        proof {
                            assert forall|h: int| 0 <= h < groups.len() implies (
                            #[trigger] groups[h]).key@ == group_keys(events@.take(i + 1), by_day)[h]
                                && totals_spec(groups[h].totals) == sums_spec(
                                events@.take(i + 1),
                                Some(group_keys(events@.take(i + 1), by_day)[h]),
                                by_day,
                            ) by {
                                if h == g {
                                    assert(totals_spec(groups[h].totals) =~= sums_spec(
                                        events@.take(i + 1),
                                        Some(k@),
                                        by_day,
                                    ));
                                } else {
                                    assert(groups[h] == old_groups[h]);
                                    assert(ki[h] != ki[g as int]);
                                    assert(totals_spec(groups[h].totals) =~= sums_spec(
                                        events@.take(i + 1),
                                        Some(ki[h]),
                                        by_day,
                                    ));
                                }
                            }
                        }
                        of.push(Some(g));
                    } else {
                        assert(!ki.contains(k@)) by {
                            if ki.contains(k@) {
                                let h = choose|h: int| 0 <= h < ki.len() && ki[h] == k@;
                                assert(groups[h].key@ == k@);
                            }
                        }
                        assert(group_keys(events@.take(i + 1), by_day) == ki.push(k@));
                        proof {
                            lemma_sum_bounds(events@, Some(k@), by_day, i as int, 0);
                            assert(sum_of(events@.take(i as int), Some(k@), by_day, 0) == 0) by {
                                lemma_sum_absent(events@.take(i as int), k@, by_day);
                            }
                        }
                        let zero = EventTotals { tokens: 0, input: 0, output: 0, cache_read: 0, requests: 0 };
                        proof {
                            assert forall|f: int| 0 <= f < 5 implies #[trigger] totals_spec(zero)[f]
                                + field(e, f) <= i64::MAX && totals_spec(zero)[f] >= 0 by {
                                lemma_sum_bounds(events@, None, by_day, n as int, 0);
                                lemma_sum_bounds(events@, None, by_day, i + 1, f);
                                lemma_sum_bounds(events@, Some(k@), by_day, i + 1, f);
                            }
                            assert forall|f: int| 0 <= f < 5 implies sum_of(
                                events@.take(i as int),
                                Some(k@),
                                by_day,
                                f,
                            ) == 0 by {
                                lemma_sum_absent(events@.take(i as int), k@, by_day);
                            }
                        }
                        let t = add_field(&zero, ev, p);
                        groups.push(EventGroup { key: k, totals: t });
                        proof {
                            let kn = ki.push(k@);
                            assert forall|h: int| 0 <= h < groups.len() implies (
                            #[trigger] groups[h]).key@ == kn[h] && totals_spec(groups[h].totals)
                                == sums_spec(events@.take(i + 1), Some(kn[h]), by_day) by {
                                if h == ki.len() {
                                    assert(totals_spec(groups[h].totals) =~= sums_spec(
                                        events@.take(i + 1),
                                        Some(k@),
                                        by_day,
                                    ));
                                } else {
                                    assert(groups[h] == old_groups[h]);
                                    assert(ki[h] != k@);
                                    assert(totals_spec(groups[h].totals) =~= sums_spec(
                                        events@.take(i + 1),
                                        Some(ki[h]),
                                        by_day,
                                    ));
                                }
                            }
                        }
                        of.push(Some(g));
                    }
                },
                None => {
                    assert(group_keys(events@.take(i + 1), by_day) == ki);
                    proof {
                        assert forall|h: int| 0 <= h < groups.len() implies totals_spec(
                            (#[trigger] groups[h]).totals,
                        ) =~= sums_spec(events@.take(i + 1), Some(ki[h]), by_day) by {}
                    }
                    of.push(None);
                },
            }
        } else {
            assert(group_keys(events@.take(i + 1), by_day) == ki);
            assert(totals_spec(sum) =~= sums_spec(events@.take(i + 1), None, by_day));
            proof {
                assert forall|h: int| 0 <= h < groups.len() implies totals_spec(
                    (#[trigger] groups[h]).totals,
                ) =~= sums_spec(events@.take(i + 1), Some(ki[h]), by_day) by {}
            }
            of.push(None);
        }
        i += 1;
    }
    assert(events@.take(n as int) =~= events@);
    (sum, groups, of)
}

proof fn lemma_sum_absent(events: Seq<CursorEvent>, k: Seq<char>, by_day: bool)
    requires
        !group_keys(events, by_day).contains(k),
    ensures
        forall|f: int| #[trigger] sum_of(events, Some(k), by_day, f) == 0,
    decreases events.len(),
{
    if events.len() > 0 {
        let prev = group_keys(events.drop_last(), by_day);
        let e = events.last();
        if counted(e) && key_of(e, by_day) is Some && !prev.contains(key_of(e, by_day)->0) {
            let kk = key_of(e, by_day)->0;
            assert(group_keys(events, by_day) == prev.push(kk));
            assert(!prev.contains(k)) by {
                if prev.contains(k) {
                    let h = choose|h: int| 0 <= h < prev.len() && prev[h] == k;
                    assert(prev.push(kk)[h] == k);
                }
            }
            assert(kk != k) by {
                if kk == k {
                    assert(prev.push(kk)[prev.len() as int] == k);
                }
            }
        } else {
            assert(group_keys(events, by_day) == prev);
        }
        lemma_sum_absent(events.drop_last(), k, by_day);
        assert(!(counted(e) && key_of(e, by_day) == Some(k))) by {
            if counted(e) && key_of(e, by_day) == Some(k) {
                assert(prev.contains(k) || group_keys(events, by_day) == prev.push(k));
                if group_keys(events, by_day) == prev.push(k) {
                    assert(prev.push(k)[prev.len() as int] == k);
                }
            }
        }
        assert forall|f: int| #[trigger] sum_of(events, Some(k), by_day, f) == 0 by {
            assert(sum_of(events.drop_last(), Some(k), by_day, f) == 0);
        }
    }
}

/// The model most recently used among the events: the last of the events
/// with a positive instant and a non-empty model name whose instant is the
/// greatest, with that instant; none when no event has both.
pub open spec fn latest_model(es: Seq<CursorEvent>) -> Option<(Seq<char>, i64)>
    decreases es.len(),
{
    if es.len() == 0 {
        None
    } else {
        let prev = latest_model(es.drop_last());
        let e = es.last();
        match (e.timestamp, e.model) {
            (Some(ts), Some(m)) => if ts > 0 && m@.len() > 0 && match prev {
                None => true,
                Some((_, t)) => ts >= t,
            } {
                Some((m@, ts))
            } else {
                prev
            },
            _ => prev,
        }
    }
}

/// The model most recently used in the range (see `latest_model`).
pub fn current_model(events: &Vec<CursorEvent>) -> (r: Option<(String, i64)>)
    ensures
        match r {
            Some((m, ts)) => latest_model(events@) == Some((m@, ts)),
            None => latest_model(events@) is None,
        },
{
    let mut best: Option<(String, i64)> = None;
    let mut i: usize = 0;
    while i < events.len()
        invariant
            i <= events.len(),
            match best {
                Some((m, ts)) => latest_model(events@.take(i as int)) == Some((m@, ts)),
                None => latest_model(events@.take(i as int)) is None,
            },
        decreases events.len() - i,
    {
        proof {
            assert(events@.take(i + 1).drop_last() =~= events@.take(i as int));
            assert(events@.take(i + 1).last() == events@[i as int]);
        }
        let e = &events[i];
        if let (Some(ts), Some(m)) = (e.timestamp, &e.model) {
            if ts > 0 && chars_of(m.as_str()).len() > 0 {
                let newer = match &best {
                    Some((_, b)) => ts >= *b,
                    None => true,
                };
                if newer {
                    best = Some((m.clone(), ts));
                }
            }
        }
        i += 1;
    }
    proof {
        assert(events@.take(events.len() as int) =~= events@);
    }
    best
}

} // verus!
