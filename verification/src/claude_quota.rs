//! The quota of a manually added OAuth token: the windows of the usage
//! reply, the model-scoped weekly limits that fill the Opus and Sonnet rows,
//! and the entry shown for the credential. The percentages and amounts are
//! floating point and stay with the caller: here a number is its position in
//! the caller's table of numbers, and the logic decides which number goes
//! where.
use crate::claude::{manual_entry_failure, manual_failure, ClaudeUsageFailure};
use crate::text::{chars_of, contains_chars, contains_seq, lower_chars, lower_seq};
use crate::timestamps::{parse_ts_ms, rfc3339_millis};
use vstd::prelude::*;

verus! {

/// A usage window of the reply: its used percentage (a position in the
/// caller's numbers) and its reset instant as RFC 3339 text.
pub struct OAuthWindow {
    pub utilization: Option<usize>,
    pub resets_at: Option<String>,
}

/// An entry of the reply's `limits` list.
pub struct OAuthLimit {
    pub utilization: Option<usize>,
    pub resets_at: Option<String>,
    /// `five_hour`, `seven_day`, ...
    pub limit_type: Option<String>,
    /// `All models`, `Opus`, `Sonnet`, ...
    pub scope: Option<String>,
    pub weekly_scoped: Option<bool>,
}

/// The usage reply of the OAuth usage endpoint.
pub struct OAuthUsageResponse {
    pub five_hour: Option<OAuthWindow>,
    pub seven_day: Option<OAuthWindow>,
    pub seven_day_sonnet: Option<OAuthWindow>,
    pub seven_day_opus: Option<OAuthWindow>,
    /// The spent amount and the limit of the monthly extra usage, when the
    /// reply gives either.
    pub extra_usage: Option<(Option<usize>, Option<usize>)>,
    pub limits: Vec<OAuthLimit>,
}

/// The quota read from a reply: each window's percentage and reset instant
/// (Unix milliseconds), and the extra usage amounts.
pub struct UsageLimits {
    pub primary_pct: Option<usize>,
    pub primary_reset_at: Option<i64>,
    pub secondary_pct: Option<usize>,
    pub secondary_reset_at: Option<i64>,
    pub sonnet_weekly_pct: Option<usize>,
    pub sonnet_weekly_reset_at: Option<i64>,
    pub opus_weekly_pct: Option<usize>,
    pub opus_weekly_reset_at: Option<i64>,
    pub extra_used: Option<usize>,
    pub extra_limit: Option<usize>,
}

/// A row of the quota panel: percentage rows carry `used_percent`, the extra
/// usage row carries `used` and `total` in dollars.
pub struct QuotaWindowRef {
    pub key: String,
    pub title: String,
    pub used_percent: Option<usize>,
    pub used: Option<usize>,
    pub total: Option<usize>,
    pub unit: Option<String>,
    pub resets_at: Option<i64>,
}

/// The entry shown for a manual token (it has no plan name).
pub struct ManualQuotaEntry {
    pub status: String,
    pub message: Option<String>,
    pub windows: Vec<QuotaWindowRef>,
}

pub struct WindowSpec {
    pub key: Seq<char>,
    pub title: Seq<char>,
    pub used_percent: Option<usize>,
    pub used: Option<usize>,
    pub total: Option<usize>,
    pub unit: Option<Seq<char>>,
    pub resets_at: Option<i64>,
}

pub open spec fn opt_s(x: Option<String>) -> Option<Seq<char>> {
    match x {
        Some(s) => Some(s@),
        None => None,
    }
}

pub open spec fn win_view(w: Option<OAuthWindow>) -> Option<(Option<usize>, Option<Seq<char>>)> {
    match w {
        Some(x) => Some((x.utilization, opt_s(x.resets_at))),
        None => None,
    }
}

pub open spec fn limit_window(l: OAuthLimit) -> (Option<usize>, Option<Seq<char>>) {
    (l.utilization, opt_s(l.resets_at))
}

/// Which model row a `limits` entry can fill: 1 for Sonnet, 2 for Opus, 0
/// for none. Only a weekly-scoped entry with a percentage, of a weekly kind
/// (or of no kind), whose scope (ASCII case ignored) names Opus or Sonnet
/// and is not the all-models scope.
pub open spec fn scoped_slot(l: OAuthLimit) -> int {
    if l.weekly_scoped != Some(true) || l.utilization is None {
        0
    } else if l.limit_type is Some && !contains_seq(l.limit_type->0@, "seven_day"@)
        && !contains_seq(l.limit_type->0@, "weekly"@) {
        0
    } else {
        match l.scope {
            None => 0,
            Some(s) => {
                let low = lower_seq(s@);
                if contains_seq(low, "all model"@) || contains_seq(low, "all_model"@) {
                    0
                } else if contains_seq(low, "opus"@) {
                    2
                } else if contains_seq(low, "sonnet"@) {
                    1
                } else {
                    0
                }
            },
        }
    }
}

/// A model row after the `limits` entries in order: the first entry for it
/// fills it when the reply left it empty; a filled row stays.
pub open spec fn fill_slot(
    cur: Option<(Option<usize>, Option<Seq<char>>)>,
    limits: Seq<OAuthLimit>,
    which: int,
) -> Option<(Option<usize>, Option<Seq<char>>)>
    decreases limits.len(),
{
    if limits.len() == 0 {
        cur
    } else {
        let next = if cur is None && scoped_slot(limits[0]) == which {
            Some(limit_window(limits[0]))
        } else {
            cur
        };
        fill_slot(next, limits.drop_first(), which)
    }
}

/// A window's percentage and its reset instant (an unparsable instant is
/// none); an absent window has neither.
pub open spec fn conv(w: Option<(Option<usize>, Option<Seq<char>>)>) -> (Option<usize>, Option<i64>) {
    match w {
        Some((u, r)) => (
            u,
            match r {
                Some(t) => rfc3339_millis(t),
                None => None,
            },
        ),
        None => (None, None),
    }
}

/// The quota that a reply gives.
pub open spec fn usage_limits(r: OAuthUsageResponse) -> (
    (Option<usize>, Option<i64>),
    (Option<usize>, Option<i64>),
    (Option<usize>, Option<i64>),
    (Option<usize>, Option<i64>),
    Option<(Option<usize>, Option<usize>)>,
) {
    (
        conv(win_view(r.five_hour)),
        conv(win_view(r.seven_day)),
        conv(fill_slot(win_view(r.seven_day_sonnet), r.limits@, 1)),
        conv(fill_slot(win_view(r.seven_day_opus), r.limits@, 2)),
        match r.extra_usage {
            Some((u, t)) => if u is Some || t is Some {
                Some((u, t))
            } else {
                None
            },
            None => None,
        },
    )
}

pub open spec fn limits_view(l: UsageLimits) -> (
    (Option<usize>, Option<i64>),
    (Option<usize>, Option<i64>),
    (Option<usize>, Option<i64>),
    (Option<usize>, Option<i64>),
    Option<(Option<usize>, Option<usize>)>,
) {
    (
        (l.primary_pct, l.primary_reset_at),
        (l.secondary_pct, l.secondary_reset_at),
        (l.sonnet_weekly_pct, l.sonnet_weekly_reset_at),
        (l.opus_weekly_pct, l.opus_weekly_reset_at),
        if l.extra_used is Some || l.extra_limit is Some {
            Some((l.extra_used, l.extra_limit))
        } else {
            None
        },
    )
}

pub open spec fn window_spec(w: QuotaWindowRef) -> WindowSpec {
    WindowSpec {
        key: w.key@,
        title: w.title@,
        used_percent: w.used_percent,
        used: w.used,
        total: w.total,
        unit: opt_s(w.unit),
        resets_at: w.resets_at,
    }
}

pub open spec fn windows_spec(ws: Seq<QuotaWindowRef>) -> Seq<WindowSpec> {
    ws.map_values(|w: QuotaWindowRef| window_spec(w))
}

/// A percentage row, present when the window has a percentage.
pub open spec fn pct_row(key: Seq<char>, title: Seq<char>, w: (Option<usize>, Option<i64>)) -> Seq<
    WindowSpec,
> {
    if w.0 is Some {
        seq![
            WindowSpec {
                key,
                title,
                used_percent: w.0,
                used: None,
                total: None,
                unit: None,
                resets_at: w.1,
            },
        ]
    } else {
        Seq::empty()
    }
}

/// The panel rows of a quota: 5 hours, this week, the Opus and the Sonnet
/// week, each when it has a percentage, then the extra usage in dollars when
/// it has an amount or a limit.
pub open spec fn quota_rows(
    l: (
        (Option<usize>, Option<i64>),
        (Option<usize>, Option<i64>),
        (Option<usize>, Option<i64>),
        (Option<usize>, Option<i64>),
        Option<(Option<usize>, Option<usize>)>,
    ),
) -> Seq<WindowSpec> {
    pct_row("hour5"@, "5 小时"@, l.0) + pct_row("weekly"@, "本周"@, l.1) + pct_row(
        "opus_weekly"@,
        "Opus 周额度"@,
        l.3,
    ) + pct_row("sonnet_weekly"@, "Sonnet 周额度"@, l.2) + match l.4 {
        Some((u, t)) => if u is Some || t is Some {
            seq![
                WindowSpec {
                    key: "extra_usage"@,
                    title: "超额消费"@,
                    used_percent: None,
                    used: u,
                    total: t,
                    unit: Some("$"@),
                    resets_at: None,
                },
            ]
        } else {
            Seq::empty()
        },
        None => Seq::empty(),
    }
}

pub open spec fn parse_failed_message() -> Seq<char> {
    "Anthropic 额度响应解析失败"@
}

pub open spec fn no_usage_message() -> Seq<char> {
    "Anthropic 额度响应缺少用量数据"@
}

/// The entry of a manual token: the failure of the query when it gave no
/// HTTP 200 reply (see `manual_failure`); else the reply's parse error, or
/// `error` when the reply has no window, or `ok` with its panel rows.
pub open spec fn manual_entry(
    raw: Result<(u16, Option<String>), ClaudeUsageFailure>,
    parsed: Result<OAuthUsageResponse, ClaudeUsageFailure>,
) -> (Seq<char>, Option<Seq<char>>, Seq<WindowSpec>) {
    match manual_failure(raw) {
        Some((s, m)) => (s, Some(m), Seq::empty()),
        None => match parsed {
            Err(ClaudeUsageFailure::Other(e)) => ("error"@, Some(e@), Seq::empty()),
            Err(_) => ("error"@, Some(parse_failed_message()), Seq::empty()),
            Ok(resp) => {
                let rows = quota_rows(usage_limits(resp));
                if rows.len() == 0 {
                    ("error"@, Some(no_usage_message()), Seq::empty())
                } else {
                    ("ok"@, None, rows)
                }
            },
        },
    }
}

/// The card of a refused token is `expired` with the renewal hint and no
/// rows, the same card as for an HTTP 401 or 403 reply, whatever reply was
/// parsed and whatever the body was.
pub proof fn lemma_refused_token_card_is_expired(
    body: Option<String>,
    p1: Result<OAuthUsageResponse, ClaudeUsageFailure>,
    p2: Result<OAuthUsageResponse, ClaudeUsageFailure>,
)
    ensures
        manual_entry(Err(ClaudeUsageFailure::TokenRejected), p1) == manual_entry(Ok((401u16, body)), p2),
        manual_entry(Err(ClaudeUsageFailure::TokenRejected), p1) == manual_entry(Ok((403u16, body)), p2),
        manual_entry(Err(ClaudeUsageFailure::TokenRejected), p1) == (
            "expired"@,
            Some(crate::claude::manual_token_expired_message()),
            Seq::<WindowSpec>::empty(),
        ),
{
}

fn clone_opt(x: &Option<String>) -> (r: Option<String>)
    ensures
        r == *x,
{
    match x {
        Some(s) => Some(s.clone()),
        None => None,
    }
}

fn holds(v: &Vec<char>, p: &str) -> (b: bool)
    ensures
        b == contains_seq(v@, p@),
{
    contains_chars(v, &chars_of(p))
}

fn scoped_slot_exec(l: &OAuthLimit) -> (r: u8)
    ensures
        r as int == scoped_slot(*l),
{
    let scoped = match l.weekly_scoped {
        Some(b) => b,
        None => false,
    };
    if !scoped || l.utilization.is_none() {
        return 0;
    }
    if let Some(t) = &l.limit_type {
        let c = chars_of(t.as_str());
        if !holds(&c, "seven_day") && !holds(&c, "weekly") {
            return 0;
        }
    }
    match &l.scope {
        None => 0,
        Some(s) => {
            let low = lower_chars(&chars_of(s.as_str()));
            if holds(&low, "all model") || holds(&low, "all_model") {
                0
            } else if holds(&low, "opus") {
                2
            } else if holds(&low, "sonnet") {
                1
            } else {
                0
            }
        },
    }
}

/// One `limits` entry fills the Sonnet or the Opus row it is for, when the
/// reply left that row empty.
pub fn apply_scoped_weekly_limit(
    sonnet: &mut Option<OAuthWindow>,
    opus: &mut Option<OAuthWindow>,
    limit: &OAuthLimit,
)
    ensures
        win_view(*final(sonnet)) == if win_view(*old(sonnet)) is None && scoped_slot(*limit) == 1 {
            Some(limit_window(*limit))
        } else {
            win_view(*old(sonnet))
        },
        win_view(*final(opus)) == if win_view(*old(opus)) is None && scoped_slot(*limit) == 2 {
            Some(limit_window(*limit))
        } else {
            win_view(*old(opus))
        },
{
    let slot = scoped_slot_exec(limit);
    if slot == 1 && sonnet.is_none() {
        *sonnet = Some(
            OAuthWindow { utilization: limit.utilization, resets_at: clone_opt(&limit.resets_at) },
        );
    } else if slot == 2 && opus.is_none() {
        *opus = Some(
            OAuthWindow { utilization: limit.utilization, resets_at: clone_opt(&limit.resets_at) },
        );
    }
}

fn conv_exec(w: &Option<OAuthWindow>) -> (r: (Option<usize>, Option<i64>))
    ensures
        r == conv(win_view(*w)),
{
    match w {
        Some(x) => (
            x.utilization,
            match &x.resets_at {
                Some(t) => parse_ts_ms(t.as_str()),
                None => None,
            },
        ),
        None => (None, None),
    }
}

/// The quota of a usage reply: the model-scoped `limits` entries fill the
/// Sonnet and Opus rows the reply left empty, and each reset instant is read
/// as RFC 3339.
pub fn parse_usage_response(resp: OAuthUsageResponse) -> (r: UsageLimits)
    ensures
        limits_view(r) == usage_limits(resp),
{
    let mut sonnet = resp.seven_day_sonnet;
    let mut opus = resp.seven_day_opus;
    let ghost ls = resp.limits@;
    let n = resp.limits.len();
    let mut i: usize = 0;
    assert(ls.subrange(0, n as int) =~= ls);
    while i < n
        invariant
            n == resp.limits.len(),
            ls == resp.limits@,
            i <= n,
            fill_slot(win_view(resp.seven_day_sonnet), ls, 1) == fill_slot(
                win_view(sonnet),
                ls.subrange(i as int, n as int),
                1,
            ),
            fill_slot(win_view(resp.seven_day_opus), ls, 2) == fill_slot(
                win_view(opus),
                ls.subrange(i as int, n as int),
                2,
            ),
        decreases n - i,
    {
        assert(ls.subrange(i as int, n as int).drop_first() =~= ls.subrange(i + 1, n as int));
        assert(ls.subrange(i as int, n as int)[0] == ls[i as int]);
        apply_scoped_weekly_limit(&mut sonnet, &mut opus, &resp.limits[i]);
        i += 1;
    }
    assert(ls.subrange(n as int, n as int).len() == 0);
    let p = conv_exec(&resp.five_hour);
    let s = conv_exec(&resp.seven_day);
    let so = conv_exec(&sonnet);
    let op = conv_exec(&opus);
    let (eu, el) = match resp.extra_usage {
        Some((u, t)) => (u, t),
        None => (None, None),
    };
    let r = UsageLimits {
        primary_pct: p.0,
        primary_reset_at: p.1,
        secondary_pct: s.0,
        secondary_reset_at: s.1,
        sonnet_weekly_pct: so.0,
        sonnet_weekly_reset_at: so.1,
        opus_weekly_pct: op.0,
        opus_weekly_reset_at: op.1,
        extra_used: eu,
        extra_limit: el,
    };
    r
}

fn pct_window(out: &mut Vec<QuotaWindowRef>, key: &str, title: &str, w: (Option<usize>, Option<i64>))
    ensures
        windows_spec(final(out)@) == windows_spec(old(out)@) + pct_row(key@, title@, w),
{
    let ghost before = out@;
    if w.0.is_some() {
        out.push(
            QuotaWindowRef {
                key: key.to_owned(),
                title: title.to_owned(),
                used_percent: w.0,
                used: None,
                total: None,
                unit: None,
                resets_at: w.1,
            },
        );
        assert(windows_spec(out@) =~= windows_spec(before) + pct_row(key@, title@, w));
    } else {
        assert(windows_spec(out@) =~= windows_spec(before) + pct_row(key@, title@, w));
    }
}

/// The panel rows of a quota (see `quota_rows`).
pub fn quota_windows_from_limits(limits: &UsageLimits) -> (r: Vec<QuotaWindowRef>)
    ensures
        windows_spec(r@) == quota_rows(limits_view(*limits)),
{
    let mut out: Vec<QuotaWindowRef> = Vec::new();
    assert(windows_spec(out@) =~= Seq::<WindowSpec>::empty());
    pct_window(&mut out, "hour5", "5 小时", (limits.primary_pct, limits.primary_reset_at));
    pct_window(&mut out, "weekly", "本周", (limits.secondary_pct, limits.secondary_reset_at));
    pct_window(
        &mut out,
        "opus_weekly",
        "Opus 周额度",
        (limits.opus_weekly_pct, limits.opus_weekly_reset_at),
    );
    pct_window(
        &mut out,
        "sonnet_weekly",
        "Sonnet 周额度",
        (limits.sonnet_weekly_pct, limits.sonnet_weekly_reset_at),
    );
    let ghost before = out@;
    if limits.extra_used.is_some() || limits.extra_limit.is_some() {
        out.push(
            QuotaWindowRef {
                key: "extra_usage".to_owned(),
                title: "超额消费".to_owned(),
                used_percent: None,
                used: limits.extra_used,
                total: limits.extra_limit,
                unit: Some("$".to_owned()),
                resets_at: None,
            },
        );
    }
    assert(windows_spec(out@) =~= quota_rows(limits_view(*limits)));
    out
}

/// The entry of a manual token query: `raw` is the HTTP status and body, or
/// the failure of the request; `parsed` is the body read as a usage reply,
/// which counts only for an HTTP 200 reply.
pub fn entry_from_usage_raw(
    raw: &Result<(u16, Option<String>), ClaudeUsageFailure>,
    parsed: Result<OAuthUsageResponse, ClaudeUsageFailure>,
) -> (r: ManualQuotaEntry)
    ensures
        (r.status@, opt_s(r.message), windows_spec(r.windows@)) == manual_entry(*raw, parsed),
{
    let empty: Vec<QuotaWindowRef> = Vec::new();
    assert(windows_spec(empty@) =~= Seq::<WindowSpec>::empty());
    if let Some((s, m)) = manual_entry_failure(raw) {
        return ManualQuotaEntry { status: s, message: Some(m), windows: empty };
    }
    match parsed {
        Err(ClaudeUsageFailure::Other(e)) => ManualQuotaEntry {
            status: "error".to_owned(),
            message: Some(e),
            windows: empty,
        },
        Err(_) => ManualQuotaEntry {
            status: "error".to_owned(),
            message: Some("Anthropic 额度响应解析失败".to_owned()),
            windows: empty,
        },
        Ok(resp) => {
            let ghost rv = resp;
            let limits = parse_usage_response(resp);
            let windows = quota_windows_from_limits(&limits);
            if windows.len() == 0 {
                ManualQuotaEntry {
                    status: "error".to_owned(),
                    message: Some("Anthropic 额度响应缺少用量数据".to_owned()),
                    windows: empty,
                }
            } else {
                ManualQuotaEntry { status: "ok".to_owned(), message: None, windows }
            }
        },
    }
}

} // verus!
