//! Codex CLI usage: the decisions and texts of the rollout import, the rate
//! window classification and the system proxy parsing.
use crate::db::UsageRow;
use crate::text::{
    chars_of, contains_chars, contains_seq, copy_range, find_char, first_index_of, first_where,
    lemma_first_where_is, split_char, string_of, trim, trim_range,
};
use crate::throttle::{import_due, ImportThrottle};
use vstd::prelude::*;

verus! {

/// The error text when the sessions directory is missing.
pub open spec fn missing_sessions_dir_message(path: Seq<char>) -> Seq<char> {
    "未找到 Codex 会话目录: "@ + path
        + "。请确认 Codex CLI 已安装并使用过，或设置 ZBAR_CODEX_HOME 环境变量指向 .codex 根目录。"@
}

/// The sessions directory when it exists, else a friendly error naming it.
pub fn sessions_dir(path: &str, is_dir: bool) -> (r: Result<String, String>)
    ensures
        is_dir ==> r is Ok && r->Ok_0@ == path@,
        !is_dir ==> r is Err && r->Err_0@ == missing_sessions_dir_message(path@),
{
    if is_dir {
        Ok(path.to_owned())
    } else {
        let mut out: Vec<char> = chars_of("未找到 Codex 会话目录: ");
        let mut p = chars_of(path);
        let mut tail = chars_of(
            "。请确认 Codex CLI 已安装并使用过，或设置 ZBAR_CODEX_HOME 环境变量指向 .codex 根目录。",
        );
        out.append(&mut p);
        out.append(&mut tail);
        assert(out@ =~= missing_sessions_dir_message(path@));
        Err(string_of(&out))
    }
}

/// Throttled import: whether the forced import runs now.
pub fn import_incremental(gate: &mut ImportThrottle, now_ms: u64) -> (run: bool)
    ensures
        run == import_due(old(gate).last_import_ms, now_ms),
        final(gate).last_import_ms == if run {
            Some(now_ms)
        } else {
            old(gate).last_import_ms
        },
{
    gate.check(now_ms)
}

/// A weekly window lasts at least two days (in minutes).
pub const WEEKLY_MIN_MINUTES: i64 = 2880;

/// The stable window key of a rate window: by its length when known (two
/// days or more is weekly), else by the field it came in.
pub open spec fn window_key(window_minutes: Option<i64>, fallback_weekly: bool) -> Seq<char> {
    let m = match window_minutes {
        Some(x) => x,
        None => 0,
    };
    if m >= WEEKLY_MIN_MINUTES {
        "weekly"@
    } else if window_minutes is Some {
        "hour5"@
    } else if fallback_weekly {
        "weekly"@
    } else {
        "hour5"@
    }
}

/// Classifies a rate window as `weekly` or `hour5`; `fallback_key` is the
/// key of the field the window came in (`primary` is not always 5 hours).
pub fn classify_rate_window(window_minutes: Option<i64>, fallback_key: &str) -> (r: &'static str)
    ensures
        r@ == window_key(window_minutes, fallback_key@ == "weekly"@),
{
    let m = match window_minutes {
        Some(x) => x,
        None => 0,
    };
    if m >= WEEKLY_MIN_MINUTES {
        "weekly"
    } else if window_minutes.is_some() {
        "hour5"
    } else if chars_eq_str(fallback_key, "weekly") {
        "weekly"
    } else {
        "hour5"
    }
}

fn chars_eq_str(a: &str, b: &str) -> (r: bool)
    ensures
        r == (a@ == b@),
{
    crate::text::chars_eq(&chars_of(a), &chars_of(b))
}

/// Reset instant in milliseconds from Unix seconds.
pub fn resets_at_ms(resets_at: Option<i64>) -> (r: Option<i64>)
    requires
        resets_at is Some ==> i64::MIN <= resets_at->0 * 1000 <= i64::MAX,
    ensures
        r == match resets_at {
            Some(s) => Some((s * 1000) as i64),
            None => None,
        },
{
    match resets_at {
        Some(s) => Some(s * 1000),
        None => None,
    }
}

/// Number of `c` in `s`.
pub open spec fn count_char(s: Seq<char>, c: char) -> nat
    decreases s.len(),
{
    if s.len() == 0 {
        0
    } else {
        count_char(s.drop_last(), c) + if s.last() == c {
            1nat
        } else {
            0nat
        }
    }
}

/// Session id of a rollout file stem: its last 36 characters when they
/// look like a uuid (four hyphens), else the whole stem.
pub open spec fn session_id_of_stem(stem: Seq<char>) -> Seq<char> {
    if stem.len() >= 36 && count_char(stem.skip(stem.len() - 36), '-') == 4 {
        stem.skip(stem.len() - 36)
    } else {
        stem
    }
}

/// Session id from a rollout file stem (`rollout-<time>-<uuid>`).
pub fn session_id_from_stem(stem: &str) -> (r: String)
    ensures
        r@ == session_id_of_stem(stem@),
{
    let v = chars_of(stem);
    let n = v.len();
    if n >= 36 {
        let tail = copy_range(&v, n - 36, n);
        assert(tail@ =~= v@.skip(n - 36));
        let mut cnt: usize = 0;
        let mut i: usize = 0;
        while i < 36
            invariant
                i <= 36,
                tail@.len() == 36,
                cnt == count_char(tail@.take(i as int), '-'),
                cnt <= i,
            decreases 36 - i,
        {
            assert(tail@.take(i + 1).drop_last() =~= tail@.take(i as int));
            if tail[i] == '-' {
                cnt = cnt + 1;
            }
            i = i + 1;
        }
        assert(tail@.take(36) =~= tail@);
        if cnt == 4 {
            return string_of(&tail);
        }
    }
    stem.to_owned()
}

/// A bare `host:port` gets `http://`; a full URL is kept.
pub open spec fn proxy_url(addr: Seq<char>) -> Seq<char> {
    if contains_seq(addr, "://"@) {
        addr
    } else {
        "http://"@ + addr
    }
}

/// Completing a proxy address twice changes nothing more.
pub proof fn lemma_proxy_url_idempotent(addr: Seq<char>)
    ensures
        proxy_url(proxy_url(addr)) == proxy_url(addr),
{
    if !contains_seq(addr, "://"@) {
        reveal_strlit("http://");
        reveal_strlit("://");
        let u = "http://"@ + addr;
        assert(u.subrange(4, 7) =~= "://"@);
        assert(crate::text::occurs_at(u, "://"@, 4));
    }
}

/// Completes a proxy address into a URL.
pub fn normalize_proxy_url(addr: &str) -> (r: String)
    ensures
        r@ == proxy_url(addr@),
{
    let a = chars_of(addr);
    if contains_chars(&a, &chars_of("://")) {
        addr.to_owned()
    } else {
        let mut out = chars_of("http://");
        let mut b = a;
        out.append(&mut b);
        string_of(&out)
    }
}

/// A line is `key : value` for `key`.
pub open spec fn line_has_key(l: Seq<char>, key: Seq<char>) -> bool {
    first_index_of(l, ':') >= 0 && trim(l.take(first_index_of(l, ':'))) == key
}

/// The trimmed value after the first `:` of the first line whose name is
/// `key`.
pub open spec fn scutil_value(text: Seq<char>, key: Seq<char>) -> Option<Seq<char>> {
    let lines = split_char(text, '\n');
    let i = first_where(lines, |l: Seq<char>| line_has_key(l, key));
    if i >= 0 {
        let l = lines[i];
        Some(trim(l.skip(first_index_of(l, ':') + 1)))
    } else {
        None
    }
}

/// One protocol of the `scutil --proxy` output: its URL when its `Enable`
/// line is `1` and its host and port lines are present and non-empty;
/// otherwise (disabled, or a line missing) the protocol gives no proxy.
pub open spec fn scutil_proto(
    text: Seq<char>,
    enable: Seq<char>,
    proxy: Seq<char>,
    port: Seq<char>,
    scheme: Seq<char>,
) -> Option<Seq<char>> {
    match scutil_value(text, enable) {
        Some(e) => if e == "1"@ {
            match (scutil_value(text, proxy), scutil_value(text, port)) {
                (Some(h), Some(p)) => if h.len() > 0 && p.len() > 0 {
                    Some(scheme + h + ":"@ + p)
                } else {
                    None
                },
                _ => None,
            }
        } else {
            None
        },
        None => None,
    }
}

/// The first enabled proxy of `scutil --proxy` output: HTTPS, then HTTP,
/// then SOCKS5.
pub open spec fn scutil_proxy(text: Seq<char>) -> Option<Seq<char>> {
    match scutil_proto(text, "HTTPSEnable"@, "HTTPSProxy"@, "HTTPSPort"@, "http://"@) {
        Some(u) => Some(u),
        None => match scutil_proto(text, "HTTPEnable"@, "HTTPProxy"@, "HTTPPort"@, "http://"@) {
            Some(u) => Some(u),
            None => scutil_proto(text, "SOCKSEnable"@, "SOCKSProxy"@, "SOCKSPort"@, "socks5://"@),
        },
    }
}

/// `scutil_value` on the text `v`, as a character vector.
fn find_value(v: &Vec<char>, key: &str) -> (r: Option<Vec<char>>)
    ensures
        match r {
            Some(x) => scutil_value(v@, key@) == Some(x@),
            None => scutil_value(v@, key@) is None,
        },
{
    let kc = chars_of(key);
    let n = v.len();
    let ghost lines = split_char(v@, '\n');
    let ghost pred = |l: Seq<char>| line_has_key(l, key@);
    let ghost mut k: int = 0;
    let mut start: usize = 0;
    assert(v@.subrange(0, n as int) =~= v@);
    loop
        invariant
            start <= n == v.len(),
            kc@ == key@,
            lines == split_char(v@, '\n'),
            pred == (|l: Seq<char>| line_has_key(l, key@)),
            0 <= k <= lines.len(),
            lines.skip(k) == split_char(v@.subrange(start as int, n as int), '\n'),
            forall|m: int| 0 <= m < k ==> !pred(#[trigger] lines[m]),
        decreases n - start,
    {
        let ghost u = v@.subrange(start as int, n as int);
        let (e, last) = match find_char(v, start, n, '\n') {
            Some(j) => (j, false),
            None => (n, true),
        };
        let ghost line = v@.subrange(start as int, e as int);
        proof {
            if !last {
                assert(u.take(e - start) =~= line);
                assert(u.skip(e - start + 1) =~= v@.subrange(e + 1, n as int));
                assert(split_char(u, '\n') == seq![line] + split_char(v@.subrange(e + 1, n as int), '\n'));
            } else {
                assert(u =~= line);
                assert(split_char(u, '\n') == seq![u]);
            }
            assert(lines.skip(k)[0] == line);
            assert(lines[k] == line);
        }
        let mut hit = false;
        let mut val: Vec<char> = Vec::new();
        match find_char(v, start, e, ':') {
            Some(c) => {
                assert(line.take(c - start) =~= v@.subrange(start as int, c as int));
                assert(line.skip(c - start + 1) =~= v@.subrange(c + 1, e as int));
                let (a, b) = trim_range(v, start, c);
                let name = copy_range(v, a, b);
                if crate::text::chars_eq(&name, &kc) {
                    let (x, y) = trim_range(v, c + 1, e);
                    val = copy_range(v, x, y);
                    hit = true;
                }
            },
            None => {},
        }
        if hit {
            proof {
                lemma_first_where_is(lines, pred, k);
            }
            return Some(val);
        }
        if last {
            proof {
                assert(lines.len() == k + 1) by {
                    assert(lines.skip(k).len() == 1);
                }
                lemma_first_where_is(lines, pred, -1);
            }
            return None;
        }
        proof {
            assert(lines.skip(k + 1) =~= lines.skip(k).drop_first());
            assert(lines.skip(k).drop_first() =~= split_char(v@.subrange(e + 1, n as int), '\n'));
            k = k + 1;
        }
        start = e + 1;
    }
}

fn proto(v: &Vec<char>, enable: &str, proxy: &str, port: &str, scheme: &str) -> (r: Option<
    Vec<char>,
>)
    ensures
        match r {
            None => scutil_proto(v@, enable@, proxy@, port@, scheme@) is None,
            Some(u) => scutil_proto(v@, enable@, proxy@, port@, scheme@) == Some(u@),
        },
{
    let e = match find_value(v, enable) {
        None => return None,
        Some(e) => e,
    };
    if !crate::text::chars_eq(&e, &chars_of("1")) {
        return None;
    }
    let h = match find_value(v, proxy) {
        None => return None,
        Some(h) => h,
    };
    let p = match find_value(v, port) {
        None => return None,
        Some(p) => p,
    };
    if h.len() > 0 && p.len() > 0 {
        let mut out = chars_of(scheme);
        let mut hh = h;
        let mut colon = chars_of(":");
        let mut pp = p;
        out.append(&mut hh);
        out.append(&mut colon);
        out.append(&mut pp);
        Some(out)
    } else {
        None
    }
}

/// The first enabled proxy (HTTPS > HTTP > SOCKS5) of `scutil --proxy`.
pub fn parse_scutil_proxy(text: &str) -> (r: Option<String>)
    ensures
        match r {
            Some(s) => scutil_proxy(text@) == Some(s@),
            None => scutil_proxy(text@) is None,
        },
{
    let v = chars_of(text);
    match proto(&v, "HTTPSEnable", "HTTPSProxy", "HTTPSPort", "http://") {
        Some(u) => Some(string_of(&u)),
        None => match proto(&v, "HTTPEnable", "HTTPProxy", "HTTPPort", "http://") {
            Some(u) => Some(string_of(&u)),
            None => match proto(&v, "SOCKSEnable", "SOCKSProxy", "SOCKSPort", "socks5://") {
                Some(u) => Some(string_of(&u)),
                None => None,
            },
        },
    }
}

/// The revision instant written when empty model names are filled in: the
/// clock, but always past every stored revision (strictly increasing even
/// when the clock goes back).
pub fn model_revision_at(now_ms: i64, max_stored: i64) -> (r: i64)
    ensures
        r == if now_ms >= (if max_stored == i64::MAX {
            i64::MAX as int
        } else {
            max_stored + 1
        }) {
            now_ms as int
        } else if max_stored == i64::MAX {
            i64::MAX as int
        } else {
            max_stored + 1
        },
        r >= now_ms,
        max_stored < i64::MAX ==> r > max_stored,
{
    let next = if max_stored == i64::MAX {
        i64::MAX
    } else {
        max_stored + 1
    };
    if now_ms >= next {
        now_ms
    } else {
        next
    }
}

/// A rate-limit snapshot replaces the stored one unless it is older.
pub fn snapshot_is_newer(stored_observed_at: Option<i64>, observed_at: i64) -> (b: bool)
    ensures
        b == match stored_observed_at {
            Some(s) => observed_at >= s,
            None => true,
        },
{
    match stored_observed_at {
        Some(s) => observed_at >= s,
        None => true,
    }
}

/// A model-revised usage row of the Codex import (re-uploaded after its
/// empty model was filled in).
pub struct ModelRevisionRow {
    pub usage: UsageRow,
    pub revision_at: i64,
}

/// Diagnostics of the Codex import ("no data" investigations).
pub struct CodexDebugInfo {
    pub sessions_dir: String,
    pub sessions_dir_exists: bool,
    pub session_files: usize,
    pub imported_records: i64,
    pub latest_session_ms: Option<i64>,
}


/// The second of a millisecond instant, rounded toward zero as Rust's `/`
/// rounds.
pub open spec fn second_of(ts: i64) -> int {
    if ts >= 0 {
        ts / 1000
    } else {
        -((-ts) / 1000)
    }
}

/// Whether snapshot `a` comes before snapshot `b` once the snapshots are
/// sorted by time, ties kept in file order.
pub open spec fn ts_before(ts: Seq<i64>, a: int, b: int) -> bool {
    ts[a] < ts[b] || (ts[a] == ts[b] && a < b)
}

/// Whether a snapshot lies within today, from midnight to now.
pub open spec fn within_day(t: i64, day_start: i64, now: i64) -> bool {
    day_start <= t && t <= now
}

/// Whether the backfill of today's rate-limit history keeps snapshot `i`:
/// it lies within today, no stored snapshot has its second, and no snapshot of
/// today that comes before it has its second.
pub open spec fn backfill_keeps(
    ts: Seq<i64>,
    existing: Seq<i64>,
    day_start: i64,
    now: i64,
    i: int,
) -> bool {
    &&& 0 <= i < ts.len()
    &&& within_day(ts[i], day_start, now)
    &&& forall|k: int| 0 <= k < existing.len() ==> existing[k] != second_of(ts[i])
    &&& forall|j: int|
        0 <= j < ts.len() && within_day(ts[j], day_start, now) && ts_before(ts, j, i)
            ==> second_of(ts[j]) != second_of(ts[i])
}

fn second_exec(t: i64) -> (r: i64)
    ensures
        r == second_of(t),
{
    if t >= 0 {
        t / 1000
    } else {
        let a: u64 = (-(t as i128)) as u64;
        let q: u64 = a / 1000;
        -(q as i64)
    }
}

fn keeps_exec(ts: &[i64], existing: &[i64], day_start: i64, now: i64, i: usize) -> (b: bool)
    requires
        i < ts.len(),
    ensures
        b == backfill_keeps(ts@, existing@, day_start, now, i as int),
{
    let t = ts[i];
    if t < day_start || t > now {
        return false;
    }
    let s = second_exec(t);
    let mut k: usize = 0;
    while k < existing.len()
        invariant
            k <= existing.len(),
            i < ts.len(),
            t == ts@[i as int],
            s == second_of(t),
            forall|m: int| 0 <= m < k ==> existing@[m] != s,
        decreases existing.len() - k,
    {
        if existing[k] == s {
            proof {
                assert(existing@[k as int] == second_of(ts@[i as int]));
            }
            return false;
        }
        k += 1;
    }
    let mut j: usize = 0;
    while j < ts.len()
        invariant
            j <= ts.len(),
            i < ts.len(),
            t == ts@[i as int],
            s == second_of(t),
            forall|m: int|
                0 <= m < j && within_day(ts@[m], day_start, now) && ts_before(ts@, m, i as int)
                    ==> second_of(ts@[m]) != s,
        decreases ts.len() - j,
    {
        let u = ts[j];
        if day_start <= u && u <= now && (u < t || (u == t && j < i)) && second_exec(u) == s {
            proof {
                assert(within_day(ts@[j as int], day_start, now));
                assert(ts_before(ts@, j as int, i as int));
                assert(second_of(ts@[j as int]) == second_of(ts@[i as int]));
            }
            return false;
        }
        j += 1;
    }
    true
}

/// Which of today's rate-limit snapshots the backfill appends to the history,
/// in the order it appends them: the indices of `snapshot_ts` (the snapshots'
/// instants in file order) that lie within `day_start..=now`, sorted by time
/// with ties in file order, keeping the first of each second and none whose
/// second `existing_secs` already holds.
pub fn backfill_selection(
    snapshot_ts: &[i64],
    existing_secs: &[i64],
    day_start: i64,
    now: i64,
) -> (keep: Vec<usize>)
    ensures
        forall|a: int, b: int|
            0 <= a < b < keep.len() ==> ts_before(snapshot_ts@, keep[a] as int, keep[b] as int),
        forall|a: int|
            0 <= a < keep.len() ==> backfill_keeps(
                snapshot_ts@,
                existing_secs@,
                day_start,
                now,
                keep[a] as int,
            ),
        forall|i: int|
            backfill_keeps(snapshot_ts@, existing_secs@, day_start, now, i) ==> keep@.contains(
                i as usize,
            ),
{
    let n = snapshot_ts.len();
    let mut out: Vec<usize> = Vec::new();
    let mut i: usize = 0;
    while i < n
        invariant
            n == snapshot_ts.len(),
            i <= n,
            forall|a: int, b: int|
                0 <= a < b < out.len() ==> ts_before(snapshot_ts@, out[a] as int, out[b] as int),
            forall|a: int|
                0 <= a < out.len() ==> out[a] < i && backfill_keeps(
                    snapshot_ts@,
                    existing_secs@,
                    day_start,
                    now,
                    out[a] as int,
                ),
            forall|x: int|
                0 <= x < i && backfill_keeps(snapshot_ts@, existing_secs@, day_start, now, x)
                    ==> out@.contains(x as usize),
        decreases n - i,
    {
        if keeps_exec(snapshot_ts, existing_secs, day_start, now, i) {
            let t = snapshot_ts[i];
            let mut p: usize = 0;
            let mut stop = false;
            while !stop && p < out.len()
                invariant
                    p <= out.len(),
                    stop ==> p < out.len() && t < snapshot_ts@[out[p as int] as int],
                    i < n,
                    n == snapshot_ts.len(),
                    t == snapshot_ts@[i as int],
                    forall|a: int| 0 <= a < out.len() ==> out[a] < i,
                    forall|a: int| 0 <= a < p ==> ts_before(snapshot_ts@, out[a] as int, i as int),
                decreases out.len() - p + (if stop { 0int } else { 1int }),
            {
                let o = out[p];
                let u = snapshot_ts[o];
                if t < u {
                    stop = true;
                } else {
                    p += 1;
                }
            }
            let ghost old_out = out@;
            out.insert(p, i);
            proof {
                assert forall|a: int, b: int| 0 <= a < b < out.len() implies ts_before(
                    snapshot_ts@,
                    out[a] as int,
                    out[b] as int,
                ) by {
                    if b < p {
                        assert(out[a] == old_out[a] && out[b] == old_out[b]);
                    } else if b == p {
                        assert(out[a] == old_out[a]);
                    } else if a < p {
                        assert(out[a] == old_out[a] && out[b] == old_out[b - 1]);
                        assert(ts_before(snapshot_ts@, old_out[a] as int, i as int));
                        assert(snapshot_ts@[i as int] < snapshot_ts@[old_out[p as int] as int]);
                        if b - 1 > p {
                            assert(ts_before(snapshot_ts@, old_out[p as int] as int, old_out[b - 1] as int));
                        }
                    } else if a == p {
                        assert(out[b] == old_out[b - 1]);
                        assert(snapshot_ts@[i as int] < snapshot_ts@[old_out[p as int] as int]);
                        if b - 1 > p {
                            assert(ts_before(snapshot_ts@, old_out[p as int] as int, old_out[b - 1] as int));
                        }
                    } else {
                        assert(out[a] == old_out[a - 1] && out[b] == old_out[b - 1]);
                    }
                }
                assert forall|x: int|
                    0 <= x < i + 1 && backfill_keeps(snapshot_ts@, existing_secs@, day_start, now, x)
                    implies out@.contains(x as usize) by {
                    if x == i {
                        assert(out[p as int] == i);
                    } else {
                        assert(old_out.contains(x as usize));
                        let w = choose|w: int| 0 <= w < old_out.len() && old_out[w] == x as usize;
                        if w < p {
                            assert(out[w] == x as usize);
                        } else {
                            assert(out[w + 1] == x as usize);
                        }
                    }
                }
            }
        }
        i += 1;
    }
    out
}

} // verus!
