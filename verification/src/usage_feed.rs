//! The turn-usage feed of the chat page: the data model of `usage-data.js`,
//! the merging of sub-agent turns into the main turns that cover them, the
//! model lists of each turn, the last-activity instant, the text of the data
//! and heartbeat files, and the decisions of the background export loop.
//!
//! Reading the database, serialising to JSON and writing files happen
//! outside this module; everything here works on values.
use crate::text::{
    chars_eq, chars_of, first_where, join, join_chars, lemma_first_where_is, matches_at, push_range,
    starts_with, string_of, views,
};
use vstd::prelude::*;

verus! {

/// Export window: only turns of the last 7 days are exported.
pub const WINDOW_MS: i64 = 604800000;

/// At most this many turns are exported (the newest ones are kept).
pub const MAX_TURNS: usize = 3000;

/// A turn counts as in progress while its latest request is this recent.
pub const RUN_WINDOW_MS: i64 = 600000;

/// Rows scanned from the tail of `message` for a pending user message.
pub const PENDING_SCAN_ROWS: i64 = 64;

/// Window in which a `running` tool row counts as active.
pub const TOOL_WINDOW_MS: i64 = 600000;

/// Period of the full usage export, in milliseconds.
pub const INTERVAL_MS: u64 = 2000;

/// Period of the small speed export, in milliseconds.
pub const SPEED_INTERVAL_MS: u64 = 1000;

// ------------------------------------------------------------------
// Data model
// ------------------------------------------------------------------

/// Totals of the sub-agent turns merged into one main turn.
#[derive(Debug, Clone, Copy, PartialEq, Eq, Structural)]
pub struct SubAgg {
    /// Number of merged sub-agent turns.
    pub n: i64,
    pub requests: i64,
    pub input_tokens: i64,
    pub output_tokens: i64,
    pub cache_read: i64,
    pub cache_write: i64,
    pub reasoning: i64,
}

/// The totals of no sub-agent turn.
pub open spec fn sub_agg_zero() -> SubAgg {
    SubAgg {
        n: 0,
        requests: 0,
        input_tokens: 0,
        output_tokens: 0,
        cache_read: 0,
        cache_write: 0,
        reasoning: 0,
    }
}

/// Whether one more turn with these numbers can be added without overflow.
pub open spec fn sub_add_fits(
    a: SubAgg,
    requests: i64,
    input_tokens: i64,
    output_tokens: i64,
    cache_read: i64,
    cache_write: i64,
    reasoning: i64,
) -> bool {
    &&& a.n + 1 <= i64::MAX
    &&& i64::MIN <= a.requests + requests <= i64::MAX
    &&& i64::MIN <= a.input_tokens + input_tokens <= i64::MAX
    &&& i64::MIN <= a.output_tokens + output_tokens <= i64::MAX
    &&& i64::MIN <= a.cache_read + cache_read <= i64::MAX
    &&& i64::MIN <= a.cache_write + cache_write <= i64::MAX
    &&& i64::MIN <= a.reasoning + reasoning <= i64::MAX
}

/// `a` with one more turn of these numbers added.
pub open spec fn sub_added(
    a: SubAgg,
    requests: i64,
    input_tokens: i64,
    output_tokens: i64,
    cache_read: i64,
    cache_write: i64,
    reasoning: i64,
) -> SubAgg {
    SubAgg {
        n: (a.n + 1) as i64,
        requests: (a.requests + requests) as i64,
        input_tokens: (a.input_tokens + input_tokens) as i64,
        output_tokens: (a.output_tokens + output_tokens) as i64,
        cache_read: (a.cache_read + cache_read) as i64,
        cache_write: (a.cache_write + cache_write) as i64,
        reasoning: (a.reasoning + reasoning) as i64,
    }
}

impl SubAgg {
    /// The totals of no sub-agent turn.
    pub fn empty() -> (r: SubAgg)
        ensures
            r == sub_agg_zero(),
    {
        SubAgg {
            n: 0,
            requests: 0,
            input_tokens: 0,
            output_tokens: 0,
            cache_read: 0,
            cache_write: 0,
            reasoning: 0,
        }
    }

    /// Adds one sub-agent turn: `n` grows by one, every other total by the
    /// turn's number.
    pub fn add(
        &mut self,
        requests: i64,
        input_tokens: i64,
        output_tokens: i64,
        cache_read: i64,
        cache_write: i64,
        reasoning: i64,
    )
        requires
            sub_add_fits(
                *old(self),
                requests,
                input_tokens,
                output_tokens,
                cache_read,
                cache_write,
                reasoning,
            ),
        ensures
            *final(self) == sub_added(
                *old(self),
                requests,
                input_tokens,
                output_tokens,
                cache_read,
                cache_write,
                reasoning,
            ),
    {
        self.n = self.n + 1;
        self.requests = self.requests + requests;
        self.input_tokens = self.input_tokens + input_tokens;
        self.output_tokens = self.output_tokens + output_tokens;
        self.cache_read = self.cache_read + cache_read;
        self.cache_write = self.cache_write + cache_write;
        self.reasoning = self.reasoning + reasoning;
    }
}

/// One exported turn (a row of `turn_usage`, with merged sub-agent turns).
#[derive(Debug)]
pub struct UsageTurn {
    pub turn_id: String,
    /// User message id, the key the renderer matches on.
    pub user_message_id: Option<String>,
    pub session_id: String,
    /// `completed`, `cancelled`, `error`, ... as stored.
    pub status: String,
    pub start: i64,
    pub end: Option<i64>,
    pub input_tokens: i64,
    pub output_tokens: i64,
    pub cache_read: i64,
    pub cache_write: i64,
    pub reasoning: i64,
    pub requests: i64,
    pub retries: i64,
    pub tool_calls: i64,
    /// The main turn's own duration; merging leaves it unchanged.
    pub dur: Option<i64>,
    /// The main turn's own time to first token; merging leaves it unchanged.
    pub ttft: Option<i64>,
    /// Totals of the merged sub-agent turns, if any.
    pub sub: Option<SubAgg>,
    /// Set to 1 on the sub-agent's own view of its turn.
    pub subagent: Option<u8>,
    /// Models used by the turn, deduplicated, comma-separated.
    pub models: String,
}

/// A sub-agent turn as read from the database, before merging.
#[derive(Debug)]
pub struct SubTurnRow {
    pub turn_id: String,
    pub session_id: String,
    pub parent_session_id: Option<String>,
    pub status: String,
    pub started_at: i64,
    pub completed_at: Option<i64>,
    pub user_message_id: Option<String>,
    pub dur: Option<i64>,
    pub ttft: Option<i64>,
    pub input_tokens: i64,
    pub output_tokens: i64,
    pub cache_read: i64,
    pub cache_write: i64,
    pub reasoning: i64,
    pub requests: i64,
    pub retries: i64,
    pub tool_calls: i64,
}

/// An in-progress turn, aggregated from its completed model requests.
#[derive(Debug)]
pub struct UsageRun {
    pub turn_id: String,
    pub user_message_id: Option<String>,
    pub session_id: String,
    /// Parent session of a sub-agent session.
    pub parent_session_id: Option<String>,
    pub input_tokens: i64,
    pub output_tokens: i64,
    pub cache_read: i64,
    pub cache_write: i64,
    pub reasoning: i64,
    pub requests: i64,
    /// Start of the first request of the turn.
    pub start: i64,
    /// 1 when the numbers are already merged into a main run's `sub`.
    pub merged: Option<u8>,
    /// Live totals of the sub-agents of a main session.
    pub sub: Option<SubAgg>,
}

// ------------------------------------------------------------------
// Export loop decisions
// ------------------------------------------------------------------

/// The stop flag shared with the export thread.
pub struct FeedControl {
    pub stop_requested: bool,
}

/// What starting the feed asks the caller to do.
#[derive(Debug, Clone, Copy, PartialEq, Eq, Structural)]
pub enum FeedStart {
    /// No live export thread: spawn one.
    Spawn,
    /// A thread is alive; only the stop flag was cleared.
    AlreadyRunning,
    /// The skin is not installed: nothing to do.
    NotInstalled,
}

/// One iteration of the export thread.
#[derive(Debug, Clone, Copy, PartialEq, Eq, Structural)]
pub enum FeedAction {
    /// Stop requested or skin gone: the thread ends.
    Exit,
    /// Time for the full usage export.
    ExportFull,
    /// Time for the small speed export only.
    ExportSpeed,
    /// Nothing due yet: sleep a slice and look again.
    Sleep,
}

/// Starts the feed: clears a pending stop, and asks for a thread unless one
/// is alive (idempotent).
pub fn start(ctl: &mut FeedControl, running: bool) -> (r: FeedStart)
    ensures
        !final(ctl).stop_requested,
        r == (if running {
            FeedStart::AlreadyRunning
        } else {
            FeedStart::Spawn
        }),
{
    ctl.stop_requested = false;
    if running {
        FeedStart::AlreadyRunning
    } else {
        FeedStart::Spawn
    }
}

/// Starts the feed at application start-up when the skin is installed.
pub fn start_if_installed(ctl: &mut FeedControl, installed: bool, running: bool) -> (r: FeedStart)
    ensures
        installed ==> !final(ctl).stop_requested && r == (if running {
            FeedStart::AlreadyRunning
        } else {
            FeedStart::Spawn
        }),
        !installed ==> final(ctl).stop_requested == old(ctl).stop_requested && r
            == FeedStart::NotInstalled,
{
    if installed {
        start(ctl, running)
    } else {
        FeedStart::NotInstalled
    }
}

/// Asks the export thread to stop at its next check (no waiting).
pub fn stop(ctl: &mut FeedControl)
    ensures
        final(ctl).stop_requested,
{
    ctl.stop_requested = true;
}

/// The decision of one loop iteration, from the stop flag, the install
/// state and the time since the last full and speed exports.
pub open spec fn feed_action(
    stop_requested: bool,
    installed: bool,
    since_full_ms: u64,
    since_speed_ms: u64,
) -> FeedAction {
    if stop_requested || !installed {
        FeedAction::Exit
    } else if since_full_ms >= INTERVAL_MS {
        FeedAction::ExportFull
    } else if since_speed_ms >= SPEED_INTERVAL_MS {
        FeedAction::ExportSpeed
    } else {
        FeedAction::Sleep
    }
}

/// One iteration of the export loop.
pub fn feed_step(stop_requested: bool, installed: bool, since_full_ms: u64, since_speed_ms: u64) -> (r:
    FeedAction)
    ensures
        r == feed_action(stop_requested, installed, since_full_ms, since_speed_ms),
{
    if stop_requested || !installed {
        FeedAction::Exit
    } else if since_full_ms >= INTERVAL_MS {
        FeedAction::ExportFull
    } else if since_speed_ms >= SPEED_INTERVAL_MS {
        FeedAction::ExportSpeed
    } else {
        FeedAction::Sleep
    }
}

/// After `stop`, the next iteration of the loop exits, whatever the time.
pub proof fn lemma_stop_then_exit(installed: bool, since_full_ms: u64, since_speed_ms: u64)
    ensures
        feed_action(true, installed, since_full_ms, since_speed_ms) == FeedAction::Exit,
{
}

/// After `start`, the loop runs (it does not exit) while the skin is installed.
pub proof fn lemma_start_keeps_running(since_full_ms: u64, since_speed_ms: u64)
    ensures
        feed_action(false, true, since_full_ms, since_speed_ms) != FeedAction::Exit,
{
}

// ------------------------------------------------------------------
// Last activity
// ------------------------------------------------------------------

pub open spec fn max_i(a: int, b: int) -> int {
    if a >= b {
        a
    } else {
        b
    }
}

/// Largest end of the completed turns, starting from `acc`.
pub open spec fn max_turn_end(turns: Seq<UsageTurn>, acc: int) -> int
    decreases turns.len(),
{
    if turns.len() == 0 {
        acc
    } else {
        let prev = max_turn_end(turns.drop_last(), acc);
        match turns.last().end {
            Some(e) => max_i(prev, e as int),
            None => prev,
        }
    }
}

/// Largest start of the runs, starting from `acc`.
pub open spec fn max_run_start(runs: Seq<UsageRun>, acc: int) -> int
    decreases runs.len(),
{
    if runs.len() == 0 {
        acc
    } else {
        max_i(max_run_start(runs.drop_last(), acc), runs.last().start as int)
    }
}

/// The last activity: the largest of 0, the ends of completed turns, the
/// starts of runs, the pending user message and the active tool.
pub open spec fn last_activity(
    turns: Seq<UsageTurn>,
    runs: Seq<UsageRun>,
    pending_user: Option<i64>,
    active_tool: Option<i64>,
) -> int {
    let a = max_run_start(runs, max_turn_end(turns, 0));
    let b = match pending_user {
        Some(p) => max_i(a, p as int),
        None => a,
    };
    match active_tool {
        Some(t) => max_i(b, t as int),
        None => b,
    }
}

/// The last real activity instant of the exported data.
pub fn last_activity_ms(
    turns: &Vec<UsageTurn>,
    runs: &Vec<UsageRun>,
    pending_user: Option<i64>,
    active_tool: Option<i64>,
) -> (r: i64)
    ensures
        r == last_activity(turns@, runs@, pending_user, active_tool),
{
    let mut la: i64 = 0;
    let mut i: usize = 0;
    while i < turns.len()
        invariant
            i <= turns.len(),
            la == max_turn_end(turns@.take(i as int), 0),
        decreases turns.len() - i,
    {
        assert(turns@.take(i + 1).drop_last() =~= turns@.take(i as int));
        if let Some(end) = turns[i].end {
            if end > la {
                la = end;
            }
        }
        i = i + 1;
    }
    assert(turns@.take(turns.len() as int) =~= turns@);
    let ghost base = la as int;
    let mut j: usize = 0;
    while j < runs.len()
        invariant
            j <= runs.len(),
            la == max_run_start(runs@.take(j as int), base),
            base == max_turn_end(turns@, 0),
        decreases runs.len() - j,
    {
        assert(runs@.take(j + 1).drop_last() =~= runs@.take(j as int));
        if runs[j].start > la {
            la = runs[j].start;
        }
        j = j + 1;
    }
    assert(runs@.take(runs.len() as int) =~= runs@);
    if let Some(pu) = pending_user {
        if pu > la {
            la = pu;
        }
    }
    if let Some(ta) = active_tool {
        if ta > la {
            la = ta;
        }
    }
    la
}

/// Every completed turn's end, every run's start and the two signals are
/// at most the last activity, and it is never negative.
pub proof fn lemma_last_activity_is_upper_bound(
    turns: Seq<UsageTurn>,
    runs: Seq<UsageRun>,
    pending_user: Option<i64>,
    active_tool: Option<i64>,
)
    ensures
        last_activity(turns, runs, pending_user, active_tool) >= 0,
        forall|i: int|
            0 <= i < turns.len() && (#[trigger] turns[i]).end is Some ==> turns[i].end->0
                <= last_activity(turns, runs, pending_user, active_tool),
        forall|i: int|
            0 <= i < runs.len() ==> (#[trigger] runs[i]).start <= last_activity(
                turns,
                runs,
                pending_user,
                active_tool,
            ),
        pending_user is Some ==> pending_user->0 <= last_activity(
            turns,
            runs,
            pending_user,
            active_tool,
        ),
        active_tool is Some ==> active_tool->0 <= last_activity(
            turns,
            runs,
            pending_user,
            active_tool,
        ),
{
    lemma_max_turn_end_bounds(turns, 0);
    lemma_max_run_start_bounds(runs, max_turn_end(turns, 0));
}

pub proof fn lemma_max_turn_end_bounds(turns: Seq<UsageTurn>, acc: int)
    ensures
        max_turn_end(turns, acc) >= acc,
        forall|i: int|
            0 <= i < turns.len() && (#[trigger] turns[i]).end is Some ==> turns[i].end->0
                <= max_turn_end(turns, acc),
    decreases turns.len(),
{
    if turns.len() > 0 {
        let p = turns.drop_last();
        lemma_max_turn_end_bounds(p, acc);
        assert forall|i: int|
            0 <= i < turns.len() && (#[trigger] turns[i]).end is Some implies turns[i].end->0
            <= max_turn_end(turns, acc) by {
            if i < turns.len() - 1 {
                assert(turns[i] == p[i]);
            }
        }
    }
}

pub proof fn lemma_max_run_start_bounds(runs: Seq<UsageRun>, acc: int)
    ensures
        max_run_start(runs, acc) >= acc,
        forall|i: int| 0 <= i < runs.len() ==> (#[trigger] runs[i]).start <= max_run_start(runs, acc),
    decreases runs.len(),
{
    if runs.len() > 0 {
        let p = runs.drop_last();
        lemma_max_run_start_bounds(p, acc);
        assert forall|i: int| 0 <= i < runs.len() implies (#[trigger] runs[i]).start
            <= max_run_start(runs, acc) by {
            if i < runs.len() - 1 {
                assert(runs[i] == p[i]);
            }
        }
    }
}

proof fn lemma_max_turn_end_le(turns: Seq<UsageTurn>, acc: int, bound: int)
    requires
        acc <= bound,
        forall|i: int|
            0 <= i < turns.len() && (#[trigger] turns[i]).end is Some ==> turns[i].end->0 <= bound,
    ensures
        max_turn_end(turns, acc) <= bound,
    decreases turns.len(),
{
    if turns.len() > 0 {
        let p = turns.drop_last();
        assert forall|i: int| 0 <= i < p.len() && (#[trigger] p[i]).end is Some implies p[i].end->0
            <= bound by {
            assert(p[i] == turns[i]);
        }
        lemma_max_turn_end_le(p, acc, bound);
    }
}

proof fn lemma_max_run_start_le(runs: Seq<UsageRun>, acc: int, bound: int)
    requires
        acc <= bound,
        forall|i: int| 0 <= i < runs.len() ==> (#[trigger] runs[i]).start <= bound,
    ensures
        max_run_start(runs, acc) <= bound,
    decreases runs.len(),
{
    if runs.len() > 0 {
        let p = runs.drop_last();
        assert forall|i: int| 0 <= i < p.len() implies (#[trigger] p[i]).start <= bound by {
            assert(p[i] == runs[i]);
        }
        lemma_max_run_start_le(p, acc, bound);
    }
}

/// A turn sliding out of the export window never raises the last activity
/// (the pet never wakes up because old turns leave the data).
pub proof fn lemma_last_activity_drop_turn(
    turns: Seq<UsageTurn>,
    k: int,
    runs: Seq<UsageRun>,
    pending_user: Option<i64>,
    active_tool: Option<i64>,
)
    requires
        0 <= k < turns.len(),
    ensures
        last_activity(turns.remove(k), runs, pending_user, active_tool) <= last_activity(
            turns,
            runs,
            pending_user,
            active_tool,
        ),
{
    let full = last_activity(turns, runs, pending_user, active_tool);
    lemma_last_activity_is_upper_bound(turns, runs, pending_user, active_tool);
    let sub = turns.remove(k);
    assert forall|i: int| 0 <= i < sub.len() && (#[trigger] sub[i]).end is Some implies sub[i].end->0
        <= full by {
        if i < k {
            assert(sub[i] == turns[i]);
        } else {
            assert(sub[i] == turns[i + 1]);
        }
    }
    lemma_max_turn_end_le(sub, 0, full);
    lemma_max_run_start_le(runs, max_turn_end(sub, 0), full);
}

/// Rust's order on optional instants: an absent signal is below every
/// present one.
pub open spec fn opt_le(a: Option<i64>, b: Option<i64>) -> bool {
    match a {
        None => true,
        Some(x) => match b {
            Some(y) => x <= y,
            None => false,
        },
    }
}

/// The last activity only grows with the data: fewer turns and runs (taken
/// as multisets) and earlier or absent signals never give a later instant.
pub proof fn lemma_last_activity_monotone(
    turns: Seq<UsageTurn>,
    runs: Seq<UsageRun>,
    pending_user: Option<i64>,
    active_tool: Option<i64>,
    turns2: Seq<UsageTurn>,
    runs2: Seq<UsageRun>,
    pending_user2: Option<i64>,
    active_tool2: Option<i64>,
)
    requires
        turns.to_multiset().subset_of(turns2.to_multiset()),
        runs.to_multiset().subset_of(runs2.to_multiset()),
        opt_le(pending_user, pending_user2),
        opt_le(active_tool, active_tool2),
    ensures
        last_activity(turns, runs, pending_user, active_tool) <= last_activity(
            turns2,
            runs2,
            pending_user2,
            active_tool2,
        ),
{
    let big = last_activity(turns2, runs2, pending_user2, active_tool2);
    lemma_last_activity_is_upper_bound(turns2, runs2, pending_user2, active_tool2);
    turns.to_multiset_ensures();
    turns2.to_multiset_ensures();
    runs.to_multiset_ensures();
    runs2.to_multiset_ensures();
    assert forall|i: int| 0 <= i < turns.len() && (#[trigger] turns[i]).end is Some implies turns[i].end->0
        <= big by {
        assert(turns.contains(turns[i]));
        assert(turns2.to_multiset().count(turns[i]) > 0);
        assert(turns2.contains(turns[i]));
        let j = choose|j: int| 0 <= j < turns2.len() && turns2[j] == turns[i];
        assert(turns2[j].end is Some);
    }
    assert forall|i: int| 0 <= i < runs.len() implies (#[trigger] runs[i]).start <= big by {
        assert(runs.contains(runs[i]));
        assert(runs2.to_multiset().count(runs[i]) > 0);
        assert(runs2.contains(runs[i]));
        let j = choose|j: int| 0 <= j < runs2.len() && runs2[j] == runs[i];
        assert(runs2[j].start <= big);
    }
    lemma_max_turn_end_le(turns, 0, big);
    lemma_max_run_start_le(runs, max_turn_end(turns, 0), big);
}

// ------------------------------------------------------------------
// File contents
// ------------------------------------------------------------------

pub open spec fn digit_char(d: int) -> char {
    if d == 0 {
        '0'
    } else if d == 1 {
        '1'
    } else if d == 2 {
        '2'
    } else if d == 3 {
        '3'
    } else if d == 4 {
        '4'
    } else if d == 5 {
        '5'
    } else if d == 6 {
        '6'
    } else if d == 7 {
        '7'
    } else if d == 8 {
        '8'
    } else {
        '9'
    }
}

/// Decimal digits of a natural number, most significant first.
pub open spec fn dec_nat(n: nat) -> Seq<char>
    decreases n,
{
    if n < 10 {
        seq![digit_char(n as int)]
    } else {
        dec_nat(n / 10).push(digit_char((n % 10) as int))
    }
}

/// Decimal text of an integer, as `Display` writes it.
pub open spec fn dec(n: int) -> Seq<char> {
    if n < 0 {
        seq!['-'] + dec_nat((-n) as nat)
    } else {
        dec_nat(n as nat)
    }
}

fn digit(d: u64) -> (c: char)
    requires
        d < 10,
    ensures
        c == digit_char(d as int),
{
    if d == 0 {
        '0'
    } else if d == 1 {
        '1'
    } else if d == 2 {
        '2'
    } else if d == 3 {
        '3'
    } else if d == 4 {
        '4'
    } else if d == 5 {
        '5'
    } else if d == 6 {
        '6'
    } else if d == 7 {
        '7'
    } else if d == 8 {
        '8'
    } else {
        '9'
    }
}

fn push_dec_nat(out: &mut Vec<char>, n: u64)
    ensures
        final(out)@ == old(out)@ + dec_nat(n as nat),
    decreases n,
{
    if n >= 10 {
        push_dec_nat(out, n / 10);
    }
    out.push(digit(n % 10));
    proof {
        if n >= 10 {
            assert(old(out)@ + dec_nat(n as nat) =~= (old(out)@ + dec_nat((n / 10) as nat)).push(
                digit_char((n % 10) as int),
            ));
        } else {
            assert(dec_nat(n as nat) == seq![digit_char(n as int)]);
        }
    }
}

/// Appends the decimal text of `n`.
pub fn push_dec(out: &mut Vec<char>, n: i64)
    ensures
        final(out)@ == old(out)@ + dec(n as int),
{
    if n < 0 {
        out.push('-');
        let m: u64 = ((-(n + 1)) as u64) + 1;
        assert(m == -n);
        push_dec_nat(out, m);
        assert(old(out)@ + dec(n as int) =~= old(out)@.push('-') + dec_nat(m as nat));
    } else {
        push_dec_nat(out, n as u64);
    }
}

/// Appends the characters of a literal.
fn push_str(out: &mut Vec<char>, s: &str)
    ensures
        final(out)@ == old(out)@ + s@,
{
    let v = chars_of(s);
    let n = v.len();
    push_range(out, &v, 0, n);
    assert(v@.subrange(0, n as int) =~= v@);
}

/// Text of the heartbeat file.
pub open spec fn heartbeat_js(ms: int) -> Seq<char> {
    "window.__ZBAR_USAGE_HB__ = "@ + dec(ms) + ";\n"@
}

/// Renders `window.__ZBAR_USAGE_HB__ = <ms>;` and a newline.
pub fn render_heartbeat_js(ms: i64) -> (r: String)
    ensures
        r@ == heartbeat_js(ms as int),
{
    let mut out: Vec<char> = Vec::new();
    push_str(&mut out, "window.__ZBAR_USAGE_HB__ = ");
    push_dec(&mut out, ms);
    push_str(&mut out, ";\n");
    assert(out@ =~= heartbeat_js(ms as int));
    string_of(&out)
}

/// A signal as JSON: its number, or `null`.
pub open spec fn opt_json(v: Option<i64>) -> Seq<char> {
    match v {
        Some(t) => dec(t as int),
        None => "null"@,
    }
}

fn push_opt(out: &mut Vec<char>, v: Option<i64>)
    ensures
        final(out)@ == old(out)@ + opt_json(v),
{
    match v {
        Some(t) => push_dec(out, t),
        None => push_str(out, "null"),
    }
}

/// Text of the usage data file.
pub open spec fn usage_js(
    ts_ms: int,
    la_ms: int,
    pending_user: Option<i64>,
    active_tool: Option<i64>,
    failure_event: Option<i64>,
    turns_json: Seq<char>,
    runs_json: Seq<char>,
    sess_json: Seq<char>,
) -> Seq<char> {
    "window.__ZBAR_USAGE__ = {\"v\":2,\"ts\":"@ + dec(ts_ms) + ",\"la\":"@ + dec(la_ms)
        + ",\"pu\":"@ + opt_json(pending_user) + ",\"ta\":"@ + opt_json(active_tool)
        + ",\"fe\":"@ + opt_json(failure_event) + ",\"turns\":"@ + turns_json + ",\"runs\":"@
        + runs_json + ",\"sess\":"@ + sess_json + "};\n"@
}

/// Renders the whole `usage-data.js` text from the serialised arrays.
pub fn render_usage_js(
    ts_ms: i64,
    la_ms: i64,
    pending_user: Option<i64>,
    active_tool: Option<i64>,
    failure_event: Option<i64>,
    turns_json: &str,
    runs_json: &str,
    sess_json: &str,
) -> (r: String)
    ensures
        r@ == usage_js(
            ts_ms as int,
            la_ms as int,
            pending_user,
            active_tool,
            failure_event,
            turns_json@,
            runs_json@,
            sess_json@,
        ),
{
    let mut out: Vec<char> = Vec::new();
    push_str(&mut out, "window.__ZBAR_USAGE__ = {\"v\":2,\"ts\":");
    push_dec(&mut out, ts_ms);
    push_str(&mut out, ",\"la\":");
    push_dec(&mut out, la_ms);
    push_str(&mut out, ",\"pu\":");
    push_opt(&mut out, pending_user);
    push_str(&mut out, ",\"ta\":");
    push_opt(&mut out, active_tool);
    push_str(&mut out, ",\"fe\":");
    push_opt(&mut out, failure_event);
    push_str(&mut out, ",\"turns\":");
    push_str(&mut out, turns_json);
    push_str(&mut out, ",\"runs\":");
    push_str(&mut out, runs_json);
    push_str(&mut out, ",\"sess\":");
    push_str(&mut out, sess_json);
    push_str(&mut out, "};\n");
    assert(out@ =~= usage_js(
        ts_ms as int,
        la_ms as int,
        pending_user,
        active_tool,
        failure_event,
        turns_json@,
        runs_json@,
        sess_json@,
    ));
    string_of(&out)
}

/// A signal in the change key: its number, or `-` when absent.
pub open spec fn signal_key(v: Option<i64>) -> Seq<char> {
    match v {
        Some(t) => dec(t as int),
        None => "-"@,
    }
}

/// What decides whether the data file is rewritten: the three arrays and
/// the three signals, separated by U+0001; the timestamp and the last
/// activity (derived from the rest) are left out.
pub open spec fn change_key_of(
    pending_user: Option<i64>,
    active_tool: Option<i64>,
    failure_event: Option<i64>,
    turns_json: Seq<char>,
    runs_json: Seq<char>,
    sess_json: Seq<char>,
) -> Seq<char> {
    turns_json + seq!['\u{1}'] + runs_json + seq!['\u{1}'] + sess_json + seq!['\u{1}'] + signal_key(
        pending_user,
    ) + seq!['\u{1}'] + signal_key(active_tool) + seq!['\u{1}'] + signal_key(failure_event) + seq![
        '\u{1}',
    ]
}

fn push_signal(out: &mut Vec<char>, v: Option<i64>)
    ensures
        final(out)@ == old(out)@ + signal_key(v) + seq!['\u{1}'],
{
    match v {
        Some(t) => push_dec(out, t),
        None => push_str(out, "-"),
    }
    out.push('\u{1}');
}

/// The change key of an export (see `change_key_of`).
pub fn change_key(
    pending_user: Option<i64>,
    active_tool: Option<i64>,
    failure_event: Option<i64>,
    turns_json: &str,
    runs_json: &str,
    sess_json: &str,
) -> (r: String)
    ensures
        r@ == change_key_of(
            pending_user,
            active_tool,
            failure_event,
            turns_json@,
            runs_json@,
            sess_json@,
        ),
{
    let mut out: Vec<char> = Vec::new();
    push_str(&mut out, turns_json);
    out.push('\u{1}');
    push_str(&mut out, runs_json);
    out.push('\u{1}');
    push_str(&mut out, sess_json);
    out.push('\u{1}');
    push_signal(&mut out, pending_user);
    push_signal(&mut out, active_tool);
    push_signal(&mut out, failure_event);
    assert(out@ =~= change_key_of(
        pending_user,
        active_tool,
        failure_event,
        turns_json@,
        runs_json@,
        sess_json@,
    ));
    string_of(&out)
}

/// The data file is rewritten only when its change key differs from the
/// one of the last write.
pub fn write_needed(cache: &Option<String>, key: &String) -> (b: bool)
    ensures
        b == match cache {
            Some(c) => c@ != key@,
            None => true,
        },
{
    match cache {
        Some(c) => !(*c == *key),
        None => true,
    }
}

// ------------------------------------------------------------------
// Model lists
// ------------------------------------------------------------------

/// The views of a list of strings.
pub open spec fn str_views(v: Seq<String>) -> Seq<Seq<char>> {
    v.map_values(|s: String| s@)
}

/// `list` with `m` appended unless already present.
pub open spec fn dedup_push(list: Seq<Seq<char>>, m: Seq<char>) -> Seq<Seq<char>> {
    if list.contains(m) {
        list
    } else {
        list.push(m)
    }
}

/// Turn id to its models, each kept once in order of first appearance.
pub open spec fn models_map(rows: Seq<(String, String)>) -> Map<Seq<char>, Seq<Seq<char>>>
    decreases rows.len(),
{
    if rows.len() == 0 {
        Map::empty()
    } else {
        let prev = models_map(rows.drop_last());
        let k = rows.last().0@;
        let m = rows.last().1@;
        prev.insert(
            k,
            if prev.contains_key(k) {
                dedup_push(prev[k], m)
            } else {
                seq![m]
            },
        )
    }
}

/// The map that a list of entries with distinct keys stands for.
pub open spec fn entries_map(es: Seq<(String, Vec<String>)>) -> Map<Seq<char>, Seq<Seq<char>>>
    decreases es.len(),
{
    if es.len() == 0 {
        Map::empty()
    } else {
        entries_map(es.drop_last()).insert(es.last().0@, str_views(es.last().1@))
    }
}

pub open spec fn keys_unique(es: Seq<(String, Vec<String>)>) -> bool {
    forall|i: int, j: int| 0 <= i < j < es.len() ==> (#[trigger] es[i]).0@ != (#[trigger] es[j]).0@
}

pub proof fn lemma_entries_map_index(es: Seq<(String, Vec<String>)>, i: int)
    requires
        keys_unique(es),
        0 <= i < es.len(),
    ensures
        entries_map(es).contains_key(es[i].0@),
        entries_map(es)[es[i].0@] == str_views(es[i].1@),
    decreases es.len(),
{
    if i < es.len() - 1 {
        let p = es.drop_last();
        assert(p[i] == es[i]);
        lemma_entries_map_index(p, i);
        assert(es[i].0@ != es.last().0@);
    }
}

pub proof fn lemma_entries_map_keys(es: Seq<(String, Vec<String>)>, k: Seq<char>)
    ensures
        entries_map(es).contains_key(k) <==> exists|i: int| 0 <= i < es.len() && (#[trigger] es[i]).0@ == k,
    decreases es.len(),
{
    if es.len() > 0 {
        let p = es.drop_last();
        lemma_entries_map_keys(p, k);
        if exists|i: int| 0 <= i < p.len() && (#[trigger] p[i]).0@ == k {
            let i = choose|i: int| 0 <= i < p.len() && (#[trigger] p[i]).0@ == k;
            assert(es[i] == p[i]);
        }
        if exists|i: int| 0 <= i < es.len() && (#[trigger] es[i]).0@ == k {
            let i = choose|i: int| 0 <= i < es.len() && (#[trigger] es[i]).0@ == k;
            if i < es.len() - 1 {
                assert(es[i] == p[i]);
            }
        }
    }
}

pub proof fn lemma_entries_map_update(es: Seq<(String, Vec<String>)>, j: int, v: Vec<String>)
    requires
        keys_unique(es),
        0 <= j < es.len(),
    ensures
        entries_map(es.update(j, (es[j].0, v))) == entries_map(es).insert(es[j].0@, str_views(v@)),
    decreases es.len(),
{
    let u = es.update(j, (es[j].0, v));
    if j == es.len() - 1 {
        assert(u.drop_last() =~= es.drop_last());
        assert(entries_map(u) =~= entries_map(es).insert(es[j].0@, str_views(v@)));
    } else {
        let p = es.drop_last();
        assert(p[j] == es[j]);
        lemma_entries_map_update(p, j, v);
        assert(u.drop_last() =~= p.update(j, (p[j].0, v)));
        assert(es[j].0@ != es.last().0@);
        assert(entries_map(u) =~= entries_map(es).insert(es[j].0@, str_views(v@)));
    }
}

/// Turn id to its models, each kept once in order of first appearance.
pub struct ModelsMap {
    entries: Vec<(String, Vec<String>)>,
}

impl View for ModelsMap {
    type V = Map<Seq<char>, Seq<Seq<char>>>;

    closed spec fn view(&self) -> Map<Seq<char>, Seq<Seq<char>>> {
        entries_map(self.entries@)
    }
}

impl ModelsMap {
    #[verifier::type_invariant]
    spec fn inv(self) -> bool {
        keys_unique(self.entries@)
    }

    /// The empty map.
    pub fn new() -> (r: ModelsMap)
        ensures
            r@ == Map::<Seq<char>, Seq<Seq<char>>>::empty(),
    {
        ModelsMap { entries: Vec::new() }
    }

    /// Index of the entry for `key`.
    fn find(&self, key: &str) -> (r: Option<usize>)
        ensures
            match r {
                Some(j) => j < self.entries.len() && self.entries@[j as int].0@ == key@,
                None => forall|i: int|
                    0 <= i < self.entries.len() ==> (#[trigger] self.entries@[i]).0@ != key@,
            },
    {
        let kc = chars_of(key);
        let mut j: usize = 0;
        while j < self.entries.len()
            invariant
                j <= self.entries.len(),
                kc@ == key@,
                forall|i: int| 0 <= i < j ==> (#[trigger] self.entries@[i]).0@ != key@,
            decreases self.entries.len() - j,
        {
            if chars_eq(&chars_of(self.entries[j].0.as_str()), &kc) {
                return Some(j);
            }
            j = j + 1;
        }
        None
    }

    /// The models of `key`.
    pub fn get(&self, key: &str) -> (r: Option<&Vec<String>>)
        ensures
            match r {
                Some(v) => self@.contains_key(key@) && str_views(v@) == self@[key@],
                None => !self@.contains_key(key@),
            },
    {
        proof {
            use_type_invariant(self);
            lemma_entries_map_keys(self.entries@, key@);
        }
        match self.find(key) {
            Some(j) => {
                proof {
                    lemma_entries_map_index(self.entries@, j as int);
                }
                Some(&self.entries[j].1)
            },
            None => None,
        }
    }

    /// Adds model `m` to the list of `key` unless it is already there.
    pub fn push_model(&mut self, key: String, m: String)
        ensures
            final(self)@ == old(self)@.insert(
                key@,
                if old(self)@.contains_key(key@) {
                    dedup_push(old(self)@[key@], m@)
                } else {
                    seq![m@]
                },
            ),
    {
        proof {
            use_type_invariant(&*self);
            lemma_entries_map_keys(self.entries@, key@);
        }
        match self.find(key.as_str()) {
            Some(j) => {
                let ghost es = self.entries@;
                proof {
                    lemma_entries_map_index(es, j as int);
                }
                let mut tmp: Vec<(String, Vec<String>)> = Vec::new();
                std::mem::swap(&mut tmp, &mut self.entries);
                let (k, mut list) = tmp.remove(j);
                let ghost old_list = list@;
                let mut q: usize = 0;
                while q < list.len() && list[q] != m
                    invariant
                        q <= list.len(),
                        list@ == old_list,
                        forall|x: int| 0 <= x < q ==> (#[trigger] list@[x])@ != m@,
                    decreases list.len() - q,
                {
                    q = q + 1;
                }
                let found = q < list.len();
                proof {
                    if found {
                        assert(str_views(old_list)[q as int] == m@);
                        assert(str_views(old_list).contains(m@));
                    } else {
                        assert forall|x: int| 0 <= x < old_list.len() implies str_views(
                            old_list,
                        )[x] != m@ by {
                            assert(str_views(old_list)[x] == old_list[x]@);
                            assert(old_list[x]@ != m@);
                        }
                        assert(!str_views(old_list).contains(m@));
                    }
                }
                if !found {
                    list.push(m);
                    assert(str_views(list@) =~= str_views(old_list).push(m@));
                }
                tmp.insert(j, (k, list));
                proof {
                    assert(tmp@ =~= es.update(j as int, (es[j as int].0, list)));
                    lemma_entries_map_update(es, j as int, list);
                    assert forall|a: int, b: int| 0 <= a < b < tmp@.len() implies (
                    #[trigger] tmp@[a]).0@ != (#[trigger] tmp@[b]).0@ by {
                        assert(es[a].0@ != es[b].0@);
                    }
                }
                self.entries = tmp;
            },
            None => {
                let mut tmp: Vec<(String, Vec<String>)> = Vec::new();
                std::mem::swap(&mut tmp, &mut self.entries);
                let ghost es = tmp@;
                let mut list: Vec<String> = Vec::new();
                list.push(m);
                assert(str_views(list@) =~= seq![m@]);
                tmp.push((key, list));
                assert(tmp@.drop_last() =~= es);
                assert forall|a: int, b: int| 0 <= a < b < tmp@.len() implies (#[trigger] tmp@[a]).0@
                    != (#[trigger] tmp@[b]).0@ by {
                    if b < es.len() {
                        assert(es[a].0@ != es[b].0@);
                    } else {
                        assert(tmp@[a] == es[a]);
                    }
                }
                self.entries = tmp;
            },
        }
    }

    /// Sets the models of `key`, replacing any earlier list.
    pub fn insert(&mut self, key: String, value: Vec<String>)
        ensures
            final(self)@ == old(self)@.insert(key@, str_views(value@)),
    {
        proof {
            use_type_invariant(&*self);
        }
        match self.find(key.as_str()) {
            Some(j) => {
                let ghost es = self.entries@;
                let k = self.entries[j].0.clone();
                proof {
                    lemma_entries_map_update(es, j as int, value);
                }
                let mut tmp: Vec<(String, Vec<String>)> = Vec::new();
                std::mem::swap(&mut tmp, &mut self.entries);
                tmp.set(j, (k, value));
                assert(tmp@ == es.update(j as int, (es[j as int].0, value)));
                assert forall|a: int, b: int| 0 <= a < b < tmp@.len() implies (#[trigger] tmp@[a]).0@
                    != (#[trigger] tmp@[b]).0@ by {
                    assert(es[a].0@ != es[b].0@);
                }
                self.entries = tmp;
            },
            None => {
                let mut tmp: Vec<(String, Vec<String>)> = Vec::new();
                std::mem::swap(&mut tmp, &mut self.entries);
                let ghost es = tmp@;
                tmp.push((key, value));
                assert(tmp@.drop_last() =~= es);
                assert forall|a: int, b: int| 0 <= a < b < tmp@.len() implies (#[trigger] tmp@[a]).0@
                    != (#[trigger] tmp@[b]).0@ by {
                    if b < es.len() {
                        assert(es[a].0@ != es[b].0@);
                    } else {
                        assert(tmp@[a] == es[a]);
                    }
                }
                self.entries = tmp;
            },
        }
    }
}

/// Turn id to its models, each model once, in order of first appearance.
pub fn build_models_map(rows: Vec<(String, String)>) -> (r: ModelsMap)
    ensures
        r@ == models_map(rows@),
{
    let mut map = ModelsMap::new();
    let mut i: usize = 0;
    while i < rows.len()
        invariant
            i <= rows.len(),
            map@ == models_map(rows@.take(i as int)),
        decreases rows.len() - i,
    {
        let k = rows[i].0.clone();
        let m = rows[i].1.clone();
        map.push_model(k, m);
        proof {
            assert(rows@.take(i + 1).drop_last() =~= rows@.take(i as int));
            assert(rows@.take(i + 1).last() == rows@[i as int]);
        }
        i = i + 1;
    }
    assert(rows@.take(rows.len() as int) =~= rows@);
    map
}

/// No model appears twice in the list of a turn.
pub proof fn lemma_models_map_no_duplicates(rows: Seq<(String, String)>, k: Seq<char>)
    requires
        models_map(rows).contains_key(k),
    ensures
        models_map(rows)[k].no_duplicates(),
    decreases rows.len(),
{
    let prev = models_map(rows.drop_last());
    let key = rows.last().0@;
    if key == k {
        if prev.contains_key(k) {
            lemma_models_map_no_duplicates(rows.drop_last(), k);
            let l = prev[k];
            let m = rows.last().1@;
            if !l.contains(m) {
                assert forall|a: int, b: int| 0 <= a < b < l.push(m).len() implies l.push(m)[a]
                    != l.push(m)[b] by {
                    if b == l.len() {
                        assert(l.push(m)[a] == l[a]);
                    } else {
                        assert(l[a] != l[b]);
                    }
                }
            }
        }
    } else {
        lemma_models_map_no_duplicates(rows.drop_last(), k);
    }
}

/// `list` extended by `xs`, skipping models already present.
pub open spec fn dedup_extend(list: Seq<Seq<char>>, xs: Seq<Seq<char>>) -> Seq<Seq<char>>
    decreases xs.len(),
{
    if xs.len() == 0 {
        list
    } else {
        dedup_extend(dedup_push(list, xs[0]), xs.drop_first())
    }
}

/// The models of turn `tid`: its own, then those of every sub-agent turn
/// merged into it, each model once.
pub open spec fn turn_models(
    m: Map<Seq<char>, Seq<Seq<char>>>,
    pairs: Seq<(Seq<char>, Seq<char>)>,
    tid: Seq<char>,
) -> Seq<Seq<char>>
    decreases pairs.len(),
{
    if pairs.len() == 0 {
        if m.contains_key(tid) {
            m[tid]
        } else {
            Seq::empty()
        }
    } else {
        let prev = turn_models(m, pairs.drop_last(), tid);
        let p = pairs.last();
        if p.0 == tid && m.contains_key(p.1) {
            dedup_extend(prev, m[p.1])
        } else {
            prev
        }
    }
}

/// `a` and `b` agree on every field but `models`.
pub open spec fn same_but_models(a: UsageTurn, b: UsageTurn) -> bool {
    &&& a.turn_id == b.turn_id
    &&& a.user_message_id == b.user_message_id
    &&& a.session_id == b.session_id
    &&& a.status == b.status
    &&& a.start == b.start
    &&& a.end == b.end
    &&& a.input_tokens == b.input_tokens
    &&& a.output_tokens == b.output_tokens
    &&& a.cache_read == b.cache_read
    &&& a.cache_write == b.cache_write
    &&& a.reasoning == b.reasoning
    &&& a.requests == b.requests
    &&& a.retries == b.retries
    &&& a.tool_calls == b.tool_calls
    &&& a.dur == b.dur
    &&& a.ttft == b.ttft
    &&& a.sub == b.sub
    &&& a.subagent == b.subagent
}

fn contains_model(list: &Vec<Vec<char>>, x: &Vec<char>) -> (r: bool)
    ensures
        r == views(list@).contains(x@),
{
    let mut q: usize = 0;
    while q < list.len()
        invariant
            q <= list.len(),
            forall|a: int| 0 <= a < q ==> (#[trigger] list@[a])@ != x@,
        decreases list.len() - q,
    {
        if chars_eq(&list[q], x) {
            assert(views(list@)[q as int] == x@);
            return true;
        }
        q = q + 1;
    }
    assert forall|a: int| 0 <= a < views(list@).len() implies views(list@)[a] != x@ by {
        assert(views(list@)[a] == list@[a]@);
    }
    false
}

fn to_char_lists(xs: &Vec<String>) -> (r: Vec<Vec<char>>)
    ensures
        views(r@) == str_views(xs@),
{
    let mut r: Vec<Vec<char>> = Vec::new();
    let mut q: usize = 0;
    while q < xs.len()
        invariant
            q <= xs.len(),
            views(r@) == str_views(xs@).take(q as int),
        decreases xs.len() - q,
    {
        let ghost before = views(r@);
        let c = chars_of(xs[q].as_str());
        assert(c@ == str_views(xs@)[q as int]);
        r.push(c);
        assert(views(r@) =~= before.push(c@));
        q = q + 1;
        assert(views(r@) =~= str_views(xs@).take(q as int));
    }
    assert(str_views(xs@).take(xs.len() as int) =~= str_views(xs@));
    r
}

fn extend_models(list: &mut Vec<Vec<char>>, xs: &Vec<String>)
    ensures
        views(final(list)@) == dedup_extend(views(old(list)@), str_views(xs@)),
{
    let mut q: usize = 0;
    assert(str_views(xs@).skip(0) =~= str_views(xs@));
    while q < xs.len()
        invariant
            q <= xs.len(),
            dedup_extend(views(list@), str_views(xs@).skip(q as int)) == dedup_extend(
                views(old(list)@),
                str_views(xs@),
            ),
        decreases xs.len() - q,
    {
        let x = chars_of(xs[q].as_str());
        let ghost before = views(list@);
        let ghost rest = str_views(xs@).skip(q as int);
        assert(rest[0] == x@);
        assert(rest.drop_first() =~= str_views(xs@).skip(q + 1));
        if !contains_model(list, &x) {
            list.push(x);
            assert(views(list@) =~= before.push(x@));
        }
        q = q + 1;
    }
    assert(str_views(xs@).skip(xs.len() as int) =~= Seq::<Seq<char>>::empty());
}

/// Writes into every turn its model list: its own models, then those of the
/// sub-agent turns merged into it, deduplicated and joined with commas.
pub fn attach_models(
    turns: &mut Vec<UsageTurn>,
    models: &ModelsMap,
    merged_pairs: &[(String, String)],
)
    ensures
        final(turns).len() == old(turns).len(),
        forall|i: int|
            0 <= i < final(turns).len() ==> same_but_models(
                #[trigger] final(turns)@[i],
                old(turns)@[i],
            ) && final(turns)@[i].models@ == join(
                turn_models(models@, pair_views(merged_pairs@), old(turns)@[i].turn_id@),
                ","@,
            ),
{
    let comma = chars_of(",");
    let mut i: usize = 0;
    while i < turns.len()
        invariant
            i <= turns.len(),
            turns.len() == old(turns).len(),
            comma@ == ","@,
            forall|j: int|
                0 <= j < i ==> same_but_models(#[trigger] turns@[j], old(turns)@[j])
                    && turns@[j].models@ == join(
                    turn_models(models@, pair_views(merged_pairs@), old(turns)@[j].turn_id@),
                    ","@,
                ),
            forall|j: int| i <= j < turns.len() ==> #[trigger] turns@[j] == old(turns)@[j],
        decreases turns.len() - i,
    {
        let ghost tid = turns@[i as int].turn_id@;
        let mut list: Vec<Vec<char>> = Vec::new();
        match models.get(turns[i].turn_id.as_str()) {
            Some(own) => {
                list = to_char_lists(own);
            },
            None => {
                assert(views(list@) =~= Seq::<Seq<char>>::empty());
            },
        }
        assert(pair_views(merged_pairs@).take(0) =~= Seq::<(Seq<char>, Seq<char>)>::empty());
        assert(views(list@) == turn_models(models@, pair_views(merged_pairs@).take(0), tid));
        let mut q: usize = 0;
        while q < merged_pairs.len()
            invariant
                q <= merged_pairs.len(),
                i < turns.len(),
                tid == turns@[i as int].turn_id@,
                views(list@) == turn_models(models@, pair_views(merged_pairs@).take(q as int), tid),
            decreases merged_pairs.len() - q,
        {
            let ghost pv = pair_views(merged_pairs@);
            assert(pv.take(q + 1).drop_last() =~= pv.take(q as int));
            assert(pv.take(q + 1).last() == (merged_pairs@[q as int].0@, merged_pairs@[q as int].1@));
            if merged_pairs[q].0 == turns[i].turn_id {
                match models.get(merged_pairs[q].1.as_str()) {
                    Some(sub_models) => {
                        extend_models(&mut list, sub_models);
                    },
                    None => {},
                }
            }
            q = q + 1;
        }
        assert(pair_views(merged_pairs@).take(merged_pairs@.len() as int) =~= pair_views(merged_pairs@));
        let joined = join_chars(&list, &comma);
        let text = string_of(&joined);
        turns[i].models = text;
        i = i + 1;
    }
}

/// Pushing a model that is absent keeps a list free of duplicates.
proof fn lemma_dedup_push_no_duplicates(list: Seq<Seq<char>>, m: Seq<char>)
    requires
        list.no_duplicates(),
    ensures
        dedup_push(list, m).no_duplicates(),
{
    if !list.contains(m) {
        let l = list.push(m);
        assert forall|a: int, b: int| 0 <= a < b < l.len() implies l[a] != l[b] by {
            if b == list.len() {
                assert(l[a] == list[a]);
            } else {
                assert(list[a] != list[b]);
            }
        }
    }
}

proof fn lemma_dedup_extend_no_duplicates(list: Seq<Seq<char>>, xs: Seq<Seq<char>>)
    requires
        list.no_duplicates(),
    ensures
        dedup_extend(list, xs).no_duplicates(),
    decreases xs.len(),
{
    if xs.len() > 0 {
        lemma_dedup_push_no_duplicates(list, xs[0]);
        lemma_dedup_extend_no_duplicates(dedup_push(list, xs[0]), xs.drop_first());
    }
}

/// The model list written into a turn never names a model twice, whatever
/// sub-agent turns were merged into it.
pub proof fn lemma_turn_models_no_duplicates(
    rows: Seq<(String, String)>,
    pairs: Seq<(Seq<char>, Seq<char>)>,
    tid: Seq<char>,
)
    ensures
        turn_models(models_map(rows), pairs, tid).no_duplicates(),
    decreases pairs.len(),
{
    let m = models_map(rows);
    if pairs.len() == 0 {
        if m.contains_key(tid) {
            lemma_models_map_no_duplicates(rows, tid);
        } else {
            assert(Seq::<Seq<char>>::empty().no_duplicates());
        }
    } else {
        lemma_turn_models_no_duplicates(rows, pairs.drop_last(), tid);
        let p = pairs.last();
        if p.0 == tid && m.contains_key(p.1) {
            lemma_dedup_extend_no_duplicates(turn_models(m, pairs.drop_last(), tid), m[p.1]);
        }
    }
}

// ------------------------------------------------------------------
// Merging sub-agent turns into main turns
// ------------------------------------------------------------------

/// Main turn `t` covers sub-agent turn `s`: same parent session, `t` starts
/// no later and ends no earlier than `s`.
pub open spec fn covers(t: UsageTurn, s: SubTurnRow) -> bool {
    &&& s.completed_at is Some
    &&& s.parent_session_id is Some
    &&& t.session_id@ == s.parent_session_id->0@
    &&& t.start <= s.started_at
    &&& t.end is Some
    &&& s.completed_at->0 <= t.end->0
}

/// Main turn `t` of the parent session was already running when `s`
/// started and has completed: `s` belongs to it even though it overran it.
pub open spec fn owner_done(t: UsageTurn, s: SubTurnRow) -> bool {
    &&& s.parent_session_id is Some
    &&& t.session_id@ == s.parent_session_id->0@
    &&& t.start <= s.started_at
    &&& t.end is Some
    &&& s.started_at < t.end->0
}

pub open spec fn sub_or_zero(a: Option<SubAgg>) -> SubAgg {
    match a {
        Some(x) => x,
        None => sub_agg_zero(),
    }
}

pub open spec fn fits(x: int) -> bool {
    i64::MIN <= x <= i64::MAX
}

/// Adding `s` to `t` stays within `i64`.
pub open spec fn absorb_fits(t: UsageTurn, s: SubTurnRow) -> bool {
    &&& fits(t.input_tokens + s.input_tokens)
    &&& fits(t.output_tokens + s.output_tokens)
    &&& fits(t.cache_read + s.cache_read)
    &&& fits(t.cache_write + s.cache_write)
    &&& fits(t.reasoning + s.reasoning)
    &&& fits(t.requests + s.requests)
    &&& fits(t.retries + s.retries)
    &&& fits(t.tool_calls + s.tool_calls)
    &&& sub_add_fits(
        sub_or_zero(t.sub),
        s.requests,
        s.input_tokens,
        s.output_tokens,
        s.cache_read,
        s.cache_write,
        s.reasoning,
    )
}

/// `t` with the numbers of `s` added to its own and to its `sub` totals;
/// duration and time to first token stay the main turn's own.
pub open spec fn absorbed(t: UsageTurn, s: SubTurnRow) -> UsageTurn {
    UsageTurn {
        input_tokens: (t.input_tokens + s.input_tokens) as i64,
        output_tokens: (t.output_tokens + s.output_tokens) as i64,
        cache_read: (t.cache_read + s.cache_read) as i64,
        cache_write: (t.cache_write + s.cache_write) as i64,
        reasoning: (t.reasoning + s.reasoning) as i64,
        requests: (t.requests + s.requests) as i64,
        retries: (t.retries + s.retries) as i64,
        tool_calls: (t.tool_calls + s.tool_calls) as i64,
        sub: Some(
            sub_added(
                sub_or_zero(t.sub),
                s.requests,
                s.input_tokens,
                s.output_tokens,
                s.cache_read,
                s.cache_write,
                s.reasoning,
            ),
        ),
        ..t
    }
}

/// The main turn that takes `s`, or -1.
pub open spec fn covering_index(turns: Seq<UsageTurn>, s: SubTurnRow) -> int {
    first_where(turns, |t: UsageTurn| covers(t, s))
}

/// One sub-agent turn: merged into the first main turn that covers it
/// (giving a pair of turn ids), or else kept as an orphan for the live
/// aggregation when no completed main turn of its parent owns it; dropped
/// when it has no end or no parent.
pub open spec fn merge_step(turns: Seq<UsageTurn>, s: SubTurnRow) -> (
    Seq<UsageTurn>,
    Seq<(Seq<char>, Seq<char>)>,
    Seq<SubTurnRow>,
) {
    if s.completed_at is None || s.parent_session_id is None {
        (turns, Seq::empty(), Seq::empty())
    } else {
        let j = covering_index(turns, s);
        if j >= 0 {
            (turns.update(j, absorbed(turns[j], s)), seq![(turns[j].turn_id@, s.turn_id@)], Seq::empty())
        } else if exists|i: int| 0 <= i < turns.len() && owner_done(#[trigger] turns[i], s) {
            (turns, Seq::empty(), Seq::empty())
        } else {
            (turns, Seq::empty(), seq![s])
        }
    }
}

/// All sub-agent turns, in order.
pub open spec fn merge_all(turns: Seq<UsageTurn>, subs: Seq<SubTurnRow>) -> (
    Seq<UsageTurn>,
    Seq<(Seq<char>, Seq<char>)>,
    Seq<SubTurnRow>,
)
    decreases subs.len(),
{
    if subs.len() == 0 {
        (turns, Seq::empty(), Seq::empty())
    } else {
        let r = merge_step(turns, subs[0]);
        let q = merge_all(r.0, subs.drop_first());
        (q.0, r.1 + q.1, r.2 + q.2)
    }
}

/// Every merge of `merge_all` stays within `i64`.
pub open spec fn merge_fits(turns: Seq<UsageTurn>, subs: Seq<SubTurnRow>) -> bool
    decreases subs.len(),
{
    if subs.len() == 0 {
        true
    } else {
        let s = subs[0];
        let j = covering_index(turns, s);
        &&& (s.completed_at is Some && s.parent_session_id is Some && j >= 0) ==> absorb_fits(
            turns[j],
            s,
        )
        &&& merge_fits(merge_step(turns, s).0, subs.drop_first())
    }
}

pub open spec fn pair_views(ps: Seq<(String, String)>) -> Seq<(Seq<char>, Seq<char>)> {
    ps.map_values(|p: (String, String)| (p.0@, p.1@))
}

fn covers_exec(t: &UsageTurn, s: &SubTurnRow) -> (b: bool)
    ensures
        b == covers(*t, *s),
{
    match (s.completed_at, &s.parent_session_id) {
        (Some(sub_end), Some(parent)) => t.session_id == *parent && t.start <= s.started_at
            && match t.end {
            Some(e) => sub_end <= e,
            None => false,
        },
        _ => false,
    }
}

fn owner_done_exec(t: &UsageTurn, s: &SubTurnRow) -> (b: bool)
    ensures
        b == owner_done(*t, *s),
{
    match &s.parent_session_id {
        Some(parent) => t.session_id == *parent && t.start <= s.started_at && match t.end {
            Some(e) => s.started_at < e,
            None => false,
        },
        None => false,
    }
}

/// Adds sub-agent turn `s` to main turn `turns[j]`.
fn absorb_into(turns: &mut Vec<UsageTurn>, j: usize, s: &SubTurnRow)
    requires
        j < old(turns).len(),
        absorb_fits(old(turns)@[j as int], *s),
    ensures
        final(turns)@ == old(turns)@.update(j as int, absorbed(old(turns)@[j as int], *s)),
{
    let ghost t0 = turns@[j as int];
    turns[j].input_tokens = turns[j].input_tokens + s.input_tokens;
    turns[j].output_tokens = turns[j].output_tokens + s.output_tokens;
    turns[j].cache_read = turns[j].cache_read + s.cache_read;
    turns[j].cache_write = turns[j].cache_write + s.cache_write;
    turns[j].reasoning = turns[j].reasoning + s.reasoning;
    turns[j].requests = turns[j].requests + s.requests;
    turns[j].retries = turns[j].retries + s.retries;
    turns[j].tool_calls = turns[j].tool_calls + s.tool_calls;
    let mut agg = match turns[j].sub {
        Some(a) => a,
        None => SubAgg::empty(),
    };
    agg.add(s.requests, s.input_tokens, s.output_tokens, s.cache_read, s.cache_write, s.reasoning);
    turns[j].sub = Some(agg);
    assert(turns@[j as int] == absorbed(t0, *s));
    assert(turns@ =~= old(turns)@.update(j as int, absorbed(t0, *s)));
}

/// Merges the sub-agent turns into the main turns that cover them (parent
/// session, time window). Returns the (main, sub) turn id pairs that were
/// merged and the orphan sub-agent turns whose main turn is not stored yet.
pub fn merge_subagent_turns(turns: &mut Vec<UsageTurn>, subs: Vec<SubTurnRow>) -> (r: (
    Vec<(String, String)>,
    Vec<SubTurnRow>,
))
    requires
        merge_fits(old(turns)@, subs@),
    ensures
        final(turns)@ == merge_all(old(turns)@, subs@).0,
        pair_views(r.0@) == merge_all(old(turns)@, subs@).1,
        r.1@ == merge_all(old(turns)@, subs@).2,
{
    let ghost goal = merge_all(turns@, subs@);
    let ghost all = subs@;
    let mut merged: Vec<(String, String)> = Vec::new();
    let mut orphans: Vec<SubTurnRow> = Vec::new();
    assert(all.skip(0) =~= all);
    for sub in it: subs.into_iter()
        invariant
            it.seq() == all,
            merge_fits(turns@, all.skip(it.index())),
            merge_all(turns@, all.skip(it.index())).0 == goal.0,
            pair_views(merged@) + merge_all(turns@, all.skip(it.index())).1 == goal.1,
            orphans@ + merge_all(turns@, all.skip(it.index())).2 == goal.2,
    {
        let ghost k = it.index();
        let ghost cur = turns@;
        let ghost rest = all.skip(k);
        assert(rest[0] == sub);
        assert(rest.drop_first() =~= all.skip(k + 1));
        let ghost st = merge_step(cur, sub);
        let ghost tail = merge_all(st.0, all.skip(k + 1));
        assert(merge_all(cur, rest) == (tail.0, st.1 + tail.1, st.2 + tail.2));
        let ghost pm = pair_views(merged@);
        let ghost om = orphans@;
        if sub.completed_at.is_none() || sub.parent_session_id.is_none() {
            assert(st.1 =~= Seq::<(Seq<char>, Seq<char>)>::empty());
            assert(st.2 =~= Seq::<SubTurnRow>::empty());
            assert(pm + (st.1 + tail.1) =~= pm + tail.1);
            assert(om + (st.2 + tail.2) =~= om + tail.2);
        } else {
        let ghost pred = |t: UsageTurn| covers(t, sub);
        let mut j: usize = 0;
        while j < turns.len() && !covers_exec(&turns[j], &sub)
            invariant
                j <= turns.len(),
                turns@ == cur,
                pred == (|t: UsageTurn| covers(t, sub)),
                forall|m: int| 0 <= m < j ==> !pred(#[trigger] cur[m]),
            decreases turns.len() - j,
        {
            j = j + 1;
        }
        if j < turns.len() {
            proof {
                lemma_first_where_is(cur, pred, j as int);
            }
            absorb_into(turns, j, &sub);
            let main_id = turns[j].turn_id.clone();
            merged.push((main_id, sub.turn_id));
            proof {
                assert(pair_views(merged@) =~= pm.push((cur[j as int].turn_id@, sub.turn_id@)));
                assert(pm + (st.1 + tail.1) =~= pair_views(merged@) + tail.1);
                assert(om + (st.2 + tail.2) =~= om + tail.2);
            }
        } else {
            proof {
                lemma_first_where_is(cur, pred, -1);
            }
            let mut q: usize = 0;
            while q < turns.len() && !owner_done_exec(&turns[q], &sub)
                invariant
                    q <= turns.len(),
                    turns@ == cur,
                    forall|m: int| 0 <= m < q ==> !owner_done(#[trigger] cur[m], sub),
                decreases turns.len() - q,
            {
                q = q + 1;
            }
            if q < turns.len() {
                assert(owner_done(cur[q as int], sub));
                assert(pm + (st.1 + tail.1) =~= pm + tail.1);
                assert(om + (st.2 + tail.2) =~= om + tail.2);
            } else {
                assert(!exists|i: int| 0 <= i < cur.len() && owner_done(#[trigger] cur[i], sub));
                orphans.push(sub);
                assert(pm + (st.1 + tail.1) =~= pm + tail.1);
                assert(om + (st.2 + tail.2) =~= orphans@ + tail.2);
            }
        }
        }
    }
    proof {
        let e = all.skip(all.len() as int);
        assert(e =~= Seq::<SubTurnRow>::empty());
        assert(pair_views(merged@) + Seq::<(Seq<char>, Seq<char>)>::empty() =~= pair_views(merged@));
        assert(orphans@ + Seq::<SubTurnRow>::empty() =~= orphans@);
    }
    (merged, orphans)
}

/// `a` is turn `b` after merges: the same turn, with the same duration and
/// time to first token, and the same own numbers (totals minus the merged
/// sub-agent totals).
pub open spec fn same_turn_own_numbers(a: UsageTurn, b: UsageTurn) -> bool {
    &&& a.turn_id == b.turn_id
    &&& a.user_message_id == b.user_message_id
    &&& a.session_id == b.session_id
    &&& a.status == b.status
    &&& a.start == b.start
    &&& a.end == b.end
    &&& a.dur == b.dur
    &&& a.ttft == b.ttft
    &&& a.subagent == b.subagent
    &&& a.models == b.models
    &&& a.input_tokens - sub_or_zero(a.sub).input_tokens == b.input_tokens - sub_or_zero(
        b.sub,
    ).input_tokens
    &&& a.output_tokens - sub_or_zero(a.sub).output_tokens == b.output_tokens - sub_or_zero(
        b.sub,
    ).output_tokens
    &&& a.cache_read - sub_or_zero(a.sub).cache_read == b.cache_read - sub_or_zero(b.sub).cache_read
    &&& a.cache_write - sub_or_zero(a.sub).cache_write == b.cache_write - sub_or_zero(
        b.sub,
    ).cache_write
    &&& a.reasoning - sub_or_zero(a.sub).reasoning == b.reasoning - sub_or_zero(b.sub).reasoning
    &&& a.requests - sub_or_zero(a.sub).requests == b.requests - sub_or_zero(b.sub).requests
}

/// Merging sub-agent turns keeps every main turn what it was: same turn,
/// same own numbers, same duration and time to first token; every merged
/// number shows in `sub`. Each sub-agent turn is merged or kept as an orphan
/// at most once.
pub proof fn lemma_merge_keeps_main_turns(turns: Seq<UsageTurn>, subs: Seq<SubTurnRow>)
    requires
        merge_fits(turns, subs),
    ensures
        merge_all(turns, subs).0.len() == turns.len(),
        forall|i: int|
            0 <= i < turns.len() ==> same_turn_own_numbers(
                #[trigger] merge_all(turns, subs).0[i],
                turns[i],
            ),
        merge_all(turns, subs).1.len() + merge_all(turns, subs).2.len() <= subs.len(),
    decreases subs.len(),
{
    if subs.len() > 0 {
        let s = subs[0];
        let st = merge_step(turns, s);
        lemma_merge_keeps_main_turns(st.0, subs.drop_first());
        let q = merge_all(st.0, subs.drop_first());
        if s.completed_at is Some && s.parent_session_id is Some {
            let j = covering_index(turns, s);
            if j >= 0 {
                crate::text::lemma_first_where_range(turns, |t: UsageTurn| covers(t, s));
                assert(absorb_fits(turns[j], s));
                assert forall|i: int| 0 <= i < turns.len() implies same_turn_own_numbers(
                    #[trigger] merge_all(turns, subs).0[i],
                    turns[i],
                ) by {
                    assert(same_turn_own_numbers(q.0[i], st.0[i]));
                    if i != j {
                        assert(st.0[i] == turns[i]);
                    } else {
                        assert(st.0[i] == absorbed(turns[j], s));
                    }
                }
            } else {
                assert forall|i: int| 0 <= i < turns.len() implies same_turn_own_numbers(
                    #[trigger] merge_all(turns, subs).0[i],
                    turns[i],
                ) by {
                    assert(same_turn_own_numbers(q.0[i], st.0[i]));
                }
            }
        } else {
            assert forall|i: int| 0 <= i < turns.len() implies same_turn_own_numbers(
                #[trigger] merge_all(turns, subs).0[i],
                turns[i],
            ) by {
                assert(same_turn_own_numbers(q.0[i], st.0[i]));
            }
        }
    }
}

/// Counter number `f` of a main turn: input, output, cache read, cache write,
/// reasoning tokens, requests, retries, tool calls.
pub open spec fn turn_count(t: UsageTurn, f: int) -> int {
    if f == 0 {
        t.input_tokens as int
    } else if f == 1 {
        t.output_tokens as int
    } else if f == 2 {
        t.cache_read as int
    } else if f == 3 {
        t.cache_write as int
    } else if f == 4 {
        t.reasoning as int
    } else if f == 5 {
        t.requests as int
    } else if f == 6 {
        t.retries as int
    } else {
        t.tool_calls as int
    }
}

/// The same counter of a sub-agent turn.
pub open spec fn sub_count(s: SubTurnRow, f: int) -> int {
    if f == 0 {
        s.input_tokens as int
    } else if f == 1 {
        s.output_tokens as int
    } else if f == 2 {
        s.cache_read as int
    } else if f == 3 {
        s.cache_write as int
    } else if f == 4 {
        s.reasoning as int
    } else if f == 5 {
        s.requests as int
    } else if f == 6 {
        s.retries as int
    } else {
        s.tool_calls as int
    }
}

pub open spec fn turns_total(ts: Seq<UsageTurn>, f: int) -> int
    decreases ts.len(),
{
    if ts.len() == 0 {
        0
    } else {
        turns_total(ts.drop_last(), f) + turn_count(ts.last(), f)
    }
}

pub open spec fn subs_total(ss: Seq<SubTurnRow>, f: int) -> int
    decreases ss.len(),
{
    if ss.len() == 0 {
        0
    } else {
        subs_total(ss.drop_last(), f) + sub_count(ss.last(), f)
    }
}

/// The sub-agent turns that `merge_all` merges into a main turn, in order.
pub open spec fn merged_subs(turns: Seq<UsageTurn>, subs: Seq<SubTurnRow>) -> Seq<SubTurnRow>
    decreases subs.len(),
{
    if subs.len() == 0 {
        Seq::empty()
    } else {
        let s = subs[0];
        let here = if s.completed_at is Some && s.parent_session_id is Some && covering_index(
            turns,
            s,
        ) >= 0 {
            seq![s]
        } else {
            Seq::empty()
        };
        here + merged_subs(merge_step(turns, s).0, subs.drop_first())
    }
}

proof fn lemma_turns_total_update(ts: Seq<UsageTurn>, j: int, x: UsageTurn, f: int)
    requires
        0 <= j < ts.len(),
    ensures
        turns_total(ts.update(j, x), f) == turns_total(ts, f) - turn_count(ts[j], f) + turn_count(
            x,
            f,
        ),
    decreases ts.len(),
{
    let u = ts.update(j, x);
    if j == ts.len() - 1 {
        assert(u.drop_last() =~= ts.drop_last());
    } else {
        lemma_turns_total_update(ts.drop_last(), j, x, f);
        assert(u.drop_last() =~= ts.drop_last().update(j, x));
    }
}

proof fn lemma_subs_total_concat(a: Seq<SubTurnRow>, b: Seq<SubTurnRow>, f: int)
    ensures
        subs_total(a + b, f) == subs_total(a, f) + subs_total(b, f),
    decreases b.len(),
{
    if b.len() == 0 {
        assert(a + b =~= a);
    } else {
        lemma_subs_total_concat(a, b.drop_last(), f);
        assert((a + b).drop_last() =~= a + b.drop_last());
    }
}

/// Merging sub-agent turns moves their numbers into the main turns and
/// loses none: each counter summed over the merged main turns is its sum over
/// the main turns before plus its sum over the sub-agent turns that were
/// merged, and those are exactly the sub-agent turns named in the pairs.
pub proof fn lemma_merge_sums(turns: Seq<UsageTurn>, subs: Seq<SubTurnRow>, f: int)
    requires
        merge_fits(turns, subs),
        0 <= f < 8,
    ensures
        turns_total(merge_all(turns, subs).0, f) == turns_total(turns, f) + subs_total(
            merged_subs(turns, subs),
            f,
        ),
        merge_all(turns, subs).1.len() == merged_subs(turns, subs).len(),
        forall|i: int|
            0 <= i < merge_all(turns, subs).1.len() ==> (#[trigger] merge_all(turns, subs).1[i]).1
                == merged_subs(turns, subs)[i].turn_id@,
    decreases subs.len(),
{
    if subs.len() == 0 {
        assert(merged_subs(turns, subs) =~= Seq::<SubTurnRow>::empty());
    } else {
        let s = subs[0];
        let st = merge_step(turns, s);
        lemma_merge_sums(st.0, subs.drop_first(), f);
        let rest = merged_subs(st.0, subs.drop_first());
        let q = merge_all(st.0, subs.drop_first());
        let m = merged_subs(turns, subs);
        if s.completed_at is Some && s.parent_session_id is Some && covering_index(turns, s) >= 0 {
            let j = covering_index(turns, s);
            crate::text::lemma_first_where_range(turns, |t: UsageTurn| covers(t, s));
            assert(absorb_fits(turns[j], s));
            lemma_turns_total_update(turns, j, absorbed(turns[j], s), f);
            assert(turn_count(absorbed(turns[j], s), f) == turn_count(turns[j], f) + sub_count(
                s,
                f,
            ));
            assert(st.0 == turns.update(j, absorbed(turns[j], s)));
            assert(m == seq![s] + rest);
            lemma_subs_total_concat(seq![s], rest, f);
            assert(seq![s].drop_last() =~= Seq::<SubTurnRow>::empty());
            assert(subs_total(Seq::<SubTurnRow>::empty(), f) == 0);
            assert(seq![s].last() == s);
            assert(subs_total(seq![s], f) == sub_count(s, f));
            assert(merge_all(turns, subs).1 == st.1 + q.1);
            assert(st.1 == seq![(turns[j].turn_id@, s.turn_id@)]);
            assert forall|i: int| 0 <= i < merge_all(turns, subs).1.len() implies (
            #[trigger] merge_all(turns, subs).1[i]).1 == m[i].turn_id@ by {
                if i > 0 {
                    assert(merge_all(turns, subs).1[i] == q.1[i - 1]);
                    assert(m[i] == rest[i - 1]);
                }
            }
        } else {
            assert(m =~= rest);
            assert(st.1 =~= Seq::<(Seq<char>, Seq<char>)>::empty());
            assert(merge_all(turns, subs).1 =~= q.1);
            assert(st.0 == turns);
            assert forall|i: int| 0 <= i < merge_all(turns, subs).1.len() implies (
            #[trigger] merge_all(turns, subs).1[i]).1 == m[i].turn_id@ by {
                assert(merge_all(turns, subs).1[i] == q.1[i]);
            }
        }
    }
}

/// Two turn lists agree on what pairing reads: ids, sessions, starts and
/// ends.
pub open spec fn same_shape(a: Seq<UsageTurn>, b: Seq<UsageTurn>) -> bool {
    &&& a.len() == b.len()
    &&& forall|j: int|
        0 <= j < a.len() ==> (#[trigger] a[j]).turn_id == b[j].turn_id && a[j].session_id
            == b[j].session_id && a[j].start == b[j].start && a[j].end == b[j].end
}

proof fn lemma_merge_step_shape(turns: Seq<UsageTurn>, s: SubTurnRow)
    ensures
        same_shape(merge_step(turns, s).0, turns),
{
    if s.completed_at is Some && s.parent_session_id is Some {
        let j = covering_index(turns, s);
        crate::text::lemma_first_where_range(turns, |t: UsageTurn| covers(t, s));
    }
}

/// Some main turn with id `tid` covers sub-agent turn `s`.
pub open spec fn paired_with(turns: Seq<UsageTurn>, s: SubTurnRow, tid: Seq<char>) -> bool {
    exists|j: int| 0 <= j < turns.len() && #[trigger] covers(turns[j], s) && turns[j].turn_id@ == tid
}

/// Merging sub-agent turns pairs each merged one with a main turn of its
/// parent session that starts no later and ends no earlier than it; keeps as
/// orphans only ended sub-agent turns with a parent that no completed main
/// turn of the parent covers or was running when they started; and uses
/// each sub-agent turn at most once (pairs and orphans together are part of
/// the sub-agent turns, as a multiset).
pub proof fn lemma_merge_pairing_law(turns: Seq<UsageTurn>, subs: Seq<SubTurnRow>)
    ensures
        merge_all(turns, subs).1.len() == merged_subs(turns, subs).len(),
        forall|i: int|
            0 <= i < merged_subs(turns, subs).len() ==> paired_with(
                turns,
                #[trigger] merged_subs(turns, subs)[i],
                merge_all(turns, subs).1[i].0,
            ),
        forall|i: int|
            0 <= i < merge_all(turns, subs).2.len() ==> {
                let o = #[trigger] merge_all(turns, subs).2[i];
                &&& o.completed_at is Some
                &&& o.parent_session_id is Some
                &&& forall|j: int| 0 <= j < turns.len() ==> !covers(turns[j], o) && !owner_done(turns[j], o)
            },
        (merged_subs(turns, subs) + merge_all(turns, subs).2).to_multiset().subset_of(
            subs.to_multiset(),
        ),
    decreases subs.len(),
{
    if subs.len() == 0 {
        assert(merged_subs(turns, subs) =~= Seq::<SubTurnRow>::empty());
        assert(merged_subs(turns, subs) + merge_all(turns, subs).2 =~= Seq::<SubTurnRow>::empty());
        broadcast use vstd::multiset::group_multiset_axioms, vstd::seq_lib::group_to_multiset_ensures;
        assert(Seq::<SubTurnRow>::empty().to_multiset().len() == 0);
        assert(Seq::<SubTurnRow>::empty().to_multiset() =~= vstd::multiset::Multiset::<SubTurnRow>::empty());
    } else {
        let s = subs[0];
        let st = merge_step(turns, s);
        let rest_subs = subs.drop_first();
        lemma_merge_pairing_law(st.0, rest_subs);
        lemma_merge_step_shape(turns, s);
        let q = merge_all(st.0, rest_subs);
        let rest = merged_subs(st.0, rest_subs);
        let m = merged_subs(turns, subs);
        let all = merge_all(turns, subs);
        let here = if s.completed_at is Some && s.parent_session_id is Some && covering_index(turns, s)
            >= 0 {
            seq![s]
        } else {
            Seq::<SubTurnRow>::empty()
        };
        assert(m == here + rest);
        assert(all.1 == st.1 + q.1);
        assert(all.2 == st.2 + q.2);
        let ghost pred = |t: UsageTurn| covers(t, s);
        crate::text::lemma_first_where_range(turns, pred);
        crate::text::lemma_first_where_none(turns, pred);
        // pairs
        assert(st.1.len() == here.len());
        assert forall|i: int| 0 <= i < m.len() implies paired_with(turns, #[trigger] m[i], all.1[i].0) by {
            if here.len() == 1 && i == 0 {
                let j = covering_index(turns, s);
                assert(covers(turns[j], m[0]));
                assert(all.1[0] == st.1[0]);
            } else {
                let k = i - here.len();
                assert(m[i] == rest[k]);
                assert(all.1[i] == q.1[k]);
                assert(paired_with(st.0, rest[k], q.1[k].0));
                let j = choose|j: int|
                    0 <= j < st.0.len() && #[trigger] covers(st.0[j], rest[k]) && st.0[j].turn_id@
                        == q.1[k].0;
                assert(st.0[j].turn_id == turns[j].turn_id);
                assert(covers(turns[j], m[i]));
            }
        }
        // orphans
        assert forall|i: int| 0 <= i < all.2.len() implies {
            let o = #[trigger] all.2[i];
            &&& o.completed_at is Some
            &&& o.parent_session_id is Some
            &&& forall|j: int| 0 <= j < turns.len() ==> !covers(turns[j], o) && !owner_done(turns[j], o)
        } by {
            if i < st.2.len() {
                assert(all.2[i] == s);
                assert(st.2 == seq![s]);
                assert forall|j: int| 0 <= j < turns.len() implies !covers(turns[j], s) && !owner_done(
                    turns[j],
                    s,
                ) by {
                    assert(!pred(turns[j]));
                }
            } else {
                let k = i - st.2.len();
                assert(all.2[i] == q.2[k]);
                let o = q.2[k];
                assert forall|j: int| 0 <= j < turns.len() implies !covers(turns[j], o) && !owner_done(
                    turns[j],
                    o,
                ) by {
                    assert(!covers(st.0[j], o) && !owner_done(st.0[j], o));
                    assert(st.0[j].session_id == turns[j].session_id);
                }
            }
        }
        lemma_merge_uses_each_once(turns, subs);
    }
}

proof fn lemma_merge_uses_each_once(turns: Seq<UsageTurn>, subs: Seq<SubTurnRow>)
    requires
        subs.len() > 0,
        (merged_subs(merge_step(turns, subs[0]).0, subs.drop_first()) + merge_all(
            merge_step(turns, subs[0]).0,
            subs.drop_first(),
        ).2).to_multiset().subset_of(subs.drop_first().to_multiset()),
    ensures
        (merged_subs(turns, subs) + merge_all(turns, subs).2).to_multiset().subset_of(
            subs.to_multiset(),
        ),
{
    broadcast use vstd::multiset::group_multiset_axioms;
    broadcast use vstd::seq_lib::lemma_multiset_commutative;
    let s = subs[0];
    let st = merge_step(turns, s);
    let rest_subs = subs.drop_first();
    let q = merge_all(st.0, rest_subs);
    let rest = merged_subs(st.0, rest_subs);
    let m = merged_subs(turns, subs);
    let all = merge_all(turns, subs);
    let here = if s.completed_at is Some && s.parent_session_id is Some && covering_index(turns, s)
        >= 0 {
        seq![s]
    } else {
        Seq::<SubTurnRow>::empty()
    };
    assert(m == here + rest);
    assert(all.2 == st.2 + q.2);
    assert(subs =~= seq![s] + rest_subs);
    assert((here + rest + (st.2 + q.2)).to_multiset() =~= (here + st.2).to_multiset().add(
        (rest + q.2).to_multiset(),
    )) by {
        assert(here + rest + (st.2 + q.2) =~= here + (rest + (st.2 + q.2)));
    }
    assert((here + st.2).to_multiset().subset_of(seq![s].to_multiset())) by {
        if here.len() == 1 {
            assert(st.2.len() == 0);
            assert(here + st.2 =~= seq![s]);
        } else if st.2.len() == 1 {
            assert(here + st.2 =~= seq![s]);
        } else {
            assert(here + st.2 =~= Seq::<SubTurnRow>::empty());
            assert(Seq::<SubTurnRow>::empty().to_multiset() =~= vstd::multiset::Multiset::<SubTurnRow>::empty());
        }
    }
    assert(m + all.2 =~= here + rest + (st.2 + q.2));
}

// ------------------------------------------------------------------
// Live sub-agent totals of in-progress main turns
// ------------------------------------------------------------------

/// Sub-agent sessions have ids starting with `sess_subagent`.
pub open spec fn is_sub_session(s: Seq<char>) -> bool {
    starts_with(s, "sess_subagent"@)
}

/// The numbers one in-progress sub-agent turn adds to its parent's totals.
pub open spec fn run_delta(r: UsageRun) -> SubAgg {
    SubAgg {
        n: 1,
        requests: r.requests,
        input_tokens: r.input_tokens,
        output_tokens: r.output_tokens,
        cache_read: r.cache_read,
        cache_write: r.cache_write,
        reasoning: r.reasoning,
    }
}

/// The numbers one orphan sub-agent turn adds to its parent's totals.
pub open spec fn orphan_delta(o: SubTurnRow) -> SubAgg {
    SubAgg {
        n: 1,
        requests: o.requests,
        input_tokens: o.input_tokens,
        output_tokens: o.output_tokens,
        cache_read: o.cache_read,
        cache_write: o.cache_write,
        reasoning: o.reasoning,
    }
}

/// (parent session, numbers) of every sub-agent run that names a parent.
pub open spec fn run_contribs(runs: Seq<UsageRun>) -> Seq<(Seq<char>, SubAgg)>
    decreases runs.len(),
{
    if runs.len() == 0 {
        Seq::empty()
    } else {
        let prev = run_contribs(runs.drop_last());
        let r = runs.last();
        if is_sub_session(r.session_id@) && r.parent_session_id is Some {
            prev.push((r.parent_session_id->0@, run_delta(r)))
        } else {
            prev
        }
    }
}

/// (parent session, numbers) of every orphan sub-agent turn with a parent.
pub open spec fn orphan_contribs(os: Seq<SubTurnRow>) -> Seq<(Seq<char>, SubAgg)>
    decreases os.len(),
{
    if os.len() == 0 {
        Seq::empty()
    } else {
        let prev = orphan_contribs(os.drop_last());
        let o = os.last();
        if o.parent_session_id is Some {
            prev.push((o.parent_session_id->0@, orphan_delta(o)))
        } else {
            prev
        }
    }
}

pub open spec fn add_delta(a: SubAgg, d: SubAgg) -> SubAgg {
    sub_added(a, d.requests, d.input_tokens, d.output_tokens, d.cache_read, d.cache_write, d.reasoning)
}

pub open spec fn delta_fits(a: SubAgg, d: SubAgg) -> bool {
    sub_add_fits(a, d.requests, d.input_tokens, d.output_tokens, d.cache_read, d.cache_write, d.reasoning)
}

/// Parent session to the totals of its contributions.
pub open spec fn agg_of(cs: Seq<(Seq<char>, SubAgg)>) -> Map<Seq<char>, SubAgg>
    decreases cs.len(),
{
    if cs.len() == 0 {
        Map::empty()
    } else {
        let prev = agg_of(cs.drop_last());
        let k = cs.last().0;
        prev.insert(
            k,
            add_delta(
                if prev.contains_key(k) {
                    prev[k]
                } else {
                    sub_agg_zero()
                },
                cs.last().1,
            ),
        )
    }
}

/// Every addition of `agg_of` stays within `i64`.
pub open spec fn agg_fits(cs: Seq<(Seq<char>, SubAgg)>) -> bool
    decreases cs.len(),
{
    if cs.len() == 0 {
        true
    } else {
        let prev = agg_of(cs.drop_last());
        let k = cs.last().0;
        &&& agg_fits(cs.drop_last())
        &&& delta_fits(
            if prev.contains_key(k) {
                prev[k]
            } else {
                sub_agg_zero()
            },
            cs.last().1,
        )
    }
}

/// Field number `f` of sub-agent totals: count, requests, input, output,
/// cache read, cache write, reasoning tokens.
pub open spec fn agg_field(a: SubAgg, f: int) -> int {
    if f == 0 {
        a.n as int
    } else if f == 1 {
        a.requests as int
    } else if f == 2 {
        a.input_tokens as int
    } else if f == 3 {
        a.output_tokens as int
    } else if f == 4 {
        a.cache_read as int
    } else if f == 5 {
        a.cache_write as int
    } else {
        a.reasoning as int
    }
}

/// The sum of field `f` over the contributions to parent `k` (each counts
/// one towards the count).
pub open spec fn key_sum(cs: Seq<(Seq<char>, SubAgg)>, k: Seq<char>, f: int) -> int
    decreases cs.len(),
{
    if cs.len() == 0 {
        0
    } else {
        key_sum(cs.drop_last(), k, f) + if cs.last().0 == k {
            if f == 0 {
                1
            } else {
                agg_field(cs.last().1, f)
            }
        } else {
            0
        }
    }
}

/// The number of contributions to parent `k`.
pub open spec fn key_count(cs: Seq<(Seq<char>, SubAgg)>, k: Seq<char>) -> int {
    key_sum(cs, k, 0)
}

/// A parent gets totals exactly when something contributes to it; its count
/// is the number of its contributions and each of its sums is the sum over
/// them.
pub proof fn lemma_agg_of_sums(cs: Seq<(Seq<char>, SubAgg)>, k: Seq<char>, f: int)
    requires
        agg_fits(cs),
        0 <= f < 7,
    ensures
        key_count(cs, k) >= 0,
        agg_of(cs).contains_key(k) <==> key_count(cs, k) > 0,
        agg_of(cs).contains_key(k) ==> agg_field(agg_of(cs)[k], f) == key_sum(cs, k, f),
    decreases cs.len(),
{
    lemma_key_count_nonneg(cs, k);
    if cs.len() > 0 {
        lemma_agg_of_sums(cs.drop_last(), k, f);
        lemma_agg_of_sums(cs.drop_last(), k, 0);
        let prev = agg_of(cs.drop_last());
        if cs.last().0 == k && !prev.contains_key(k) {
            assert(key_sum(cs.drop_last(), k, f) == 0) by {
                lemma_key_sum_zero(cs.drop_last(), k, f);
            }
        }
    }
}

proof fn lemma_key_count_nonneg(cs: Seq<(Seq<char>, SubAgg)>, k: Seq<char>)
    ensures
        key_count(cs, k) >= 0,
    decreases cs.len(),
{
    if cs.len() > 0 {
        lemma_key_count_nonneg(cs.drop_last(), k);
    }
}

proof fn lemma_key_sum_zero(cs: Seq<(Seq<char>, SubAgg)>, k: Seq<char>, f: int)
    requires
        key_count(cs, k) == 0,
    ensures
        key_sum(cs, k, f) == 0,
    decreases cs.len(),
{
    if cs.len() > 0 {
        lemma_key_count_nonneg(cs.drop_last(), k);
        lemma_key_sum_zero(cs.drop_last(), k, f);
    }
}

/// The number of sub-agent runs whose parent session is `k`.
pub open spec fn sub_run_count(runs: Seq<UsageRun>, k: Seq<char>) -> int
    decreases runs.len(),
{
    if runs.len() == 0 {
        0
    } else {
        let r = runs.last();
        sub_run_count(runs.drop_last(), k) + if is_sub_session(r.session_id@)
            && r.parent_session_id is Some && r.parent_session_id->0@ == k {
            1int
        } else {
            0int
        }
    }
}

/// The number of orphan sub-agent turns whose parent session is `k`.
pub open spec fn orphan_count(os: Seq<SubTurnRow>, k: Seq<char>) -> int
    decreases os.len(),
{
    if os.len() == 0 {
        0
    } else {
        let o = os.last();
        orphan_count(os.drop_last(), k) + if o.parent_session_id is Some
            && o.parent_session_id->0@ == k {
            1int
        } else {
            0int
        }
    }
}

proof fn lemma_key_sum_concat(a: Seq<(Seq<char>, SubAgg)>, b: Seq<(Seq<char>, SubAgg)>, k: Seq<char>, f: int)
    ensures
        key_sum(a + b, k, f) == key_sum(a, k, f) + key_sum(b, k, f),
    decreases b.len(),
{
    if b.len() == 0 {
        assert(a + b =~= a);
    } else {
        lemma_key_sum_concat(a, b.drop_last(), k, f);
        assert((a + b).drop_last() =~= a + b.drop_last());
    }
}

proof fn lemma_run_contribs_count(runs: Seq<UsageRun>, k: Seq<char>)
    ensures
        key_count(run_contribs(runs), k) == sub_run_count(runs, k),
    decreases runs.len(),
{
    if runs.len() > 0 {
        lemma_run_contribs_count(runs.drop_last(), k);
        let prev = run_contribs(runs.drop_last());
        let r = runs.last();
        if is_sub_session(r.session_id@) && r.parent_session_id is Some {
            let x = (r.parent_session_id->0@, run_delta(r));
            assert(prev.push(x).drop_last() =~= prev);
            assert(prev.push(x).last() == x);
        }
    }
}

proof fn lemma_orphan_contribs_count(os: Seq<SubTurnRow>, k: Seq<char>)
    ensures
        key_count(orphan_contribs(os), k) == orphan_count(os, k),
    decreases os.len(),
{
    if os.len() > 0 {
        lemma_orphan_contribs_count(os.drop_last(), k);
        let prev = orphan_contribs(os.drop_last());
        let o = os.last();
        if o.parent_session_id is Some {
            let x = (o.parent_session_id->0@, orphan_delta(o));
            assert(prev.push(x).drop_last() =~= prev);
            assert(prev.push(x).last() == x);
        }
    }
}

/// The live merge of sub-agent runs, for runs as the export builds them (no
/// mark, no totals): a main run gets totals exactly when sub-agent runs or
/// orphan sub-agent turns name it as parent, counting them all and summing
/// their numbers, and is never marked; a sub-agent run is marked exactly
/// when its parent session has a main run, and never gets totals; nothing
/// else of a run changes.
pub proof fn lemma_merge_sub_runs_law(runs: Seq<UsageRun>, orphans: Seq<SubTurnRow>, i: int, f: int)
    requires
        agg_fits(run_contribs(runs) + orphan_contribs(orphans)),
        0 <= i < runs.len(),
        runs[i].merged is None,
        runs[i].sub is None,
        1 <= f < 7,
    ensures
        same_run_but_marks(
            merged_run(runs[i], runs, agg_of(run_contribs(runs) + orphan_contribs(orphans))),
            runs[i],
        ),
        !is_sub_session(runs[i].session_id@) ==> {
            let out = merged_run(runs[i], runs, agg_of(run_contribs(runs) + orphan_contribs(orphans)));
            let k = runs[i].session_id@;
            &&& out.merged is None
            &&& (out.sub is Some <==> sub_run_count(runs, k) + orphan_count(orphans, k) > 0)
            &&& out.sub is Some ==> out.sub->0.n == sub_run_count(runs, k) + orphan_count(orphans, k)
                && agg_field(out.sub->0, f) == key_sum(run_contribs(runs), k, f) + key_sum(
                orphan_contribs(orphans),
                k,
                f,
            )
        },
        is_sub_session(runs[i].session_id@) ==> {
            let out = merged_run(runs[i], runs, agg_of(run_contribs(runs) + orphan_contribs(orphans)));
            &&& out.sub is None
            &&& (out.merged == Some(1u8) <==> runs[i].parent_session_id is Some && has_main_run(
                runs,
                runs[i].parent_session_id->0@,
            ))
        },
{
    let cs = run_contribs(runs) + orphan_contribs(orphans);
    let k = runs[i].session_id@;
    lemma_live_merge_only_marks(runs[i], runs, agg_of(cs));
    lemma_agg_of_sums(cs, k, f);
    lemma_agg_of_sums(cs, k, 0);
    lemma_key_sum_concat(run_contribs(runs), orphan_contribs(orphans), k, f);
    lemma_key_sum_concat(run_contribs(runs), orphan_contribs(orphans), k, 0);
    lemma_run_contribs_count(runs, k);
    lemma_orphan_contribs_count(orphans, k);
}

/// Whether some main-session run has session id `p`.
pub open spec fn has_main_run(runs: Seq<UsageRun>, p: Seq<char>) -> bool {
    exists|i: int| 0 <= i < runs.len() && !is_sub_session((#[trigger] runs[i]).session_id@) && runs[i].session_id@ == p
}

/// `a` and `b` agree on every field but `merged` and `sub`.
pub open spec fn same_run_but_marks(a: UsageRun, b: UsageRun) -> bool {
    &&& a.turn_id == b.turn_id
    &&& a.user_message_id == b.user_message_id
    &&& a.session_id == b.session_id
    &&& a.parent_session_id == b.parent_session_id
    &&& a.input_tokens == b.input_tokens
    &&& a.output_tokens == b.output_tokens
    &&& a.cache_read == b.cache_read
    &&& a.cache_write == b.cache_write
    &&& a.reasoning == b.reasoning
    &&& a.requests == b.requests
    &&& a.start == b.start
}

/// The run after the live merge: a sub-agent run whose parent has a main run
/// is marked as merged; a main run gets the totals of its sub-agents.
pub open spec fn merged_run(
    r: UsageRun,
    runs: Seq<UsageRun>,
    agg: Map<Seq<char>, SubAgg>,
) -> UsageRun {
    if is_sub_session(r.session_id@) {
        if r.parent_session_id is Some && has_main_run(runs, r.parent_session_id->0@) {
            UsageRun { merged: Some(1u8), ..r }
        } else {
            r
        }
    } else if agg.contains_key(r.session_id@) {
        UsageRun { sub: Some(agg[r.session_id@]), ..r }
    } else {
        r
    }
}

/// The live merge only sets the `merged` mark of sub-agent runs and the
/// `sub` totals of main runs; a sub-agent run never gets `sub`, a main run
/// is never marked.
pub proof fn lemma_live_merge_only_marks(r: UsageRun, runs: Seq<UsageRun>, agg: Map<Seq<char>, SubAgg>)
    ensures
        same_run_but_marks(merged_run(r, runs, agg), r),
        is_sub_session(r.session_id@) ==> merged_run(r, runs, agg).sub == r.sub,
        !is_sub_session(r.session_id@) ==> merged_run(r, runs, agg).merged == r.merged,
{
}

/// Totals keyed by parent session, as a list with distinct keys.
struct AggList {
    entries: Vec<(Vec<char>, SubAgg)>,
}

pub open spec fn agg_entries_map(es: Seq<(Vec<char>, SubAgg)>) -> Map<Seq<char>, SubAgg>
    decreases es.len(),
{
    if es.len() == 0 {
        Map::empty()
    } else {
        agg_entries_map(es.drop_last()).insert(es.last().0@, es.last().1)
    }
}

pub open spec fn agg_keys_unique(es: Seq<(Vec<char>, SubAgg)>) -> bool {
    forall|i: int, j: int| 0 <= i < j < es.len() ==> (#[trigger] es[i]).0@ != (#[trigger] es[j]).0@
}

proof fn lemma_agg_entries_index(es: Seq<(Vec<char>, SubAgg)>, i: int)
    requires
        agg_keys_unique(es),
        0 <= i < es.len(),
    ensures
        agg_entries_map(es).contains_key(es[i].0@),
        agg_entries_map(es)[es[i].0@] == es[i].1,
    decreases es.len(),
{
    if i < es.len() - 1 {
        let p = es.drop_last();
        assert(p[i] == es[i]);
        lemma_agg_entries_index(p, i);
        assert(es[i].0@ != es.last().0@);
    }
}

proof fn lemma_agg_entries_keys(es: Seq<(Vec<char>, SubAgg)>, k: Seq<char>)
    ensures
        agg_entries_map(es).contains_key(k) <==> exists|i: int| 0 <= i < es.len() && (#[trigger] es[i]).0@ == k,
    decreases es.len(),
{
    if es.len() > 0 {
        let p = es.drop_last();
        lemma_agg_entries_keys(p, k);
        if exists|i: int| 0 <= i < p.len() && (#[trigger] p[i]).0@ == k {
            let i = choose|i: int| 0 <= i < p.len() && (#[trigger] p[i]).0@ == k;
            assert(es[i] == p[i]);
        }
        if exists|i: int| 0 <= i < es.len() && (#[trigger] es[i]).0@ == k {
            let i = choose|i: int| 0 <= i < es.len() && (#[trigger] es[i]).0@ == k;
            if i < es.len() - 1 {
                assert(es[i] == p[i]);
            }
        }
    }
}

proof fn lemma_agg_entries_update(es: Seq<(Vec<char>, SubAgg)>, j: int, v: SubAgg)
    requires
        agg_keys_unique(es),
        0 <= j < es.len(),
    ensures
        agg_entries_map(es.update(j, (es[j].0, v))) == agg_entries_map(es).insert(es[j].0@, v),
    decreases es.len(),
{
    let u = es.update(j, (es[j].0, v));
    if j == es.len() - 1 {
        assert(u.drop_last() =~= es.drop_last());
        assert(agg_entries_map(u) =~= agg_entries_map(es).insert(es[j].0@, v));
    } else {
        let p = es.drop_last();
        assert(p[j] == es[j]);
        lemma_agg_entries_update(p, j, v);
        assert(u.drop_last() =~= p.update(j, (p[j].0, v)));
        assert(es[j].0@ != es.last().0@);
        assert(agg_entries_map(u) =~= agg_entries_map(es).insert(es[j].0@, v));
    }
}

impl AggList {
    spec fn view(&self) -> Map<Seq<char>, SubAgg> {
        agg_entries_map(self.entries@)
    }

    spec fn wf(&self) -> bool {
        agg_keys_unique(self.entries@)
    }

    fn find(&self, key: &Vec<char>) -> (r: Option<usize>)
        ensures
            match r {
                Some(j) => j < self.entries.len() && self.entries@[j as int].0@ == key@,
                None => forall|i: int|
                    0 <= i < self.entries.len() ==> (#[trigger] self.entries@[i]).0@ != key@,
            },
    {
        let mut j: usize = 0;
        while j < self.entries.len()
            invariant
                j <= self.entries.len(),
                forall|i: int| 0 <= i < j ==> (#[trigger] self.entries@[i]).0@ != key@,
            decreases self.entries.len() - j,
        {
            if chars_eq(&self.entries[j].0, key) {
                return Some(j);
            }
            j = j + 1;
        }
        None
    }

    fn get(&self, key: &Vec<char>) -> (r: Option<SubAgg>)
        requires
            self.wf(),
        ensures
            match r {
                Some(a) => self.view().contains_key(key@) && a == self.view()[key@],
                None => !self.view().contains_key(key@),
            },
    {
        proof {
            lemma_agg_entries_keys(self.entries@, key@);
        }
        match self.find(key) {
            Some(j) => {
                proof {
                    lemma_agg_entries_index(self.entries@, j as int);
                }
                Some(self.entries[j].1)
            },
            None => None,
        }
    }

    /// Adds the numbers `d` to the totals of `key`.
    fn add(&mut self, key: Vec<char>, d: SubAgg)
        requires
            old(self).wf(),
            delta_fits(
                if old(self).view().contains_key(key@) {
                    old(self).view()[key@]
                } else {
                    sub_agg_zero()
                },
                d,
            ),
        ensures
            final(self).wf(),
            final(self).view() == old(self).view().insert(
                key@,
                add_delta(
                    if old(self).view().contains_key(key@) {
                        old(self).view()[key@]
                    } else {
                        sub_agg_zero()
                    },
                    d,
                ),
            ),
    {
        proof {
            lemma_agg_entries_keys(self.entries@, key@);
        }
        match self.find(&key) {
            Some(j) => {
                let ghost es = self.entries@;
                proof {
                    lemma_agg_entries_index(es, j as int);
                }
                let mut a = self.entries[j].1;
                a.add(d.requests, d.input_tokens, d.output_tokens, d.cache_read, d.cache_write, d.reasoning);
                proof {
                    lemma_agg_entries_update(es, j as int, a);
                }
                self.entries[j].1 = a;
                assert(self.entries@ =~= es.update(j as int, (es[j as int].0, a)));
            },
            None => {
                let ghost es = self.entries@;
                let mut a = SubAgg::empty();
                a.add(d.requests, d.input_tokens, d.output_tokens, d.cache_read, d.cache_write, d.reasoning);
                self.entries.push((key, a));
                assert(self.entries@.drop_last() =~= es);
                assert forall|x: int, y: int| 0 <= x < y < self.entries@.len() implies (
                #[trigger] self.entries@[x]).0@ != (#[trigger] self.entries@[y]).0@ by {
                    if y < es.len() {
                        assert(es[x].0@ != es[y].0@);
                    } else {
                        assert(self.entries@[x] == es[x]);
                    }
                }
            },
        }
    }
}

pub(crate) fn is_sub_session_exec(s: &String) -> (b: bool)
    ensures
        b == is_sub_session(s@),
{
    matches_at(&chars_of(s.as_str()), 0, &chars_of("sess_subagent"))
}

/// Live merge of sub-agent numbers into the in-progress main turns: the
/// sub-agent runs and the orphan sub-agent turns are summed per parent
/// session into the `sub` of the parent's main run, and a sub-agent run
/// whose parent has a main run is marked as merged.
pub fn merge_sub_runs(runs: &mut Vec<UsageRun>, sub_orphans: &[SubTurnRow])
    requires
        agg_fits(run_contribs(old(runs)@) + orphan_contribs(sub_orphans@)),
    ensures
        final(runs).len() == old(runs).len(),
        forall|i: int|
            0 <= i < final(runs).len() ==> #[trigger] final(runs)@[i] == merged_run(
                old(runs)@[i],
                old(runs)@,
                agg_of(run_contribs(old(runs)@) + orphan_contribs(sub_orphans@)),
            ),
{
    let ghost all = run_contribs(runs@) + orphan_contribs(sub_orphans@);
    let mut agg = AggList { entries: Vec::new() };
    assert(agg.view() =~= Map::<Seq<char>, SubAgg>::empty());
    let n = runs.len();
    let mut i: usize = 0;
    while i < n
        invariant
            n == runs.len(),
            i <= n,
            agg.wf(),
            agg.view() == agg_of(run_contribs(runs@.take(i as int))),
            agg_fits(all),
            all == run_contribs(runs@) + orphan_contribs(sub_orphans@),
        decreases n - i,
    {
        let ghost cs = run_contribs(runs@.take(i as int));
        proof {
            assert(runs@.take(i + 1).drop_last() =~= runs@.take(i as int));
            assert(runs@.take(i + 1).last() == runs@[i as int]);
            lemma_run_contribs_prefix(runs@, i + 1);
            let a1 = run_contribs(runs@.take(i + 1));
            let rc = run_contribs(runs@);
            assert(all.take(a1.len() as int) =~= rc.take(a1.len() as int));
            lemma_agg_fits_prefix(all, a1.len() as int);
        }
        if is_sub_session_exec(&runs[i].session_id) {
            match &runs[i].parent_session_id {
                Some(p) => {
                    let r = &runs[i];
                    let d = SubAgg {
                        n: 1,
                        requests: r.requests,
                        input_tokens: r.input_tokens,
                        output_tokens: r.output_tokens,
                        cache_read: r.cache_read,
                        cache_write: r.cache_write,
                        reasoning: r.reasoning,
                    };
                    proof {
                        let cs1 = run_contribs(runs@.take(i + 1));
                        assert(cs1 == cs.push((p@, d)));
                        assert(cs1.drop_last() =~= cs);
                        assert(all.take(cs1.len() as int) =~= cs1);
                    }
                    agg.add(chars_of(p.as_str()), d);
                },
                None => {},
            }
        }
        i = i + 1;
    }
    assert(runs@.take(n as int) =~= runs@);
    let m = sub_orphans.len();
    let mut q: usize = 0;
    while q < m
        invariant
            m == sub_orphans.len(),
            q <= m,
            agg.wf(),
            agg.view() == agg_of(run_contribs(runs@) + orphan_contribs(sub_orphans@.take(q as int))),
            agg_fits(all),
            all == run_contribs(runs@) + orphan_contribs(sub_orphans@),
        decreases m - q,
    {
        let ghost rc = run_contribs(runs@);
        let ghost cs = rc + orphan_contribs(sub_orphans@.take(q as int));
        proof {
            assert(sub_orphans@.take(q + 1).drop_last() =~= sub_orphans@.take(q as int));
            assert(sub_orphans@.take(q + 1).last() == sub_orphans@[q as int]);
            lemma_orphan_contribs_prefix(sub_orphans@, q + 1);
            let cs1 = rc + orphan_contribs(sub_orphans@.take(q + 1));
            assert(all.take(cs1.len() as int) =~= cs1);
            lemma_agg_fits_prefix(all, cs1.len() as int);
        }
        match &sub_orphans[q].parent_session_id {
            Some(p) => {
                let o = &sub_orphans[q];
                let d = SubAgg {
                    n: 1,
                    requests: o.requests,
                    input_tokens: o.input_tokens,
                    output_tokens: o.output_tokens,
                    cache_read: o.cache_read,
                    cache_write: o.cache_write,
                    reasoning: o.reasoning,
                };
                proof {
                    let oc1 = orphan_contribs(sub_orphans@.take(q + 1));
                    let oc = orphan_contribs(sub_orphans@.take(q as int));
                    assert(oc1 == oc.push((p@, d)));
                    let cs1 = rc + oc1;
                    assert(cs1 =~= cs.push((p@, d)));
                    assert(cs1.drop_last() =~= cs);
                }
                agg.add(chars_of(p.as_str()), d);
            },
            None => {
                proof {
                    let oc1 = orphan_contribs(sub_orphans@.take(q + 1));
                    let oc = orphan_contribs(sub_orphans@.take(q as int));
                    assert(oc1 == oc);
                }
            },
        }
        q = q + 1;
    }
    assert(sub_orphans@.take(m as int) =~= sub_orphans@);
    let ghost aggm = agg.view();
    let ghost orig = runs@;
    let mut mains: Vec<Vec<char>> = Vec::new();
    let mut k: usize = 0;
    while k < n
        invariant
            n == runs.len(),
            runs@ == orig,
            k <= n,
            forall|x: int| 0 <= x < mains.len() ==> has_main_run(orig, #[trigger] mains@[x]@),
            forall|x: int|
                0 <= x < k && !is_sub_session((#[trigger] orig[x]).session_id@) ==> exists|y: int|
                    0 <= y < mains.len() && mains@[y]@ == orig[x].session_id@,
        decreases n - k,
    {
        if !is_sub_session_exec(&runs[k].session_id) {
            let ghost before = mains@;
            mains.push(chars_of(runs[k].session_id.as_str()));
            proof {
                assert(mains@[before.len() as int]@ == orig[k as int].session_id@);
                assert(has_main_run(orig, orig[k as int].session_id@));
                assert forall|x: int|
                    0 <= x <= k && !is_sub_session((#[trigger] orig[x]).session_id@) implies exists|y: int|
                    0 <= y < mains.len() && mains@[y]@ == orig[x].session_id@ by {
                    if x < k {
                        let y = choose|y: int| 0 <= y < before.len() && before[y]@ == orig[x].session_id@;
                        assert(mains@[y] == before[y]);
                    } else {
                        assert(mains@[before.len() as int]@ == orig[x].session_id@);
                    }
                }
            }
        }
        k = k + 1;
    }
    let mut i: usize = 0;
    while i < n
        invariant
            n == runs.len(),
            n == orig.len(),
            i <= n,
            agg.wf(),
            agg.view() == aggm,
            aggm == agg_of(run_contribs(orig) + orphan_contribs(sub_orphans@)),
            forall|x: int| 0 <= x < mains.len() ==> has_main_run(orig, #[trigger] mains@[x]@),
            forall|x: int|
                0 <= x < n && !is_sub_session((#[trigger] orig[x]).session_id@) ==> exists|y: int|
                    0 <= y < mains.len() && mains@[y]@ == orig[x].session_id@,
            forall|x: int| 0 <= x < i ==> #[trigger] runs@[x] == merged_run(orig[x], orig, aggm),
            forall|x: int| i <= x < n ==> #[trigger] runs@[x] == orig[x],
        decreases n - i,
    {
        if is_sub_session_exec(&runs[i].session_id) {
            let hit = match &runs[i].parent_session_id {
                Some(p) => {
                    let pc = chars_of(p.as_str());
                    let mut y: usize = 0;
                    while y < mains.len() && !chars_eq(&mains[y], &pc)
                        invariant
                            y <= mains.len(),
                            forall|z: int| 0 <= z < y ==> (#[trigger] mains@[z])@ != pc@,
                        decreases mains.len() - y,
                    {
                        y = y + 1;
                    }
                    proof {
                        if y < mains.len() {
                            assert(has_main_run(orig, mains@[y as int]@));
                        } else if has_main_run(orig, pc@) {
                            let w = choose|w: int| 0 <= w < orig.len() && !is_sub_session((#[trigger] orig[w]).session_id@) && orig[w].session_id@ == pc@;
                            let z = choose|z: int| 0 <= z < mains.len() && mains@[z]@ == orig[w].session_id@;
                            assert(mains@[z]@ != pc@);
                        }
                    }
                    y < mains.len()
                },
                None => false,
            };
            if hit {
                runs[i].merged = Some(1);
            }
        } else {
            let sc = chars_of(runs[i].session_id.as_str());
            match agg.get(&sc) {
                Some(a) => {
                    runs[i].sub = Some(a);
                },
                None => {},
            }
        }
        i = i + 1;
    }
}

proof fn lemma_run_contribs_prefix(runs: Seq<UsageRun>, k: int)
    requires
        0 <= k <= runs.len(),
    ensures
        run_contribs(runs.take(k)).len() <= run_contribs(runs).len(),
        run_contribs(runs).take(run_contribs(runs.take(k)).len() as int) == run_contribs(runs.take(k)),
    decreases runs.len() - k,
{
    if k == runs.len() {
        assert(runs.take(k) =~= runs);
        assert(run_contribs(runs).take(run_contribs(runs).len() as int) =~= run_contribs(runs));
    } else {
        lemma_run_contribs_prefix(runs, k + 1);
        assert(runs.take(k + 1).drop_last() =~= runs.take(k));
        let a = run_contribs(runs.take(k));
        let b = run_contribs(runs.take(k + 1));
        let c = run_contribs(runs);
        assert(c.take(a.len() as int) =~= b.take(a.len() as int));
        assert(b.take(a.len() as int) =~= a);
    }
}

proof fn lemma_orphan_contribs_prefix(os: Seq<SubTurnRow>, k: int)
    requires
        0 <= k <= os.len(),
    ensures
        orphan_contribs(os.take(k)).len() <= orphan_contribs(os).len(),
        orphan_contribs(os).take(orphan_contribs(os.take(k)).len() as int) == orphan_contribs(os.take(k)),
    decreases os.len() - k,
{
    if k == os.len() {
        assert(os.take(k) =~= os);
        assert(orphan_contribs(os).take(orphan_contribs(os).len() as int) =~= orphan_contribs(os));
    } else {
        lemma_orphan_contribs_prefix(os, k + 1);
        assert(os.take(k + 1).drop_last() =~= os.take(k));
        let a = orphan_contribs(os.take(k));
        let b = orphan_contribs(os.take(k + 1));
        let c = orphan_contribs(os);
        assert(c.take(a.len() as int) =~= b.take(a.len() as int));
        assert(b.take(a.len() as int) =~= a);
    }
}

proof fn lemma_agg_fits_prefix(cs: Seq<(Seq<char>, SubAgg)>, k: int)
    requires
        agg_fits(cs),
        0 <= k <= cs.len(),
    ensures
        agg_fits(cs.take(k)),
    decreases cs.len() - k,
{
    if k < cs.len() {
        assert(cs.drop_last() =~= cs.take(cs.len() - 1));
        lemma_agg_fits_prefix(cs.drop_last(), k);
        assert(cs.drop_last().take(k) =~= cs.take(k));
    } else {
        assert(cs.take(k) =~= cs);
    }
}

/// The whole law of merging sub-agent turns: the main turns keep their
/// number, order, identity, times and own numbers; each counter summed over
/// them grows by exactly its sum over the merged sub-agent turns; each merged
/// sub-agent turn is paired with a main turn of its parent that starts no
/// later and ends no earlier than it; each orphan has ended and names a
/// parent, and no main turn of that parent covers it or was running when it
/// started; and no sub-agent turn is used twice.
pub proof fn lemma_merge_subagent_turns_law(turns: Seq<UsageTurn>, subs: Seq<SubTurnRow>, f: int)
    requires
        merge_fits(turns, subs),
        0 <= f < 8,
    ensures
        merge_all(turns, subs).0.len() == turns.len(),
        forall|i: int|
            0 <= i < turns.len() ==> same_turn_own_numbers(
                #[trigger] merge_all(turns, subs).0[i],
                turns[i],
            ),
        turns_total(merge_all(turns, subs).0, f) == turns_total(turns, f) + subs_total(
            merged_subs(turns, subs),
            f,
        ),
        merge_all(turns, subs).1.len() == merged_subs(turns, subs).len(),
        forall|i: int|
            0 <= i < merge_all(turns, subs).1.len() ==> (#[trigger] merge_all(turns, subs).1[i]).1
                == merged_subs(turns, subs)[i].turn_id@ && paired_with(
                turns,
                merged_subs(turns, subs)[i],
                merge_all(turns, subs).1[i].0,
            ),
        forall|i: int|
            0 <= i < merge_all(turns, subs).2.len() ==> {
                let o = #[trigger] merge_all(turns, subs).2[i];
                &&& o.completed_at is Some
                &&& o.parent_session_id is Some
                &&& forall|j: int| 0 <= j < turns.len() ==> !covers(turns[j], o) && !owner_done(turns[j], o)
            },
        (merged_subs(turns, subs) + merge_all(turns, subs).2).to_multiset().subset_of(
            subs.to_multiset(),
        ),
{
    lemma_merge_keeps_main_turns(turns, subs);
    lemma_merge_sums(turns, subs, f);
    lemma_merge_pairing_law(turns, subs);
    assert forall|i: int|
        0 <= i < merge_all(turns, subs).1.len() implies (#[trigger] merge_all(turns, subs).1[i]).1
        == merged_subs(turns, subs)[i].turn_id@ && paired_with(
        turns,
        merged_subs(turns, subs)[i],
        merge_all(turns, subs).1[i].0,
    ) by {
        assert(paired_with(turns, merged_subs(turns, subs)[i], merge_all(turns, subs).1[i].0));
    }
}

/// Field `f` of a run's own numbers: requests, input, output, cache read,
/// cache write or reasoning tokens (1 to 6).
pub open spec fn run_number(r: UsageRun, f: int) -> int {
    if f == 1 {
        r.requests as int
    } else if f == 2 {
        r.input_tokens as int
    } else if f == 3 {
        r.output_tokens as int
    } else if f == 4 {
        r.cache_read as int
    } else if f == 5 {
        r.cache_write as int
    } else {
        r.reasoning as int
    }
}

/// Field `f` of a sub-agent turn's own numbers (as for `run_number`).
pub open spec fn turn_number(o: SubTurnRow, f: int) -> int {
    if f == 1 {
        o.requests as int
    } else if f == 2 {
        o.input_tokens as int
    } else if f == 3 {
        o.output_tokens as int
    } else if f == 4 {
        o.cache_read as int
    } else if f == 5 {
        o.cache_write as int
    } else {
        o.reasoning as int
    }
}

/// The sum of field `f` over the sub-agent runs whose parent session is `k`.
pub open spec fn sub_runs_number(runs: Seq<UsageRun>, k: Seq<char>, f: int) -> int
    decreases runs.len(),
{
    if runs.len() == 0 {
        0
    } else {
        let r = runs.last();
        sub_runs_number(runs.drop_last(), k, f) + if is_sub_session(r.session_id@)
            && r.parent_session_id is Some && r.parent_session_id->0@ == k {
            run_number(r, f)
        } else {
            0
        }
    }
}

/// The sum of field `f` over the orphan sub-agent turns whose parent
/// session is `k`.
pub open spec fn orphans_number(os: Seq<SubTurnRow>, k: Seq<char>, f: int) -> int
    decreases os.len(),
{
    if os.len() == 0 {
        0
    } else {
        let o = os.last();
        orphans_number(os.drop_last(), k, f) + if o.parent_session_id is Some
            && o.parent_session_id->0@ == k {
            turn_number(o, f)
        } else {
            0
        }
    }
}

proof fn lemma_run_contribs_number(runs: Seq<UsageRun>, k: Seq<char>, f: int)
    requires
        1 <= f < 7,
    ensures
        key_sum(run_contribs(runs), k, f) == sub_runs_number(runs, k, f),
    decreases runs.len(),
{
    if runs.len() > 0 {
        lemma_run_contribs_number(runs.drop_last(), k, f);
        let prev = run_contribs(runs.drop_last());
        let r = runs.last();
        if is_sub_session(r.session_id@) && r.parent_session_id is Some {
            let x = (r.parent_session_id->0@, run_delta(r));
            assert(prev.push(x).drop_last() =~= prev);
            assert(prev.push(x).last() == x);
        }
    }
}

proof fn lemma_orphan_contribs_number(os: Seq<SubTurnRow>, k: Seq<char>, f: int)
    requires
        1 <= f < 7,
    ensures
        key_sum(orphan_contribs(os), k, f) == orphans_number(os, k, f),
    decreases os.len(),
{
    if os.len() > 0 {
        lemma_orphan_contribs_number(os.drop_last(), k, f);
        let prev = orphan_contribs(os.drop_last());
        let o = os.last();
        if o.parent_session_id is Some {
            let x = (o.parent_session_id->0@, orphan_delta(o));
            assert(prev.push(x).drop_last() =~= prev);
            assert(prev.push(x).last() == x);
        }
    }
}

/// After the live merge, each number of a main run's sub-agent totals is
/// the sum of that same number as the rows themselves carry it, over the
/// sub-agent runs and the orphan sub-agent turns that name the run's
/// session as parent: requests, input, output, cache read, cache write and
/// reasoning tokens alike.
pub proof fn lemma_live_merge_sums_rows(runs: Seq<UsageRun>, orphans: Seq<SubTurnRow>, i: int, f: int)
    requires
        agg_fits(run_contribs(runs) + orphan_contribs(orphans)),
        0 <= i < runs.len(),
        runs[i].merged is None,
        runs[i].sub is None,
        !is_sub_session(runs[i].session_id@),
        1 <= f < 7,
    ensures
        ({
            let out = merged_run(runs[i], runs, agg_of(run_contribs(runs) + orphan_contribs(orphans)));
            let k = runs[i].session_id@;
            out.sub is Some ==> agg_field(out.sub->0, f) == sub_runs_number(runs, k, f)
                + orphans_number(orphans, k, f)
        }),
{
    lemma_merge_sub_runs_law(runs, orphans, i, f);
    lemma_run_contribs_number(runs, runs[i].session_id@, f);
    lemma_orphan_contribs_number(orphans, runs[i].session_id@, f);
}

} // verus!
