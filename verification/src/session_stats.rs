//! Per-session lifetime totals of the export (`sess`): the totals of a
//! session tree, whether a round is running in it, and its speed state.
use crate::export_rows::PendingUser;
use crate::text::chars_eq;
use crate::text::chars_of;
use crate::usage_feed::{str_views, UsageRun};
use vstd::prelude::*;

verus! {

/// Lifetime totals of one session's model requests.
#[derive(Debug, Clone, Copy, PartialEq, Eq, Structural)]
pub struct SessionUsageAgg {
    /// Input tokens that were not cache reads.
    pub plain_in: i64,
    pub out_tokens: i64,
    pub cache_read: i64,
    pub requests: i64,
}

impl SessionUsageAgg {
    /// All tokens: plain input, output and cache reads.
    pub fn total(&self) -> (r: i64)
        requires
            i64::MIN <= self.plain_in + self.out_tokens <= i64::MAX,
            i64::MIN <= self.plain_in + self.out_tokens + self.cache_read <= i64::MAX,
        ensures
            r == self.plain_in + self.out_tokens + self.cache_read,
    {
        self.plain_in + self.out_tokens + self.cache_read
    }
}

/// The speed state of a session tree.
#[derive(Debug, Clone, Copy, PartialEq, Eq, Structural)]
pub enum SpeedState {
    /// A latest request with a speed exists.
    Recent,
    /// A round is running but has no speed yet.
    Measuring,
    /// Nothing to show.
    Unavailable,
}

/// The speed state: `Recent` with a speed, else `Measuring` while a round
/// runs, else `Unavailable` (never derived the other way round).
pub fn speed_state_of(has_speed: bool, generating: bool) -> (r: SpeedState)
    ensures
        r == (if has_speed {
            SpeedState::Recent
        } else if generating {
            SpeedState::Measuring
        } else {
            SpeedState::Unavailable
        }),
{
    if has_speed {
        SpeedState::Recent
    } else if generating {
        SpeedState::Measuring
    } else {
        SpeedState::Unavailable
    }
}

/// The totals of a session tree and its round state.
#[derive(Debug)]
pub struct SessionTotals {
    pub session_id: String,
    pub total: i64,
    pub plain_in: i64,
    pub out_tokens: i64,
    pub cache_read: i64,
    pub requests: i64,
    pub member_session_ids: Vec<String>,
    /// The pending user message's time when it belongs to the tree.
    pub round_started_at: Option<i64>,
    /// A round is running in the tree: a run of a member (of the current
    /// round, if any) or a pending user message.
    pub generating: bool,
}

/// The totals of member `m`: the first entry for it, or zeros.
pub open spec fn member_agg(aggs: Seq<(String, SessionUsageAgg)>, m: Seq<char>) -> SessionUsageAgg
    decreases aggs.len(),
{
    if aggs.len() == 0 {
        SessionUsageAgg { plain_in: 0, out_tokens: 0, cache_read: 0, requests: 0 }
    } else if aggs[0].0@ == m {
        aggs[0].1
    } else {
        member_agg(aggs.drop_first(), m)
    }
}

/// Field sums over the members (each member counted as often as listed).
pub open spec fn sum_plain_in(aggs: Seq<(String, SessionUsageAgg)>, ms: Seq<Seq<char>>) -> int
    decreases ms.len(),
{
    if ms.len() == 0 {
        0
    } else {
        sum_plain_in(aggs, ms.drop_last()) + member_agg(aggs, ms.last()).plain_in
    }
}

pub open spec fn sum_out(aggs: Seq<(String, SessionUsageAgg)>, ms: Seq<Seq<char>>) -> int
    decreases ms.len(),
{
    if ms.len() == 0 {
        0
    } else {
        sum_out(aggs, ms.drop_last()) + member_agg(aggs, ms.last()).out_tokens
    }
}

pub open spec fn sum_cache_read(aggs: Seq<(String, SessionUsageAgg)>, ms: Seq<Seq<char>>) -> int
    decreases ms.len(),
{
    if ms.len() == 0 {
        0
    } else {
        sum_cache_read(aggs, ms.drop_last()) + member_agg(aggs, ms.last()).cache_read
    }
}

pub open spec fn sum_requests(aggs: Seq<(String, SessionUsageAgg)>, ms: Seq<Seq<char>>) -> int
    decreases ms.len(),
{
    if ms.len() == 0 {
        0
    } else {
        sum_requests(aggs, ms.drop_last()) + member_agg(aggs, ms.last()).requests
    }
}

pub open spec fn fits(x: int) -> bool {
    i64::MIN <= x <= i64::MAX
}

/// Every running sum of the tree totals, and the total, fit in `i64`.
pub open spec fn totals_fit(aggs: Seq<(String, SessionUsageAgg)>, ms: Seq<Seq<char>>) -> bool {
    &&& forall|k: int|
        0 <= k <= ms.len() ==> {
            &&& fits(#[trigger] sum_plain_in(aggs, ms.take(k)))
            &&& fits(sum_out(aggs, ms.take(k)))
            &&& fits(sum_cache_read(aggs, ms.take(k)))
            &&& fits(sum_requests(aggs, ms.take(k)))
        }
    &&& fits(sum_plain_in(aggs, ms) + sum_out(aggs, ms))
    &&& fits(sum_plain_in(aggs, ms) + sum_out(aggs, ms) + sum_cache_read(aggs, ms))
}

/// The pending message's time when its session is a member.
pub open spec fn round_start(members: Seq<Seq<char>>, pending: Option<PendingUser>) -> Option<i64> {
    match pending {
        Some(p) => if members.contains(p.session_id@) {
            Some(p.time_created)
        } else {
            None
        },
        None => None,
    }
}

/// Whether a round runs in the tree (see `SessionTotals::generating`).
pub open spec fn tree_generating(
    members: Seq<Seq<char>>,
    runs: Seq<UsageRun>,
    round: Option<i64>,
) -> bool {
    round is Some || exists|i: int|
        0 <= i < runs.len() && members.contains((#[trigger] runs[i]).session_id@) && match round {
            Some(st) => runs[i].start >= st,
            None => true,
        }
}

fn member_agg_exec(aggs: &Vec<(String, SessionUsageAgg)>, m: &String) -> (r: SessionUsageAgg)
    ensures
        r == member_agg(aggs@, m@),
{
    let mc = chars_of(m.as_str());
    let mut j: usize = 0;
    assert(aggs@.skip(0) =~= aggs@);
    while j < aggs.len()
        invariant
            j <= aggs.len(),
            mc@ == m@,
            member_agg(aggs@.skip(j as int), m@) == member_agg(aggs@, m@),
        decreases aggs.len() - j,
    {
        let ghost rest = aggs@.skip(j as int);
        assert(rest[0] == aggs@[j as int]);
        assert(rest.drop_first() =~= aggs@.skip(j + 1));
        if chars_eq(&chars_of(aggs[j].0.as_str()), &mc) {
            return aggs[j].1;
        }
        j = j + 1;
    }
    assert(aggs@.skip(aggs.len() as int) =~= Seq::<(String, SessionUsageAgg)>::empty());
    SessionUsageAgg { plain_in: 0, out_tokens: 0, cache_read: 0, requests: 0 }
}

fn copy_members(ms: &Vec<String>) -> (r: Vec<String>)
    ensures
        r@ == ms@,
{
    let mut r: Vec<String> = Vec::new();
    let mut i: usize = 0;
    while i < ms.len()
        invariant
            i <= ms.len(),
            r@ == ms@.take(i as int),
        decreases ms.len() - i,
    {
        r.push(ms[i].clone());
        assert(r@ =~= ms@.take(i + 1));
        i = i + 1;
    }
    assert(ms@.take(ms.len() as int) =~= ms@);
    r
}

fn is_member(members: &Vec<String>, s: &String) -> (b: bool)
    ensures
        b == str_views(members@).contains(s@),
{
    let sc = chars_of(s.as_str());
    let mut q: usize = 0;
    while q < members.len()
        invariant
            q <= members.len(),
            sc@ == s@,
            forall|a: int| 0 <= a < q ==> (#[trigger] members@[a])@ != s@,
        decreases members.len() - q,
    {
        if chars_eq(&chars_of(members[q].as_str()), &sc) {
            assert(str_views(members@)[q as int] == s@);
            return true;
        }
        q = q + 1;
    }
    assert forall|a: int| 0 <= a < str_views(members@).len() implies str_views(members@)[a] != s@ by {
        assert(str_views(members@)[a] == members@[a]@);
    }
    false
}

/// The totals of the tree rooted at `target` with members `members`: the
/// sums of the members' totals (`aggs`, one entry per session), whether a
/// round runs in it, and when the current round started.
pub fn session_totals(
    target: &String,
    members: &Vec<String>,
    aggs: &Vec<(String, SessionUsageAgg)>,
    runs: &Vec<UsageRun>,
    pending: &Option<PendingUser>,
) -> (r: SessionTotals)
    requires
        totals_fit(aggs@, str_views(members@)),
    ensures
        r.session_id == *target,
        r.member_session_ids@ == members@,
        r.plain_in == sum_plain_in(aggs@, str_views(members@)),
        r.out_tokens == sum_out(aggs@, str_views(members@)),
        r.cache_read == sum_cache_read(aggs@, str_views(members@)),
        r.requests == sum_requests(aggs@, str_views(members@)),
        r.total == r.plain_in + r.out_tokens + r.cache_read,
        r.round_started_at == round_start(str_views(members@), *pending),
        r.generating == tree_generating(str_views(members@), runs@, r.round_started_at),
{
    let ghost ms = str_views(members@);
    let mut agg = SessionUsageAgg { plain_in: 0, out_tokens: 0, cache_read: 0, requests: 0 };
    let mut i: usize = 0;
    while i < members.len()
        invariant
            i <= members.len(),
            ms == str_views(members@),
            totals_fit(aggs@, ms),
            agg.plain_in == sum_plain_in(aggs@, ms.take(i as int)),
            agg.out_tokens == sum_out(aggs@, ms.take(i as int)),
            agg.cache_read == sum_cache_read(aggs@, ms.take(i as int)),
            agg.requests == sum_requests(aggs@, ms.take(i as int)),
        decreases members.len() - i,
    {
        let a = member_agg_exec(aggs, &members[i]);
        proof {
            assert(ms.take(i + 1).drop_last() =~= ms.take(i as int));
            assert(ms.take(i + 1).last() == members@[i as int]@);
            assert(fits(sum_plain_in(aggs@, ms.take(i + 1))));
            assert(fits(sum_out(aggs@, ms.take(i + 1))));
            assert(fits(sum_cache_read(aggs@, ms.take(i + 1))));
            assert(fits(sum_requests(aggs@, ms.take(i + 1))));
        }
        agg.plain_in = agg.plain_in + a.plain_in;
        agg.out_tokens = agg.out_tokens + a.out_tokens;
        agg.cache_read = agg.cache_read + a.cache_read;
        agg.requests = agg.requests + a.requests;
        i = i + 1;
    }
    assert(ms.take(members.len() as int) =~= ms);
    let total = agg.total();
    let round_started_at = match pending {
        Some(p) => if is_member(members, &p.session_id) {
            Some(p.time_created)
        } else {
            None
        },
        None => None,
    };
    let mut running = false;
    let mut k: usize = 0;
    while k < runs.len()
        invariant
            k <= runs.len(),
            ms == str_views(members@),
            running == exists|i: int|
                0 <= i < k && ms.contains((#[trigger] runs@[i]).session_id@) && match round_started_at {
                    Some(st) => runs@[i].start >= st,
                    None => true,
                },
        decreases runs.len() - k,
    {
        let in_round = match round_started_at {
            Some(st) => runs[k].start >= st,
            None => true,
        };
        if in_round && is_member(members, &runs[k].session_id) {
            running = true;
        }
        k = k + 1;
    }
    let generating = running || round_started_at.is_some();
    SessionTotals {
        session_id: target.clone(),
        total,
        plain_in: agg.plain_in,
        out_tokens: agg.out_tokens,
        cache_read: agg.cache_read,
        requests: agg.requests,
        member_session_ids: copy_members(members),
        round_started_at,
        generating,
    }
}

/// A pending user message of the tree means a round is running, and the
/// speed state then never reads `Unavailable`.
pub proof fn lemma_pending_round_is_generating(
    members: Seq<Seq<char>>,
    runs: Seq<UsageRun>,
    pending: PendingUser,
    has_speed: bool,
)
    requires
        members.contains(pending.session_id@),
    ensures
        tree_generating(members, runs, round_start(members, Some(pending))),
        (if has_speed {
            SpeedState::Recent
        } else if tree_generating(members, runs, round_start(members, Some(pending))) {
            SpeedState::Measuring
        } else {
            SpeedState::Unavailable
        }) != SpeedState::Unavailable,
{
}

/// Only the tree's own runs make it generating: with no pending round, a
/// tree generates exactly when one of its member sessions has a run; a run
/// of a session outside the tree never changes whether the tree generates;
/// a tree with no runs generates exactly when a round is pending; and a
/// pending round always makes it generate.
pub proof fn lemma_generating_is_the_trees_own(
    members: Seq<Seq<char>>,
    runs: Seq<UsageRun>,
    round: Option<i64>,
    other: UsageRun,
)
    requires
        !members.contains(other.session_id@),
    ensures
        tree_generating(members, runs, None) <==> exists|i: int|
            0 <= i < runs.len() && members.contains((#[trigger] runs[i]).session_id@),
        tree_generating(members, runs.push(other), round) == tree_generating(members, runs, round),
        tree_generating(members, Seq::empty(), round) == round is Some,
        round is Some ==> tree_generating(members, runs, round),
{
    let pushed = runs.push(other);
    if tree_generating(members, pushed, round) && round is None {
        let i = choose|i: int|
            0 <= i < pushed.len() && members.contains((#[trigger] pushed[i]).session_id@) && match round {
                Some(st) => pushed[i].start >= st,
                None => true,
            };
        assert(i < runs.len());
        assert(pushed[i] == runs[i]);
    }
    if tree_generating(members, runs, round) && round is None {
        let i = choose|i: int|
            0 <= i < runs.len() && members.contains((#[trigger] runs[i]).session_id@) && match round {
                Some(st) => runs[i].start >= st,
                None => true,
            };
        assert(pushed[i] == runs[i]);
    }
}

/// A pending user message opens a round of the tree exactly when it was
/// written in one of the tree's sessions, and the round starts at its time.
pub proof fn lemma_round_is_the_trees_own(members: Seq<Seq<char>>, p: PendingUser)
    ensures
        round_start(members, None) is None,
        members.contains(p.session_id@) ==> round_start(members, Some(p)) == Some(p.time_created),
        !members.contains(p.session_id@) ==> round_start(members, Some(p)) is None,
{
}

} // verus!
