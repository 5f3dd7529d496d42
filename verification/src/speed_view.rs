//! The small speed file's targets: the in-progress turns and the active
//! session trees of the last full export, refreshed every second.
use crate::session_stats::SessionTotals;
use crate::speed_catalog::{
    latest_among, member_views, push_new, CatalogKey, LatestUsageRequest, SpeedCatalog,
};
use crate::usage_feed::str_views;
use crate::text::{chars_eq, chars_of};
use crate::usage_feed::UsageRun;
use vstd::prelude::*;

verus! {

/// An in-progress turn of the speed file.
#[derive(Debug)]
pub struct SpeedRunEntry {
    pub turn_id: String,
    pub user_message_id: Option<String>,
    pub session_id: String,
    pub start: i64,
}

/// An active session tree of the speed file.
#[derive(Debug)]
pub struct SpeedSessionEntry {
    pub session_id: String,
    pub member_session_ids: Vec<String>,
    pub round_started_at: Option<i64>,
    pub generating: bool,
}

/// The targets of the one-second refresh.
#[derive(Debug)]
pub struct SpeedView {
    pub runs: Vec<SpeedRunEntry>,
    pub sessions: Vec<SpeedSessionEntry>,
}

pub open spec fn run_entry_of(e: SpeedRunEntry, r: UsageRun) -> bool {
    &&& e.turn_id == r.turn_id
    &&& e.user_message_id == r.user_message_id
    &&& e.session_id == r.session_id
    &&& e.start == r.start
}

pub open spec fn session_entry_of(e: SpeedSessionEntry, t: SessionTotals) -> bool {
    &&& e.session_id == t.session_id
    &&& e.member_session_ids@ == t.member_session_ids@
    &&& e.round_started_at == t.round_started_at
    &&& e.generating == t.generating
}

/// A session tree is active when its session has the pending user message
/// or one of its members has an in-progress turn.
pub open spec fn active_tree(t: SessionTotals, runs: Seq<UsageRun>, pending: Option<Seq<char>>) -> bool {
    pending == Some(t.session_id@) || exists|m: int, i: int|
        0 <= m < t.member_session_ids@.len() && 0 <= i < runs.len()
            && (#[trigger] runs[i]).session_id@ == (#[trigger] t.member_session_ids@[m])@
}

/// The active trees, in order.
pub open spec fn active_trees(ts: Seq<SessionTotals>, runs: Seq<UsageRun>, pending: Option<Seq<char>>) -> Seq<
    SessionTotals,
>
    decreases ts.len(),
{
    if ts.len() == 0 {
        Seq::empty()
    } else {
        let p = active_trees(ts.drop_last(), runs, pending);
        if active_tree(ts.last(), runs, pending) {
            p.push(ts.last())
        } else {
            p
        }
    }
}

fn copy_opt(s: &Option<String>) -> (r: Option<String>)
    ensures
        r == *s,
{
    match s {
        Some(x) => Some(x.clone()),
        None => None,
    }
}

fn copy_strings(ms: &Vec<String>) -> (r: Vec<String>)
    ensures
        r@ == ms@,
{
    let mut r: Vec<String> = Vec::new();
    let mut i: usize = 0;
    while i < ms.len()
        invariant
            i <= ms.len(),
            r@ == ms@.take(i as int),
        decreases ms.len() - i,
    {
        r.push(ms[i].clone());
        assert(r@ =~= ms@.take(i + 1));
        i = i + 1;
    }
    assert(ms@.take(ms.len() as int) =~= ms@);
    r
}

fn tree_is_active(t: &SessionTotals, runs: &Vec<UsageRun>, pending: Option<&str>) -> (b: bool)
    ensures
        b == active_tree(
            *t,
            runs@,
            match pending {
                Some(p) => Some(p@),
                None => None,
            },
        ),
{
    let sc = chars_of(t.session_id.as_str());
    match pending {
        Some(p) => {
            if chars_eq(&chars_of(p), &sc) {
                return true;
            }
        },
        None => {},
    }
    let ms = &t.member_session_ids;
    let mut m: usize = 0;
    while m < ms.len()
        invariant
            m <= ms.len(),
            ms@ == t.member_session_ids@,
            forall|a: int, i: int|
                0 <= a < m && 0 <= i < runs.len() ==> (#[trigger] runs@[i]).session_id@ != (
                #[trigger] ms@[a])@,
        decreases ms.len() - m,
    {
        let mc = chars_of(ms[m].as_str());
        let mut i: usize = 0;
        while i < runs.len()
            invariant
                i <= runs.len(),
                m < ms.len(),
                ms@ == t.member_session_ids@,
                mc@ == ms@[m as int]@,
                forall|a: int, k: int|
                    0 <= a < m && 0 <= k < runs.len() ==> (#[trigger] runs@[k]).session_id@ != (
                    #[trigger] ms@[a])@,
                forall|k: int| 0 <= k < i ==> (#[trigger] runs@[k]).session_id@ != ms@[m as int]@,
            decreases runs.len() - i,
        {
            if chars_eq(&chars_of(runs[i].session_id.as_str()), &mc) {
                assert(runs@[i as int].session_id@ == t.member_session_ids@[m as int]@);
                return true;
            }
            i = i + 1;
        }
        m = m + 1;
    }
    false
}

impl SpeedView {
    /// The view after a full export: every in-progress turn, and the active
    /// session trees (see `active_tree`); `pending_session` is the session
    /// of the pending user message.
    pub fn from_rows(runs: &Vec<UsageRun>, sessions: &Vec<SessionTotals>, pending_session: Option<&str>) -> (v:
        SpeedView)
        ensures
            v.runs.len() == runs.len(),
            forall|i: int| 0 <= i < runs.len() ==> run_entry_of(#[trigger] v.runs@[i], runs@[i]),
            v.sessions.len() == active_trees(
                sessions@,
                runs@,
                match pending_session {
                    Some(p) => Some(p@),
                    None => None,
                },
            ).len(),
            forall|i: int|
                0 <= i < v.sessions.len() ==> session_entry_of(
                    #[trigger] v.sessions@[i],
                    active_trees(
                        sessions@,
                        runs@,
                        match pending_session {
                            Some(p) => Some(p@),
                            None => None,
                        },
                    )[i],
                ),
    {
        let ghost pend = match pending_session {
            Some(p) => Some(p@),
            None => None::<Seq<char>>,
        };
        let mut rs: Vec<SpeedRunEntry> = Vec::new();
        let mut i: usize = 0;
        while i < runs.len()
            invariant
                i <= runs.len(),
                rs.len() == i,
                forall|k: int| 0 <= k < i ==> run_entry_of(#[trigger] rs@[k], runs@[k]),
            decreases runs.len() - i,
        {
            let r = &runs[i];
            rs.push(
                SpeedRunEntry {
                    turn_id: r.turn_id.clone(),
                    user_message_id: copy_opt(&r.user_message_id),
                    session_id: r.session_id.clone(),
                    start: r.start,
                },
            );
            i = i + 1;
        }
        let mut ss: Vec<SpeedSessionEntry> = Vec::new();
        let mut j: usize = 0;
        while j < sessions.len()
            invariant
                j <= sessions.len(),
                pend == match pending_session {
                    Some(p) => Some(p@),
                    None => None::<Seq<char>>,
                },
                ss.len() == active_trees(sessions@.take(j as int), runs@, pend).len(),
                forall|k: int|
                    0 <= k < ss.len() ==> session_entry_of(
                        #[trigger] ss@[k],
                        active_trees(sessions@.take(j as int), runs@, pend)[k],
                    ),
            decreases sessions.len() - j,
        {
            proof {
                assert(sessions@.take(j + 1).drop_last() =~= sessions@.take(j as int));
                assert(sessions@.take(j + 1).last() == sessions@[j as int]);
            }
            let t = &sessions[j];
            if tree_is_active(t, runs, pending_session) {
                ss.push(
                    SpeedSessionEntry {
                        session_id: t.session_id.clone(),
                        member_session_ids: copy_strings(&t.member_session_ids),
                        round_started_at: t.round_started_at,
                        generating: t.generating,
                    },
                );
            }
            j = j + 1;
        }
        assert(sessions@.take(sessions.len() as int) =~= sessions@);
        SpeedView { runs: rs, sessions: ss }
    }
}

/// Whether session `s` is read by the one-second refresh: a non-empty id of
/// an active tree, of one of its members, or of an in-progress turn.
pub open spec fn refresh_target(v: SpeedView, s: Seq<char>) -> bool {
    s.len() > 0 && ((exists|i: int|
        0 <= i < v.sessions@.len() && (#[trigger] v.sessions@[i]).session_id@ == s) || (exists|
        i: int,
        m: int,
    |
        0 <= i < v.sessions@.len() && 0 <= m < v.sessions@[i].member_session_ids@.len() && (
        #[trigger] v.sessions@[i].member_session_ids@[m])@ == s) || (exists|i: int|
        0 <= i < v.runs@.len() && (#[trigger] v.runs@[i]).session_id@ == s))
}

impl SpeedView {
    /// The sessions the one-second refresh reads (see `refresh_target`),
    /// each once.
    pub fn session_ids(&self) -> (r: Vec<String>)
        ensures
            str_views(r@).no_duplicates(),
            forall|s: Seq<char>| #[trigger] str_views(r@).contains(s) <==> refresh_target(*self, s),
    {
        let mut ids: Vec<String> = Vec::new();
        let mut i: usize = 0;
        while i < self.sessions.len()
            invariant
                i <= self.sessions.len(),
                str_views(ids@).no_duplicates(),
                forall|s: Seq<char>|
                    #[trigger] str_views(ids@).contains(s) <==> (s.len() > 0 && ((exists|k: int|
                        0 <= k < i && (#[trigger] self.sessions@[k]).session_id@ == s) || (exists|
                        k: int,
                        m: int,
                    |
                        0 <= k < i && 0 <= m < self.sessions@[k].member_session_ids@.len() && (
                        #[trigger] self.sessions@[k].member_session_ids@[m])@ == s))),
            decreases self.sessions.len() - i,
        {
            let e = &self.sessions[i];
            let ghost before = str_views(ids@);
            if chars_of(e.session_id.as_str()).len() > 0 {
                push_new(&mut ids, &e.session_id);
            }
            let ghost mid = str_views(ids@);
            let mut m: usize = 0;
            while m < e.member_session_ids.len()
                invariant
                    m <= e.member_session_ids.len(),
                    i < self.sessions.len(),
                    e == &self.sessions@[i as int],
                    str_views(ids@).no_duplicates(),
                    forall|s: Seq<char>|
                        #[trigger] str_views(ids@).contains(s) <==> (mid.contains(s) || (s.len() > 0
                            && exists|q: int|
                            0 <= q < m && (#[trigger] e.member_session_ids@[q])@ == s)),
                decreases e.member_session_ids.len() - m,
            {
                let ghost prev = str_views(ids@);
                if chars_of(e.member_session_ids[m].as_str()).len() > 0 {
                    push_new(&mut ids, &e.member_session_ids[m]);
                }
                proof {
                    assert forall|s: Seq<char>| #[trigger] str_views(ids@).contains(s) <==> (
                    mid.contains(s) || (s.len() > 0 && exists|q: int|
                        0 <= q < m + 1 && (#[trigger] e.member_session_ids@[q])@ == s)) by {
                        if s == e.member_session_ids@[m as int]@ {
                            assert(e.member_session_ids@[m as int]@ == s);
                        }
                    }
                }
                m = m + 1;
            }
            proof {
                assert forall|s: Seq<char>| #[trigger] str_views(ids@).contains(s) <==> (s.len() > 0
                    && ((exists|k: int|
                    0 <= k < i + 1 && (#[trigger] self.sessions@[k]).session_id@ == s) || (exists|
                    k: int,
                    q: int,
                |
                    0 <= k < i + 1 && 0 <= q < self.sessions@[k].member_session_ids@.len() && (
                    #[trigger] self.sessions@[k].member_session_ids@[q])@ == s))) by {
                    if s.len() > 0 && s == self.sessions@[i as int].session_id@ {
                        assert(self.sessions@[i as int].session_id@ == s);
                    }
                    if exists|q: int|
                        0 <= q < e.member_session_ids@.len() && (
                        #[trigger] e.member_session_ids@[q])@ == s {
                        let q = choose|q: int|
                            0 <= q < e.member_session_ids@.len() && (
                            #[trigger] e.member_session_ids@[q])@ == s;
                        assert(self.sessions@[i as int].member_session_ids@[q]@ == s);
                    }
                    if exists|k: int, q: int|
                        0 <= k < i + 1 && 0 <= q < self.sessions@[k].member_session_ids@.len() && (
                        #[trigger] self.sessions@[k].member_session_ids@[q])@ == s {
                        let (k, q) = choose|k: int, q: int|
                            0 <= k < i + 1 && 0 <= q < self.sessions@[k].member_session_ids@.len()
                                && (#[trigger] self.sessions@[k].member_session_ids@[q])@ == s;
                        if k == i {
                            assert(e.member_session_ids@[q]@ == s);
                        }
                    }
                }
            }
            i = i + 1;
        }
        let ghost after_sessions = str_views(ids@);
        let mut j: usize = 0;
        while j < self.runs.len()
            invariant
                j <= self.runs.len(),
                str_views(ids@).no_duplicates(),
                forall|s: Seq<char>|
                    #[trigger] str_views(ids@).contains(s) <==> (after_sessions.contains(s) || (s.len()
                        > 0 && exists|k: int| 0 <= k < j && (#[trigger] self.runs@[k]).session_id@ == s)),
            decreases self.runs.len() - j,
        {
            if chars_of(self.runs[j].session_id.as_str()).len() > 0 {
                push_new(&mut ids, &self.runs[j].session_id);
            }
            proof {
                assert forall|s: Seq<char>| #[trigger] str_views(ids@).contains(s) <==> (
                after_sessions.contains(s) || (s.len() > 0 && exists|k: int|
                    0 <= k < j + 1 && (#[trigger] self.runs@[k]).session_id@ == s)) by {
                    if s == self.runs@[j as int].session_id@ {
                        assert(self.runs@[j as int].session_id@ == s);
                    }
                }
            }
            j = j + 1;
        }
        ids
    }
}

/// The catalog entry of `k`, if any.
pub open spec fn lookup(cat: Map<CatalogKey, LatestUsageRequest>, k: CatalogKey) -> Option<
    LatestUsageRequest,
> {
    if cat.contains_key(k) {
        Some(cat[k])
    } else {
        None
    }
}

/// The request a session entry's speed comes from: the session's own
/// latest request when it lists no members, else the latest among its
/// members' requests of the current round.
pub open spec fn session_entry_latest(e: SpeedSessionEntry, cat: Map<CatalogKey, LatestUsageRequest>) -> Option<
    LatestUsageRequest,
> {
    if e.member_session_ids@.len() == 0 {
        lookup(cat, (e.session_id@, None))
    } else {
        latest_among(cat, member_views(e.member_session_ids@), e.round_started_at)
    }
}

/// The request a session entry's speed comes from (see
/// `session_entry_latest`).
pub fn session_latest(e: &SpeedSessionEntry, cat: &SpeedCatalog) -> (r: Option<LatestUsageRequest>)
    ensures
        r == session_entry_latest(*e, cat@),
{
    if e.member_session_ids.len() == 0 {
        cat.for_session(e.session_id.as_str())
    } else {
        cat.latest_for_members(e.member_session_ids.as_slice(), e.round_started_at)
    }
}

} // verus!
