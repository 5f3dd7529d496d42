//! Which model request is the latest one of each session and of each turn:
//! the lookups behind the request speeds shown with the export.
use crate::export_rows::contains_id;
use crate::text::{chars_eq, chars_of};
use crate::usage_feed::{str_views, UsageRun, UsageTurn};
use vstd::prelude::*;

verus! {

/// Timing of one model request.
#[derive(Debug, Clone, Copy, PartialEq, Eq, Structural)]
pub struct RequestTiming {
    /// Output tokens of a completed request; 0 while it is not completed.
    pub output_tokens: i64,
    pub started_at: Option<i64>,
    pub first_token_at: Option<i64>,
    pub completed_at: Option<i64>,
    pub duration_ms: Option<i64>,
}

/// A request with the instant it is ordered by.
#[derive(Debug, Clone, Copy, PartialEq, Eq, Structural)]
pub struct LatestUsageRequest {
    pub order: i64,
    pub timing: RequestTiming,
}

/// The instant a request is ordered by: its completion; else its start plus
/// a positive duration (when that fits in `i64`); else a positive start;
/// else 0.
pub open spec fn order_of(t: RequestTiming) -> int {
    if t.completed_at is Some && t.completed_at->0 > 0 {
        t.completed_at->0 as int
    } else if t.started_at is Some && t.duration_ms is Some && t.duration_ms->0 > 0
        && t.started_at->0 + t.duration_ms->0 <= i64::MAX {
        t.started_at->0 + t.duration_ms->0
    } else if t.started_at is Some && t.started_at->0 > 0 {
        t.started_at->0 as int
    } else {
        0
    }
}

/// The instant a request is ordered by (see `order_of`).
pub fn request_order(t: &RequestTiming) -> (r: i64)
    ensures
        r == order_of(*t),
{
    match t.completed_at {
        Some(c) if c > 0 => {
            return c;
        },
        _ => {},
    }
    match (t.started_at, t.duration_ms) {
        (Some(s), Some(d)) if d > 0 && s <= i64::MAX - d => {
            return s + d;
        },
        _ => {},
    }
    match t.started_at {
        Some(s) if s > 0 => s,
        _ => 0,
    }
}

/// One `model_usage` row as the catalog reads it.
#[derive(Debug)]
pub struct RequestRow {
    pub session_id: Option<String>,
    pub turn_id: Option<String>,
    pub output_tokens: i64,
    pub started_at: Option<i64>,
    pub first_token_at: Option<i64>,
    pub completed_at: Option<i64>,
    pub duration_ms: Option<i64>,
    /// Whether the row's status says the request completed.
    pub completed: bool,
}

/// The timing of a row: a request that has not completed counts no output
/// tokens (it stays the newest candidate, but gives no speed).
pub open spec fn row_timing(r: RequestRow) -> RequestTiming {
    RequestTiming {
        output_tokens: if r.completed && r.output_tokens > 0 {
            r.output_tokens
        } else {
            0
        },
        started_at: r.started_at,
        first_token_at: r.first_token_at,
        completed_at: r.completed_at,
        duration_ms: r.duration_ms,
    }
}

pub open spec fn row_candidate(r: RequestRow) -> LatestUsageRequest {
    LatestUsageRequest { order: order_of(row_timing(r)) as i64, timing: row_timing(r) }
}

/// Catalog keys: `(session, None)` for a session, `(session, Some(turn))`
/// for a turn of that session.
pub type CatalogKey = (Seq<char>, Option<Seq<char>>);

/// `m` after offering candidate `c` for key `k`: it replaces what is there
/// unless that is ordered strictly later.
pub open spec fn offer(
    m: Map<CatalogKey, LatestUsageRequest>,
    k: CatalogKey,
    c: LatestUsageRequest,
) -> Map<CatalogKey, LatestUsageRequest> {
    if !m.contains_key(k) || c.order >= m[k].order {
        m.insert(k, c)
    } else {
        m
    }
}

/// The latest request of every session and of every turn among `rows`; rows
/// without a session are skipped, rows without a turn count for their
/// session only.
pub open spec fn catalog_of(rows: Seq<RequestRow>) -> Map<CatalogKey, LatestUsageRequest>
    decreases rows.len(),
{
    if rows.len() == 0 {
        Map::empty()
    } else {
        let prev = catalog_of(rows.drop_last());
        let r = rows.last();
        match r.session_id {
            Some(s) => if s@.len() > 0 {
                let m = offer(prev, (s@, None), row_candidate(r));
                match r.turn_id {
                    Some(t) => if t@.len() > 0 {
                        offer(m, (s@, Some(t@)), row_candidate(r))
                    } else {
                        m
                    },
                    None => m,
                }
            } else {
                prev
            },
            None => prev,
        }
    }
}

pub open spec fn entry_key(e: (String, Option<String>, LatestUsageRequest)) -> CatalogKey {
    (
        e.0@,
        match e.1 {
            Some(t) => Some(t@),
            None => None,
        },
    )
}

/// The map a list of entries with distinct keys stands for.
pub open spec fn entries_catalog(es: Seq<(String, Option<String>, LatestUsageRequest)>) -> Map<
    CatalogKey,
    LatestUsageRequest,
>
    decreases es.len(),
{
    if es.len() == 0 {
        Map::empty()
    } else {
        entries_catalog(es.drop_last()).insert(entry_key(es.last()), es.last().2)
    }
}

pub open spec fn catalog_keys_unique(es: Seq<(String, Option<String>, LatestUsageRequest)>) -> bool {
    forall|i: int, j: int|
        0 <= i < j < es.len() ==> entry_key(#[trigger] es[i]) != entry_key(#[trigger] es[j])
}

proof fn lemma_entries_catalog_index(es: Seq<(String, Option<String>, LatestUsageRequest)>, i: int)
    requires
        catalog_keys_unique(es),
        0 <= i < es.len(),
    ensures
        entries_catalog(es).contains_key(entry_key(es[i])),
        entries_catalog(es)[entry_key(es[i])] == es[i].2,
    decreases es.len(),
{
    if i < es.len() - 1 {
        let p = es.drop_last();
        assert(p[i] == es[i]);
        lemma_entries_catalog_index(p, i);
        assert(entry_key(es[i]) != entry_key(es.last()));
    }
}

proof fn lemma_entries_catalog_keys(es: Seq<(String, Option<String>, LatestUsageRequest)>, k: CatalogKey)
    ensures
        entries_catalog(es).contains_key(k) <==> exists|i: int|
            0 <= i < es.len() && entry_key(#[trigger] es[i]) == k,
    decreases es.len(),
{
    if es.len() > 0 {
        let p = es.drop_last();
        lemma_entries_catalog_keys(p, k);
        if exists|i: int| 0 <= i < p.len() && entry_key(#[trigger] p[i]) == k {
            let i = choose|i: int| 0 <= i < p.len() && entry_key(#[trigger] p[i]) == k;
            assert(es[i] == p[i]);
        }
        if exists|i: int| 0 <= i < es.len() && entry_key(#[trigger] es[i]) == k {
            let i = choose|i: int| 0 <= i < es.len() && entry_key(#[trigger] es[i]) == k;
            if i < es.len() - 1 {
                assert(es[i] == p[i]);
            }
        }
    }
}

proof fn lemma_entries_catalog_update(
    es: Seq<(String, Option<String>, LatestUsageRequest)>,
    j: int,
    v: LatestUsageRequest,
)
    requires
        catalog_keys_unique(es),
        0 <= j < es.len(),
    ensures
        entries_catalog(es.update(j, (es[j].0, es[j].1, v))) == entries_catalog(es).insert(
            entry_key(es[j]),
            v,
        ),
    decreases es.len(),
{
    let u = es.update(j, (es[j].0, es[j].1, v));
    if j == es.len() - 1 {
        assert(u.drop_last() =~= es.drop_last());
        assert(entries_catalog(u) =~= entries_catalog(es).insert(entry_key(es[j]), v));
    } else {
        let p = es.drop_last();
        assert(p[j] == es[j]);
        lemma_entries_catalog_update(p, j, v);
        assert(u.drop_last() =~= p.update(j, (p[j].0, p[j].1, v)));
        assert(entry_key(es[j]) != entry_key(es.last()));
        assert(entries_catalog(u) =~= entries_catalog(es).insert(entry_key(es[j]), v));
    }
}

/// The latest request of each session and of each turn.
pub struct SpeedCatalog {
    entries: Vec<(String, Option<String>, LatestUsageRequest)>,
}

impl View for SpeedCatalog {
    type V = Map<CatalogKey, LatestUsageRequest>;

    closed spec fn view(&self) -> Map<CatalogKey, LatestUsageRequest> {
        entries_catalog(self.entries@)
    }
}

fn same_turn_key(a: &Option<String>, b: &Option<&str>) -> (r: bool)
    ensures
        r == (match a {
            Some(x) => match b {
                Some(y) => x@ == y@,
                None => false,
            },
            None => b is None,
        }),
{
    match (a, b) {
        (Some(x), Some(y)) => chars_eq(&chars_of(x.as_str()), &chars_of(y)),
        (None, None) => true,
        _ => false,
    }
}

impl SpeedCatalog {
    #[verifier::type_invariant]
    spec fn inv(self) -> bool {
        catalog_keys_unique(self.entries@)
    }

    /// The empty catalog.
    pub fn new() -> (r: SpeedCatalog)
        ensures
            r@ == Map::<CatalogKey, LatestUsageRequest>::empty(),
    {
        SpeedCatalog { entries: Vec::new() }
    }

    fn find(&self, session: &str, turn: Option<&str>) -> (r: Option<usize>)
        ensures
            match r {
                Some(j) => j < self.entries.len() && entry_key(self.entries@[j as int]) == (
                    session@,
                    match turn {
                        Some(t) => Some(t@),
                        None => None,
                    },
                ),
                None => forall|i: int|
                    0 <= i < self.entries.len() ==> entry_key(#[trigger] self.entries@[i]) != (
                        session@,
                        match turn {
                            Some(t) => Some(t@),
                            None => None,
                        },
                    ),
            },
    {
        let sc = chars_of(session);
        let mut j: usize = 0;
        while j < self.entries.len()
            invariant
                j <= self.entries.len(),
                sc@ == session@,
                forall|i: int|
                    0 <= i < j ==> entry_key(#[trigger] self.entries@[i]) != (
                        session@,
                        match turn {
                            Some(t) => Some(t@),
                            None => None,
                        },
                    ),
            decreases self.entries.len() - j,
        {
            if chars_eq(&chars_of(self.entries[j].0.as_str()), &sc) && same_turn_key(
                &self.entries[j].1,
                &turn,
            ) {
                return Some(j);
            }
            j = j + 1;
        }
        None
    }

    fn get(&self, session: &str, turn: Option<&str>) -> (r: Option<LatestUsageRequest>)
        ensures
            ({
                let k = (
                    session@,
                    match turn {
                        Some(t) => Some(t@),
                        None => None,
                    },
                );
                match r {
                    Some(v) => self@.contains_key(k) && self@[k] == v,
                    None => !self@.contains_key(k),
                }
            }),
    {
        proof {
            use_type_invariant(self);
        }
        let ghost k = (
            session@,
            match turn {
                Some(t) => Some(t@),
                None => None,
            },
        );
        match self.find(session, turn) {
            Some(j) => {
                proof {
                    lemma_entries_catalog_index(self.entries@, j as int);
                }
                Some(self.entries[j].2)
            },
            None => {
                proof {
                    lemma_entries_catalog_keys(self.entries@, k);
                }
                None
            },
        }
    }

    /// The latest request of a session.
    pub fn for_session(&self, session_id: &str) -> (r: Option<LatestUsageRequest>)
        ensures
            match r {
                Some(v) => self@.contains_key((session_id@, None)) && self@[(session_id@, None)] == v,
                None => !self@.contains_key((session_id@, None)),
            },
    {
        self.get(session_id, None)
    }

    /// The latest request of a turn of a session.
    pub fn for_turn(&self, session_id: &str, turn_id: &str) -> (r: Option<LatestUsageRequest>)
        ensures
            match r {
                Some(v) => self@.contains_key((session_id@, Some(turn_id@))) && self@[(
                    session_id@,
                    Some(turn_id@),
                )] == v,
                None => !self@.contains_key((session_id@, Some(turn_id@))),
            },
    {
        self.get(session_id, Some(turn_id))
    }

    /// Offers a candidate for a session (`turn` is `None`) or for a turn.
    fn offer_key(&mut self, session: &String, turn: Option<&String>, c: LatestUsageRequest)
        ensures
            final(self)@ == offer(
                old(self)@,
                (
                    session@,
                    match turn {
                        Some(t) => Some(t@),
                        None => None,
                    },
                ),
                c,
            ),
    {
        proof {
            use_type_invariant(&*self);
        }
        let ghost k = (
            session@,
            match turn {
                Some(t) => Some(t@),
                None => None,
            },
        );
        let key_turn: Option<&str> = match turn {
            Some(t) => Some(t.as_str()),
            None => None,
        };
        match self.find(session.as_str(), key_turn) {
            Some(j) => {
                proof {
                    lemma_entries_catalog_index(self.entries@, j as int);
                }
                if c.order >= self.entries[j].2.order {
                    let ghost es = self.entries@;
                    let mut entries = Vec::new();
                    std::mem::swap(&mut entries, &mut self.entries);
                    let (s0, t0, _) = entries.remove(j);
                    proof {
                        assert(entries@ == es.remove(j as int));
                    }
                    entries.insert(j, (s0, t0, c));
                    proof {
                        assert(entries@ =~= es.update(j as int, (es[j as int].0, es[j as int].1, c)));
                        lemma_entries_catalog_update(es, j as int, c);
                        assert forall|a: int, b: int| 0 <= a < b < entries@.len() implies entry_key(
                            #[trigger] entries@[a],
                        ) != entry_key(#[trigger] entries@[b]) by {
                            assert(entry_key(entries@[a]) == entry_key(es[a]));
                            assert(entry_key(entries@[b]) == entry_key(es[b]));
                        }
                    }
                    self.entries = entries;
                }
            },
            None => {
                proof {
                    lemma_entries_catalog_keys(self.entries@, k);
                }
                let s_copy = session.clone();
                let t_copy: Option<String> = match turn {
                    Some(t) => Some(t.clone()),
                    None => None,
                };
                let ghost es = self.entries@;
                let mut entries = Vec::new();
                std::mem::swap(&mut entries, &mut self.entries);
                entries.push((s_copy, t_copy, c));
                proof {
                    assert(entries@.drop_last() =~= es);
                    assert(entry_key(entries@.last()) == k);
                    assert forall|a: int, b: int| 0 <= a < b < entries@.len() implies entry_key(
                        #[trigger] entries@[a],
                    ) != entry_key(#[trigger] entries@[b]) by {
                        if b == es.len() {
                            assert(entries@[a] == es[a]);
                        } else {
                            assert(entries@[a] == es[a] && entries@[b] == es[b]);
                        }
                    }
                    assert(entries_catalog(entries@) =~= offer(entries_catalog(es), k, c));
                }
                self.entries = entries;
            },
        }
    }

    /// The catalog of `rows` (see `catalog_of`).
    pub fn from_rows(rows: &Vec<RequestRow>) -> (r: SpeedCatalog)
        ensures
            r@ == catalog_of(rows@),
    {
        let mut cat = SpeedCatalog::new();
        let mut i: usize = 0;
        while i < rows.len()
            invariant
                i <= rows.len(),
                cat@ == catalog_of(rows@.take(i as int)),
            decreases rows.len() - i,
        {
            proof {
                assert(rows@.take(i + 1).drop_last() =~= rows@.take(i as int));
                assert(rows@.take(i + 1).last() == rows@[i as int]);
            }
            let r = &rows[i];
            match &r.session_id {
                Some(s) => {
                    if chars_of(s.as_str()).len() > 0 {
                        let timing = RequestTiming {
                            output_tokens: if r.completed && r.output_tokens > 0 {
                                r.output_tokens
                            } else {
                                0
                            },
                            started_at: r.started_at,
                            first_token_at: r.first_token_at,
                            completed_at: r.completed_at,
                            duration_ms: r.duration_ms,
                        };
                        let c = LatestUsageRequest { order: request_order(&timing), timing };
                        assert(c == row_candidate(*r));
                        cat.offer_key(s, None, c);
                        match &r.turn_id {
                            Some(t) => {
                                if chars_of(t.as_str()).len() > 0 {
                                    cat.offer_key(s, Some(t), c);
                                }
                            },
                            None => {},
                        }
                    }
                },
                None => {},
            }
            i = i + 1;
        }
        assert(rows@.take(rows.len() as int) =~= rows@);
        cat
    }
}

// ------------------------------------------------------------------
// Latest request of a session tree
// ------------------------------------------------------------------

/// A member's latest request, if it started no earlier than the round.
pub open spec fn member_candidate(
    cat: Map<CatalogKey, LatestUsageRequest>,
    member: Seq<char>,
    round_started_at: Option<i64>,
) -> Option<LatestUsageRequest> {
    if cat.contains_key((member, None)) {
        let r = cat[(member, None)];
        match round_started_at {
            None => Some(r),
            Some(st) => if r.timing.started_at is Some && r.timing.started_at->0 >= st {
                Some(r)
            } else {
                None
            },
        }
    } else {
        None
    }
}

/// The latest request among the members' latest requests (the last one
/// when several share the largest order).
pub open spec fn latest_among(
    cat: Map<CatalogKey, LatestUsageRequest>,
    members: Seq<Seq<char>>,
    round_started_at: Option<i64>,
) -> Option<LatestUsageRequest>
    decreases members.len(),
{
    if members.len() == 0 {
        None
    } else {
        let prev = latest_among(cat, members.drop_last(), round_started_at);
        match member_candidate(cat, members.last(), round_started_at) {
            None => prev,
            Some(x) => match prev {
                None => Some(x),
                Some(y) => if x.order >= y.order {
                    Some(x)
                } else {
                    Some(y)
                },
            },
        }
    }
}

pub open spec fn member_views(ms: Seq<String>) -> Seq<Seq<char>> {
    ms.map_values(|m: String| m@)
}

impl SpeedCatalog {
    /// The latest request of a session tree: among its members' latest
    /// requests that started no earlier than `round_started_at` (when
    /// given), the one ordered last.
    pub fn latest_for_members(&self, members: &[String], round_started_at: Option<i64>) -> (r:
        Option<LatestUsageRequest>)
        ensures
            r == latest_among(self@, member_views(members@), round_started_at),
    {
        let mut best: Option<LatestUsageRequest> = None;
        let mut i: usize = 0;
        while i < members.len()
            invariant
                i <= members.len(),
                best == latest_among(self@, member_views(members@).take(i as int), round_started_at),
            decreases members.len() - i,
        {
            proof {
                let mv = member_views(members@);
                assert(mv.take(i + 1).drop_last() =~= mv.take(i as int));
                assert(mv.take(i + 1).last() == members@[i as int]@);
            }
            let found = self.for_session(members[i].as_str());
            let cand = match found {
                Some(r) => match round_started_at {
                    None => Some(r),
                    Some(st) => match r.timing.started_at {
                        Some(s) => if s >= st {
                            Some(r)
                        } else {
                            None
                        },
                        None => None,
                    },
                },
                None => None,
            };
            match cand {
                Some(x) => {
                    best = match best {
                        None => Some(x),
                        Some(y) => if x.order >= y.order {
                            Some(x)
                        } else {
                            Some(y)
                        },
                    };
                },
                None => {},
            }
            i = i + 1;
        }
        assert(member_views(members@).take(members.len() as int) =~= member_views(members@));
        best
    }
}

proof fn lemma_offer(m: Map<CatalogKey, LatestUsageRequest>, k: CatalogKey, c: LatestUsageRequest)
    ensures
        offer(m, k, c).contains_key(k),
        offer(m, k, c)[k].order >= c.order,
        m.contains_key(k) ==> offer(m, k, c)[k].order >= m[k].order,
        forall|j: CatalogKey|
            j != k ==> #[trigger] offer(m, k, c).contains_key(j) == m.contains_key(j) && (
            m.contains_key(j) ==> offer(m, k, c)[j] == m[j]),
{
}

/// A key offered again keeps a request ordered no earlier than before.
proof fn lemma_offer_monotone(
    m: Map<CatalogKey, LatestUsageRequest>,
    k: CatalogKey,
    c: LatestUsageRequest,
    j: CatalogKey,
)
    requires
        m.contains_key(j),
    ensures
        offer(m, k, c).contains_key(j),
        offer(m, k, c)[j].order >= m[j].order,
{
    lemma_offer(m, k, c);
}

proof fn lemma_catalog_step_monotone(rows: Seq<RequestRow>, j: CatalogKey)
    requires
        rows.len() > 0,
        catalog_of(rows.drop_last()).contains_key(j),
    ensures
        catalog_of(rows).contains_key(j),
        catalog_of(rows)[j].order >= catalog_of(rows.drop_last())[j].order,
{
    let prev = catalog_of(rows.drop_last());
    let r = rows.last();
    match r.session_id {
        Some(s) => if s@.len() > 0 {
            let m = offer(prev, (s@, None), row_candidate(r));
            lemma_offer_monotone(prev, (s@, None), row_candidate(r), j);
            match r.turn_id {
                Some(t) => if t@.len() > 0 {
                    lemma_offer_monotone(m, (s@, Some(t@)), row_candidate(r), j);
                },
                None => {},
            }
        },
        None => {},
    }
}

/// Every session, and every turn, of the rows is in the catalog, with a
/// request ordered no earlier than any of its rows.
pub proof fn lemma_catalog_is_latest(rows: Seq<RequestRow>, i: int)
    requires
        0 <= i < rows.len(),
        rows[i].session_id is Some,
        rows[i].session_id->0@.len() > 0,
    ensures
        catalog_of(rows).contains_key((rows[i].session_id->0@, None)),
        catalog_of(rows)[(rows[i].session_id->0@, None)].order >= row_candidate(rows[i]).order,
        (rows[i].turn_id is Some && rows[i].turn_id->0@.len() > 0) ==> {
            let k = (rows[i].session_id->0@, Some(rows[i].turn_id->0@));
            catalog_of(rows).contains_key(k) && catalog_of(rows)[k].order >= row_candidate(
                rows[i],
            ).order
        },
    decreases rows.len(),
{
    let p = rows.drop_last();
    let r = rows[i];
    let ks = (r.session_id->0@, None::<Seq<char>>);
    if i == rows.len() - 1 {
        let prev = catalog_of(p);
        let c = row_candidate(r);
        let m = offer(prev, ks, c);
        lemma_offer(prev, ks, c);
        match r.turn_id {
            Some(t) => if t@.len() > 0 {
                let kt = (r.session_id->0@, Some(t@));
                lemma_offer(m, kt, c);
                assert(ks != kt);
            },
            None => {},
        }
    } else {
        assert(p[i] == r);
        lemma_catalog_is_latest(p, i);
        lemma_catalog_step_monotone(rows, ks);
        match r.turn_id {
            Some(t) => if t@.len() > 0 {
                lemma_catalog_step_monotone(rows, (r.session_id->0@, Some(t@)));
            },
            None => {},
        }
    }
}

// ------------------------------------------------------------------
// Sessions of an export
// ------------------------------------------------------------------

/// Whether session `s` appears in the export: a turn's or a run's session,
/// or the non-empty `extra` one.
pub open spec fn appears(
    turns: Seq<UsageTurn>,
    runs: Seq<UsageRun>,
    extra: Option<Seq<char>>,
    s: Seq<char>,
) -> bool {
    (exists|i: int| 0 <= i < turns.len() && (#[trigger] turns[i]).session_id@ == s) || (exists|
        i: int,
    |
        0 <= i < runs.len() && (#[trigger] runs[i]).session_id@ == s) || (extra == Some(s)
        && s.len() > 0)
}

pub(crate) fn push_new(ids: &mut Vec<String>, id: &String)
    requires
        str_views(old(ids)@).no_duplicates(),
    ensures
        str_views(final(ids)@).no_duplicates(),
        forall|x: Seq<char>|
            #[trigger] str_views(final(ids)@).contains(x) <==> (str_views(old(ids)@).contains(x)
                || x == id@),
{
    let ghost before = str_views(ids@);
    if !contains_id(ids, id) {
        ids.push(id.clone());
        proof {
            let after = str_views(ids@);
            assert(after =~= before.push(id@));
            assert forall|a: int, b: int| 0 <= a < b < after.len() implies after[a] != after[b] by {
                if b == before.len() {
                    assert(after[a] == before[a]);
                    assert(before.contains(before[a]));
                } else {
                    assert(after[a] == before[a] && after[b] == before[b]);
                }
            }
            assert forall|x: Seq<char>| #[trigger] after.contains(x) <==> (before.contains(x)
                || x == id@) by {
                if after.contains(x) {
                    let k = choose|k: int| 0 <= k < after.len() && after[k] == x;
                    if k < before.len() {
                        assert(before[k] == x);
                    }
                }
                if before.contains(x) {
                    let k = choose|k: int| 0 <= k < before.len() && before[k] == x;
                    assert(after[k] == x);
                }
                if x == id@ {
                    assert(after[before.len() as int] == x);
                }
            }
        }
    }
}

/// The sessions that appear in the export (see `appears`), each once, in
/// order of first appearance.
pub fn session_ids_for_rows(turns: &Vec<UsageTurn>, runs: &Vec<UsageRun>, extra: Option<&str>) -> (r:
    Vec<String>)
    ensures
        str_views(r@).no_duplicates(),
        forall|s: Seq<char>|
            #[trigger] str_views(r@).contains(s) <==> appears(
                turns@,
                runs@,
                match extra {
                    Some(e) => Some(e@),
                    None => None,
                },
                s,
            ),
{
    let ghost ex = match extra {
        Some(e) => Some(e@),
        None => None::<Seq<char>>,
    };
    let mut ids: Vec<String> = Vec::new();
    let mut i: usize = 0;
    while i < turns.len()
        invariant
            i <= turns.len(),
            str_views(ids@).no_duplicates(),
            forall|x: Seq<char>|
                #[trigger] str_views(ids@).contains(x) <==> exists|k: int|
                    0 <= k < i && (#[trigger] turns@[k]).session_id@ == x,
        decreases turns.len() - i,
    {
        push_new(&mut ids, &turns[i].session_id);
        proof {
            assert forall|x: Seq<char>| #[trigger] str_views(ids@).contains(x) <==> exists|k: int|
                0 <= k < i + 1 && (#[trigger] turns@[k]).session_id@ == x by {
                if x == turns@[i as int].session_id@ {
                    assert(turns@[i as int].session_id@ == x);
                }
            }
        }
        i = i + 1;
    }
    let mut j: usize = 0;
    while j < runs.len()
        invariant
            j <= runs.len(),
            str_views(ids@).no_duplicates(),
            forall|x: Seq<char>|
                #[trigger] str_views(ids@).contains(x) <==> ((exists|k: int|
                    0 <= k < turns.len() && (#[trigger] turns@[k]).session_id@ == x) || exists|
                    k: int,
                |
                    0 <= k < j && (#[trigger] runs@[k]).session_id@ == x),
        decreases runs.len() - j,
    {
        push_new(&mut ids, &runs[j].session_id);
        proof {
            assert forall|x: Seq<char>| #[trigger] str_views(ids@).contains(x) <==> ((exists|k: int|
                0 <= k < turns.len() && (#[trigger] turns@[k]).session_id@ == x) || exists|k: int|
                0 <= k < j + 1 && (#[trigger] runs@[k]).session_id@ == x) by {
                if x == runs@[j as int].session_id@ {
                    assert(runs@[j as int].session_id@ == x);
                }
            }
        }
        j = j + 1;
    }
    match extra {
        Some(e) => {
            if chars_of(e).len() > 0 {
                let es = e.to_string();
                push_new(&mut ids, &es);
            }
        },
        None => {},
    }
    ids
}

} // verus!
