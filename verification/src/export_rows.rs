//! From the rows read out of the session database to the exported `turns`
//! and `runs` arrays: which rows are kept, the sub-agent turns' own rows,
//! the order of the rows and the size limit.
use crate::text::{chars_of, first_where, join, lemma_first_where_is, lemma_first_where_range};
use crate::usage_feed::{
    agg_of, attach_models, build_models_map, is_sub_session, is_sub_session_exec, merge_all,
    merge_fits, merge_sub_runs, merge_subagent_turns, merged_run, models_map, orphan_contribs,
    run_contribs, same_but_models, str_views, turn_models, agg_fits, SubTurnRow,
    UsageRun, UsageTurn, MAX_TURNS,
};
use vstd::prelude::*;

verus! {

broadcast use {vstd::seq_lib::to_multiset_build, vstd::seq_lib::to_multiset_insert};

// ------------------------------------------------------------------
// Main turns
// ------------------------------------------------------------------

/// A main turn worth exporting: it has a start and a turn id.
pub open spec fn exportable(t: UsageTurn) -> bool {
    t.start > 0 && t.turn_id@.len() > 0
}

/// The exportable turns of `s`, in order.
pub open spec fn exportable_turns(s: Seq<UsageTurn>) -> Seq<UsageTurn>
    decreases s.len(),
{
    if s.len() == 0 {
        Seq::empty()
    } else {
        let p = exportable_turns(s.drop_last());
        if exportable(s.last()) {
            p.push(s.last())
        } else {
            p
        }
    }
}

/// The newest `n` elements of `s` (its last `n`), or all of them.
pub open spec fn newest<A>(s: Seq<A>, n: nat) -> Seq<A> {
    if s.len() > n {
        s.skip(s.len() - n)
    } else {
        s
    }
}

fn exportable_rows(rows: Vec<UsageTurn>) -> (r: Vec<UsageTurn>)
    ensures
        r@ == exportable_turns(rows@),
{
    let ghost all = rows@;
    let mut out: Vec<UsageTurn> = Vec::new();
    assert(all.take(0) =~= Seq::<UsageTurn>::empty());
    for t in it: rows.into_iter()
        invariant
            it.seq() == all,
            out@ == exportable_turns(all.take(it.index() as int)),
    {
        let ghost k = it.index() as int;
        assert(all.take(k + 1).drop_last() =~= all.take(k));
        assert(all.take(k + 1).last() == all[k]);
        let has_id = chars_of(t.turn_id.as_str()).len() > 0;
        if t.start > 0 && has_id {
            out.push(t);
        }
    }
    assert(all.take(all.len() as int) =~= all);
    out
}

fn keep_newest(v: &mut Vec<UsageTurn>, n: usize)
    ensures
        final(v)@ == newest(old(v)@, n as nat),
{
    if v.len() > n {
        let ghost before = v@;
        let cut = v.len() - n;
        let tail = v.split_off(cut);
        assert(tail@ =~= before.skip(cut as int));
        *v = tail;
    }
}

// ------------------------------------------------------------------
// Sub-agent turns' own rows
// ------------------------------------------------------------------

/// A sub-agent turn that gets a row of its own: it has a start and an id.
pub open spec fn sub_exportable(s: SubTurnRow) -> bool {
    s.started_at > 0 && s.turn_id@.len() > 0
}

/// The sub-agent turn's own row: its id, message, session, status, times,
/// numbers, duration and time to first token; no merged totals; marked as
/// a sub-agent row. (The model list is written later; this spec leaves it
/// open.)
pub open spec fn self_view(s: SubTurnRow) -> UsageTurn {
    UsageTurn {
        turn_id: s.turn_id,
        user_message_id: s.user_message_id,
        session_id: s.session_id,
        status: s.status,
        start: s.started_at,
        end: s.completed_at,
        input_tokens: s.input_tokens,
        output_tokens: s.output_tokens,
        cache_read: s.cache_read,
        cache_write: s.cache_write,
        reasoning: s.reasoning,
        requests: s.requests,
        retries: s.retries,
        tool_calls: s.tool_calls,
        dur: s.dur,
        ttft: s.ttft,
        sub: None,
        subagent: Some(1u8),
        models: arbitrary(),
    }
}

/// The own rows of the sub-agent turns that get one, in order.
pub open spec fn self_views(subs: Seq<SubTurnRow>) -> Seq<UsageTurn>
    decreases subs.len(),
{
    if subs.len() == 0 {
        Seq::empty()
    } else {
        let p = self_views(subs.drop_last());
        if sub_exportable(subs.last()) {
            p.push(self_view(subs.last()))
        } else {
            p
        }
    }
}

fn copy_opt(s: &Option<String>) -> (r: Option<String>)
    ensures
        r == *s,
{
    match s {
        Some(x) => Some(x.clone()),
        None => None,
    }
}

fn self_view_rows(subs: &Vec<SubTurnRow>) -> (r: Vec<UsageTurn>)
    ensures
        r.len() == self_views(subs@).len(),
        forall|i: int|
            0 <= i < r.len() ==> same_but_models(#[trigger] r@[i], self_views(subs@)[i])
                && r@[i].models@ == Seq::<char>::empty(),
{
    let mut out: Vec<UsageTurn> = Vec::new();
    let mut i: usize = 0;
    while i < subs.len()
        invariant
            i <= subs.len(),
            out.len() == self_views(subs@.take(i as int)).len(),
            forall|j: int|
                0 <= j < out.len() ==> same_but_models(
                    #[trigger] out@[j],
                    self_views(subs@.take(i as int))[j],
                ) && out@[j].models@ == Seq::<char>::empty(),
        decreases subs.len() - i,
    {
        proof {
            assert(subs@.take(i + 1).drop_last() =~= subs@.take(i as int));
            assert(subs@.take(i + 1).last() == subs@[i as int]);
        }
        let s = &subs[i];
        let has_id = chars_of(s.turn_id.as_str()).len() > 0;
        if s.started_at > 0 && has_id {
            let row = UsageTurn {
                turn_id: s.turn_id.clone(),
                user_message_id: copy_opt(&s.user_message_id),
                session_id: s.session_id.clone(),
                status: s.status.clone(),
                start: s.started_at,
                end: s.completed_at,
                input_tokens: s.input_tokens,
                output_tokens: s.output_tokens,
                cache_read: s.cache_read,
                cache_write: s.cache_write,
                reasoning: s.reasoning,
                requests: s.requests,
                retries: s.retries,
                tool_calls: s.tool_calls,
                dur: s.dur,
                ttft: s.ttft,
                sub: None,
                subagent: Some(1),
                models: String::new(),
            };
            assert(same_but_models(row, self_view(subs@[i as int])));
            out.push(row);
        }
        i = i + 1;
    }
    assert(subs@.take(subs.len() as int) =~= subs@);
    out
}

// ------------------------------------------------------------------
// Order by start
// ------------------------------------------------------------------

/// Rows that start later than `t`.
pub open spec fn starts_after(t: UsageTurn) -> spec_fn(UsageTurn) -> bool {
    |u: UsageTurn| u.start > t.start
}

/// `t` inserted into `sorted` after every row that starts no later.
pub open spec fn insert_by_start(sorted: Seq<UsageTurn>, t: UsageTurn) -> Seq<UsageTurn> {
    let k = first_where(sorted, starts_after(t));
    if k < 0 {
        sorted.push(t)
    } else {
        sorted.insert(k, t)
    }
}

/// `s` stably sorted by start: rows with equal starts keep their order.
pub open spec fn sort_by_start(s: Seq<UsageTurn>) -> Seq<UsageTurn>
    decreases s.len(),
{
    if s.len() == 0 {
        Seq::empty()
    } else {
        insert_by_start(sort_by_start(s.drop_last()), s.last())
    }
}

/// Starts never decrease along `s`.
pub open spec fn starts_ascending(s: Seq<UsageTurn>) -> bool {
    forall|i: int, j: int| 0 <= i <= j < s.len() ==> #[trigger] s[i].start <= #[trigger] s[j].start
}

proof fn lemma_first_where_before<A>(s: Seq<A>, pred: spec_fn(A) -> bool, m: int)
    requires
        0 <= m < s.len(),
        m < first_where(s, pred) || first_where(s, pred) < 0,
    ensures
        !pred(s[m]),
    decreases s.len(),
{
    if m > 0 && !pred(s[0]) {
        let t = s.drop_first();
        assert(t[m - 1] == s[m]);
        lemma_first_where_before(t, pred, m - 1);
    }
}

/// Sorting by start orders the rows by start and keeps every row (the
/// result is a permutation of the input).
pub proof fn lemma_sort_by_start(s: Seq<UsageTurn>)
    ensures
        starts_ascending(sort_by_start(s)),
        sort_by_start(s).to_multiset() == s.to_multiset(),
        sort_by_start(s).len() == s.len(),
    decreases s.len(),
{
    if s.len() == 0 {
        assert(s =~= Seq::<UsageTurn>::empty());
    } else {
        let p = s.drop_last();
        let t = s.last();
        lemma_sort_by_start(p);
        let sp = sort_by_start(p);
        let k = first_where(sp, starts_after(t));
        lemma_first_where_range(sp, starts_after(t));
        assert(s =~= p.push(t));
        vstd::seq_lib::to_multiset_build(p, t);
        let r = sort_by_start(s);
        if k < 0 {
            vstd::seq_lib::to_multiset_build(sp, t);
            assert forall|m: int| 0 <= m < sp.len() implies sp[m].start <= t.start by {
                lemma_first_where_before(sp, starts_after(t), m);
            }
            assert(r == sp.push(t));
            assert forall|i: int, j: int| 0 <= i <= j < r.len() implies #[trigger] r[i].start
                <= #[trigger] r[j].start by {
                if j == sp.len() {
                    if i < j {
                        assert(r[i] == sp[i]);
                    }
                } else {
                    assert(r[i] == sp[i] && r[j] == sp[j]);
                }
            }
        } else {
            sp.insert_ensures(k, t);
            vstd::seq_lib::to_multiset_insert(sp, k, t);
            assert forall|m: int| 0 <= m < k implies sp[m].start <= t.start by {
                lemma_first_where_before(sp, starts_after(t), m);
            }
            assert(sp[k].start > t.start);
            assert(r == sp.insert(k, t));
            assert forall|i: int, j: int| 0 <= i <= j < r.len() implies #[trigger] r[i].start
                <= #[trigger] r[j].start by {
                if i < k {
                    assert(r[i] == sp[i]);
                    if j < k {
                        assert(r[j] == sp[j]);
                    } else if j > k {
                        assert(r[j] == sp[j - 1]);
                        assert(sp[k].start <= sp[j - 1].start);
                    }
                } else if i == k {
                    if j > k {
                        assert(r[j] == sp[j - 1]);
                        assert(sp[k].start <= sp[j - 1].start);
                    }
                } else {
                    assert(r[i] == sp[i - 1] && r[j] == sp[j - 1]);
                }
            }
        }
    }
}

/// Sorting depends on the starts alone: rows that differ only in their
/// model lists sort alike.
proof fn lemma_sort_same_but_models(a: Seq<UsageTurn>, b: Seq<UsageTurn>)
    requires
        a.len() == b.len(),
        forall|i: int| 0 <= i < a.len() ==> same_but_models(#[trigger] a[i], b[i]),
    ensures
        sort_by_start(a).len() == sort_by_start(b).len(),
        forall|i: int|
            0 <= i < sort_by_start(a).len() ==> same_but_models(
                #[trigger] sort_by_start(a)[i],
                sort_by_start(b)[i],
            ),
    decreases a.len(),
{
    if a.len() > 0 {
        let pa = a.drop_last();
        let pb = b.drop_last();
        assert forall|i: int| 0 <= i < pa.len() implies same_but_models(#[trigger] pa[i], pb[i]) by {
            assert(pa[i] == a[i] && pb[i] == b[i]);
        }
        lemma_sort_same_but_models(pa, pb);
        lemma_sort_by_start(pa);
        lemma_sort_by_start(pb);
        let sa = sort_by_start(pa);
        let sb = sort_by_start(pb);
        let x = a.last();
        let y = b.last();
        assert(same_but_models(x, y));
        let ka = first_where(sa, starts_after(x));
        lemma_first_where_range(sa, starts_after(x));
        if ka >= 0 {
            assert forall|m: int| 0 <= m < ka implies !starts_after(y)(#[trigger] sb[m]) by {
                lemma_first_where_before(sa, starts_after(x), m);
                assert(same_but_models(sa[m], sb[m]));
            }
            assert(same_but_models(sa[ka], sb[ka]));
            lemma_first_where_is(sb, starts_after(y), ka);
            sa.insert_ensures(ka, x);
            sb.insert_ensures(ka, y);
            let ra = sa.insert(ka, x);
            let rb = sb.insert(ka, y);
            assert forall|i: int| 0 <= i < ra.len() implies same_but_models(#[trigger] ra[i], rb[i]) by {
                if i < ka {
                    assert(same_but_models(sa[i], sb[i]));
                } else if i > ka {
                    assert(ra[i] == sa[i - 1] && rb[i] == sb[i - 1]);
                    assert(same_but_models(sa[i - 1], sb[i - 1]));
                }
            }
        } else {
            assert forall|m: int| 0 <= m < sb.len() implies !starts_after(y)(#[trigger] sb[m]) by {
                lemma_first_where_before(sa, starts_after(x), m);
                assert(same_but_models(sa[m], sb[m]));
            }
            lemma_first_where_is(sb, starts_after(y), -1);
            let ra = sa.push(x);
            let rb = sb.push(y);
            assert forall|i: int| 0 <= i < ra.len() implies same_but_models(#[trigger] ra[i], rb[i]) by {
                if i < sa.len() {
                    assert(ra[i] == sa[i] && rb[i] == sb[i]);
                    assert(same_but_models(sa[i], sb[i]));
                }
            }
        }
    }
}

fn sort_turns_by_start(v: Vec<UsageTurn>) -> (r: Vec<UsageTurn>)
    ensures
        r@ == sort_by_start(v@),
{
    let ghost all = v@;
    let mut out: Vec<UsageTurn> = Vec::new();
    assert(all.take(0) =~= Seq::<UsageTurn>::empty());
    for t in it: v.into_iter()
        invariant
            it.seq() == all,
            out@ == sort_by_start(all.take(it.index() as int)),
    {
        let ghost k = it.index() as int;
        let ghost cur = out@;
        assert(all.take(k + 1).drop_last() =~= all.take(k));
        assert(all.take(k + 1).last() == all[k]);
        let mut j: usize = 0;
        while j < out.len() && out[j].start <= t.start
            invariant
                j <= out.len(),
                out@ == cur,
                forall|m: int| 0 <= m < j ==> !starts_after(t)(#[trigger] cur[m]),
            decreases out.len() - j,
        {
            j = j + 1;
        }
        proof {
            if j < out.len() {
                lemma_first_where_is(cur, starts_after(t), j as int);
            } else {
                lemma_first_where_is(cur, starts_after(t), -1);
                assert(cur.insert(j as int, t) =~= cur.push(t));
            }
        }
        out.insert(j, t);
    }
    assert(all.take(all.len() as int) =~= all);
    out
}

// ------------------------------------------------------------------
// The exported turns
// ------------------------------------------------------------------

/// The exported turns (model lists left open), the merged (main, sub-agent)
/// turn id pairs and the orphan sub-agent turns, from the main rows `mains`
/// and the sub-agent rows `subs` as read: the newest exportable main rows
/// take the sub-agent turns they cover; the sub-agent turns' own rows are
/// added; all are sorted by start and the newest are kept.
pub open spec fn export_turns_of(mains: Seq<UsageTurn>, subs: Seq<SubTurnRow>) -> (
    Seq<UsageTurn>,
    Seq<(Seq<char>, Seq<char>)>,
    Seq<SubTurnRow>,
) {
    let m = merge_all(newest(exportable_turns(mains), MAX_TURNS as nat), subs);
    (newest(sort_by_start(m.0 + self_views(subs)), MAX_TURNS as nat), m.1, m.2)
}

/// The exported `turns` array from the rows read out of the database: main
/// turns, sub-agent turns and (turn id, model id) rows. Returns the rows
/// and the orphan sub-agent turns (for the live merge of the runs). Each
/// row's model list is its own models and those of the sub-agent turns
/// merged into it, deduplicated, comma-separated.
pub fn collect_turns_from_rows(
    main_rows: Vec<UsageTurn>,
    sub_rows: Vec<SubTurnRow>,
    model_rows: Vec<(String, String)>,
) -> (r: (Vec<UsageTurn>, Vec<SubTurnRow>))
    requires
        merge_fits(newest(exportable_turns(main_rows@), MAX_TURNS as nat), sub_rows@),
    ensures
        r.1@ == export_turns_of(main_rows@, sub_rows@).2,
        r.0.len() == export_turns_of(main_rows@, sub_rows@).0.len(),
        forall|i: int|
            0 <= i < r.0.len() ==> same_but_models(
                #[trigger] r.0@[i],
                export_turns_of(main_rows@, sub_rows@).0[i],
            ) && r.0@[i].models@ == join(
                turn_models(
                    models_map(model_rows@),
                    export_turns_of(main_rows@, sub_rows@).1,
                    export_turns_of(main_rows@, sub_rows@).0[i].turn_id@,
                ),
                ","@,
            ),
{
    let ghost mains = main_rows@;
    let ghost subs = sub_rows@;
    let ghost e = export_turns_of(mains, subs);
    let mut turns = exportable_rows(main_rows);
    keep_newest(&mut turns, MAX_TURNS);
    let mut own = self_view_rows(&sub_rows);
    let ghost own_v = own@;
    let (pairs, orphans) = merge_subagent_turns(&mut turns, sub_rows);
    let ghost merged = turns@;
    turns.append(&mut own);
    let ghost b = merged + self_views(subs);
    proof {
        let a = turns@;
        assert(a =~= merged + own_v);
        assert forall|i: int| 0 <= i < a.len() implies same_but_models(#[trigger] a[i], b[i]) by {
            if i >= merged.len() {
                assert(a[i] == own_v[i - merged.len()]);
                assert(b[i] == self_views(subs)[i - merged.len()]);
            }
        }
        lemma_sort_same_but_models(a, b);
        lemma_sort_by_start(a);
        lemma_sort_by_start(b);
    }
    let ghost sorted_a = sort_by_start(turns@);
    let mut sorted = sort_turns_by_start(turns);
    keep_newest(&mut sorted, MAX_TURNS);
    let ghost kept = sorted@;
    proof {
        let sb = sort_by_start(b);
        assert(e.0 == newest(sb, MAX_TURNS as nat));
        assert forall|i: int| 0 <= i < kept.len() implies same_but_models(#[trigger] kept[i], e.0[i]) by {
            if sorted_a.len() > MAX_TURNS {
                let off = sorted_a.len() - MAX_TURNS;
                assert(kept[i] == sorted_a[i + off]);
                assert(e.0[i] == sb[i + off]);
            }
        }
    }
    let map = build_models_map(model_rows);
    attach_models(&mut sorted, &map, &pairs);
    (sorted, orphans)
}

/// The exported turns are in ascending start order and at most `MAX_TURNS`.
pub proof fn lemma_export_turns_ordered_and_bounded(mains: Seq<UsageTurn>, subs: Seq<SubTurnRow>)
    ensures
        starts_ascending(export_turns_of(mains, subs).0),
        export_turns_of(mains, subs).0.len() <= MAX_TURNS,
{
    let m = merge_all(newest(exportable_turns(mains), MAX_TURNS as nat), subs);
    let s = sort_by_start(m.0 + self_views(subs));
    lemma_sort_by_start(m.0 + self_views(subs));
    if s.len() > MAX_TURNS {
        let off = s.len() - MAX_TURNS;
        let k = s.skip(off);
        assert forall|i: int, j: int| 0 <= i <= j < k.len() implies #[trigger] k[i].start
            <= #[trigger] k[j].start by {
            assert(k[i] == s[i + off] && k[j] == s[j + off]);
        }
    }
}

// ------------------------------------------------------------------
// The exported runs
// ------------------------------------------------------------------

/// An in-progress row worth exporting: its turn has not completed, and it
/// has a session and a start.
pub open spec fn run_kept(r: UsageRun, done: Seq<Seq<char>>) -> bool {
    !done.contains(r.turn_id@) && r.session_id@.len() > 0 && r.start > 0
}

/// Only a sub-agent row names a parent session.
pub open spec fn run_cleaned(r: UsageRun) -> UsageRun {
    if is_sub_session(r.session_id@) {
        r
    } else {
        UsageRun { parent_session_id: None, ..r }
    }
}

/// The kept rows of `rows`, cleaned, in order.
pub open spec fn kept_runs(rows: Seq<UsageRun>, done: Seq<Seq<char>>) -> Seq<UsageRun>
    decreases rows.len(),
{
    if rows.len() == 0 {
        Seq::empty()
    } else {
        let p = kept_runs(rows.drop_last(), done);
        if run_kept(rows.last(), done) {
            p.push(run_cleaned(rows.last()))
        } else {
            p
        }
    }
}

pub(crate) fn contains_id(ids: &Vec<String>, id: &String) -> (b: bool)
    ensures
        b == str_views(ids@).contains(id@),
{
    let mut q: usize = 0;
    while q < ids.len()
        invariant
            q <= ids.len(),
            forall|a: int| 0 <= a < q ==> (#[trigger] ids@[a])@ != id@,
        decreases ids.len() - q,
    {
        if ids[q] == *id {
            assert(str_views(ids@)[q as int] == id@);
            return true;
        }
        q = q + 1;
    }
    assert forall|a: int| 0 <= a < str_views(ids@).len() implies str_views(ids@)[a] != id@ by {
        assert(str_views(ids@)[a] == ids@[a]@);
    }
    false
}

/// The exported `runs` array from the grouped rows read out of the
/// database: rows of completed turns (`done_turn_ids`) and rows without a
/// session or a start are dropped, a main-session row names no parent, and
/// the sub-agent numbers are merged live (see `merge_sub_runs`).
pub fn collect_runs_from_rows(
    rows: Vec<UsageRun>,
    done_turn_ids: &Vec<String>,
    sub_orphans: &[SubTurnRow],
) -> (r: Vec<UsageRun>)
    requires
        agg_fits(
            run_contribs(kept_runs(rows@, str_views(done_turn_ids@))) + orphan_contribs(
                sub_orphans@,
            ),
        ),
    ensures
        r.len() == kept_runs(rows@, str_views(done_turn_ids@)).len(),
        forall|i: int|
            0 <= i < r.len() ==> #[trigger] r@[i] == merged_run(
                kept_runs(rows@, str_views(done_turn_ids@))[i],
                kept_runs(rows@, str_views(done_turn_ids@)),
                agg_of(
                    run_contribs(kept_runs(rows@, str_views(done_turn_ids@))) + orphan_contribs(
                        sub_orphans@,
                    ),
                ),
            ),
{
    let ghost done = str_views(done_turn_ids@);
    let ghost all = rows@;
    let mut runs: Vec<UsageRun> = Vec::new();
    assert(all.take(0) =~= Seq::<UsageRun>::empty());
    for row in it: rows.into_iter()
        invariant
            it.seq() == all,
            done == str_views(done_turn_ids@),
            runs@ == kept_runs(all.take(it.index() as int), done),
    {
        let ghost k = it.index() as int;
        assert(all.take(k + 1).drop_last() =~= all.take(k));
        assert(all.take(k + 1).last() == all[k]);
        let has_session = chars_of(row.session_id.as_str()).len() > 0;
        if !contains_id(done_turn_ids, &row.turn_id) && has_session && row.start > 0 {
            let mut kept = row;
            if !is_sub_session_exec(&kept.session_id) {
                kept.parent_session_id = None;
            }
            runs.push(kept);
        }
    }
    assert(all.take(all.len() as int) =~= all);
    merge_sub_runs(&mut runs, sub_orphans);
    runs
}

/// Every exported run belongs to a turn that has not completed, has a
/// session and a start, and names a parent only when it is a sub-agent row.
pub proof fn lemma_kept_runs_are_live(rows: Seq<UsageRun>, done: Seq<Seq<char>>)
    ensures
        forall|i: int|
            0 <= i < kept_runs(rows, done).len() ==> {
                let r = #[trigger] kept_runs(rows, done)[i];
                &&& !done.contains(r.turn_id@)
                &&& r.session_id@.len() > 0
                &&& r.start > 0
                &&& !is_sub_session(r.session_id@) ==> r.parent_session_id is None
            },
    decreases rows.len(),
{
    if rows.len() > 0 {
        lemma_kept_runs_are_live(rows.drop_last(), done);
        let p = kept_runs(rows.drop_last(), done);
        assert forall|i: int| 0 <= i < kept_runs(rows, done).len() implies {
            let r = #[trigger] kept_runs(rows, done)[i];
            &&& !done.contains(r.turn_id@)
            &&& r.session_id@.len() > 0
            &&& r.start > 0
            &&& !is_sub_session(r.session_id@) ==> r.parent_session_id is None
        } by {
            if i < p.len() {
                assert(kept_runs(rows, done)[i] == p[i]);
            }
        }
    }
}

// ------------------------------------------------------------------
// The pending user message
// ------------------------------------------------------------------

/// A user message that has no completed turn yet.
#[derive(Debug)]
pub struct PendingUser {
    pub id: String,
    pub session_id: String,
    pub time_created: i64,
}

/// `x` clamped into `i64`.
pub open spec fn clamp_i64(x: int) -> int {
    if x < i64::MIN {
        i64::MIN as int
    } else if x > i64::MAX {
        i64::MAX as int
    } else {
        x
    }
}

/// Whether a user message row `(id, session, time)` is the pending one: not
/// answered by a completed turn, with a positive time and a session, and
/// either fresh (`now - time <= fresh_ms`, saturating) or in a session with
/// a live run (`corroborating`).
pub open spec fn pending_candidate(
    row: (String, String, Option<i64>),
    done: Seq<Seq<char>>,
    now_ms: i64,
    fresh_ms: i64,
    corroborating: Seq<Seq<char>>,
) -> bool {
    &&& !done.contains(row.0@)
    &&& row.2 is Some
    &&& row.2->0 > 0
    &&& row.1@.len() > 0
    &&& (clamp_i64(now_ms - row.2->0) <= fresh_ms || corroborating.contains(row.1@))
}

/// The pending user message among the newest user messages (`rows`, newest
/// first): the first candidate, if any.
pub fn pick_pending_user(
    rows: Vec<(String, String, Option<i64>)>,
    done_user_msg_ids: &Vec<String>,
    now_ms: i64,
    fresh_ms: i64,
    corroborating_sessions: &Vec<String>,
) -> (r: Option<PendingUser>)
    ensures
        ({
            let k = first_where(
                rows@,
                |row: (String, String, Option<i64>)|
                    pending_candidate(
                        row,
                        str_views(done_user_msg_ids@),
                        now_ms,
                        fresh_ms,
                        str_views(corroborating_sessions@),
                    ),
            );
            match r {
                Some(p) => k >= 0 && p.id == rows@[k].0 && p.session_id == rows@[k].1
                    && Some(p.time_created) == rows@[k].2,
                None => k < 0,
            }
        }),
{
    let ghost pred = |row: (String, String, Option<i64>)|
        pending_candidate(
            row,
            str_views(done_user_msg_ids@),
            now_ms,
            fresh_ms,
            str_views(corroborating_sessions@),
        );
    let ghost all = rows@;
    for row in it: rows.into_iter()
        invariant
            it.seq() == all,
            pred == (|row: (String, String, Option<i64>)|
                pending_candidate(
                    row,
                    str_views(done_user_msg_ids@),
                    now_ms,
                    fresh_ms,
                    str_views(corroborating_sessions@),
                )),
            forall|m: int| 0 <= m < it.index() ==> !pred(#[trigger] all[m]),
    {
        let ghost k = it.index() as int;
        assert(row == all[k]);
        let (id, session_id, tc) = row;
        if !contains_id(done_user_msg_ids, &id) {
            if let Some(t) = tc {
                let has_session = chars_of(session_id.as_str()).len() > 0;
                if t > 0 && has_session {
                    let fresh = if now_ms >= i64::MIN + t {
                        now_ms - t <= fresh_ms
                    } else {
                        i64::MIN <= fresh_ms
                    };
                    if fresh || contains_id(corroborating_sessions, &session_id) {
                        proof {
                            lemma_first_where_is(all, pred, k);
                        }
                        return Some(PendingUser { id, session_id, time_created: t });
                    }
                }
            }
        }
    }
    proof {
        lemma_first_where_is(all, pred, -1);
    }
    None
}

} // verus!
