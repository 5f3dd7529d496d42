//! Normalisation of pasted cookie credentials and browser-like request headers.
//!
//! A user may paste a bare cookie string (`name=value; name2=value2`, with an
//! optional leading `Cookie:` header name), a whole "Copy as cURL" command
//! (with `-H 'Cookie: ...'`, `--header`, `--cookie` or `-b` arguments, possibly
//! several of them), or either of these wrapped in quotes and whitespace.
//! `normalize_cookie_secret` turns all of them into a bare
//! `name=value; name2=value2` string, or the empty string when no cookie can
//! be found.
use crate::text::{
    contains_seq, first_index_of, first_ws_index, lead_ws, lemma_lead_ws_bound, lemma_trail_ws_bound,
    lower_seq, starts_with, trim, trim_start, trim_range, find_char, find_ws, range_eq_lower,
    chars_of, lower_chars, matches_at, contains_chars, first_where, lemma_first_where_range,
    is_ws, is_ascii_ws, lemma_first_index_of_range, lemma_first_ws_index_range, char_is_ws,
    char_is_ascii_ws, views, lemma_first_where_is, join, split_char, copy_range, chars_eq,
    join_chars, string_of, lemma_first_where_none, lemma_first_index_of_is, lemma_first_index_of_spec,
    lemma_lead_ws_is, lemma_trail_ws_is, trim_end, trail_ws,
};
use vstd::prelude::*;

verus! {

// ------------------------------------------------------------------
// Specification
// ------------------------------------------------------------------

pub open spec fn is_quote(c: char) -> bool {
    c == '\'' || c == '"'
}

pub proof fn lemma_trim_start_len(s: Seq<char>)
    ensures
        trim_start(s).len() == s.len() - lead_ws(s),
        lead_ws(s) <= s.len(),
{
    lemma_lead_ws_bound(s);
}

pub proof fn lemma_trim_len(s: Seq<char>)
    ensures
        trim(s).len() <= s.len(),
{
    lemma_lead_ws_bound(s);
    lemma_trail_ws_bound(trim_start(s));
}

/// One shell-style argument at the start of `s` (leading whitespace allowed):
/// a quoted argument runs to the matching quote (or the end), an unquoted one
/// to the first whitespace; `$'..'` and `$".."` drop the `$`.  The result is
/// the argument and the number of characters consumed.
pub open spec fn read_arg(s: Seq<char>) -> (Seq<char>, int)
    decreases s.len(),
{
    let t = trim_start(s);
    let prefix = s.len() - t.len();
    if t.len() == 0 {
        (Seq::empty(), s.len() as int)
    } else if t[0] == '$' {
        proof {
            lemma_trim_start_len(s);
        }
        let r = read_arg(t.drop_first());
        (r.0, prefix + 1 + r.1)
    } else if is_quote(t[0]) {
        let close = first_index_of(t.drop_first(), t[0]);
        if close >= 0 {
            (t.subrange(1, close + 1), prefix + close + 2)
        } else {
            (t.drop_first(), s.len() as int)
        }
    } else {
        let e = first_ws_index(t);
        let end = if e >= 0 {
            e
        } else {
            t.len() as int
        };
        (t.take(end), prefix + end)
    }
}

/// `Cookie: xxx` (header name compared without ASCII case) gives `xxx`,
/// trimmed; any other value gives `None`.
pub open spec fn strip_header_name(value: Seq<char>, name: Seq<char>) -> Option<Seq<char>> {
    let idx = first_index_of(value, ':');
    if idx < 0 {
        None
    } else if lower_seq(trim(value.take(idx))) == lower_seq(name) {
        Some(trim(value.skip(idx + 1)))
    } else {
        None
    }
}

/// Whether `t` is wrapped in a pair of equal quote characters.
pub open spec fn wrapped_in_quotes(t: Seq<char>) -> bool {
    t.len() >= 2 && ((t[0] == '\'' && t.last() == '\'') || (t[0] == '"' && t.last() == '"'))
}

/// Removes any number of outer pairs of quotes, trimming at each step.
pub open spec fn strip_wrapping_quotes(s: Seq<char>) -> Seq<char>
    decreases s.len(),
{
    let t = trim(s);
    if wrapped_in_quotes(t) {
        proof {
            lemma_trim_len(s);
        }
        strip_wrapping_quotes(t.subrange(1, t.len() - 1))
    } else {
        t
    }
}

/// Whether the text looks like a cURL command (ASCII case ignored).
pub open spec fn looks_like_curl(s: Seq<char>) -> bool {
    let l = lower_seq(s);
    ||| starts_with(l, "curl"@)
    ||| contains_seq(l, "--header"@)
    ||| contains_seq(l, "--cookie"@)
    ||| contains_seq(l, "-h "@)
    ||| contains_seq(l, "-b "@)
}

pub proof fn lemma_read_arg_bounds(s: Seq<char>)
    ensures
        0 <= read_arg(s).1 <= s.len(),
    decreases s.len(),
{
    let t = trim_start(s);
    lemma_trim_start_len(s);
    if t.len() > 0 {
        if t[0] == '$' {
            lemma_read_arg_bounds(t.drop_first());
        } else if is_quote(t[0]) {
            let close = first_index_of(t.drop_first(), t[0]);
            lemma_first_index_of_range(t.drop_first(), t[0]);
        } else {
            lemma_first_ws_index_range(t);
        }
    }
}

/// The flags of a cURL command that can carry a cookie, long ones first.
pub open spec fn curl_flags() -> Seq<Seq<char>> {
    seq!["--header"@, "--cookie"@, "-H"@, "-b"@]
}

/// `rest` starts with flag `f` followed by whitespace.
pub open spec fn flag_matches(rest: Seq<char>, f: Seq<char>) -> bool {
    starts_with(rest, f) && f.len() < rest.len() && is_ws(rest[f.len() as int])
}

/// Index in `curl_flags()` of the first flag that `rest` starts with, or -1.
pub open spec fn matched_flag(rest: Seq<char>) -> int {
    first_where(curl_flags(), |f: Seq<char>| flag_matches(rest, f))
}

/// A flag can only start at the beginning or after ASCII whitespace.
pub open spec fn at_boundary(t: Seq<char>, i: int) -> bool {
    i == 0 || is_ascii_ws(t[i - 1])
}

/// The cookie that the argument of flag number `k` carries: a header flag
/// needs a `Cookie:` header, a cookie flag is a cookie itself (a stray
/// `Cookie:` header name is tolerated).
pub open spec fn cookie_from_arg(k: int, value: Seq<char>) -> Option<Seq<char>> {
    let v = trim(value);
    let h = strip_header_name(v, "cookie"@);
    if k == 0 || k == 2 {
        h
    } else {
        Some(
            match h {
                Some(x) => x,
                None => v,
            },
        )
    }
}

pub proof fn lemma_flags_nonempty()
    ensures
        forall|k: int| 0 <= k < 4 ==> #[trigger] curl_flags()[k].len() >= 1,
        curl_flags().len() == 4,
{
    reveal_strlit("--header");
    reveal_strlit("--cookie");
    reveal_strlit("-H");
    reveal_strlit("-b");
}

/// The non-blank cookies of the cURL text `t`, scanning from index `i`.
pub open spec fn curl_cookies_from(t: Seq<char>, i: int) -> Seq<Seq<char>>
    decreases t.len() - i,
{
    if i < 0 || i >= t.len() {
        Seq::empty()
    } else {
        let k = matched_flag(t.skip(i));
        if !at_boundary(t, i) || k < 0 {
            curl_cookies_from(t, i + 1)
        } else {
            proof {
                lemma_first_where_range(
                    curl_flags(),
                    |f: Seq<char>| flag_matches(t.skip(i), f),
                );
                lemma_flags_nonempty();
            }
            let f = curl_flags()[k];
            let arg = read_arg(t.skip(i + f.len()));
            proof {
                lemma_read_arg_bounds(t.skip(i + f.len()));
            }
            let next = i + f.len() + arg.1;
            let rest = curl_cookies_from(t, next);
            match cookie_from_arg(k, arg.0) {
                Some(c) => if trim(c).len() > 0 {
                    seq![c] + rest
                } else {
                    rest
                },
                None => rest,
            }
        }
    }
}

/// Every cookie that the cURL scanner finds is non-blank.
pub proof fn lemma_curl_cookies_nonblank(t: Seq<char>, i: int)
    ensures
        forall|k: int|
            0 <= k < curl_cookies_from(t, i).len() ==> trim(
                #[trigger] curl_cookies_from(t, i)[k],
            ).len() > 0,
    decreases t.len() - i,
{
    if i < 0 || i >= t.len() {
        assert(curl_cookies_from(t, i).len() == 0);
    } else {
        let k = matched_flag(t.skip(i));
        if !at_boundary(t, i) || k < 0 {
            lemma_curl_cookies_nonblank(t, i + 1);
            assert(curl_cookies_from(t, i) == curl_cookies_from(t, i + 1));
        } else {
            lemma_first_where_range(curl_flags(), |f: Seq<char>| flag_matches(t.skip(i), f));
            lemma_flags_nonempty();
            let f = curl_flags()[k];
            let arg = read_arg(t.skip(i + f.len()));
            lemma_read_arg_bounds(t.skip(i + f.len()));
            let next = i + f.len() + arg.1;
            lemma_curl_cookies_nonblank(t, next);
            let rest = curl_cookies_from(t, next);
            match cookie_from_arg(k, arg.0) {
                Some(c) => if trim(c).len() > 0 {
                    assert(curl_cookies_from(t, i) == seq![c] + rest);
                    assert forall|m: int| 0 <= m < curl_cookies_from(t, i).len() implies trim(
                        #[trigger] curl_cookies_from(t, i)[m],
                    ).len() > 0 by {
                        if m > 0 {
                            assert(curl_cookies_from(t, i)[m] == rest[m - 1]);
                        }
                    }
                } else {
                    assert(curl_cookies_from(t, i) == rest);
                },
                None => {
                    assert(curl_cookies_from(t, i) == rest);
                },
            }
        }
    }
}

/// The cURL scanner reads flags only at the start of the text or after ASCII
/// whitespace: where no recognised flag stands at such a position from `i`
/// on, it finds no cookie.
pub proof fn lemma_curl_cookies_need_flag_at_word_start(t: Seq<char>, i: int)
    requires
        forall|j: int|
            i <= j < t.len() && at_boundary(t, j) ==> #[trigger] matched_flag(t.skip(j)) < 0,
    ensures
        curl_cookies_from(t, i).len() == 0,
    decreases t.len() - i,
{
    if i < 0 {
        assert(curl_cookies_from(t, i).len() == 0);
    } else if i >= t.len() {
    } else {
        if at_boundary(t, i) {
            assert(matched_flag(t.skip(i)) < 0);
        }
        lemma_curl_cookies_need_flag_at_word_start(t, i + 1);
    }
}

/// The name of a cookie pair: the trimmed text before the first `=`.
pub open spec fn pair_name(p: Seq<char>) -> Seq<char> {
    let e = first_index_of(p, '=');
    trim(
        if e >= 0 {
            p.take(e)
        } else {
            p
        },
    )
}

/// A trimmed segment is kept only when it holds `=` after a non-empty name.
pub open spec fn pair_ok(p: Seq<char>) -> bool {
    first_index_of(p, '=') >= 0 && pair_name(p).len() > 0
}

/// Position of the pair named `n` in `acc`, or -1.
pub open spec fn name_index(acc: Seq<Seq<char>>, n: Seq<char>) -> int {
    first_where(acc, |q: Seq<char>| pair_name(q) == n)
}

/// Adds one `;`-segment: a later pair replaces an earlier one of the same
/// name in place; a new name goes to the end.
pub open spec fn add_pair(acc: Seq<Seq<char>>, part: Seq<char>) -> Seq<Seq<char>> {
    let p = trim(part);
    if !pair_ok(p) {
        acc
    } else {
        let j = name_index(acc, pair_name(p));
        if j >= 0 {
            acc.update(j, p)
        } else {
            acc.push(p)
        }
    }
}

/// Adds the segments `parts` in order.
pub open spec fn fold_pairs(acc: Seq<Seq<char>>, parts: Seq<Seq<char>>) -> Seq<Seq<char>>
    decreases parts.len(),
{
    if parts.len() == 0 {
        acc
    } else {
        fold_pairs(add_pair(acc, parts[0]), parts.drop_first())
    }
}

/// The pairs of a raw cookie text, deduplicated by name.
pub open spec fn cookie_pairs(raw: Seq<char>) -> Seq<Seq<char>> {
    fold_pairs(Seq::empty(), split_char(raw, ';'))
}

/// `name=value; name2=value2` form of a raw cookie text.
pub open spec fn normalize_pairs(raw: Seq<char>) -> Seq<char> {
    join(cookie_pairs(raw), "; "@)
}

/// What `normalize_cookie_secret` makes of a pasted text: the cookies of a
/// cURL command, nothing for a cURL command without cookies, or else the text
/// itself with wrapping quotes and a `Cookie:` header name removed; in every
/// case deduplicated into `name=value; name2=value2` form.
pub open spec fn normalized_cookie(s: Seq<char>) -> Seq<char> {
    let t = trim(s);
    if t.len() == 0 {
        Seq::empty()
    } else {
        let cs = curl_cookies_from(t, 0);
        if cs.len() > 0 {
            normalize_pairs(join(cs, "; "@))
        } else if looks_like_curl(t) {
            Seq::empty()
        } else {
            let bare = strip_wrapping_quotes(t);
            normalize_pairs(
                match strip_header_name(bare, "cookie"@) {
                    Some(x) => x,
                    None => bare,
                },
            )
        }
    }
}

/// Every kept pair holds `=` after a non-empty name, and no two kept pairs
/// share a name.
pub open spec fn pairs_wf(ps: Seq<Seq<char>>) -> bool {
    &&& forall|i: int| 0 <= i < ps.len() ==> pair_ok(#[trigger] ps[i])
    &&& forall|i: int, j: int|
        0 <= i < j < ps.len() ==> pair_name(#[trigger] ps[i]) != pair_name(#[trigger] ps[j])
}

proof fn lemma_add_pair_wf(acc: Seq<Seq<char>>, part: Seq<char>)
    requires
        pairs_wf(acc),
    ensures
        pairs_wf(add_pair(acc, part)),
{
    let p = trim(part);
    if pair_ok(p) {
        let n = pair_name(p);
        let pred = |q: Seq<char>| pair_name(q) == n;
        lemma_first_where_range(acc, pred);
        lemma_first_where_none(acc, pred);
        let j = name_index(acc, n);
        let r = add_pair(acc, part);
        if j >= 0 {
            assert(pair_name(acc[j]) == n);
            assert forall|a: int, b: int| 0 <= a < b < r.len() implies pair_name(#[trigger] r[a])
                != pair_name(#[trigger] r[b]) by {
                if a != j && b != j {
                    assert(r[a] == acc[a] && r[b] == acc[b]);
                } else if a == j {
                    assert(r[b] == acc[b]);
                    assert(pair_name(acc[a]) != pair_name(acc[b]));
                } else {
                    assert(r[a] == acc[a]);
                    assert(pair_name(acc[a]) != pair_name(acc[b]));
                }
            }
        } else {
            assert forall|a: int, b: int| 0 <= a < b < r.len() implies pair_name(#[trigger] r[a])
                != pair_name(#[trigger] r[b]) by {
                if b == acc.len() {
                    assert(r[a] == acc[a]);
                    assert(!pred(acc[a]));
                } else {
                    assert(r[a] == acc[a] && r[b] == acc[b]);
                }
            }
        }
    }
}

proof fn lemma_fold_pairs_wf(acc: Seq<Seq<char>>, parts: Seq<Seq<char>>)
    requires
        pairs_wf(acc),
    ensures
        pairs_wf(fold_pairs(acc, parts)),
    decreases parts.len(),
{
    if parts.len() > 0 {
        lemma_add_pair_wf(acc, parts[0]);
        lemma_fold_pairs_wf(add_pair(acc, parts[0]), parts.drop_first());
    }
}

/// The pairs of any cookie text are well formed: each holds `=` after a
/// non-empty name, and no name occurs twice (a later pair replaced an
/// earlier one of the same name).
pub proof fn lemma_cookie_pairs_wf(raw: Seq<char>)
    ensures
        pairs_wf(cookie_pairs(raw)),
{
    lemma_fold_pairs_wf(Seq::empty(), split_char(raw, ';'));
}

/// Segment `q` gives a pair named `n`.
pub open spec fn seg_named(q: Seq<char>, n: Seq<char>) -> bool {
    pair_ok(trim(q)) && pair_name(trim(q)) == n
}

pub open spec fn named(n: Seq<char>) -> spec_fn(Seq<char>) -> bool {
    |q: Seq<char>| seg_named(q, n)
}

/// Position of the first segment that gives a pair named `n`, or -1.
pub open spec fn first_seg(parts: Seq<Seq<char>>, n: Seq<char>) -> int {
    first_where(parts, named(n))
}

/// Position of the last segment that gives a pair named `n`, or -1.
pub open spec fn last_seg(parts: Seq<Seq<char>>, n: Seq<char>) -> int
    decreases parts.len(),
{
    if parts.len() == 0 {
        -1
    } else if seg_named(parts.last(), n) {
        parts.len() - 1
    } else {
        last_seg(parts.drop_last(), n)
    }
}

proof fn lemma_last_seg_range(parts: Seq<Seq<char>>, n: Seq<char>)
    ensures
        -1 <= last_seg(parts, n) < parts.len(),
        last_seg(parts, n) >= 0 ==> seg_named(parts[last_seg(parts, n)], n),
    decreases parts.len(),
{
    if parts.len() > 0 && !seg_named(parts.last(), n) {
        lemma_last_seg_range(parts.drop_last(), n);
    }
}

proof fn lemma_first_where_push<A>(s: Seq<A>, x: A, pred: spec_fn(A) -> bool)
    ensures
        first_where(s.push(x), pred) == if first_where(s, pred) >= 0 {
            first_where(s, pred)
        } else if pred(x) {
            s.len() as int
        } else {
            -1
        },
{
    let t = s.push(x);
    lemma_first_where_range(s, pred);
    lemma_first_where_none(s, pred);
    let k = first_where(s, pred);
    if k >= 0 {
        crate::text::lemma_first_where_before(s, pred);
        assert forall|m: int| 0 <= m < k implies !pred(#[trigger] t[m]) by {
            assert(t[m] == s[m]);
        }
        lemma_first_where_is(t, pred, k);
    } else if pred(x) {
        assert forall|m: int| 0 <= m < s.len() implies !pred(#[trigger] t[m]) by {
            assert(t[m] == s[m]);
        }
        lemma_first_where_is(t, pred, s.len() as int);
    } else {
        assert forall|m: int| 0 <= m < t.len() implies !pred(#[trigger] t[m]) by {
            if m < s.len() {
                assert(t[m] == s[m]);
            }
        }
        lemma_first_where_is(t, pred, -1);
    }
}

proof fn lemma_fold_pairs_snoc(acc: Seq<Seq<char>>, parts: Seq<Seq<char>>)
    requires
        parts.len() > 0,
    ensures
        fold_pairs(acc, parts) == add_pair(fold_pairs(acc, parts.drop_last()), parts.last()),
    decreases parts.len(),
{
    let a1 = add_pair(acc, parts[0]);
    assert(fold_pairs(acc, parts) == fold_pairs(a1, parts.drop_first()));
    if parts.len() == 1 {
        assert(parts.drop_first().len() == 0);
        assert(parts.drop_last().len() == 0);
        assert(fold_pairs(a1, parts.drop_first()) == a1);
        assert(fold_pairs(acc, parts.drop_last()) == acc);
        assert(parts.last() == parts[0]);
    } else {
        lemma_fold_pairs_snoc(a1, parts.drop_first());
        assert(parts.drop_first().drop_last() =~= parts.drop_last().drop_first());
        assert(parts.drop_last()[0] == parts[0]);
        assert(fold_pairs(acc, parts.drop_last()) == fold_pairs(
            add_pair(acc, parts.drop_last()[0]),
            parts.drop_last().drop_first(),
        ));
        assert(parts.drop_first().last() == parts.last());
    }
}

/// Deduplicating cookie pairs keeps each name at the position of its first
/// segment and gives it the value of its last one: every pair is the last
/// segment of its name, trimmed; every name that some segment gives has a
/// pair; and the pairs come in the order of their names' first segments.
pub proof fn lemma_fold_pairs_first_position_last_value(parts: Seq<Seq<char>>)
    ensures
        forall|j: int|
            0 <= j < fold_pairs(Seq::empty(), parts).len() ==> {
                let p = #[trigger] fold_pairs(Seq::empty(), parts)[j];
                &&& last_seg(parts, pair_name(p)) >= 0
                &&& p == trim(parts[last_seg(parts, pair_name(p))])
            },
        forall|m: int|
            0 <= m < parts.len() && pair_ok(trim(#[trigger] parts[m])) ==> name_index(
                fold_pairs(Seq::empty(), parts),
                pair_name(trim(parts[m])),
            ) >= 0,
        forall|a: int, b: int|
            0 <= a < b < fold_pairs(Seq::empty(), parts).len() ==> first_seg(
                parts,
                pair_name(#[trigger] fold_pairs(Seq::empty(), parts)[a]),
            ) < first_seg(parts, pair_name(#[trigger] fold_pairs(Seq::empty(), parts)[b])),
    decreases parts.len(),
{
    let out2 = fold_pairs(Seq::empty(), parts);
    if parts.len() == 0 {
        assert(out2.len() == 0);
    } else {
        let prev = parts.drop_last();
        let x = parts.last();
        lemma_fold_pairs_first_position_last_value(prev);
        lemma_fold_pairs_snoc(Seq::empty(), parts);
        lemma_fold_pairs_wf(Seq::empty(), prev);
        assert(parts =~= prev.push(x));
        let out = fold_pairs(Seq::empty(), prev);
        assert(out2 == add_pair(out, x));
        let px = trim(x);
        let nx = pair_name(px);
        let predx = |q: Seq<char>| pair_name(q) == nx;
        lemma_first_where_range(out, predx);
        lemma_first_where_none(out, predx);
        let jx = name_index(out, nx);
        // names of `out` all come from segments of `prev`
        assert forall|j: int| 0 <= j < out.len() implies first_seg(prev, pair_name(#[trigger] out[j]))
            >= 0 && first_seg(prev, pair_name(out[j])) < prev.len() by {
            let n = pair_name(out[j]);
            lemma_last_seg_range(prev, n);
            lemma_first_where_range(prev, named(n));
            lemma_first_where_none(prev, named(n));
            assert(named(n)(prev[last_seg(prev, n)]));
        }
        assert forall|n: Seq<char>| first_seg(prev, n) >= 0 implies #[trigger] first_seg(parts, n)
            == first_seg(prev, n) by {
            lemma_first_where_push(prev, x, named(n));
        }
        // (a) every pair is the last segment of its name
        assert forall|j: int| 0 <= j < out2.len() implies {
            let p = #[trigger] out2[j];
            &&& last_seg(parts, pair_name(p)) >= 0
            &&& p == trim(parts[last_seg(parts, pair_name(p))])
        } by {
            if !pair_ok(px) {
                assert(out2[j] == out[j]);
                assert(!seg_named(x, pair_name(out[j])));
                assert(parts[last_seg(prev, pair_name(out[j]))] == prev[last_seg(prev, pair_name(out[j]))]) by {
                    lemma_last_seg_range(prev, pair_name(out[j]));
                }
            } else if jx >= 0 {
                if j == jx {
                    assert(out2[j] == px);
                } else {
                    assert(out2[j] == out[j]);
                    assert(pair_name(out[jx]) == nx);
                    assert(pair_name(out[j]) != nx);
                    lemma_last_seg_range(prev, pair_name(out[j]));
                }
            } else {
                if j == out.len() {
                    assert(out2[j] == px);
                } else {
                    assert(out2[j] == out[j]);
                    assert(!predx(out[j]));
                    lemma_last_seg_range(prev, pair_name(out[j]));
                }
            }
        }
        // (b) every name given by a segment has a pair
        assert forall|m: int| 0 <= m < parts.len() && pair_ok(trim(#[trigger] parts[m])) implies name_index(
            out2,
            pair_name(trim(parts[m])),
        ) >= 0 by {
            let n = pair_name(trim(parts[m]));
            let pn = |q: Seq<char>| pair_name(q) == n;
            lemma_first_where_range(out2, pn);
            lemma_first_where_none(out2, pn);
            if m == parts.len() - 1 {
                if jx >= 0 {
                    assert(pn(out2[jx]));
                } else {
                    assert(pn(out2[out.len() as int]));
                }
            } else {
                assert(parts[m] == prev[m]);
                lemma_first_where_range(out, pn);
                let k = name_index(out, n);
                assert(pn(out[k]));
                if pair_ok(px) && jx >= 0 && k == jx {
                    assert(pn(out2[k]));
                } else {
                    assert(out2[k] == out[k]);
                }
            }
        }
        // (c) pairs in the order of their names' first segments
        assert forall|a: int, b: int| 0 <= a < b < out2.len() implies first_seg(
            parts,
            pair_name(#[trigger] out2[a]),
        ) < first_seg(parts, pair_name(#[trigger] out2[b])) by {
            if !pair_ok(px) || jx >= 0 {
                let na = pair_name(out[a]);
                let nb = pair_name(out[b]);
                assert(first_seg(parts, na) == first_seg(prev, na));
                assert(first_seg(parts, nb) == first_seg(prev, nb));
                if pair_ok(px) && a == jx {
                    assert(pair_name(out2[a]) == na);
                } else {
                    assert(out2[a] == out[a]);
                }
                if pair_ok(px) && b == jx {
                    assert(pair_name(out2[b]) == nb);
                } else {
                    assert(out2[b] == out[b]);
                }
            } else {
                let na = pair_name(out[a]);
                assert(out2[a] == out[a]);
                assert(first_seg(parts, na) == first_seg(prev, na));
                if b < out.len() {
                    let nb = pair_name(out[b]);
                    assert(out2[b] == out[b]);
                    assert(first_seg(parts, nb) == first_seg(prev, nb));
                } else {
                    assert(out2[b] == px);
                    lemma_first_where_range(prev, named(nx));
                    lemma_first_where_none(prev, named(nx));
                    if first_seg(prev, nx) >= 0 {
                        let m = first_seg(prev, nx);
                        assert(named(nx)(prev[m]));
                        assert(parts[m] == prev[m]);
                        assert(pair_ok(trim(parts[m])));
                        let k = name_index(out, nx);
                        assert(false);
                    }
                    lemma_first_where_push(prev, x, named(nx));
                    assert(named(nx)(x));
                    assert(first_seg(parts, nx) == prev.len());
                }
            }
        }
    }
}

// ------------------------------------------------------------------
// Normal form is a fixed point
// ------------------------------------------------------------------

/// No leading or trailing whitespace.
pub open spec fn trimmed(p: Seq<char>) -> bool {
    p.len() == 0 || (!is_ws(p[0]) && !is_ws(p.last()))
}

proof fn lemma_trim_is_trimmed(x: Seq<char>)
    ensures
        trimmed(trim(x)),
        trim(x).len() > 0 ==> trim(x) == x.subrange(
            lead_ws(x) as int,
            x.len() - trail_ws(trim_start(x)),
        ),
{
    let a = trim_start(x);
    lemma_lead_ws_bound(x);
    lemma_trail_ws_bound(a);
    lemma_lead_ws_facts(x);
    lemma_trail_ws_facts(a);
    let t = trim(x);
    if t.len() > 0 {
        assert(t[0] == a[0]);
        assert(t.last() == a[a.len() - trail_ws(a) - 1]);
        assert(t =~= x.subrange(lead_ws(x) as int, x.len() - trail_ws(a)));
    }
}

proof fn lemma_lead_ws_facts(s: Seq<char>)
    ensures
        lead_ws(s) <= s.len(),
        lead_ws(s) < s.len() ==> !is_ws(s[lead_ws(s) as int]),
    decreases s.len(),
{
    if s.len() > 0 && is_ws(s[0]) {
        lemma_lead_ws_facts(s.drop_first());
        if lead_ws(s) < s.len() {
            assert(s[lead_ws(s) as int] == s.drop_first()[lead_ws(s.drop_first()) as int]);
        }
    }
}

proof fn lemma_trail_ws_facts(s: Seq<char>)
    ensures
        trail_ws(s) <= s.len(),
        trail_ws(s) < s.len() ==> !is_ws(s[s.len() - 1 - trail_ws(s)]),
    decreases s.len(),
{
    if s.len() > 0 && is_ws(s.last()) {
        lemma_trail_ws_facts(s.drop_last());
        if trail_ws(s) < s.len() {
            assert(s[s.len() - 1 - trail_ws(s)] == s.drop_last()[s.drop_last().len() - 1
                - trail_ws(s.drop_last())]);
        }
    }
}

proof fn lemma_trim_of_trimmed(p: Seq<char>)
    requires
        trimmed(p),
    ensures
        trim(p) == p,
{
    lemma_lead_ws_is(p, 0);
    assert(trim_start(p) =~= p);
    if p.len() > 0 {
        lemma_trail_ws_is(p, 0);
    } else {
        lemma_trail_ws_is(p, 0);
    }
    assert(trim_end(p) =~= p);
}

proof fn lemma_trim_space_prefix(p: Seq<char>)
    requires
        trimmed(p),
        p.len() > 0,
    ensures
        trim(seq![' '] + p) == p,
{
    let q = seq![' '] + p;
    assert forall|i: int| 0 <= i < 1 implies is_ws(#[trigger] q[i]) by {}
    assert(q[1] == p[0]);
    lemma_lead_ws_is(q, 1);
    assert(trim_start(q) =~= p);
    lemma_trim_of_trimmed(p);
}

/// `split_char(a + [c] + b)` when `a` holds no `c`.
proof fn lemma_split_head(a: Seq<char>, b: Seq<char>, c: char)
    requires
        !a.contains(c),
    ensures
        split_char(a + seq![c] + b, c) == seq![a] + split_char(b, c),
{
    let s = a + seq![c] + b;
    assert forall|m: int| 0 <= m < a.len() implies #[trigger] s[m] != c by {
        assert(s[m] == a[m]);
        if a[m] == c {
            assert(a.contains(c));
        }
    }
    assert(s[a.len() as int] == c);
    lemma_first_index_of_is(s, c, a.len() as int);
    assert(s.take(a.len() as int) =~= a);
    assert(s.skip(a.len() as int + 1) =~= b);
}

proof fn lemma_split_none(a: Seq<char>, c: char)
    requires
        !a.contains(c),
    ensures
        split_char(a, c) == seq![a],
{
    assert forall|m: int| 0 <= m < a.len() implies #[trigger] a[m] != c by {
        if a[m] == c {
            assert(a.contains(c));
        }
    }
    lemma_first_index_of_is(a, c, -1);
}

/// The segments of `q + join(ps, "; ")`: the first pair behind `q`, every
/// other pair behind one space.
proof fn lemma_split_join(q: Seq<char>, ps: Seq<Seq<char>>)
    requires
        ps.len() > 0,
        !q.contains(';'),
        forall|i: int| 0 <= i < ps.len() ==> !(#[trigger] ps[i]).contains(';'),
    ensures
        split_char(q + join(ps, "; "@), ';') == seq![q + ps[0]] + ps.drop_first().map_values(
            |p: Seq<char>| seq![' '] + p,
        ),
    decreases ps.len(),
{
    reveal_strlit("; ");
    let qp = q + ps[0];
    assert(!qp.contains(';')) by {
        if qp.contains(';') {
            let k = choose|k: int| 0 <= k < qp.len() && qp[k] == ';';
            if k < q.len() {
                assert(q[k] == ';');
                assert(q.contains(';'));
            } else {
                assert(ps[0][k - q.len()] == ';');
                assert(ps[0].contains(';'));
            }
        }
    }
    if ps.len() == 1 {
        assert(join(ps, "; "@) == ps[0]);
        lemma_split_none(qp, ';');
        assert(ps.drop_first().map_values(|p: Seq<char>| seq![' '] + p) =~= Seq::<Seq<char>>::empty());
        assert(q + join(ps, "; "@) =~= qp);
    } else {
        let rest = ps.drop_first();
        assert forall|i: int| 0 <= i < rest.len() implies !(#[trigger] rest[i]).contains(';') by {
            assert(rest[i] == ps[i + 1]);
        }
        assert(!seq![' '].contains(';')) by {
            if seq![' '].contains(';') {
                let k = choose|k: int| 0 <= k < 1 && seq![' '][k] == ';';
            }
        }
        lemma_split_join(seq![' '], rest);
        assert(q + join(ps, "; "@) =~= qp + seq![';'] + (seq![' '] + join(rest, "; "@)));
        lemma_split_head(qp, seq![' '] + join(rest, "; "@), ';');
        assert(seq![seq![' '] + rest[0]] + rest.drop_first().map_values(|p: Seq<char>| seq![' '] + p)
            =~= rest.map_values(|p: Seq<char>| seq![' '] + p));
    }
}

/// A normal form: well-formed, trimmed pairs without `;`.
pub open spec fn normal_pairs(ps: Seq<Seq<char>>) -> bool {
    &&& pairs_wf(ps)
    &&& forall|i: int| 0 <= i < ps.len() ==> trimmed(#[trigger] ps[i]) && !ps[i].contains(';')
}

proof fn lemma_fold_normal(ps: Seq<Seq<char>>, k: int)
    requires
        normal_pairs(ps),
        1 <= k <= ps.len(),
    ensures
        fold_pairs(ps.take(k), ps.skip(k).map_values(|p: Seq<char>| seq![' '] + p)) == ps,
    decreases ps.len() - k,
{
    let segs = ps.skip(k).map_values(|p: Seq<char>| seq![' '] + p);
    if k == ps.len() {
        assert(segs =~= Seq::<Seq<char>>::empty());
        assert(ps.take(k) =~= ps);
    } else {
        let acc = ps.take(k);
        let p = ps[k];
        assert(segs[0] == seq![' '] + p);
        assert(pair_ok(p));
        lemma_trim_space_prefix(p);
        let n = pair_name(p);
        let pred = |q: Seq<char>| pair_name(q) == n;
        assert forall|m: int| 0 <= m < acc.len() implies !pred(#[trigger] acc[m]) by {
            assert(acc[m] == ps[m]);
            assert(pair_name(ps[m]) != pair_name(ps[k]));
        }
        lemma_first_where_is(acc, pred, -1);
        assert(add_pair(acc, segs[0]) =~= ps.take(k + 1));
        assert(segs.drop_first() =~= ps.skip(k + 1).map_values(|p: Seq<char>| seq![' '] + p));
        lemma_fold_normal(ps, k + 1);
    }
}

/// Pairs in normal form come back unchanged from their own text.
pub proof fn lemma_cookie_pairs_of_normal(ps: Seq<Seq<char>>)
    requires
        normal_pairs(ps),
    ensures
        cookie_pairs(join(ps, "; "@)) == ps,
{
    if ps.len() == 0 {
        assert(join(ps, "; "@) == Seq::<char>::empty());
        lemma_split_none(Seq::<char>::empty(), ';');
        assert(trim(Seq::<char>::empty()) =~= Seq::<char>::empty()) by {
            lemma_trim_of_trimmed(Seq::<char>::empty());
        }
        assert(!pair_ok(Seq::<char>::empty())) by {
            lemma_first_index_of_is(Seq::<char>::empty(), '=', -1);
        }
        assert(seq![Seq::<char>::empty()].drop_first() =~= Seq::<Seq<char>>::empty());
        let e = Seq::<Seq<char>>::empty();
        assert(add_pair(e, Seq::<char>::empty()) == e);
        assert(fold_pairs(e, seq![Seq::<char>::empty()]) == fold_pairs(
            add_pair(e, Seq::<char>::empty()),
            e,
        ));
        assert(join(e, "; "@) == Seq::<char>::empty());
        assert(ps =~= e);
    } else {
        assert(!Seq::<char>::empty().contains(';'));
        lemma_split_join(Seq::empty(), ps);
        assert(Seq::<char>::empty() + join(ps, "; "@) =~= join(ps, "; "@));
        assert(Seq::<char>::empty() + ps[0] =~= ps[0]);
        let segs = seq![ps[0]] + ps.drop_first().map_values(|p: Seq<char>| seq![' '] + p);
        lemma_trim_of_trimmed(ps[0]);
        assert(add_pair(Seq::empty(), ps[0]) =~= ps.take(1)) by {
            lemma_first_where_is(Seq::<Seq<char>>::empty(), |q: Seq<char>| pair_name(q) == pair_name(ps[0]), -1);
        }
        assert(segs.drop_first() =~= ps.skip(1).map_values(|p: Seq<char>| seq![' '] + p));
        lemma_fold_normal(ps, 1);
        assert(segs[0] == ps[0]);
        assert(fold_pairs(Seq::empty(), segs) == fold_pairs(
            add_pair(Seq::empty(), segs[0]),
            segs.drop_first(),
        ));
    }
}

/// Every pair that `add_pair` keeps is trimmed and free of `;` when the
/// segments are.
proof fn lemma_fold_normal_form(acc: Seq<Seq<char>>, parts: Seq<Seq<char>>)
    requires
        normal_pairs(acc),
        forall|i: int| 0 <= i < parts.len() ==> !(#[trigger] parts[i]).contains(';'),
    ensures
        normal_pairs(fold_pairs(acc, parts)),
    decreases parts.len(),
{
    if parts.len() > 0 {
        let part = parts[0];
        let p = trim(part);
        lemma_add_pair_wf(acc, part);
        lemma_trim_is_trimmed(part);
        assert(!p.contains(';')) by {
            if p.contains(';') {
                let k = choose|k: int| 0 <= k < p.len() && p[k] == ';';
                let off = lead_ws(part) as int;
                let hi = part.len() - trail_ws(trim_start(part));
                assert(p.len() > 0);
                lemma_lead_ws_bound(part);
                lemma_trail_ws_bound(trim_start(part));
                assert(off <= hi <= part.len());
                assert(p == part.subrange(off, hi));
                assert(p[k] == part[off + k]);
                assert(0 <= off + k < part.len());
                assert(part[off + k] == ';');
                assert(part.contains(';'));
            }
        }
        let r = add_pair(acc, part);
        lemma_first_where_range(acc, |q: Seq<char>| pair_name(q) == pair_name(p));
        assert forall|i: int| 0 <= i < r.len() implies trimmed(#[trigger] r[i]) && !r[i].contains(';') by {
            if i < acc.len() && r[i] == acc[i] {
            } else {
                assert(r[i] == p);
            }
        }
        let rest = parts.drop_first();
        assert forall|i: int| 0 <= i < rest.len() implies !(#[trigger] rest[i]).contains(';') by {
            assert(rest[i] == parts[i + 1]);
        }
        lemma_fold_normal_form(r, rest);
    }
}

proof fn lemma_split_has_no_sep(s: Seq<char>, c: char)
    ensures
        forall|i: int| 0 <= i < split_char(s, c).len() ==> !(#[trigger] split_char(s, c)[i]).contains(c),
    decreases s.len(),
{
    let i0 = first_index_of(s, c);
    lemma_first_index_of_spec(s, c);
    if 0 <= i0 < s.len() {
        lemma_split_has_no_sep(s.skip(i0 + 1), c);
        let head = s.take(i0);
        assert(!head.contains(c)) by {
            if head.contains(c) {
                let k = choose|k: int| 0 <= k < head.len() && head[k] == c;
                assert(s[k] == c);
            }
        }
        let r = split_char(s, c);
        let t = split_char(s.skip(i0 + 1), c);
        assert forall|i: int| 0 <= i < r.len() implies !(#[trigger] r[i]).contains(c) by {
            if i > 0 {
                assert(r[i] == t[i - 1]);
            }
        }
    } else {
        assert(!s.contains(c)) by {
            if s.contains(c) {
                let k = choose|k: int| 0 <= k < s.len() && s[k] == c;
            }
        }
    }
}

/// The pairs of a cookie text are in normal form.
pub proof fn lemma_cookie_pairs_normal(raw: Seq<char>)
    ensures
        normal_pairs(cookie_pairs(raw)),
{
    lemma_split_has_no_sep(raw, ';');
    lemma_fold_normal_form(Seq::empty(), split_char(raw, ';'));
}

/// Normalising pairs twice gives what normalising once gives.
pub proof fn lemma_normalize_pairs_idempotent(raw: Seq<char>)
    ensures
        normalize_pairs(normalize_pairs(raw)) == normalize_pairs(raw),
{
    lemma_cookie_pairs_normal(raw);
    lemma_cookie_pairs_of_normal(cookie_pairs(raw));
}

proof fn lemma_join_ends(ps: Seq<Seq<char>>, sep: Seq<char>)
    requires
        ps.len() > 0,
        forall|i: int| 0 <= i < ps.len() ==> (#[trigger] ps[i]).len() > 0,
    ensures
        join(ps, sep).len() > 0,
        join(ps, sep)[0] == ps[0][0],
        join(ps, sep).last() == ps.last().last(),
    decreases ps.len(),
{
    if ps.len() > 1 {
        let rest = ps.drop_first();
        assert forall|i: int| 0 <= i < rest.len() implies (#[trigger] rest[i]).len() > 0 by {
            assert(rest[i] == ps[i + 1]);
        }
        lemma_join_ends(rest, sep);
        assert(rest.last() == ps.last());
        let j = join(ps, sep);
        assert(j == ps[0] + sep + join(rest, sep));
        assert(j[0] == ps[0][0]);
        assert(j.last() == join(rest, sep).last());
    }
}

/// A normalised cookie text has no surrounding whitespace.
proof fn lemma_normalize_pairs_trimmed(raw: Seq<char>)
    ensures
        trim(normalize_pairs(raw)) == normalize_pairs(raw),
{
    let ps = cookie_pairs(raw);
    lemma_cookie_pairs_normal(raw);
    reveal_strlit("; ");
    if ps.len() > 0 {
        assert forall|i: int| 0 <= i < ps.len() implies (#[trigger] ps[i]).len() > 0 by {
            assert(pair_ok(ps[i]));
            lemma_first_index_of_range(ps[i], '=');
        }
        lemma_join_ends(ps, "; "@);
        assert(trimmed(ps[0]) && trimmed(ps.last()));
        assert(trimmed(normalize_pairs(raw)));
    } else {
        assert(normalize_pairs(raw) =~= Seq::<char>::empty());
    }
    lemma_trim_of_trimmed(normalize_pairs(raw));
}

/// Normalising a cookie text twice gives what normalising once gives,
/// unless the normalised text would itself be read differently: as a cURL
/// command (a flag or a `curl` start), as a quoted text, or as a `Cookie:`
/// header line.
pub proof fn lemma_normalized_cookie_idempotent(raw: Seq<char>)
    requires
        curl_cookies_from(normalized_cookie(raw), 0).len() == 0,
        !looks_like_curl(normalized_cookie(raw)),
        !wrapped_in_quotes(normalized_cookie(raw)),
        strip_header_name(normalized_cookie(raw), "cookie"@) is None,
    ensures
        normalized_cookie(normalized_cookie(raw)) == normalized_cookie(raw),
{
    let out = normalized_cookie(raw);
    let t = trim(raw);
    if t.len() == 0 {
        assert(out =~= Seq::<char>::empty());
        assert(trim(out) =~= Seq::<char>::empty());
    } else {
        let y = if curl_cookies_from(t, 0).len() > 0 {
            join(curl_cookies_from(t, 0), "; "@)
        } else {
            let bare = strip_wrapping_quotes(t);
            match strip_header_name(bare, "cookie"@) {
                Some(x) => x,
                None => bare,
            }
        };
        if curl_cookies_from(t, 0).len() == 0 && looks_like_curl(t) {
            assert(out =~= Seq::<char>::empty());
            assert(trim(out) =~= Seq::<char>::empty());
        } else {
            assert(out == normalize_pairs(y));
            lemma_normalize_pairs_trimmed(y);
            lemma_normalize_pairs_idempotent(y);
            assert(trim(out) == out);
            if out.len() > 0 {
                assert(strip_wrapping_quotes(out) == out);
            }
        }
    }
}

// ------------------------------------------------------------------
// Scanning helpers over character ranges
// ------------------------------------------------------------------

/// `read_arg` on `v[lo..hi]`: the argument as the range `v[a..b]`, and the
/// number of characters consumed.
fn read_arg_range(v: &Vec<char>, lo: usize, hi: usize) -> (r: (usize, usize, usize))
    requires
        lo <= hi <= v.len(),
    ensures
        lo <= r.0 <= r.1 <= hi,
        r.2 <= hi - lo,
        read_arg(v@.subrange(lo as int, hi as int)) == (
            v@.subrange(r.0 as int, r.1 as int),
            r.2 as int,
        ),
    decreases hi - lo,
{
    let ghost s = v@.subrange(lo as int, hi as int);
    let (ta, _tb) = trim_range(v, lo, hi);
    let ghost t = v@.subrange(ta as int, hi as int);
    assert(trim_start(s) == t);
    if ta == hi {
        assert(v@.subrange(hi as int, hi as int) =~= Seq::<char>::empty());
        return (hi, hi, hi - lo);
    }
    let first = v[ta];
    assert(t[0] == first);
    if first == '$' {
        let (a, b, c) = read_arg_range(v, ta + 1, hi);
        assert(t.drop_first() =~= v@.subrange(ta + 1, hi as int));
        return (a, b, (ta - lo) + 1 + c);
    }
    if first == '\'' || first == '"' {
        assert(t.drop_first() =~= v@.subrange(ta + 1, hi as int));
        match find_char(v, ta + 1, hi, first) {
            Some(j) => {
                assert(t.subrange(1, j - ta) =~= v@.subrange(ta + 1, j as int));
                return (ta + 1, j, j - lo + 1);
            },
            None => {
                return (ta + 1, hi, hi - lo);
            },
        }
    }
    match find_ws(v, ta, hi) {
        Some(e) => {
            assert(t.take(e - ta) =~= v@.subrange(ta as int, e as int));
            (ta, e, e - lo)
        },
        None => {
            assert(t.take(t.len() as int) =~= t);
            (ta, hi, hi - lo)
        },
    }
}

/// `strip_header_name` on `v[lo..hi]` with an already lower-cased name; the
/// header value comes back as a range of `v`.
fn strip_header_range(v: &Vec<char>, lo: usize, hi: usize, lname: &Vec<char>) -> (r: Option<
    (usize, usize),
>)
    requires
        lo <= hi <= v.len(),
        lower_seq(lname@) == lname@,
    ensures
        match r {
            Some((a, b)) => lo <= a <= b <= hi && strip_header_name(
                v@.subrange(lo as int, hi as int),
                lname@,
            ) == Some(v@.subrange(a as int, b as int)),
            None => strip_header_name(v@.subrange(lo as int, hi as int), lname@) is None,
        },
{
    let ghost s = v@.subrange(lo as int, hi as int);
    match find_char(v, lo, hi, ':') {
        None => None,
        Some(idx) => {
            assert(s.take(idx - lo) =~= v@.subrange(lo as int, idx as int));
            assert(s.skip(idx - lo + 1) =~= v@.subrange(idx + 1, hi as int));
            let (na, nb) = trim_range(v, lo, idx);
            if range_eq_lower(v, na, nb, lname) {
                let (va, vb) = trim_range(v, idx + 1, hi);
                Some((va, vb))
            } else {
                None
            }
        },
    }
}

/// `strip_wrapping_quotes` on `v[lo..hi]`, as a range of `v`.
fn strip_quotes_range(v: &Vec<char>, lo: usize, hi: usize) -> (r: (usize, usize))
    requires
        lo <= hi <= v.len(),
    ensures
        lo <= r.0 <= r.1 <= hi,
        strip_wrapping_quotes(v@.subrange(lo as int, hi as int)) == v@.subrange(
            r.0 as int,
            r.1 as int,
        ),
{
    let ghost goal = strip_wrapping_quotes(v@.subrange(lo as int, hi as int));
    let (mut a, mut b) = trim_range(v, lo, hi);
    while b - a >= 2 && ((v[a] == '\'' && v[b - 1] == '\'') || (v[a] == '"' && v[b - 1] == '"'))
        invariant
            lo <= a <= b <= hi <= v.len(),
            goal == (if wrapped_in_quotes(v@.subrange(a as int, b as int)) {
                strip_wrapping_quotes(
                    v@.subrange(a as int, b as int).subrange(1, (b - a) - 1),
                )
            } else {
                v@.subrange(a as int, b as int)
            }),
        decreases b - a,
    {
        let ghost w = v@.subrange(a as int, b as int);
        assert(w[0] == v@[a as int] && w.last() == v@[b - 1]);
        assert(w.subrange(1, w.len() - 1) =~= v@.subrange(a + 1, b - 1));
        let (na, nb) = trim_range(v, a + 1, b - 1);
        a = na;
        b = nb;
    }
    proof {
        let w = v@.subrange(a as int, b as int);
        if w.len() >= 2 {
            assert(w[0] == v@[a as int] && w.last() == v@[b - 1]);
        }
    }
    (a, b)
}

/// The characters of a literal.
fn lit(s: &str) -> (v: Vec<char>)
    ensures
        v@ == s@,
{
    chars_of(s)
}

/// `looks_like_curl` on `v`.
fn looks_like_curl_chars(v: &Vec<char>) -> (b: bool)
    ensures
        b == looks_like_curl(v@),
{
    let l = lower_chars(v);
    matches_at(&l, 0, &lit("curl")) || contains_chars(&l, &lit("--header")) || contains_chars(
        &l,
        &lit("--cookie"),
    ) || contains_chars(&l, &lit("-h ")) || contains_chars(&l, &lit("-b "))
}

/// Whether flag `f` followed by whitespace starts at index `i` of `t`.
fn flag_at(t: &Vec<char>, i: usize, f: &Vec<char>) -> (b: bool)
    requires
        i <= t.len(),
    ensures
        b == flag_matches(t@.skip(i as int), f@),
{
    let ghost rest = t@.skip(i as int);
    if !matches_at(t, i, f) {
        proof {
            if f.len() <= rest.len() {
                assert(rest.subrange(0, f.len() as int) =~= t@.subrange(
                    i as int,
                    i + f.len(),
                ));
            }
        }
        return false;
    }
    assert(rest.subrange(0, f.len() as int) =~= t@.subrange(i as int, i + f.len()));
    if f.len() < t.len() - i {
        assert(rest[f.len() as int] == t@[i + f.len()]);
        char_is_ws(t[i + f.len()])
    } else {
        false
    }
}

/// The four flags, as character vectors.
fn flag_chars() -> (r: Vec<Vec<char>>)
    ensures
        views(r@) == curl_flags(),
{
    let r = vec![lit("--header"), lit("--cookie"), lit("-H"), lit("-b")];
    assert(views(r@) =~= curl_flags());
    r
}

/// `matched_flag(t[i..])`, with 4 standing for no match.
fn match_flag(t: &Vec<char>, i: usize, flags: &Vec<Vec<char>>) -> (k: usize)
    requires
        i <= t.len(),
        views(flags@) == curl_flags(),
    ensures
        k <= 4,
        k < 4 ==> matched_flag(t@.skip(i as int)) == k,
        k < 4 ==> flag_matches(t@.skip(i as int), curl_flags()[k as int]),
        k == 4 ==> matched_flag(t@.skip(i as int)) == -1,
{
    let ghost rest = t@.skip(i as int);
    let ghost pred = |f: Seq<char>| flag_matches(rest, f);
    proof {
        lemma_flags_nonempty();
    }
    let mut k: usize = 0;
    while k < 4
        invariant
            k <= 4,
            i <= t.len(),
            rest == t@.skip(i as int),
            pred == (|f: Seq<char>| flag_matches(rest, f)),
            views(flags@) == curl_flags(),
            curl_flags().len() == 4,
            forall|m: int| 0 <= m < k ==> !pred(#[trigger] curl_flags()[m]),
        decreases 4 - k,
    {
        assert(flags@[k as int]@ == curl_flags()[k as int]);
        if flag_at(t, i, &flags[k]) {
            proof {
                lemma_first_where_is(curl_flags(), pred, k as int);
            }
            return k;
        }
        k = k + 1;
    }
    proof {
        lemma_first_where_is(curl_flags(), pred, -1);
    }
    4
}

/// The cookies of the cURL text `t`, as ranges of `t`.
fn extract_curl_cookies(t: &Vec<char>) -> (r: Vec<(usize, usize)>)
    ensures
        forall|j: int| 0 <= j < r.len() ==> (#[trigger] r@[j]).0 <= r@[j].1 <= t.len(),
        r@.map_values(|p: (usize, usize)| t@.subrange(p.0 as int, p.1 as int))
            == curl_cookies_from(t@, 0),
{
    let flags = flag_chars();
    let lcookie = lit("cookie");
    proof {
        reveal_strlit("cookie");
        assert(lower_seq(lcookie@) =~= lcookie@);
        lemma_flags_nonempty();
    }
    let ghost whole = curl_cookies_from(t@, 0);
    let n = t.len();
    let mut out: Vec<(usize, usize)> = Vec::new();
    let mut i: usize = 0;
    while i < n
        invariant
            n == t.len(),
            i <= n,
            views(flags@) == curl_flags(),
            lcookie@ == "cookie"@,
            lower_seq(lcookie@) == lcookie@,
            forall|k: int| 0 <= k < 4 ==> #[trigger] curl_flags()[k].len() >= 1,
            curl_flags().len() == 4,
            forall|j: int| 0 <= j < out.len() ==> (#[trigger] out@[j]).0 <= out@[j].1 <= t.len(),
            out@.map_values(|p: (usize, usize)| t@.subrange(p.0 as int, p.1 as int))
                + curl_cookies_from(t@, i as int) == whole,
        decreases n - i,
    {
        let ghost before = out@.map_values(
            |p: (usize, usize)| t@.subrange(p.0 as int, p.1 as int),
        );
        if i > 0 && !char_is_ascii_ws(t[i - 1]) {
            i = i + 1;
            continue ;
        }
        let k = match_flag(t, i, &flags);
        if k == 4 {
            i = i + 1;
            continue ;
        }
        let flen = flags[k].len();
        assert(flags@[k as int]@ == curl_flags()[k as int]);
        assert(i + flen < n);
        assert(t@.skip(i + flen) =~= t@.subrange(i + flen, n as int));
        let (a, b, c) = read_arg_range(t, i + flen, n);
        let (va, vb) = trim_range(t, a, b);
        let h = strip_header_range(t, va, vb, &lcookie);
        let cookie = if k == 0 || k == 2 {
            h
        } else {
            match h {
                Some(x) => Some(x),
                None => Some((va, vb)),
            }
        };
        let next = i + flen + c;
        match cookie {
            Some((ca, cb)) => {
                let (x, y) = trim_range(t, ca, cb);
                if x < y {
                    out.push((ca, cb));
                    proof {
                        let after = out@.map_values(
                            |p: (usize, usize)| t@.subrange(p.0 as int, p.1 as int),
                        );
                        assert(after =~= before.push(t@.subrange(ca as int, cb as int)));
                        assert(before + curl_cookies_from(t@, i as int) == whole);
                        assert(curl_cookies_from(t@, i as int) =~= seq![
                            t@.subrange(ca as int, cb as int),
                        ] + curl_cookies_from(t@, next as int));
                        assert(after + curl_cookies_from(t@, next as int) =~= before + (seq![
                            t@.subrange(ca as int, cb as int),
                        ] + curl_cookies_from(t@, next as int)));
                    }
                }
            },
            None => {},
        }
        i = next;
    }
    proof {
        let m = out@.map_values(|p: (usize, usize)| t@.subrange(p.0 as int, p.1 as int));
        assert(m + Seq::<Seq<char>>::empty() =~= m);
    }
    out
}

/// `add_pair` on the segment `v[a..b]`; `names` mirrors the pair names.
fn add_segment(
    v: &Vec<char>,
    a: usize,
    b: usize,
    names: &mut Vec<Vec<char>>,
    pairs: &mut Vec<Vec<char>>,
)
    requires
        a <= b <= v.len(),
        old(names).len() == old(pairs).len(),
        forall|j: int| 0 <= j < old(names).len() ==> #[trigger] old(names)@[j]@ == pair_name(
            old(pairs)@[j]@,
        ),
    ensures
        final(names).len() == final(pairs).len(),
        forall|j: int| 0 <= j < final(names).len() ==> #[trigger] final(names)@[j]@ == pair_name(
            final(pairs)@[j]@,
        ),
        views(final(pairs)@) == add_pair(views(old(pairs)@), v@.subrange(a as int, b as int)),
{
    let ghost acc = views(pairs@);
    let (pa, pb) = trim_range(v, a, b);
    let ghost p = v@.subrange(pa as int, pb as int);
    let e = match find_char(v, pa, pb, '=') {
        None => {
            return ;
        },
        Some(e) => e,
    };
    assert(p.take(e - pa) =~= v@.subrange(pa as int, e as int));
    let (na, nb) = trim_range(v, pa, e);
    if na == nb {
        return ;
    }
    let name = copy_range(v, na, nb);
    let pv = copy_range(v, pa, pb);
    let ghost pred = |q: Seq<char>| pair_name(q) == name@;
    let mut j: usize = 0;
    while j < names.len()
        invariant
            names.len() == pairs.len(),
            j <= names.len(),
            acc == views(pairs@),
            forall|m: int| 0 <= m < names.len() ==> #[trigger] names@[m]@ == pair_name(
                pairs@[m]@,
            ),
            pred == (|q: Seq<char>| pair_name(q) == name@),
            forall|m: int| 0 <= m < j ==> !pred(#[trigger] acc[m]),
            pv@ == p,
            name@ == pair_name(p),
            p == trim(v@.subrange(a as int, b as int)),
            pair_ok(p),
            a <= b <= v.len(),
            acc == views(old(pairs)@),
        decreases names.len() - j,
    {
        assert(acc[j as int] == pairs@[j as int]@);
        if chars_eq(&names[j], &name) {
            proof {
                lemma_first_where_is(acc, pred, j as int);
            }
            let ghost old_pairs = pairs@;
            pairs.set(j, pv);
            proof {
                assert(views(pairs@) =~= acc.update(j as int, p));
                assert forall|m: int| 0 <= m < names.len() implies #[trigger] names@[m]@
                    == pair_name(pairs@[m]@) by {
                    if m != j {
                        assert(pairs@[m] == old_pairs[m]);
                    }
                }
            }
            return ;
        }
        j = j + 1;
    }
    proof {
        lemma_first_where_is(acc, pred, -1);
    }
    names.push(name);
    pairs.push(pv);
    assert(views(pairs@) =~= acc.push(p));
}

/// `cookie_pairs` of `v[lo..hi]`, one vector per pair.
fn cookie_pairs_range(v: &Vec<char>, lo: usize, hi: usize) -> (r: Vec<Vec<char>>)
    requires
        lo <= hi <= v.len(),
    ensures
        views(r@) == cookie_pairs(v@.subrange(lo as int, hi as int)),
{
    let ghost goal = cookie_pairs(v@.subrange(lo as int, hi as int));
    let mut names: Vec<Vec<char>> = Vec::new();
    let mut pairs: Vec<Vec<char>> = Vec::new();
    assert(views(pairs@) =~= Seq::<Seq<char>>::empty());
    let mut start = lo;
    let mut done = false;
    while !done
        invariant
            lo <= start <= hi <= v.len(),
            names.len() == pairs.len(),
            forall|j: int| 0 <= j < names.len() ==> #[trigger] names@[j]@ == pair_name(
                pairs@[j]@,
            ),
            !done ==> fold_pairs(views(pairs@), split_char(v@.subrange(start as int, hi as int), ';'))
                == goal,
            done ==> views(pairs@) == goal,
        decreases hi - start + (if done {
            0int
        } else {
            1int
        }),
    {
        let ghost u = v@.subrange(start as int, hi as int);
        let ghost acc = views(pairs@);
        match find_char(v, start, hi, ';') {
            Some(j) => {
                assert(u.take(j - start) =~= v@.subrange(start as int, j as int));
                assert(u.skip(j - start + 1) =~= v@.subrange(j + 1, hi as int));
                let ghost rest = split_char(v@.subrange(j + 1, hi as int), ';');
                assert(split_char(u, ';') == seq![v@.subrange(start as int, j as int)] + rest);
                assert((seq![v@.subrange(start as int, j as int)] + rest).drop_first() =~= rest);
                add_segment(v, start, j, &mut names, &mut pairs);
                start = j + 1;
            },
            None => {
                assert(split_char(u, ';') == seq![u]);
                assert(seq![u].drop_first() =~= Seq::<Seq<char>>::empty());
                assert(fold_pairs(acc, seq![u]) == fold_pairs(add_pair(acc, u), Seq::empty()));
                assert(fold_pairs(add_pair(acc, u), Seq::empty()) == add_pair(acc, u));
                add_segment(v, start, hi, &mut names, &mut pairs);
                done = true;
            },
        }
    }
    pairs
}

// ------------------------------------------------------------------
// Public entry points
// ------------------------------------------------------------------

/// Normalises pasted cookie content (bare cookie string, whole cURL command,
/// or either wrapped in quotes and whitespace) into `name=value; name2=value2`;
/// the empty string when no cookie can be found.
pub fn normalize_cookie_secret(secret: &str) -> (r: String)
    ensures
        r@ == normalized_cookie(secret@),
{
    let v = chars_of(secret);
    let (a, b) = trim_range(&v, 0, v.len());
    assert(v@.subrange(0, v.len() as int) =~= v@);
    if a == b {
        return String::new();
    }
    let t = copy_range(&v, a, b);
    let sep = lit("; ");
    let lcookie = lit("cookie");
    proof {
        reveal_strlit("cookie");
        assert(lower_seq(lcookie@) =~= lcookie@);
    }
    let cookies = extract_curl_cookies(&t);
    if cookies.len() > 0 {
        let mut parts: Vec<Vec<char>> = Vec::new();
        let mut k: usize = 0;
        while k < cookies.len()
            invariant
                k <= cookies.len(),
                forall|j: int| 0 <= j < cookies.len() ==> (#[trigger] cookies@[j]).0
                    <= cookies@[j].1 <= t.len(),
                views(parts@) == cookies@.map_values(
                    |p: (usize, usize)| t@.subrange(p.0 as int, p.1 as int),
                ).take(k as int),
            decreases cookies.len() - k,
        {
            let (ca, cb) = cookies[k];
            assert(cookies@[k as int] == (ca, cb));
            let piece = copy_range(&t, ca, cb);
            let ghost before = views(parts@);
            let ghost m = cookies@.map_values(
                |p: (usize, usize)| t@.subrange(p.0 as int, p.1 as int),
            );
            parts.push(piece);
            k = k + 1;
            proof {
                assert(views(parts@) =~= before.push(piece@));
                assert(m[k - 1] == t@.subrange(ca as int, cb as int));
                assert(m.take(k as int) =~= m.take(k - 1).push(m[k - 1]));
            }
        }
        assert(cookies@.map_values(|p: (usize, usize)| t@.subrange(p.0 as int, p.1 as int)).take(
            cookies.len() as int,
        ) =~= cookies@.map_values(|p: (usize, usize)| t@.subrange(p.0 as int, p.1 as int)));
        let joined = join_chars(&parts, &sep);
        assert(joined@.subrange(0, joined.len() as int) =~= joined@);
        let pairs = cookie_pairs_range(&joined, 0, joined.len());
        return string_of(&join_chars(&pairs, &sep));
    }
    if looks_like_curl_chars(&t) {
        return String::new();
    }
    let n = t.len();
    assert(t@.subrange(0, n as int) =~= t@);
    let (qa, qb) = strip_quotes_range(&t, 0, n);
    let (ha, hb) = match strip_header_range(&t, qa, qb, &lcookie) {
        Some(r) => r,
        None => (qa, qb),
    };
    let pairs = cookie_pairs_range(&t, ha, hb);
    string_of(&join_chars(&pairs, &sep))
}

/// The browser-like headers shared by cookie-based providers (desktop Chrome).
pub open spec fn chrome_headers(cookie: Seq<char>, origin: Seq<char>, referer: Seq<char>) -> Seq<
    (Seq<char>, Seq<char>),
> {
    seq![
        ("Cookie"@, cookie),
        ("Accept"@, "application/json, text/plain, */*"@),
        ("Accept-Language"@, "en-US,en;q=0.9"@),
        ("User-Agent"@, chrome_ua()@),
        ("Origin"@, origin),
        ("Referer"@, referer),
    ]
}

/// The desktop Chrome user agent the cookie-based providers present.
pub open spec fn chrome_ua() -> &'static str {
    "Mozilla/5.0 (Windows NT 10.0; Win64; x64) AppleWebKit/537.36 (KHTML, like Gecko) Chrome/143.0.0.0 Safari/537.36"
}

/// Cookie, Accept, Accept-Language, User-Agent, Origin and Referer headers,
/// in that order, for a cookie-based request.
pub fn chrome_like_headers(cookie: &str, origin: &str, referer: &str) -> (r: Vec<(String, String)>)
    ensures
        r@.map_values(|h: (String, String)| (h.0@, h.1@)) == chrome_headers(
            cookie@,
            origin@,
            referer@,
        ),
{
    let r = vec![
        ("Cookie".to_owned(), cookie.to_owned()),
        ("Accept".to_owned(), "application/json, text/plain, */*".to_owned()),
        ("Accept-Language".to_owned(), "en-US,en;q=0.9".to_owned()),
        ("User-Agent".to_owned(), "Mozilla/5.0 (Windows NT 10.0; Win64; x64) AppleWebKit/537.36 (KHTML, like Gecko) Chrome/143.0.0.0 Safari/537.36".to_owned()),
        ("Origin".to_owned(), origin.to_owned()),
        ("Referer".to_owned(), referer.to_owned()),
    ];
    assert(r@.map_values(|h: (String, String)| (h.0@, h.1@)) =~= chrome_headers(
        cookie@,
        origin@,
        referer@,
    ));
    r
}

} // verus!
