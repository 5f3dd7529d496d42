//! Character-level text model shared by the parsers of this crate.
//!
//! Text is handled as `Seq<char>` in specifications and as `Vec<char>` plus
//! index ranges in executable code; `&str` and `String` only appear at the
//! public edges.
use vstd::prelude::*;

verus! {

// ------------------------------------------------------------------
// Character classes
// ------------------------------------------------------------------

/// Unicode `White_Space` property, as `char::is_whitespace` decides it.
pub open spec fn is_ws(c: char) -> bool {
    ||| c == '\u{9}' || c == '\u{a}' || c == '\u{b}' || c == '\u{c}' || c == '\u{d}'
    ||| c == ' ' || c == '\u{85}' || c == '\u{a0}' || c == '\u{1680}'
    ||| ('\u{2000}' <= c && c <= '\u{200a}')
    ||| c == '\u{2028}' || c == '\u{2029}' || c == '\u{202f}' || c == '\u{205f}'
    ||| c == '\u{3000}'
}

/// ASCII whitespace as `u8::is_ascii_whitespace` decides it (no vertical tab).
pub open spec fn is_ascii_ws(c: char) -> bool {
    c == ' ' || c == '\t' || c == '\n' || c == '\u{c}' || c == '\r'
}

/// `char::to_ascii_lowercase`.
pub open spec fn lower(c: char) -> char {
    if 'A' <= c && c <= 'Z' {
        ((c as u32) + 32) as char
    } else {
        c
    }
}

/// `str::to_ascii_lowercase`, character by character.
pub open spec fn lower_seq(s: Seq<char>) -> Seq<char> {
    s.map_values(|c: char| lower(c))
}

/// Whether `c` is whitespace in the Unicode sense.
pub fn char_is_ws(c: char) -> (b: bool)
    ensures
        b == is_ws(c),
{
    c == '\u{9}' || c == '\u{a}' || c == '\u{b}' || c == '\u{c}' || c == '\u{d}' || c == ' '
        || c == '\u{85}' || c == '\u{a0}' || c == '\u{1680}' || ('\u{2000}' <= c && c
        <= '\u{200a}') || c == '\u{2028}' || c == '\u{2029}' || c == '\u{202f}' || c
        == '\u{205f}' || c == '\u{3000}'
}

/// Whether `c` is one of the five ASCII whitespace characters.
pub fn char_is_ascii_ws(c: char) -> (b: bool)
    ensures
        b == is_ascii_ws(c),
{
    c == ' ' || c == '\t' || c == '\n' || c == '\u{c}' || c == '\r'
}

/// ASCII lower-casing of one character.
pub fn char_lower(c: char) -> (r: char)
    ensures
        r == lower(c),
{
    if 'A' <= c && c <= 'Z' {
        let u: u32 = c as u32;
        let l: u8 = (u + 32) as u8;
        let r = l as char;
        assert(r == ((c as u32) + 32) as char);
        r
    } else {
        c
    }
}

// ------------------------------------------------------------------
// Trimming
// ------------------------------------------------------------------

/// Number of leading whitespace characters.
pub open spec fn lead_ws(s: Seq<char>) -> nat
    decreases s.len(),
{
    if s.len() > 0 && is_ws(s[0]) {
        1 + lead_ws(s.drop_first())
    } else {
        0
    }
}

/// Number of trailing whitespace characters.
pub open spec fn trail_ws(s: Seq<char>) -> nat
    decreases s.len(),
{
    if s.len() > 0 && is_ws(s.last()) {
        1 + trail_ws(s.drop_last())
    } else {
        0
    }
}

/// `str::trim_start`.
pub open spec fn trim_start(s: Seq<char>) -> Seq<char> {
    s.skip(lead_ws(s) as int)
}

/// `str::trim_end`.
pub open spec fn trim_end(s: Seq<char>) -> Seq<char> {
    s.take(s.len() - trail_ws(s))
}

/// `str::trim`.
pub open spec fn trim(s: Seq<char>) -> Seq<char> {
    trim_end(trim_start(s))
}

pub proof fn lemma_lead_ws_bound(s: Seq<char>)
    ensures
        lead_ws(s) <= s.len(),
    decreases s.len(),
{
    if s.len() > 0 && is_ws(s[0]) {
        lemma_lead_ws_bound(s.drop_first());
    }
}

pub proof fn lemma_trail_ws_bound(s: Seq<char>)
    ensures
        trail_ws(s) <= s.len(),
    decreases s.len(),
{
    if s.len() > 0 && is_ws(s.last()) {
        lemma_trail_ws_bound(s.drop_last());
    }
}

/// `lead_ws` is the length of the longest all-whitespace prefix.
pub proof fn lemma_lead_ws_is(s: Seq<char>, k: int)
    requires
        0 <= k <= s.len(),
        forall|i: int| 0 <= i < k ==> is_ws(#[trigger] s[i]),
        k == s.len() || !is_ws(s[k]),
    ensures
        lead_ws(s) == k,
    decreases k,
{
    if k > 0 {
        let t = s.drop_first();
        assert forall|i: int| 0 <= i < k - 1 implies is_ws(#[trigger] t[i]) by {
            assert(t[i] == s[i + 1]);
        }
        lemma_lead_ws_is(t, k - 1);
    }
}

/// `trail_ws` is the length of the longest all-whitespace suffix.
pub proof fn lemma_trail_ws_is(s: Seq<char>, k: int)
    requires
        0 <= k <= s.len(),
        forall|i: int| s.len() - k <= i < s.len() ==> is_ws(#[trigger] s[i]),
        k == s.len() || !is_ws(s[s.len() - 1 - k]),
    ensures
        trail_ws(s) == k,
    decreases k,
{
    if k > 0 {
        let t = s.drop_last();
        assert forall|i: int| t.len() - (k - 1) <= i < t.len() implies is_ws(#[trigger] t[i]) by {
            assert(t[i] == s[i]);
        }
        lemma_trail_ws_is(t, k - 1);
    }
}

/// The bounds of the trimmed part of `v[lo..hi]`.
pub fn trim_range(v: &Vec<char>, lo: usize, hi: usize) -> (r: (usize, usize))
    requires
        lo <= hi <= v.len(),
    ensures
        lo <= r.0 <= r.1 <= hi,
        v@.subrange(r.0 as int, r.1 as int) == trim(v@.subrange(lo as int, hi as int)),
        trim_start(v@.subrange(lo as int, hi as int)) == v@.subrange(r.0 as int, hi as int),
{
    let ghost s = v@.subrange(lo as int, hi as int);
    let mut a = lo;
    while a < hi && char_is_ws(v[a])
        invariant
            lo <= a <= hi <= v.len(),
            s == v@.subrange(lo as int, hi as int),
            forall|i: int| lo <= i < a ==> is_ws(#[trigger] v@[i]),
        decreases hi - a,
    {
        a = a + 1;
    }
    proof {
        assert forall|i: int| 0 <= i < a - lo implies is_ws(#[trigger] s[i]) by {
            assert(s[i] == v@[lo + i]);
        }
        lemma_lead_ws_is(s, a - lo);
        assert(trim_start(s) =~= v@.subrange(a as int, hi as int));
    }
    let ghost t = v@.subrange(a as int, hi as int);
    let mut b = hi;
    while b > a && char_is_ws(v[b - 1])
        invariant
            lo <= a <= b <= hi <= v.len(),
            t == v@.subrange(a as int, hi as int),
            forall|i: int| b <= i < hi ==> is_ws(#[trigger] v@[i]),
        decreases b - a,
    {
        b = b - 1;
    }
    proof {
        assert forall|i: int| t.len() - (hi - b) <= i < t.len() implies is_ws(#[trigger] t[i]) by {
            assert(t[i] == v@[a + i]);
        }
        if b > a {
            assert(t[t.len() - 1 - (hi - b)] == v@[b - 1]);
        }
        lemma_trail_ws_is(t, hi - b);
        assert(trim_end(t) =~= v@.subrange(a as int, b as int));
    }
    (a, b)
}

// ------------------------------------------------------------------
// Searching
// ------------------------------------------------------------------

/// Index of the first `c` in `s`, or -1.
pub open spec fn first_index_of(s: Seq<char>, c: char) -> int
    decreases s.len(),
{
    if s.len() == 0 {
        -1
    } else if s[0] == c {
        0
    } else {
        let r = first_index_of(s.drop_first(), c);
        if r < 0 {
            -1
        } else {
            r + 1
        }
    }
}

/// Index of the first whitespace character of `s`, or -1.
pub open spec fn first_ws_index(s: Seq<char>) -> int
    decreases s.len(),
{
    if s.len() == 0 {
        -1
    } else if is_ws(s[0]) {
        0
    } else {
        let r = first_ws_index(s.drop_first());
        if r < 0 {
            -1
        } else {
            r + 1
        }
    }
}

pub proof fn lemma_first_index_of_range(s: Seq<char>, c: char)
    ensures
        -1 <= first_index_of(s, c) < s.len(),
    decreases s.len(),
{
    if s.len() > 0 && s[0] != c {
        lemma_first_index_of_range(s.drop_first(), c);
    }
}

pub proof fn lemma_first_ws_index_range(s: Seq<char>)
    ensures
        -1 <= first_ws_index(s) < s.len(),
    decreases s.len(),
{
    if s.len() > 0 && !is_ws(s[0]) {
        lemma_first_ws_index_range(s.drop_first());
    }
}

/// What `first_index_of` returns: the first index of `c`, or -1 when `c`
/// does not occur.
pub proof fn lemma_first_index_of_spec(s: Seq<char>, c: char)
    ensures
        -1 <= first_index_of(s, c) < s.len(),
        first_index_of(s, c) == -1 ==> forall|i: int| 0 <= i < s.len() ==> #[trigger] s[i] != c,
        first_index_of(s, c) >= 0 ==> s[first_index_of(s, c)] == c && forall|i: int|
            0 <= i < first_index_of(s, c) ==> #[trigger] s[i] != c,
    decreases s.len(),
{
    if s.len() > 0 && s[0] != c {
        let t = s.drop_first();
        lemma_first_index_of_spec(t, c);
        assert forall|i: int| 1 <= i < s.len() implies s[i] == t[i - 1] by {}
        if first_index_of(t, c) >= 0 {
            assert(s[first_index_of(t, c) + 1] == t[first_index_of(t, c)]);
            assert forall|i: int| 0 <= i < first_index_of(s, c) implies #[trigger] s[i] != c by {
                if i > 0 {
                    assert(s[i] == t[i - 1]);
                }
            }
        } else {
            assert forall|i: int| 0 <= i < s.len() implies #[trigger] s[i] != c by {
                if i > 0 {
                    assert(s[i] == t[i - 1]);
                }
            }
        }
    }
}

pub proof fn lemma_first_index_of_is(s: Seq<char>, c: char, k: int)
    requires
        (0 <= k < s.len() && s[k] == c && forall|m: int| 0 <= m < k ==> #[trigger] s[m] != c)
            || (k == -1 && forall|m: int| 0 <= m < s.len() ==> #[trigger] s[m] != c),
    ensures
        first_index_of(s, c) == k,
    decreases s.len(),
{
    if s.len() > 0 && s[0] != c {
        let t = s.drop_first();
        if k == -1 {
            assert forall|m: int| 0 <= m < t.len() implies #[trigger] t[m] != c by {
                assert(t[m] == s[m + 1]);
            }
            lemma_first_index_of_is(t, c, -1);
        } else {
            assert(k > 0);
            assert forall|m: int| 0 <= m < k - 1 implies #[trigger] t[m] != c by {
                assert(t[m] == s[m + 1]);
            }
            lemma_first_index_of_is(t, c, k - 1);
        }
    } else if s.len() > 0 {
        if k == -1 {
            assert(s[0] != c);
        } else if k > 0 {
            assert(s[0] != c);
        }
    }
}

pub proof fn lemma_first_ws_index_is(s: Seq<char>, k: int)
    requires
        (0 <= k < s.len() && is_ws(s[k]) && forall|m: int| 0 <= m < k ==> !is_ws(
            #[trigger] s[m],
        )) || (k == -1 && forall|m: int| 0 <= m < s.len() ==> !is_ws(#[trigger] s[m])),
    ensures
        first_ws_index(s) == k,
    decreases s.len(),
{
    if s.len() > 0 && !is_ws(s[0]) {
        let t = s.drop_first();
        if k == -1 {
            assert forall|m: int| 0 <= m < t.len() implies !is_ws(#[trigger] t[m]) by {
                assert(t[m] == s[m + 1]);
            }
            lemma_first_ws_index_is(t, -1);
        } else {
            assert(k > 0);
            assert forall|m: int| 0 <= m < k - 1 implies !is_ws(#[trigger] t[m]) by {
                assert(t[m] == s[m + 1]);
            }
            lemma_first_ws_index_is(t, k - 1);
        }
    } else if s.len() > 0 {
        if k == -1 {
            assert(is_ws(s[0]));
        } else if k > 0 {
            assert(is_ws(s[0]));
        }
    }
}

/// First index of `c` in `v[lo..hi]`, as an absolute index.
pub fn find_char(v: &Vec<char>, lo: usize, hi: usize, c: char) -> (r: Option<usize>)
    requires
        lo <= hi <= v.len(),
    ensures
        match r {
            Some(j) => lo <= j < hi && first_index_of(v@.subrange(lo as int, hi as int), c) == j
                - lo,
            None => first_index_of(v@.subrange(lo as int, hi as int), c) == -1,
        },
{
    let ghost s = v@.subrange(lo as int, hi as int);
    let mut i = lo;
    while i < hi
        invariant
            lo <= i <= hi <= v.len(),
            s == v@.subrange(lo as int, hi as int),
            forall|m: int| lo <= m < i ==> #[trigger] v@[m] != c,
        decreases hi - i,
    {
        if v[i] == c {
            proof {
                assert forall|m: int| 0 <= m < i - lo implies #[trigger] s[m] != c by {
                    assert(s[m] == v@[lo + m]);
                }
                lemma_first_index_of_is(s, c, i - lo);
            }
            return Some(i);
        }
        i = i + 1;
    }
    proof {
        assert forall|m: int| 0 <= m < s.len() implies #[trigger] s[m] != c by {
            assert(s[m] == v@[lo + m]);
        }
        lemma_first_index_of_is(s, c, -1);
    }
    None
}

/// First whitespace index in `v[lo..hi]`, as an absolute index.
pub fn find_ws(v: &Vec<char>, lo: usize, hi: usize) -> (r: Option<usize>)
    requires
        lo <= hi <= v.len(),
    ensures
        match r {
            Some(j) => lo <= j < hi && first_ws_index(v@.subrange(lo as int, hi as int)) == j
                - lo,
            None => first_ws_index(v@.subrange(lo as int, hi as int)) == -1,
        },
{
    let ghost s = v@.subrange(lo as int, hi as int);
    let mut i = lo;
    while i < hi
        invariant
            lo <= i <= hi <= v.len(),
            s == v@.subrange(lo as int, hi as int),
            forall|m: int| lo <= m < i ==> !is_ws(#[trigger] v@[m]),
        decreases hi - i,
    {
        if char_is_ws(v[i]) {
            proof {
                assert forall|m: int| 0 <= m < i - lo implies !is_ws(#[trigger] s[m]) by {
                    assert(s[m] == v@[lo + m]);
                }
                lemma_first_ws_index_is(s, i - lo);
            }
            return Some(i);
        }
        i = i + 1;
    }
    proof {
        assert forall|m: int| 0 <= m < s.len() implies !is_ws(#[trigger] s[m]) by {
            assert(s[m] == v@[lo + m]);
        }
        lemma_first_ws_index_is(s, -1);
    }
    None
}

/// Index of the first element of `s` that satisfies `pred`, or -1.
pub open spec fn first_where<A>(s: Seq<A>, pred: spec_fn(A) -> bool) -> int
    decreases s.len(),
{
    if s.len() == 0 {
        -1
    } else if pred(s[0]) {
        0
    } else {
        let r = first_where(s.drop_first(), pred);
        if r < 0 {
            -1
        } else {
            r + 1
        }
    }
}

pub proof fn lemma_first_where_is<A>(s: Seq<A>, pred: spec_fn(A) -> bool, k: int)
    requires
        (0 <= k < s.len() && pred(s[k]) && forall|m: int| 0 <= m < k ==> !pred(#[trigger] s[m]))
            || (k == -1 && forall|m: int| 0 <= m < s.len() ==> !pred(#[trigger] s[m])),
    ensures
        first_where(s, pred) == k,
    decreases s.len(),
{
    if s.len() > 0 && !pred(s[0]) {
        let t = s.drop_first();
        if k == -1 {
            assert forall|m: int| 0 <= m < t.len() implies !pred(#[trigger] t[m]) by {
                assert(t[m] == s[m + 1]);
            }
            lemma_first_where_is(t, pred, -1);
        } else {
            assert(k > 0);
            assert forall|m: int| 0 <= m < k - 1 implies !pred(#[trigger] t[m]) by {
                assert(t[m] == s[m + 1]);
            }
            lemma_first_where_is(t, pred, k - 1);
        }
    } else if s.len() > 0 {
        if k == -1 {
            assert(pred(s[0]));
        } else if k > 0 {
            assert(pred(s[0]));
        }
    }
}

pub proof fn lemma_first_where_range<A>(s: Seq<A>, pred: spec_fn(A) -> bool)
    ensures
        -1 <= first_where(s, pred) < s.len(),
        first_where(s, pred) >= 0 ==> pred(s[first_where(s, pred)]),
    decreases s.len(),
{
    if s.len() > 0 && !pred(s[0]) {
        lemma_first_where_range(s.drop_first(), pred);
    }
}

pub proof fn lemma_first_where_before<A>(s: Seq<A>, pred: spec_fn(A) -> bool)
    ensures
        forall|m: int| 0 <= m < first_where(s, pred) ==> !pred(#[trigger] s[m]),
    decreases s.len(),
{
    if s.len() > 0 && !pred(s[0]) {
        let t = s.drop_first();
        lemma_first_where_before(t, pred);
        lemma_first_where_range(s, pred);
        lemma_first_where_range(t, pred);
        assert forall|m: int| 0 <= m < first_where(s, pred) implies !pred(#[trigger] s[m]) by {
            if m > 0 {
                assert(s[m] == t[m - 1]);
            }
        }
    }
}

pub proof fn lemma_first_where_none<A>(s: Seq<A>, pred: spec_fn(A) -> bool)
    ensures
        first_where(s, pred) == -1 ==> forall|i: int| 0 <= i < s.len() ==> !pred(#[trigger] s[i]),
    decreases s.len(),
{
    if s.len() > 0 && !pred(s[0]) {
        let t = s.drop_first();
        lemma_first_where_none(t, pred);
        if first_where(s, pred) == -1 {
            assert forall|i: int| 0 <= i < s.len() implies !pred(#[trigger] s[i]) by {
                if i > 0 {
                    assert(s[i] == t[i - 1]);
                }
            }
        }
    }
}

/// Joins `parts` with `sep` between consecutive parts (`[T]::join`).
pub open spec fn join(parts: Seq<Seq<char>>, sep: Seq<char>) -> Seq<char>
    decreases parts.len(),
{
    if parts.len() == 0 {
        Seq::empty()
    } else if parts.len() == 1 {
        parts[0]
    } else {
        parts[0] + sep + join(parts.drop_first(), sep)
    }
}

pub proof fn lemma_join_push(parts: Seq<Seq<char>>, sep: Seq<char>, x: Seq<char>)
    ensures
        join(parts.push(x), sep) == if parts.len() == 0 {
            x
        } else {
            join(parts, sep) + sep + x
        },
    decreases parts.len(),
{
    if parts.len() == 0 {
        assert(parts.push(x).len() == 1 && parts.push(x)[0] == x);
    } else if parts.len() == 1 {
        assert(parts.push(x).drop_first() =~= seq![x]);
        assert(join(seq![x], sep) == x);
        assert(parts.push(x)[0] == parts[0]);
    } else {
        lemma_join_push(parts.drop_first(), sep, x);
        assert(parts.push(x).drop_first() =~= parts.drop_first().push(x));
        assert(parts.push(x)[0] == parts[0]);
        assert(join(parts.push(x), sep) == parts[0] + sep + join(parts.drop_first().push(x), sep));
        assert((parts[0] + sep) + ((join(parts.drop_first(), sep) + sep) + x) =~= ((parts[0] + sep
            + join(parts.drop_first(), sep)) + sep) + x);
    }
}

/// Appends `parts` joined with `sep` to a character vector.
pub fn join_chars(parts: &Vec<Vec<char>>, sep: &Vec<char>) -> (r: Vec<char>)
    ensures
        r@ == join(views(parts@), sep@),
{
    let mut r: Vec<char> = Vec::new();
    let mut k: usize = 0;
    while k < parts.len()
        invariant
            k <= parts.len(),
            r@ == join(views(parts@).take(k as int), sep@),
        decreases parts.len() - k,
    {
        let ghost before = views(parts@).take(k as int);
        if k > 0 {
            let n = sep.len();
            push_range(&mut r, sep, 0, n);
            assert(sep@.subrange(0, n as int) =~= sep@);
        }
        let m = parts[k].len();
        push_range(&mut r, &parts[k], 0, m);
        proof {
            assert(parts[k as int]@.subrange(0, m as int) =~= parts[k as int]@);
            assert(views(parts@).take(k + 1) =~= before.push(parts[k as int]@));
            lemma_join_push(before, sep@, parts[k as int]@);
            if k == 0 {
                assert(Seq::<char>::empty() + parts[k as int]@ =~= parts[k as int]@);
            }
        }
        k = k + 1;
    }
    assert(views(parts@).take(parts.len() as int) =~= views(parts@));
    r
}

/// Pieces of `s` between occurrences of `c` (`str::split` with a char).
pub open spec fn split_char(s: Seq<char>, c: char) -> Seq<Seq<char>>
    decreases s.len(),
{
    let i = first_index_of(s, c);
    if 0 <= i < s.len() {
        seq![s.take(i)] + split_char(s.skip(i + 1), c)
    } else {
        seq![s]
    }
}

/// The view of each vector of characters.
pub open spec fn views(vs: Seq<Vec<char>>) -> Seq<Seq<char>> {
    vs.map_values(|v: Vec<char>| v@)
}

/// Whether `p` occurs in `s` at index `i`.
pub open spec fn occurs_at(s: Seq<char>, p: Seq<char>, i: int) -> bool {
    0 <= i && i + p.len() <= s.len() && s.subrange(i, i + p.len()) == p
}

/// `str::starts_with`.
pub open spec fn starts_with(s: Seq<char>, p: Seq<char>) -> bool {
    occurs_at(s, p, 0)
}

/// `str::contains` for a string pattern.
pub open spec fn contains_seq(s: Seq<char>, p: Seq<char>) -> bool {
    exists|i: int| occurs_at(s, p, i)
}

/// Whether `p` occurs in `v` at absolute index `i`.
pub fn matches_at(v: &Vec<char>, i: usize, p: &Vec<char>) -> (b: bool)
    requires
        i <= v.len(),
    ensures
        b == occurs_at(v@, p@, i as int),
{
    if p.len() > v.len() - i {
        return false;
    }
    let mut k: usize = 0;
    while k < p.len()
        invariant
            i + p.len() <= v.len(),
            0 <= k <= p.len(),
            forall|m: int| 0 <= m < k ==> v@[i + m] == #[trigger] p@[m],
        decreases p.len() - k,
    {
        if v[i + k] != p[k] {
            proof {
                assert(v@.subrange(i as int, i + p.len())[k as int] != p@[k as int]);
            }
            return false;
        }
        k = k + 1;
    }
    proof {
        assert(v@.subrange(i as int, i + p.len()) =~= p@);
    }
    true
}

/// Whether `p` occurs anywhere in `v`.
pub fn contains_chars(v: &Vec<char>, p: &Vec<char>) -> (b: bool)
    ensures
        b == contains_seq(v@, p@),
{
    if p.len() > v.len() {
        return false;
    }
    if p.len() == 0 {
        proof {
            assert(v@.subrange(0, 0) =~= p@);
            assert(occurs_at(v@, p@, 0));
        }
        return true;
    }
    let last = v.len() - p.len();
    let mut i: usize = 0;
    while i <= last
        invariant
            last == v.len() - p.len(),
            p.len() > 0,
            i <= last + 1,
            forall|j: int| 0 <= j < i ==> !#[trigger] occurs_at(v@, p@, j),
        decreases last + 1 - i,
    {
        if matches_at(v, i, p) {
            return true;
        }
        i = i + 1;
    }
    false
}

/// Equality of two character vectors.
pub fn chars_eq(a: &Vec<char>, b: &Vec<char>) -> (r: bool)
    ensures
        r == (a@ == b@),
{
    if a.len() != b.len() {
        return false;
    }
    let mut k: usize = 0;
    while k < a.len()
        invariant
            a.len() == b.len(),
            0 <= k <= a.len(),
            forall|m: int| 0 <= m < k ==> a@[m] == #[trigger] b@[m],
        decreases a.len() - k,
    {
        if a[k] != b[k] {
            return false;
        }
        k = k + 1;
    }
    proof {
        assert(a@ =~= b@);
    }
    true
}

/// Whether `v[lo..hi]` equals `p` after ASCII lower-casing of `v`.
pub fn range_eq_lower(v: &Vec<char>, lo: usize, hi: usize, p: &Vec<char>) -> (r: bool)
    requires
        lo <= hi <= v.len(),
    ensures
        r == (lower_seq(v@.subrange(lo as int, hi as int)) == p@),
{
    let ghost s = v@.subrange(lo as int, hi as int);
    if hi - lo != p.len() {
        proof {
            assert(lower_seq(s).len() == s.len());
        }
        return false;
    }
    let mut k: usize = 0;
    while k < p.len()
        invariant
            hi - lo == p.len(),
            lo <= hi <= v.len(),
            s == v@.subrange(lo as int, hi as int),
            0 <= k <= p.len(),
            forall|m: int| 0 <= m < k ==> lower(v@[lo + m]) == #[trigger] p@[m],
        decreases p.len() - k,
    {
        let c = char_lower(v[lo + k]);
        if c != p[k] {
            proof {
                assert(lower_seq(s)[k as int] == lower(s[k as int]));
            }
            return false;
        }
        k = k + 1;
    }
    proof {
        assert forall|m: int| 0 <= m < p.len() implies lower_seq(s)[m] == p@[m] by {
            assert(s[m] == v@[lo + m]);
        }
        assert(lower_seq(s) =~= p@);
    }
    true
}

/// ASCII lower-cased copy of `v`.
pub fn lower_chars(v: &Vec<char>) -> (r: Vec<char>)
    ensures
        r@ == lower_seq(v@),
{
    let mut r: Vec<char> = Vec::new();
    let mut i: usize = 0;
    while i < v.len()
        invariant
            0 <= i <= v.len(),
            r@ =~= lower_seq(v@.take(i as int)),
        decreases v.len() - i,
    {
        let c = char_lower(v[i]);
        r.push(c);
        i = i + 1;
        proof {
            assert(v@.take(i as int).drop_last() =~= v@.take(i - 1));
        }
    }
    proof {
        assert(v@.take(v.len() as int) =~= v@);
    }
    r
}

// ------------------------------------------------------------------
// Building
// ------------------------------------------------------------------

/// Appends `v[lo..hi]` to `out`.
pub fn push_range(out: &mut Vec<char>, v: &Vec<char>, lo: usize, hi: usize)
    requires
        lo <= hi <= v.len(),
    ensures
        final(out)@ == old(out)@ + v@.subrange(lo as int, hi as int),
{
    let ghost start = out@;
    let mut i = lo;
    while i < hi
        invariant
            lo <= i <= hi <= v.len(),
            out@ == start + v@.subrange(lo as int, i as int),
        decreases hi - i,
    {
        out.push(v[i]);
        i = i + 1;
        proof {
            assert(v@.subrange(lo as int, i as int) =~= v@.subrange(lo as int, i - 1).push(
                v@[i - 1],
            ));
        }
    }
}

/// A copy of `v[lo..hi]`.
pub fn copy_range(v: &Vec<char>, lo: usize, hi: usize) -> (r: Vec<char>)
    requires
        lo <= hi <= v.len(),
    ensures
        r@ == v@.subrange(lo as int, hi as int),
{
    let mut r: Vec<char> = Vec::new();
    push_range(&mut r, v, lo, hi);
    proof {
        assert(Seq::<char>::empty() + v@.subrange(lo as int, hi as int) =~= v@.subrange(
            lo as int,
            hi as int,
        ));
    }
    r
}

// ------------------------------------------------------------------
// Integers
// ------------------------------------------------------------------

pub open spec fn is_digit(c: char) -> bool {
    '0' <= c && c <= '9'
}

/// Value of a run of decimal digits.
pub open spec fn digits_value(s: Seq<char>) -> int
    decreases s.len(),
{
    if s.len() == 0 {
        0
    } else {
        digits_value(s.drop_last()) * 10 + ((s.last() as int) - ('0' as int))
    }
}

/// The digits part of a number text (after an optional sign).
pub open spec fn number_body(s: Seq<char>) -> Seq<char> {
    if s.len() > 0 && (s[0] == '-' || s[0] == '+') {
        s.drop_first()
    } else {
        s
    }
}

/// Whether every character of `s` is a decimal digit.
pub open spec fn all_digits(s: Seq<char>) -> bool {
    forall|i: int| 0 <= i < s.len() ==> is_digit(#[trigger] s[i])
}

/// `str::parse::<i64>`: an optional `+` or `-`, then at least one digit,
/// and a value within `i64`.
pub open spec fn parse_i64_spec(s: Seq<char>) -> Option<i64> {
    let v = if s.len() > 0 && s[0] == '-' {
        -digits_value(number_body(s))
    } else {
        digits_value(number_body(s))
    };
    if number_body(s).len() > 0 && all_digits(number_body(s)) && i64::MIN <= v <= i64::MAX {
        Some(v as i64)
    } else {
        None
    }
}

pub proof fn lemma_digits_value_monotone(s: Seq<char>, k: int)
    requires
        0 <= k <= s.len(),
        forall|i: int| 0 <= i < s.len() ==> is_digit(#[trigger] s[i]),
    ensures
        0 <= digits_value(s.take(k)) <= digits_value(s),
    decreases s.len(),
{
    if s.len() > 0 {
        let p = s.drop_last();
        assert forall|i: int| 0 <= i < p.len() implies is_digit(#[trigger] p[i]) by {
            assert(p[i] == s[i]);
        }
        lemma_digits_value_monotone(p, p.len() as int);
        assert(p.take(p.len() as int) =~= p);
        assert(is_digit(s[s.len() - 1]));
        assert(digits_value(s) >= digits_value(p));
        if k == s.len() {
            assert(s.take(k) =~= s);
        } else {
            lemma_digits_value_monotone(p, k);
            assert(p.take(k) =~= s.take(k));
        }
    } else {
        assert(s.take(k) =~= s);
    }
}

/// Parses `v[lo..hi]` as an `i64` the way `str::parse` does.
pub fn parse_i64_range(v: &Vec<char>, lo: usize, hi: usize) -> (r: Option<i64>)
    requires
        lo <= hi <= v.len(),
    ensures
        r == parse_i64_spec(v@.subrange(lo as int, hi as int)),
{
    let ghost s = v@.subrange(lo as int, hi as int);
    let mut start = lo;
    let mut neg = false;
    if lo < hi && (v[lo] == '-' || v[lo] == '+') {
        assert(s[0] == v@[lo as int]);
        neg = v[lo] == '-';
        start = lo + 1;
        assert(s.drop_first() =~= v@.subrange(start as int, hi as int));
    } else {
        assert(s =~= v@.subrange(start as int, hi as int));
    }
    let ghost body = v@.subrange(start as int, hi as int);
    if start == hi {
        return None;
    }
    // magnitude bound: 2^63 for a negative value, 2^63 - 1 otherwise
    let limit: u64 = if neg {
        9223372036854775808
    } else {
        9223372036854775807
    };
    let mut acc: u64 = 0;
    let mut i = start;
    while i < hi
        invariant
            lo <= start <= i <= hi <= v.len(),
            body == v@.subrange(start as int, hi as int),
            acc as int == digits_value(body.take(i - start)),
            acc <= limit,
            limit == (if neg {
                9223372036854775808u64
            } else {
                9223372036854775807u64
            }),
            s == v@.subrange(lo as int, hi as int),
            neg == (s.len() > 0 && s[0] == '-'),
            body == number_body(s),
            forall|m: int| 0 <= m < i - start ==> is_digit(#[trigger] body[m]),
        decreases hi - i,
    {
        let c = v[i];
        assert(body[i - start] == c);
        if !('0' <= c && c <= '9') {
            assert(!is_digit(body[i - start]));
            assert(!all_digits(body));
            return None;
        }
        let d: u64 = (c as u32 - '0' as u32) as u64;
        assert(d <= 9);
        assert(d == (c as int) - ('0' as int));
        assert(body.take(i - start + 1).drop_last() =~= body.take(i - start));
        assert(body.take(i - start + 1).last() == c);
        assert(digits_value(body.take(i - start + 1)) == acc * 10 + d);
        if acc > (limit - d) / 10 {
            proof {
                assert(acc * 10 + d > limit) by (nonlinear_arith)
                    requires
                        acc > (limit - d) / 10,
                        d <= 9,
                        d <= limit,
                ;
                assert(forall|m: int| 0 <= m < i - start + 1 ==> is_digit(#[trigger] body[m]));
                if all_digits(body) {
                    lemma_digits_value_monotone(body, i - start + 1);
                    assert(digits_value(body) > limit);
                }
            }
            return None;
        }
        proof {
            assert(acc * 10 + d <= limit) by (nonlinear_arith)
                requires
                    acc <= (limit - d) / 10,
                    d <= 9,
                    d <= limit,
            ;
        }
        acc = acc * 10 + d;
        i = i + 1;
    }
    assert(body.take(hi - start) =~= body);
    if neg {
        if acc == 9223372036854775808 {
            Some(i64::MIN)
        } else {
            Some(-(acc as i64))
        }
    } else {
        Some(acc as i64)
    }
}

/// The characters of `s`, in order.
pub fn chars_of(s: &str) -> (v: Vec<char>)
    ensures
        v@ == s@,
{
    let mut v: Vec<char> = Vec::new();
    for c in it: s.chars()
        invariant
            v@ == it.seq().take(it.index()),
    {
        v.push(c);
    }
    v
}

/// Trusted: calls `String::from_iter` on the characters; the contract says
/// the string holds exactly those characters, in order.
#[verifier::external_body]
pub(crate) fn string_of(v: &Vec<char>) -> (s: String)
    ensures
        s@ == v@,
{
    String::from_iter(v.iter())
}

} // verus!
