//! The Alibaba Cloud Coding Plan quota: what the console's reply decides.
//! The reply is read by the caller (a JSON document whose strings that hold
//! JSON are opened up), and each scalar of it comes with the caller's
//! floating-point readings: whether it reads as a number (a position in the
//! caller's table of numbers), whether that number is whole, how it prints,
//! and the instant it gives as a time. From there on everything is decided
//! here: the error that applies, whether the key expired, which instance is
//! picked, the plan name and which windows exist.
use crate::json_doc::{key_views, str_is, trimmed_string};
use crate::reply_doc::{body_reads, read_body, ScalarReading};
use crate::text::{
    chars_eq, chars_of, contains_chars, contains_seq, lower_chars, lower_seq, string_of, trim,
};
use crate::usage_feed::{dec, push_dec};
use vstd::prelude::*;

verus! {

/// A scalar read as a number by the caller.
pub struct NumReading {
    /// The number's position in the caller's table of numbers.
    pub at: usize,
    /// The number, when it is whole.
    pub whole: Option<i64>,
    /// How the number prints.
    pub shown: String,
    /// Whether the number is above zero.
    pub positive: bool,
}

/// The caller's readings of one scalar of the reply.
pub struct Reading {
    /// The scalar read as a number (a JSON number, or a string holding one).
    pub num: Option<NumReading>,
    /// The scalar read as an amount: like `num`, but a string may group its
    /// digits with commas.
    pub amount: Option<NumReading>,
    /// A JSON number read as a flag: whether it is not zero.
    pub nonzero: Option<bool>,
    /// The scalar read as a time, in Unix milliseconds.
    pub time_ms: Option<i64>,
}

/// The reply as a JSON document with readings on its scalars; an object
/// keeps its entries in the order of the parser's map.
pub enum QDoc {
    Null,
    Bool(bool, Reading),
    Num(Reading),
    Str(String, Reading),
    Arr(Vec<QDoc>),
    Obj(Vec<(String, QDoc)>),
}

pub open spec fn reading(v: QDoc) -> Option<Reading> {
    match v {
        QDoc::Bool(_, r) => Some(r),
        QDoc::Num(r) => Some(r),
        QDoc::Str(_, r) => Some(r),
        _ => None,
    }
}

/// What a search looks for: 0 a value that reads as a number, 1 a
/// non-blank string, 2 an array, 3 an object, 4 a value that reads as an
/// amount, 5 any value but null.
pub open spec fn accepts(v: QDoc, want: int) -> bool {
    if want == 0 {
        match reading(v) {
            Some(r) => r.num is Some,
            None => false,
        }
    } else if want == 1 {
        match v {
            QDoc::Str(s, _) => trim(s@).len() > 0,
            _ => false,
        }
    } else if want == 2 {
        v is Arr
    } else if want == 3 {
        v is Obj
    } else if want == 4 {
        match reading(v) {
            Some(r) => r.amount is Some,
            None => false,
        }
    } else {
        !(v is Null)
    }
}

/// The value under key `k` among an object's entries.
pub open spec fn entry_of(es: Seq<(String, QDoc)>, k: Seq<char>) -> Option<QDoc>
    decreases es.len(),
{
    if es.len() == 0 {
        None
    } else if es[0].0@ == k {
        Some(es[0].1)
    } else {
        entry_of(es.drop_first(), k)
    }
}

/// The first of `keys`, in order, whose value in the object is what the
/// search looks for.
pub open spec fn direct(es: Seq<(String, QDoc)>, keys: Seq<Seq<char>>, want: int) -> Option<QDoc>
    decreases keys.len(),
{
    if keys.len() == 0 {
        None
    } else {
        match entry_of(es, keys[0]) {
            Some(x) => if accepts(x, want) {
                Some(x)
            } else {
                direct(es, keys.drop_first(), want)
            },
            None => direct(es, keys.drop_first(), want),
        }
    }
}

/// Depth-first search: in an object its keys in order first, then its
/// values in turn; in an array its items in turn.
pub open spec fn find(v: QDoc, keys: Seq<Seq<char>>, want: int) -> Option<QDoc>
    decreases v,
{
    match v {
        QDoc::Obj(es) => match direct(es@, keys, want) {
            Some(x) => Some(x),
            None => find_entries(es@, keys, want),
        },
        QDoc::Arr(items) => find_items(items@, keys, want),
        _ => None,
    }
}

pub open spec fn find_entries(es: Seq<(String, QDoc)>, keys: Seq<Seq<char>>, want: int) -> Option<
    QDoc,
>
    decreases es,
{
    if es.len() == 0 {
        None
    } else {
        match find(es[0].1, keys, want) {
            Some(x) => Some(x),
            None => find_entries(es.drop_first(), keys, want),
        }
    }
}

pub open spec fn find_items(items: Seq<QDoc>, keys: Seq<Seq<char>>, want: int) -> Option<QDoc>
    decreases items,
{
    if items.len() == 0 {
        None
    } else {
        match find(items[0], keys, want) {
            Some(x) => Some(x),
            None => find_items(items.drop_first(), keys, want),
        }
    }
}

/// Whether the object holds one of `keys`.
pub open spec fn holds_any(es: Seq<(String, QDoc)>, keys: Seq<Seq<char>>) -> bool {
    exists|i: int| 0 <= i < keys.len() && entry_of(es, keys[i]) is Some
}

/// Depth-first search for the first object that holds one of `keys`.
pub open spec fn find_holder(v: QDoc, keys: Seq<Seq<char>>) -> Option<QDoc>
    decreases v,
{
    match v {
        QDoc::Obj(es) => if holds_any(es@, keys) {
            Some(v)
        } else {
            holder_entries(es@, keys)
        },
        QDoc::Arr(items) => holder_items(items@, keys),
        _ => None,
    }
}

pub open spec fn holder_entries(es: Seq<(String, QDoc)>, keys: Seq<Seq<char>>) -> Option<QDoc>
    decreases es,
{
    if es.len() == 0 {
        None
    } else {
        match find_holder(es[0].1, keys) {
            Some(x) => Some(x),
            None => holder_entries(es.drop_first(), keys),
        }
    }
}

pub open spec fn holder_items(items: Seq<QDoc>, keys: Seq<Seq<char>>) -> Option<QDoc>
    decreases items,
{
    if items.len() == 0 {
        None
    } else {
        match find_holder(items[0], keys) {
            Some(x) => Some(x),
            None => holder_items(items.drop_first(), keys),
        }
    }
}

/// The first of `keys` present in an object, by its value.
pub open spec fn first_present(es: Seq<(String, QDoc)>, keys: Seq<Seq<char>>) -> Option<QDoc>
    decreases keys.len(),
{
    if keys.len() == 0 {
        None
    } else {
        match entry_of(es, keys[0]) {
            Some(x) => Some(x),
            None => first_present(es, keys.drop_first()),
        }
    }
}

/// The value of the first of `keys` that an object has (none for other
/// values).
pub open spec fn any_of(v: QDoc, keys: Seq<Seq<char>>) -> Option<QDoc> {
    match v {
        QDoc::Obj(es) => first_present(es@, keys),
        _ => None,
    }
}

pub open spec fn opt_ref(r: Option<&QDoc>) -> Option<QDoc> {
    match r {
        Some(x) => Some(*x),
        None => None,
    }
}

fn entry_of_exec<'a>(es: &'a Vec<(String, QDoc)>, k: &str) -> (r: Option<&'a QDoc>)
    ensures
        opt_ref(r) == entry_of(es@, k@),
{
    let n = es.len();
    let mut i: usize = 0;
    assert(es@.subrange(0, n as int) =~= es@);
    while i < n
        invariant
            n == es.len(),
            i <= n,
            entry_of(es@, k@) == entry_of(es@.subrange(i as int, n as int), k@),
        decreases n - i,
    {
        assert(es@.subrange(i as int, n as int).drop_first() =~= es@.subrange(i + 1, n as int));
        if str_is(es[i].0.as_str(), k) {
            return Some(&es[i].1);
        }
        i += 1;
    }
    None
}

fn accepts_exec(v: &QDoc, want: u8) -> (b: bool)
    ensures
        b == accepts(*v, want as int),
{
    if want == 0 {
        match v {
            QDoc::Bool(_, r) => r.num.is_some(),
            QDoc::Num(r) => r.num.is_some(),
            QDoc::Str(_, r) => r.num.is_some(),
            _ => false,
        }
    } else if want == 1 {
        match v {
            QDoc::Str(s, _) => chars_of(trimmed_string(s.as_str()).as_str()).len() > 0,
            _ => false,
        }
    } else if want == 2 {
        match v {
            QDoc::Arr(_) => true,
            _ => false,
        }
    } else if want == 3 {
        match v {
            QDoc::Obj(_) => true,
            _ => false,
        }
    } else if want == 4 {
        match v {
            QDoc::Bool(_, r) => r.amount.is_some(),
            QDoc::Num(r) => r.amount.is_some(),
            QDoc::Str(_, r) => r.amount.is_some(),
            _ => false,
        }
    } else {
        match v {
            QDoc::Null => false,
            _ => true,
        }
    }
}

fn direct_exec<'a>(es: &'a Vec<(String, QDoc)>, keys: &[&str], want: u8) -> (r: Option<&'a QDoc>)
    ensures
        opt_ref(r) == direct(es@, key_views(keys@), want as int),
{
    let ghost kv = key_views(keys@);
    let n = keys.len();
    let mut i: usize = 0;
    assert(kv.subrange(0, n as int) =~= kv);
    while i < n
        invariant
            n == keys.len(),
            kv == key_views(keys@),
            kv.len() == n,
            i <= n,
            direct(es@, kv, want as int) == direct(es@, kv.subrange(i as int, n as int), want as int),
        decreases n - i,
    {
        assert(kv.subrange(i as int, n as int).drop_first() =~= kv.subrange(i + 1, n as int));
        assert(kv.subrange(i as int, n as int)[0] == keys@[i as int]@);
        if let Some(x) = entry_of_exec(es, keys[i]) {
            if accepts_exec(x, want) {
                return Some(x);
            }
        }
        i += 1;
    }
    None
}

/// Depth-first search for the first value under one of `keys` that is what
/// the search looks for (see `find`).
pub fn find_first<'a>(v: &'a QDoc, keys: &[&str], want: u8) -> (r: Option<&'a QDoc>)
    ensures
        opt_ref(r) == find(*v, key_views(keys@), want as int),
    decreases v,
{
    match v {
        QDoc::Obj(es) => {
            let d = direct_exec(es, keys, want);
            if d.is_some() {
                return d;
            }
            let n = es.len();
            let mut i: usize = 0;
            assert(es@.subrange(0, n as int) =~= es@);
            while i < n
                invariant
                    n == es.len(),
                    i <= n,
                    *v == QDoc::Obj(*es),
                    direct(es@, key_views(keys@), want as int) is None,
                    find_entries(es@, key_views(keys@), want as int) == find_entries(
                        es@.subrange(i as int, n as int),
                        key_views(keys@),
                        want as int,
                    ),
                decreases n - i,
            {
                assert(es@.subrange(i as int, n as int).drop_first() =~= es@.subrange(
                    i + 1,
                    n as int,
                ));
                assert(es@.subrange(i as int, n as int)[0] == es@[i as int]);
                let r = find_first(&es[i].1, keys, want);
                if r.is_some() {
                    return r;
                }
                i += 1;
            }
            None
        },
        QDoc::Arr(items) => {
            let n = items.len();
            let mut i: usize = 0;
            assert(items@.subrange(0, n as int) =~= items@);
            while i < n
                invariant
                    n == items.len(),
                    i <= n,
                    *v == QDoc::Arr(*items),
                    find_items(items@, key_views(keys@), want as int) == find_items(
                        items@.subrange(i as int, n as int),
                        key_views(keys@),
                        want as int,
                    ),
                decreases n - i,
            {
                assert(items@.subrange(i as int, n as int).drop_first() =~= items@.subrange(
                    i + 1,
                    n as int,
                ));
                assert(items@.subrange(i as int, n as int)[0] == items@[i as int]);
                let r = find_first(&items[i], keys, want);
                if r.is_some() {
                    return r;
                }
                i += 1;
            }
            None
        },
        _ => None,
    }
}

pub(crate) fn holds_any_exec(es: &Vec<(String, QDoc)>, keys: &[&str]) -> (b: bool)
    ensures
        b == holds_any(es@, key_views(keys@)),
{
    let ghost kv = key_views(keys@);
    let mut i: usize = 0;
    while i < keys.len()
        invariant
            kv == key_views(keys@),
            i <= keys.len(),
            forall|m: int| 0 <= m < i ==> entry_of(es@, #[trigger] kv[m]) is None,
        decreases keys.len() - i,
    {
        if entry_of_exec(es, keys[i]).is_some() {
            assert(entry_of(es@, kv[i as int]) is Some);
            return true;
        }
        i += 1;
    }
    false
}

/// Depth-first search for the first object that holds one of `keys`.
pub fn find_first_holder<'a>(v: &'a QDoc, keys: &[&str]) -> (r: Option<&'a QDoc>)
    ensures
        opt_ref(r) == find_holder(*v, key_views(keys@)),
    decreases v,
{
    match v {
        QDoc::Obj(es) => {
            if holds_any_exec(es, keys) {
                return Some(v);
            }
            let n = es.len();
            let mut i: usize = 0;
            assert(es@.subrange(0, n as int) =~= es@);
            while i < n
                invariant
                    n == es.len(),
                    i <= n,
                    *v == QDoc::Obj(*es),
                    !holds_any(es@, key_views(keys@)),
                    holder_entries(es@, key_views(keys@)) == holder_entries(
                        es@.subrange(i as int, n as int),
                        key_views(keys@),
                    ),
                decreases n - i,
            {
                assert(es@.subrange(i as int, n as int).drop_first() =~= es@.subrange(
                    i + 1,
                    n as int,
                ));
                assert(es@.subrange(i as int, n as int)[0] == es@[i as int]);
                let r = find_first_holder(&es[i].1, keys);
                if r.is_some() {
                    return r;
                }
                i += 1;
            }
            None
        },
        QDoc::Arr(items) => {
            let n = items.len();
            let mut i: usize = 0;
            assert(items@.subrange(0, n as int) =~= items@);
            while i < n
                invariant
                    n == items.len(),
                    i <= n,
                    *v == QDoc::Arr(*items),
                    holder_items(items@, key_views(keys@)) == holder_items(
                        items@.subrange(i as int, n as int),
                        key_views(keys@),
                    ),
                decreases n - i,
            {
                assert(items@.subrange(i as int, n as int).drop_first() =~= items@.subrange(
                    i + 1,
                    n as int,
                ));
                assert(items@.subrange(i as int, n as int)[0] == items@[i as int]);
                let r = find_first_holder(&items[i], keys);
                if r.is_some() {
                    return r;
                }
                i += 1;
            }
            None
        },
        _ => None,
    }
}

/// The value of the first of `keys` that an object has.
pub fn get_any<'a>(v: &'a QDoc, keys: &[&str]) -> (r: Option<&'a QDoc>)
    ensures
        opt_ref(r) == any_of(*v, key_views(keys@)),
{
    match v {
        QDoc::Obj(es) => {
            let ghost kv = key_views(keys@);
            let n = keys.len();
            let mut i: usize = 0;
            assert(kv.subrange(0, n as int) =~= kv);
            while i < n
                invariant
                    n == keys.len(),
                    kv == key_views(keys@),
                    kv.len() == n,
                    i <= n,
                    *v == QDoc::Obj(*es),
                    first_present(es@, kv) == first_present(es@, kv.subrange(i as int, n as int)),
                decreases n - i,
            {
                assert(kv.subrange(i as int, n as int).drop_first() =~= kv.subrange(i + 1, n as int));
                assert(kv.subrange(i as int, n as int)[0] == keys@[i as int]@);
                let x = entry_of_exec(es, keys[i]);
                if x.is_some() {
                    return x;
                }
                i += 1;
            }
            None
        },
        _ => None,
    }
}


// ------------------------------------------------------------------
// Instances
// ------------------------------------------------------------------

pub open spec fn status_keys() -> Seq<Seq<char>> {
    seq!["status"@, "instanceStatus"@]
}

pub open spec fn active_keys() -> Seq<Seq<char>> {
    seq!["isActive"@, "active"@]
}

pub open spec fn end_keys() -> Seq<Seq<char>> {
    seq!["endTime"@, "periodEndTime"@, "expireTime"@, "expirationTime"@]
}

/// The score of an instance's status (ASCII case ignored): valid or active
/// 3, an ended state -1, anything else 0.
pub open spec fn status_score(low: Seq<char>) -> int {
    if low == "valid"@ || low == "active"@ {
        3
    } else if low == "expired"@ || low == "invalid"@ || low == "inactive"@ || low == "disabled"@
        || low == "terminated"@ || low == "stopped"@ {
        -1
    } else {
        0
    }
}

/// The score of an instance's active flag: a boolean gives 3 or -1, a
/// string that says yes or no likewise, anything else 0.
pub open spec fn flag_score(v: Option<QDoc>) -> int {
    match v {
        Some(QDoc::Bool(b, _)) => if b {
            3
        } else {
            -1
        },
        Some(QDoc::Str(s, _)) => {
            let l = lower_seq(trim(s@));
            if l == "true"@ || l == "1"@ || l == "yes"@ || l == "active"@ || l == "valid"@ {
                3
            } else if l == "false"@ || l == "0"@ || l == "no"@ || l == "inactive"@ || l
                == "invalid"@ || l == "expired"@ {
                -1
            } else {
                0
            }
        },
        _ => 0,
    }
}

pub open spec fn time_of(v: Option<QDoc>) -> Option<i64> {
    match v {
        Some(x) => match reading(x) {
            Some(r) => r.time_ms,
            None => None,
        },
        None => None,
    }
}

/// How strongly an instance looks active: its status, else its active
/// flag, else 1 when its end lies after `now`, else 0.
pub open spec fn signal_score(info: QDoc, now: i64) -> int {
    let st = match find(info, status_keys(), 1) {
        Some(QDoc::Str(s, _)) => status_score(lower_seq(trim(s@))),
        _ => 0,
    };
    if st != 0 {
        st
    } else {
        let f = flag_score(any_of(info, active_keys()));
        if f != 0 {
            f
        } else {
            match time_of(any_of(info, end_keys())) {
                Some(t) => if t > now {
                    1
                } else {
                    0
                },
                None => 0,
            }
        }
    }
}

/// The index of the first instance with the highest score among the first
/// `k`.
pub open spec fn best_of(infos: Seq<QDoc>, now: i64, k: int) -> int
    decreases k,
{
    if k <= 1 {
        0
    } else {
        let b = best_of(infos, now, k - 1);
        if signal_score(infos[k - 1], now) > signal_score(infos[b], now) {
            k - 1
        } else {
            b
        }
    }
}

/// The picked instance: the first with the highest score when that score is
/// positive, else the first one.
pub open spec fn picked(infos: Seq<QDoc>, now: i64) -> Option<QDoc> {
    if infos.len() == 0 {
        None
    } else {
        let b = best_of(infos, now, infos.len() as int);
        if signal_score(infos[b], now) > 0 {
            Some(infos[b])
        } else {
            Some(infos[0])
        }
    }
}

fn lowered_trim(s: &String) -> (r: Vec<char>)
    ensures
        r@ == lower_seq(trim(s@)),
{
    lower_chars(&chars_of(trimmed_string(s.as_str()).as_str()))
}

fn equals_lit(v: &Vec<char>, lit: &str) -> (b: bool)
    ensures
        b == (v@ == lit@),
{
    chars_eq(v, &chars_of(lit))
}

fn holds(v: &Vec<char>, lit: &str) -> (b: bool)
    ensures
        b == contains_seq(v@, lit@),
{
    contains_chars(v, &chars_of(lit))
}

/// How strongly an instance looks active (see `signal_score`).
pub fn active_signal_score(info: &QDoc, now: i64) -> (r: i64)
    ensures
        r == signal_score(*info, now),
{
    let sk: [&str; 2] = ["status", "instanceStatus"];
    let ak: [&str; 2] = ["isActive", "active"];
    let ek: [&str; 4] = ["endTime", "periodEndTime", "expireTime", "expirationTime"];
    proof {
        assert(key_views(sk@) =~= status_keys());
        assert(key_views(ak@) =~= active_keys());
        assert(key_views(ek@) =~= end_keys());
    }
    if let Some(QDoc::Str(s, _)) = find_first(info, sk.as_slice(), 1) {
        let l = lowered_trim(s);
        if equals_lit(&l, "valid") || equals_lit(&l, "active") {
            return 3;
        }
        if equals_lit(&l, "expired") || equals_lit(&l, "invalid") || equals_lit(&l, "inactive") || equals_lit(&l, "disabled") || equals_lit(
            &l,
            "terminated",
        ) || equals_lit(&l, "stopped") {
            return -1;
        }
    }
    match get_any(info, ak.as_slice()) {
        Some(QDoc::Bool(b, _)) => {
            return if *b {
                3
            } else {
                -1
            };
        },
        Some(QDoc::Str(s, _)) => {
            let l = lowered_trim(s);
            if equals_lit(&l, "true") || equals_lit(&l, "1") || equals_lit(&l, "yes") || equals_lit(&l, "active") || equals_lit(&l, "valid") {
                return 3;
            }
            if equals_lit(&l, "false") || equals_lit(&l, "0") || equals_lit(&l, "no") || equals_lit(&l, "inactive") || equals_lit(
                &l,
                "invalid",
            ) || equals_lit(&l, "expired") {
                return -1;
            }
        },
        _ => {},
    }
    let t = match get_any(info, ek.as_slice()) {
        Some(QDoc::Bool(_, r)) => r.time_ms,
        Some(QDoc::Num(r)) => r.time_ms,
        Some(QDoc::Str(_, r)) => r.time_ms,
        _ => None,
    };
    match t {
        Some(t) => if t > now {
            1
        } else {
            0
        },
        None => 0,
    }
}

/// The instance whose quota counts (see `picked`).
pub fn pick_instance<'a>(infos: &'a Vec<QDoc>, now: i64) -> (r: Option<&'a QDoc>)
    ensures
        opt_ref(r) == picked(infos@, now),
{
    if infos.len() == 0 {
        return None;
    }
    let mut best: usize = 0;
    let mut best_score = active_signal_score(&infos[0], now);
    let mut i: usize = 1;
    while i < infos.len()
        invariant
            1 <= i <= infos.len(),
            best < i,
            best == best_of(infos@, now, i as int),
            best_score == signal_score(infos@[best as int], now),
        decreases infos.len() - i,
    {
        let score = active_signal_score(&infos[i], now);
        if score > best_score {
            best = i;
            best_score = score;
        }
        i += 1;
    }
    if best_score > 0 {
        Some(&infos[best])
    } else {
        Some(&infos[0])
    }
}

// ------------------------------------------------------------------
// Quota object, plan name and windows
// ------------------------------------------------------------------

pub open spec fn info_keys() -> Seq<Seq<char>> {
    seq!["codingPlanQuotaInfo"@, "coding_plan_quota_info"@]
}

pub open spec fn marker_keys() -> Seq<Seq<char>> {
    seq![
        "per5HourUsedQuota"@,
        "perFiveHourUsedQuota"@,
        "per5HourTotalQuota"@,
        "perFiveHourTotalQuota"@,
        "perWeekUsedQuota"@,
        "perWeekTotalQuota"@,
        "perBillMonthUsedQuota"@,
        "perBillMonthTotalQuota"@,
    ]
}

/// The quota object: the first object under `codingPlanQuotaInfo` (or its
/// snake-case form), else the first object that holds a window's used or
/// total count.
pub open spec fn quota_info(v: QDoc) -> Option<QDoc> {
    match find(v, info_keys(), 3) {
        Some(x) => Some(x),
        None => find_holder(v, marker_keys()),
    }
}

/// The quota object (see `quota_info`).
pub fn find_quota_info<'a>(v: &'a QDoc) -> (r: Option<&'a QDoc>)
    ensures
        opt_ref(r) == quota_info(*v),
{
    let ik: [&str; 2] = ["codingPlanQuotaInfo", "coding_plan_quota_info"];
    let mk: [&str; 8] = [
        "per5HourUsedQuota",
        "perFiveHourUsedQuota",
        "per5HourTotalQuota",
        "perFiveHourTotalQuota",
        "perWeekUsedQuota",
        "perWeekTotalQuota",
        "perBillMonthUsedQuota",
        "perBillMonthTotalQuota",
    ];
    proof {
        assert(key_views(ik@) =~= info_keys());
        assert(key_views(mk@) =~= marker_keys());
    }
    let x = find_first(v, ik.as_slice(), 3);
    if x.is_some() {
        x
    } else {
        find_first_holder(v, mk.as_slice())
    }
}

/// The trimmed non-blank string under the first of `keys` that an object
/// has.
pub open spec fn name_at(v: QDoc, keys: Seq<Seq<char>>) -> Option<Seq<char>> {
    match any_of(v, keys) {
        Some(QDoc::Str(s, _)) => if trim(s@).len() > 0 {
            Some(trim(s@))
        } else {
            None
        },
        _ => None,
    }
}

pub open spec fn or_else(a: Option<Seq<char>>, b: Option<Seq<char>>) -> Option<Seq<char>> {
    if a is Some {
        a
    } else {
        b
    }
}

/// The plan name: the instance's plan, instance or package name, else the
/// reply's plan or package name (each in camel or snake case).
pub open spec fn plan_name(info: Option<QDoc>, payload: QDoc) -> Option<Seq<char>> {
    let plan = seq!["planName"@, "plan_name"@];
    let inst = seq!["instanceName"@, "instance_name"@];
    let pack = seq!["packageName"@, "package_name"@];
    let from_info = match info {
        Some(i) => or_else(name_at(i, plan), or_else(name_at(i, inst), name_at(i, pack))),
        None => None,
    };
    or_else(from_info, or_else(name_at(payload, plan), name_at(payload, pack)))
}

fn name_at_exec(v: &QDoc, keys: &[&str]) -> (r: Option<String>)
    ensures
        match r {
            Some(x) => name_at(*v, key_views(keys@)) == Some(x@),
            None => name_at(*v, key_views(keys@)) is None,
        },
{
    match get_any(v, keys) {
        Some(QDoc::Str(s, _)) => {
            let t = trimmed_string(s.as_str());
            if chars_of(t.as_str()).len() > 0 {
                Some(t)
            } else {
                None
            }
        },
        _ => None,
    }
}

/// The plan name (see `plan_name`).
pub fn plan_name_of(info: Option<&QDoc>, payload: &QDoc) -> (r: Option<String>)
    ensures
        match r {
            Some(x) => plan_name(opt_ref(info), *payload) == Some(x@),
            None => plan_name(opt_ref(info), *payload) is None,
        },
{
    let plan: [&str; 2] = ["planName", "plan_name"];
    let inst: [&str; 2] = ["instanceName", "instance_name"];
    let pack: [&str; 2] = ["packageName", "package_name"];
    proof {
        assert(key_views(plan@) =~= seq!["planName"@, "plan_name"@]);
        assert(key_views(inst@) =~= seq!["instanceName"@, "instance_name"@]);
        assert(key_views(pack@) =~= seq!["packageName"@, "package_name"@]);
    }
    if let Some(i) = info {
        let a = name_at_exec(i, plan.as_slice());
        if a.is_some() {
            return a;
        }
        let b = name_at_exec(i, inst.as_slice());
        if b.is_some() {
            return b;
        }
        let c = name_at_exec(i, pack.as_slice());
        if c.is_some() {
            return c;
        }
    }
    let d = name_at_exec(payload, plan.as_slice());
    if d.is_some() {
        return d;
    }
    name_at_exec(payload, pack.as_slice())
}

/// A window of the quota panel: counts are positions in the caller's
/// numbers.
pub struct CodingWindow {
    pub key: String,
    pub title: String,
    pub used: Option<usize>,
    pub total: Option<usize>,
    pub unit: String,
    pub resets_at: Option<i64>,
}

pub struct CodingWindowSpec {
    pub key: Seq<char>,
    pub title: Seq<char>,
    pub used: Option<usize>,
    pub total: Option<usize>,
    pub unit: Seq<char>,
    pub resets_at: Option<i64>,
}

pub open spec fn coding_window_spec(w: CodingWindow) -> CodingWindowSpec {
    CodingWindowSpec {
        key: w.key@,
        title: w.title@,
        used: w.used,
        total: w.total,
        unit: w.unit@,
        resets_at: w.resets_at,
    }
}

pub open spec fn coding_windows_spec(ws: Seq<CodingWindow>) -> Seq<CodingWindowSpec> {
    ws.map_values(|w: CodingWindow| coding_window_spec(w))
}

pub open spec fn num_of(v: Option<QDoc>) -> Option<usize> {
    match v {
        Some(x) => match reading(x) {
            Some(r) => match r.num {
                Some(n) => Some(n.at),
                None => None,
            },
            None => None,
        },
        None => None,
    }
}

/// A window when its used or total count reads as a number, counted in
/// requests (`次`), with the reset instant its refresh time gives.
pub open spec fn window_row(
    quota: QDoc,
    key: Seq<char>,
    title: Seq<char>,
    used_keys: Seq<Seq<char>>,
    total_keys: Seq<Seq<char>>,
    reset_keys: Seq<Seq<char>>,
) -> Seq<CodingWindowSpec> {
    let u = num_of(any_of(quota, used_keys));
    let t = num_of(any_of(quota, total_keys));
    if u is None && t is None {
        Seq::empty()
    } else {
        seq![
            CodingWindowSpec {
                key,
                title,
                used: u,
                total: t,
                unit: "次"@,
                resets_at: time_of(any_of(quota, reset_keys)),
            },
        ]
    }
}

/// The 5-hour, weekly and monthly windows of a quota object.
pub open spec fn quota_windows(q: QDoc) -> Seq<CodingWindowSpec> {
    window_row(
        q,
        "hour5"@,
        "5h"@,
        seq!["per5HourUsedQuota"@, "perFiveHourUsedQuota"@],
        seq!["per5HourTotalQuota"@, "perFiveHourTotalQuota"@],
        seq!["per5HourQuotaNextRefreshTime"@, "perFiveHourQuotaNextRefreshTime"@],
    ) + window_row(
        q,
        "weekly"@,
        "本周"@,
        seq!["perWeekUsedQuota"@, "perWeekUsedQuota"@],
        seq!["perWeekTotalQuota"@, "perWeekTotalQuota"@],
        seq!["perWeekQuotaNextRefreshTime"@, "perWeekQuotaNextRefreshTime"@],
    ) + window_row(
        q,
        "monthly"@,
        "本月"@,
        seq!["perBillMonthUsedQuota"@, "perMonthUsedQuota"@],
        seq!["perBillMonthTotalQuota"@, "perMonthTotalQuota"@],
        seq!["perBillMonthQuotaNextRefreshTime"@, "perMonthQuotaNextRefreshTime"@],
    )
}

pub open spec fn at_spec(n: Option<NumReading>) -> Option<usize> {
    match n {
        Some(x) => Some(x.at),
        None => None,
    }
}

fn at_of(n: &Option<NumReading>) -> (r: Option<usize>)
    ensures
        r == at_spec(*n),
{
    match n {
        Some(x) => Some(x.at),
        None => None,
    }
}

fn num_exec(v: Option<&QDoc>) -> (r: Option<usize>)
    ensures
        r == num_of(opt_ref(v)),
{
    match v {
        Some(QDoc::Bool(_, r)) => at_of(&r.num),
        Some(QDoc::Num(r)) => at_of(&r.num),
        Some(QDoc::Str(_, r)) => at_of(&r.num),
        _ => None,
    }
}

fn time_exec(v: Option<&QDoc>) -> (r: Option<i64>)
    ensures
        r == time_of(opt_ref(v)),
{
    match v {
        Some(QDoc::Bool(_, r)) => r.time_ms,
        Some(QDoc::Num(r)) => r.time_ms,
        Some(QDoc::Str(_, r)) => r.time_ms,
        _ => None,
    }
}

fn push_window(
    out: &mut Vec<CodingWindow>,
    quota: &QDoc,
    key: &str,
    title: &str,
    used_keys: &[&str],
    total_keys: &[&str],
    reset_keys: &[&str],
)
    ensures
        coding_windows_spec(final(out)@) == coding_windows_spec(old(out)@) + window_row(
            *quota,
            key@,
            title@,
            key_views(used_keys@),
            key_views(total_keys@),
            key_views(reset_keys@),
        ),
{
    let ghost before = out@;
    let u = num_exec(get_any(quota, used_keys));
    let t = num_exec(get_any(quota, total_keys));
    if u.is_some() || t.is_some() {
        let r = time_exec(get_any(quota, reset_keys));
        out.push(
            CodingWindow {
                key: key.to_owned(),
                title: title.to_owned(),
                used: u,
                total: t,
                unit: "次".to_owned(),
                resets_at: r,
            },
        );
    }
    assert(coding_windows_spec(out@) =~= coding_windows_spec(before) + window_row(
        *quota,
        key@,
        title@,
        key_views(used_keys@),
        key_views(total_keys@),
        key_views(reset_keys@),
    ));
}

/// The windows of a quota object (see `quota_windows`).
pub fn windows_of(quota: &QDoc) -> (r: Vec<CodingWindow>)
    ensures
        coding_windows_spec(r@) == quota_windows(*quota),
{
    let h_used: [&str; 2] = ["per5HourUsedQuota", "perFiveHourUsedQuota"];
    let h_total: [&str; 2] = ["per5HourTotalQuota", "perFiveHourTotalQuota"];
    let h_reset: [&str; 2] = ["per5HourQuotaNextRefreshTime", "perFiveHourQuotaNextRefreshTime"];
    let w_used: [&str; 2] = ["perWeekUsedQuota", "perWeekUsedQuota"];
    let w_total: [&str; 2] = ["perWeekTotalQuota", "perWeekTotalQuota"];
    let w_reset: [&str; 2] = ["perWeekQuotaNextRefreshTime", "perWeekQuotaNextRefreshTime"];
    let m_used: [&str; 2] = ["perBillMonthUsedQuota", "perMonthUsedQuota"];
    let m_total: [&str; 2] = ["perBillMonthTotalQuota", "perMonthTotalQuota"];
    let m_reset: [&str; 2] = ["perBillMonthQuotaNextRefreshTime", "perMonthQuotaNextRefreshTime"];
    proof {
        assert(key_views(h_used@) =~= seq!["per5HourUsedQuota"@, "perFiveHourUsedQuota"@]);
        assert(key_views(h_total@) =~= seq!["per5HourTotalQuota"@, "perFiveHourTotalQuota"@]);
        assert(key_views(h_reset@) =~= seq![
            "per5HourQuotaNextRefreshTime"@,
            "perFiveHourQuotaNextRefreshTime"@,
        ]);
        assert(key_views(w_used@) =~= seq!["perWeekUsedQuota"@, "perWeekUsedQuota"@]);
        assert(key_views(w_total@) =~= seq!["perWeekTotalQuota"@, "perWeekTotalQuota"@]);
        assert(key_views(w_reset@) =~= seq![
            "perWeekQuotaNextRefreshTime"@,
            "perWeekQuotaNextRefreshTime"@,
        ]);
        assert(key_views(m_used@) =~= seq!["perBillMonthUsedQuota"@, "perMonthUsedQuota"@]);
        assert(key_views(m_total@) =~= seq!["perBillMonthTotalQuota"@, "perMonthTotalQuota"@]);
        assert(key_views(m_reset@) =~= seq![
            "perBillMonthQuotaNextRefreshTime"@,
            "perMonthQuotaNextRefreshTime"@,
        ]);
    }
    let mut out: Vec<CodingWindow> = Vec::new();
    assert(coding_windows_spec(out@) =~= Seq::<CodingWindowSpec>::empty());
    push_window(&mut out, quota, "hour5", "5h", h_used.as_slice(), h_total.as_slice(), h_reset.as_slice());
    push_window(&mut out, quota, "weekly", "本周", w_used.as_slice(), w_total.as_slice(), w_reset.as_slice());
    push_window(&mut out, quota, "monthly", "本月", m_used.as_slice(), m_total.as_slice(), m_reset.as_slice());
    out
}

// ------------------------------------------------------------------
// The entry of one credential
// ------------------------------------------------------------------

/// What the card of a Coding Plan credential shows.
pub struct CodingPlanDecision {
    /// `ok`, `expired` or `error`.
    pub status: String,
    pub message: Option<String>,
    pub plan_name: Option<String>,
    pub windows: Vec<CodingWindow>,
}

pub open spec fn api_key_message() -> Seq<char> {
    "API Key 无效或已过期"@
}

pub open spec fn need_login_message() -> Seq<char> {
    "该账号需要网页登录会话，API Key 模式暂不支持此账号"@
}

pub open spec fn missing_quota_message() -> Seq<char> {
    "阿里 Coding Plan 响应缺少配额数据"@
}

pub open spec fn fail(status: Seq<char>, message: Seq<char>) -> (
    Seq<char>,
    Option<Seq<char>>,
    Option<Seq<char>>,
    Seq<CodingWindowSpec>,
) {
    (status, Some(message), None, Seq::empty())
}

pub open spec fn code_keys() -> Seq<Seq<char>> {
    seq!["statusCode"@, "status_code"@, "code"@]
}

pub open spec fn message_keys() -> Seq<Seq<char>> {
    seq!["statusMessage"@, "status_msg"@, "message"@, "msg"@]
}

pub open spec fn code_text_keys() -> Seq<Seq<char>> {
    seq!["code"@, "status"@, "statusCode"@]
}

pub open spec fn login_message_keys() -> Seq<Seq<char>> {
    seq!["message"@, "msg"@, "statusMessage"@]
}

pub open spec fn instance_keys() -> Seq<Seq<char>> {
    seq!["codingPlanInstanceInfos"@, "coding_plan_instance_infos"@]
}

pub open spec fn found_str(v: Option<QDoc>) -> Option<Seq<char>> {
    match v {
        Some(QDoc::Str(s, _)) => Some(trim(s@)),
        _ => None,
    }
}

/// A status code other than 0 and 200 in the reply: its message, or
/// `unknown error`; an expired key when the message speaks of the API key or
/// of being unauthorized.
pub open spec fn code_failure(v: QDoc, code: Reading) -> (
    Seq<char>,
    Option<Seq<char>>,
    Option<Seq<char>>,
    Seq<CodingWindowSpec>,
) {
    let m = match found_str(find(v, message_keys(), 1)) {
        Some(x) => x,
        None => "unknown error"@,
    };
    let low = lower_seq(m);
    if contains_seq(low, "api key"@) || contains_seq(low, "unauthorized"@) {
        fail("expired"@, api_key_message())
    } else {
        fail(
            "error"@,
            "阿里云平台返回错误: "@ + m + "（code "@ + match code.num {
                Some(t) => t.shown@,
                None => Seq::empty(),
            } + "）"@,
        )
    }
}

/// The reply asks for a web login session: its code or status says so, or
/// its message asks to log in or speaks of a console session.
pub open spec fn needs_login(v: QDoc) -> bool {
    (match found_str(find(v, code_text_keys(), 1)) {
        Some(c) => contains_seq(lower_seq(c), "needlogin"@) || contains_seq(lower_seq(c), "login"@),
        None => false,
    }) || (match found_str(find(v, login_message_keys(), 1)) {
        Some(m) => {
            let l = lower_seq(m);
            contains_seq(l, "log in"@) || contains_seq(l, "login"@) || contains_seq(
                l,
                "console session"@,
            ) || contains_seq(l, "api key mode may be unavailable"@)
        },
        None => false,
    })
}

pub open spec fn instances_of(v: QDoc) -> Seq<QDoc> {
    match find(v, instance_keys(), 2) {
        Some(QDoc::Arr(xs)) => xs@,
        _ => Seq::empty(),
    }
}

/// The quota of a reply that reports no error: the picked instance's quota
/// object, else one anywhere in the reply; its windows and the plan name.
pub open spec fn quota_outcome(v: QDoc, now: i64) -> (
    Seq<char>,
    Option<Seq<char>>,
    Option<Seq<char>>,
    Seq<CodingWindowSpec>,
) {
    let inst = picked(instances_of(v), now);
    let quota = match inst {
        Some(i) => match quota_info(i) {
            Some(q) => Some(q),
            None => quota_info(v),
        },
        None => quota_info(v),
    };
    match quota {
        None => fail("error"@, missing_quota_message()),
        Some(q) => {
            let ws = quota_windows(q);
            if ws.len() == 0 {
                fail("error"@, missing_quota_message())
            } else {
                ("ok"@, None, plan_name(inst, v), ws)
            }
        },
    }
}

/// What a read reply decides: a status code other than 0 and 200 first,
/// then a request for a web login, then the quota.
pub open spec fn reply_outcome(v: QDoc, now: i64) -> (
    Seq<char>,
    Option<Seq<char>>,
    Option<Seq<char>>,
    Seq<CodingWindowSpec>,
) {
    match find(v, code_keys(), 0) {
        Some(c) if reading(c) is Some && reading(c)->0.num is Some && !(reading(c)->0.num->0.whole
            == Some(0i64) || reading(c)->0.num->0.whole == Some(200i64)) => code_failure(
            v,
            reading(c)->0,
        ),
        _ => if needs_login(v) {
            fail("error"@, need_login_message())
        } else {
            quota_outcome(v, now)
        },
    }
}

/// What the card of a Coding Plan credential shows, from the query's
/// result (`raw`: the HTTP status and body, or the request's failure) and
/// the body read as JSON (`doc`, none when it is no JSON): a failed request
/// is an error; HTTP 401/403 an expired key; another status than 200 an
/// error naming it; an empty body or one that is no JSON an error; else what
/// the reply decides (see `reply_outcome`).
pub open spec fn coding_plan_outcome(
    raw: Result<(u16, Option<String>), String>,
    doc: Option<QDoc>,
    now: i64,
) -> (Seq<char>, Option<Seq<char>>, Option<Seq<char>>, Seq<CodingWindowSpec>) {
    match raw {
        Err(e) => fail("error"@, "阿里 Coding Plan 额度"@ + e@),
        Ok((st, body)) => if st == 401 || st == 403 {
            fail("expired"@, api_key_message())
        } else if st != 200 {
            fail("error"@, "阿里 Coding Plan 额度查询失败（HTTP "@ + dec(st as int) + "）"@)
        } else if body is None || trim(body->0@).len() == 0 {
            fail("error"@, "阿里 Coding Plan 额度响应为空"@)
        } else {
            match doc {
                None => fail("error"@, "阿里 Coding Plan 额度响应解析失败"@),
                Some(v) => reply_outcome(v, now),
            }
        },
    }
}

pub open spec fn decision_view(d: CodingPlanDecision) -> (
    Seq<char>,
    Option<Seq<char>>,
    Option<Seq<char>>,
    Seq<CodingWindowSpec>,
) {
    (
        d.status@,
        match d.message {
            Some(m) => Some(m@),
            None => None,
        },
        match d.plan_name {
            Some(m) => Some(m@),
            None => None,
        },
        coding_windows_spec(d.windows@),
    )
}

fn failed(status: &str, message: Vec<char>) -> (r: CodingPlanDecision)
    ensures
        decision_view(r) == fail(status@, message@),
{
    let w: Vec<CodingWindow> = Vec::new();
    assert(coding_windows_spec(w@) =~= Seq::<CodingWindowSpec>::empty());
    CodingPlanDecision {
        status: status.to_owned(),
        message: Some(string_of(&message)),
        plan_name: None,
        windows: w,
    }
}

fn found_str_exec(v: Option<&QDoc>) -> (r: Option<Vec<char>>)
    ensures
        match r {
            Some(x) => found_str(opt_ref(v)) == Some(x@),
            None => found_str(opt_ref(v)) is None,
        },
{
    match v {
        Some(QDoc::Str(s, _)) => Some(chars_of(trimmed_string(s.as_str()).as_str())),
        _ => None,
    }
}

fn code_failure_exec(v: &QDoc, code: &Reading) -> (r: CodingPlanDecision)
    ensures
        decision_view(r) == code_failure(*v, *code),
{
    let mk: [&str; 4] = ["statusMessage", "status_msg", "message", "msg"];
    proof {
        assert(key_views(mk@) =~= message_keys());
    }
    let m = match found_str_exec(find_first(v, mk.as_slice(), 1)) {
        Some(x) => x,
        None => chars_of("unknown error"),
    };
    let low = lower_chars(&m);
    if holds(&low, "api key") || holds(&low, "unauthorized") {
        return failed("expired", chars_of("API Key 无效或已过期"));
    }
    let mut out = chars_of("阿里云平台返回错误: ");
    let mut mm = m;
    out.append(&mut mm);
    let mut c = chars_of("（code ");
    out.append(&mut c);
    if let Some(t) = &code.num {
        let mut tv = chars_of(t.shown.as_str());
        out.append(&mut tv);
    }
    let mut tail = chars_of("）");
    out.append(&mut tail);
    failed("error", out)
}

fn needs_login_exec(v: &QDoc) -> (b: bool)
    ensures
        b == needs_login(*v),
{
    let ck: [&str; 3] = ["code", "status", "statusCode"];
    let lk: [&str; 3] = ["message", "msg", "statusMessage"];
    proof {
        assert(key_views(ck@) =~= code_text_keys());
        assert(key_views(lk@) =~= login_message_keys());
    }
    let by_code = match found_str_exec(find_first(v, ck.as_slice(), 1)) {
        Some(c) => {
            let l = lower_chars(&c);
            holds(&l, "needlogin") || holds(&l, "login")
        },
        None => false,
    };
    if by_code {
        return true;
    }
    match found_str_exec(find_first(v, lk.as_slice(), 1)) {
        Some(m) => {
            let l = lower_chars(&m);
            holds(&l, "log in") || holds(&l, "login") || holds(&l, "console session") || holds(
                &l,
                "api key mode may be unavailable",
            )
        },
        None => false,
    }
}

fn quota_outcome_exec(v: &QDoc, now: i64) -> (r: CodingPlanDecision)
    ensures
        decision_view(r) == quota_outcome(*v, now),
{
    let ik: [&str; 2] = ["codingPlanInstanceInfos", "coding_plan_instance_infos"];
    proof {
        assert(key_views(ik@) =~= instance_keys());
    }
    let none: Vec<QDoc> = Vec::new();
    let items: &Vec<QDoc> = match find_first(v, ik.as_slice(), 2) {
        Some(QDoc::Arr(xs)) => xs,
        _ => &none,
    };
    assert(items@ == instances_of(*v));
    let inst = pick_instance(items, now);
    let quota = match inst {
        Some(i) => match find_quota_info(i) {
            Some(q) => Some(q),
            None => find_quota_info(v),
        },
        None => find_quota_info(v),
    };
    match quota {
        None => failed("error", chars_of("阿里 Coding Plan 响应缺少配额数据")),
        Some(q) => {
            let ws = windows_of(q);
            if ws.len() == 0 {
                failed("error", chars_of("阿里 Coding Plan 响应缺少配额数据"))
            } else {
                let plan = plan_name_of(inst, v);
                CodingPlanDecision {
                    status: "ok".to_owned(),
                    message: None,
                    plan_name: plan,
                    windows: ws,
                }
            }
        },
    }
}

/// What the card of a Coding Plan credential shows (see
/// `coding_plan_outcome`); `now_ms` decides whether an instance's end lies
/// ahead.
pub fn coding_plan_entry(
    raw: &Result<(u16, Option<String>), String>,
    doc: Option<QDoc>,
    now_ms: i64,
) -> (r: CodingPlanDecision)
    ensures
        decision_view(r) == coding_plan_outcome(*raw, doc, now_ms),
{
    decide(raw, &doc, now_ms)
}

/// The body of a query's result read as a document (see `body_reads`); none
/// for a failed request or a missing body.
pub open spec fn raw_reads(
    raw: Result<(u16, Option<String>), String>,
    q: Option<QDoc>,
    table: Seq<ScalarReading>,
) -> bool {
    match raw {
        Ok((_, Some(b))) => body_reads(q, b@, table),
        _ => q is None,
    }
}

/// What the card of a Coding Plan credential shows from the query's result:
/// the body is parsed here, its scalars read with the caller's table (the
/// floating-point readings of their texts), and the card decided (see
/// `coding_plan_outcome`). The document read is handed back with it.
pub fn entry_from_raw(
    raw: &Result<(u16, Option<String>), String>,
    table: &Vec<ScalarReading>,
    now_ms: i64,
) -> (r: (CodingPlanDecision, Option<QDoc>))
    ensures
        raw_reads(*raw, r.1, table@),
        decision_view(r.0) == coding_plan_outcome(*raw, r.1, now_ms),
{
    let doc = match raw {
        Ok((_, Some(b))) => read_body(b.as_str(), table),
        _ => None,
    };
    let d = decide(raw, &doc, now_ms);
    (d, doc)
}

fn decide(
    raw: &Result<(u16, Option<String>), String>,
    doc: &Option<QDoc>,
    now_ms: i64,
) -> (r: CodingPlanDecision)
    ensures
        decision_view(r) == coding_plan_outcome(*raw, *doc, now_ms),
{
    match raw {
        Err(e) => {
            let mut out = chars_of("阿里 Coding Plan 额度");
            let mut ev = chars_of(e.as_str());
            out.append(&mut ev);
            failed("error", out)
        },
        Ok((st, body)) => {
            if *st == 401 || *st == 403 {
                return failed("expired", chars_of("API Key 无效或已过期"));
            }
            if *st != 200 {
                let mut out = chars_of("阿里 Coding Plan 额度查询失败（HTTP ");
                push_dec(&mut out, *st as i64);
                let mut tail = chars_of("）");
                out.append(&mut tail);
                return failed("error", out);
            }
            let blank = match body {
                Some(b) => chars_of(trimmed_string(b.as_str()).as_str()).len() == 0,
                None => true,
            };
            if blank {
                return failed("error", chars_of("阿里 Coding Plan 额度响应为空"));
            }
            match doc {
                None => failed("error", chars_of("阿里 Coding Plan 额度响应解析失败")),
                Some(v) => {
                    let ck: [&str; 3] = ["statusCode", "status_code", "code"];
                    proof {
                        assert(key_views(ck@) =~= code_keys());
                    }
                    let code: Option<&Reading> = match find_first(v, ck.as_slice(), 0) {
                        Some(QDoc::Bool(_, r)) => Some(r),
                        Some(QDoc::Num(r)) => Some(r),
                        Some(QDoc::Str(_, r)) => Some(r),
                        _ => None,
                    };
                    if let Some(c) = code {
                        let ok_code = match &c.num {
                            Some(nr) => match nr.whole {
                                Some(w) => w == 0 || w == 200,
                                None => false,
                            },
                            None => true,
                        };
                        if !ok_code {
                            return code_failure_exec(v, c);
                        }
                    }
                    if needs_login_exec(v) {
                        return failed(
                            "error",
                            chars_of("该账号需要网页登录会话，API Key 模式暂不支持此账号"),
                        );
                    }
                    quota_outcome_exec(v, now_ms)
                },
            }
        },
    }
}
} // verus!
