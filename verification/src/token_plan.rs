//! The Bailian Token Plan quota: what the console's replies decide. Each
//! reply comes read by the caller into a document with readings on its
//! scalars (see `coding_plan`); here are decided the failure class of a
//! reply, the team subscription summary, the personal usage windows and the
//! entry shown for the credential. The floating-point work (percentages,
//! differences, rounding) stays with the caller, which gets the positions of
//! the numbers to combine.
use crate::alibabatoken::{
    auth_class, auth_error_of, cookie_value, cookie_value_of, failure_message, login_html, plan_name_of,
    display_plan_name, is_likely_login_html, Failure, PayloadError,
};
use crate::coding_plan::{
    any_of, entry_of, find, find_first, found_str, get_any, name_at, or_else, opt_ref, reading,
    time_of, NumReading, QDoc,
};
use crate::json_doc::{key_views, str_is, trimmed_string};
use crate::cookie_util::{normalize_cookie_secret, normalized_cookie};
use crate::provider_credentials::CredentialQuerySnapshot;
use crate::reply_doc::{body_reads, read_body, ScalarReading};
use crate::text::{chars_eq, chars_of, lower_chars, lower_seq, string_of, trim};
use crate::usage_feed::dec;
use vstd::prelude::*;

verus! {

/// A value read as a flag: a boolean, a JSON number (not zero), or a string
/// that says yes (`true`, `1`, `yes`, `active`, `valid`, `normal`) or no
/// (`false`, `0`, `no`, `inactive`, `invalid`, `expired`), ASCII case
/// ignored.
pub open spec fn flag_of(v: Option<QDoc>) -> Option<bool> {
    match v {
        Some(QDoc::Bool(b, _)) => Some(b),
        Some(QDoc::Num(r)) => r.nonzero,
        Some(QDoc::Str(s, _)) => {
            let l = lower_seq(trim(s@));
            if l == "true"@ || l == "1"@ || l == "yes"@ || l == "active"@ || l == "valid"@ || l
                == "normal"@ {
                Some(true)
            } else if l == "false"@ || l == "0"@ || l == "no"@ || l == "inactive"@ || l
                == "invalid"@ || l == "expired"@ {
                Some(false)
            } else {
                None
            }
        },
        _ => None,
    }
}

/// Whether an object has one of `keys` with a flag that says no.
pub open spec fn direct_false(es: Seq<(String, QDoc)>, keys: Seq<Seq<char>>) -> bool {
    exists|i: int| 0 <= i < keys.len() && flag_of(entry_of(es, #[trigger] keys[i])) == Some(false)
}

/// Whether anywhere in the document one of `keys` has a flag that says no.
pub open spec fn any_false(v: QDoc, keys: Seq<Seq<char>>) -> bool
    decreases v,
{
    match v {
        QDoc::Obj(es) => direct_false(es@, keys) || any_false_entries(es@, keys),
        QDoc::Arr(items) => any_false_items(items@, keys),
        _ => false,
    }
}

pub open spec fn any_false_entries(es: Seq<(String, QDoc)>, keys: Seq<Seq<char>>) -> bool
    decreases es,
{
    if es.len() == 0 {
        false
    } else {
        any_false(es[0].1, keys) || any_false_entries(es.drop_first(), keys)
    }
}

pub open spec fn any_false_items(items: Seq<QDoc>, keys: Seq<Seq<char>>) -> bool
    decreases items,
{
    if items.len() == 0 {
        false
    } else {
        any_false(items[0], keys) || any_false_items(items.drop_first(), keys)
    }
}

/// Whether an object itself reports failure (`success` or `Success` says
/// no).
pub open spec fn fails_here(es: Seq<(String, QDoc)>) -> bool {
    flag_of(entry_of(es, "success"@)) == Some(false) || flag_of(entry_of(es, "Success"@)) == Some(
        false,
    )
}

/// Depth-first search for the first object that reports failure.
pub open spec fn failing_frame(v: QDoc) -> Option<QDoc>
    decreases v,
{
    match v {
        QDoc::Obj(es) => if fails_here(es@) {
            Some(v)
        } else {
            frame_entries(es@)
        },
        QDoc::Arr(items) => frame_items(items@),
        _ => None,
    }
}

pub open spec fn frame_entries(es: Seq<(String, QDoc)>) -> Option<QDoc>
    decreases es,
{
    if es.len() == 0 {
        None
    } else {
        match failing_frame(es[0].1) {
            Some(x) => Some(x),
            None => frame_entries(es.drop_first()),
        }
    }
}

pub open spec fn frame_items(items: Seq<QDoc>) -> Option<QDoc>
    decreases items,
{
    if items.len() == 0 {
        None
    } else {
        match failing_frame(items[0]) {
            Some(x) => Some(x),
            None => frame_items(items.drop_first()),
        }
    }
}

/// Whether an object has one of `keys` with a value other than null.
pub open spec fn holds_set(es: Seq<(String, QDoc)>, keys: Seq<Seq<char>>) -> bool {
    exists|i: int|
        0 <= i < keys.len() && (match entry_of(es, #[trigger] keys[i]) {
            Some(x) => !(x is Null),
            None => false,
        })
}

/// Depth-first search for the first object that has one of `keys` set.
pub open spec fn find_set(v: QDoc, keys: Seq<Seq<char>>) -> Option<QDoc>
    decreases v,
{
    match v {
        QDoc::Obj(es) => if holds_set(es@, keys) {
            Some(v)
        } else {
            set_entries(es@, keys)
        },
        QDoc::Arr(items) => set_items(items@, keys),
        _ => None,
    }
}

pub open spec fn set_entries(es: Seq<(String, QDoc)>, keys: Seq<Seq<char>>) -> Option<QDoc>
    decreases es,
{
    if es.len() == 0 {
        None
    } else {
        match find_set(es[0].1, keys) {
            Some(x) => Some(x),
            None => set_entries(es.drop_first(), keys),
        }
    }
}

pub open spec fn set_items(items: Seq<QDoc>, keys: Seq<Seq<char>>) -> Option<QDoc>
    decreases items,
{
    if items.len() == 0 {
        None
    } else {
        match find_set(items[0], keys) {
            Some(x) => Some(x),
            None => set_items(items.drop_first(), keys),
        }
    }
}

fn is_lit(v: &Vec<char>, lit: &str) -> (b: bool)
    ensures
        b == (v@ == lit@),
{
    chars_eq(v, &chars_of(lit))
}

fn flag_exec(v: Option<&QDoc>) -> (r: Option<bool>)
    ensures
        r == flag_of(opt_ref(v)),
{
    match v {
        Some(QDoc::Bool(b, _)) => Some(*b),
        Some(QDoc::Num(r)) => r.nonzero,
        Some(QDoc::Str(s, _)) => {
            let l = lower_chars(&chars_of(trimmed_string(s.as_str()).as_str()));
            if is_lit(&l, "true") || is_lit(&l, "1") || is_lit(&l, "yes") || is_lit(&l, "active")
                || is_lit(&l, "valid") || is_lit(&l, "normal") {
                Some(true)
            } else if is_lit(&l, "false") || is_lit(&l, "0") || is_lit(&l, "no") || is_lit(
                &l,
                "inactive",
            ) || is_lit(&l, "invalid") || is_lit(&l, "expired") {
                Some(false)
            } else {
                None
            }
        },
        _ => None,
    }
}

fn entry_in<'a>(es: &'a Vec<(String, QDoc)>, k: &str) -> (r: Option<&'a QDoc>)
    ensures
        opt_ref(r) == entry_of(es@, k@),
{
    let n = es.len();
    let mut i: usize = 0;
    assert(es@.subrange(0, n as int) =~= es@);
    while i < n
        invariant
            n == es.len(),
            i <= n,
            entry_of(es@, k@) == entry_of(es@.subrange(i as int, n as int), k@),
        decreases n - i,
    {
        assert(es@.subrange(i as int, n as int).drop_first() =~= es@.subrange(i + 1, n as int));
        if crate::json_doc::str_is(es[i].0.as_str(), k) {
            return Some(&es[i].1);
        }
        i += 1;
    }
    None
}

fn direct_false_exec(es: &Vec<(String, QDoc)>, keys: &[&str]) -> (b: bool)
    ensures
        b == direct_false(es@, key_views(keys@)),
{
    let ghost kv = key_views(keys@);
    let mut i: usize = 0;
    while i < keys.len()
        invariant
            kv == key_views(keys@),
            i <= keys.len(),
            forall|m: int| 0 <= m < i ==> flag_of(entry_of(es@, #[trigger] kv[m])) != Some(false),
        decreases keys.len() - i,
    {
        if flag_exec(entry_in(es, keys[i])) == Some(false) {
            assert(flag_of(entry_of(es@, kv[i as int])) == Some(false));
            return true;
        }
        i += 1;
    }
    false
}

/// Whether anywhere in the document one of `keys` has a flag that says no.
pub fn any_false_exec(v: &QDoc, keys: &[&str]) -> (b: bool)
    ensures
        b == any_false(*v, key_views(keys@)),
    decreases v,
{
    match v {
        QDoc::Obj(es) => {
            if direct_false_exec(es, keys) {
                return true;
            }
            let n = es.len();
            let mut i: usize = 0;
            assert(es@.subrange(0, n as int) =~= es@);
            while i < n
                invariant
                    n == es.len(),
                    i <= n,
                    *v == QDoc::Obj(*es),
                    !direct_false(es@, key_views(keys@)),
                    any_false_entries(es@, key_views(keys@)) == any_false_entries(
                        es@.subrange(i as int, n as int),
                        key_views(keys@),
                    ),
                decreases n - i,
            {
                assert(es@.subrange(i as int, n as int).drop_first() =~= es@.subrange(
                    i + 1,
                    n as int,
                ));
                assert(es@.subrange(i as int, n as int)[0] == es@[i as int]);
                proof {
                    assert((*v)->Obj_0 == *es);
                    assert(decreases_to!(*v => (*v)->Obj_0));
                    assert(decreases_to!(*es => es@));
                    assert(decreases_to!(es@ => es@[i as int]));
                    assert(decreases_to!(es@[i as int] => es@[i as int].1));
                }
                let hit = any_false_exec(&es[i].1, keys);
                if hit {
                    return true;
                }
                i += 1;
            }
            false
        },
        QDoc::Arr(items) => {
            let n = items.len();
            let mut i: usize = 0;
            assert(items@.subrange(0, n as int) =~= items@);
            while i < n
                invariant
                    n == items.len(),
                    i <= n,
                    *v == QDoc::Arr(*items),
                    any_false_items(items@, key_views(keys@)) == any_false_items(
                        items@.subrange(i as int, n as int),
                        key_views(keys@),
                    ),
                decreases n - i,
            {
                assert(items@.subrange(i as int, n as int).drop_first() =~= items@.subrange(
                    i + 1,
                    n as int,
                ));
                assert(items@.subrange(i as int, n as int)[0] == items@[i as int]);
                proof {
                    assert((*v)->Arr_0 == *items);
                    assert(decreases_to!(*v => (*v)->Arr_0));
                    assert(decreases_to!(*items => items@));
                    assert(decreases_to!(items@ => items@[i as int]));
                }
                let hit = any_false_exec(&items[i], keys);
                if hit {
                    return true;
                }
                i += 1;
            }
            false
        },
        _ => false,
    }
}

/// The first object that reports failure (see `failing_frame`).
pub fn failing_success_frame<'a>(v: &'a QDoc) -> (r: Option<&'a QDoc>)
    ensures
        opt_ref(r) == failing_frame(*v),
    decreases v,
{
    match v {
        QDoc::Obj(es) => {
            if flag_exec(entry_in(es, "success")) == Some(false) || flag_exec(
                entry_in(es, "Success"),
            ) == Some(false) {
                return Some(v);
            }
            let n = es.len();
            let mut i: usize = 0;
            assert(es@.subrange(0, n as int) =~= es@);
            while i < n
                invariant
                    n == es.len(),
                    i <= n,
                    *v == QDoc::Obj(*es),
                    !fails_here(es@),
                    frame_entries(es@) == frame_entries(es@.subrange(i as int, n as int)),
                decreases n - i,
            {
                assert(es@.subrange(i as int, n as int).drop_first() =~= es@.subrange(
                    i + 1,
                    n as int,
                ));
                assert(es@.subrange(i as int, n as int)[0] == es@[i as int]);
                let r = failing_success_frame(&es[i].1);
                if r.is_some() {
                    return r;
                }
                i += 1;
            }
            None
        },
        QDoc::Arr(items) => {
            let n = items.len();
            let mut i: usize = 0;
            assert(items@.subrange(0, n as int) =~= items@);
            while i < n
                invariant
                    n == items.len(),
                    i <= n,
                    *v == QDoc::Arr(*items),
                    frame_items(items@) == frame_items(items@.subrange(i as int, n as int)),
                decreases n - i,
            {
                assert(items@.subrange(i as int, n as int).drop_first() =~= items@.subrange(
                    i + 1,
                    n as int,
                ));
                assert(items@.subrange(i as int, n as int)[0] == items@[i as int]);
                let r = failing_success_frame(&items[i]);
                if r.is_some() {
                    return r;
                }
                i += 1;
            }
            None
        },
        _ => None,
    }
}

fn holds_set_exec(es: &Vec<(String, QDoc)>, keys: &[&str]) -> (b: bool)
    ensures
        b == holds_set(es@, key_views(keys@)),
{
    let ghost kv = key_views(keys@);
    let mut i: usize = 0;
    while i < keys.len()
        invariant
            kv == key_views(keys@),
            i <= keys.len(),
            forall|m: int|
                0 <= m < i ==> !(match entry_of(es@, #[trigger] kv[m]) {
                    Some(x) => !(x is Null),
                    None => false,
                }),
        decreases keys.len() - i,
    {
        let set = match entry_in(es, keys[i]) {
            Some(QDoc::Null) => false,
            Some(_) => true,
            None => false,
        };
        if set {
            assert(match entry_of(es@, kv[i as int]) {
                Some(x) => !(x is Null),
                None => false,
            });
            return true;
        }
        i += 1;
    }
    false
}

/// The first object that has one of `keys` set (see `find_set`).
pub fn find_first_obj_with_any_key<'a>(v: &'a QDoc, keys: &[&str]) -> (r: Option<&'a QDoc>)
    ensures
        opt_ref(r) == find_set(*v, key_views(keys@)),
    decreases v,
{
    match v {
        QDoc::Obj(es) => {
            if holds_set_exec(es, keys) {
                return Some(v);
            }
            let n = es.len();
            let mut i: usize = 0;
            assert(es@.subrange(0, n as int) =~= es@);
            while i < n
                invariant
                    n == es.len(),
                    i <= n,
                    *v == QDoc::Obj(*es),
                    !holds_set(es@, key_views(keys@)),
                    set_entries(es@, key_views(keys@)) == set_entries(
                        es@.subrange(i as int, n as int),
                        key_views(keys@),
                    ),
                decreases n - i,
            {
                assert(es@.subrange(i as int, n as int).drop_first() =~= es@.subrange(
                    i + 1,
                    n as int,
                ));
                assert(es@.subrange(i as int, n as int)[0] == es@[i as int]);
                let r = find_first_obj_with_any_key(&es[i].1, keys);
                if r.is_some() {
                    return r;
                }
                i += 1;
            }
            None
        },
        QDoc::Arr(items) => {
            let n = items.len();
            let mut i: usize = 0;
            assert(items@.subrange(0, n as int) =~= items@);
            while i < n
                invariant
                    n == items.len(),
                    i <= n,
                    *v == QDoc::Arr(*items),
                    set_items(items@, key_views(keys@)) == set_items(
                        items@.subrange(i as int, n as int),
                        key_views(keys@),
                    ),
                decreases n - i,
            {
                assert(items@.subrange(i as int, n as int).drop_first() =~= items@.subrange(
                    i + 1,
                    n as int,
                ));
                assert(items@.subrange(i as int, n as int)[0] == items@[i as int]);
                let r = find_first_obj_with_any_key(&items[i], keys);
                if r.is_some() {
                    return r;
                }
                i += 1;
            }
            None
        },
        _ => None,
    }
}


// ------------------------------------------------------------------
// Envelope errors and raw replies
// ------------------------------------------------------------------

pub open spec fn status_num_keys() -> Seq<Seq<char>> {
    seq!["statusCode"@, "status_code"@, "code"@]
}

pub open spec fn code4() -> Seq<Seq<char>> {
    seq!["errorCode"@, "code"@, "status"@, "statusCode"@]
}

pub open spec fn msg4() -> Seq<Seq<char>> {
    seq!["errorMsg"@, "message"@, "msg"@, "statusMessage"@]
}

pub open spec fn frame_code_keys() -> Seq<Seq<char>> {
    seq!["errorCode"@, "Code"@, "code"@]
}

pub open spec fn frame_msg_keys() -> Seq<Seq<char>> {
    seq!["errorMsg"@, "Message"@, "message"@, "msg"@]
}

pub open spec fn status_msg_keys() -> Seq<Seq<char>> {
    seq!["statusMessage"@, "status_msg"@, "message"@, "msg"@]
}

pub open spec fn amount_at(v: Option<QDoc>) -> Option<NumReading> {
    match v {
        Some(x) => match reading(x) {
            Some(r) => r.amount,
            None => None,
        },
        None => None,
    }
}

pub open spec fn whole_is(n: Option<NumReading>, k: i64) -> bool {
    match n {
        Some(x) => x.whole == Some(k),
        None => false,
    }
}

pub open spec fn api_text(m: Option<Seq<char>>) -> Seq<char> {
    match m {
        Some(x) => x,
        None => "request was not successful"@,
    }
}

/// The error class of a reply's envelope, as `auth_class` numbers them (0
/// none, 1 workspace not authorised, 2 login required, 3 invalid
/// credentials) or 4 for another error with its text. In order: an envelope
/// whose `successResponse` says no (401/403 status codes are invalid
/// credentials); a `success`/`Success` flag that says no anywhere (codes and
/// messages read from the failing object first); a status code other than
/// 0 and 200; finally login or authorisation words in the code or message.
pub open spec fn classify(v: QDoc) -> (int, Seq<char>) {
    if flag_of(any_of(v, seq!["successResponse"@])) == Some(false) {
        let st = amount_at(find(v, status_num_keys(), 4));
        if whole_is(st, 401) || whole_is(st, 403) {
            (3, Seq::empty())
        } else {
            let code = found_str(find(v, code4(), 1));
            let msg = or_else(found_str(find(v, msg4(), 1)), code);
            let c = auth_class(code, msg);
            if c != 0 {
                (c, Seq::empty())
            } else {
                (4, api_text(msg))
            }
        }
    } else if any_false(v, seq!["Success"@, "success"@]) {
        let frame = match failing_frame(v) {
            Some(f) => f,
            None => v,
        };
        let code = or_else(
            found_str(find(frame, frame_code_keys(), 1)),
            found_str(find(v, frame_code_keys(), 1)),
        );
        let msg = or_else(
            found_str(find(frame, frame_msg_keys(), 1)),
            found_str(find(v, frame_msg_keys(), 1)),
        );
        let c = auth_class(code, msg);
        if c != 0 {
            (c, Seq::empty())
        } else {
            (4, api_text(or_else(msg, code)))
        }
    } else {
        let st = amount_at(find(v, status_num_keys(), 4));
        if st is Some && !(whole_is(st, 0) || whole_is(st, 200)) {
            if whole_is(st, 401) || whole_is(st, 403) {
                (3, Seq::empty())
            } else {
                (
                    4,
                    match found_str(find(v, status_msg_keys(), 1)) {
                        Some(m) => m,
                        None => "status code "@ + st->0.shown@,
                    },
                )
            }
        } else {
            (auth_class(found_str(find(v, code4(), 1)), found_str(find(v, msg4(), 1))), Seq::empty())
        }
    }
}

pub open spec fn payload_class(r: Result<(), PayloadError>) -> (int, Seq<char>) {
    match r {
        Ok(()) => (0, Seq::empty()),
        Err(PayloadError::WorkspaceNotAuthorised) => (1, Seq::empty()),
        Err(PayloadError::LoginRequired) => (2, Seq::empty()),
        Err(PayloadError::InvalidCredentials) => (3, Seq::empty()),
        Err(PayloadError::Api(m)) => (4, m@),
    }
}

fn str_of(v: Option<&QDoc>) -> (r: Option<String>)
    ensures
        match r {
            Some(x) => found_str(opt_ref(v)) == Some(x@),
            None => found_str(opt_ref(v)) is None,
        },
{
    match v {
        Some(QDoc::Str(s, _)) => Some(trimmed_string(s.as_str())),
        _ => None,
    }
}

pub open spec fn opt_sv(x: Option<String>) -> Option<Seq<char>> {
    match x {
        Some(s) => Some(s@),
        None => None,
    }
}

fn or_str(a: Option<String>, b: Option<String>) -> (r: Option<String>)
    ensures
        opt_sv(r) == or_else(opt_sv(a), opt_sv(b)),
{
    if a.is_some() {
        a
    } else {
        b
    }
}

fn as_str_opt(x: &Option<String>) -> (r: Option<&str>)
    ensures
        match r {
            Some(s) => opt_sv(*x) == Some(s@),
            None => x is None,
        },
{
    match x {
        Some(s) => Some(s.as_str()),
        None => None,
    }
}

fn auth_payload(code: &Option<String>, msg: &Option<String>) -> (r: Option<PayloadError>)
    ensures
        match r {
            None => auth_class(opt_sv(*code), opt_sv(*msg)) == 0,
            Some(e) => payload_class(Err(e)) == (auth_class(opt_sv(*code), opt_sv(*msg)), Seq::<
                char,
            >::empty()) && auth_class(opt_sv(*code), opt_sv(*msg)) != 0,
        },
{
    let c = as_str_opt(code);
    let m = as_str_opt(msg);
    proof {
        assert(opt_sv(*code) == match c {
            Some(x) => Some(x@),
            None => None::<Seq<char>>,
        });
        assert(opt_sv(*msg) == match m {
            Some(x) => Some(x@),
            None => None::<Seq<char>>,
        });
    }
    auth_error_of(c, m)
}

fn amount_exec(v: Option<&QDoc>) -> (r: Option<&NumReading>)
    ensures
        match r {
            Some(x) => amount_at(opt_ref(v)) == Some(*x),
            None => amount_at(opt_ref(v)) is None,
        },
{
    match v {
        Some(QDoc::Bool(_, r)) => r.amount.as_ref(),
        Some(QDoc::Num(r)) => r.amount.as_ref(),
        Some(QDoc::Str(_, r)) => r.amount.as_ref(),
        _ => None,
    }
}

fn whole_exec(n: Option<&NumReading>, k: i64) -> (b: bool)
    ensures
        b == whole_is(
            match n {
                Some(x) => Some(*x),
                None => None,
            },
            k,
        ),
{
    match n {
        Some(x) => x.whole == Some(k),
        None => false,
    }
}

/// The error class of a reply's envelope (see `classify`).
pub fn classify_payload(v: &QDoc) -> (r: Result<(), PayloadError>)
    ensures
        payload_class(r) == classify(*v),
{
    let sr: [&str; 1] = ["successResponse"];
    let snk: [&str; 3] = ["statusCode", "status_code", "code"];
    let c4: [&str; 4] = ["errorCode", "code", "status", "statusCode"];
    let m4: [&str; 4] = ["errorMsg", "message", "msg", "statusMessage"];
    let s2: [&str; 2] = ["Success", "success"];
    let fc: [&str; 3] = ["errorCode", "Code", "code"];
    let fm: [&str; 4] = ["errorMsg", "Message", "message", "msg"];
    let sm: [&str; 4] = ["statusMessage", "status_msg", "message", "msg"];
    proof {
        assert(key_views(sr@) =~= seq!["successResponse"@]);
        assert(key_views(snk@) =~= status_num_keys());
        assert(key_views(c4@) =~= code4());
        assert(key_views(m4@) =~= msg4());
        assert(key_views(s2@) =~= seq!["Success"@, "success"@]);
        assert(key_views(fc@) =~= frame_code_keys());
        assert(key_views(fm@) =~= frame_msg_keys());
        assert(key_views(sm@) =~= status_msg_keys());
    }
    if flag_exec(get_any(v, sr.as_slice())) == Some(false) {
        let st = amount_exec(find_first(v, snk.as_slice(), 4));
        if whole_exec(st, 401) || whole_exec(st, 403) {
            return Err(PayloadError::InvalidCredentials);
        }
        let code = str_of(find_first(v, c4.as_slice(), 1));
        let m0 = str_of(find_first(v, m4.as_slice(), 1));
        let msg = or_str(m0, clone_opt(&code));
        return match auth_payload(&code, &msg) {
            Some(e) => Err(e),
            None => Err(
                PayloadError::Api(
                    match msg {
                        Some(m) => m,
                        None => "request was not successful".to_owned(),
                    },
                ),
            ),
        };
    }
    if any_false_exec(v, s2.as_slice()) {
        let frame = match failing_success_frame(v) {
            Some(f) => f,
            None => v,
        };
        let code = or_str(str_of(find_first(frame, fc.as_slice(), 1)), str_of(find_first(v, fc.as_slice(), 1)));
        let msg = or_str(str_of(find_first(frame, fm.as_slice(), 1)), str_of(find_first(v, fm.as_slice(), 1)));
        return match auth_payload(&code, &msg) {
            Some(e) => Err(e),
            None => Err(
                PayloadError::Api(
                    match or_str(msg, code) {
                        Some(m) => m,
                        None => "request was not successful".to_owned(),
                    },
                ),
            ),
        };
    }
    let st = amount_exec(find_first(v, snk.as_slice(), 4));
    if let Some(n) = st {
        if !(whole_exec(st, 0) || whole_exec(st, 200)) {
            if whole_exec(st, 401) || whole_exec(st, 403) {
                return Err(PayloadError::InvalidCredentials);
            }
            let m = match str_of(find_first(v, sm.as_slice(), 1)) {
                Some(m) => m,
                None => {
                    let mut out = chars_of("status code ");
                    let mut t = chars_of(n.shown.as_str());
                    out.append(&mut t);
                    string_of(&out)
                },
            };
            return Err(PayloadError::Api(m));
        }
    }
    let code = str_of(find_first(v, c4.as_slice(), 1));
    let msg = str_of(find_first(v, m4.as_slice(), 1));
    match auth_payload(&code, &msg) {
        Some(e) => Err(e),
        None => Ok(()),
    }
}

fn clone_opt(x: &Option<String>) -> (r: Option<String>)
    ensures
        r == *x,
{
    match x {
        Some(s) => Some(s.clone()),
        None => None,
    }
}

/// A reply of one console request: its HTTP status and body, or the
/// request's failure; and the body read as JSON (none when it is no JSON).
pub struct Reply {
    pub raw: Result<(u16, Option<String>), String>,
    pub doc: Option<QDoc>,
}

/// A failure class as plain values.
pub enum FailView {
    Network(Seq<char>),
    Expired,
    NotAuthorised,
    Http(u16),
    Parse(Seq<char>),
    Api(Seq<char>),
}

pub open spec fn fail_view(f: Failure) -> FailView {
    match f {
        Failure::Network(e) => FailView::Network(e@),
        Failure::Expired => FailView::Expired,
        Failure::NotAuthorised => FailView::NotAuthorised,
        Failure::Http(s) => FailView::Http(s),
        Failure::Parse(m) => FailView::Parse(m@),
        Failure::Api(m) => FailView::Api(m@),
    }
}

pub open spec fn empty_reply_message() -> Seq<char> {
    "百炼 Token 包响应为空"@
}

pub open spec fn unparsable_reply_message() -> Seq<char> {
    "百炼 Token 包响应解析失败"@
}

/// A reply read: a failed request, HTTP 401/403 (expired), another status
/// than 200, an empty body, the login page (expired), a body that is no
/// JSON, or an envelope error (see `classify`); else its document.
pub open spec fn reply_result(r: Reply) -> Result<QDoc, FailView> {
    match r.raw {
        Err(e) => Err(FailView::Network(e@)),
        Ok((st, body)) => if st == 401 || st == 403 {
            Err(FailView::Expired)
        } else if st != 200 {
            Err(FailView::Http(st))
        } else if body is None || trim(body->0@).len() == 0 {
            Err(FailView::Parse(empty_reply_message()))
        } else if login_html(trim(body->0@)) {
            Err(FailView::Expired)
        } else {
            match r.doc {
                None => Err(FailView::Parse(unparsable_reply_message())),
                Some(v) => {
                    let c = classify(v);
                    if c.0 == 0 {
                        Ok(v)
                    } else if c.0 == 1 {
                        Err(FailView::NotAuthorised)
                    } else if c.0 == 4 {
                        Err(FailView::Api(c.1))
                    } else {
                        Err(FailView::Expired)
                    }
                },
            }
        },
    }
}

/// The trimmed body of a query's result read as a document (see
/// `body_reads`); none for a failed request or a missing body.
pub open spec fn trimmed_reads(
    raw: Result<(u16, Option<String>), String>,
    q: Option<QDoc>,
    table: Seq<ScalarReading>,
) -> bool {
    match raw {
        Ok((_, Some(b))) => body_reads(q, trim(b@), table),
        _ => q is None,
    }
}

/// One reply from a query's result: the trimmed body is parsed here and its
/// scalars read with the caller's table (the floating-point readings of
/// their texts).
pub fn reply_from_raw(raw: Result<(u16, Option<String>), String>, table: &Vec<ScalarReading>) -> (r:
    Reply)
    ensures
        r.raw == raw,
        trimmed_reads(raw, r.doc, table@),
{
    let doc = match &raw {
        Ok((_, Some(b))) => {
            let t = trimmed_string(b.as_str());
            read_body(t.as_str(), table)
        },
        _ => None,
    };
    Reply { raw, doc }
}

/// The rolling-window fields of the personal usage reply.
pub open spec fn rolling_keys() -> Seq<Seq<char>> {
    seq!["per5HourPercentage"@, "per1WeekPercentage"@]
}

/// Whether a read usage body is a success envelope without the rolling
/// windows (the condition on which the usage query is tried again): it
/// reads as JSON, its envelope holds no error, and no object in it has a
/// rolling-window field set.
pub open spec fn lacks_windows(q: Option<QDoc>) -> bool {
    match q {
        Some(v) => classify(v).0 == 0 && find_set(v, rolling_keys()) is None,
        None => false,
    }
}

/// The retry condition of the usage query (see `lacks_windows`) on a body,
/// read with the caller's table.
pub fn success_payload_without_windows(body: &str, table: &Vec<ScalarReading>) -> (r: bool)
    ensures
        exists|q: Option<QDoc>| body_reads(q, trim(body@), table@) && r == lacks_windows(q),
{
    let t = trimmed_string(body);
    let q = read_body(t.as_str(), table);
    let keys: [&str; 2] = ["per5HourPercentage", "per1WeekPercentage"];
    proof {
        assert(key_views(keys@) =~= rolling_keys());
    }
    let r = match &q {
        Some(v) => match classify_payload(v) {
            Ok(()) => find_first_obj_with_any_key(v, keys.as_slice()).is_none(),
            Err(_) => false,
        },
        None => false,
    };
    assert(body_reads(q, trim(body@), table@) && r == lacks_windows(q));
    r
}

/// A reply read (see `reply_result`).
pub fn parse_raw(r: &Reply) -> (out: Result<&QDoc, Failure>)
    ensures
        match out {
            Ok(x) => reply_result(*r) == Ok::<QDoc, FailView>(*x),
            Err(f) => reply_result(*r) == Err::<QDoc, FailView>(fail_view(f)),
        },
{
    match &r.raw {
        Err(e) => Err(Failure::Network(e.clone())),
        Ok((st, body)) => {
            if *st == 401 || *st == 403 {
                return Err(Failure::Expired);
            }
            if *st != 200 {
                return Err(Failure::Http(*st));
            }
            let text = match body {
                Some(b) => trimmed_string(b.as_str()),
                None => {
                    return Err(Failure::Parse("百炼 Token 包响应为空".to_owned()));
                },
            };
            if chars_of(text.as_str()).len() == 0 {
                return Err(Failure::Parse("百炼 Token 包响应为空".to_owned()));
            }
            if is_likely_login_html(text.as_str()) {
                return Err(Failure::Expired);
            }
            match &r.doc {
                None => Err(Failure::Parse("百炼 Token 包响应解析失败".to_owned())),
                Some(v) => match classify_payload(v) {
                    Ok(()) => Ok(v),
                    Err(PayloadError::WorkspaceNotAuthorised) => Err(Failure::NotAuthorised),
                    Err(PayloadError::Api(m)) => Err(Failure::Api(m)),
                    Err(_) => Err(Failure::Expired),
                },
            }
        },
    }
}

// ------------------------------------------------------------------
// Team subscription summary
// ------------------------------------------------------------------

pub open spec fn used_keys() -> Seq<Seq<char>> {
    seq!["usedQuota"@, "used_quota"@, "usedCredits"@, "usedCredit"@, "consumedCredits"@, "usage"@, "used"@, "usedAmount"@, "consumeAmount"@, "usedValue"@, "UsedValue"@, "consumedValue"@]
}

pub open spec fn total_keys() -> Seq<Seq<char>> {
    seq!["totalQuota"@, "total_quota"@, "totalCredits"@, "totalCredit"@, "quota"@, "creditLimit"@, "creditsTotal"@, "monthlyTotalQuota"@, "amount"@, "totalValue"@, "TotalValue"@, "cycleTotalValue"@]
}

pub open spec fn remaining_keys() -> Seq<Seq<char>> {
    seq!["remainingQuota"@, "remainQuota"@, "remainingCredits"@, "remainingCredit"@, "availableCredits"@, "balance"@, "remaining"@, "availableAmount"@, "remainAmount"@, "totalSurplusValue"@, "TotalSurplusValue"@, "surplusValue"@]
}

pub open spec fn count_keys() -> Seq<Seq<char>> {
    seq!["totalCount"@, "TotalCount"@, "subscriptionTotalNumber"@, "SubscriptionTotalNumber"@]
}

pub open spec fn reset_keys() -> Seq<Seq<char>> {
    seq!["nextRefreshTime"@, "resetTime"@, "periodEndTime"@, "billingCycleEnd"@, "billCycleEndTime"@, "expireTime"@, "expirationTime"@, "endTime"@, "validEndTime"@, "instanceEndTime"@, "EndTime"@, "cycleEndTime"@, "CycleEndTime"@, "nearestExpireDate"@, "NearestExpireDate"@]
}

pub open spec fn plan_keys() -> Seq<Seq<char>> {
    seq!["planName"@, "plan_name"@, "packageName"@, "package_name"@, "commodityName"@, "commodity_name"@, "specType"@, "SpecType"@, "instanceName"@, "instance_name"@, "displayName"@, "display_name"@, "ProductName"@, "productName"@, "name"@, "title"@, "planType"@, "plan_type"@]
}

pub open spec fn data_keys() -> Seq<Seq<char>> {
    seq!["Data"@, "data"@, "successResponse"@, "success_response"@]
}

pub open spec fn quota_markers() -> Seq<Seq<char>> {
    used_keys() + total_keys() + remaining_keys()
}

/// Whether an object has one of `keys`.
pub open spec fn has_any_doc(d: QDoc, keys: Seq<Seq<char>>) -> bool {
    match d {
        QDoc::Obj(es) => crate::coding_plan::holds_any(es@, keys),
        _ => false,
    }
}

/// A count of the summary: the value of the first of `keys` it has, read
/// as an amount, else the first amount under those keys anywhere in it.
pub open spec fn direct_num(summary: QDoc, keys: Seq<Seq<char>>) -> Option<NumReading> {
    match amount_at(any_of(summary, keys)) {
        Some(n) => Some(n),
        None => amount_at(find(summary, keys, 4)),
    }
}

/// The summary object: the first object under a `Data`-like key (itself
/// when it holds a quota count, else the first object inside it that sets
/// one, else itself), or else the first object that sets a quota count or a
/// subscription count.
pub open spec fn summary_object(v: QDoc) -> Option<QDoc> {
    match find(v, data_keys(), 3) {
        Some(d) => Some(
            if has_any_doc(d, quota_markers()) {
                d
            } else {
                match find_set(d, quota_markers()) {
                    Some(n) => n,
                    None => d,
                }
            },
        ),
        None => find_set(v, quota_markers() + count_keys()),
    }
}

/// The team summary as plain values.
pub struct TeamView {
    pub used: Option<usize>,
    pub used_by_difference: bool,
    pub total: Option<usize>,
    pub remaining: Option<usize>,
    pub resets_at: Option<i64>,
    pub count: Option<usize>,
    pub count_positive: bool,
    pub plan_name: Option<Seq<char>>,
}

/// The team subscription summary: the used, total and remaining credits and
/// the subscription count of the summary object (used credits missing but
/// total and remaining given: their difference, `used_by_difference`), the
/// reset instant (the summary's own reset key, else one anywhere in the
/// summary, else anywhere in the reply), and the plan name (the summary's
/// own name key, else a name anywhere in it, else `TOKEN PLAN` when it
/// counts subscriptions or gives a total); none when it gives no number.
pub open spec fn team_summary(v: QDoc) -> Option<TeamView> {
    match summary_object(v) {
        None => None,
        Some(sm) => {
            let total = direct_num(sm, total_keys());
            let remaining = direct_num(sm, remaining_keys());
            let used = direct_num(sm, used_keys());
            let diff = used is None && total is Some && remaining is Some;
            let count = direct_num(sm, count_keys());
            let positive = match count {
                Some(n) => n.positive,
                None => false,
            };
            let resets = match time_of(any_of(sm, reset_keys())) {
                Some(t) => Some(t),
                None => match time_of(find(sm, reset_keys(), 5)) {
                    Some(t) => Some(t),
                    None => time_of(find(v, reset_keys(), 5)),
                },
            };
            let plan = or_else(
                name_at(sm, plan_keys()),
                or_else(
                    found_str(find(sm, plan_keys(), 1)),
                    if positive || total is Some {
                        Some("TOKEN PLAN"@)
                    } else {
                        None
                    },
                ),
            );
            if used is None && !diff && total is None && remaining is None && count is None {
                None
            } else {
                Some(
                    TeamView {
                        used: crate::coding_plan::at_spec(used),
                        used_by_difference: diff,
                        total: crate::coding_plan::at_spec(total),
                        remaining: crate::coding_plan::at_spec(remaining),
                        resets_at: resets,
                        count: crate::coding_plan::at_spec(count),
                        count_positive: positive,
                        plan_name: plan,
                    },
                )
            }
        },
    }
}

/// A team with a subscription: a positive subscription count, or a total,
/// used or remaining credit count.
pub open spec fn has_subscription(t: TeamView) -> bool {
    t.count_positive || t.total is Some || t.used is Some || t.used_by_difference || t.remaining is Some
}

/// The team summary.
pub struct TeamSummary {
    pub used: Option<usize>,
    pub used_by_difference: bool,
    pub total: Option<usize>,
    pub remaining: Option<usize>,
    pub resets_at: Option<i64>,
    pub count: Option<usize>,
    pub count_positive: bool,
    pub plan_name: Option<String>,
}

pub open spec fn team_view(t: TeamSummary) -> TeamView {
    TeamView {
        used: t.used,
        used_by_difference: t.used_by_difference,
        total: t.total,
        remaining: t.remaining,
        resets_at: t.resets_at,
        count: t.count,
        count_positive: t.count_positive,
        plan_name: opt_sv(t.plan_name),
    }
}

fn at_of(n: Option<&NumReading>) -> (r: Option<usize>)
    ensures
        r == crate::coding_plan::at_spec(
            match n {
                Some(x) => Some(*x),
                None => None,
            },
        ),
{
    match n {
        Some(x) => Some(x.at),
        None => None,
    }
}

fn direct_num_exec<'a>(summary: &'a QDoc, keys: &[&str]) -> (r: Option<&'a NumReading>)
    ensures
        match r {
            Some(x) => direct_num(*summary, key_views(keys@)) == Some(*x),
            None => direct_num(*summary, key_views(keys@)) is None,
        },
{
    let a = amount_exec(get_any(summary, keys));
    if a.is_some() {
        a
    } else {
        amount_exec(find_first(summary, keys, 4))
    }
}

fn time_exec(v: Option<&QDoc>) -> (r: Option<i64>)
    ensures
        r == time_of(opt_ref(v)),
{
    match v {
        Some(QDoc::Bool(_, r)) => r.time_ms,
        Some(QDoc::Num(r)) => r.time_ms,
        Some(QDoc::Str(_, r)) => r.time_ms,
        _ => None,
    }
}

fn name_exec(v: &QDoc, keys: &[&str]) -> (r: Option<String>)
    ensures
        opt_sv(r) == name_at(*v, key_views(keys@)),
{
    match get_any(v, keys) {
        Some(QDoc::Str(s, _)) => {
            let t = trimmed_string(s.as_str());
            if chars_of(t.as_str()).len() > 0 {
                Some(t)
            } else {
                None
            }
        },
        _ => None,
    }
}

/// The team subscription summary (see `team_summary`).
pub fn parse_team_summary(v: &QDoc) -> (r: Option<TeamSummary>)
    ensures
        match r {
            Some(t) => team_summary(*v) == Some(team_view(t)),
            None => team_summary(*v) is None,
        },
{
    let used_k: [&str; 12] = [
        "usedQuota",
        "used_quota",
        "usedCredits",
        "usedCredit",
        "consumedCredits",
        "usage",
        "used",
        "usedAmount",
        "consumeAmount",
        "usedValue",
        "UsedValue",
        "consumedValue",
    ];
    let total_k: [&str; 12] = [
        "totalQuota",
        "total_quota",
        "totalCredits",
        "totalCredit",
        "quota",
        "creditLimit",
        "creditsTotal",
        "monthlyTotalQuota",
        "amount",
        "totalValue",
        "TotalValue",
        "cycleTotalValue",
    ];
    let rem_k: [&str; 12] = [
        "remainingQuota",
        "remainQuota",
        "remainingCredits",
        "remainingCredit",
        "availableCredits",
        "balance",
        "remaining",
        "availableAmount",
        "remainAmount",
        "totalSurplusValue",
        "TotalSurplusValue",
        "surplusValue",
    ];
    let count_k: [&str; 4] = [
        "totalCount",
        "TotalCount",
        "subscriptionTotalNumber",
        "SubscriptionTotalNumber",
    ];
    let reset_k: [&str; 15] = [
        "nextRefreshTime",
        "resetTime",
        "periodEndTime",
        "billingCycleEnd",
        "billCycleEndTime",
        "expireTime",
        "expirationTime",
        "endTime",
        "validEndTime",
        "instanceEndTime",
        "EndTime",
        "cycleEndTime",
        "CycleEndTime",
        "nearestExpireDate",
        "NearestExpireDate",
    ];
    let plan_k: [&str; 18] = [
        "planName",
        "plan_name",
        "packageName",
        "package_name",
        "commodityName",
        "commodity_name",
        "specType",
        "SpecType",
        "instanceName",
        "instance_name",
        "displayName",
        "display_name",
        "ProductName",
        "productName",
        "name",
        "title",
        "planType",
        "plan_type",
    ];
    let data_k: [&str; 4] = [
        "Data",
        "data",
        "successResponse",
        "success_response",
    ];
    let mark_k: [&str; 36] = [
        "usedQuota",
        "used_quota",
        "usedCredits",
        "usedCredit",
        "consumedCredits",
        "usage",
        "used",
        "usedAmount",
        "consumeAmount",
        "usedValue",
        "UsedValue",
        "consumedValue",
        "totalQuota",
        "total_quota",
        "totalCredits",
        "totalCredit",
        "quota",
        "creditLimit",
        "creditsTotal",
        "monthlyTotalQuota",
        "amount",
        "totalValue",
        "TotalValue",
        "cycleTotalValue",
        "remainingQuota",
        "remainQuota",
        "remainingCredits",
        "remainingCredit",
        "availableCredits",
        "balance",
        "remaining",
        "availableAmount",
        "remainAmount",
        "totalSurplusValue",
        "TotalSurplusValue",
        "surplusValue",
    ];
    let all_k: [&str; 40] = [
        "usedQuota",
        "used_quota",
        "usedCredits",
        "usedCredit",
        "consumedCredits",
        "usage",
        "used",
        "usedAmount",
        "consumeAmount",
        "usedValue",
        "UsedValue",
        "consumedValue",
        "totalQuota",
        "total_quota",
        "totalCredits",
        "totalCredit",
        "quota",
        "creditLimit",
        "creditsTotal",
        "monthlyTotalQuota",
        "amount",
        "totalValue",
        "TotalValue",
        "cycleTotalValue",
        "remainingQuota",
        "remainQuota",
        "remainingCredits",
        "remainingCredit",
        "availableCredits",
        "balance",
        "remaining",
        "availableAmount",
        "remainAmount",
        "totalSurplusValue",
        "TotalSurplusValue",
        "surplusValue",
        "totalCount",
        "TotalCount",
        "subscriptionTotalNumber",
        "SubscriptionTotalNumber",
    ];
    proof {
        assert(key_views(used_k@) =~= used_keys());
        assert(key_views(total_k@) =~= total_keys());
        assert(key_views(rem_k@) =~= remaining_keys());
        assert(key_views(count_k@) =~= count_keys());
        assert(key_views(reset_k@) =~= reset_keys());
        assert(key_views(plan_k@) =~= plan_keys());
        assert(key_views(data_k@) =~= data_keys());
        assert(key_views(mark_k@) =~= quota_markers());
        assert(key_views(all_k@) =~= quota_markers() + count_keys());
    }
    let sm: &QDoc = match find_first(v, data_k.as_slice(), 3) {
        Some(d) => {
            let has = match d {
                QDoc::Obj(es) => crate::coding_plan::holds_any_exec(es, mark_k.as_slice()),
                _ => false,
            };
            if has {
                d
            } else {
                match find_first_obj_with_any_key(d, mark_k.as_slice()) {
                    Some(n) => n,
                    None => d,
                }
            }
        },
        None => match find_first_obj_with_any_key(v, all_k.as_slice()) {
            Some(x) => x,
            None => {
                return None;
            },
        },
    };
    assert(summary_object(*v) == Some(*sm));
    let total = direct_num_exec(sm, total_k.as_slice());
    let remaining = direct_num_exec(sm, rem_k.as_slice());
    let used = direct_num_exec(sm, used_k.as_slice());
    let diff = used.is_none() && total.is_some() && remaining.is_some();
    let count = direct_num_exec(sm, count_k.as_slice());
    let positive = match count {
        Some(n) => n.positive,
        None => false,
    };
    let resets = match time_exec(get_any(sm, reset_k.as_slice())) {
        Some(t) => Some(t),
        None => match time_exec(find_first(sm, reset_k.as_slice(), 5)) {
            Some(t) => Some(t),
            None => time_exec(find_first(v, reset_k.as_slice(), 5)),
        },
    };
    let plan = or_str(
        name_exec(sm, plan_k.as_slice()),
        or_str(
            str_of(find_first(sm, plan_k.as_slice(), 1)),
            if positive || total.is_some() {
                Some("TOKEN PLAN".to_owned())
            } else {
                None
            },
        ),
    );
    if used.is_none() && !diff && total.is_none() && remaining.is_none() && count.is_none() {
        return None;
    }
    Some(
        TeamSummary {
            used: at_of(used),
            used_by_difference: diff,
            total: at_of(total),
            remaining: at_of(remaining),
            resets_at: resets,
            count: at_of(count),
            count_positive: positive,
            plan_name: plan,
        },
    )
}

// ------------------------------------------------------------------
// Personal usage windows
// ------------------------------------------------------------------

/// A window of the card. A personal window carries its used share (`ratio`,
/// a fraction of one) and, with a known plan, its total; the team window
/// carries its used, total and remaining credits, the used ones possibly as
/// the difference of the other two (`used_by_difference`). Numbers are
/// positions in the caller's numbers.
pub struct TokenWindow {
    pub key: String,
    pub title: String,
    pub ratio: Option<usize>,
    pub used: Option<usize>,
    pub used_by_difference: bool,
    pub total: Option<usize>,
    pub remaining: Option<usize>,
    pub unit: String,
    pub resets_at: Option<i64>,
}

pub struct TokenWindowSpec {
    pub key: Seq<char>,
    pub title: Seq<char>,
    pub ratio: Option<usize>,
    pub used: Option<usize>,
    pub used_by_difference: bool,
    pub total: Option<usize>,
    pub remaining: Option<usize>,
    pub unit: Seq<char>,
    pub resets_at: Option<i64>,
}

pub open spec fn token_window_spec(w: TokenWindow) -> TokenWindowSpec {
    TokenWindowSpec {
        key: w.key@,
        title: w.title@,
        ratio: w.ratio,
        used: w.used,
        used_by_difference: w.used_by_difference,
        total: w.total,
        remaining: w.remaining,
        unit: w.unit@,
        resets_at: w.resets_at,
    }
}

pub open spec fn token_windows_spec(ws: Seq<TokenWindow>) -> Seq<TokenWindowSpec> {
    ws.map_values(|w: TokenWindow| token_window_spec(w))
}

pub open spec fn plan_code_keys() -> Seq<Seq<char>> {
    seq!["specCode"@, "spec_code"@, "planName"@, "plan_name"@]
}

/// The plan code of the subscription reply (lower-cased): the first name
/// key of the first object that sets one.
pub open spec fn plan_code(sub: Option<Reply>) -> Option<Seq<char>> {
    match sub {
        Some(r) => match reply_result(r) {
            Ok(d) => match find_set(d, plan_code_keys()) {
                Some(p) => match name_at(p, plan_code_keys()) {
                    Some(x) => Some(lower_seq(x)),
                    None => None,
                },
                None => None,
            },
            Err(_) => None,
        },
        None => None,
    }
}

/// The 5-hour and weekly totals of a plan code in the quota-config reply:
/// the first value under the code anywhere in it; none when it gives
/// neither.
pub open spec fn plan_totals(cfg: Option<Reply>, code: Seq<char>) -> Option<
    (Option<NumReading>, Option<NumReading>),
> {
    match cfg {
        Some(r) => match reply_result(r) {
            Ok(c) => match find(c, seq![code], 5) {
                Some(q) => {
                    let f = amount_at(any_of(q, seq!["five_hour"@, "fiveHour"@]));
                    let w = amount_at(any_of(q, seq!["weekly"@]));
                    if f is None && w is None {
                        None
                    } else {
                        Some((f, w))
                    }
                },
                None => None,
            },
            Err(_) => None,
        },
        None => None,
    }
}

/// A personal window, present when it has a used share.
pub open spec fn personal_row(
    key: Seq<char>,
    title: Seq<char>,
    ratio: Option<NumReading>,
    total: Option<NumReading>,
    resets: Option<i64>,
) -> Seq<TokenWindowSpec> {
    match ratio {
        Some(r) => seq![
            TokenWindowSpec {
                key,
                title,
                ratio: Some(r.at),
                used: None,
                used_by_difference: false,
                total: crate::coding_plan::at_spec(total),
                remaining: None,
                unit: "积分"@,
                resets_at: resets,
            },
        ],
        None => Seq::empty(),
    }
}

/// The personal usage: the 5-hour and weekly shares of the first object
/// that sets one, their reset instants, the plan name of the subscription's
/// plan code (`Personal` without one) and the code's totals; none when no
/// share reads as an amount.
pub open spec fn personal_usage(usage_v: QDoc, sub: Option<Reply>, cfg: Option<Reply>) -> Option<
    (Seq<char>, Seq<TokenWindowSpec>),
> {
    match find_set(usage_v, seq!["per5HourPercentage"@, "per1WeekPercentage"@]) {
        None => None,
        Some(u) => {
            let five = amount_at(any_of(u, seq!["per5HourPercentage"@]));
            let week = amount_at(any_of(u, seq!["per1WeekPercentage"@]));
            if five is None && week is None {
                None
            } else {
                let code = plan_code(sub);
                let totals = match code {
                    Some(c) => plan_totals(cfg, c),
                    None => None,
                };
                let (tf, tw) = match totals {
                    Some(t) => t,
                    None => (None, None),
                };
                let plan = match code {
                    Some(c) => plan_name_of(c),
                    None => "Personal"@,
                };
                Some(
                    (
                        plan,
                        personal_row(
                            "hour5"@,
                            "5h"@,
                            five,
                            tf,
                            time_of(any_of(u, seq!["per5HourResetTime"@])),
                        ) + personal_row(
                            "weekly"@,
                            "7天"@,
                            week,
                            tw,
                            time_of(any_of(u, seq!["per1WeekResetTime"@])),
                        ),
                    ),
                )
            }
        },
    }
}

fn plan_code_exec(sub: &Option<Reply>) -> (r: Option<Vec<char>>)
    ensures
        match r {
            Some(x) => plan_code(*sub) == Some(x@),
            None => plan_code(*sub) is None,
        },
{
    let ck: [&str; 4] = ["specCode", "spec_code", "planName", "plan_name"];
    proof {
        assert(key_views(ck@) =~= plan_code_keys());
    }
    match sub {
        Some(r) => match parse_raw(r) {
            Ok(d) => match find_first_obj_with_any_key(d, ck.as_slice()) {
                Some(p) => match name_exec(p, ck.as_slice()) {
                    Some(x) => Some(lower_chars(&chars_of(x.as_str()))),
                    None => None,
                },
                None => None,
            },
            Err(_) => None,
        },
        None => None,
    }
}

fn plan_totals_exec<'a>(cfg: &'a Option<Reply>, code: &str) -> (r: Option<
    (Option<&'a NumReading>, Option<&'a NumReading>),
>)
    ensures
        match r {
            Some((f, w)) => plan_totals(*cfg, code@) == Some(
                (
                    match f {
                        Some(x) => Some(*x),
                        None => None,
                    },
                    match w {
                        Some(x) => Some(*x),
                        None => None,
                    },
                ),
            ),
            None => plan_totals(*cfg, code@) is None,
        },
{
    let keys: [&str; 1] = [code];
    let fk: [&str; 2] = ["five_hour", "fiveHour"];
    let wk: [&str; 1] = ["weekly"];
    proof {
        assert(key_views(keys@) =~= seq![code@]);
        assert(key_views(fk@) =~= seq!["five_hour"@, "fiveHour"@]);
        assert(key_views(wk@) =~= seq!["weekly"@]);
    }
    match cfg {
        Some(r) => match parse_raw(r) {
            Ok(c) => match find_first(c, keys.as_slice(), 5) {
                Some(q) => {
                    let f = amount_exec(get_any(q, fk.as_slice()));
                    let w = amount_exec(get_any(q, wk.as_slice()));
                    if f.is_none() && w.is_none() {
                        None
                    } else {
                        Some((f, w))
                    }
                },
                None => None,
            },
            Err(_) => None,
        },
        None => None,
    }
}

fn push_personal(
    out: &mut Vec<TokenWindow>,
    key: &str,
    title: &str,
    ratio: Option<&NumReading>,
    total: Option<&NumReading>,
    resets: Option<i64>,
)
    ensures
        token_windows_spec(final(out)@) == token_windows_spec(old(out)@) + personal_row(
            key@,
            title@,
            match ratio {
                Some(x) => Some(*x),
                None => None,
            },
            match total {
                Some(x) => Some(*x),
                None => None,
            },
            resets,
        ),
{
    let ghost before = out@;
    if let Some(r) = ratio {
        out.push(
            TokenWindow {
                key: key.to_owned(),
                title: title.to_owned(),
                ratio: Some(r.at),
                used: None,
                used_by_difference: false,
                total: at_of(total),
                remaining: None,
                unit: "积分".to_owned(),
                resets_at: resets,
            },
        );
    }
    assert(token_windows_spec(out@) =~= token_windows_spec(before) + personal_row(
        key@,
        title@,
        match ratio {
            Some(x) => Some(*x),
            None => None,
        },
        match total {
            Some(x) => Some(*x),
            None => None,
        },
        resets,
    ));
}

/// The personal usage (see `personal_usage`).
pub fn parse_personal_usage(usage_v: &QDoc, subscription: &Option<Reply>, quota_config: &Option<Reply>) -> (r:
    Option<(String, Vec<TokenWindow>)>)
    ensures
        match r {
            Some((p, ws)) => personal_usage(*usage_v, *subscription, *quota_config) == Some(
                (p@, token_windows_spec(ws@)),
            ),
            None => personal_usage(*usage_v, *subscription, *quota_config) is None,
        },
{
    let uk: [&str; 2] = ["per5HourPercentage", "per1WeekPercentage"];
    let fk: [&str; 1] = ["per5HourPercentage"];
    let wk: [&str; 1] = ["per1WeekPercentage"];
    let frk: [&str; 1] = ["per5HourResetTime"];
    let wrk: [&str; 1] = ["per1WeekResetTime"];
    proof {
        assert(key_views(uk@) =~= seq!["per5HourPercentage"@, "per1WeekPercentage"@]);
        assert(key_views(fk@) =~= seq!["per5HourPercentage"@]);
        assert(key_views(wk@) =~= seq!["per1WeekPercentage"@]);
        assert(key_views(frk@) =~= seq!["per5HourResetTime"@]);
        assert(key_views(wrk@) =~= seq!["per1WeekResetTime"@]);
    }
    let u = match find_first_obj_with_any_key(usage_v, uk.as_slice()) {
        Some(u) => u,
        None => {
            return None;
        },
    };
    let five = amount_exec(get_any(u, fk.as_slice()));
    let week = amount_exec(get_any(u, wk.as_slice()));
    if five.is_none() && week.is_none() {
        return None;
    }
    let code = plan_code_exec(subscription);
    let totals = match &code {
        Some(c) => plan_totals_exec(quota_config, string_of(c).as_str()),
        None => None,
    };
    let (tf, tw) = match totals {
        Some(t) => t,
        None => (None, None),
    };
    let plan = match &code {
        Some(c) => display_plan_name(string_of(c).as_str()),
        None => "Personal".to_owned(),
    };
    let mut ws: Vec<TokenWindow> = Vec::new();
    assert(token_windows_spec(ws@) =~= Seq::<TokenWindowSpec>::empty());
    push_personal(&mut ws, "hour5", "5h", five, tf, time_exec(get_any(u, frk.as_slice())));
    push_personal(&mut ws, "weekly", "7天", week, tw, time_exec(get_any(u, wrk.as_slice())));
    Some((plan, ws))
}

// ------------------------------------------------------------------
// The entry of one credential
// ------------------------------------------------------------------

/// The replies of one credential's query: the team summary, and the
/// personal usage, subscription and quota-config replies when they were
/// fetched.
pub struct Bundle {
    pub team: Reply,
    pub usage: Option<Reply>,
    pub subscription: Option<Reply>,
    pub quota_config: Option<Reply>,
}

/// What the card of a Token Plan credential shows.
pub struct TokenPlanDecision {
    /// `ok`, `expired` or `error`.
    pub status: String,
    pub message: Option<String>,
    pub plan_name: Option<String>,
    pub windows: Vec<TokenWindow>,
}

pub open spec fn expired_message() -> Seq<char> {
    "会话已失效，请重新登录百炼控制台后更新 Cookie"@
}

pub open spec fn no_subscription_message() -> Seq<char> {
    "未找到有效的百炼 Token 包订阅"@
}

pub open spec fn usage_unavailable_message() -> Seq<char> {
    "百炼用量暂时不可用，请稍后重试"@
}

pub open spec fn query_failed_message() -> Seq<char> {
    "百炼 Token 包查询失败"@
}

/// The text shown for a failure class (as `failure_text` does).
pub open spec fn fail_text(f: FailView) -> Option<Seq<char>> {
    match f {
        FailView::Network(e) => Some(e),
        FailView::Expired => None,
        FailView::NotAuthorised => Some(crate::alibabatoken::missing_sec_token_message()),
        FailView::Http(s) => Some("百炼 Token 包查询失败（HTTP "@ + dec(s as int) + "）"@),
        FailView::Parse(m) => Some(m),
        FailView::Api(m) => Some("百炼平台返回错误: "@ + m),
    }
}

pub open spec fn tfail(m: Seq<char>) -> (Seq<char>, Option<Seq<char>>, Option<Seq<char>>, Seq<TokenWindowSpec>) {
    ("error"@, Some(m), None, Seq::empty())
}

pub open spec fn texpired() -> (Seq<char>, Option<Seq<char>>, Option<Seq<char>>, Seq<TokenWindowSpec>) {
    ("expired"@, Some(expired_message()), None, Seq::empty())
}

pub open spec fn opt_fail_text(f: Option<FailView>) -> Option<Seq<char>> {
    match f {
        Some(x) => fail_text(x),
        None => None,
    }
}

/// The card from the personal replies, once the team reply gave no
/// subscription (`no_subscription`) or failed (`team_failure`).
pub open spec fn personal_outcome(b: Bundle, no_subscription: bool, team_failure: Option<FailView>) -> (
    Seq<char>,
    Option<Seq<char>>,
    Option<Seq<char>>,
    Seq<TokenWindowSpec>,
) {
    match b.usage {
        None => match opt_fail_text(team_failure) {
            Some(m) => if !no_subscription {
                tfail(m)
            } else {
                tfail(no_subscription_message())
            },
            None => tfail(no_subscription_message()),
        },
        Some(u) => match reply_result(u) {
            Err(FailView::Expired) => texpired(),
            Err(f) => if f is NotAuthorised || team_failure == Some(FailView::NotAuthorised) {
                tfail(crate::alibabatoken::missing_sec_token_message())
            } else if no_subscription {
                tfail(no_subscription_message())
            } else {
                tfail(
                    match or_else(fail_text(f), opt_fail_text(team_failure)) {
                        Some(m) => m,
                        None => query_failed_message(),
                    },
                )
            },
            Ok(uv) => match personal_usage(uv, b.subscription, b.quota_config) {
                Some((plan, ws)) => ("ok"@, None, Some(plan), ws),
                None => if no_subscription {
                    tfail(no_subscription_message())
                } else {
                    tfail(usage_unavailable_message())
                },
            },
        },
    }
}

pub open spec fn team_row(t: TeamView) -> TokenWindowSpec {
    TokenWindowSpec {
        key: "credits"@,
        title: "积分池"@,
        ratio: None,
        used: t.used,
        used_by_difference: t.used_by_difference,
        total: t.total,
        remaining: t.remaining,
        unit: "积分"@,
        resets_at: t.resets_at,
    }
}

/// The card of a Token Plan credential: a team reply with a subscription
/// gives its credit pool; a team reply without one, or a failed team reply,
/// falls back to the personal usage; an expired session is `expired`.
pub open spec fn bundle_outcome(b: Bundle) -> (
    Seq<char>,
    Option<Seq<char>>,
    Option<Seq<char>>,
    Seq<TokenWindowSpec>,
) {
    match reply_result(b.team) {
        Ok(v) => match team_summary(v) {
            Some(t) => if has_subscription(t) {
                ("ok"@, None, t.plan_name, seq![team_row(t)])
            } else {
                personal_outcome(b, true, None)
            },
            None => personal_outcome(b, true, None),
        },
        Err(FailView::Expired) => texpired(),
        Err(f) => personal_outcome(b, false, Some(f)),
    }
}

pub open spec fn token_decision_view(d: TokenPlanDecision) -> (
    Seq<char>,
    Option<Seq<char>>,
    Option<Seq<char>>,
    Seq<TokenWindowSpec>,
) {
    (d.status@, opt_sv(d.message), opt_sv(d.plan_name), token_windows_spec(d.windows@))
}

fn token_failed(m: String) -> (r: TokenPlanDecision)
    ensures
        token_decision_view(r) == tfail(m@),
{
    let w: Vec<TokenWindow> = Vec::new();
    assert(token_windows_spec(w@) =~= Seq::<TokenWindowSpec>::empty());
    TokenPlanDecision { status: "error".to_owned(), message: Some(m), plan_name: None, windows: w }
}

fn token_expired() -> (r: TokenPlanDecision)
    ensures
        token_decision_view(r) == texpired(),
{
    let w: Vec<TokenWindow> = Vec::new();
    assert(token_windows_spec(w@) =~= Seq::<TokenWindowSpec>::empty());
    TokenPlanDecision {
        status: "expired".to_owned(),
        message: Some("会话已失效，请重新登录百炼控制台后更新 Cookie".to_owned()),
        plan_name: None,
        windows: w,
    }
}

fn fail_message(f: &Failure) -> (r: Option<String>)
    ensures
        opt_sv(r) == fail_text(fail_view(*f)),
{
    failure_message(f)
}

fn opt_fail_message(f: &Option<Failure>) -> (r: Option<String>)
    ensures
        opt_sv(r) == opt_fail_text(
            match *f {
                Some(x) => Some(fail_view(x)),
                None => None,
            },
        ),
{
    match f {
        Some(x) => fail_message(x),
        None => None,
    }
}

fn is_not_authorised(f: &Failure) -> (b: bool)
    ensures
        b == (fail_view(*f) is NotAuthorised),
{
    match f {
        Failure::NotAuthorised => true,
        _ => false,
    }
}

/// The card from the personal replies (see `personal_outcome`).
pub fn personal_entry(b: &Bundle, no_subscription: bool, team_failure: Option<Failure>) -> (r:
    TokenPlanDecision)
    ensures
        token_decision_view(r) == personal_outcome(
            *b,
            no_subscription,
            match team_failure {
                Some(x) => Some(fail_view(x)),
                None => None,
            },
        ),
{
    let team_na = match &team_failure {
        Some(f) => is_not_authorised(f),
        None => false,
    };
    let usage = match &b.usage {
        None => {
            return match opt_fail_message(&team_failure) {
                Some(m) => if !no_subscription {
                    token_failed(m)
                } else {
                    token_failed("未找到有效的百炼 Token 包订阅".to_owned())
                },
                None => token_failed("未找到有效的百炼 Token 包订阅".to_owned()),
            };
        },
        Some(u) => u,
    };
    match parse_raw(usage) {
        Err(Failure::Expired) => token_expired(),
        Err(f) => {
            if is_not_authorised(&f) || team_na {
                return token_failed(
                    "缺少控制台 sec_token，请从百炼订阅页请求中复制完整 Cookie".to_owned(),
                );
            }
            if no_subscription {
                return token_failed("未找到有效的百炼 Token 包订阅".to_owned());
            }
            let m = match or_str(fail_message(&f), opt_fail_message(&team_failure)) {
                Some(m) => m,
                None => "百炼 Token 包查询失败".to_owned(),
            };
            token_failed(m)
        },
        Ok(uv) => match parse_personal_usage(uv, &b.subscription, &b.quota_config) {
            Some((plan, ws)) => TokenPlanDecision {
                status: "ok".to_owned(),
                message: None,
                plan_name: Some(plan),
                windows: ws,
            },
            None => if no_subscription {
                token_failed("未找到有效的百炼 Token 包订阅".to_owned())
            } else {
                token_failed("百炼用量暂时不可用，请稍后重试".to_owned())
            },
        },
    }
}

/// The card of a Token Plan credential (see `bundle_outcome`).
pub fn entry_from_bundle(b: &Bundle) -> (r: TokenPlanDecision)
    ensures
        token_decision_view(r) == bundle_outcome(*b),
{
    match parse_raw(&b.team) {
        Ok(team_v) => match parse_team_summary(team_v) {
            Some(t) => {
                if t.count_positive || t.total.is_some() || t.used.is_some() || t.used_by_difference
                    || t.remaining.is_some() {
                    let ghost tv = team_view(t);
                    let w = TokenWindow {
                        key: "credits".to_owned(),
                        title: "积分池".to_owned(),
                        ratio: None,
                        used: t.used,
                        used_by_difference: t.used_by_difference,
                        total: t.total,
                        remaining: t.remaining,
                        unit: "积分".to_owned(),
                        resets_at: t.resets_at,
                    };
                    let mut ws: Vec<TokenWindow> = Vec::new();
                    ws.push(w);
                    assert(token_windows_spec(ws@) =~= seq![team_row(tv)]);
                    TokenPlanDecision {
                        status: "ok".to_owned(),
                        message: None,
                        plan_name: t.plan_name,
                        windows: ws,
                    }
                } else {
                    personal_entry(b, true, None)
                }
            },
            None => personal_entry(b, true, None),
        },
        Err(Failure::Expired) => token_expired(),
        Err(f) => personal_entry(b, false, Some(f)),
    }
}
/// Whether the team reply settles the query: it reads as a team summary
/// with a subscription, and the personal replies are not needed.
pub open spec fn team_hit_of(team: Reply) -> bool {
    match reply_result(team) {
        Ok(v) => match team_summary(v) {
            Some(t) => has_subscription(t),
            None => false,
        },
        Err(_) => false,
    }
}

/// Whether the team reply settles the query (see `team_hit_of`).
pub fn team_hit(team: &Reply) -> (b: bool)
    ensures
        b == team_hit_of(*team),
{
    match parse_raw(team) {
        Ok(v) => match parse_team_summary(v) {
            Some(t) => t.count_positive || t.total.is_some() || t.used.is_some()
                || t.used_by_difference || t.remaining.is_some(),
            None => false,
        },
        Err(_) => false,
    }
}

pub open spec fn no_cookie_message() -> Seq<char> {
    "未能从粘贴内容中解析出 Cookie，请重新复制请求头或 cURL 命令"@
}

/// What the query of a credential starts from: none for a credential that
/// is no cookie; the error text when the pasted content yields no cookie;
/// else the normalised cookie and its CSRF value (`login_aliyunid_csrf`,
/// else `csrf`, else empty).
pub open spec fn cookie_query(kind: Seq<char>, secret: Seq<char>) -> Option<
    Result<(Seq<char>, Seq<char>), Seq<char>>,
> {
    if kind != "cookie"@ {
        None
    } else {
        let c = normalized_cookie(secret);
        if c.len() == 0 {
            Some(Err(no_cookie_message()))
        } else {
            Some(
                Ok(
                    (
                        c,
                        match cookie_value_of(c, "login_aliyunid_csrf"@) {
                            Some(x) => x,
                            None => match cookie_value_of(c, "csrf"@) {
                                Some(x) => x,
                                None => Seq::empty(),
                            },
                        },
                    ),
                ),
            )
        }
    }
}

pub open spec fn query_view(q: Option<Result<(String, String), String>>) -> Option<
    Result<(Seq<char>, Seq<char>), Seq<char>>,
> {
    match q {
        None => None,
        Some(Ok((c, t))) => Some(Ok((c@, t@))),
        Some(Err(e)) => Some(Err(e@)),
    }
}

/// What the query of a credential starts from (see `cookie_query`).
pub fn plan_cookie_query(cred: &CredentialQuerySnapshot) -> (r: Option<Result<(String, String), String>>)
    ensures
        query_view(r) == cookie_query(cred.kind@, cred.secret@),
{
    proof {
        reveal_strlit("cookie");
    }
    if !str_is(cred.kind.as_str(), "cookie") {
        return None;
    }
    let c = normalize_cookie_secret(cred.secret.as_str());
    if chars_of(c.as_str()).len() == 0 {
        return Some(Err("未能从粘贴内容中解析出 Cookie，请重新复制请求头或 cURL 命令".to_owned()));
    }
    let csrf = match cookie_value(c.as_str(), "login_aliyunid_csrf") {
        Some(x) => x.to_owned(),
        None => match cookie_value(c.as_str(), "csrf") {
            Some(x) => x.to_owned(),
            None => String::new(),
        },
    };
    Some(Ok((c, csrf)))
}

/// The queries of the cookie credentials, in their order: each with the
/// credential's id and label (see `cookie_query`).
pub open spec fn cookie_queries(creds: Seq<CredentialQuerySnapshot>) -> Seq<
    (Seq<char>, Seq<char>, Result<(Seq<char>, Seq<char>), Seq<char>>),
>
    decreases creds.len(),
{
    if creds.len() == 0 {
        Seq::empty()
    } else {
        let prev = cookie_queries(creds.drop_last());
        let c = creds.last();
        match cookie_query(c.kind@, c.secret@) {
            Some(q) => prev.push((c.id@, c.label@, q)),
            None => prev,
        }
    }
}

pub open spec fn queries_view(qs: Seq<(String, String, Result<(String, String), String>)>) -> Seq<
    (Seq<char>, Seq<char>, Result<(Seq<char>, Seq<char>), Seq<char>>),
> {
    qs.map_values(
        |q: (String, String, Result<(String, String), String>)|
            (q.0@, q.1@, query_view(Some(q.2))->0),
    )
}

/// The queries of the cookie credentials (see `cookie_queries`).
pub fn plan_cookie_queries(creds: &[CredentialQuerySnapshot]) -> (r: Vec<
    (String, String, Result<(String, String), String>),
>)
    ensures
        queries_view(r@) == cookie_queries(creds@),
{
    let mut out: Vec<(String, String, Result<(String, String), String>)> = Vec::new();
    let mut i: usize = 0;
    while i < creds.len()
        invariant
            i <= creds.len(),
            queries_view(out@) == cookie_queries(creds@.take(i as int)),
        decreases creds.len() - i,
    {
        proof {
            assert(creds@.take(i + 1).drop_last() =~= creds@.take(i as int));
            assert(creds@.take(i + 1).last() == creds@[i as int]);
        }
        if let Some(q) = plan_cookie_query(&creds[i]) {
            let item = (creds[i].id.clone(), creds[i].label.clone(), q);
            let ghost before = out@;
            out.push(item);
            assert(queries_view(out@) =~= queries_view(before).push(
                (item.0@, item.1@, query_view(Some(item.2))->0),
            ));
        }
        i += 1;
    }
    assert(creds@.take(creds.len() as int) =~= creds@);
    out
}

} // verus!
