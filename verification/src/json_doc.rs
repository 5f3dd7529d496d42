//! JSON response bodies as plain values, parsed by serde_json, and the
//! depth-first key search that the console gateways' answers need: a value
//! may hold a whole JSON text in a string, which the search opens up.
use crate::text::{chars_of, copy_range, string_of, trim, trim_range};
use vstd::prelude::*;

verus! {

#[verifier::external_type_specification]
#[verifier::external_body]
pub struct ExJsonValue(serde_json::Value);

/// A JSON value. A number keeps the text serde_json prints for it; an object
/// keeps its entries in the order serde_json's map walks them.
#[derive(Debug)]
pub enum JsonDoc {
    Null,
    Bool(bool),
    Num(String),
    Str(String),
    Arr(Vec<JsonDoc>),
    Obj(Vec<(String, JsonDoc)>),
}

/// What serde_json reads from a text: the document, or nothing when the text
/// is no JSON.
pub uninterp spec fn json_doc(body: Seq<char>) -> Option<JsonDoc>;

/// Trusted: calls `serde_json::from_str` into a `Value` and copies it, node
/// for node, into a `JsonDoc`; `None` where serde_json reports an error. The
/// contract names the result, a function of the text alone.
#[verifier::external_body]
pub(crate) fn parse_json_doc(body: &str) -> (r: Option<JsonDoc>)
    ensures
        r == json_doc(body@),
{
    serde_json::from_str::<serde_json::Value>(body).ok().map(|v| doc_of(&v))
}

/// The node-for-node copy that `parse_json_doc` makes of serde_json's value.
#[verifier::external_body]
fn doc_of(v: &serde_json::Value) -> JsonDoc {
    match v {
        serde_json::Value::Null => JsonDoc::Null,
        serde_json::Value::Bool(b) => JsonDoc::Bool(*b),
        serde_json::Value::Number(n) => JsonDoc::Num(n.to_string()),
        serde_json::Value::String(s) => JsonDoc::Str(s.clone()),
        serde_json::Value::Array(a) => JsonDoc::Arr(a.iter().map(doc_of).collect()),
        serde_json::Value::Object(m) => JsonDoc::Obj(
            m.iter().map(|(k, x)| (k.clone(), doc_of(x))).collect(),
        ),
    }
}

pub open spec fn opt_view(x: Option<String>) -> Option<Seq<char>> {
    match x {
        Some(s) => Some(s@),
        None => None,
    }
}

pub open spec fn key_views(keys: Seq<&str>) -> Seq<Seq<char>> {
    keys.map_values(|k: &str| k@)
}

/// A text that may hold an object or an array: it starts with `{` or `[`.
pub open spec fn brace_start(t: Seq<char>) -> bool {
    t.len() > 0 && (t[0] == '{' || t[0] == '[')
}

/// The object or array that a string value holds as JSON text (trimmed), or
/// `None` when it holds none; `depth` bounds how deep such texts are opened.
pub open spec fn embedded_doc(s: Seq<char>, depth: nat) -> Option<JsonDoc> {
    let t = trim(s);
    if depth > 0 && brace_start(t) {
        match json_doc(t) {
            Some(n) => if n is Arr || n is Obj {
                Some(n)
            } else {
                None
            },
            None => None,
        }
    } else {
        None
    }
}

/// The value under key `k` among an object's entries.
pub open spec fn entry_get(es: Seq<(String, JsonDoc)>, k: Seq<char>) -> Option<JsonDoc>
    decreases es.len(),
{
    if es.len() == 0 {
        None
    } else if es[0].0@ == k {
        Some(es[0].1)
    } else {
        entry_get(es.drop_first(), k)
    }
}

/// The first of `keys`, in their order, whose value in the object is a
/// string (one that holds no embedded document) that is not blank: that
/// string trimmed.
pub open spec fn direct_str(es: Seq<(String, JsonDoc)>, keys: Seq<Seq<char>>, depth: nat) -> Option<
    Seq<char>,
>
    decreases keys.len(),
{
    if keys.len() == 0 {
        None
    } else {
        let here = match entry_get(es, keys[0]) {
            Some(JsonDoc::Str(s)) => if embedded_doc(s@, depth) is None && trim(s@).len() > 0 {
                Some(trim(s@))
            } else {
                None
            },
            _ => None,
        };
        if here is Some {
            here
        } else {
            direct_str(es, keys.drop_first(), depth)
        }
    }
}

/// Depth-first search for the first non-blank string under one of `keys`,
/// with every string that holds a JSON object or array read as that
/// document: in an object the keys are tried in order first, then its values
/// in turn; in an array its items in turn.
pub open spec fn find_str(v: JsonDoc, keys: Seq<Seq<char>>, depth: nat) -> Option<Seq<char>>
    decreases depth, v,
{
    match v {
        JsonDoc::Str(s) => match embedded_doc(s@, depth) {
            Some(n) => find_str(n, keys, (depth - 1) as nat),
            None => None,
        },
        JsonDoc::Obj(es) => match direct_str(es@, keys, depth) {
            Some(x) => Some(x),
            None => find_str_entries(es@, keys, depth),
        },
        JsonDoc::Arr(items) => find_str_items(items@, keys, depth),
        _ => None,
    }
}

pub open spec fn find_str_entries(
    es: Seq<(String, JsonDoc)>,
    keys: Seq<Seq<char>>,
    depth: nat,
) -> Option<Seq<char>>
    decreases depth, es,
{
    if es.len() == 0 {
        None
    } else {
        match find_str(es[0].1, keys, depth) {
            Some(x) => Some(x),
            None => find_str_entries(es.drop_first(), keys, depth),
        }
    }
}

pub open spec fn find_str_items(items: Seq<JsonDoc>, keys: Seq<Seq<char>>, depth: nat) -> Option<
    Seq<char>,
>
    decreases depth, items,
{
    if items.len() == 0 {
        None
    } else {
        match find_str(items[0], keys, depth) {
            Some(x) => Some(x),
            None => find_str_items(items.drop_first(), keys, depth),
        }
    }
}

pub(crate) fn trimmed_string(s: &str) -> (r: String)
    ensures
        r@ == trim(s@),
{
    let c = chars_of(s);
    let (a, b) = trim_range(&c, 0, c.len());
    proof {
        assert(c@.subrange(0, c.len() as int) =~= c@);
    }
    string_of(&copy_range(&c, a, b))
}

pub(crate) fn str_is(a: &str, b: &str) -> (r: bool)
    ensures
        r == (a@ == b@),
{
    crate::text::chars_eq(&chars_of(a), &chars_of(b))
}

pub(crate) fn embedded_exec(s: &String, depth: usize) -> (r: Option<JsonDoc>)
    ensures
        r == embedded_doc(s@, depth as nat),
{
    if depth == 0 {
        return None;
    }
    let t = trimmed_string(s.as_str());
    let tc = chars_of(t.as_str());
    if tc.len() == 0 || !(tc[0] == '{' || tc[0] == '[') {
        return None;
    }
    match parse_json_doc(t.as_str()) {
        Some(n) => match n {
            JsonDoc::Arr(_) => Some(n),
            JsonDoc::Obj(_) => Some(n),
            _ => None,
        },
        None => None,
    }
}

fn entry_get_exec<'a>(es: &'a Vec<(String, JsonDoc)>, k: &str) -> (r: Option<&'a JsonDoc>)
    ensures
        match r {
            Some(x) => entry_get(es@, k@) == Some(*x),
            None => entry_get(es@, k@) is None,
        },
{
    let n = es.len();
    let mut i: usize = 0;
    assert(es@.subrange(0, n as int) =~= es@);
    while i < n
        invariant
            n == es.len(),
            i <= n,
            entry_get(es@, k@) == entry_get(es@.subrange(i as int, n as int), k@),
        decreases n - i,
    {
        assert(es@.subrange(i as int, n as int).drop_first() =~= es@.subrange(i + 1, n as int));
        if str_is(es[i].0.as_str(), k) {
            return Some(&es[i].1);
        }
        i += 1;
    }
    None
}

fn direct_exec(es: &Vec<(String, JsonDoc)>, keys: &[&str], depth: usize) -> (r: Option<String>)
    ensures
        opt_view(r) == direct_str(es@, key_views(keys@), depth as nat),
{
    let ghost kv = key_views(keys@);
    let n = keys.len();
    let mut i: usize = 0;
    assert(kv.subrange(0, n as int) =~= kv);
    while i < n
        invariant
            n == keys.len(),
            kv == key_views(keys@),
            kv.len() == n,
            i <= n,
            direct_str(es@, kv, depth as nat) == direct_str(
                es@,
                kv.subrange(i as int, n as int),
                depth as nat,
            ),
        decreases n - i,
    {
        assert(kv.subrange(i as int, n as int).drop_first() =~= kv.subrange(i + 1, n as int));
        assert(kv.subrange(i as int, n as int)[0] == keys@[i as int]@);
        if let Some(JsonDoc::Str(s)) = entry_get_exec(es, keys[i]) {
            if embedded_exec(s, depth).is_none() {
                let t = trimmed_string(s.as_str());
                if chars_of(t.as_str()).len() > 0 {
                    return Some(t);
                }
            }
        }
        i += 1;
    }
    proof {
        assert(kv.subrange(n as int, n as int) =~= Seq::<Seq<char>>::empty());
    }
    None
}

fn find_str_exec(v: &JsonDoc, keys: &[&str], depth: usize) -> (r: Option<String>)
    ensures
        opt_view(r) == find_str(*v, key_views(keys@), depth as nat),
    decreases depth, v,
{
    match v {
        JsonDoc::Str(s) => match embedded_exec(s, depth) {
            Some(n) => find_str_exec(&n, keys, depth - 1),
            None => None,
        },
        JsonDoc::Obj(es) => {
            let d = direct_exec(es, keys, depth);
            if d.is_some() {
                return d;
            }
            let n = es.len();
            let mut i: usize = 0;
            assert(es@.subrange(0, n as int) =~= es@);
            while i < n
                invariant
                    n == es.len(),
                    i <= n,
                    *v == JsonDoc::Obj(*es),
                    direct_str(es@, key_views(keys@), depth as nat) is None,
                    find_str_entries(es@, key_views(keys@), depth as nat) == find_str_entries(
                        es@.subrange(i as int, n as int),
                        key_views(keys@),
                        depth as nat,
                    ),
                decreases n - i,
            {
                assert(es@.subrange(i as int, n as int).drop_first() =~= es@.subrange(
                    i + 1,
                    n as int,
                ));
                assert(es@.subrange(i as int, n as int)[0] == es@[i as int]);
                let r = find_str_exec(&es[i].1, keys, depth);
                if r.is_some() {
                    return r;
                }
                i += 1;
            }
            None
        },
        JsonDoc::Arr(items) => {
            let n = items.len();
            let mut i: usize = 0;
            assert(items@.subrange(0, n as int) =~= items@);
            while i < n
                invariant
                    n == items.len(),
                    i <= n,
                    *v == JsonDoc::Arr(*items),
                    find_str_items(items@, key_views(keys@), depth as nat) == find_str_items(
                        items@.subrange(i as int, n as int),
                        key_views(keys@),
                        depth as nat,
                    ),
                decreases n - i,
            {
                assert(items@.subrange(i as int, n as int).drop_first() =~= items@.subrange(
                    i + 1,
                    n as int,
                ));
                assert(items@.subrange(i as int, n as int)[0] == items@[i as int]);
                let r = find_str_exec(&items[i], keys, depth);
                if r.is_some() {
                    return r;
                }
                i += 1;
            }
            None
        },
        _ => None,
    }
}

/// The security token that the console's user-info answer carries: the body
/// read as JSON, string values that hold JSON opened up, and the first
/// non-blank `secToken` or `sec_token` string of a depth-first search,
/// trimmed. The search opens embedded texts to a depth of the body's length,
/// which no body reaches: an embedded text is shorter than the one holding
/// it.
pub fn sec_token_from_user_info(body: &str) -> (r: Option<String>)
    ensures
        opt_view(r) == match json_doc(body@) {
            Some(v) => find_str(v, seq!["secToken"@, "sec_token"@], body@.len()),
            None => None,
        },
{
    let depth = chars_of(body).len();
    let keys: [&str; 2] = ["secToken", "sec_token"];
    proof {
        assert(key_views(keys@) =~= seq!["secToken"@, "sec_token"@]);
    }
    match parse_json_doc(body) {
        Some(v) => find_str_exec(&v, keys.as_slice(), depth),
        None => None,
    }
}

} // verus!
