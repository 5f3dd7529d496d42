//! A reply body read into the quota document: serde_json's parse of the
//! text, every string that holds a JSON object or array opened up, and each
//! scalar given the caller's floating-point readings of its text, looked up
//! in a table that the caller fills.
use crate::coding_plan::{NumReading, QDoc, Reading};
use crate::json_doc::{embedded_doc, embedded_exec, json_doc, parse_json_doc, str_is, JsonDoc};
use crate::text::chars_of;
use vstd::prelude::*;

verus! {

/// The caller's readings of one scalar text of a reply: `is_text` tells a
/// JSON string from a JSON number, whose text is the one serde_json prints.
pub struct ScalarReading {
    pub is_text: bool,
    pub text: String,
    pub reading: Reading,
}

pub open spec fn num_same(a: Option<NumReading>, b: Option<NumReading>) -> bool {
    match (a, b) {
        (None, None) => true,
        (Some(x), Some(y)) => x.at == y.at && x.whole == y.whole && x.shown@ == y.shown@
            && x.positive == y.positive,
        _ => false,
    }
}

/// Two readings that say the same.
pub open spec fn reading_same(a: Reading, b: Reading) -> bool {
    num_same(a.num, b.num) && num_same(a.amount, b.amount) && a.nonzero == b.nonzero && a.time_ms
        == b.time_ms
}

/// The readings of a scalar that reads as nothing.
pub open spec fn no_reading() -> Reading {
    Reading { num: None, amount: None, nonzero: None, time_ms: None }
}

/// The readings the table gives a scalar: those of its first row with the
/// same kind and text, or none.
pub open spec fn table_reading(table: Seq<ScalarReading>, is_text: bool, t: Seq<char>) -> Reading
    decreases table.len(),
{
    if table.len() == 0 {
        no_reading()
    } else if table[0].is_text == is_text && table[0].text@ == t {
        table[0].reading
    } else {
        table_reading(table.drop_first(), is_text, t)
    }
}

/// `q` is the JSON document `d` read with the table: null, a flag (which
/// reads as nothing), a number or a string keep their place with the table's
/// readings of their text; a string that holds a JSON object or array (to
/// `depth` levels) is read as that document; arrays and objects are read
/// item by item, keys and order kept.
pub open spec fn doc_reads(q: QDoc, d: JsonDoc, table: Seq<ScalarReading>, depth: nat) -> bool
    decreases depth, d,
{
    match d {
        JsonDoc::Null => q is Null,
        JsonDoc::Bool(b) => match q {
            QDoc::Bool(c, r) => c == b && reading_same(r, no_reading()),
            _ => false,
        },
        JsonDoc::Num(t) => match q {
            QDoc::Num(r) => reading_same(r, table_reading(table, false, t@)),
            _ => false,
        },
        JsonDoc::Str(s) => match embedded_doc(s@, depth) {
            Some(n) => doc_reads(q, n, table, (depth - 1) as nat),
            None => match q {
                QDoc::Str(s2, r) => s2@ == s@ && reading_same(r, table_reading(table, true, s@)),
                _ => false,
            },
        },
        JsonDoc::Arr(items) => match q {
            QDoc::Arr(qs) => items_read(qs@, items@, table, depth),
            _ => false,
        },
        JsonDoc::Obj(es) => match q {
            QDoc::Obj(qes) => entries_read(qes@, es@, table, depth),
            _ => false,
        },
    }
}

pub open spec fn items_read(
    qs: Seq<QDoc>,
    items: Seq<JsonDoc>,
    table: Seq<ScalarReading>,
    depth: nat,
) -> bool
    decreases depth, items,
{
    qs.len() == items.len() && (items.len() == 0 || (doc_reads(qs[0], items[0], table, depth)
        && items_read(qs.drop_first(), items.drop_first(), table, depth)))
}

pub open spec fn entries_read(
    qes: Seq<(String, QDoc)>,
    es: Seq<(String, JsonDoc)>,
    table: Seq<ScalarReading>,
    depth: nat,
) -> bool
    decreases depth, es,
{
    qes.len() == es.len() && (es.len() == 0 || (qes[0].0@ == es[0].0@ && doc_reads(
        qes[0].1,
        es[0].1,
        table,
        depth,
    ) && entries_read(qes.drop_first(), es.drop_first(), table, depth)))
}

/// A body read as a document (see `doc_reads`), strings opened to a depth
/// of the body's length; none when the body is no JSON.
pub open spec fn body_reads(q: Option<QDoc>, body: Seq<char>, table: Seq<ScalarReading>) -> bool {
    match json_doc(body) {
        Some(d) => q is Some && doc_reads(q->0, d, table, body.len()),
        None => q is None,
    }
}

proof fn lemma_items_read(qs: Seq<QDoc>, items: Seq<JsonDoc>, table: Seq<ScalarReading>, depth: nat)
    requires
        qs.len() == items.len(),
        forall|j: int| 0 <= j < items.len() ==> doc_reads(#[trigger] qs[j], items[j], table, depth),
    ensures
        items_read(qs, items, table, depth),
    decreases items.len(),
{
    if items.len() > 0 {
        assert forall|j: int| 0 <= j < items.drop_first().len() implies doc_reads(
            #[trigger] qs.drop_first()[j],
            items.drop_first()[j],
            table,
            depth,
        ) by {
            assert(qs.drop_first()[j] == qs[j + 1]);
        }
        lemma_items_read(qs.drop_first(), items.drop_first(), table, depth);
    }
}

proof fn lemma_entries_read(
    qes: Seq<(String, QDoc)>,
    es: Seq<(String, JsonDoc)>,
    table: Seq<ScalarReading>,
    depth: nat,
)
    requires
        qes.len() == es.len(),
        forall|j: int|
            0 <= j < es.len() ==> (#[trigger] qes[j]).0@ == es[j].0@ && doc_reads(
                qes[j].1,
                es[j].1,
                table,
                depth,
            ),
    ensures
        entries_read(qes, es, table, depth),
    decreases es.len(),
{
    if es.len() > 0 {
        assert forall|j: int| 0 <= j < es.drop_first().len() implies (#[trigger] qes.drop_first()[
            j
        ]).0@ == es.drop_first()[j].0@ && doc_reads(
            qes.drop_first()[j].1,
            es.drop_first()[j].1,
            table,
            depth,
        ) by {
            assert(qes.drop_first()[j] == qes[j + 1]);
        }
        lemma_entries_read(qes.drop_first(), es.drop_first(), table, depth);
    }
}

fn copy_num(n: &Option<NumReading>) -> (c: Option<NumReading>)
    ensures
        num_same(c, *n),
{
    match n {
        Some(x) => Some(
            NumReading { at: x.at, whole: x.whole, shown: x.shown.clone(), positive: x.positive },
        ),
        None => None,
    }
}

fn copy_reading(r: &Reading) -> (c: Reading)
    ensures
        reading_same(c, *r),
{
    Reading {
        num: copy_num(&r.num),
        amount: copy_num(&r.amount),
        nonzero: r.nonzero,
        time_ms: r.time_ms,
    }
}

fn lookup(table: &Vec<ScalarReading>, is_text: bool, t: &str) -> (r: Reading)
    ensures
        reading_same(r, table_reading(table@, is_text, t@)),
{
    let n = table.len();
    let mut i: usize = 0;
    assert(table@.subrange(0, n as int) =~= table@);
    while i < n
        invariant
            n == table.len(),
            i <= n,
            table_reading(table@, is_text, t@) == table_reading(
                table@.subrange(i as int, n as int),
                is_text,
                t@,
            ),
        decreases n - i,
    {
        assert(table@.subrange(i as int, n as int).drop_first() =~= table@.subrange(
            i + 1,
            n as int,
        ));
        if table[i].is_text == is_text && str_is(table[i].text.as_str(), t) {
            return copy_reading(&table[i].reading);
        }
        i += 1;
    }
    Reading { num: None, amount: None, nonzero: None, time_ms: None }
}

fn read_doc(d: &JsonDoc, table: &Vec<ScalarReading>, depth: usize) -> (q: QDoc)
    ensures
        doc_reads(q, *d, table@, depth as nat),
    decreases depth, d,
{
    match d {
        JsonDoc::Null => QDoc::Null,
        JsonDoc::Bool(b) => QDoc::Bool(*b, Reading { num: None, amount: None, nonzero: None, time_ms: None }),
        JsonDoc::Num(t) => QDoc::Num(lookup(table, false, t.as_str())),
        JsonDoc::Str(s) => match embedded_exec(s, depth) {
            Some(n) => read_doc(&n, table, depth - 1),
            None => QDoc::Str(s.clone(), lookup(table, true, s.as_str())),
        },
        JsonDoc::Arr(items) => {
            let n = items.len();
            let mut out: Vec<QDoc> = Vec::new();
            let mut i: usize = 0;
            while i < n
                invariant
                    n == items.len(),
                    i <= n,
                    *d == JsonDoc::Arr(*items),
                    out.len() == i,
                    forall|j: int|
                        0 <= j < i ==> doc_reads(
                            #[trigger] out@[j],
                            items@[j],
                            table@,
                            depth as nat,
                        ),
                decreases n - i,
            {
                proof {
                    assert((*d)->Arr_0 == *items);
                    assert(decreases_to!(*d => (*d)->Arr_0));
                    assert(decreases_to!(*items => items@));
                    assert(decreases_to!(items@ => items@[i as int]));
                }
                let q = read_doc(&items[i], table, depth);
                out.push(q);
                i += 1;
            }
            proof {
                lemma_items_read(out@, items@, table@, depth as nat);
            }
            QDoc::Arr(out)
        },
        JsonDoc::Obj(es) => {
            let n = es.len();
            let mut out: Vec<(String, QDoc)> = Vec::new();
            let mut i: usize = 0;
            while i < n
                invariant
                    n == es.len(),
                    i <= n,
                    *d == JsonDoc::Obj(*es),
                    out.len() == i,
                    forall|j: int|
                        0 <= j < i ==> (#[trigger] out@[j]).0@ == es@[j].0@ && doc_reads(
                            out@[j].1,
                            es@[j].1,
                            table@,
                            depth as nat,
                        ),
                decreases n - i,
            {
                proof {
                    assert((*d)->Obj_0 == *es);
                    assert(decreases_to!(*d => (*d)->Obj_0));
                    assert(decreases_to!(*es => es@));
                    assert(decreases_to!(es@ => es@[i as int]));
                    assert(decreases_to!(es@[i as int] => es@[i as int].1));
                }
                let q = read_doc(&es[i].1, table, depth);
                out.push((es[i].0.clone(), q));
                i += 1;
            }
            proof {
                lemma_entries_read(out@, es@, table@, depth as nat);
            }
            QDoc::Obj(out)
        },
    }
}

/// A reply body read as a document (see `body_reads`). Strings are opened
/// to a depth of the body's length, which no body reaches: a text held in a
/// string is shorter than the text that holds it.
pub fn read_body(body: &str, table: &Vec<ScalarReading>) -> (q: Option<QDoc>)
    ensures
        body_reads(q, body@, table@),
{
    let depth = chars_of(body).len();
    match parse_json_doc(body) {
        Some(d) => Some(read_doc(&d, table, depth)),
        None => None,
    }
}

} // verus!
