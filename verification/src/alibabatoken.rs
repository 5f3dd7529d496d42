//! Alibaba Token Plan quota: site configuration, request body encoding,
//! cookie and `sec_token` extraction, and the classification of failures.
use crate::cookie_util::is_quote;
use crate::text::{
    chars_eq, chars_of, contains_chars, contains_seq, copy_range, find_char, first_index_of,
    first_where, lemma_first_where_is, lower_chars, lower_seq, matches_at, occurs_at, split_char,
    string_of, trim, trim_range, trim_start,
};
use crate::usage_feed::{dec, digit_char, push_dec};
use vstd::prelude::*;
use vstd::string::StrSliceExecFns;
use vstd::utf8::encode_utf8;

verus! {

// ------------------------------------------------------------------
// Sites
// ------------------------------------------------------------------

/// Endpoints and parameters of one site.
pub struct RegionConf {
    /// Console / gateway host (team endpoint and Origin).
    pub gateway: &'static str,
    /// Personal gateway host (usage, subscription, quota-config).
    pub quota_host: &'static str,
    pub region_id: &'static str,
    pub gateway_action: &'static str,
    pub console_site: &'static str,
    /// ProductCode of the team subscription summary.
    pub team_product: &'static str,
    /// commodityCode of the personal subscription.
    pub solo_product: &'static str,
    pub team_dashboard: &'static str,
    pub personal_dashboard: &'static str,
}

pub open spec fn is_global(region: Option<&str>) -> bool {
    match region {
        Some(r) => r@ == "global"@,
        None => false,
    }
}

/// `global` selects the international site, anything else the China site.
pub fn region_conf(region: Option<&str>) -> (c: RegionConf)
    ensures
        is_global(region) ==> c.gateway@ == "https://modelstudio.console.alibabacloud.com"@
            && c.quota_host@ == "https://bailian-singapore-cs.alibabacloud.com"@ && c.region_id@
            == "ap-southeast-1"@ && c.gateway_action@ == "IntlBroadScopeAspnGateway"@
            && c.console_site@ == "MODELSTUDIO_ALBABACLOUD"@ && c.team_product@
            == "sfm_tokenplanteams_dp_intl"@ && c.solo_product@ == "sfm_tokenplansolo_public_intl"@
            && c.team_dashboard@
            == "https://modelstudio.console.alibabacloud.com/ap-southeast-1/?tab=plan#/efm/subscription/token-plan"@
            && c.personal_dashboard@
            == "https://modelstudio.console.alibabacloud.com/ap-southeast-1/?tab=plan#/efm/subscription/token-plan/personal"@,
        !is_global(region) ==> c.gateway@ == "https://bailian.console.aliyun.com"@ && c.quota_host@
            == "https://bailian-cs.console.aliyun.com"@ && c.region_id@ == "cn-beijing"@
            && c.gateway_action@ == "BroadScopeAspnGateway"@ && c.console_site@ == "BAILIAN_ALIYUN"@
            && c.team_product@ == "sfm_tokenplanteams_dp_cn"@ && c.solo_product@
            == "sfm_tokenplansolo_public_cn"@ && c.team_dashboard@
            == "https://bailian.console.aliyun.com/cn-beijing?tab=plan#/efm/subscription/token-plan"@
            && c.personal_dashboard@
            == "https://bailian.console.aliyun.com/cn-beijing?tab=plan#/efm/subscription/token-plan/personal"@,
{
    let global = match region {
        Some(r) => chars_eq(&chars_of(r), &chars_of("global")),
        None => false,
    };
    if global {
        RegionConf {
            gateway: "https://modelstudio.console.alibabacloud.com",
            quota_host: "https://bailian-singapore-cs.alibabacloud.com",
            region_id: "ap-southeast-1",
            gateway_action: "IntlBroadScopeAspnGateway",
            console_site: "MODELSTUDIO_ALBABACLOUD",
            team_product: "sfm_tokenplanteams_dp_intl",
            solo_product: "sfm_tokenplansolo_public_intl",
            team_dashboard: "https://modelstudio.console.alibabacloud.com/ap-southeast-1/?tab=plan#/efm/subscription/token-plan",
            personal_dashboard: "https://modelstudio.console.alibabacloud.com/ap-southeast-1/?tab=plan#/efm/subscription/token-plan/personal",
        }
    } else {
        RegionConf {
            gateway: "https://bailian.console.aliyun.com",
            quota_host: "https://bailian-cs.console.aliyun.com",
            region_id: "cn-beijing",
            gateway_action: "BroadScopeAspnGateway",
            console_site: "BAILIAN_ALIYUN",
            team_product: "sfm_tokenplanteams_dp_cn",
            solo_product: "sfm_tokenplansolo_public_cn",
            team_dashboard: "https://bailian.console.aliyun.com/cn-beijing?tab=plan#/efm/subscription/token-plan",
            personal_dashboard: "https://bailian.console.aliyun.com/cn-beijing?tab=plan#/efm/subscription/token-plan/personal",
        }
    }
}

// ------------------------------------------------------------------
// Form encoding
// ------------------------------------------------------------------

/// RFC 3986 unreserved bytes: `A-Z a-z 0-9 - . _ ~`.
pub open spec fn unreserved(b: u8) -> bool {
    (65 <= b <= 90) || (97 <= b <= 122) || (48 <= b <= 57) || b == 45 || b == 46 || b == 95 || b
        == 126
}

/// Upper-case hexadecimal digit.
pub open spec fn hex_digit(d: int) -> char {
    if d < 10 {
        digit_char(d)
    } else if d == 10 {
        'A'
    } else if d == 11 {
        'B'
    } else if d == 12 {
        'C'
    } else if d == 13 {
        'D'
    } else if d == 14 {
        'E'
    } else {
        'F'
    }
}

/// One byte of a form value: itself when unreserved, else `%XX`.
pub open spec fn encode_byte(b: u8) -> Seq<char> {
    if unreserved(b) {
        seq![b as char]
    } else {
        seq!['%', hex_digit((b / 16) as int), hex_digit((b % 16) as int)]
    }
}

/// `application/x-www-form-urlencoded` value of the bytes `bs`.
pub open spec fn form_encoded(bs: Seq<u8>) -> Seq<char>
    decreases bs.len(),
{
    if bs.len() == 0 {
        Seq::empty()
    } else {
        form_encoded(bs.drop_last()) + encode_byte(bs.last())
    }
}

/// Characters that can appear in a form-encoded value.
pub open spec fn form_char(c: char) -> bool {
    ('A' <= c && c <= 'Z') || ('a' <= c && c <= 'z') || ('0' <= c && c <= '9') || c == '-' || c
        == '.' || c == '_' || c == '~' || c == '%'
}

/// A form-encoded value only holds unreserved characters and `%` escapes.
pub proof fn lemma_form_encoded_alphabet(bs: Seq<u8>)
    ensures
        forall|i: int| 0 <= i < form_encoded(bs).len() ==> form_char(#[trigger] form_encoded(bs)[i]),
    decreases bs.len(),
{
    if bs.len() > 0 {
        let p = form_encoded(bs.drop_last());
        let e = encode_byte(bs.last());
        lemma_form_encoded_alphabet(bs.drop_last());
        assert forall|i: int| 0 <= i < e.len() implies form_char(#[trigger] e[i]) by {
            let b = bs.last();
            if unreserved(b) {
                assert(e[i] == (b as char));
            } else {
                assert(0 <= b / 16 < 16 && 0 <= b % 16 < 16);
            }
        }
        assert forall|i: int| 0 <= i < form_encoded(bs).len() implies form_char(
            #[trigger] form_encoded(bs)[i],
        ) by {
            if i < p.len() {
                assert(form_encoded(bs)[i] == p[i]);
            } else {
                assert(form_encoded(bs)[i] == e[i - p.len()]);
            }
        }
    }
}

fn hex_char(d: u8) -> (c: char)
    requires
        d < 16,
    ensures
        c == hex_digit(d as int),
{
    if d == 0 {
        '0'
    } else if d == 1 {
        '1'
    } else if d == 2 {
        '2'
    } else if d == 3 {
        '3'
    } else if d == 4 {
        '4'
    } else if d == 5 {
        '5'
    } else if d == 6 {
        '6'
    } else if d == 7 {
        '7'
    } else if d == 8 {
        '8'
    } else if d == 9 {
        '9'
    } else if d == 10 {
        'A'
    } else if d == 11 {
        'B'
    } else if d == 12 {
        'C'
    } else if d == 13 {
        'D'
    } else if d == 14 {
        'E'
    } else {
        'F'
    }
}

fn push_form_encoded(out: &mut Vec<char>, s: &str)
    ensures
        final(out)@ == old(out)@ + form_encoded(encode_utf8(s@)),
{
    let bytes = s.as_bytes();
    let ghost bs = bytes@;
    assert(bs == encode_utf8(s@));
    let ghost start = out@;
    let mut i: usize = 0;
    while i < bytes.len()
        invariant
            i <= bytes.len(),
            bs == bytes@,
            out@ == start + form_encoded(bs.take(i as int)),
        decreases bytes.len() - i,
    {
        let b = bytes[i];
        let is_unreserved = (65 <= b && b <= 90) || (97 <= b && b <= 122) || (48 <= b && b <= 57)
            || b == 45 || b == 46 || b == 95 || b == 126;
        if is_unreserved {
            out.push(b as char);
        } else {
            out.push('%');
            out.push(hex_char(b / 16));
            out.push(hex_char(b % 16));
        }
        proof {
            assert(bs.take(i + 1).drop_last() =~= bs.take(i as int));
            assert(bs.take(i + 1).last() == b);
        }
        i = i + 1;
        assert(out@ =~= start + form_encoded(bs.take(i as int)));
    }
    assert(bs.take(bytes.len() as int) =~= bs);
}

/// Percent-encodes the UTF-8 bytes of `s` outside the unreserved set.
pub fn form_urlencode(s: &str) -> (r: String)
    ensures
        r@ == form_encoded(encode_utf8(s@)),
{
    let mut out: Vec<char> = Vec::new();
    push_form_encoded(&mut out, s);
    string_of(&out)
}

/// Appends `&sec_token=<encoded>` to a form body when the token is not
/// blank (after trimming).
pub fn append_sec_token(body: &mut String, sec_token: Option<&str>)
    ensures
        match sec_token {
            Some(t) => if trim(t@).len() > 0 {
                final(body)@ == old(body)@ + "&sec_token="@ + form_encoded(encode_utf8(trim(t@)))
            } else {
                final(body)@ == old(body)@
            },
            None => final(body)@ == old(body)@,
        },
{
    match sec_token {
        Some(t) => {
            let v = chars_of(t);
            let (a, b) = trim_range(&v, 0, v.len());
            assert(v@.subrange(0, v.len() as int) =~= v@);
            if a < b {
                let tt = t.substring_char(a, b);
                let mut out = chars_of(body.as_str());
                let mut key = chars_of("&sec_token=");
                out.append(&mut key);
                push_form_encoded(&mut out, tt);
                *body = string_of(&out);
            }
        },
        None => {},
    }
}

// ------------------------------------------------------------------
// Cookie and sec_token extraction
// ------------------------------------------------------------------

/// A `;`-piece names cookie `name`: it has `=` and the trimmed text before
/// it is `name`.
pub open spec fn piece_named(p: Seq<char>, name: Seq<char>) -> bool {
    first_index_of(p, '=') >= 0 && trim(p.take(first_index_of(p, '='))) == name
}

/// The trimmed value of the first cookie named exactly `name`.
pub open spec fn cookie_value_of(cookie: Seq<char>, name: Seq<char>) -> Option<Seq<char>> {
    let ps = split_char(cookie, ';');
    let i = first_where(ps, |p: Seq<char>| piece_named(p, name));
    if i >= 0 {
        Some(trim(ps[i].skip(first_index_of(ps[i], '=') + 1)))
    } else {
        None
    }
}

/// The value of cookie `name` in a normalised cookie string.
pub fn cookie_value<'a>(cookie: &'a str, name: &str) -> (r: Option<&'a str>)
    ensures
        match r {
            Some(x) => cookie_value_of(cookie@, name@) == Some(x@),
            None => cookie_value_of(cookie@, name@) is None,
        },
{
    let v = chars_of(cookie);
    let nc = chars_of(name);
    let n = v.len();
    let ghost ps = split_char(v@, ';');
    let ghost pred = |p: Seq<char>| piece_named(p, name@);
    let ghost mut k: int = 0;
    let mut start: usize = 0;
    assert(v@.subrange(0, n as int) =~= v@);
    loop
        invariant
            start <= n == v.len(),
            v@ == cookie@,
            nc@ == name@,
            ps == split_char(v@, ';'),
            pred == (|p: Seq<char>| piece_named(p, name@)),
            0 <= k <= ps.len(),
            ps.skip(k) == split_char(v@.subrange(start as int, n as int), ';'),
            forall|m: int| 0 <= m < k ==> !pred(#[trigger] ps[m]),
        decreases n - start,
    {
        let ghost u = v@.subrange(start as int, n as int);
        let (e, last) = match find_char(&v, start, n, ';') {
            Some(j) => (j, false),
            None => (n, true),
        };
        let ghost piece = v@.subrange(start as int, e as int);
        proof {
            if !last {
                assert(u.take(e - start) =~= piece);
                assert(u.skip(e - start + 1) =~= v@.subrange(e + 1, n as int));
                assert(split_char(u, ';') == seq![piece] + split_char(v@.subrange(e + 1, n as int), ';'));
            } else {
                assert(u =~= piece);
                assert(split_char(u, ';') == seq![u]);
            }
            assert(ps.skip(k)[0] == piece);
            assert(ps[k] == piece);
        }
        match find_char(&v, start, e, '=') {
            Some(q) => {
                assert(piece.take(q - start) =~= v@.subrange(start as int, q as int));
                assert(piece.skip(q - start + 1) =~= v@.subrange(q + 1, e as int));
                let (a, b) = trim_range(&v, start, q);
                if chars_eq(&copy_range(&v, a, b), &nc) {
                    let (x, y) = trim_range(&v, q + 1, e);
                    proof {
                        lemma_first_where_is(ps, pred, k);
                    }
                    return Some(cookie.substring_char(x, y));
                }
            },
            None => {},
        }
        if last {
            proof {
                assert(ps.len() == k + 1) by {
                    assert(ps.skip(k).len() == 1);
                }
                lemma_first_where_is(ps, pred, -1);
            }
            return None;
        }
        proof {
            assert(ps.skip(k + 1) =~= ps.skip(k).drop_first());
            k = k + 1;
        }
        start = e + 1;
    }
}

/// First index `i >= from` where `p` occurs in `s`, or -1.
pub open spec fn first_occurrence(s: Seq<char>, p: Seq<char>, from: int) -> int
    decreases s.len() + 1 - from,
{
    if from < 0 || from + p.len() > s.len() {
        -1
    } else if occurs_at(s, p, from) {
        from
    } else {
        first_occurrence(s, p, from + 1)
    }
}

pub proof fn lemma_first_occurrence_range(s: Seq<char>, p: Seq<char>, from: int)
    ensures
        first_occurrence(s, p, from) == -1 || (from <= first_occurrence(s, p, from)
            && first_occurrence(s, p, from) + p.len() <= s.len() && occurs_at(
            s,
            p,
            first_occurrence(s, p, from),
        )),
    decreases s.len() + 1 - from,
{
    if !(from < 0 || from + p.len() > s.len()) && !occurs_at(s, p, from) {
        lemma_first_occurrence_range(s, p, from + 1);
    }
}

/// The quoted value after a key: optional closing quote of a quoted key,
/// then `:` or `=`, then a quoted non-blank value.
pub open spec fn value_after_key(rest0: Seq<char>, quoted_key: bool) -> Option<Seq<char>> {
    let rest = if quoted_key {
        let r = trim_start(rest0);
        if r.len() > 0 && is_quote(r[0]) {
            r.drop_first()
        } else {
            r
        }
    } else {
        rest0
    };
    let rt = trim_start(rest);
    if rt.len() == 0 || (rt[0] != ':' && rt[0] != '=') {
        None
    } else {
        let after = trim_start(rt.drop_first());
        if after.len() > 0 && is_quote(after[0]) {
            let content = after.drop_first();
            let e = first_index_of(content, after[0]);
            if e >= 0 && trim(content.take(e)).len() > 0 {
                Some(trim(content.take(e)))
            } else {
                None
            }
        } else {
            None
        }
    }
}

/// Scans `text` from `from` for `key` followed by a quoted value; the first
/// occurrence with a value wins.
pub open spec fn scan_value(text: Seq<char>, key: Seq<char>, quoted_key: bool, from: int) -> Option<
    Seq<char>,
>
    decreases text.len() + 1 - from,
{
    if key.len() == 0 {
        None
    } else {
        let pos = first_occurrence(text, key, from);
        proof {
            lemma_first_occurrence_range(text, key, from);
        }
        if pos < 0 || pos < from {
            None
        } else {
            match value_after_key(text.skip(pos + key.len()), quoted_key) {
                Some(v) => Some(v),
                None => scan_value(text, key, quoted_key, pos + key.len()),
            }
        }
    }
}

fn first_occurrence_exec(v: &Vec<char>, p: &Vec<char>, from: usize) -> (r: Option<usize>)
    requires
        from <= v.len(),
    ensures
        match r {
            Some(i) => first_occurrence(v@, p@, from as int) == i,
            None => first_occurrence(v@, p@, from as int) == -1,
        },
{
    if p.len() == 0 {
        assert(v@.subrange(from as int, from as int) =~= p@);
        return Some(from);
    }
    let mut i = from;
    while p.len() <= v.len() - i
        invariant
            from <= i <= v.len(),
            p.len() > 0,
            first_occurrence(v@, p@, i as int) == first_occurrence(v@, p@, from as int),
        decreases v.len() - i,
    {
        if matches_at(v, i, p) {
            return Some(i);
        }
        i = i + 1;
    }
    None
}

/// `value_after_key` on `v[lo..]`, as a copy.
fn value_after_key_exec(v: &Vec<char>, lo: usize, quoted_key: bool) -> (r: Option<Vec<char>>)
    requires
        lo <= v.len(),
    ensures
        match r {
            Some(x) => value_after_key(v@.skip(lo as int), quoted_key) == Some(x@),
            None => value_after_key(v@.skip(lo as int), quoted_key) is None,
        },
{
    let n = v.len();
    assert(v@.skip(lo as int) =~= v@.subrange(lo as int, n as int));
    let mut start = lo;
    if quoted_key {
        let (a, _b) = trim_range(v, lo, n);
        if a < n && (v[a] == '"' || v[a] == '\'') {
            assert(v@.subrange(a as int, n as int).drop_first() =~= v@.subrange(a + 1, n as int));
            start = a + 1;
        } else {
            start = a;
        }
    }
    let (rt, _b2) = trim_range(v, start, n);
    if rt == n || (v[rt] != ':' && v[rt] != '=') {
        return None;
    }
    assert(v@.subrange(rt as int, n as int).drop_first() =~= v@.subrange(rt + 1, n as int));
    let (af, _b3) = trim_range(v, rt + 1, n);
    if af == n || !(v[af] == '"' || v[af] == '\'') {
        return None;
    }
    let q = v[af];
    assert(v@.subrange(af as int, n as int).drop_first() =~= v@.subrange(af + 1, n as int));
    match find_char(v, af + 1, n, q) {
        Some(e) => {
            assert(v@.subrange(af + 1, n as int).take(e - (af + 1)) =~= v@.subrange(af + 1, e as int));
            let (x, y) = trim_range(v, af + 1, e);
            if x < y {
                Some(copy_range(v, x, y))
            } else {
                None
            }
        },
        None => None,
    }
}

/// Scans `text` for `key` (optionally quoted) followed by `:` or `=` and a
/// quoted value; the first non-blank value found.
pub fn scan_string_value_after_key(text: &str, key: &str, quoted_key: bool) -> (r: Option<String>)
    requires
        key@.len() > 0,
    ensures
        match r {
            Some(x) => scan_value(text@, key@, quoted_key, 0) == Some(x@),
            None => scan_value(text@, key@, quoted_key, 0) is None,
        },
{
    let v = chars_of(text);
    let kc = chars_of(key);
    let mut from: usize = 0;
    loop
        invariant
            from <= v.len(),
            v@ == text@,
            kc@ == key@,
            kc@.len() > 0,
            scan_value(v@, kc@, quoted_key, from as int) == scan_value(v@, kc@, quoted_key, 0),
        decreases v.len() - from,
    {
        proof {
            lemma_first_occurrence_range(v@, kc@, from as int);
        }
        match first_occurrence_exec(&v, &kc, from) {
            None => {
                return None;
            },
            Some(pos) => {
                let next = pos + kc.len();
                match value_after_key_exec(&v, next, quoted_key) {
                    Some(x) => {
                        return Some(string_of(&x));
                    },
                    None => {
                        if next >= v.len() {
                            proof {
                                assert(scan_value(v@, kc@, quoted_key, next as int) is None) by {
                                    lemma_first_occurrence_range(v@, kc@, next as int);
                                    if next == v.len() {
                                        assert(first_occurrence(v@, kc@, next as int) == -1);
                                    }
                                }
                            }
                            return None;
                        }
                        from = next;
                    },
                }
            },
        }
    }
}

/// The sec_token in a console page: the quoted keys `secToken` and
/// `sec_token`, then the bare keys `secToken`, `sec_token` and `SEC_TOKEN`.
pub open spec fn sec_token_in(html: Seq<char>) -> Option<Seq<char>> {
    match scan_value(html, "secToken"@, true, 0) {
        Some(t) => Some(t),
        None => match scan_value(html, "sec_token"@, true, 0) {
            Some(t) => Some(t),
            None => match scan_value(html, "secToken"@, false, 0) {
                Some(t) => Some(t),
                None => match scan_value(html, "sec_token"@, false, 0) {
                    Some(t) => Some(t),
                    None => scan_value(html, "SEC_TOKEN"@, false, 0),
                },
            },
        },
    }
}

/// Extracts the console `sec_token` from a page.
pub fn extract_sec_token_from_html(html: &str) -> (r: Option<String>)
    ensures
        match r {
            Some(t) => sec_token_in(html@) == Some(t@),
            None => sec_token_in(html@) is None,
        },
{
    proof {
        reveal_strlit("secToken");
        reveal_strlit("sec_token");
        reveal_strlit("SEC_TOKEN");
    }
    if let Some(t) = scan_string_value_after_key(html, "secToken", true) {
        return Some(t);
    }
    if let Some(t) = scan_string_value_after_key(html, "sec_token", true) {
        return Some(t);
    }
    if let Some(t) = scan_string_value_after_key(html, "secToken", false) {
        return Some(t);
    }
    if let Some(t) = scan_string_value_after_key(html, "sec_token", false) {
        return Some(t);
    }
    scan_string_value_after_key(html, "SEC_TOKEN", false)
}

// ------------------------------------------------------------------
// Failure classification
// ------------------------------------------------------------------

/// A login page: an HTML document that mentions logging in.
pub open spec fn login_html(text: Seq<char>) -> bool {
    let l = lower_seq(text);
    contains_seq(l, "<html"@) && (contains_seq(l, "login"@) || contains_seq(l, "sign in"@)
        || contains_seq(l, "signin"@))
}

/// Whether a reply body is the login page the gateway redirects to.
pub fn is_likely_login_html(text: &str) -> (b: bool)
    ensures
        b == login_html(text@),
{
    let l = lower_chars(&chars_of(text));
    contains_chars(&l, &chars_of("<html")) && (contains_chars(&l, &chars_of("login"))
        || contains_chars(&l, &chars_of("sign in")) || contains_chars(&l, &chars_of("signin")))
}

/// Error class of a reply envelope.
#[derive(Debug)]
pub enum PayloadError {
    LoginRequired,
    InvalidCredentials,
    WorkspaceNotAuthorised,
    Api(String),
}

/// The code and message, trimmed and lower-cased, joined by a space.
pub open spec fn combined_text(code: Option<Seq<char>>, message: Option<Seq<char>>) -> Seq<char> {
    match (code, message) {
        (Some(c), Some(m)) => lower_seq(trim(c)) + " "@ + lower_seq(trim(m)),
        (Some(c), None) => lower_seq(trim(c)),
        (None, Some(m)) => lower_seq(trim(m)),
        (None, None) => Seq::empty(),
    }
}

pub open spec fn login_marked(s: Seq<char>) -> bool {
    ||| contains_seq(s, "needlogin"@)
    ||| contains_seq(s, "login"@)
    ||| contains_seq(s, "postonlyortokenerror"@)
    ||| contains_seq(s, "tokenerror"@)
    ||| contains_seq(s, "request has expired"@)
    ||| contains_seq(s, "refresh page"@)
    ||| contains_seq(s, "请求已经过期"@)
}

pub open spec fn auth_marked(s: Seq<char>) -> bool {
    ||| contains_seq(s, "notauthorised"@)
    ||| contains_seq(s, "notauthorized"@)
    ||| contains_seq(s, "not authorised"@)
    ||| contains_seq(s, "not authorized"@)
    ||| contains_seq(s, "unauthorised"@)
    ||| contains_seq(s, "unauthorized"@)
    ||| contains_seq(s, "access denied"@)
    ||| contains_seq(s, "forbidden"@)
}

/// 0: none, 1: workspace not authorised, 2: login required, 3: invalid
/// credentials; the workspace case is checked first (it is no expiry).
pub open spec fn auth_class(code: Option<Seq<char>>, message: Option<Seq<char>>) -> int {
    let s = combined_text(code, message);
    if s.len() == 0 {
        0
    } else if contains_seq(s, "workspace.notauthorised"@) || contains_seq(
        s,
        "workspace.notauthorized"@,
    ) {
        1
    } else if login_marked(s) {
        2
    } else if auth_marked(s) {
        3
    } else {
        0
    }
}

/// A stale session token is a login failure: a code or message that holds
/// `tokenerror` (such as the console's `PostonlyOrTokenError`), matched
/// without regard to case, classifies as login required unless it names
/// the workspace authorisation failure; so does a code alone that holds it.
pub proof fn lemma_token_error_is_login(code: Option<Seq<char>>, message: Option<Seq<char>>, c: Seq<char>)
    ensures
        contains_seq(combined_text(code, message), "tokenerror"@) && !contains_seq(
            combined_text(code, message),
            "workspace.notauthorised"@,
        ) && !contains_seq(combined_text(code, message), "workspace.notauthorized"@) ==> auth_class(
            code,
            message,
        ) == 2,
        contains_seq(combined_text(code, message), "postonlyortokenerror"@) && !contains_seq(
            combined_text(code, message),
            "workspace.notauthorised"@,
        ) && !contains_seq(combined_text(code, message), "workspace.notauthorized"@) ==> auth_class(
            code,
            message,
        ) == 2,
        contains_seq(lower_seq(trim(c)), "tokenerror"@) && !contains_seq(
            lower_seq(trim(c)),
            "workspace.notauthorised"@,
        ) && !contains_seq(lower_seq(trim(c)), "workspace.notauthorized"@) ==> auth_class(
            Some(c),
            None,
        ) == 2,
{
    reveal_strlit("tokenerror");
    reveal_strlit("postonlyortokenerror");
    let s = combined_text(code, message);
    if contains_seq(s, "tokenerror"@) {
        let i = choose|i: int| occurs_at(s, "tokenerror"@, i);
        assert(s.len() > 0);
    }
    if contains_seq(s, "postonlyortokenerror"@) {
        let i = choose|i: int| occurs_at(s, "postonlyortokenerror"@, i);
        assert(s.len() > 0);
    }
    let t = lower_seq(trim(c));
    if contains_seq(t, "tokenerror"@) {
        let i = choose|i: int| occurs_at(t, "tokenerror"@, i);
        assert(t.len() > 0);
    }
}

/// The workspace authorisation failure comes first; otherwise any login
/// marker (`needlogin`, `login`, `tokenerror`, `postonlyortokenerror`,
/// `request has expired`, `refresh page`,
/// `请求已经过期`) means login required, and otherwise any refusal marker
/// (`notauthorised`, `unauthorized`, `access denied`, `forbidden`, ...)
/// means invalid credentials; a text with none of them is no auth error.
pub proof fn lemma_auth_class_markers(code: Option<Seq<char>>, message: Option<Seq<char>>)
    ensures
        ({
            let s = combined_text(code, message);
            let ws = contains_seq(s, "workspace.notauthorised"@) || contains_seq(
                s,
                "workspace.notauthorized"@,
            );
            let login = contains_seq(s, "needlogin"@) || contains_seq(s, "login"@) || contains_seq(
                s,
                "tokenerror"@,
            ) || contains_seq(s, "postonlyortokenerror"@) || contains_seq(s, "request has expired"@) || contains_seq(s, "refresh page"@)
                || contains_seq(s, "请求已经过期"@);
            let refused = contains_seq(s, "notauthorised"@) || contains_seq(s, "notauthorized"@)
                || contains_seq(s, "not authorised"@) || contains_seq(s, "not authorized"@)
                || contains_seq(s, "unauthorised"@) || contains_seq(s, "unauthorized"@)
                || contains_seq(s, "access denied"@) || contains_seq(s, "forbidden"@);
            &&& ws ==> auth_class(code, message) == 1
            &&& !ws && login ==> auth_class(code, message) == 2
            &&& !ws && !login && refused ==> auth_class(code, message) == 3
            &&& !ws && !login && !refused ==> auth_class(code, message) == 0
        }),
{
    let s = combined_text(code, message);
    reveal_strlit("workspace.notauthorised");
    reveal_strlit("workspace.notauthorized");
    reveal_strlit("needlogin");
    reveal_strlit("login");
    reveal_strlit("tokenerror");
    reveal_strlit("postonlyortokenerror");
    reveal_strlit("request has expired");
    reveal_strlit("refresh page");
    reveal_strlit("请求已经过期");
    if contains_seq(s, "workspace.notauthorised"@) {
        let i = choose|i: int| occurs_at(s, "workspace.notauthorised"@, i);
    }
    if contains_seq(s, "workspace.notauthorized"@) {
        let i = choose|i: int| occurs_at(s, "workspace.notauthorized"@, i);
    }
    if contains_seq(s, "needlogin"@) {
        let i = choose|i: int| occurs_at(s, "needlogin"@, i);
    }
    if contains_seq(s, "login"@) {
        let i = choose|i: int| occurs_at(s, "login"@, i);
    }
    if contains_seq(s, "tokenerror"@) {
        let i = choose|i: int| occurs_at(s, "tokenerror"@, i);
    }
    if contains_seq(s, "request has expired"@) {
        let i = choose|i: int| occurs_at(s, "request has expired"@, i);
    }
    if contains_seq(s, "refresh page"@) {
        let i = choose|i: int| occurs_at(s, "refresh page"@, i);
    }
    if contains_seq(s, "请求已经过期"@) {
        let i = choose|i: int| occurs_at(s, "请求已经过期"@, i);
    }
    if contains_seq(s, "postonlyortokenerror"@) {
        let i = choose|i: int| occurs_at(s, "postonlyortokenerror"@, i);
    }
    lemma_refusal_nonempty(s);
}

proof fn lemma_refusal_nonempty(s: Seq<char>)
    ensures
        (contains_seq(s, "notauthorised"@) || contains_seq(s, "notauthorized"@) || contains_seq(
            s,
            "not authorised"@,
        ) || contains_seq(s, "not authorized"@) || contains_seq(s, "unauthorised"@) || contains_seq(
            s,
            "unauthorized"@,
        ) || contains_seq(s, "access denied"@) || contains_seq(s, "forbidden"@)) ==> s.len() > 0,
{
    reveal_strlit("notauthorised");
    reveal_strlit("notauthorized");
    reveal_strlit("not authorised");
    reveal_strlit("not authorized");
    reveal_strlit("unauthorised");
    reveal_strlit("unauthorized");
    reveal_strlit("access denied");
    reveal_strlit("forbidden");
    if contains_seq(s, "notauthorised"@) {
        let i = choose|i: int| occurs_at(s, "notauthorised"@, i);
    }
    if contains_seq(s, "notauthorized"@) {
        let i = choose|i: int| occurs_at(s, "notauthorized"@, i);
    }
    if contains_seq(s, "not authorised"@) {
        let i = choose|i: int| occurs_at(s, "not authorised"@, i);
    }
    if contains_seq(s, "not authorized"@) {
        let i = choose|i: int| occurs_at(s, "not authorized"@, i);
    }
    if contains_seq(s, "unauthorised"@) {
        let i = choose|i: int| occurs_at(s, "unauthorised"@, i);
    }
    if contains_seq(s, "unauthorized"@) {
        let i = choose|i: int| occurs_at(s, "unauthorized"@, i);
    }
    if contains_seq(s, "access denied"@) {
        let i = choose|i: int| occurs_at(s, "access denied"@, i);
    }
    if contains_seq(s, "forbidden"@) {
        let i = choose|i: int| occurs_at(s, "forbidden"@, i);
    }
}

fn opt_view(x: Option<&str>) -> (r: Option<Vec<char>>)
    ensures
        match x {
            Some(s) => r is Some && r->0@ == s@,
            None => r is None,
        },
{
    match x {
        Some(s) => Some(chars_of(s)),
        None => None,
    }
}

fn contains_lit(s: &Vec<char>, p: &str) -> (b: bool)
    ensures
        b == contains_seq(s@, p@),
{
    contains_chars(s, &chars_of(p))
}

/// Error class of an envelope's code and message (see `auth_class`).
pub fn auth_error_of(code: Option<&str>, message: Option<&str>) -> (r: Option<PayloadError>)
    ensures
        match r {
            None => auth_class(
                match code {
                    Some(c) => Some(c@),
                    None => None,
                },
                match message {
                    Some(m) => Some(m@),
                    None => None,
                },
            ) == 0,
            Some(PayloadError::WorkspaceNotAuthorised) => auth_class(
                match code {
                    Some(c) => Some(c@),
                    None => None,
                },
                match message {
                    Some(m) => Some(m@),
                    None => None,
                },
            ) == 1,
            Some(PayloadError::LoginRequired) => auth_class(
                match code {
                    Some(c) => Some(c@),
                    None => None,
                },
                match message {
                    Some(m) => Some(m@),
                    None => None,
                },
            ) == 2,
            Some(PayloadError::InvalidCredentials) => auth_class(
                match code {
                    Some(c) => Some(c@),
                    None => None,
                },
                match message {
                    Some(m) => Some(m@),
                    None => None,
                },
            ) == 3,
            Some(PayloadError::Api(_)) => false,
        },
{
    let ghost cv = match code {
        Some(c) => Some(c@),
        None => None,
    };
    let ghost mv = match message {
        Some(m) => Some(m@),
        None => None,
    };
    let lowered = |x: &Vec<char>| -> (r: Vec<char>)
        ensures
            r@ == lower_seq(trim(x@)),
        {
            let (a, b) = trim_range(x, 0, x.len());
            assert(x@.subrange(0, x.len() as int) =~= x@);
            lower_chars(&copy_range(x, a, b))
        };
    let c = opt_view(code);
    let m = opt_view(message);
    let s: Vec<char> = match (&c, &m) {
        (Some(cc), Some(mm)) => {
            let mut out = lowered(cc);
            let mut sp = chars_of(" ");
            let mut mm2 = lowered(mm);
            out.append(&mut sp);
            out.append(&mut mm2);
            out
        },
        (Some(cc), None) => lowered(cc),
        (None, Some(mm)) => lowered(mm),
        (None, None) => Vec::new(),
    };
    assert(s@ =~= combined_text(cv, mv));
    if s.len() == 0 {
        return None;
    }
    if contains_lit(&s, "workspace.notauthorised") || contains_lit(&s, "workspace.notauthorized") {
        return Some(PayloadError::WorkspaceNotAuthorised);
    }
    if contains_lit(&s, "needlogin") || contains_lit(&s, "login") || contains_lit(
        &s,
        "postonlyortokenerror",
    ) || contains_lit(&s, "tokenerror") || contains_lit(&s, "request has expired")
        || contains_lit(&s, "refresh page") || contains_lit(&s, "请求已经过期") {
        return Some(PayloadError::LoginRequired);
    }
    if contains_lit(&s, "notauthorised") || contains_lit(&s, "notauthorized") || contains_lit(
        &s,
        "not authorised",
    ) || contains_lit(&s, "not authorized") || contains_lit(&s, "unauthorised") || contains_lit(
        &s,
        "unauthorized",
    ) || contains_lit(&s, "access denied") || contains_lit(&s, "forbidden") {
        return Some(PayloadError::InvalidCredentials);
    }
    None
}

/// Failure class of a raw reply.
#[derive(Debug)]
pub enum Failure {
    /// Network failure (message already prefixed).
    Network(String),
    /// Session expired (401/403, login page, login/token markers).
    Expired,
    /// Workspace not authorised (console sec_token missing).
    NotAuthorised,
    /// HTTP status other than 200, 401 and 403.
    Http(u16),
    /// Empty or non-JSON 200 reply.
    Parse(String),
    /// Business error of the envelope.
    Api(String),
}

pub open spec fn missing_sec_token_message() -> Seq<char> {
    "缺少控制台 sec_token，请从百炼订阅页请求中复制完整 Cookie"@
}

/// The text shown for a failure (`Expired` has its own entry).
pub open spec fn failure_text(f: Failure) -> Option<Seq<char>> {
    match f {
        Failure::Network(e) => Some(e@),
        Failure::Expired => None,
        Failure::NotAuthorised => Some(missing_sec_token_message()),
        Failure::Http(s) => Some("百炼 Token 包查询失败（HTTP "@ + dec(s as int) + "）"@),
        Failure::Parse(m) => Some(m@),
        Failure::Api(m) => Some("百炼平台返回错误: "@ + m@),
    }
}

/// The text shown for a failure.
pub fn failure_message(failure: &Failure) -> (r: Option<String>)
    ensures
        match r {
            Some(s) => failure_text(*failure) == Some(s@),
            None => failure_text(*failure) is None,
        },
{
    match failure {
        Failure::Network(e) => Some(e.clone()),
        Failure::Expired => None,
        Failure::NotAuthorised => Some(
            "缺少控制台 sec_token，请从百炼订阅页请求中复制完整 Cookie".to_owned(),
        ),
        Failure::Http(status) => {
            let mut out = chars_of("百炼 Token 包查询失败（HTTP ");
            push_dec(&mut out, *status as i64);
            let mut tail = chars_of("）");
            out.append(&mut tail);
            Some(string_of(&out))
        },
        Failure::Parse(msg) => Some(msg.clone()),
        Failure::Api(msg) => {
            let mut out = chars_of("百炼平台返回错误: ");
            let mut m = chars_of(msg.as_str());
            out.append(&mut m);
            Some(string_of(&out))
        },
    }
}

/// Display name of a plan code: the common tiers capitalised.
pub open spec fn plan_name_of(code: Seq<char>) -> Seq<char> {
    if code == "lite"@ {
        "Lite"@
    } else if code == "standard"@ {
        "Standard"@
    } else if code == "pro"@ {
        "Pro"@
    } else if code == "max"@ {
        "Max"@
    } else {
        code
    }
}

/// Display name of a plan code.
pub fn display_plan_name(plan_code: &str) -> (r: String)
    ensures
        r@ == plan_name_of(plan_code@),
{
    let c = chars_of(plan_code);
    if chars_eq(&c, &chars_of("lite")) {
        "Lite".to_owned()
    } else if chars_eq(&c, &chars_of("standard")) {
        "Standard".to_owned()
    } else if chars_eq(&c, &chars_of("pro")) {
        "Pro".to_owned()
    } else if chars_eq(&c, &chars_of("max")) {
        "Max".to_owned()
    } else {
        plan_code.to_owned()
    }
}

// ------------------------------------------------------------------
// Trace ids
// ------------------------------------------------------------------

/// Lower-case hexadecimal digits.
pub open spec fn hex_alphabet() -> Seq<char> {
    "0123456789abcdef"@
}

/// The last `width` hexadecimal digits of `v`, zero-padded (for
/// `v < 16^width`, the `{:0width$x}` text of `v`).
pub open spec fn hex_fixed(v: nat, width: nat) -> Seq<char>
    decreases width,
{
    if width == 0 {
        Seq::empty()
    } else {
        hex_fixed(v / 16, (width - 1) as nat).push(hex_alphabet()[(v % 16) as int])
    }
}

/// One xorshift64 step (shifts 13, 7, 17).
pub open spec fn xs_step(s: u64) -> u64 {
    let a = s ^ (s << 13u64);
    let b = a ^ (a >> 7u64);
    b ^ (b << 17u64)
}

/// The generator state from the clock (`nanos`) and the process id.
pub open spec fn trace_seed(nanos: u64, pid: u32) -> u64 {
    nanos ^ ((pid as u64) << 32u64) ^ 0x9e37_79b9_7f4a_7c15u64
}

/// A UUID-shaped trace id: five xorshift outputs, masked to 32, 16, 16, 16
/// and 48 bits, in hexadecimal, joined by `-`.
pub open spec fn trace_id_text(nanos: u64, pid: u32) -> Seq<char> {
    let s1 = xs_step(trace_seed(nanos, pid));
    let s2 = xs_step(s1);
    let s3 = xs_step(s2);
    let s4 = xs_step(s3);
    let s5 = xs_step(s4);
    hex_fixed((s1 & 0xffff_ffffu64) as nat, 8) + seq!['-'] + hex_fixed((s2 & 0xffffu64) as nat, 4)
        + seq!['-'] + hex_fixed((s3 & 0xffffu64) as nat, 4) + seq!['-'] + hex_fixed(
        (s4 & 0xffffu64) as nat,
        4,
    ) + seq!['-'] + hex_fixed((s5 & 0xffff_ffff_ffffu64) as nat, 12)
}

fn xorshift(s: u64) -> (r: u64)
    ensures
        r == xs_step(s),
{
    let a = s ^ (s << 13u64);
    let b = a ^ (a >> 7u64);
    b ^ (b << 17u64)
}

fn push_hex(out: &mut Vec<char>, digits: &Vec<char>, v: u64, width: u64)
    requires
        digits@ == hex_alphabet(),
        digits.len() == 16,
    ensures
        final(out)@ == old(out)@ + hex_fixed(v as nat, width as nat),
    decreases width,
{
    if width > 0 {
        push_hex(out, digits, v / 16, width - 1);
        let d = digits[(v % 16) as usize];
        out.push(d);
        assert(final(out)@ =~= old(out)@ + hex_fixed(v as nat, width as nat));
    } else {
        assert(old(out)@ + hex_fixed(v as nat, 0) =~= old(out)@);
    }
}

/// A UUID-shaped trace id for the console's `feTraceId`, generated from the
/// clock reading `nanos` and the process id (see `trace_id_text`).
pub fn pseudo_uuid(nanos: u64, pid: u32) -> (r: String)
    ensures
        r@ == trace_id_text(nanos, pid),
{
    let digits = chars_of("0123456789abcdef");
    proof {
        reveal_strlit("0123456789abcdef");
    }
    let s1 = xorshift(nanos ^ ((pid as u64) << 32u64) ^ 0x9e37_79b9_7f4a_7c15u64);
    let s2 = xorshift(s1);
    let s3 = xorshift(s2);
    let s4 = xorshift(s3);
    let s5 = xorshift(s4);
    let mut out: Vec<char> = Vec::new();
    push_hex(&mut out, &digits, s1 & 0xffff_ffffu64, 8);
    out.push('-');
    push_hex(&mut out, &digits, s2 & 0xffffu64, 4);
    out.push('-');
    push_hex(&mut out, &digits, s3 & 0xffffu64, 4);
    out.push('-');
    push_hex(&mut out, &digits, s4 & 0xffffu64, 4);
    out.push('-');
    push_hex(&mut out, &digits, s5 & 0xffff_ffff_ffffu64, 12);
    assert(out@ =~= trace_id_text(nanos, pid));
    string_of(&out)
}

proof fn lemma_hex_fixed(v: nat, width: nat)
    ensures
        hex_fixed(v, width).len() == width,
        forall|i: int| 0 <= i < width ==> hex_alphabet().contains(#[trigger] hex_fixed(v, width)[i]),
    decreases width,
{
    reveal_strlit("0123456789abcdef");
    if width > 0 {
        lemma_hex_fixed(v / 16, (width - 1) as nat);
        let p = hex_fixed(v / 16, (width - 1) as nat);
        let d = (v % 16) as int;
        assert(hex_alphabet()[d] == hex_alphabet()[d]);
        assert forall|i: int| 0 <= i < width implies hex_alphabet().contains(
            #[trigger] hex_fixed(v, width)[i],
        ) by {
            if i < width - 1 {
                assert(hex_fixed(v, width)[i] == p[i]);
            } else {
                assert(hex_fixed(v, width)[i] == hex_alphabet()[d]);
            }
        }
    }
}

/// Every trace id has the UUID shape: 36 characters, `-` at positions 8,
/// 13, 18 and 23, lower-case hexadecimal digits elsewhere.
pub proof fn lemma_trace_id_shape(nanos: u64, pid: u32)
    ensures
        trace_id_text(nanos, pid).len() == 36,
        forall|i: int|
            0 <= i < 36 ==> if i == 8 || i == 13 || i == 18 || i == 23 {
                trace_id_text(nanos, pid)[i] == '-'
            } else {
                hex_alphabet().contains(#[trigger] trace_id_text(nanos, pid)[i])
            },
{
    let s1 = xs_step(trace_seed(nanos, pid));
    let s2 = xs_step(s1);
    let s3 = xs_step(s2);
    let s4 = xs_step(s3);
    let s5 = xs_step(s4);
    let a = hex_fixed((s1 & 0xffff_ffffu64) as nat, 8);
    let b = hex_fixed((s2 & 0xffffu64) as nat, 4);
    let c = hex_fixed((s3 & 0xffffu64) as nat, 4);
    let d = hex_fixed((s4 & 0xffffu64) as nat, 4);
    let e = hex_fixed((s5 & 0xffff_ffff_ffffu64) as nat, 12);
    lemma_hex_fixed((s1 & 0xffff_ffffu64) as nat, 8);
    lemma_hex_fixed((s2 & 0xffffu64) as nat, 4);
    lemma_hex_fixed((s3 & 0xffffu64) as nat, 4);
    lemma_hex_fixed((s4 & 0xffffu64) as nat, 4);
    lemma_hex_fixed((s5 & 0xffff_ffff_ffffu64) as nat, 12);
    let t = trace_id_text(nanos, pid);
    assert(t =~= a + seq!['-'] + b + seq!['-'] + c + seq!['-'] + d + seq!['-'] + e);
    assert forall|i: int| 0 <= i < 36 implies if i == 8 || i == 13 || i == 18 || i == 23 {
        t[i] == '-'
    } else {
        hex_alphabet().contains(#[trigger] t[i])
    } by {
        if i < 8 {
            assert(t[i] == a[i]);
        } else if 8 < i < 13 {
            assert(t[i] == b[i - 9]);
        } else if 13 < i < 18 {
            assert(t[i] == c[i - 14]);
        } else if 18 < i < 23 {
            assert(t[i] == d[i - 19]);
        } else if 23 < i {
            assert(t[i] == e[i - 24]);
        }
    }
}

} // verus!
