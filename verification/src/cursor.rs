//! Cursor usage: credential choice, cookie building, the one-off migration
//! decision, event classification and the per-period token buckets.
use crate::db::PeriodBucket;
use crate::provider_credentials::CredentialQuerySnapshot;
use crate::text::{
    chars_eq, chars_of, contains_chars, contains_seq, copy_range, find_char,
    split_char, string_of, trim, trim_range,
};
use vstd::prelude::*;
use vstd::string::StrSliceExecFns;
use base64::Engine;

verus! {

/// The text shown when a manual Cursor cookie has expired.
pub const MANUAL_COOKIE_EXPIRED_MSG: &'static str = "会话已失效，请重新登录 cursor.com 后更新 Cookie";

/// Whether the legacy manual cookie is migrated: the old configuration is
/// explicitly `manual`, its cookie is not blank, and no credential exists.
pub open spec fn migration_wanted(source: Seq<char>, cookie: Seq<char>, count: nat) -> bool {
    source == "manual"@ && trim(cookie).len() > 0 && count == 0
}

/// The migration decision (idempotent: an existing credential stops it).
pub fn migration_needed(cookie_source: &str, old_cookie_header: &str, credential_count: usize) -> (r:
    bool)
    ensures
        r == migration_wanted(cookie_source@, old_cookie_header@, credential_count as nat),
{
    let h = chars_of(old_cookie_header);
    let (a, b) = trim_range(&h, 0, h.len());
    assert(h@.subrange(0, h.len() as int) =~= h@);
    chars_eq(&chars_of(cookie_source), &chars_of("manual")) && a < b && credential_count == 0
}

/// Once any credential exists (for instance the migrated one), the
/// migration is never wanted again.
pub proof fn lemma_migration_idempotent(source: Seq<char>, cookie: Seq<char>, count: nat)
    requires
        count > 0,
    ensures
        !migration_wanted(source, cookie, count),
{
}

/// Index of the first credential of kind `cookie` with a non-blank secret.
pub open spec fn first_cookie_index(snaps: Seq<CredentialQuerySnapshot>) -> int
    decreases snaps.len(),
{
    if snaps.len() == 0 {
        -1
    } else if snaps[0].kind@ == "cookie"@ && trim(snaps[0].secret@).len() > 0 {
        0
    } else {
        let r = first_cookie_index(snaps.drop_first());
        if r < 0 {
            -1
        } else {
            r + 1
        }
    }
}

proof fn lemma_first_cookie_index(snaps: Seq<CredentialQuerySnapshot>, k: int)
    requires
        0 <= k <= snaps.len(),
        forall|m: int|
            0 <= m < k ==> !((#[trigger] snaps[m]).kind@ == "cookie"@ && trim(snaps[m].secret@).len()
                > 0),
    ensures
        first_cookie_index(snaps) == if k == snaps.len() {
            -1
        } else if snaps[k].kind@ == "cookie"@ && trim(snaps[k].secret@).len() > 0 {
            k
        } else {
            let r = first_cookie_index(snaps.skip(k + 1));
            if r < 0 {
                -1
            } else {
                r + k + 1
            }
        },
    decreases k,
{
    if k > 0 {
        let t = snaps.drop_first();
        assert forall|m: int|
            0 <= m < k - 1 implies !((#[trigger] t[m]).kind@ == "cookie"@ && trim(t[m].secret@).len()
            > 0) by {
            assert(t[m] == snaps[m + 1]);
        }
        assert(!(snaps[0].kind@ == "cookie"@ && trim(snaps[0].secret@).len() > 0));
        lemma_first_cookie_index(t, k - 1);
        if k < snaps.len() {
            assert(t[k - 1] == snaps[k]);
            assert(t.skip(k) =~= snaps.skip(k + 1));
        }
    } else if k < snaps.len() && !(snaps[0].kind@ == "cookie"@ && trim(snaps[0].secret@).len() > 0) {
        assert(snaps.skip(1) =~= snaps.drop_first());
    }
}

/// The manual cookie in effect: the trimmed secret of the earliest cookie
/// credential with a non-blank secret.
pub fn pick_first_cookie(snapshots: &[CredentialQuerySnapshot]) -> (r: Option<String>)
    ensures
        match r {
            Some(c) => first_cookie_index(snapshots@) >= 0 && c@ == trim(
                snapshots@[first_cookie_index(snapshots@)].secret@,
            ),
            None => first_cookie_index(snapshots@) == -1,
        },
{
    let cookie = chars_of("cookie");
    let mut i: usize = 0;
    while i < snapshots.len()
        invariant
            i <= snapshots.len(),
            cookie@ == "cookie"@,
            forall|m: int|
                0 <= m < i ==> !((#[trigger] snapshots@[m]).kind@ == "cookie"@ && trim(
                    snapshots@[m].secret@,
                ).len() > 0),
        decreases snapshots.len() - i,
    {
        let s = &snapshots[i];
        if chars_eq(&chars_of(s.kind.as_str()), &cookie) {
            let sv = chars_of(s.secret.as_str());
            let (a, b) = trim_range(&sv, 0, sv.len());
            assert(sv@.subrange(0, sv.len() as int) =~= sv@);
            if a < b {
                proof {
                    lemma_first_cookie_index(snapshots@, i as int);
                }
                return Some(string_of(&copy_range(&sv, a, b)));
            }
        }
        i = i + 1;
    }
    proof {
        lemma_first_cookie_index(snapshots@, i as int);
    }
    None
}

/// `WorkosCursorSessionToken=<user>%3A%3A<token>`.
pub open spec fn session_cookie(user_id: Seq<char>, token: Seq<char>) -> Seq<char> {
    "WorkosCursorSessionToken="@ + user_id + "%3A%3A"@ + token
}

/// The Cursor session cookie header of a user id and an access token.
pub fn build_cookie(user_id: &str, token: &str) -> (r: String)
    ensures
        r@ == session_cookie(user_id@, token@),
{
    let mut out = chars_of("WorkosCursorSessionToken=");
    let mut u = chars_of(user_id);
    let mut sep = chars_of("%3A%3A");
    let mut t = chars_of(token);
    out.append(&mut u);
    out.append(&mut sep);
    out.append(&mut t);
    string_of(&out)
}

/// Index of the last non-empty piece, or -1.
pub open spec fn last_nonempty(ps: Seq<Seq<char>>) -> int
    decreases ps.len(),
{
    if ps.len() == 0 {
        -1
    } else if ps.last().len() > 0 {
        ps.len() - 1
    } else {
        last_nonempty(ps.drop_last())
    }
}

/// The user id of a JWT `sub`: its last non-empty `|`-separated piece (the
/// whole `sub` when there is none); an empty result is an error.
pub open spec fn user_id_of_sub(sub: Seq<char>) -> Option<Seq<char>> {
    let ps = split_char(sub, '|');
    let k = last_nonempty(ps);
    let id = if k >= 0 {
        ps[k]
    } else {
        sub
    };
    if id.len() > 0 {
        Some(id)
    } else {
        None
    }
}

proof fn lemma_last_nonempty_range(ps: Seq<Seq<char>>)
    ensures
        -1 <= last_nonempty(ps) < ps.len(),
        last_nonempty(ps) >= 0 ==> ps[last_nonempty(ps)].len() > 0,
    decreases ps.len(),
{
    if ps.len() > 0 && ps.last().len() == 0 {
        lemma_last_nonempty_range(ps.drop_last());
    }
}

proof fn lemma_last_nonempty_push(ps: Seq<Seq<char>>, x: Seq<char>)
    ensures
        last_nonempty(ps.push(x)) == if x.len() > 0 {
            ps.len() as int
        } else {
            last_nonempty(ps)
        },
{
    assert(ps.push(x).drop_last() =~= ps);
}

/// The Cursor user id from the `sub` claim of its access token.
pub fn user_id_from_sub(sub: &str) -> (r: Result<String, String>)
    ensures
        match r {
            Ok(id) => user_id_of_sub(sub@) == Some(id@),
            Err(m) => user_id_of_sub(sub@) is None && m@ == "JWT sub 字段无法提取 user ID"@,
        },
{
    let v = chars_of(sub);
    let n = v.len();
    let ghost all = split_char(v@, '|');
    let ghost mut done: Seq<Seq<char>> = Seq::empty();
    let mut best: Option<(usize, usize)> = None;
    let mut start: usize = 0;
    let mut finished = false;
    assert(v@.subrange(0, n as int) =~= v@);
    while !finished
        invariant
            start <= n == v.len(),
            all == split_char(v@, '|'),
            !finished ==> done + split_char(v@.subrange(start as int, n as int), '|') == all,
            finished ==> done == all,
            match best {
                Some((a, b)) => a <= b <= n && last_nonempty(done) >= 0 && done[last_nonempty(done)]
                    == v@.subrange(a as int, b as int),
                None => last_nonempty(done) == -1,
            },
        decreases n - start + (if finished {
            0int
        } else {
            1int
        }),
    {
        let ghost u = v@.subrange(start as int, n as int);
        let (e, last) = match find_char(&v, start, n, '|') {
            Some(j) => (j, false),
            None => (n, true),
        };
        let ghost piece = v@.subrange(start as int, e as int);
        proof {
            if !last {
                assert(u.take(e - start) =~= piece);
                assert(u.skip(e - start + 1) =~= v@.subrange(e + 1, n as int));
                assert(split_char(u, '|') == seq![piece] + split_char(v@.subrange(e + 1, n as int), '|'));
                assert(done.push(piece) + split_char(v@.subrange(e + 1, n as int), '|') =~= done + (seq![piece] + split_char(v@.subrange(e + 1, n as int), '|')));
            } else {
                assert(u =~= piece);
                assert(split_char(u, '|') == seq![u]);
                assert(done.push(piece) =~= done + seq![piece]);
            }
            lemma_last_nonempty_push(done, piece);
            assert(done.push(piece)[done.len() as int] == piece);
            if last_nonempty(done) >= 0 {
                lemma_last_nonempty_range(done);
                assert(done.push(piece)[last_nonempty(done)] == done[last_nonempty(done)]);
            }
            done = done.push(piece);
        }
        if e > start {
            best = Some((start, e));
        }
        if last {
            finished = true;
        } else {
            start = e + 1;
        }
    }
    let id = match best {
        Some((a, b)) => copy_range(&v, a, b),
        None => v,
    };
    if id.len() > 0 {
        Ok(string_of(&id))
    } else {
        Err("JWT sub 字段无法提取 user ID".to_owned())
    }
}

// ------------------------------------------------------------------
// Access token (JWT) claims
// ------------------------------------------------------------------

/// What base64 URL-safe decoding gives for a text: the bytes, or the
/// decoder's error text. `padded` selects the engine that requires padding
/// (`URL_SAFE`) instead of the one that forbids it (`URL_SAFE_NO_PAD`).
pub uninterp spec fn b64url_decoded(s: Seq<char>, padded: bool) -> Result<Seq<u8>, Seq<char>>;

/// Trusted: calls `base64::Engine::decode` of `URL_SAFE` or
/// `URL_SAFE_NO_PAD` on the text; the error is the decoder's message. The
/// contract names the result, a function of the text and the engine.
#[verifier::external_body]
fn b64url_decode_with(input: &str, padded: bool) -> (r: Result<Vec<u8>, String>)
    ensures
        match r {
            Ok(v) => b64url_decoded(input@, padded) == Ok::<Seq<u8>, Seq<char>>(v@),
            Err(e) => b64url_decoded(input@, padded) == Err::<Seq<u8>, Seq<char>>(e@),
        },
{
    let engine = if padded {
        base64::engine::general_purpose::URL_SAFE
    } else {
        base64::engine::general_purpose::URL_SAFE_NO_PAD
    };
    engine.decode(input).map_err(|e| e.to_string())
}

/// The `sub` (string) and `exp` (integer) claims of a JSON payload, or the
/// parser's error text.
pub uninterp spec fn json_claims(bytes: Seq<u8>) -> Result<(Option<Seq<char>>, Option<i64>), Seq<char>>;

pub open spec fn claims_view(r: Result<(Option<String>, Option<i64>), String>) -> Result<
    (Option<Seq<char>>, Option<i64>),
    Seq<char>,
> {
    match r {
        Ok((sub, exp)) => Ok(
            (
                match sub {
                    Some(s) => Some(s@),
                    None => None,
                },
                exp,
            ),
        ),
        Err(e) => Err(e@),
    }
}

/// Trusted: calls `serde_json::from_slice` into a `Value` and picks the
/// string field `sub` and the integer field `exp`; the error is the
/// parser's message. The contract names the result, a function of the bytes.
#[verifier::external_body]
fn parse_jwt_claims(bytes: &[u8]) -> (r: Result<(Option<String>, Option<i64>), String>)
    ensures
        claims_view(r) == json_claims(bytes@),
{
    serde_json::from_slice::<serde_json::Value>(bytes)
        .map(|v| (
            v.get("sub").and_then(|x| x.as_str()).map(|s| s.to_owned()),
            v.get("exp").and_then(|x| x.as_i64()),
        ))
        .map_err(|e| e.to_string())
}

/// The payload part of a token: its second `.`-separated piece.
pub open spec fn jwt_payload_part(token: Seq<char>) -> Option<Seq<char>> {
    let ps = split_char(token, '.');
    if ps.len() >= 2 {
        Some(ps[1])
    } else {
        None
    }
}

/// The decoded payload bytes: unpadded URL-safe base64 first, padded second.
pub open spec fn jwt_payload_bytes(part: Seq<char>) -> Result<Seq<u8>, Seq<char>> {
    let t = trim(part);
    match b64url_decoded(t, false) {
        Ok(b) => Ok(b),
        Err(_) => match b64url_decoded(t, true) {
            Ok(b) => Ok(b),
            Err(e) => Err("base64 解码失败: "@ + e),
        },
    }
}

/// The claims of a token, or why they cannot be read.
pub open spec fn jwt_claims_of(token: Seq<char>) -> Result<(Option<Seq<char>>, Option<i64>), Seq<char>> {
    match jwt_payload_part(token) {
        None => Err("access token 不是有效的 JWT 格式"@),
        Some(p) => match jwt_payload_bytes(p) {
            Err(e) => Err(e),
            Ok(b) => match json_claims(b) {
                Ok(c) => Ok(c),
                Err(e) => Err("解析 JWT payload 失败: "@ + e),
            },
        },
    }
}

/// The second `.`-piece of `token`, as a range.
fn payload_range(v: &Vec<char>) -> (r: Option<(usize, usize)>)
    ensures
        match r {
            Some((a, b)) => a <= b <= v.len() && jwt_payload_part(v@) == Some(
                v@.subrange(a as int, b as int),
            ),
            None => jwt_payload_part(v@) is None,
        },
{
    let n = v.len();
    assert(v@.subrange(0, n as int) =~= v@);
    match find_char(v, 0, n, '.') {
        None => {
            assert(split_char(v@, '.') == seq![v@]);
            None
        },
        Some(i) => {
            assert(v@.take(i as int) =~= v@.subrange(0, i as int));
            assert(v@.skip(i + 1) =~= v@.subrange(i + 1, n as int));
            let ghost rest = split_char(v@.subrange(i + 1, n as int), '.');
            assert(split_char(v@, '.') == seq![v@.subrange(0, i as int)] + rest);
            let e = match find_char(v, i + 1, n, '.') {
                Some(j) => {
                    let ghost u = v@.subrange(i + 1, n as int);
                    assert(u.take(j - (i + 1)) =~= v@.subrange(i + 1, j as int));
                    j
                },
                None => n,
            };
            assert(rest[0] == v@.subrange(i + 1, e as int));
            Some((i + 1, e))
        },
    }
}

/// The `sub` and `exp` claims of an access token.
pub fn jwt_payload_claims(token: &str) -> (r: Result<(Option<String>, Option<i64>), String>)
    ensures
        claims_view(r) == jwt_claims_of(token@),
{
    let v = chars_of(token);
    let (a, b) = match payload_range(&v) {
        None => return Err("access token 不是有效的 JWT 格式".to_owned()),
        Some(r) => r,
    };
    let (x, y) = trim_range(&v, a, b);
    let part = token.substring_char(x, y);
    let bytes = match b64url_decode_with(part, false) {
        Ok(b) => b,
        Err(_) => match b64url_decode_with(part, true) {
            Ok(b) => b,
            Err(e) => {
                let mut out = chars_of("base64 解码失败: ");
                let mut ev = chars_of(e.as_str());
                out.append(&mut ev);
                return Err(string_of(&out));
            },
        },
    };
    match parse_jwt_claims(bytes.as_slice()) {
        Ok(c) => Ok(c),
        Err(e) => {
            let mut out = chars_of("解析 JWT payload 失败: ");
            let mut ev = chars_of(e.as_str());
            out.append(&mut ev);
            Err(string_of(&out))
        },
    }
}

/// The user id of parsed claims: the user id of `sub`, or why there is none.
pub open spec fn user_id_of_claims(c: Result<(Option<Seq<char>>, Option<i64>), Seq<char>>) -> Result<
    Seq<char>,
    Seq<char>,
> {
    match c {
        Err(e) => Err(e),
        Ok((None, _)) => Err("JWT payload 中缺少 sub 字段"@),
        Ok((Some(sub), _)) => match user_id_of_sub(sub) {
            Some(id) => Ok(id),
            None => Err("JWT sub 字段无法提取 user ID"@),
        },
    }
}

/// The user id from parsed token claims.
pub fn user_id_from_claims(claims: Result<(Option<String>, Option<i64>), String>) -> (r: Result<
    String,
    String,
>)
    ensures
        match r {
            Ok(id) => user_id_of_claims(claims_view(claims)) == Ok::<Seq<char>, Seq<char>>(id@),
            Err(e) => user_id_of_claims(claims_view(claims)) == Err::<Seq<char>, Seq<char>>(e@),
        },
{
    match claims {
        Err(e) => Err(e),
        Ok((None, _)) => Err("JWT payload 中缺少 sub 字段".to_owned()),
        Ok((Some(sub), _)) => user_id_from_sub(sub.as_str()),
    }
}

/// The Cursor user id of an access token (last `|`-piece of its `sub`).
pub fn jwt_user_id(token: &str) -> (r: Result<String, String>)
    ensures
        match r {
            Ok(id) => user_id_of_claims(jwt_claims_of(token@)) == Ok::<Seq<char>, Seq<char>>(id@),
            Err(e) => user_id_of_claims(jwt_claims_of(token@)) == Err::<Seq<char>, Seq<char>>(e@),
        },
{
    user_id_from_claims(jwt_payload_claims(token))
}

/// A token is still valid unless its `exp` is within a minute of now; a
/// token whose expiry cannot be read is let through (the API decides).
pub open spec fn token_unexpired(c: Result<(Option<Seq<char>>, Option<i64>), Seq<char>>, now_secs: int) -> bool {
    match c {
        Ok((_, Some(exp))) => exp > now_secs + 60,
        _ => true,
    }
}

/// Whether the access token is not about to expire at `now_secs`.
pub fn jwt_is_valid(token: &str, now_secs: i64) -> (b: bool)
    requires
        now_secs <= i64::MAX - 60,
    ensures
        b == token_unexpired(jwt_claims_of(token@), now_secs as int),
{
    match jwt_payload_claims(token) {
        Ok((_, Some(exp))) => exp > now_secs + 60,
        _ => true,
    }
}

// ------------------------------------------------------------------
// HTTP failures
// ------------------------------------------------------------------

/// The text of a failed Cursor request: a 401 asks to log in again, another
/// status names it, a transport failure carries its detail.
pub open spec fn http_error_text(status: Option<u16>, ctx: Seq<char>, detail: Seq<char>) -> Seq<char> {
    match status {
        Some(code) => if code == 401 {
            "Cursor 未登录或会话已过期（"@ + ctx + " HTTP 401），请在 Cursor 应用中重新登录"@
        } else {
            "Cursor "@ + ctx + " 请求失败: HTTP "@ + crate::usage_feed::dec(code as int)
        },
        None => "Cursor "@ + ctx + " 网络请求失败: "@ + detail,
    }
}

/// The message of a failed request (`status` is the HTTP status when the
/// server answered; `detail` the transport error otherwise).
pub fn http_error_message(status: Option<u16>, ctx: &str, detail: &str) -> (r: String)
    ensures
        r@ == http_error_text(status, ctx@, detail@),
{
    let mut out: Vec<char>;
    let mut c = chars_of(ctx);
    match status {
        Some(code) => {
            if code == 401 {
                out = chars_of("Cursor 未登录或会话已过期（");
                out.append(&mut c);
                let mut t = chars_of(" HTTP 401），请在 Cursor 应用中重新登录");
                out.append(&mut t);
            } else {
                out = chars_of("Cursor ");
                out.append(&mut c);
                let mut t = chars_of(" 请求失败: HTTP ");
                out.append(&mut t);
                crate::usage_feed::push_dec(&mut out, code as i64);
            }
        },
        None => {
            out = chars_of("Cursor ");
            out.append(&mut c);
            let mut t = chars_of(" 网络请求失败: ");
            out.append(&mut t);
            let mut d = chars_of(detail);
            out.append(&mut d);
        },
    }
    string_of(&out)
}

/// The quota window of a usage event kind (ASCII case ignored): included
/// usage is `auto`, on-demand or API usage is `api`.
pub open spec fn event_bucket(kind: Option<Seq<char>>) -> Option<Seq<char>> {
    match kind {
        None => None,
        Some(k) => {
            let u = upper_seq(k);
            if contains_seq(u, "INCLUDED"@) {
                Some("auto"@)
            } else if contains_seq(u, "ON_DEMAND"@) || contains_seq(u, "API"@) {
                Some("api"@)
            } else {
                None
            }
        },
    }
}

/// `char::to_ascii_uppercase`.
pub open spec fn upper(c: char) -> char {
    if 'a' <= c && c <= 'z' {
        ((c as u32) - 32) as char
    } else {
        c
    }
}

pub open spec fn upper_seq(s: Seq<char>) -> Seq<char> {
    s.map_values(|c: char| upper(c))
}

fn upper_chars(v: &Vec<char>) -> (r: Vec<char>)
    ensures
        r@ == upper_seq(v@),
{
    let mut r: Vec<char> = Vec::new();
    let mut i: usize = 0;
    while i < v.len()
        invariant
            i <= v.len(),
            r@ =~= upper_seq(v@.take(i as int)),
        decreases v.len() - i,
    {
        let c = v[i];
        let d = if 'a' <= c && c <= 'z' {
            let u: u32 = c as u32;
            let l: u8 = (u - 32) as u8;
            let r2 = l as char;
            assert(r2 == ((c as u32) - 32) as char);
            r2
        } else {
            c
        };
        r.push(d);
        i = i + 1;
        proof {
            assert(v@.take(i as int).drop_last() =~= v@.take(i - 1));
        }
    }
    assert(v@.take(v.len() as int) =~= v@);
    r
}

/// The quota window (`auto` / `api`) an event kind is charged to.
pub fn cursor_event_bucket(kind: Option<&str>) -> (r: Option<&'static str>)
    ensures
        match r {
            Some(b) => match kind {
                Some(k) => event_bucket(Some(k@)) == Some(b@),
                None => false,
            },
            None => match kind {
                Some(k) => event_bucket(Some(k@)) is None,
                None => true,
            },
        },
{
    let k = match kind {
        Some(k) => k,
        None => return None,
    };
    let u = upper_chars(&chars_of(k));
    if contains_chars(&u, &chars_of("INCLUDED")) {
        Some("auto")
    } else if contains_chars(&u, &chars_of("ON_DEMAND")) || contains_chars(&u, &chars_of("API")) {
        Some("api")
    } else {
        None
    }
}

/// The events cache rounds instants down to 10 minutes (toward zero).
pub const CACHE_ROUND_MS: i64 = 600000;

/// `ms` rounded toward zero to a multiple of ten minutes.
pub open spec fn rounded_for_cache(ms: int) -> int {
    if ms >= 0 {
        (ms / 600000) * 600000
    } else {
        -(((-ms) / 600000) * 600000)
    }
}

/// Rounds an instant to the ten-minute grid of the events cache key.
pub fn round_for_cache(ms: i64) -> (r: i64)
    ensures
        r == rounded_for_cache(ms as int),
{
    if ms >= 0 {
        (ms / CACHE_ROUND_MS) * CACHE_ROUND_MS
    } else {
        let m: i64 = -(ms + 1);
        let q: i64 = m / CACHE_ROUND_MS;
        let r0: i64 = m - q * CACHE_ROUND_MS;
        if r0 == CACHE_ROUND_MS - 1 {
            -((q + 1) * CACHE_ROUND_MS)
        } else {
            -(q * CACHE_ROUND_MS)
        }
    }
}

/// Rounding keeps the sign, never moves away from zero by more than ten
/// minutes, lands on the grid, and is idempotent.
pub proof fn lemma_round_for_cache(ms: int)
    ensures
        rounded_for_cache(ms) % 600000 == 0,
        0 <= ms ==> 0 <= rounded_for_cache(ms) <= ms && ms - rounded_for_cache(ms) < 600000,
        ms < 0 ==> ms <= rounded_for_cache(ms) <= 0 && rounded_for_cache(ms) - ms < 600000,
        rounded_for_cache(rounded_for_cache(ms)) == rounded_for_cache(ms),
{
    if ms >= 0 {
        assert((ms / 600000) * 600000 % 600000 == 0) by (nonlinear_arith);
        assert(0 <= (ms / 600000) * 600000 <= ms) by (nonlinear_arith)
            requires
                ms >= 0,
        ;
        assert(ms - (ms / 600000) * 600000 < 600000) by (nonlinear_arith)
            requires
                ms >= 0,
        ;
        let r = (ms / 600000) * 600000;
        assert((r / 600000) * 600000 == r) by (nonlinear_arith)
            requires
                r % 600000 == 0,
                r >= 0,
        ;
    } else {
        let p = -ms;
        assert((p / 600000) * 600000 % 600000 == 0) by (nonlinear_arith);
        assert(0 <= (p / 600000) * 600000 <= p) by (nonlinear_arith)
            requires
                p > 0,
        ;
        assert(p - (p / 600000) * 600000 < 600000) by (nonlinear_arith)
            requires
                p > 0,
        ;
        let r = (p / 600000) * 600000;
        assert((-r) % 600000 == 0) by (nonlinear_arith)
            requires
                r % 600000 == 0,
        ;
        assert((r / 600000) * 600000 == r) by (nonlinear_arith)
            requires
                r % 600000 == 0,
                r >= 0,
        ;
    }
}

/// One usage event as the bucketing reads it.
#[derive(Debug, Clone, Copy)]
pub struct CursorUsageEvent {
    /// Event instant (ms); missing or non-positive events are skipped.
    pub timestamp: Option<i64>,
    /// Token counts, when the event carries token usage.
    pub tokens: Option<CursorEventTokens>,
}

/// The token counts of an event (negative values count as zero).
#[derive(Debug, Clone, Copy)]
pub struct CursorEventTokens {
    pub input_tokens: Option<i64>,
    pub output_tokens: Option<i64>,
    pub cache_write_tokens: Option<i64>,
    pub cache_read_tokens: Option<i64>,
}

pub open spec fn pos(x: Option<i64>) -> int {
    match x {
        Some(v) => if v > 0 {
            v as int
        } else {
            0
        },
        None => 0,
    }
}

/// Tokens of an event: the four counts, negatives as zero.
pub open spec fn event_tokens(t: CursorEventTokens) -> int {
    pos(t.input_tokens) + pos(t.output_tokens) + pos(t.cache_write_tokens) + pos(
        t.cache_read_tokens,
    )
}

/// The first period `[reset_at, end_at)` that holds `ts`, or -1.
pub open spec fn period_of(periods: Seq<(i64, i64)>, ts: i64) -> int {
    crate::text::first_where(periods, |p: (i64, i64)| p.0 <= ts && ts < p.1)
}

/// The period an event counts in: a positive timestamp, token usage with a
/// positive total, and a period that holds it; else -1.
pub open spec fn event_period(periods: Seq<(i64, i64)>, e: CursorUsageEvent) -> int {
    match (e.timestamp, e.tokens) {
        (Some(ts), Some(t)) => if ts > 0 && event_tokens(t) > 0 {
            period_of(periods, ts)
        } else {
            -1
        },
        _ => -1,
    }
}

/// Tokens of the events that count in period `k`.
pub open spec fn bucket_tokens(periods: Seq<(i64, i64)>, events: Seq<CursorUsageEvent>, k: int) -> int
    decreases events.len(),
{
    if events.len() == 0 {
        0
    } else {
        bucket_tokens(periods, events.drop_last(), k) + if event_period(periods, events.last())
            == k {
            event_tokens(events.last().tokens->0)
        } else {
            0
        }
    }
}

/// Number of events that count in period `k`.
pub open spec fn bucket_requests(periods: Seq<(i64, i64)>, events: Seq<CursorUsageEvent>, k: int) -> int
    decreases events.len(),
{
    if events.len() == 0 {
        0
    } else {
        bucket_requests(periods, events.drop_last(), k) + if event_period(periods, events.last())
            == k {
            1int
        } else {
            0int
        }
    }
}

/// A period's totals only grow as events are added and are never negative;
/// no period counts more requests than there are events.
pub proof fn lemma_bucket_monotone(periods: Seq<(i64, i64)>, events: Seq<CursorUsageEvent>, j: int, k: int)
    requires
        0 <= j <= events.len(),
        0 <= k,
    ensures
        0 <= bucket_tokens(periods, events.take(j), k) <= bucket_tokens(periods, events, k),
        0 <= bucket_requests(periods, events.take(j), k) <= bucket_requests(periods, events, k),
        bucket_requests(periods, events, k) <= events.len(),
    decreases events.len(),
{
    if events.len() > 0 {
        if j == events.len() {
            assert(events.take(j) =~= events);
            lemma_bucket_monotone(periods, events.drop_last(), j - 1, k);
        } else {
            lemma_bucket_monotone(periods, events.drop_last(), j, k);
            assert(events.drop_last().take(j) =~= events.take(j));
        }
        if event_period(periods, events.last()) == k {
            lemma_event_tokens_positive(periods, events.last());
        }
    }
}

proof fn lemma_event_tokens_positive(periods: Seq<(i64, i64)>, e: CursorUsageEvent)
    requires
        event_period(periods, e) >= 0,
    ensures
        e.tokens is Some,
        event_tokens(e.tokens->0) > 0,
{
}

/// One more event moves the period totals by exactly what it carries: an
/// event with a positive instant `ts` and token counts whose four counts
/// (negatives as zero) sum to something positive, where `k` is the first
/// period `[reset_at, end_at)` holding `ts`, adds that whole sum (input,
/// output, cache write and cache read tokens) to period `k` and one request;
/// every other period is unchanged.
pub proof fn lemma_bucket_adds_event(
    periods: Seq<(i64, i64)>,
    events: Seq<CursorUsageEvent>,
    e: CursorUsageEvent,
    ts: i64,
    t: CursorEventTokens,
    k: int,
    j: int,
)
    requires
        e.timestamp == Some(ts),
        e.tokens == Some(t),
        ts > 0,
        pos(t.input_tokens) + pos(t.output_tokens) + pos(t.cache_write_tokens) + pos(
            t.cache_read_tokens,
        ) > 0,
        0 <= k < periods.len(),
        periods[k].0 <= ts < periods[k].1,
        forall|m: int| 0 <= m < k ==> !(periods[m].0 <= ts && ts < periods[m].1),
        j != k,
    ensures
        bucket_tokens(periods, events.push(e), k) == bucket_tokens(periods, events, k) + pos(
            t.input_tokens,
        ) + pos(t.output_tokens) + pos(t.cache_write_tokens) + pos(t.cache_read_tokens),
        bucket_requests(periods, events.push(e), k) == bucket_requests(periods, events, k) + 1,
        bucket_tokens(periods, events.push(e), j) == bucket_tokens(periods, events, j),
        bucket_requests(periods, events.push(e), j) == bucket_requests(periods, events, j),
{
    let pred = |p: (i64, i64)| p.0 <= ts && ts < p.1;
    assert forall|m: int| 0 <= m < k implies !pred(#[trigger] periods[m]) by {}
    crate::text::lemma_first_where_is(periods, pred, k);
    assert(events.push(e).drop_last() =~= events);
    assert(events.push(e).last() == e);
}

/// An event that counts nowhere (no positive instant, no token counts, a
/// zero token sum, or no period holding its instant) changes no period.
pub proof fn lemma_bucket_skips_event(
    periods: Seq<(i64, i64)>,
    events: Seq<CursorUsageEvent>,
    e: CursorUsageEvent,
    j: int,
)
    requires
        match (e.timestamp, e.tokens) {
            (Some(ts), Some(t)) => ts <= 0 || pos(t.input_tokens) + pos(t.output_tokens) + pos(
                t.cache_write_tokens,
            ) + pos(t.cache_read_tokens) == 0 || forall|m: int|
                0 <= m < periods.len() ==> !(periods[m].0 <= ts && ts < periods[m].1),
            _ => true,
        },
        0 <= j,
    ensures
        bucket_tokens(periods, events.push(e), j) == bucket_tokens(periods, events, j),
        bucket_requests(periods, events.push(e), j) == bucket_requests(periods, events, j),
        bucket_tokens(periods, Seq::empty(), j) == 0,
        bucket_requests(periods, Seq::empty(), j) == 0,
{
    if let (Some(ts), Some(t)) = (e.timestamp, e.tokens) {
        if ts > 0 && event_tokens(t) > 0 {
            let pred = |p: (i64, i64)| p.0 <= ts && ts < p.1;
            assert forall|m: int| 0 <= m < periods.len() implies !pred(#[trigger] periods[m]) by {}
            crate::text::lemma_first_where_is(periods, pred, -1);
        }
    }
    assert(events.push(e).drop_last() =~= events);
    assert(events.push(e).last() == e);
}

/// Every period's token total fits in `i64` (the totals never overflow).
pub open spec fn buckets_fit(periods: Seq<(i64, i64)>, events: Seq<CursorUsageEvent>) -> bool {
    forall|k: int| 0 <= k < periods.len() ==> #[trigger] bucket_tokens(periods, events, k) <= i64::MAX
}

/// Every event's own token total fits in `i64`.
pub open spec fn events_fit(events: Seq<CursorUsageEvent>) -> bool {
    forall|i: int|
        0 <= i < events.len() && (#[trigger] events[i]).tokens is Some ==> event_tokens(
            events[i].tokens->0,
        ) <= i64::MAX
}

fn pos_exec(x: Option<i64>) -> (r: i64)
    ensures
        r == pos(x),
{
    match x {
        Some(v) => if v > 0 {
            v
        } else {
            0
        },
        None => 0,
    }
}

/// Token and request totals of the given periods `[reset_at, end_at)`: each
/// event with a positive timestamp and a positive token total counts once,
/// in the first period that holds it.
pub fn fetch_cursor_period_buckets(periods: &[(i64, i64)], events: &[CursorUsageEvent]) -> (r: Vec<
    PeriodBucket,
>)
    requires
        events_fit(events@),
        buckets_fit(periods@, events@),
        events.len() <= i64::MAX,
    ensures
        r.len() == periods.len(),
        forall|k: int|
            0 <= k < periods.len() ==> (#[trigger] r@[k]).reset_at == periods@[k].0 && r@[k].end_at
                == periods@[k].1 && r@[k].total_tokens == bucket_tokens(periods@, events@, k)
                && r@[k].requests == bucket_requests(periods@, events@, k),
{
    let mut buckets: Vec<PeriodBucket> = Vec::new();
    let mut k: usize = 0;
    while k < periods.len()
        invariant
            k <= periods.len(),
            buckets.len() == k,
            forall|x: int|
                0 <= x < k ==> (#[trigger] buckets@[x]).reset_at == periods@[x].0 && buckets@[x].end_at
                    == periods@[x].1 && buckets@[x].total_tokens == 0 && buckets@[x].requests == 0,
        decreases periods.len() - k,
    {
        let (reset_at, end_at) = periods[k];
        buckets.push(PeriodBucket { reset_at, end_at, total_tokens: 0, requests: 0 });
        k = k + 1;
    }
    let mut i: usize = 0;
    assert(events@.take(0) =~= Seq::<CursorUsageEvent>::empty());
    while i < events.len()
        invariant
            i <= events.len(),
            buckets.len() == periods.len(),
            events_fit(events@),
            buckets_fit(periods@, events@),
            events.len() <= i64::MAX,
            forall|x: int|
                0 <= x < periods.len() ==> (#[trigger] buckets@[x]).reset_at == periods@[x].0
                    && buckets@[x].end_at == periods@[x].1 && buckets@[x].total_tokens
                    == bucket_tokens(periods@, events@.take(i as int), x) && buckets@[x].requests
                    == bucket_requests(periods@, events@.take(i as int), x),
        decreases events.len() - i,
    {
        let ghost pre = events@.take(i as int);
        let ghost post = events@.take(i + 1);
        assert(post.drop_last() =~= pre);
        assert(post.last() == events@[i as int]);
        let e = events[i];
        let ghost target = event_period(periods@, e);
        let mut hit: Option<(usize, i64)> = None;
        match (e.timestamp, e.tokens) {
            (Some(ts), Some(t)) => {
                if ts > 0 {
                    assert(events@[i as int].tokens is Some);
                    let tokens = pos_exec(t.input_tokens) + pos_exec(t.output_tokens) + pos_exec(
                        t.cache_write_tokens,
                    ) + pos_exec(t.cache_read_tokens);
                    if tokens > 0 {
                        let ghost pred = |p: (i64, i64)| p.0 <= ts && ts < p.1;
                        let mut k: usize = 0;
                        while k < periods.len() && !(periods[k].0 <= ts && ts < periods[k].1)
                            invariant
                                k <= periods.len(),
                                pred == (|p: (i64, i64)| p.0 <= ts && ts < p.1),
                                forall|m: int| 0 <= m < k ==> !pred(#[trigger] periods@[m]),
                            decreases periods.len() - k,
                        {
                            k = k + 1;
                        }
                        if k < periods.len() {
                            proof {
                                crate::text::lemma_first_where_is(periods@, pred, k as int);
                            }
                            hit = Some((k, tokens));
                        } else {
                            proof {
                                crate::text::lemma_first_where_is(periods@, pred, -1);
                            }
                        }
                    }
                }
            },
            _ => {},
        }
        match hit {
            Some((k, tokens)) => {
                proof {
                    lemma_bucket_monotone(periods@, events@, i + 1, k as int);
                }
                let b = buckets[k];
                buckets.set(
                    k,
                    PeriodBucket {
                        reset_at: b.reset_at,
                        end_at: b.end_at,
                        total_tokens: b.total_tokens + tokens,
                        requests: b.requests + 1,
                    },
                );
            },
            None => {},
        }
        i = i + 1;
    }
    assert(events@.take(events.len() as int) =~= events@);
    buckets
}

/// The on-demand (usage-based) part of the Cursor plan, in cents.
pub struct CursorOnDemandInfo {
    pub enabled: Option<bool>,
    pub used_cents: Option<i64>,
    pub limit_cents: Option<i64>,
    pub remaining_cents: Option<i64>,
}

/// A failed manual-credential query: `expired` or `error`, and the reason
/// (never the cookie).
pub struct ManualQuotaFailure {
    pub status: &'static str,
    pub message: String,
}

impl ManualQuotaFailure {
    /// An `error` failure with this reason.
    pub fn error(message: String) -> (r: ManualQuotaFailure)
        ensures
            r.status@ == "error"@,
            r.message == message,
    {
        ManualQuotaFailure { status: "error", message }
    }

    /// The failure of a manual usage-summary request: 401/403 is an expired
    /// session, another status or a transport failure an error.
    pub fn from_http(status: Option<u16>, detail: &str) -> (r: ManualQuotaFailure)
        ensures
            match status {
                Some(code) => if code == 401 || code == 403 {
                    r.status@ == "expired"@ && r.message@ == MANUAL_COOKIE_EXPIRED_MSG@
                } else {
                    r.status@ == "error"@ && r.message@ == "Cursor 额度查询失败（HTTP "@
                        + crate::usage_feed::dec(code as int) + "）"@
                },
                None => r.status@ == "error"@ && r.message@ == "Cursor 网络请求失败: "@ + detail@,
            },
    {
        match status {
            Some(code) => {
                if code == 401 || code == 403 {
                    ManualQuotaFailure::expired()
                } else {
                    let mut out = chars_of("Cursor 额度查询失败（HTTP ");
                    crate::usage_feed::push_dec(&mut out, code as i64);
                    let mut t = chars_of("）");
                    out.append(&mut t);
                    ManualQuotaFailure::error(string_of(&out))
                }
            },
            None => {
                let mut out = chars_of("Cursor 网络请求失败: ");
                let mut d = chars_of(detail);
                out.append(&mut d);
                ManualQuotaFailure::error(string_of(&out))
            },
        }
    }

    /// The expired-session failure with its guidance text.
    pub fn expired() -> (r: ManualQuotaFailure)
        ensures
            r.status@ == "expired"@,
            r.message@ == MANUAL_COOKIE_EXPIRED_MSG@,
    {
        ManualQuotaFailure { status: "expired", message: MANUAL_COOKIE_EXPIRED_MSG.to_owned() }
    }
}

} // verus!
