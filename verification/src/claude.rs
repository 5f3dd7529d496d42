//! Anthropic coding-agent usage: the decisions and texts of the session import and of
//! the live quota queries that do not need the disk or the network.
use crate::text::{
    chars_eq, chars_of, contains_chars, contains_seq, copy_range, lower_chars, lower_seq,
    matches_at, parse_i64_range, parse_i64_spec, starts_with, string_of, trim, trim_range,
};
use crate::throttle::{due_after, import_due, ImportThrottle, BACKFILL_THROTTLE_MS};
use crate::usage_feed::{dec, push_dec};
use vstd::prelude::*;

verus! {

// ------------------------------------------------------------------
// Sessions directory and import throttle
// ------------------------------------------------------------------

/// The error text when the projects directory is missing.
pub open spec fn missing_projects_dir_message(path: Seq<char>) -> Seq<char> {
    "未找到 Anthropic 会话目录: "@ + path
        + "。请确认 Anthropic 编程助手 CLI 已安装并使用过，或设置 ZBAR_CLAUDE_HOME 环境变量指向其配置根目录。"@
}

/// The projects directory when it exists, else a friendly error naming it.
pub fn projects_dir(path: &str, is_dir: bool) -> (r: Result<String, String>)
    ensures
        is_dir ==> r is Ok && r->Ok_0@ == path@,
        !is_dir ==> r is Err && r->Err_0@ == missing_projects_dir_message(path@),
{
    if is_dir {
        Ok(path.to_owned())
    } else {
        let mut out: Vec<char> = chars_of("未找到 Anthropic 会话目录: ");
        let p = chars_of(path);
        let tail = chars_of(
            "。请确认 Anthropic 编程助手 CLI 已安装并使用过，或设置 ZBAR_CLAUDE_HOME 环境变量指向其配置根目录。",
        );
        let ghost head = out@;
        out.append(&mut p.clone());
        out.append(&mut tail.clone());
        assert(out@ =~= missing_projects_dir_message(path@));
        Err(string_of(&out))
    }
}

/// Throttled import: whether the forced import runs now (at most one start
/// every five seconds, failures included).
pub fn import_incremental(gate: &mut ImportThrottle, now_ms: u64) -> (run: bool)
    ensures
        run == import_due(old(gate).last_import_ms, now_ms),
        final(gate).last_import_ms == if run {
            Some(now_ms)
        } else {
            old(gate).last_import_ms
        },
{
    gate.check(now_ms)
}

/// Throttled project backfill: whether it runs now (at most one start every
/// thirty seconds).
pub fn backfill_due(gate: &mut ImportThrottle, now_ms: u64) -> (run: bool)
    ensures
        run == due_after(old(gate).last_import_ms, now_ms, BACKFILL_THROTTLE_MS),
        final(gate).last_import_ms == if run {
            Some(now_ms)
        } else {
            old(gate).last_import_ms
        },
{
    gate.check_every(now_ms, BACKFILL_THROTTLE_MS)
}

/// Token total of one usage record: input + output + cache read + cache
/// creation.
pub fn computed_total(
    input_tokens: i64,
    output_tokens: i64,
    cache_read_input_tokens: i64,
    cache_creation_input_tokens: i64,
) -> (r: i64)
    requires
        i64::MIN <= input_tokens + output_tokens <= i64::MAX,
        i64::MIN <= input_tokens + output_tokens + cache_read_input_tokens <= i64::MAX,
        i64::MIN <= input_tokens + output_tokens + cache_read_input_tokens
            + cache_creation_input_tokens <= i64::MAX,
    ensures
        r == input_tokens + output_tokens + cache_read_input_tokens + cache_creation_input_tokens,
{
    input_tokens + output_tokens + cache_read_input_tokens + cache_creation_input_tokens
}

/// Diagnostics of the Anthropic session import ("no data" investigations).
pub struct ClaudeDebugInfo {
    pub projects_dir: String,
    pub projects_dir_exists: bool,
    pub session_files: usize,
    pub imported_records: i64,
    pub latest_session_ms: Option<i64>,
}

// ------------------------------------------------------------------
// Live quota failures
// ------------------------------------------------------------------

/// Why a live quota query failed.
#[derive(Debug)]
pub enum ClaudeUsageFailure {
    /// No Anthropic OAuth entry in the credentials.
    MissingOAuth(String),
    /// The OAuth token was refused (HTTP 401/403).
    TokenRejected,
    /// Network, service or parse failure (logged, not shown).
    Other(String),
}

pub open spec fn missing_oauth_message() -> Seq<char> {
    "未找到 Anthropic OAuth 凭证，请在终端运行一次编程助手 CLI 完成登录授权"@
}

pub open spec fn token_rejected_message() -> Seq<char> {
    "OAuth Token 已失效，请在终端重新运行编程助手 CLI 授权"@
}

/// The full message of a failure.
pub open spec fn failure_text(f: ClaudeUsageFailure) -> Seq<char> {
    match f {
        ClaudeUsageFailure::MissingOAuth(m) => m@,
        ClaudeUsageFailure::TokenRejected => token_rejected_message(),
        ClaudeUsageFailure::Other(e) => e@,
    }
}

impl ClaudeUsageFailure {
    /// The failure with the standard missing-OAuth message.
    pub fn missing_oauth() -> (r: ClaudeUsageFailure)
        ensures
            r is MissingOAuth && failure_text(r) == missing_oauth_message(),
    {
        ClaudeUsageFailure::MissingOAuth(
            "未找到 Anthropic OAuth 凭证，请在终端运行一次编程助手 CLI 完成登录授权".to_owned(),
        )
    }

    /// Full message (logs, diagnostics).
    pub fn message(&self) -> (r: String)
        ensures
            r@ == failure_text(*self),
    {
        match self {
            ClaudeUsageFailure::MissingOAuth(m) => m.clone(),
            ClaudeUsageFailure::TokenRejected => "OAuth Token 已失效，请在终端重新运行编程助手 CLI 授权".to_owned(),
            ClaudeUsageFailure::Other(e) => e.clone(),
        }
    }

    /// The message shown to the user: only authorisation failures have one
    /// (the user can fix them); network failures stay silent.
    pub fn user_message(&self) -> (r: Option<String>)
        ensures
            (*self is Other) ==> r is None,
            !(*self is Other) ==> r is Some && r->0@ == failure_text(*self),
    {
        match self {
            ClaudeUsageFailure::Other(_) => None,
            _ => Some(self.message()),
        }
    }
}

/// Badge name of a subscription tier: tiers with a `20x`/`5x` multiplier
/// become "Max 20x"/"Max 5x" (ASCII case ignored); others stay as they are.
pub open spec fn plan_display(label: Seq<char>) -> Seq<char> {
    if contains_seq(lower_seq(label), "20x"@) {
        "Max 20x"@
    } else if contains_seq(lower_seq(label), "5x"@) {
        "Max 5x"@
    } else {
        label
    }
}

/// Badge name of a subscription tier.
pub fn plan_display_name(label: &str) -> (r: String)
    ensures
        r@ == plan_display(label@),
{
    let lower = lower_chars(&chars_of(label));
    if contains_chars(&lower, &chars_of("20x")) {
        "Max 20x".to_owned()
    } else if contains_chars(&lower, &chars_of("5x")) {
        "Max 5x".to_owned()
    } else {
        label.to_owned()
    }
}

// ------------------------------------------------------------------
// OAuth credentials
// ------------------------------------------------------------------

/// The OAuth login read from the credentials file: the access token and the
/// plan badge.
#[derive(Debug)]
pub struct ClaudeAuth {
    pub access_token: String,
    pub plan_label: Option<String>,
}

/// What the credentials JSON holds for the login: whether the OAuth entry
/// is there, and its `accessToken`, `rateLimitTier` and `subscriptionType`
/// string fields; or the parser's error text.
pub uninterp spec fn credential_json(data: Seq<char>) -> Result<
    (bool, Option<Seq<char>>, Option<Seq<char>>, Option<Seq<char>>),
    Seq<char>,
>;

pub open spec fn opt_str_view(x: Option<String>) -> Option<Seq<char>> {
    match x {
        Some(s) => Some(s@),
        None => None,
    }
}

pub open spec fn fields_view(
    r: Result<(bool, Option<String>, Option<String>, Option<String>), String>,
) -> Result<(bool, Option<Seq<char>>, Option<Seq<char>>, Option<Seq<char>>), Seq<char>> {
    match r {
        Ok((present, tok, tier, sub)) => Ok(
            (present, opt_str_view(tok), opt_str_view(tier), opt_str_view(sub)),
        ),
        Err(e) => Err(e@),
    }
}

/// Trusted: calls `serde_json::from_str` into a `Value`, and reads whether it
/// has the `claudeAiOauth` key and that entry's string fields `accessToken`,
/// `rateLimitTier` and `subscriptionType`; the error is the parser's
/// message. The contract names the result, a function of the text.
#[verifier::external_body]
fn credential_fields(data: &str) -> (r: Result<(bool, Option<String>, Option<String>, Option<String>), String>)
    ensures
        fields_view(r) == credential_json(data@),
{
    serde_json::from_str::<serde_json::Value>(data)
        .map(|v| {
            let o = v.get("claudeAiOauth");
            let s = |k: &str| o.and_then(|x| x.get(k)).and_then(|x| x.as_str()).map(|x| x.to_owned());
            (o.is_some(), s("accessToken"), s("rateLimitTier"), s("subscriptionType"))
        })
        .map_err(|e| e.to_string())
}

/// `x` trimmed, unless absent or blank.
pub open spec fn nonblank(x: Option<Seq<char>>) -> Option<Seq<char>> {
    match x {
        Some(t) => if trim(t).len() > 0 {
            Some(trim(t))
        } else {
            None
        },
        None => None,
    }
}

/// Whether a tier names a multiplier (`5x`, `20x`; ASCII case ignored).
pub open spec fn has_multiplier(tier: Seq<char>) -> bool {
    contains_seq(lower_seq(tier), "5x"@) || contains_seq(lower_seq(tier), "20x"@)
}

/// The plan badge: a tier with a multiplier as its badge name, else the
/// subscription type, else the tier (blank values count as absent).
pub open spec fn plan_label_of(tier: Option<Seq<char>>, sub_type: Option<Seq<char>>) -> Option<
    Seq<char>,
> {
    match nonblank(tier) {
        Some(t) => if has_multiplier(t) {
            Some(plan_display(t))
        } else {
            match nonblank(sub_type) {
                Some(st) => Some(st),
                None => Some(t),
            }
        },
        None => nonblank(sub_type),
    }
}

/// The error text of unparsable credentials.
pub open spec fn credentials_parse_message(e: Seq<char>) -> Seq<char> {
    "解析 Anthropic 凭据失败: "@ + e
}

fn nonblank_exec(x: &Option<String>) -> (r: Option<String>)
    ensures
        opt_str_view(r) == nonblank(opt_str_view(*x)),
{
    match x {
        Some(t) => {
            let c = chars_of(t.as_str());
            let (a, b) = trim_range(&c, 0, c.len());
            assert(c@.subrange(0, c.len() as int) =~= c@);
            if a < b {
                Some(string_of(&copy_range(&c, a, b)))
            } else {
                None
            }
        },
        None => None,
    }
}

/// The login from the fields read out of the credentials JSON (see
/// `credential_json`): a parse failure is `Other`, a missing OAuth entry or
/// a blank access token `MissingOAuth`.
pub fn credentials_from_fields(
    fields: Result<(bool, Option<String>, Option<String>, Option<String>), String>,
) -> (r: Result<ClaudeAuth, ClaudeUsageFailure>)
    ensures
        match fields_view(fields) {
            Err(e) => r is Err && r->Err_0 is Other && failure_text(r->Err_0)
                == credentials_parse_message(e),
            Ok((present, tok, tier, sub)) => if !present || nonblank(tok) is None {
                r is Err && r->Err_0 is MissingOAuth && failure_text(r->Err_0)
                    == missing_oauth_message()
            } else {
                r is Ok && r->Ok_0.access_token@ == nonblank(tok)->0 && opt_str_view(
                    r->Ok_0.plan_label,
                ) == plan_label_of(tier, sub)
            },
        },
{
    match fields {
        Err(e) => {
            let mut out = chars_of("解析 Anthropic 凭据失败: ");
            let mut ec = chars_of(e.as_str());
            out.append(&mut ec);
            Err(ClaudeUsageFailure::Other(string_of(&out)))
        },
        Ok((present, tok, tier, sub)) => {
            let token = nonblank_exec(&tok);
            if !present || token.is_none() {
                return Err(ClaudeUsageFailure::missing_oauth());
            }
            let token = token.unwrap();
            let t = nonblank_exec(&tier);
            let st = nonblank_exec(&sub);
            let plan_label = match t {
                Some(tv) => {
                    let lower = lower_chars(&chars_of(tv.as_str()));
                    if contains_chars(&lower, &chars_of("5x")) || contains_chars(
                        &lower,
                        &chars_of("20x"),
                    ) {
                        Some(plan_display_name(tv.as_str()))
                    } else {
                        match st {
                            Some(x) => Some(x),
                            None => Some(tv),
                        }
                    }
                },
                None => st,
            };
            Ok(ClaudeAuth { access_token: token, plan_label })
        },
    }
}

/// The login stored in a credentials JSON text.
pub fn parse_credentials_json(data: &str) -> (r: Result<ClaudeAuth, ClaudeUsageFailure>)
    ensures
        match credential_json(data@) {
            Err(e) => r is Err && r->Err_0 is Other && failure_text(r->Err_0)
                == credentials_parse_message(e),
            Ok((present, tok, tier, sub)) => if !present || nonblank(tok) is None {
                r is Err && r->Err_0 is MissingOAuth && failure_text(r->Err_0)
                    == missing_oauth_message()
            } else {
                r is Ok && r->Ok_0.access_token@ == nonblank(tok)->0 && opt_str_view(
                    r->Ok_0.plan_label,
                ) == plan_label_of(tier, sub)
            },
        },
{
    credentials_from_fields(credential_fields(data))
}

/// The expired-token text of a manual token entry.
pub open spec fn manual_token_expired_message() -> Seq<char> {
    "Token 已失效，请重新获取并更新 sk-ant-oat 凭证"@
}

/// Status and message of a manual token query that cannot give windows,
/// or `None` for an HTTP 200 reply, whose body is parsed next: a refused
/// token (error or HTTP 401/403) is `expired`, anything else `error`.
pub open spec fn manual_failure(raw: Result<(u16, Option<String>), ClaudeUsageFailure>) -> Option<
    (Seq<char>, Seq<char>),
> {
    match raw {
        Err(ClaudeUsageFailure::TokenRejected) => Some(("expired"@, manual_token_expired_message())),
        Err(ClaudeUsageFailure::MissingOAuth(m)) => Some(("error"@, m@)),
        Err(ClaudeUsageFailure::Other(e)) => Some(("error"@, "Anthropic 额度"@ + e@)),
        Ok((status, _)) => if status == 401 || status == 403 {
            Some(("expired"@, manual_token_expired_message()))
        } else if status != 200 {
            Some(("error"@, "Anthropic 额度查询失败（HTTP "@ + dec(status as int) + "）"@))
        } else {
            None
        },
    }
}

/// The status of a classified failure (empty for none).
pub open spec fn failure_status(x: Option<(Seq<char>, Seq<char>)>) -> Seq<char> {
    match x {
        Some((st, _)) => st,
        None => Seq::empty(),
    }
}

/// A token the service refuses is expired, however the refusal arrives:
/// the fetch's rejected-token failure gets the same status and message as
/// an HTTP 401 or 403 reply with any body, and that status is `expired`;
/// other failures and other non-200 statuses are errors, and only an HTTP
/// 200 reply goes on to be parsed.
pub proof fn lemma_refused_token_is_expired(body: Option<String>, status: u16, m: String)
    ensures
        manual_failure(Err(ClaudeUsageFailure::TokenRejected)) == manual_failure(Ok((401u16, body))),
        manual_failure(Err(ClaudeUsageFailure::TokenRejected)) == manual_failure(Ok((403u16, body))),
        manual_failure(Err(ClaudeUsageFailure::TokenRejected)) is Some,
        failure_status(manual_failure(Err(ClaudeUsageFailure::TokenRejected))) == "expired"@,
        manual_failure(Err(ClaudeUsageFailure::MissingOAuth(m))) is Some,
        failure_status(manual_failure(Err(ClaudeUsageFailure::MissingOAuth(m)))) == "error"@,
        manual_failure(Err(ClaudeUsageFailure::Other(m))) is Some,
        failure_status(manual_failure(Err(ClaudeUsageFailure::Other(m)))) == "error"@,
        status != 200 && status != 401 && status != 403 ==> manual_failure(Ok((status, body))) is Some
            && failure_status(manual_failure(Ok((status, body)))) == "error"@,
        manual_failure(Ok((200u16, body))) is None,
{
}

/// The messages of the failed manual queries: a missing OAuth entry keeps
/// its own text, another failure is its text after the service's name, a
/// non-200 status names the status, and a refused token asks for a new one.
pub proof fn lemma_manual_failure_messages(m: String, status: u16, body: Option<String>)
    ensures
        manual_failure(Err(ClaudeUsageFailure::MissingOAuth(m))) == Some(("error"@, m@)),
        manual_failure(Err(ClaudeUsageFailure::Other(m))) == Some(("error"@, "Anthropic 额度"@ + m@)),
        manual_failure(Err(ClaudeUsageFailure::TokenRejected)) == Some(
            ("expired"@, "Token 已失效，请重新获取并更新 sk-ant-oat 凭证"@),
        ),
        status != 200 && status != 401 && status != 403 ==> manual_failure(Ok((status, body))) == Some(
            ("error"@, "Anthropic 额度查询失败（HTTP "@ + dec(status as int) + "）"@),
        ),
{
}

/// Classifies the raw result of a manual token query (see `manual_failure`).
pub fn manual_entry_failure(raw: &Result<(u16, Option<String>), ClaudeUsageFailure>) -> (r: Option<
    (String, String),
>)
    ensures
        match r {
            Some((s, m)) => manual_failure(*raw) == Some((s@, m@)),
            None => manual_failure(*raw) is None,
        },
{
    match raw {
        Err(ClaudeUsageFailure::TokenRejected) => Some(
            ("expired".to_owned(), "Token 已失效，请重新获取并更新 sk-ant-oat 凭证".to_owned()),
        ),
        Err(ClaudeUsageFailure::MissingOAuth(m)) => Some(("error".to_owned(), m.clone())),
        Err(ClaudeUsageFailure::Other(e)) => {
            let mut out = chars_of("Anthropic 额度");
            let mut ev = chars_of(e.as_str());
            out.append(&mut ev);
            Some(("error".to_owned(), string_of(&out)))
        },
        Ok((status, _)) => {
            if *status == 401 || *status == 403 {
                Some(
                    (
                        "expired".to_owned(),
                        "Token 已失效，请重新获取并更新 sk-ant-oat 凭证".to_owned(),
                    ),
                )
            } else if *status != 200 {
                let mut out = chars_of("Anthropic 额度查询失败（HTTP ");
                push_dec(&mut out, *status as i64);
                let mut tail = chars_of("）");
                out.append(&mut tail);
                Some(("error".to_owned(), string_of(&out)))
            } else {
                None
            }
        },
    }
}

// ------------------------------------------------------------------
// Per-line decisions of the session import
// ------------------------------------------------------------------

/// A message id is a global key when it is non-empty and has no `|`.
pub open spec fn usable_id(id: Seq<char>) -> bool {
    id.len() > 0 && !id.contains('|')
}

/// Deduplication key of a usage line: its message id (global, so a forked
/// session's copied history is not counted twice), else
/// `<session>|<line number>` (per session).
pub open spec fn dedupe_key_of(message_id: Option<Seq<char>>, session_id: Seq<char>, line_seq: int) -> Seq<
    char,
> {
    match message_id {
        Some(id) => if usable_id(id) {
            id
        } else {
            session_id + "|"@ + crate::usage_feed::dec(line_seq)
        },
        None => session_id + "|"@ + crate::usage_feed::dec(line_seq),
    }
}

/// The deduplication key of a usage line.
pub fn dedupe_key(message_id: Option<&str>, session_id: &str, line_seq: i64) -> (r: String)
    ensures
        r@ == dedupe_key_of(
            match message_id {
                Some(m) => Some(m@),
                None => None,
            },
            session_id@,
            line_seq as int,
        ),
{
    match message_id {
        Some(id) => {
            let c = chars_of(id);
            let bar = crate::text::find_char(&c, 0, c.len(), '|');
            proof {
                assert(c@.subrange(0, c.len() as int) =~= c@);
                crate::text::lemma_first_index_of_spec(c@, '|');
                if let Some(j) = bar {
                    assert(c@[j as int] == '|');
                    assert(c@.contains('|'));
                } else {
                    assert(!c@.contains('|'));
                }
            }
            if c.len() > 0 && bar.is_none() {
                return id.to_owned();
            }
        },
        None => {},
    }
    let mut out = chars_of(session_id);
    out.push('|');
    crate::usage_feed::push_dec(&mut out, line_seq);
    proof {
        reveal_strlit("|");
        assert(out@ =~= session_id@ + "|"@ + crate::usage_feed::dec(line_seq as int));
    }
    string_of(&out)
}

/// The number after `<session>|` of a key, when it parses.
pub open spec fn key_seq(key: Seq<char>, prefix: Seq<char>) -> Option<i64> {
    if starts_with(key, prefix) {
        parse_i64_spec(key.skip(prefix.len() as int))
    } else {
        None
    }
}

/// Largest line number among keys of the session, or 0.
pub open spec fn max_key_seq(keys: Seq<String>, prefix: Seq<char>) -> Option<i64>
    decreases keys.len(),
{
    if keys.len() == 0 {
        None
    } else {
        let prev = max_key_seq(keys.drop_last(), prefix);
        match key_seq(keys.last()@, prefix) {
            Some(n) => match prev {
                Some(m) => Some(if n > m {
                    n
                } else {
                    m
                }),
                None => Some(n),
            },
            None => prev,
        }
    }
}

/// Where line numbering resumes when reading a session on: the largest
/// number already used by keys `<session>|<n>`, or 0.
pub fn resume_line_seq(keys: &[String], session_id: &str) -> (r: i64)
    ensures
        r == match max_key_seq(keys@, session_id@ + "|"@) {
            Some(m) => m,
            None => 0,
        },
{
    let mut prefix = chars_of(session_id);
    prefix.push('|');
    assert(prefix@ =~= session_id@ + "|"@) by {
        reveal_strlit("|");
    }
    let mut best: Option<i64> = None;
    let mut i: usize = 0;
    while i < keys.len()
        invariant
            i <= keys.len(),
            prefix@ == session_id@ + "|"@,
            best == max_key_seq(keys@.take(i as int), prefix@),
        decreases keys.len() - i,
    {
        assert(keys@.take(i + 1).drop_last() =~= keys@.take(i as int));
        let k = chars_of(keys[i].as_str());
        let parsed = if matches_at(&k, 0, &prefix) {
            assert(k@.skip(prefix.len() as int) =~= k@.subrange(prefix.len() as int, k.len() as int));
            parse_i64_range(&k, prefix.len(), k.len())
        } else {
            None
        };
        match parsed {
            Some(n) => {
                best = match best {
                    Some(m) => Some(if n > m {
                        n
                    } else {
                        m
                    }),
                    None => Some(n),
                };
            },
            None => {},
        }
        i = i + 1;
    }
    assert(keys@.take(keys.len() as int) =~= keys@);
    match best {
        Some(m) => m,
        None => 0,
    }
}

/// A usage line counts only with a real model name (placeholder lines are
/// named `<synthetic>`).
pub open spec fn model_usable(model: Option<Seq<char>>) -> bool {
    match model {
        Some(m) => m.len() > 0 && m != "<synthetic>"@,
        None => false,
    }
}

/// Whether a line's model name makes it a usage record.
pub fn usable_model(model: Option<&str>) -> (b: bool)
    ensures
        b == model_usable(
            match model {
                Some(m) => Some(m@),
                None => None,
            },
        ),
{
    match model {
        Some(m) => {
            let c = chars_of(m);
            c.len() > 0 && !chars_eq(&c, &chars_of("<synthetic>"))
        },
        None => false,
    }
}

pub open spec fn opt_seq(x: Option<&str>) -> Option<Seq<char>> {
    match x {
        Some(m) => Some(m@),
        None => None,
    }
}

pub open spec fn fits_i64(x: int) -> bool {
    i64::MIN <= x <= i64::MAX
}

/// Whether the import keeps a transcript line as a usage record, from what
/// it read of the line: an assistant line with a real model name, whose four
/// token counts add up within `i64` to a positive total, with a readable
/// timestamp, while the line counter can still advance.
pub open spec fn line_kept(
    line_type: Option<Seq<char>>,
    model: Option<Seq<char>>,
    counts: Option<(i64, i64, i64, i64)>,
    started_at: Option<i64>,
    line_seq: i64,
) -> bool {
    &&& line_type == Some("assistant"@)
    &&& model_usable(model)
    &&& match counts {
        Some((a, b, c, d)) => fits_i64(a + b) && fits_i64(a + b + c) && fits_i64(a + b + c + d)
            && a + b + c + d > 0,
        None => false,
    }
    &&& started_at is Some
    &&& line_seq < i64::MAX
}

/// Whether a transcript line becomes a usage record.
pub fn keep_usage_line(
    line_type: Option<&str>,
    model: Option<&str>,
    counts: Option<(i64, i64, i64, i64)>,
    started_at: Option<i64>,
    line_seq: i64,
) -> (b: bool)
    ensures
        b == line_kept(opt_seq(line_type), opt_seq(model), counts, started_at, line_seq),
{
    let is_assistant = match line_type {
        Some(t) => {
            proof {
                reveal_strlit("assistant");
            }
            chars_eq(&chars_of(t), &chars_of("assistant"))
        },
        None => false,
    };
    if !is_assistant || !usable_model(model) || started_at.is_none() || line_seq == i64::MAX {
        return false;
    }
    match counts {
        Some((a, b, c, d)) => match a.checked_add(b) {
            Some(ab) => match ab.checked_add(c) {
                Some(abc) => match abc.checked_add(d) {
                    Some(total) => total > 0,
                    None => false,
                },
                None => false,
            },
            None => false,
        },
        None => false,
    }
}

/// The working directory a line carries, trimmed, unless blank.
pub open spec fn line_cwd(cwd: Option<Seq<char>>) -> Option<Seq<char>> {
    match cwd {
        Some(c) => if trim(c).len() > 0 {
            Some(trim(c))
        } else {
            None
        },
        None => None,
    }
}

/// The trimmed working directory of a line, if any.
pub fn cwd_of_line(cwd: Option<&str>) -> (r: Option<String>)
    ensures
        match r {
            Some(c) => line_cwd(
                match cwd {
                    Some(x) => Some(x@),
                    None => None,
                },
            ) == Some(c@),
            None => line_cwd(
                match cwd {
                    Some(x) => Some(x@),
                    None => None,
                },
            ) is None,
        },
{
    match cwd {
        Some(x) => {
            let c = chars_of(x);
            let (a, b) = trim_range(&c, 0, c.len());
            assert(c@.subrange(0, c.len() as int) =~= c@);
            if a < b {
                Some(string_of(&copy_range(&c, a, b)))
            } else {
                None
            }
        },
        None => None,
    }
}

} // verus!
