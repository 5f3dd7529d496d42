//! Rows shared by the usage stores.
use vstd::prelude::*;

verus! {

/// One imported usage record, as uploaded and shown.
pub struct UsageRow {
    pub local_rowid: i64,
    pub started_at: i64,
    pub model_id: String,
    pub provider_id: String,
    pub input_tokens: i64,
    pub output_tokens: i64,
    pub cache_read_input_tokens: i64,
    pub cache_creation_input_tokens: i64,
    pub reasoning_tokens: i64,
    pub computed_total_tokens: i64,
    pub source: String,
    pub session_id: Option<String>,
    pub project_key: Option<String>,
    pub project_display: Option<String>,
}

/// Tokens and requests of one period `[reset_at, end_at)`.
#[derive(Debug, Clone, Copy, PartialEq, Eq, Structural)]
pub struct PeriodBucket {
    pub reset_at: i64,
    pub end_at: i64,
    pub total_tokens: i64,
    pub requests: i64,
}

} // verus!
