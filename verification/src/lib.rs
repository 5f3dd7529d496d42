//! The verified core of a usage tracker for coding agents: session import
//! decisions, the live usage export, quota helpers and user-facing texts.
use vstd::prelude::*;

pub mod text;
pub mod cookie_util;
pub mod usage_feed;
pub mod export_rows;
pub mod speed_catalog;
pub mod session_stats;
pub mod speed_view;
pub mod throttle;
pub mod claude;
pub mod codex;
pub mod db;
pub mod cursor;
pub mod provider_credentials;
pub mod alibaba;
pub mod alibabatoken;
pub mod import_plan;
pub mod timestamps;
pub mod json_doc;
pub mod claude_quota;
pub mod coding_plan;
pub mod token_plan;
pub mod cursor_events;
pub mod reply_doc;

verus! {

} // verus!
