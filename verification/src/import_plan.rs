//! Decisions of the incremental import of append-only session files, shared
//! by both session stores: where to resume, and how far progress may be
//! recorded.
use vstd::prelude::*;

verus! {

/// Where reading a session file starts.
#[derive(Debug, Clone, Copy, PartialEq, Eq, Structural)]
pub struct ResumePlan {
    /// Byte offset to seek to.
    pub start_offset: u64,
    /// Whether the file is parsed again from the start (unique keys make
    /// the replay idempotent).
    pub reparse: bool,
}

/// No recorded progress, or a file shorter than when recorded (rewritten),
/// restarts from 0; otherwise reading resumes at the recorded offset, and
/// a file without new bytes is skipped (`None`).
pub open spec fn resume(known: Option<(u64, u64)>, size: u64) -> Option<ResumePlan> {
    match known {
        Some((off, prev_size)) => if size >= prev_size {
            if off >= size {
                None
            } else {
                Some(ResumePlan { start_offset: off, reparse: false })
            }
        } else {
            Some(ResumePlan { start_offset: 0, reparse: true })
        },
        None => Some(ResumePlan { start_offset: 0, reparse: true }),
    }
}

/// The resume decision for a file of `size` bytes with progress `known`
/// (offset, size).
pub fn plan_resume(known: Option<(u64, u64)>, size: u64) -> (r: Option<ResumePlan>)
    ensures
        r == resume(known, size),
{
    match known {
        Some((off, prev_size)) => {
            if size >= prev_size {
                if off >= size {
                    None
                } else {
                    Some(ResumePlan { start_offset: off, reparse: false })
                }
            } else {
                Some(ResumePlan { start_offset: 0, reparse: true })
            }
        },
        None => Some(ResumePlan { start_offset: 0, reparse: true }),
    }
}

/// Reading position and the end of the last complete line.
#[derive(Debug, Clone, Copy, PartialEq, Eq, Structural)]
pub struct ReadProgress {
    pub pos: u64,
    pub last_complete_end: u64,
}

/// Accounts for one read chunk of `n` bytes; only a chunk ending in a
/// newline moves the recordable progress (a trailing half line is read
/// again next time).
pub fn advance(p: ReadProgress, n: u64, complete: bool) -> (r: ReadProgress)
    requires
        p.pos + n <= u64::MAX,
    ensures
        r.pos == p.pos + n,
        r.last_complete_end == if complete {
            (p.pos + n) as u64
        } else {
            p.last_complete_end
        },
{
    let pos = p.pos + n;
    ReadProgress { pos, last_complete_end: if complete { pos } else { p.last_complete_end } }
}

/// The recordable progress never passes the reading position.
pub proof fn lemma_progress_behind_pos(p: ReadProgress, n: u64, complete: bool)
    requires
        p.pos + n <= u64::MAX,
        p.last_complete_end <= p.pos,
    ensures
        (if complete {
            (p.pos + n) as u64
        } else {
            p.last_complete_end
        }) <= p.pos + n,
{
}

/// A resumed read never starts at or past the end of the file, and a
/// restart always starts at 0.
pub proof fn lemma_resume_in_file(known: Option<(u64, u64)>, size: u64)
    ensures
        resume(known, size) matches Some(plan) ==> (plan.reparse ==> plan.start_offset == 0) && (
        !plan.reparse ==> plan.start_offset < size),
{
}

} // verus!
