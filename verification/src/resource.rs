//! Process-level resource probes. Used at natural checkpoints to fail fast when
//! the process is about to exceed its budget, not on every allocation.
use vstd::prelude::*;
use vstd::string::*;

use crate::error::{AppError, AppResult, Fault};
use crate::text;

verus! {

/// `memory_stats::memory_stats`: the physical memory of the process in bytes, if
/// the system tells. Nothing is said of the number: it changes from call to
/// call.
#[verifier::external_body]
pub(crate) fn physical_memory() -> (r: Option<u64>) {
    memory_stats::memory_stats().map(|s| s.physical_mem as u64)
}

/// Resident set size of the process in bytes, as the system reports it. Returns
/// 0 where the system does not tell.
pub fn current_rss_bytes() -> (r: u64)
    ensures
        is_reported(r),
{
    rss_of(physical_memory())
}

/// Whether a call of the probe may report this resident set size: the bytes that
/// it tells, or 0 where it does not tell.
pub closed spec fn is_reported(rss: u64) -> bool {
    exists|reported: Option<u64>| #[trigger]
        call_ensures(physical_memory, (), reported) && rss == match reported {
            Some(bytes) => bytes,
            None => 0,
        }
}

/// The resident set size that a system reports: 0 where it does not tell.
pub fn rss_of(reported: Option<u64>) -> (r: u64)
    ensures
        r == match reported {
            Some(bytes) => bytes,
            None => 0,
        },
{
    match reported {
        Some(bytes) => bytes,
        None => 0,
    }
}

/// What is said of a process that uses more memory than it may.
pub open spec fn over_limit(rss: u64, limit_bytes: u64) -> Fault {
    Fault::Storage(
        "memory limit exceeded: RSS "@ + text::decimal(rss as nat) + " bytes > limit "@
            + text::decimal(limit_bytes as nat) + " bytes"@,
    )
}

/// Fails if a resident set size exceeds a limit.
pub fn check_rss(rss: u64, limit_bytes: u64) -> (r: AppResult<()>)
    ensures
        match r {
            Ok(_) => rss <= limit_bytes,
            Err(e) => rss > limit_bytes && e@ == over_limit(rss, limit_bytes),
        },
{
    if rss > limit_bytes {
        let mut m: String = "memory limit exceeded: RSS ".to_owned();
        text::push_decimal(&mut m, rss);
        m.append(" bytes > limit ");
        text::push_decimal(&mut m, limit_bytes);
        m.append(" bytes");
        return Err(AppError::Storage(m));
    }
    Ok(())
}

/// Whether a check of the memory limit came out by a resident set size that was
/// read: it fails if that exceeds the limit, and only then.
pub open spec fn checked(limit_bytes: u64, r: AppResult<()>) -> bool {
    exists|rss: u64| #[trigger]
        call_ensures(current_rss_bytes, (), rss) && match r {
            Ok(_) => rss <= limit_bytes,
            Err(e) => rss > limit_bytes && e@ == over_limit(rss, limit_bytes),
        }
}

/// Fails if the current resident set size exceeds `limit_bytes`. To be called at
/// natural checkpoints: chunk boundaries of ingestion, admission of queries.
pub fn check_memory(limit_bytes: u64) -> (r: AppResult<()>)
    ensures
        match r {
            Ok(_) => true,
            Err(e) => exists|rss: u64|
                rss > limit_bytes && e@ == #[trigger] over_limit(rss, limit_bytes),
        },
        limit_bytes == u64::MAX ==> r is Ok,
        checked(limit_bytes, r),
{
    let rss: u64 = current_rss_bytes();
    check_rss(rss, limit_bytes)
}

/// The current resident set size is the number of bytes that the system told in a
/// call, or 0 where it told none.
pub(crate) proof fn law_size_is_what_the_system_tells(rss: u64)
    requires
        call_ensures(current_rss_bytes, (), rss),
    ensures
        call_ensures(physical_memory, (), Some(rss)) || (rss == 0 && call_ensures(
            physical_memory,
            (),
            None::<u64>,
        )),
{
}

/// A check of the memory limit fails exactly if the process uses more than the
/// limit: it passes where no size above the limit can be read, and fails where no
/// other can, naming a size that was read.
pub proof fn law_limit_decides(limit_bytes: u64, r: AppResult<()>)
    requires
        checked(limit_bytes, r),
    ensures
        (forall|rss: u64| #[trigger]
            call_ensures(current_rss_bytes, (), rss) ==> rss <= limit_bytes) ==> r is Ok,
        (forall|rss: u64| #[trigger]
            call_ensures(current_rss_bytes, (), rss) ==> rss > limit_bytes) ==> r is Err,
        r matches Err(e) ==> exists|rss: u64| #[trigger]
            call_ensures(current_rss_bytes, (), rss) && e@ == over_limit(rss, limit_bytes),
{
}

} // verus!
