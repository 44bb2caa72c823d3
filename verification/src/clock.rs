//! The wall clock, read where the library needs a changing value.
use vstd::prelude::*;
use core::time::Duration;
use std::time::SystemTime;

verus! {

#[verifier::external_type_specification]
#[verifier::external_body]
pub struct ExSystemTime(std::time::SystemTime);

/// `SystemTime::now`.  Nothing is claimed of the time it reads.
#[verifier::external_body]
fn system_now() -> (r: SystemTime) {
    SystemTime::now()
}

/// `SystemTime::duration_since(UNIX_EPOCH)`, with the error of a clock that
/// reads before the epoch turned into `None`.  Nothing is claimed of the
/// duration: it depends on the reading.
#[verifier::external_body]
fn since_epoch(t: &SystemTime) -> (r: Option<Duration>) {
    t.duration_since(std::time::UNIX_EPOCH).ok()
}

/// `Duration::as_secs`: the whole seconds.
#[verifier::external_body]
fn duration_secs(d: &Duration) -> (r: u64) {
    d.as_secs()
}

/// `Duration::subsec_nanos`.  The contract claims what its documentation
/// says: the nanoseconds past the whole seconds, below one second.
#[verifier::external_body]
fn duration_subsec_nanos(d: &Duration) -> (r: u32)
    ensures
        r < 1_000_000_000,
{
    d.subsec_nanos()
}

/// The time since the epoch as whole seconds and the nanoseconds past them,
/// zero when the clock reads before the epoch.  The time itself is whatever
/// the clock reads.
pub(crate) fn since_unix_epoch() -> (r: (u64, u32))
    ensures
        r.1 < 1_000_000_000,
{
    let now = system_now();
    match since_epoch(&now) {
        Some(d) => (duration_secs(&d), duration_subsec_nanos(&d)),
        None => (0, 0),
    }
}

/// `Duration::as_nanos() as u64`: the nanoseconds since the epoch, reduced
/// modulo 2^64.
pub open spec fn nanos_u64(secs: u64, subsec: u32) -> u64 {
    ((secs as int * 1_000_000_000 + subsec as int) % 0x1_0000_0000_0000_0000) as u64
}

/// The nanoseconds since the epoch, reduced modulo 2^64, of a reading.
pub fn nanos_of(secs: u64, subsec: u32) -> (r: u64)
    ensures
        r == nanos_u64(secs, subsec),
{
    let r = secs.wrapping_mul(1_000_000_000).wrapping_add(subsec as u64);
    assert(r == nanos_u64(secs, subsec)) by (nonlinear_arith)
        requires
            r == (((secs as int * 1_000_000_000) % 0x1_0000_0000_0000_0000) + subsec as int)
                % 0x1_0000_0000_0000_0000,
    ;
    r
}

} // verus!
