//! The server clock as it goes on the wire.

use vstd::prelude::*;

verus! {

#[verifier::external_type_specification]
#[verifier::external_body]
pub struct ExSystemTime(std::time::SystemTime);

#[verifier::external_type_specification]
#[verifier::external_body]
pub struct ExSystemTimeError(std::time::SystemTimeError);

/// `std::time::SystemTime::now`: what the system clock reads. Nothing is
/// stated of it.
#[verifier::external_body]
fn system_now() -> (r: std::time::SystemTime) {
    std::time::SystemTime::now()
}

/// `SystemTime::duration_since(UNIX_EPOCH)`: the time since the Unix epoch,
/// or an error when `t` lies before it. Which of the two comes back, and
/// the duration, are not stated.
#[verifier::external_body]
fn since_epoch(t: &std::time::SystemTime) -> (r: Result<std::time::Duration, std::time::SystemTimeError>) {
    t.duration_since(std::time::UNIX_EPOCH)
}

/// `Duration::as_millis`: the whole milliseconds of `d`. Not stated.
#[verifier::external_body]
fn duration_millis(d: &std::time::Duration) -> (r: u128) {
    d.as_millis()
}

/// Milliseconds since the Unix epoch by the system clock, `None` when the
/// clock is set before the epoch.
fn epoch_millis() -> (r: Option<u128>) {
    let now = system_now();
    match since_epoch(&now) {
        Ok(d) => Some(duration_millis(&d)),
        Err(_) => None,
    }
}

/// A clock reading in milliseconds, `0` when there is none.
pub fn millis_or_zero(r: Option<u128>) -> (m: u128)
    ensures
        m == match r {
            Some(x) => x,
            None => 0,
        },
{
    match r {
        Some(x) => x,
        None => 0,
    }
}

/// A time in milliseconds as the wire carries it: truncated to 32 bits.
pub fn wire_time(ms: u128) -> (r: u32)
    ensures
        r == ms % 0x1_0000_0000,
{
    let r = ms as u32;
    assert(ms as u32 == ms % 0x1_0000_0000) by (bit_vector);
    r
}

/// Current wall-clock time in milliseconds, truncated to `u32`.
pub fn server_time_ms() -> (r: u32) {
    wire_time(millis_or_zero(epoch_millis()))
}

} // verus!
