//! Wall-clock measurement of a computation.

use vstd::prelude::*;

verus! {

/// The wall clock's reading, opaque.
#[verifier::external_type_specification]
#[verifier::external_body]
pub struct ExSystemTime(std::time::SystemTime);

/// The error of a clock that went backwards, opaque.
#[verifier::external_type_specification]
#[verifier::external_body]
pub struct ExSystemTimeError(std::time::SystemTimeError);

/// Relies on `SystemTime::now`: reads the clock; nothing is known of the reading.
pub assume_specification[ std::time::SystemTime::now ]() -> std::time::SystemTime;

/// Relies on `SystemTime::duration_since`: the time from `earlier` to `t`, or an
/// error where `earlier` is later; nothing more is known of either.
pub assume_specification[ std::time::SystemTime::duration_since ](
    t: &std::time::SystemTime,
    earlier: std::time::SystemTime,
) -> std::result::Result<core::time::Duration, std::time::SystemTimeError>;

/// Relies on `Duration::from_secs`: a span of whole seconds.
pub assume_specification[ core::time::Duration::from_secs ](secs: u64) -> core::time::Duration;

/// Runs `fn_exec` and returns the wall-clock time it took; a zero span
/// where the clock was set back meanwhile.
pub fn measure_exec_time<F: FnOnce()>(fn_exec: F) -> (r: core::time::Duration)
    requires
        fn_exec.requires(()),
{
    let t_start = std::time::SystemTime::now();
    fn_exec();
    let t_end = std::time::SystemTime::now();
    match t_end.duration_since(t_start) {
        Ok(d) => d,
        Err(_) => core::time::Duration::from_secs(0),
    }
}

} // verus!
