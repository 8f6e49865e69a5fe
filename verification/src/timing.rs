use vstd::prelude::*;

verus! {

/// The unit a duration is reported in.
#[derive(Debug, Clone, Copy, PartialEq, Eq)]
pub enum TimeUnit {
    Seconds,
    Milliseconds,
    Microseconds,
    Nanoseconds,
}

/// The largest unit of which the duration of `nanos` nanoseconds holds at
/// least one whole.
pub fn duration_unit(nanos: u128) -> (unit: TimeUnit)
    ensures
        nanos >= 1_000_000_000 ==> unit == TimeUnit::Seconds,
        1_000_000 <= nanos < 1_000_000_000 ==> unit == TimeUnit::Milliseconds,
        1_000 <= nanos < 1_000_000 ==> unit == TimeUnit::Microseconds,
        nanos < 1_000 ==> unit == TimeUnit::Nanoseconds,
{
    if nanos >= 1_000_000_000 {
        TimeUnit::Seconds
    } else if nanos >= 1_000_000 {
        TimeUnit::Milliseconds
    } else if nanos >= 1_000 {
        TimeUnit::Microseconds
    } else {
        TimeUnit::Nanoseconds
    }
}

} // verus!
