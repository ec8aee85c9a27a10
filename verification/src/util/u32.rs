use vstd::prelude::*;

verus! {

/// Seconds between the Windows epoch (1601-01-01) and the Unix epoch (1970-01-01).
pub const EPOCH_DIFFERENCE_SECS: u64 = 11644473600;

/// Number of 100-nanosecond FILETIME ticks in one second.
pub const TICKS_PER_SECOND: u64 = 10_000_000;

/// A Unix timestamp in seconds, as a Windows FILETIME (100 ns ticks since 1601).
pub open spec fn spec_windows_time(secs: u32) -> int {
    (secs + EPOCH_DIFFERENCE_SECS) * TICKS_PER_SECOND
}

/// Conversion of ext4 timestamps to Windows file times.
pub trait U32Ext {
    fn to_windows_time(self) -> u64;
}

impl U32Ext for u32 {
    fn to_windows_time(self) -> (t: u64)
        ensures
            t == spec_windows_time(self),
    {
        assert((self + EPOCH_DIFFERENCE_SECS) * TICKS_PER_SECOND <= u64::MAX) by (nonlinear_arith)
            requires
                self <= u32::MAX,
        ;
        (self as u64 + EPOCH_DIFFERENCE_SECS) * TICKS_PER_SECOND
    }
}

/// Later timestamps never map to earlier file times.
pub proof fn lemma_windows_time_monotonic(a: u32, b: u32)
    requires
        a <= b,
    ensures
        spec_windows_time(a) <= spec_windows_time(b),
        spec_windows_time(b) - spec_windows_time(a) == (b - a) * TICKS_PER_SECOND,
{
    assert(spec_windows_time(b) - spec_windows_time(a) == (b - a) * TICKS_PER_SECOND) by (nonlinear_arith);
}

/// The Unix epoch is FILETIME 116444736000000000, and each later second adds
/// exactly 10^7 ticks.
pub proof fn lemma_windows_time_values(secs: u32)
    ensures
        spec_windows_time(0) == 116_444_736_000_000_000,
        spec_windows_time(secs) == 116_444_736_000_000_000 + secs * 10_000_000,
{
}

} // verus!
