//! Hooks that the operating system provides.

use vstd::prelude::*;

verus! {

/// OS-provided platform hooks used by trace sessions.
///
/// Implementations should not panic, and should avoid side effects: both
/// methods are called on the trace hot path.
pub trait TracePlatform {
    /// Returns the current timestamp in nanoseconds, in the platform's trace
    /// clock domain.
    fn now_ns(&self) -> u64;

    /// Returns the zero-based CPU id used to select the per-CPU ring buffer.
    fn cpu_id(&self) -> u32;
}

/// The platform may answer a request for the CPU and the time like this.
pub open spec fn may_read<P: TracePlatform>(platform: &P, cpu_id: u32, timestamp: u64) -> bool {
    &&& call_ensures(P::cpu_id, (platform,), cpu_id)
    &&& call_ensures(P::now_ns, (platform,), timestamp)
}

/// What the platform may answer is what its two hooks may return.
pub proof fn law_platform_answers<P: TracePlatform>(platform: &P, cpu_id: u32, timestamp: u64)
    ensures
        may_read(platform, cpu_id, timestamp) <==> {
            &&& call_ensures(P::cpu_id, (platform,), cpu_id)
            &&& call_ensures(P::now_ns, (platform,), timestamp)
        },
{
}

} // verus!
