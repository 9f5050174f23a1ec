use vstd::prelude::*;

use crate::error::VestoError;
use crate::metrics::MetricsName;

verus! {

// Distances are computed by a kernel that the caller supplies: a function of
// the metric and two vectors (bit patterns of their components) giving the
// distance's bit pattern, or the error the metric reports (such as a zero
// vector under the cosine distance).

/// The kernel can be called on any arguments and gives the same result for
/// the same metric and vector contents.
pub open spec fn kernel_ok<K: Fn(MetricsName, &[u32], &[u32]) -> Result<u32, VestoError>>(k: K) -> bool {
    &&& forall|m: MetricsName, a: &[u32], b: &[u32]| #[trigger] call_requires(k, (m, a, b))
    &&& forall|m: MetricsName, a1: &[u32], b1: &[u32], a2: &[u32], b2: &[u32], r1: Result<u32, VestoError>, r2: Result<u32, VestoError>|
        #![trigger call_ensures(k, (m, a1, b1), r1), call_ensures(k, (m, a2, b2), r2)]
        a1@ == a2@ && b1@ == b2@ && call_ensures(k, (m, a1, b1), r1) && call_ensures(k, (m, a2, b2), r2) ==> r1 == r2
}

/// The kernel may give `r` for the metric and two vectors.
pub open spec fn kernel_gives<K: Fn(MetricsName, &[u32], &[u32]) -> Result<u32, VestoError>>(
    k: K,
    m: MetricsName,
    a: Seq<u32>,
    b: Seq<u32>,
    r: Result<u32, VestoError>,
) -> bool {
    exists|x: &[u32], y: &[u32]| #[trigger] call_ensures(k, (m, x, y), r) && x@ == a && y@ == b
}

/// What the kernel gives for the metric and two vectors.
pub open spec fn kernel_value<K: Fn(MetricsName, &[u32], &[u32]) -> Result<u32, VestoError>>(
    k: K,
    m: MetricsName,
    a: Seq<u32>,
    b: Seq<u32>,
) -> Result<u32, VestoError> {
    choose|r: Result<u32, VestoError>| #[trigger] kernel_gives(k, m, a, b, r)
}

/// The distance between two vectors under a metric, by the kernel.
pub fn distance<K: Fn(MetricsName, &[u32], &[u32]) -> Result<u32, VestoError>>(
    kernel: &K,
    m: MetricsName,
    a: &[u32],
    b: &[u32],
) -> (r: Result<u32, VestoError>)
    requires
        kernel_ok(*kernel),
    ensures
        r == kernel_value(*kernel, m, a@, b@),
{
    let r = kernel(m, a, b);
    proof {
        assert(call_ensures(*kernel, (m, a, b), r));
        assert(kernel_gives(*kernel, m, a@, b@, r));
        let r2 = kernel_value(*kernel, m, a@, b@);
        assert(kernel_gives(*kernel, m, a@, b@, r2));
        let (x, y) = choose|x: &[u32], y: &[u32]| #[trigger] call_ensures(*kernel, (m, x, y), r2) && x@ == a@ && y@ == b@;
    }
    r
}

} // verus!
