use vstd::prelude::*;
use rand::Rng;

verus! {

/// Relies on `rand::thread_rng` and `rand::Rng::gen_range` over a half-open
/// `i64` range: the value drawn lies in `[lo, hi)`; the call panics on an
/// empty range, which `requires` leaves out.
#[verifier::external_body]
pub(crate) fn draw_range(lo: i64, hi: i64) -> (r: i64)
    requires
        lo < hi,
    ensures
        lo <= r < hi,
{
    rand::thread_rng().gen_range(lo..hi)
}

} // verus!
