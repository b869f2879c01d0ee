use vstd::prelude::*;

verus! {

/// Relies on rand: `Rng::gen_range(0..bound)` returns a value drawn from that
/// range, and panics only when the range is empty, which `bound > 0` rules
/// out. Nothing more is assumed: the result is random.
#[verifier::external_body]
pub(crate) fn random_below(bound: usize) -> (r: usize)
    requires
        bound > 0,
    ensures
        r < bound,
{
    rand::Rng::gen_range(&mut rand::thread_rng(), 0..bound)
}

} // verus!
