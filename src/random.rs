use vstd::prelude::*;


verus! {

/// A seedable pseudo-random generator, carried through the selection
/// algorithm so that callers choose the seed.
#[verifier::external_type_specification]
#[verifier::external_body]
pub struct ExStdRng(rand::rngs::StdRng);

/// Relies on `rand::Rng::gen_range` over a half-open `usize` range: the value
/// lies inside the range (it panics only on an empty range).
#[verifier::external_body]
pub(crate) fn index_in(rng: &mut rand::rngs::StdRng, lo: usize, hi: usize) -> (r: usize)
    requires
        lo < hi,
    ensures
        lo <= r < hi,
{
    rand::Rng::gen_range(rng, lo..hi)
}

} // verus!
