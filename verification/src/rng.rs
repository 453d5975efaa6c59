use vstd::prelude::*;

verus! {

/// Relies on macroquad::rand::gen_range (quad-rand's ranged draw). It
/// computes `low + (high - low) * r` in f64 with `r = rand() / 2^32` in
/// [0, 1) and truncates; for bounds this small the f64 arithmetic is exact,
/// so the result lies in [low, high).
#[verifier::external_body]
pub(crate) fn gen_range_usize(low: usize, high: usize) -> (r: usize)
    requires
        low < high,
        high <= 65536,
    ensures
        low <= r < high,
{
    macroquad::rand::gen_range(low, high)
}

} // verus!
