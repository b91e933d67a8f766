//! The azimuth grid of the line-of-sight computations: one turn is 6400 mils, computed one mil
//! apart, and an output may use every `step`-th azimuth.
use vstd::prelude::*;

verus! {

/// Azimuths in one turn (NATO mils).
pub const NUM_AZIMUTHS: usize = 6400;

/// Number of azimuths output for a step of `azimuth_step` mils, which must divide
/// `NUM_AZIMUTHS`.
pub fn azimuth_count(azimuth_step: usize) -> (n: usize)
    requires
        azimuth_step >= 1,
        NUM_AZIMUTHS % azimuth_step == 0,
    ensures
        n == NUM_AZIMUTHS / azimuth_step,
        n * azimuth_step == NUM_AZIMUTHS,
{
    proof {
        vstd::arithmetic::div_mod::lemma_fundamental_div_mod(
            NUM_AZIMUTHS as int,
            azimuth_step as int,
        );
        assert(azimuth_step * (NUM_AZIMUTHS / azimuth_step) == (NUM_AZIMUTHS / azimuth_step)
            * azimuth_step) by (nonlinear_arith);
    }
    NUM_AZIMUTHS / azimuth_step
}

} // verus!
