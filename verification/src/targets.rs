//! The size of the supersampled render target: twice the canvas size (in CSS pixels) on each
//! side, at least one pixel before doubling, and at most `SUPERSAMPLE_MAX_DIMENSION`.
use vstd::prelude::*;

verus! {

/// Samples of the multisample antialiasing.
pub const SAMPLE_COUNT: u32 = 4;

/// The factor of the supersampling on each side.
pub const SUPERSAMPLE_FACTOR: u32 = 2;

/// The largest side of the supersampled target, in pixels.
pub const SUPERSAMPLE_MAX_DIMENSION: u32 = 4096;

/// One side of the supersampled target for a canvas side of `n` CSS pixels.
pub open spec fn supersample_side(n: int) -> int {
    let doubled = (if n < 1 {
        1
    } else {
        n
    }) * SUPERSAMPLE_FACTOR;
    if doubled < SUPERSAMPLE_MAX_DIMENSION {
        doubled
    } else {
        SUPERSAMPLE_MAX_DIMENSION as int
    }
}

/// The internal resolution of the supersampling for a canvas of `width` x `height` CSS pixels.
pub fn supersample_size(width: u32, height: u32) -> (r: (u32, u32))
    requires
        width * SUPERSAMPLE_FACTOR <= u32::MAX,
        height * SUPERSAMPLE_FACTOR <= u32::MAX,
    ensures
        r.0 == supersample_side(width as int),
        r.1 == supersample_side(height as int),
{
    let w0 = if width < 1 {
        1
    } else {
        width
    };
    let h0 = if height < 1 {
        1
    } else {
        height
    };
    let w = w0 * SUPERSAMPLE_FACTOR;
    let h = h0 * SUPERSAMPLE_FACTOR;
    let w = if w < SUPERSAMPLE_MAX_DIMENSION {
        w
    } else {
        SUPERSAMPLE_MAX_DIMENSION
    };
    let h = if h < SUPERSAMPLE_MAX_DIMENSION {
        h
    } else {
        SUPERSAMPLE_MAX_DIMENSION
    };
    (w, h)
}

/// Every side of the target is even, between 2 and `SUPERSAMPLE_MAX_DIMENSION`, and grows with
/// the canvas side.
pub proof fn lemma_supersample_bounds(a: int, b: int)
    requires
        a <= b,
    ensures
        2 <= supersample_side(a) <= SUPERSAMPLE_MAX_DIMENSION,
        supersample_side(a) % 2 == 0,
        supersample_side(a) <= supersample_side(b),
{
}

} // verus!
