//! The camera choices of the main panel.
use vstd::prelude::*;

verus! {

/// The initial camera angle: looking down at a slant (the only preset).
#[derive(Debug, Clone, Copy, PartialEq, Eq)]
pub enum CameraPreset {
    /// Looking down at the terrain from above at a slant.
    Overview,
}

/// The display mode of the main panel: free perspective view, or straight down from above with
/// north up.
#[derive(Debug, Clone, Copy, PartialEq, Eq)]
pub enum ViewMode {
    /// Perspective view that can be rotated.
    ThreeD,
    /// Orthographic map view from above, north up.
    TwoD,
}

} // verus!
