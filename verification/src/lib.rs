//! Terrain data handling, fetch planning and small pieces of view logic of a terrain viewer,
//! with their contracts.
#[allow(unused_imports)]
use vstd::prelude::*;

pub mod camera;
pub mod draw_tool;
pub mod drawing;
pub mod drawing_editor;
pub mod fade;
pub mod fetch;
pub mod frame_request;
pub mod loader;
pub mod lod_driver;
pub mod los;
pub mod markers;
pub mod targets;

verus! {

} // verus!
