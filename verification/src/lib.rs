//! A map-rendering core: tiling-scheme math over integer map units, the
//! visible-tile and resample-fallback algorithm, a priority-ordered
//! cancellable fetch queue, and the camera/view state machine.
//!
//! All map-plane coordinates and resolutions are held as fixed-point
//! integers ("map units"); the caller picks the unit scale.

pub mod geom;
pub mod layer;
pub mod map;
pub mod size;
pub mod style;
pub mod fetch;
pub mod urls;
pub mod resample;
pub mod view;
pub mod anim;
pub mod tiled;
pub mod tiling;
