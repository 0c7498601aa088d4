//! Styling choices that the renderer consumes: how shape outlines sit on
//! their edges, and the per-shape metadata of a tessellated vector tile.

use vstd::prelude::*;

verus! {

/// Where a shape's outline is drawn relative to its edge.
#[derive(Clone, Copy, Debug, PartialEq, Eq, Structural)]
pub enum OutlineAlign {
    Center,
    Side,
}

/// The kinds of layer a map can hold.
#[derive(Clone, Copy, Debug, PartialEq, Eq, Structural)]
pub enum LayerType {
    FeatureLayer,
    ImageLayer,
    ImageTiledLayer,
    VectorTiledLayer,
}

/// Per-shape metadata of one tessellated vector tile: what kind of shape
/// it is, which style it uses, and where its fill and stroke vertices sit
/// in the shared buffers (start, count, buffer index).
#[derive(Clone, Debug)]
pub struct VectorTileShapeMeta {
    pub shape_is_points: bool,
    pub shape_is_lines: bool,
    pub shape_styles_index: usize,
    pub fill_buffer_index: Vec<(u32, u32, i32)>,
    pub stroke_buffer_index: Vec<(u32, u32, i32)>,
}

} // verus!
