//! The visible-tile computation: which tiles of one zoom level meet the
//! view-bounds quadrilateral.

use vstd::prelude::*;
use vstd::arithmetic::power2::pow2;

use crate::geom::{Bbox, Coord, QuadCoords, in_coord_range, quad_intersects_bbox, intersects};
use crate::tiling::{TileId, Tiling, clamp_to_i32};

verus! {

/// The axis-aligned box around the view quadrilateral.
pub open spec fn quad_bound_rect(q: QuadCoords) -> Bbox {
    Bbox {
        xmin: min4(q.lt.x, q.lb.x, q.rt.x, q.rb.x),
        ymin: min4(q.lt.y, q.lb.y, q.rt.y, q.rb.y),
        xmax: max4(q.lt.x, q.lb.x, q.rt.x, q.rb.x),
        ymax: max4(q.lt.y, q.lb.y, q.rt.y, q.rb.y),
    }
}

pub open spec fn min4(a: i64, b: i64, c: i64, d: i64) -> i64 {
    min2(min2(a, b), min2(c, d))
}

pub open spec fn max4(a: i64, b: i64, c: i64, d: i64) -> i64 {
    max2(max2(a, b), max2(c, d))
}

pub open spec fn min2(a: i64, b: i64) -> i64 {
    if a <= b {
        a
    } else {
        b
    }
}

pub open spec fn max2(a: i64, b: i64) -> i64 {
    if a >= b {
        a
    } else {
        b
    }
}

/// The map-plane box of a tile, as exact integers (meaningful when it fits
/// the 64-bit range, which holds for every in-world tile).
pub open spec fn spec_tile_bbox(tiling: Tiling, t: TileId) -> Bbox {
    let span = tiling.tile_span(t.z as int);
    Bbox {
        xmin: (tiling.origin_x + t.x * span) as i64,
        ymin: (tiling.origin_y - (t.y + 1) * span) as i64,
        xmax: (tiling.origin_x + (t.x + 1) * span) as i64,
        ymax: (tiling.origin_y - t.y * span) as i64,
    }
}

/// The first and last tile columns and rows that the view rectangle
/// touches at `z`, clamped to the world.
pub open spec fn view_tile_range(tiling: Tiling, bounds: QuadCoords, z: int) -> (int, int, int, int) {
    let rect = quad_bound_rect(bounds);
    let span = tiling.tile_span(z);
    let max_xy = pow2(tiling.clamped_zoom(z) as nat) - 1;
    let x_lo = max2(0, clamp_to_i32((rect.xmin - tiling.origin_x) / span) as i64) as int;
    let x_hi = min2(max_xy as i64, clamp_to_i32((rect.xmax - tiling.origin_x) / span) as i64)
        as int;
    let y_lo = max2(0, clamp_to_i32((tiling.origin_y - rect.ymax) / span) as i64) as int;
    let y_hi = min2(max_xy as i64, clamp_to_i32((tiling.origin_y - rect.ymin) / span) as i64)
        as int;
    (x_lo, x_hi, y_lo, y_hi)
}

/// Whether tile `t` belongs to the visible set of level `z`: inside the
/// clamped world range of the view rectangle, with a box that meets the
/// view quadrilateral itself.
pub open spec fn tile_visible(tiling: Tiling, bounds: QuadCoords, z: int, t: TileId) -> bool {
    &&& t.z == z
    &&& view_tile_range(tiling, bounds, z).0 <= t.x
    &&& t.x <= view_tile_range(tiling, bounds, z).1
    &&& view_tile_range(tiling, bounds, z).2 <= t.y
    &&& t.y <= view_tile_range(tiling, bounds, z).3
    &&& quad_intersects_bbox(bounds, spec_tile_bbox(tiling, t))
}

/// An in-world tile's box fits the coordinate range.
pub(crate) proof fn lemma_world_tile_bbox(tiling: Tiling, t: TileId)
    requires
        tiling.wf(),
        t.z < tiling.zoom_count(),
        0 <= t.x < pow2(t.z as nat),
        0 <= t.y < pow2(t.z as nat),
    ensures
        tiling.tile_bbox_fits(t),
        in_coord_range(
            Coord { x: spec_tile_bbox(tiling, t).xmin, y: spec_tile_bbox(tiling, t).ymin },
        ),
        in_coord_range(
            Coord { x: spec_tile_bbox(tiling, t).xmax, y: spec_tile_bbox(tiling, t).ymax },
        ),
{
    let z = t.z as int;
    let span = tiling.tile_span(z);
    tiling.lemma_resolution_bounds(z);
    tiling.lemma_resolution_ratio(0, z);
    assert(span >= 1) by (nonlinear_arith)
        requires
            tiling.resolutions()[t.z as int] >= 1,
            tiling.tile_size >= 1,
            span == (tiling.resolutions()[t.z as int] as int) * (tiling.tile_size as int),
    ;
    // (x + 1) * span <= 2^z * span == res0 * tile_size <= map_size
    assert((pow2(t.z as nat) as int) * span == (tiling.resolutions()[0] as int) * (
    tiling.tile_size as int)) by (nonlinear_arith)
        requires
            tiling.resolutions()[0] as int == (tiling.resolutions()[t.z as int] as int) * (
            pow2(t.z as nat) as int),
            span == (tiling.resolutions()[t.z as int] as int) * (tiling.tile_size as int),
    ;
    assert((t.x + 1) * span <= (pow2(t.z as nat) as int) * span && 0 <= t.x * span && (t.y + 1)
        * span <= (pow2(t.z as nat) as int) * span && 0 <= t.y * span && t.x * span <= (t.x + 1)
        * span && t.y * span <= (t.y + 1) * span) by (nonlinear_arith)
        requires
            0 <= t.x < pow2(t.z as nat),
            0 <= t.y < pow2(t.z as nat),
            span >= 1,
    ;
}

/// The tiles of level `z` that the view quadrilateral meets: every tile of
/// the bounding rectangle's clamped range whose own box intersects the
/// quadrilateral, columns outermost, distinct. Empty for a level past the
/// table.
pub fn tile_ids_in_view(tiling: &Tiling, bounds: &QuadCoords, z: usize) -> (r: Vec<TileId>)
    requires
        tiling.wf(),
        in_coord_range(bounds.lt),
        in_coord_range(bounds.lb),
        in_coord_range(bounds.rt),
        in_coord_range(bounds.rb),
    ensures
        forall|t: TileId| r@.contains(t) ==> #[trigger] tile_visible(*tiling, *bounds, z as int, t),
        z < tiling.zoom_count() ==> forall|t: TileId|
            #[trigger] tile_visible(*tiling, *bounds, z as int, t) ==> r@.contains(t),
        forall|k1: int, k2: int|
            #![trigger r@[k1], r@[k2]]
            0 <= k1 < k2 < r@.len() ==> r@[k1] != r@[k2],
        z >= tiling.zoom_count() ==> r@.len() == 0,
{
    let mut out: Vec<TileId> = Vec::new();
    if z >= tiling.zoom_resolutions.len() {
        proof {
            assert forall|t: TileId| out@.contains(t) implies #[trigger] tile_visible(
                *tiling,
                *bounds,
                z as int,
                t,
            ) by {}
        }
        return out;
    }
    let rect_xmin = min2_exec(
        min2_exec(bounds.lt.x, bounds.lb.x),
        min2_exec(bounds.rt.x, bounds.rb.x),
    );
    let rect_ymin = min2_exec(
        min2_exec(bounds.lt.y, bounds.lb.y),
        min2_exec(bounds.rt.y, bounds.rb.y),
    );
    let rect_xmax = max2_exec(
        max2_exec(bounds.lt.x, bounds.lb.x),
        max2_exec(bounds.rt.x, bounds.rb.x),
    );
    let rect_ymax = max2_exec(
        max2_exec(bounds.lt.y, bounds.lb.y),
        max2_exec(bounds.rt.y, bounds.rb.y),
    );
    let lt = tiling.get_tile_id(z, &Coord { x: rect_xmin, y: rect_ymax });
    let rb = tiling.get_tile_id(z, &Coord { x: rect_xmax, y: rect_ymin });
    let max_xy = tiling.get_max_x_y(z);
    let (tx_lo, ty_lo) = match lt {
        Some(t) => (t.x, t.y),
        None => (0, 0),
    };
    let (tx_hi, ty_hi) = match rb {
        Some(t) => (t.x, t.y),
        None => (0, 0),
    };
    let x_lo: i32 = if tx_lo < 0 {
        0
    } else {
        tx_lo
    };
    let x_hi: i32 = if tx_hi > max_xy {
        max_xy
    } else {
        tx_hi
    };
    let y_lo: i32 = if ty_lo < 0 {
        0
    } else {
        ty_lo
    };
    let y_hi: i32 = if ty_hi > max_xy {
        max_xy
    } else {
        ty_hi
    };
    let ghost gx_lo = view_tile_range(*tiling, *bounds, z as int).0;
    let ghost gx_hi = view_tile_range(*tiling, *bounds, z as int).1;
    let ghost gy_lo = view_tile_range(*tiling, *bounds, z as int).2;
    let ghost gy_hi = view_tile_range(*tiling, *bounds, z as int).3;
    proof {
        assert(x_lo as int == gx_lo && x_hi as int == gx_hi && y_lo as int == gy_lo && y_hi
            as int == gy_hi);
        assert(tiling.clamped_zoom(z as int) <= 30);
        assert(pow2(tiling.clamped_zoom(z as int) as nat) <= pow2(30)) by {
            if tiling.clamped_zoom(z as int) < 30 {
                vstd::arithmetic::power2::lemma_pow2_strictly_increases(
                    tiling.clamped_zoom(z as int) as nat,
                    30,
                );
            }
        }
        vstd::arithmetic::power2::lemma2_to64();
    }
    let mut x: i32 = x_lo;
    while x <= x_hi
        invariant
            tiling.wf(),
            z < tiling.zoom_count(),
            in_coord_range(bounds.lt),
            in_coord_range(bounds.lb),
            in_coord_range(bounds.rt),
            in_coord_range(bounds.rb),
            x_lo <= x,
            x_lo as int == gx_lo,
            x_hi as int == gx_hi,
            y_lo as int == gy_lo,
            y_hi as int == gy_hi,
            gx_lo == view_tile_range(*tiling, *bounds, z as int).0,
            gx_hi == view_tile_range(*tiling, *bounds, z as int).1,
            gy_lo == view_tile_range(*tiling, *bounds, z as int).2,
            gy_hi == view_tile_range(*tiling, *bounds, z as int).3,
            gx_lo >= 0,
            gy_lo >= 0,
            gx_hi < pow2(tiling.clamped_zoom(z as int) as nat),
            gy_hi < pow2(tiling.clamped_zoom(z as int) as nat),
            gx_hi < 0x4000_0000,
            gy_hi < 0x4000_0000,
            x <= x_hi + 1 || x == x_lo,
            forall|t: TileId|
                out@.contains(t) ==> #[trigger] tile_visible(*tiling, *bounds, z as int, t),
            forall|t: TileId|
                #[trigger] tile_visible(*tiling, *bounds, z as int, t) && t.x < x
                    ==> out@.contains(t),
            forall|k: int| 0 <= k < out@.len() ==> (#[trigger] out@[k]).x < x,
            forall|k1: int, k2: int|
                #![trigger out@[k1], out@[k2]]
                0 <= k1 < k2 < out@.len() ==> out@[k1] != out@[k2],
        decreases x_hi + 1 - x,
    {
        let mut y: i32 = y_lo;
        while y <= y_hi
            invariant
                tiling.wf(),
                z < tiling.zoom_count(),
                in_coord_range(bounds.lt),
                in_coord_range(bounds.lb),
                in_coord_range(bounds.rt),
                in_coord_range(bounds.rb),
                x_lo <= x <= x_hi,
                y_lo <= y,
                y <= y_hi + 1 || y == y_lo,
                x_lo as int == gx_lo,
                x_hi as int == gx_hi,
                y_lo as int == gy_lo,
                y_hi as int == gy_hi,
                gx_lo == view_tile_range(*tiling, *bounds, z as int).0,
                gx_hi == view_tile_range(*tiling, *bounds, z as int).1,
                gy_lo == view_tile_range(*tiling, *bounds, z as int).2,
                gy_hi == view_tile_range(*tiling, *bounds, z as int).3,
                gx_lo >= 0,
                gy_lo >= 0,
                gx_hi < pow2(tiling.clamped_zoom(z as int) as nat),
                gy_hi < pow2(tiling.clamped_zoom(z as int) as nat),
                gx_hi < 0x4000_0000,
                gy_hi < 0x4000_0000,
                forall|t: TileId|
                    out@.contains(t) ==> #[trigger] tile_visible(*tiling, *bounds, z as int, t),
                forall|t: TileId|
                    #[trigger] tile_visible(*tiling, *bounds, z as int, t) && (t.x < x || (t.x
                        == x && t.y < y)) ==> out@.contains(t),
                forall|k: int|
                    0 <= k < out@.len() ==> (#[trigger] out@[k]).x < x || ((out@[k]).x == x
                        && (out@[k]).y < y),
                forall|k1: int, k2: int|
                    #![trigger out@[k1], out@[k2]]
                    0 <= k1 < k2 < out@.len() ==> out@[k1] != out@[k2],
            decreases y_hi + 1 - y,
        {
            let t = TileId { z, x, y };
            proof {
                assert(tiling.clamped_zoom(z as int) == z as int);
                assert(pow2(z as nat) >= pow2(tiling.clamped_zoom(z as int) as nat));
                lemma_world_tile_bbox(*tiling, t);
            }
            let bbox = tiling.get_tile_bbox(&t);
            match bbox {
                Some(bbox) => {
                    proof {
                        assert(bbox == spec_tile_bbox(*tiling, t));
                        assert(in_coord_range(Coord { x: bbox.xmin, y: bbox.ymin }));
                        assert(in_coord_range(Coord { x: bbox.xmax, y: bbox.ymax }));
                    }
                    if intersects(bounds, &bbox) {
                        proof {
                            assert(gx_lo <= t.x as int && t.x as int <= gx_hi);
                            assert(gy_lo <= t.y as int && t.y as int <= gy_hi);
                            assert(quad_intersects_bbox(*bounds, spec_tile_bbox(*tiling, t)));
                            assert(tile_visible(*tiling, *bounds, z as int, t));
                        }
                        let ghost before = out@;
                        out.push(t);
                        proof {
                            assert forall|tt: TileId| before.contains(tt) implies
                                out@.contains(tt) by {
                                let k = choose|k: int| 0 <= k < before.len() && before[k] == tt;
                                assert(out@[k] == tt);
                            }
                            assert(out@.contains(t)) by {
                                assert(out@[out@.len() - 1] == t);
                            }
                            assert forall|tt: TileId| out@.contains(tt) implies
                                #[trigger] tile_visible(*tiling, *bounds, z as int, tt) by {
                                let k = choose|k: int|
                                    0 <= k < out@.len() && out@[k] == tt;
                                if k < out@.len() - 1 {
                                    assert(before[k] == tt);
                                    assert(before.contains(tt));
                                } else {
                                    assert(tt == t);
                                }
                            }
                        }
                    }
                },
                None => {
                    proof {
                        assert(false);
                    }
                },
            }
            y = y + 1;
        }
        x = x + 1;
    }
    proof {
        assert forall|t: TileId|
            #[trigger] tile_visible(*tiling, *bounds, z as int, t) implies out@.contains(t) by {
            assert(t.x <= gx_hi < x as int);
        }
    }
    out
}

fn min2_exec(a: i64, b: i64) -> (r: i64)
    ensures
        r == min2(a, b),
{
    if a <= b {
        a
    } else {
        b
    }
}

fn max2_exec(a: i64, b: i64) -> (r: i64)
    ensures
        r == max2(a, b),
{
    if a >= b {
        a
    } else {
        b
    }
}

} // verus!
