//! The camera/view model: centre, zoom resolution, pitch and yaw, the
//! derived view-bounds quadrilateral, and a version counter that dependent
//! caches key off.
//!
//! Angles are carried in millidegrees; rotation sines/cosines and the
//! pitch look-ahead factor enter as fixed-point values with sixteen
//! fraction bits ("Q16"), computed by the embedding from the angles.

use vstd::prelude::*;

use crate::geom::{Bbox, Coord, QuadCoords, in_coord_range};
use crate::tiling::Tiling;

verus! {

/// The largest coordinate magnitude the view model works with.
pub const COORD_LIMIT: i64 = 0x3FFF_FFFF_FFFF_FFFF;

/// `v` saturated to the working coordinate range.
pub open spec fn clamp_coord_int(v: int) -> i64 {
    if v > COORD_LIMIT as int {
        COORD_LIMIT
    } else if v < -(COORD_LIMIT as int) {
        (-(COORD_LIMIT as int)) as i64
    } else {
        v as i64
    }
}

fn clamp_coord_exec(v: i128) -> (r: i64)
    ensures
        r == clamp_coord_int(v as int),
        -COORD_LIMIT <= r <= COORD_LIMIT,
{
    if v > COORD_LIMIT as i128 {
        COORD_LIMIT
    } else if v < -(COORD_LIMIT as i128) {
        -COORD_LIMIT
    } else {
        v as i64
    }
}

/// Map configuration owned by the embedding and read by the core: the
/// tiling scheme, the home centre, the zoom window, the pitch cap and the
/// frame-rate cap.
#[derive(Clone, Debug)]
pub struct MapOptions {
    pub center: Coord,
    pub max_frame_rate: u32,
    pub pitch_md: i64,
    pub pitch_max_md: i64,
    pub tiling: Tiling,
    pub world_copy: bool,
    pub yaw_md: i64,
    pub zoom: usize,
    pub zoom_max: usize,
    pub zoom_min: usize,
}

impl MapOptions {
    pub open spec fn wf(&self) -> bool {
        &&& self.tiling.wf()
        &&& in_coord_range(self.center)
        &&& 1 <= self.max_frame_rate <= 1000
    }

    /// The stock configuration: the default tiling, centred on the origin,
    /// flat camera, at most eighty degrees of pitch, sixty frames a second.
    pub fn default_options() -> (r: MapOptions)
        ensures
            r.wf(),
            r.zoom == 0,
            r.zoom_min == 0,
            r.zoom_max == 20,
            r.center == (Coord { x: 0, y: 0 }),
            r.max_frame_rate == 60,
    {
        MapOptions {
            center: Coord { x: 0, y: 0 },
            max_frame_rate: 60,
            pitch_md: 0,
            pitch_max_md: 80000,
            tiling: Tiling::default_scheme(),
            world_copy: true,
            yaw_md: 0,
            zoom: 0,
            zoom_max: 20,
            zoom_min: 0,
        }
    }

    pub fn with_center(self, v: Coord) -> (r: MapOptions)
        ensures
            r == (MapOptions { center: v, ..self }),
    {
        MapOptions { center: v, ..self }
    }

    pub fn with_pitch(self, v: i64) -> (r: MapOptions)
        ensures
            r == (MapOptions { pitch_md: v, ..self }),
    {
        MapOptions { pitch_md: v, ..self }
    }

    pub fn with_pitch_max(self, v: i64) -> (r: MapOptions)
        ensures
            r == (MapOptions { pitch_max_md: v, ..self }),
    {
        MapOptions { pitch_max_md: v, ..self }
    }

    pub fn with_world_copy(self, v: bool) -> (r: MapOptions)
        ensures
            r == (MapOptions { world_copy: v, ..self }),
    {
        MapOptions { world_copy: v, ..self }
    }

    pub fn with_yaw(self, v: i64) -> (r: MapOptions)
        ensures
            r == (MapOptions { yaw_md: v, ..self }),
    {
        MapOptions { yaw_md: v, ..self }
    }

    pub fn with_zoom(self, v: usize) -> (r: MapOptions)
        ensures
            r == (MapOptions { zoom: v, ..self }),
    {
        MapOptions { zoom: v, ..self }
    }

    pub fn with_zoom_max(self, v: usize) -> (r: MapOptions)
        ensures
            r == (MapOptions { zoom_max: v, ..self }),
    {
        MapOptions { zoom_max: v, ..self }
    }

    pub fn with_zoom_min(self, v: usize) -> (r: MapOptions)
        ensures
            r == (MapOptions { zoom_min: v, ..self }),
    {
        MapOptions { zoom_min: v, ..self }
    }
}

/// A requested view change: any subset of centre, zoom resolution, pitch
/// and yaw.
#[derive(Clone, Copy, Debug, Default)]
pub struct MapViewChange {
    pub center: Option<Coord>,
    pub zoom_res: Option<u64>,
    pub pitch_md: Option<i64>,
    pub yaw_md: Option<i64>,
}

impl MapViewChange {
    pub fn with_center(self, v: Coord) -> (r: MapViewChange)
        ensures
            r == (MapViewChange { center: Some(v), ..self }),
    {
        MapViewChange { center: Some(v), ..self }
    }

    pub fn with_zoom_res(self, v: u64) -> (r: MapViewChange)
        ensures
            r == (MapViewChange { zoom_res: Some(v), ..self }),
    {
        MapViewChange { zoom_res: Some(v), ..self }
    }

    pub fn with_pitch(self, v: i64) -> (r: MapViewChange)
        ensures
            r == (MapViewChange { pitch_md: Some(v), ..self }),
    {
        MapViewChange { pitch_md: Some(v), ..self }
    }

    pub fn with_yaw(self, v: i64) -> (r: MapViewChange)
        ensures
            r == (MapViewChange { yaw_md: Some(v), ..self }),
    {
        MapViewChange { yaw_md: Some(v), ..self }
    }
}

/// The live view: centre, continuous zoom resolution, the discrete zoom it
/// maps to, pitch and yaw, the pixel ratio of the canvas, the view-bounds
/// quadrilateral and the version counters that gate its recomputation.
#[derive(Clone, Debug)]
pub struct MapState {
    pub center: Coord,
    pub map_res_num: u32,
    pub map_res_den: u32,
    pub pitch_md: i64,
    pub yaw_md: i64,
    pub zoom: usize,
    pub zoom_res: u64,
    pub view_bounds: QuadCoords,
    pub view_bounds_seq: u64,
    pub view_seq: u64,
}

impl MapState {
    pub open spec fn wf(&self) -> bool {
        &&& in_coord_range(self.center)
        &&& in_coord_range(self.view_bounds.lt)
        &&& in_coord_range(self.view_bounds.lb)
        &&& in_coord_range(self.view_bounds.rt)
        &&& in_coord_range(self.view_bounds.rb)
        &&& self.map_res_den >= 1
    }

    /// The initial view for the given options.
    pub fn new(options: &MapOptions) -> (r: MapState)
        requires
            options.wf(),
        ensures
            r.wf(),
            r.center == options.center,
            r.zoom == options.zoom,
            r.zoom_res == options.tiling.spec_resolution(options.zoom as int),
            r.pitch_md == options.pitch_md,
            r.yaw_md == options.yaw_md,
            r.view_seq == 1,
            r.view_bounds_seq == 0,
    {
        let zoom_res = options.tiling.get_resolution(options.zoom);
        MapState {
            center: options.center,
            map_res_num: 1,
            map_res_den: 1,
            pitch_md: options.pitch_md,
            yaw_md: options.yaw_md,
            zoom: options.zoom,
            zoom_res,
            view_bounds: QuadCoords::from_bbox(
                &Bbox { xmin: -1, ymin: -1, xmax: 1, ymax: 1 },
            ),
            view_bounds_seq: 0,
            view_seq: 1,
        }
    }

    /// Moves the centre and bumps the view version.
    pub fn set_center(&mut self, center: Coord)
        requires
            old(self).wf(),
            in_coord_range(center),
            old(self).view_seq < u64::MAX,
        ensures
            final(self).wf(),
            *final(self) == (MapState {
                center,
                view_seq: (old(self).view_seq + 1) as u64,
                ..*old(self)
            }),
    {
        self.center = center;
        self.view_seq = self.view_seq + 1;
    }

    /// Sets pitch and yaw and bumps the view version.
    pub fn set_pitch_yaw(&mut self, pitch_md: i64, yaw_md: i64)
        requires
            old(self).wf(),
            old(self).view_seq < u64::MAX,
        ensures
            final(self).wf(),
            *final(self) == (MapState {
                pitch_md,
                yaw_md,
                view_seq: (old(self).view_seq + 1) as u64,
                ..*old(self)
            }),
    {
        self.pitch_md = pitch_md;
        self.yaw_md = yaw_md;
        self.view_seq = self.view_seq + 1;
    }

    /// Records the canvas pixel ratio after a resize: tile pixels over the
    /// smaller canvas side. Bumps the view version.
    pub fn set_canvas_ratio(&mut self, tile_size: u32, width: u32, height: u32)
        requires
            old(self).wf(),
            old(self).view_seq < u64::MAX,
            width >= 1,
            height >= 1,
        ensures
            final(self).wf(),
            final(self).map_res_num == tile_size,
            final(self).map_res_den == if width <= height {
                width
            } else {
                height
            },
            final(self).view_seq == old(self).view_seq + 1,
            final(self).center == old(self).center,
            final(self).zoom == old(self).zoom,
            final(self).zoom_res == old(self).zoom_res,
            final(self).view_bounds == old(self).view_bounds,
            final(self).view_bounds_seq == old(self).view_bounds_seq,
            final(self).pitch_md == old(self).pitch_md,
            final(self).yaw_md == old(self).yaw_md,
    {
        self.map_res_num = tile_size;
        self.map_res_den = if width <= height {
            width
        } else {
            height
        };
        self.view_seq = self.view_seq + 1;
    }

    /// The new zoom resolution under the zoom window: clamped into the
    /// window unless an animation is driving it through.
    pub open spec fn spec_clamped_res(res: int, res_min: u64, res_max: u64) -> u64 {
        if res < res_min as int {
            res_min
        } else if res > res_max as int {
            res_max
        } else {
            res as u64
        }
    }

    /// Sets the zoom resolution, clamped to the window given by
    /// `zoom_min`/`zoom_max` of the options unless `animating`; recomputes
    /// the discrete zoom level when asked to. Bumps the view version.
    pub fn set_zoom_res(
        &mut self,
        zoom_res: u64,
        update_zoom: bool,
        options: &MapOptions,
        animating: bool,
    )
        requires
            old(self).wf(),
            options.wf(),
            old(self).view_seq < u64::MAX,
        ensures
            final(self).wf(),
            final(self).zoom_res == if animating {
                zoom_res
            } else {
                MapState::spec_clamped_res(
                    zoom_res as int,
                    options.tiling.spec_resolution(options.zoom_max as int),
                    options.tiling.spec_resolution(options.zoom_min as int),
                )
            },
            final(self).view_seq == old(self).view_seq + 1,
            final(self).center == old(self).center,
            final(self).pitch_md == old(self).pitch_md,
            final(self).yaw_md == old(self).yaw_md,
            final(self).map_res_num == old(self).map_res_num,
            final(self).map_res_den == old(self).map_res_den,
            final(self).view_bounds == old(self).view_bounds,
            final(self).view_bounds_seq == old(self).view_bounds_seq,
            update_zoom ==> options.tiling.is_closest_lower_zoom(
                final(self).zoom_res,
                final(self).zoom as int,
            ),
            !update_zoom ==> final(self).zoom == old(self).zoom,
    {
        let res_max = options.tiling.get_resolution(options.zoom_min);
        let res_min = options.tiling.get_resolution(options.zoom_max);
        let new_res = if animating {
            zoom_res
        } else {
            if zoom_res < res_min {
                res_min
            } else if zoom_res > res_max {
                res_max
            } else {
                zoom_res
            }
        };
        self.zoom_res = new_res;
        if update_zoom {
            self.zoom = options.tiling.get_closest_lower_zoom(new_res);
        }
        self.view_seq = self.view_seq + 1;
    }

    /// The centre after zooming about an anchor: the anchor keeps its
    /// screen position, so the centre moves along the anchor-centre line,
    /// scaled by the resolution ratio (quotients rounded toward negative
    /// infinity, the result saturated to the coordinate range).
    pub open spec fn zoomed_center(anchor: Coord, center: Coord, r1: u64, r0: u64) -> Coord {
        Coord {
            x: clamp_coord_int(anchor.x + ((center.x - anchor.x) * r1) / (r0 as int)),
            y: clamp_coord_int(anchor.y + ((center.y - anchor.y) * r1) / (r0 as int)),
        }
    }

    /// The centre after one rubber-band step toward `home`, moved by the
    /// fraction `s / 65536`.
    pub open spec fn eased_center(center: Coord, home: Coord, s: int) -> Coord {
        Coord {
            x: clamp_coord_int(center.x + ((home.x - center.x) * s) / 65536),
            y: clamp_coord_int(center.y + ((home.y - center.y) * s) / 65536),
        }
    }

    /// The raw resolution that a zoom step by `num / den` asks for.
    pub open spec fn spec_zoom_target_res(zoom_res: u64, num: u32, den: u32) -> int {
        ((zoom_res as int) * (den as int)) / (num as int)
    }

    /// Zooms about a fixed map-plane anchor by the factor `num / den`
    /// (above one zooms in). The resolution is clamped to the zoom window;
    /// while it changes, the centre is displaced so the anchor keeps its
    /// screen position. Zooming further out while already at the outer
    /// limit instead eases the centre toward the configured home centre by
    /// the square root of the remaining factor. Bumps the view version.
    pub fn zoom_around(&mut self, coord: &Coord, num: u32, den: u32, options: &MapOptions)
        requires
            old(self).wf(),
            options.wf(),
            num >= 1,
            den >= 1,
            in_coord_range(*coord),
            old(self).zoom_res >= 1,
            old(self).view_seq < u64::MAX,
        ensures
            final(self).wf(),
            final(self).view_seq == old(self).view_seq + 1,
            final(self).zoom_res == MapState::spec_clamped_res(
                MapState::spec_zoom_target_res(old(self).zoom_res, num, den),
                options.tiling.spec_resolution(options.zoom_max as int),
                options.tiling.spec_resolution(options.zoom_min as int),
            ),
            final(self).zoom_res >= 1,
            final(self).zoom_res != old(self).zoom_res ==> {
                &&& final(self).center == MapState::zoomed_center(
                    *coord,
                    old(self).center,
                    final(self).zoom_res,
                    old(self).zoom_res,
                )
                &&& options.tiling.is_closest_lower_zoom(
                    final(self).zoom_res,
                    final(self).zoom as int,
                )
            },
            final(self).zoom_res == old(self).zoom_res ==> final(self).zoom == old(self).zoom,
            (final(self).zoom_res == old(self).zoom_res && final(self).zoom_res
                == options.tiling.spec_resolution(options.zoom_min as int) && num < den) ==> {
                exists|s: int|
                    {
                        &&& #[trigger] (s * s) <= ((den - num) as int * 0x1_0000_0000) / (
                        den as int)
                        &&& ((den - num) as int * 0x1_0000_0000) / (den as int) < (s + 1) * (s
                            + 1)
                        &&& s >= 0
                        &&& final(self).center == MapState::eased_center(
                            old(self).center,
                            options.center,
                            s,
                        )
                    }
            },
            (final(self).zoom_res == old(self).zoom_res && !(final(self).zoom_res
                == options.tiling.spec_resolution(options.zoom_min as int) && num < den))
                ==> final(self).center == old(self).center,
            final(self).pitch_md == old(self).pitch_md,
            final(self).yaw_md == old(self).yaw_md,
            final(self).map_res_num == old(self).map_res_num,
            final(self).map_res_den == old(self).map_res_den,
            final(self).view_bounds == old(self).view_bounds,
            final(self).view_bounds_seq == old(self).view_bounds_seq,
    {
        let res_max = options.tiling.get_resolution(options.zoom_min);
        let res_min = options.tiling.get_resolution(options.zoom_max);
        proof {
            options.tiling.lemma_resolution_bounds(
                options.tiling.clamped_zoom(options.zoom_min as int),
            );
            options.tiling.lemma_resolution_bounds(
                options.tiling.clamped_zoom(options.zoom_max as int),
            );
        }
        proof {
            assert((self.zoom_res as int) * (den as int) <= 0x1_0000_0000_0000_0000_0000_0000)
                by (nonlinear_arith)
                requires
                    self.zoom_res <= 0xFFFF_FFFF_FFFF_FFFFu64,
                    den <= 0xFFFF_FFFFu32,
            ;
        }
        let raw: u128 = ((self.zoom_res as u128) * (den as u128)) / (num as u128);
        let new_res: u64 = if raw < (res_min as u128) {
            res_min
        } else if raw > (res_max as u128) {
            res_max
        } else {
            raw as u64
        };
        let old_res = self.zoom_res;
        self.zoom_res = new_res;
        if new_res != old_res {
            self.zoom = options.tiling.get_closest_lower_zoom(new_res);
            proof {
                let bb: int = 0x8000_0000_0000_0000;
                let rr: int = 0x1000_0000_0000_0000;
                assert(((self.center.x as int) - (coord.x as int)) * (new_res as int) <= bb * rr
                    && ((self.center.x as int) - (coord.x as int)) * (new_res as int) >= -(bb
                    * rr) && ((self.center.y as int) - (coord.y as int)) * (new_res as int)
                    <= bb * rr && ((self.center.y as int) - (coord.y as int)) * (new_res as int)
                    >= -(bb * rr)) by (nonlinear_arith)
                    requires
                        bb == 0x8000_0000_0000_0000,
                        rr == 0x1000_0000_0000_0000,
                        -bb <= (self.center.x as int) - (coord.x as int) <= bb,
                        -bb <= (self.center.y as int) - (coord.y as int) <= bb,
                        0 <= new_res as int <= rr,
                ;
            }
            let dx = ((self.center.x as i128) - (coord.x as i128)) * (new_res as i128);
            let dy = ((self.center.y as i128) - (coord.y as i128)) * (new_res as i128);
            let sx = crate::tiling::div_floor_i128(dx, old_res);
            let sy = crate::tiling::div_floor_i128(dy, old_res);
            let cx = clamp_coord_exec((coord.x as i128) + sx);
            let cy = clamp_coord_exec((coord.y as i128) + sy);
            self.center = Coord { x: cx, y: cy };
        } else if new_res == res_max && num < den {
            let scaled: u128 = ((den - num) as u128) * 0x1_0000_0000u128;
            proof {
                assert(scaled < (den as u128) * 0x1_0000_0000u128) by (nonlinear_arith)
                    requires
                        scaled == ((den - num) as int) * 0x1_0000_0000,
                        ((den - num) as int) < (den as int),
                ;
                vstd::arithmetic::div_mod::lemma_multiply_divide_lt(
                    scaled as int,
                    0x1_0000_0000,
                    den as int,
                );
            }
            let frac: u64 = (scaled / (den as u128)) as u64;
            let s = isqrt_u64(frac);
            proof {
                assert((s as int) * (s as int) <= frac as int);
                assert((frac as int) < ((s as int + 1) * (s as int + 1)));
                assert(s <= 0x1_0000_0000) by (nonlinear_arith)
                    requires
                        (s as int) * (s as int) <= frac,
                        frac <= 0x1_0000_0000_0000_0000u128 - 1,
                ;
            }
            proof {
                let bb: int = 0x8000_0000_0000_0000;
                let ss: int = 0x1_0000_0000;
                assert(((options.center.x as int) - (self.center.x as int)) * (s as int) <= bb
                    * ss && ((options.center.x as int) - (self.center.x as int)) * (s as int)
                    >= -(bb * ss) && ((options.center.y as int) - (self.center.y as int)) * (
                s as int) <= bb * ss && ((options.center.y as int) - (self.center.y as int)) * (
                s as int) >= -(bb * ss)) by (nonlinear_arith)
                    requires
                        bb == 0x8000_0000_0000_0000,
                        ss == 0x1_0000_0000,
                        -bb <= (options.center.x as int) - (self.center.x as int) <= bb,
                        -bb <= (options.center.y as int) - (self.center.y as int) <= bb,
                        0 <= s as int <= ss,
                ;
            }
            let ex = ((options.center.x as i128) - (self.center.x as i128)) * (s as i128);
            let ey = ((options.center.y as i128) - (self.center.y as i128)) * (s as i128);
            let sx = crate::tiling::div_floor_i128(ex, 65536);
            let sy = crate::tiling::div_floor_i128(ey, 65536);
            let cx = clamp_coord_exec((self.center.x as i128) + sx);
            let cy = clamp_coord_exec((self.center.y as i128) + sy);
            self.center = Coord { x: cx, y: cy };
            proof {
                assert(self.center == MapState::eased_center(
                    old(self).center,
                    options.center,
                    s as int,
                ));
            }
        }
        self.view_seq = self.view_seq + 1;
    }
}

/// The integer square root: the largest value whose square is at most `v`.
pub fn isqrt_u64(v: u64) -> (r: u64)
    ensures
        (r as int) * (r as int) <= v as int,
        (v as int) < ((r as int + 1) * (r as int + 1)),
{
    let mut lo: u64 = 0;
    let mut hi: u64 = if v < 0x1_0000_0000 {
        v
    } else {
        0x1_0000_0000
    };
    proof {
        assert((0x1_0000_0000i128 + 1) * (0x1_0000_0000i128 + 1) > v as i128)
            by (nonlinear_arith)
            requires
                v <= 0xFFFF_FFFF_FFFF_FFFFu64,
        ;
        if v < 0x1_0000_0000 {
            assert((v as int + 1) * (v as int + 1) > v as int) by (nonlinear_arith);
        }
    }
    while lo < hi
        invariant
            lo <= hi <= 0x1_0000_0000,
            (lo as int) * (lo as int) <= v as int,
            (hi as int + 1) * (hi as int + 1) > v as int,
        decreases hi - lo,
    {
        let mid = lo + (hi - lo + 1) / 2;
        proof {
            assert((mid as int) * (mid as int) <= 0x1_0000_0000_0000_0000) by (nonlinear_arith)
                requires
                    mid <= 0x1_0000_0000u64,
        ;
        }
        let sq: u128 = (mid as u128) * (mid as u128);
        if sq <= (v as u128) {
            lo = mid;
        } else {
            proof {
                assert((mid as int - 1 + 1) * (mid as int - 1 + 1) > v as int);
            }
            hi = mid - 1;
        }
    }
    lo
}

/// After `zoom_around` with an unsaturated resolution, the anchor sits at
/// the same screen offset from the centre as before: the pre-zoom offset
/// `(anchor - center) / r0` equals the post-zoom offset
/// `(anchor - center') / r1`, stated cross-multiplied. Exact whenever the
/// displacement `(center - anchor) * r1` is a whole multiple of `r0` and
/// the new centre needs no saturation.
pub proof fn lemma_zoom_around_fixed_point(anchor: Coord, center: Coord, r1: u64, r0: u64)
    requires
        r0 >= 1,
        r1 >= 1,
        ((center.x - anchor.x) * r1) % (r0 as int) == 0,
        ((center.y - anchor.y) * r1) % (r0 as int) == 0,
        -(COORD_LIMIT as int) <= anchor.x + ((center.x - anchor.x) * r1) / (r0 as int),
        anchor.x + ((center.x - anchor.x) * r1) / (r0 as int) <= COORD_LIMIT as int,
        -(COORD_LIMIT as int) <= anchor.y + ((center.y - anchor.y) * r1) / (r0 as int),
        anchor.y + ((center.y - anchor.y) * r1) / (r0 as int) <= COORD_LIMIT as int,
    ensures
        ({
            let c1 = MapState::zoomed_center(anchor, center, r1, r0);
            &&& (anchor.x - c1.x) * r0 == (anchor.x - center.x) * r1
            &&& (anchor.y - c1.y) * r0 == (anchor.y - center.y) * r1
        }),
{
    let c1 = MapState::zoomed_center(anchor, center, r1, r0);
    let dx: int = (center.x - anchor.x) * r1;
    let dy: int = (center.y - anchor.y) * r1;
    vstd::arithmetic::div_mod::lemma_fundamental_div_mod(dx, r0 as int);
    vstd::arithmetic::div_mod::lemma_fundamental_div_mod(dy, r0 as int);
    assert(c1.x == anchor.x + dx / (r0 as int));
    assert((dx / (r0 as int)) * (r0 as int) == dx) by (nonlinear_arith)
        requires
            dx == (r0 as int) * (dx / (r0 as int)) + dx % (r0 as int),
            dx % (r0 as int) == 0,
    ;
    assert((dy / (r0 as int)) * (r0 as int) == dy) by (nonlinear_arith)
        requires
            dy == (r0 as int) * (dy / (r0 as int)) + dy % (r0 as int),
            dy % (r0 as int) == 0,
    ;
    assert((anchor.x - c1.x) * r0 == (-(dx / (r0 as int))) * (r0 as int)) by (nonlinear_arith)
        requires
            c1.x == anchor.x + dx / (r0 as int),
    ;
    assert((anchor.y - c1.y) * r0 == (-(dy / (r0 as int))) * (r0 as int)) by (nonlinear_arith)
        requires
            c1.y == anchor.y + dy / (r0 as int),
    ;
    assert((-(dx / (r0 as int))) * (r0 as int) == -((dx / (r0 as int)) * (r0 as int)))
        by (nonlinear_arith);
    assert((-(dy / (r0 as int))) * (r0 as int) == -((dy / (r0 as int)) * (r0 as int)))
        by (nonlinear_arith);
    assert((anchor.x - center.x) * r1 == -dx) by (nonlinear_arith)
        requires
            dx == (center.x - anchor.x) * r1,
    ;
    assert((anchor.y - center.y) * r1 == -dy) by (nonlinear_arith)
        requires
            dy == (center.y - anchor.y) * r1,
    ;
}


/// One view corner: the centre plus a yaw-rotated pixel offset, widened by
/// the pitch look-ahead factor and scaled to map units. The rotation and
/// factor carry sixteen fraction bits; quotients round toward negative
/// infinity and the corner saturates to the coordinate range.
pub open spec fn view_corner(
    center: Coord,
    px: int,
    py: int,
    sin_q16: i64,
    cos_q16: i64,
    factor_q16: u64,
    zoom_res: u64,
    num: u32,
    den: u32,
) -> Coord {
    let rx = px * cos_q16 - py * sin_q16;
    let ry = px * sin_q16 + py * cos_q16;
    let tx = (rx * factor_q16) / 0x1_0000_0000;
    let ty = (ry * factor_q16) / 0x1_0000_0000;
    Coord {
        x: clamp_coord_int(center.x + (tx * zoom_res * num) / (den as int)),
        y: clamp_coord_int(center.y + (ty * zoom_res * num) / (den as int)),
    }
}

/// Bounds that make the corner arithmetic exact in 128 bits.
pub open spec fn view_corner_args_ok(
    px: int,
    py: int,
    sin_q16: i64,
    cos_q16: i64,
    factor_q16: u64,
    zoom_res: u64,
) -> bool {
    &&& -0x1_0000 <= px <= 0x1_0000
    &&& -0x1_0000 <= py <= 0x1_0000
    &&& -0x1_0000 <= sin_q16 <= 0x1_0000
    &&& -0x1_0000 <= cos_q16 <= 0x1_0000
    &&& factor_q16 <= 0x4_0000
    &&& 1 <= zoom_res <= 0x1000_0000_0000_0000
}

fn view_corner_exec(
    center: Coord,
    px: i64,
    py: i64,
    sin_q16: i64,
    cos_q16: i64,
    factor_q16: u64,
    zoom_res: u64,
    num: u32,
    den: u32,
) -> (r: Coord)
    requires
        in_coord_range(center),
        view_corner_args_ok(px as int, py as int, sin_q16, cos_q16, factor_q16, zoom_res),
        den >= 1,
    ensures
        r == view_corner(
            center,
            px as int,
            py as int,
            sin_q16,
            cos_q16,
            factor_q16,
            zoom_res,
            num,
            den,
        ),
        in_coord_range(r),
{
    proof {
        assert((px as int) * (cos_q16 as int) <= 0x1_0000_0000 && (px as int) * (cos_q16 as int)
            >= -0x1_0000_0000 && (py as int) * (sin_q16 as int) <= 0x1_0000_0000 && (py as int)
            * (sin_q16 as int) >= -0x1_0000_0000 && (px as int) * (sin_q16 as int)
            <= 0x1_0000_0000 && (px as int) * (sin_q16 as int) >= -0x1_0000_0000 && (py as int)
            * (cos_q16 as int) <= 0x1_0000_0000 && (py as int) * (cos_q16 as int)
            >= -0x1_0000_0000) by (nonlinear_arith)
            requires
                -0x1_0000 <= px as int <= 0x1_0000,
                -0x1_0000 <= py as int <= 0x1_0000,
                -0x1_0000 <= sin_q16 <= 0x1_0000,
                -0x1_0000 <= cos_q16 <= 0x1_0000,
        ;
    }
    let rx: i128 = (px as i128) * (cos_q16 as i128) - (py as i128) * (sin_q16 as i128);
    let ry: i128 = (px as i128) * (sin_q16 as i128) + (py as i128) * (cos_q16 as i128);
    proof {
        assert(rx * (factor_q16 as int) <= 0x2_0000_0000 * 0x4_0000 && rx * (factor_q16 as int)
            >= -(0x2_0000_0000 * 0x4_0000) && ry * (factor_q16 as int) <= 0x2_0000_0000
            * 0x4_0000 && ry * (factor_q16 as int) >= -(0x2_0000_0000 * 0x4_0000))
            by (nonlinear_arith)
            requires
                -0x2_0000_0000 <= rx <= 0x2_0000_0000,
                -0x2_0000_0000 <= ry <= 0x2_0000_0000,
                0 <= factor_q16 as int <= 0x4_0000,
        ;
    }
    let fx: i128 = rx * (factor_q16 as i128);
    let fy: i128 = ry * (factor_q16 as i128);
    let tx: i128 = crate::tiling::div_floor_i128(fx, 0x1_0000_0000);
    let ty: i128 = crate::tiling::div_floor_i128(fy, 0x1_0000_0000);
    proof {
        vstd::arithmetic::div_mod::lemma_div_is_ordered(fx as int, 0x8_0000_0000_0000, 0x1_0000_0000);
        vstd::arithmetic::div_mod::lemma_div_is_ordered(-0x8_0000_0000_0000, fx as int, 0x1_0000_0000);
        vstd::arithmetic::div_mod::lemma_div_is_ordered(fy as int, 0x8_0000_0000_0000, 0x1_0000_0000);
        vstd::arithmetic::div_mod::lemma_div_is_ordered(-0x8_0000_0000_0000, fy as int, 0x1_0000_0000);
        assert(-0x8_0000 <= tx <= 0x8_0000);
        assert(-0x8_0000 <= ty <= 0x8_0000);
        assert(tx * (zoom_res as int) <= 0x8_0000i128 * 0x1000_0000_0000_0000 && tx * (
        zoom_res as int) >= -(0x8_0000i128 * 0x1000_0000_0000_0000) && ty * (zoom_res as int)
            <= 0x8_0000i128 * 0x1000_0000_0000_0000 && ty * (zoom_res as int) >= -(0x8_0000i128
            * 0x1000_0000_0000_0000) && tx * (zoom_res as int) * (num as int) <= 0x8_0000i128
            * 0x1000_0000_0000_0000 * 0x1_0000_0000 && tx * (zoom_res as int) * (num as int)
            >= -(0x8_0000i128 * 0x1000_0000_0000_0000 * 0x1_0000_0000) && ty * (
        zoom_res as int) * (num as int) <= 0x8_0000i128 * 0x1000_0000_0000_0000 * 0x1_0000_0000
            && ty * (zoom_res as int) * (num as int) >= -(0x8_0000i128 * 0x1000_0000_0000_0000
            * 0x1_0000_0000)) by (nonlinear_arith)
            requires
                -0x8_0000 <= tx <= 0x8_0000,
                -0x8_0000 <= ty <= 0x8_0000,
                1 <= zoom_res as int <= 0x1000_0000_0000_0000,
                0 <= num as int && (num as int) < 0x1_0000_0000,
        ;
    }
    let gx: i128 = tx * (zoom_res as i128) * (num as i128);
    let gy: i128 = ty * (zoom_res as i128) * (num as i128);
    let hx: i128 = crate::tiling::div_floor_i128(gx, den as u64);
    let hy: i128 = crate::tiling::div_floor_i128(gy, den as u64);
    let cx = clamp_coord_exec((center.x as i128) + hx);
    let cy = clamp_coord_exec((center.y as i128) + hy);
    Coord { x: cx, y: cy }
}

impl MapState {
    /// Recomputes the view-bounds quadrilateral when the view has changed
    /// since the last computation: the four canvas corners, yaw-rotated and
    /// widened by the pitch look-ahead factor, in map units around the
    /// centre. `hw_px`/`hh_px` are the half width and height of the canvas;
    /// the sine and cosine of the yaw and the look-ahead factor are handed
    /// in by the embedding.
    pub fn update_view_bounds(
        &mut self,
        hw_px: u32,
        hh_px: u32,
        sin_q16: i64,
        cos_q16: i64,
        factor_q16: u64,
    )
        requires
            old(self).wf(),
            hw_px <= 0x1_0000,
            hh_px <= 0x1_0000,
            -0x1_0000 <= sin_q16 <= 0x1_0000,
            -0x1_0000 <= cos_q16 <= 0x1_0000,
            factor_q16 <= 0x4_0000,
            1 <= old(self).zoom_res <= 0x1000_0000_0000_0000,
        ensures
            final(self).wf(),
            old(self).view_bounds_seq == old(self).view_seq ==> *final(self) == *old(self),
            old(self).view_bounds_seq != old(self).view_seq ==> {
                let hw = hw_px as int;
                let hh = hh_px as int;
                &&& *final(self) == (MapState {
                    view_bounds: final(self).view_bounds,
                    view_bounds_seq: old(self).view_seq,
                    ..*old(self)
                })
                &&& final(self).view_bounds.lt == view_corner(
                    old(self).center,
                    -hw,
                    hh,
                    sin_q16,
                    cos_q16,
                    factor_q16,
                    old(self).zoom_res,
                    old(self).map_res_num,
                    old(self).map_res_den,
                )
                &&& final(self).view_bounds.lb == view_corner(
                    old(self).center,
                    -hw,
                    -hh,
                    sin_q16,
                    cos_q16,
                    factor_q16,
                    old(self).zoom_res,
                    old(self).map_res_num,
                    old(self).map_res_den,
                )
                &&& final(self).view_bounds.rb == view_corner(
                    old(self).center,
                    hw,
                    -hh,
                    sin_q16,
                    cos_q16,
                    factor_q16,
                    old(self).zoom_res,
                    old(self).map_res_num,
                    old(self).map_res_den,
                )
                &&& final(self).view_bounds.rt == view_corner(
                    old(self).center,
                    hw,
                    hh,
                    sin_q16,
                    cos_q16,
                    factor_q16,
                    old(self).zoom_res,
                    old(self).map_res_num,
                    old(self).map_res_den,
                )
            },
    {
        if self.view_bounds_seq == self.view_seq {
            return ;
        }
        let hw = hw_px as i64;
        let hh = hh_px as i64;
        let lt = view_corner_exec(
            self.center,
            -hw,
            hh,
            sin_q16,
            cos_q16,
            factor_q16,
            self.zoom_res,
            self.map_res_num,
            self.map_res_den,
        );
        let lb = view_corner_exec(
            self.center,
            -hw,
            -hh,
            sin_q16,
            cos_q16,
            factor_q16,
            self.zoom_res,
            self.map_res_num,
            self.map_res_den,
        );
        let rb = view_corner_exec(
            self.center,
            hw,
            -hh,
            sin_q16,
            cos_q16,
            factor_q16,
            self.zoom_res,
            self.map_res_num,
            self.map_res_den,
        );
        let rt = view_corner_exec(
            self.center,
            hw,
            hh,
            sin_q16,
            cos_q16,
            factor_q16,
            self.zoom_res,
            self.map_res_num,
            self.map_res_den,
        );
        self.view_bounds = QuadCoords { lt, lb, rt, rb };
        self.view_bounds_seq = self.view_seq;
    }
}

/// The map-plane point under a screen pixel for the flat camera (zero
/// pitch and yaw): the centre plus the pixel offset from the screen
/// centre, scaled by the map resolution `zoom_res * num / den` (quotients
/// rounded toward negative infinity, saturated to the coordinate range).
pub open spec fn spec_screen_to_map_flat(
    s: MapState,
    sx: int,
    sy: int,
    width: int,
    height: int,
) -> Coord {
    let k = (s.zoom_res as int) * (s.map_res_num as int);
    let d = s.map_res_den as int;
    Coord {
        x: clamp_coord_int(s.center.x + ((sx - width / 2) * k) / d),
        y: clamp_coord_int(s.center.y + ((height / 2 - sy) * k) / d),
    }
}

/// The screen pixel over a map-plane point for the flat camera: the
/// algebraic inverse of `spec_screen_to_map_flat`.
pub open spec fn spec_map_to_screen_flat(
    s: MapState,
    q: Coord,
    width: int,
    height: int,
) -> (i64, i64) {
    let k = (s.zoom_res as int) * (s.map_res_num as int);
    let d = s.map_res_den as int;
    (
        clamp_coord_int(width / 2 + ((q.x - s.center.x) * d) / k),
        clamp_coord_int(height / 2 - ((q.y - s.center.y) * d) / k),
    )
}

impl MapState {
    /// Bounds under which the flat projection's arithmetic is exact.
    pub open spec fn flat_projection_args_ok(&self, width: int, height: int) -> bool {
        &&& self.wf()
        &&& 1 <= self.zoom_res <= 0x1000_0000_0000_0000
        &&& 1 <= self.map_res_num
        &&& 1 <= width <= 0x2_0000
        &&& 1 <= height <= 0x2_0000
    }

    /// The map-plane point under a screen pixel, for the flat camera.
    pub fn screen_to_map_flat(&self, sx: i64, sy: i64, width: u32, height: u32) -> (r: Coord)
        requires
            self.flat_projection_args_ok(width as int, height as int),
            -0x1_0000_0000 <= sx <= 0x1_0000_0000,
            -0x1_0000_0000 <= sy <= 0x1_0000_0000,
        ensures
            r == spec_screen_to_map_flat(
                *self,
                sx as int,
                sy as int,
                width as int,
                height as int,
            ),
            in_coord_range(r),
    {
        proof {
            assert((self.zoom_res as int) * (self.map_res_num as int) <= 0x1000_0000_0000_0000i128
                * 0x1_0000_0000 && (self.zoom_res as int) * (self.map_res_num as int) >= 1)
                by (nonlinear_arith)
                requires
                    1 <= self.zoom_res as int <= 0x1000_0000_0000_0000i128,
                    1 <= self.map_res_num as int <= 0x1_0000_0000i128,
            ;
        }
        let k: i128 = (self.zoom_res as i128) * (self.map_res_num as i128);
        let off_x: i128 = (sx as i128) - ((width / 2) as i128);
        let off_y: i128 = (((height / 2) as i128)) - (sy as i128);
        proof {
            assert(off_x * k <= 0x3_0000_0000i128 * (0x1000_0000_0000_0000i128 * 0x1_0000_0000)
                && off_x * k >= -(0x3_0000_0000i128 * (0x1000_0000_0000_0000i128
                * 0x1_0000_0000)) && off_y * k <= 0x3_0000_0000i128 * (0x1000_0000_0000_0000i128
                * 0x1_0000_0000) && off_y * k >= -(0x3_0000_0000i128 * (
            0x1000_0000_0000_0000i128 * 0x1_0000_0000))) by (nonlinear_arith)
                requires
                    -0x3_0000_0000i128 <= off_x <= 0x3_0000_0000i128,
                    -0x3_0000_0000i128 <= off_y <= 0x3_0000_0000i128,
                    1 <= k <= 0x1000_0000_0000_0000i128 * 0x1_0000_0000,
            ;
        }
        let gx = crate::tiling::div_floor_i128(off_x * k, self.map_res_den as u64);
        let gy = crate::tiling::div_floor_i128(off_y * k, self.map_res_den as u64);
        let cx = clamp_coord_exec((self.center.x as i128) + gx);
        let cy = clamp_coord_exec((self.center.y as i128) + gy);
        Coord { x: cx, y: cy }
    }

    /// The screen pixel over a map-plane point, for the flat camera.
    pub fn map_to_screen_flat(&self, q: &Coord, width: u32, height: u32) -> (r: (i64, i64))
        requires
            self.flat_projection_args_ok(width as int, height as int),
        ensures
            r == spec_map_to_screen_flat(*self, *q, width as int, height as int),
    {
        proof {
            assert((self.zoom_res as int) * (self.map_res_num as int) <= 0x1000_0000_0000_0000i128
                * 0x1_0000_0000 && (self.zoom_res as int) * (self.map_res_num as int) >= 1)
                by (nonlinear_arith)
                requires
                    1 <= self.zoom_res as int <= 0x1000_0000_0000_0000i128,
                    1 <= self.map_res_num as int <= 0x1_0000_0000i128,
            ;
        }
        let k: i128 = (self.zoom_res as i128) * (self.map_res_num as i128);
        proof {
            let bb: int = 0x1_0000_0000_0000_0000;
            assert(((q.x as int) - (self.center.x as int)) * (self.map_res_den as int) <= bb
                * 0x1_0000_0000 && ((q.x as int) - (self.center.x as int)) * (
            self.map_res_den as int) >= -(bb * 0x1_0000_0000) && ((q.y as int) - (
            self.center.y as int)) * (self.map_res_den as int) <= bb * 0x1_0000_0000 && ((
            q.y as int) - (self.center.y as int)) * (self.map_res_den as int) >= -(bb
                * 0x1_0000_0000)) by (nonlinear_arith)
                requires
                    bb == 0x1_0000_0000_0000_0000,
                    -bb <= (q.x as int) - (self.center.x as int) <= bb,
                    -bb <= (q.y as int) - (self.center.y as int) <= bb,
                    0 <= self.map_res_den as int <= 0x1_0000_0000,
            ;
        }
        let dx: i128 = ((q.x as i128) - (self.center.x as i128)) * (self.map_res_den as i128);
        let dy: i128 = ((q.y as i128) - (self.center.y as i128)) * (self.map_res_den as i128);
        let gx = div_floor_by_i128(dx, k);
        let gy = div_floor_by_i128(dy, k);
        let sx = clamp_coord_exec(((width / 2) as i128) + gx);
        let sy = clamp_coord_exec(((height / 2) as i128) - gy);
        (sx, sy)
    }
}

/// Floor division by a positive 128-bit divisor.
fn div_floor_by_i128(n: i128, d: i128) -> (q: i128)
    requires
        d >= 1,
        d <= 0xFFFF_FFFF_FFFF_FFFFi128 * 0x1_0000_0000,
        -0x4000_0000_0000_0000_0000_0000_0000_0000i128 <= n,
        n <= 0x4000_0000_0000_0000_0000_0000_0000_0000i128 - 1,
    ensures
        q == (n as int) / (d as int),
        n >= 0 ==> 0 <= q <= n,
        n < 0 ==> n <= q <= 0,
{
    if n >= 0 {
        proof {
            vstd::arithmetic::div_mod::lemma_div_nonincreasing(n as int, d as int);
            vstd::arithmetic::div_mod::lemma_div_pos_is_pos(n as int, d as int);
        }
        let qq = (n as u128) / (d as u128);
        qq as i128
    } else {
        let m = (-n) as u128;
        let qq = (m + (d as u128) - 1) / (d as u128);
        proof {
            let s: int = m + (d as u128) - 1;
            let q1: int = s / (d as int);
            let r1: int = s % (d as int);
            vstd::arithmetic::div_mod::lemma_fundamental_div_mod(s, d as int);
            assert(0 <= r1 < d as int) by {
                vstd::arithmetic::div_mod::lemma_mod_division_less_than_divisor(s, d as int);
            }
            assert(q1 >= 0) by {
                vstd::arithmetic::div_mod::lemma_div_pos_is_pos(s, d as int);
            }
            assert(q1 <= m) by (nonlinear_arith)
                requires
                    d >= 1,
                    m >= 1,
                    s == m + d - 1,
                    s == (d as int) * q1 + r1,
                    0 <= r1 < d as int,
                    q1 >= 0,
            ;
            assert(n as int == (d as int) * (-q1) + (d - 1 - r1)) by (nonlinear_arith)
                requires
                    s == (d as int) * q1 + r1,
                    s == m + d - 1,
                    n == -(m as int),
            ;
            vstd::arithmetic::div_mod::lemma_fundamental_div_mod_converse(
                n as int,
                d as int,
                -q1,
                d - 1 - r1,
            );
        }
        -(qq as i128)
    }
}

/// The flat projections are exact inverses: a screen pixel taken to the
/// map plane and back lands on the same pixel, whenever the pixel offset
/// scales to a whole number of map units and neither conversion saturates.
pub proof fn lemma_flat_projection_round_trip(
    s: MapState,
    sx: int,
    sy: int,
    width: int,
    height: int,
)
    requires
        s.flat_projection_args_ok(width, height),
        ({
            let k = (s.zoom_res as int) * (s.map_res_num as int);
            let d = s.map_res_den as int;
            &&& ((sx - width / 2) * k) % d == 0
            &&& ((height / 2 - sy) * k) % d == 0
            &&& -(COORD_LIMIT as int) <= s.center.x + ((sx - width / 2) * k) / d
            &&& s.center.x + ((sx - width / 2) * k) / d <= COORD_LIMIT as int
            &&& -(COORD_LIMIT as int) <= s.center.y + ((height / 2 - sy) * k) / d
            &&& s.center.y + ((height / 2 - sy) * k) / d <= COORD_LIMIT as int
            &&& -(COORD_LIMIT as int) <= sx <= COORD_LIMIT as int
            &&& -(COORD_LIMIT as int) <= sy <= COORD_LIMIT as int
        }),
    ensures
        ({
            let q = spec_screen_to_map_flat(s, sx, sy, width, height);
            let back = spec_map_to_screen_flat(s, q, width, height);
            back.0 == sx && back.1 == sy
        }),
{
    let k = (s.zoom_res as int) * (s.map_res_num as int);
    let d = s.map_res_den as int;
    assert(k >= 1) by (nonlinear_arith)
        requires
            s.zoom_res >= 1,
            s.map_res_num >= 1,
            k == (s.zoom_res as int) * (s.map_res_num as int),
    ;
    let off_x = sx - width / 2;
    let off_y = height / 2 - sy;
    lemma_exact_scale_round_trip(off_x, k, d);
    lemma_exact_scale_round_trip(off_y, k, d);
    let q = spec_screen_to_map_flat(s, sx, sy, width, height);
    assert(q.x == s.center.x + (off_x * k) / d && q.y == s.center.y + (off_y * k) / d);
    assert((q.x - s.center.x) == (off_x * k) / d && (q.y - s.center.y) == (off_y * k) / d);
}

/// Scaling an offset up by `k / d` exactly and back down by `d / k`
/// returns the offset, whenever `d` divides the scaled value.
proof fn lemma_exact_scale_round_trip(off: int, k: int, d: int)
    requires
        k >= 1,
        d >= 1,
        (off * k) % d == 0,
    ensures
        (((off * k) / d) * d) / k == off,
{
    let g = (off * k) / d;
    vstd::arithmetic::div_mod::lemma_fundamental_div_mod(off * k, d);
    assert(g * d == off * k) by (nonlinear_arith)
        requires
            off * k == d * g + (off * k) % d,
            (off * k) % d == 0,
    ;
    vstd::arithmetic::div_mod::lemma_div_multiples_vanish(off, k);
    assert(k * off == off * k) by (nonlinear_arith);
}

} // verus!
