//! The tiling scheme: a pyramid of zoom levels over a square map extent,
//! each level holding tiles of `tile_size` pixels, with the map-units-per-pixel
//! resolution halving from one level to the next.
//!
//! All lengths are integer map units (the caller picks the unit scale).

use vstd::prelude::*;
use vstd::arithmetic::power2::{pow2, lemma_pow2_adds, lemma_pow2_pos, lemma2_to64, lemma2_to64_rest};
use vstd::arithmetic::mul::lemma_mul_inequality;

use crate::geom::{Bbox, Coord};

verus! {

/// The address of one tile: zoom level, column and row.
#[derive(Clone, Copy, Debug, PartialEq, Eq, Hash, Structural)]
pub struct TileId {
    pub z: usize,
    pub x: i32,
    pub y: i32,
}

/// The largest map extent, in map units, that a `Tiling` accepts.
pub const MAX_MAP_SIZE: u64 = 0x1000_0000_0000_0000;

/// The largest magnitude, in map units, that a tiling origin may have.
pub const MAX_ORIGIN: i64 = 0x1000_0000_0000_0000;

/// A tiling scheme: tile size in pixels, square map extent, map-plane origin
/// (the left-top corner of the zoom-0 world), and the per-zoom resolution
/// table in map units per pixel.
#[derive(Clone, Debug)]
pub struct Tiling {
    pub tile_size: u32,
    pub map_size: u64,
    pub origin_x: i64,
    pub origin_y: i64,
    pub zoom_resolutions: Vec<u64>,
}

impl Tiling {
    /// The resolution table, as a sequence.
    pub open spec fn resolutions(&self) -> Seq<u64> {
        self.zoom_resolutions@
    }

    /// The number of zoom levels.
    pub open spec fn zoom_count(&self) -> int {
        self.resolutions().len() as int
    }

    /// Well-formedness: a non-empty table of at most 31 levels, each
    /// resolution exactly double the next, the finest at least one map unit,
    /// and the whole zoom-0 world no wider than the map extent.
    pub open spec fn wf(&self) -> bool {
        &&& 1 <= self.tile_size
        &&& 1 <= self.zoom_count() <= 31
        &&& (forall|i: int|
            #![trigger self.resolutions()[i], self.resolutions()[i + 1]]
            0 <= i < self.zoom_count() - 1 ==> self.resolutions()[i] == 2 * self.resolutions()[
                i + 1
            ])
        &&& self.resolutions()[self.zoom_count() - 1] >= 1
        &&& self.resolutions()[0] * self.tile_size <= self.map_size
        &&& self.map_size <= MAX_MAP_SIZE
        &&& -(MAX_ORIGIN as int) <= self.origin_x <= MAX_ORIGIN as int
        &&& -(MAX_ORIGIN as int) <= self.origin_y <= MAX_ORIGIN as int
    }

    /// The resolution at `zoom`, with zooms past the table clamped to the
    /// finest entry.
    pub open spec fn spec_resolution(&self, zoom: int) -> u64 {
        if zoom >= self.zoom_count() {
            self.resolutions()[self.zoom_count() - 1]
        } else {
            self.resolutions()[zoom]
        }
    }

    /// Each resolution is double the next: the coarser level's pixels cover
    /// twice the map length.
    pub proof fn lemma_resolution_doubling(&self, i: int)
        requires
            self.wf(),
            0 <= i < self.zoom_count() - 1,
        ensures
            self.spec_resolution(i) == 2 * self.spec_resolution(i + 1),
    {
    }

    /// Resolutions spread apart by powers of two: level `i` is `2^(j - i)`
    /// times as coarse as level `j`.
    pub proof fn lemma_resolution_ratio(&self, i: int, j: int)
        requires
            self.wf(),
            0 <= i <= j < self.zoom_count(),
        ensures
            self.resolutions()[i] as int == (self.resolutions()[j] as int) * (pow2(
                (j - i) as nat,
            ) as int),
        decreases j - i,
    {
        if i == j {
            assert(pow2(0) == 1) by {
                lemma2_to64();
            }
            assert(self.resolutions()[i] as int == (self.resolutions()[j] as int) * (pow2(
                (j - i) as nat,
            ) as int)) by (nonlinear_arith)
                requires
                    i == j,
                    pow2(0) == 1,
            ;
        } else {
            self.lemma_resolution_ratio(i + 1, j);
            assert(pow2((j - i) as nat) == 2 * pow2((j - i - 1) as nat)) by {
                lemma_pow2_adds(1, (j - i - 1) as nat);
                lemma2_to64();
            }
            let a = self.resolutions()[j] as int;
            let p = pow2((j - i - 1) as nat) as int;
            assert(self.resolutions()[i] == 2 * (a * p));
            assert(2 * (a * p) == a * (2 * p)) by (nonlinear_arith);
            assert((pow2((j - i) as nat) as int) == 2 * p);
            assert(self.resolutions()[i] == a * (pow2((j - i) as nat) as int));
        }
    }

    /// The table is strictly decreasing.
    pub proof fn lemma_resolution_decreasing(&self, i: int, j: int)
        requires
            self.wf(),
            0 <= i < j < self.zoom_count(),
        ensures
            self.resolutions()[i] > self.resolutions()[j],
            self.resolutions()[i] >= 2 * self.resolutions()[j],
            self.resolutions()[j] >= 1,
    {
        let last = self.zoom_count() - 1;
        self.lemma_resolution_ratio(i, j);
        self.lemma_resolution_ratio(j, last);
        lemma_pow2_pos((last - j) as nat);
        lemma_pow2_pos((j - i) as nat);
        assert(pow2((j - i) as nat) >= 2) by {
            lemma2_to64();
            if (j - i) > 1 {
                vstd::arithmetic::power2::lemma_pow2_strictly_increases(1, (j - i) as nat);
            }
        }
        assert(self.resolutions()[j] >= 1) by (nonlinear_arith)
            requires
                self.resolutions()[j] as int == (self.resolutions()[last] as int) * (pow2(
                    (last - j) as nat,
                ) as int),
                self.resolutions()[last] >= 1,
                pow2((last - j) as nat) >= 1,
        ;
        assert((self.resolutions()[j] as int) * (pow2((j - i) as nat) as int) >= (
        self.resolutions()[j] as int) * 2) by (nonlinear_arith)
            requires
                self.resolutions()[j] >= 1,
                pow2((j - i) as nat) >= 2,
        ;
    }

    /// Every resolution is positive and fits under the map extent.
    pub proof fn lemma_resolution_bounds(&self, i: int)
        requires
            self.wf(),
            0 <= i < self.zoom_count(),
        ensures
            1 <= self.resolutions()[i],
            self.resolutions()[i] * self.tile_size <= self.map_size,
            self.resolutions()[i] <= self.map_size,
    {
        assert((self.resolutions()[i] as int) * 1 <= (self.resolutions()[i] as int) * (
        self.tile_size as int)) by (nonlinear_arith)
            requires
                self.tile_size >= 1,
                self.resolutions()[i] >= 0,
        ;
        if i < self.zoom_count() - 1 {
            self.lemma_resolution_decreasing(i, self.zoom_count() - 1);
        }
        if i > 0 {
            self.lemma_resolution_decreasing(0, i);
            assert(self.resolutions()[i] * self.tile_size <= self.resolutions()[0]
                * self.tile_size) by {
                lemma_mul_inequality(
                    self.resolutions()[i] as int,
                    self.resolutions()[0] as int,
                    self.tile_size as int,
                );
            }
        }
    }

    /// Builds a tiling of `zooms` levels. The zoom-0 resolution is the
    /// largest exact power-of-two multiple of the finest resolution that
    /// keeps a `tile_size`-pixel world tile within `map_size`, so the table
    /// halves exactly from level to level.
    pub fn new(tile_size: u32, map_size: u64, origin_x: i64, origin_y: i64, zooms: u32) -> (r:
        Tiling)
        requires
            1 <= tile_size,
            1 <= zooms <= 31,
            map_size >= tile_size * pow2((zooms - 1) as nat),
            map_size <= MAX_MAP_SIZE,
            -(MAX_ORIGIN as int) <= origin_x <= MAX_ORIGIN as int,
            -(MAX_ORIGIN as int) <= origin_y <= MAX_ORIGIN as int,
        ensures
            r.wf(),
            r.tile_size == tile_size,
            r.map_size == map_size,
            r.origin_x == origin_x,
            r.origin_y == origin_y,
            r.zoom_count() == zooms as int,
            forall|i: int|
                0 <= i < zooms ==> #[trigger] r.resolutions()[i] == ((map_size as int) / ((
                tile_size as int) * pow2((zooms - 1) as nat))) * pow2((zooms - 1 - i) as nat),
    {
        let world_span = pow2_u64(zooms - 1);
        proof {
            lemma_pow2_pos((zooms - 1) as nat);
            assert((tile_size as u64) * world_span <= map_size);
            assert((tile_size as int) * (world_span as int) >= 1) by (nonlinear_arith)
                requires
                    tile_size >= 1,
                    world_span >= 1,
            ;
        }
        let finest_denom = (tile_size as u64) * world_span;
        let base = map_size / finest_denom;
        proof {
            vstd::arithmetic::div_mod::lemma_fundamental_div_mod(
                map_size as int,
                finest_denom as int,
            );
            assert(base >= 1) by {
                vstd::arithmetic::div_mod::lemma_div_is_ordered(
                    finest_denom as int,
                    map_size as int,
                    finest_denom as int,
                );
                vstd::arithmetic::div_mod::lemma_div_by_self(finest_denom as int);
            }
            // base * tile_size * 2^(zooms-1) <= map_size
            assert(base * finest_denom <= map_size) by {
                vstd::arithmetic::div_mod::lemma_fundamental_div_mod(
                    map_size as int,
                    finest_denom as int,
                );
                assert(map_size % finest_denom >= 0);
            }
        }
        let mut zoom_resolutions: Vec<u64> = Vec::new();
        let mut i: u32 = 0;
        while i < zooms
            invariant
                0 <= i <= zooms,
                1 <= zooms <= 31,
                1 <= tile_size,
                1 <= base,
                base == map_size / finest_denom,
                finest_denom == (tile_size as u64) * pow2((zooms - 1) as nat),
                base * finest_denom <= map_size,
                map_size <= MAX_MAP_SIZE,
                zoom_resolutions@.len() == i as int,
                forall|j: int|
                    0 <= j < i ==> #[trigger] zoom_resolutions@[j] == base * pow2(
                        (zooms - 1 - j) as nat,
                    ),
            decreases zooms - i,
        {
            let p = pow2_u64(zooms - 1 - i);
            proof {
                // base * 2^(zooms-1-i) <= base * 2^(zooms-1) <= base * tile_size * 2^(zooms-1) <= map_size
                lemma_pow2_pos((zooms - 1 - i) as nat);
                lemma_pow2_pos((zooms - 1) as nat);
                assert(pow2((zooms - 1 - i) as nat) <= pow2((zooms - 1) as nat)) by {
                    if i > 0 {
                        vstd::arithmetic::power2::lemma_pow2_strictly_increases(
                            (zooms - 1 - i) as nat,
                            (zooms - 1) as nat,
                        );
                    }
                }
                assert(base * pow2((zooms - 1 - i) as nat) <= base * pow2((zooms - 1) as nat))
                    by {
                    vstd::arithmetic::mul::lemma_mul_left_inequality(
                        base as int,
                        pow2((zooms - 1 - i) as nat) as int,
                        pow2((zooms - 1) as nat) as int,
                    );
                }
                assert(base * pow2((zooms - 1) as nat) <= base * finest_denom) by {
                    assert(pow2((zooms - 1) as nat) <= finest_denom) by {
                        lemma_mul_inequality(
                            1,
                            tile_size as int,
                            pow2((zooms - 1) as nat) as int,
                        );
                    }
                    vstd::arithmetic::mul::lemma_mul_left_inequality(
                        base as int,
                        pow2((zooms - 1) as nat) as int,
                        finest_denom as int,
                    );
                }
            }
            let res_i = base * p;
            zoom_resolutions.push(res_i);
            i = i + 1;
        }
        let r = Tiling { tile_size, map_size, origin_x, origin_y, zoom_resolutions };
        proof {
            assert forall|k: int| 0 <= k < (zooms as int) - 1 implies #[trigger] r.resolutions()[k]
                == 2 * r.resolutions()[k + 1] by {
                assert(pow2((zooms - 1 - k) as nat) == 2 * pow2((zooms - 1 - (k + 1)) as nat))
                    by {
                    lemma_pow2_adds(1, (zooms - 2 - k) as nat);
                    lemma2_to64();
                }
                assert((base as int) * (2 * (pow2((zooms - 2 - k) as nat) as int)) == 2 * ((
                base as int) * (pow2((zooms - 2 - k) as nat) as int))) by (nonlinear_arith);
            }
            assert(r.resolutions()[zooms as int - 1] == base * pow2(0));
            assert(pow2(0) == 1) by {
                lemma2_to64();
            }
            // world bound: res[0] * tile_size == base * 2^(zooms-1) * tile_size <= map_size
            assert(r.resolutions()[0] == base * pow2((zooms - 1) as nat));
            assert(r.resolutions()[0] * tile_size == base * finest_denom) by {
                vstd::arithmetic::mul::lemma_mul_is_associative(
                    base as int,
                    pow2((zooms - 1) as nat) as int,
                    tile_size as int,
                );
                vstd::arithmetic::mul::lemma_mul_is_commutative(
                    pow2((zooms - 1) as nat) as int,
                    tile_size as int,
                );
            }
        }
        r
    }

    /// The default scheme: a full-world square tiling of 256-pixel tiles and
    /// 24 zoom levels, centred on the origin of the map plane.
    pub fn default_scheme() -> (r: Tiling)
        ensures
            r.wf(),
            r.tile_size == 256,
            r.zoom_count() == 24,
            forall|i: int| 0 <= i < 24 ==> #[trigger] r.resolutions()[i] == pow2((46 - i) as nat),
    {
        proof {
            lemma2_to64();
            lemma2_to64_rest();
        }
        let r = Tiling::new(
            256,
            0x40_0000_0000_0000,
            -0x20_0000_0000_0000,
            0x20_0000_0000_0000,
            24,
        );
        proof {
            assert forall|i: int| 0 <= i < 24 implies #[trigger] r.resolutions()[i] == pow2(
                (46 - i) as nat,
            ) by {
                lemma2_to64();
                // base = 2^54 / (2^8 * 2^23) = 2^23; res[i] = 2^23 * 2^(23-i) = 2^(46-i)
                let base_i: int = (0x40_0000_0000_0000u64 as int) / ((256 as int) * pow2(23));
                assert((256 as int) * pow2(23) == 0x8000_0000);
                assert(base_i == 0x80_0000);
                assert(r.resolutions()[i] == base_i * pow2((23 - i) as nat));
                lemma_pow2_adds(23, (23 - i) as nat);
                assert(pow2((46 - i) as nat) == pow2(23) * pow2((23 - i) as nat));
            }
        }
        r
    }

    /// The absolute gap between the resolution of level `i` and a queried
    /// resolution.
    pub open spec fn resolution_gap(&self, i: int, resolution: u64) -> int {
        abs_diff_u64(self.resolutions()[i], resolution)
    }

    /// What `get_closest_lower_zoom` returns: the first level at least as
    /// fine as the queried resolution, clamped to the table's ends.
    pub open spec fn is_closest_lower_zoom(&self, resolution: u64, z: int) -> bool {
        &&& 0 <= z < self.zoom_count()
        &&& (resolution >= self.resolutions()[0] ==> z == 0)
        &&& (self.resolutions()[0] > resolution > self.resolutions()[self.zoom_count() - 1]
            ==> {
            &&& z < self.zoom_count() - 1
            &&& self.resolutions()[z] >= resolution
            &&& self.resolutions()[z + 1] < resolution
        })
        &&& (resolution <= self.resolutions()[self.zoom_count() - 1] && resolution
            < self.resolutions()[0] ==> z == self.zoom_count() - 1)
    }

    /// The largest level whose resolution is still at least `resolution`:
    /// the deepest zoom that never asks for data finer than the screen
    /// warrants. Queries above the whole table give level 0, queries below
    /// it give the finest level.
    pub fn get_closest_lower_zoom(&self, resolution: u64) -> (z: usize)
        requires
            self.wf(),
        ensures
            self.is_closest_lower_zoom(resolution, z as int),
    {
        let last = self.zoom_resolutions.len() - 1;
        if resolution >= self.zoom_resolutions[0] {
            return 0;
        }
        if resolution <= self.zoom_resolutions[last] {
            return last;
        }
        let mut left: usize = 1;
        let mut right: usize = last;
        let mut zoom: usize = 0;
        while left <= right
            invariant
                self.wf(),
                self.resolutions()[self.zoom_count() - 1] < resolution < self.resolutions()[0],
                1 <= left <= self.zoom_count(),
                right < self.zoom_count(),
                zoom == left - 1,
                zoom <= right,
                self.resolutions()[zoom as int] >= resolution,
                forall|k: int|
                    right < k < self.zoom_count() ==> #[trigger] self.resolutions()[k]
                        < resolution,
            decreases right + 1 - left,
        {
            let mid = left + (right - left) / 2;
            let mid_val = self.zoom_resolutions[mid];
            if mid_val >= resolution {
                zoom = mid;
                left = mid + 1;
            } else {
                proof {
                    assert forall|k: int|
                        mid - 1 < k < self.zoom_count() implies #[trigger] self.resolutions()[k]
                        < resolution by {
                        if mid < k <= right {
                            self.lemma_resolution_decreasing(mid as int, k);
                        }
                    }
                }
                right = mid - 1;
            }
        }
        proof {
            assert(zoom + 1 < self.zoom_count()) by {
                if zoom as int + 1 == self.zoom_count() {
                    assert(self.resolutions()[self.zoom_count() - 1] >= resolution);
                }
            }
            assert(self.resolutions()[zoom as int + 1] < resolution);
        }
        zoom
    }

    /// The zoom whose resolution is nearest to `resolution` in absolute
    /// difference; no level lies closer.
    #[verifier::rlimit(60)]
    pub fn get_closest_zoom(&self, resolution: u64) -> (z: usize)
        requires
            self.wf(),
        ensures
            0 <= z < self.zoom_count(),
            forall|k: int|
                0 <= k < self.zoom_count() ==> self.resolution_gap(z as int, resolution)
                    <= #[trigger] self.resolution_gap(k, resolution),
            resolution >= self.resolutions()[0] ==> z == 0,
            resolution <= self.resolutions()[self.zoom_count() - 1] && resolution
                < self.resolutions()[0] ==> z == self.zoom_count() - 1,
    {
        let last = self.zoom_resolutions.len() - 1;
        if resolution >= self.zoom_resolutions[0] {
            proof {
                assert forall|k: int|
                    0 <= k < self.zoom_count() implies self.resolution_gap(0, resolution)
                    <= #[trigger] self.resolution_gap(k, resolution) by {
                    if k > 0 {
                        self.lemma_resolution_decreasing(0, k);
                    }
                }
            }
            return 0;
        }
        if resolution <= self.zoom_resolutions[last] {
            proof {
                assert forall|k: int|
                    0 <= k < self.zoom_count() implies self.resolution_gap(
                    last as int,
                    resolution,
                ) <= #[trigger] self.resolution_gap(k, resolution) by {
                    if k < last as int {
                        self.lemma_resolution_decreasing(k, last as int);
                    }
                }
            }
            return last;
        }
        let mut left: usize = 0;
        let mut right: usize = last;
        let mut zoom: usize = 0;
        let mut closest_diff: u64 = u64::MAX;
        while left <= right
            invariant
                self.wf(),
                self.resolutions()[self.zoom_count() - 1] < resolution < self.resolutions()[0],
                left <= self.zoom_count(),
                right < self.zoom_count(),
                closest_diff == u64::MAX ==> left == 0 && right == self.zoom_count() - 1,
                closest_diff < u64::MAX ==> zoom < self.zoom_count() && closest_diff
                    == self.resolution_gap(zoom as int, resolution),
                forall|k: int|
                    0 <= k < left ==> closest_diff <= #[trigger] self.resolution_gap(
                        k,
                        resolution,
                    ),
                forall|k: int|
                    right < k < self.zoom_count() ==> closest_diff
                        <= #[trigger] self.resolution_gap(k, resolution),
            decreases right + 1 - left,
        {
            let mid = left + (right - left) / 2;
            let mid_val = self.zoom_resolutions[mid];
            let diff = if mid_val >= resolution {
                mid_val - resolution
            } else {
                resolution - mid_val
            };
            proof {
                self.lemma_resolution_bounds(mid as int);
            }
            if diff < closest_diff {
                zoom = mid;
                closest_diff = diff;
            }
            if mid_val > resolution {
                proof {
                    assert forall|k: int|
                        0 <= k < mid + 1 implies closest_diff <= #[trigger] self.resolution_gap(
                        k,
                        resolution,
                    ) by {
                        if left <= k <= mid && k < mid {
                            self.lemma_resolution_decreasing(k, mid as int);
                        }
                    }
                }
                left = mid + 1;
            } else {
                proof {
                    assert(mid > 0) by {
                        if mid == 0 {
                            assert(self.resolutions()[0] > resolution);
                        }
                    }
                    assert forall|k: int|
                        mid - 1 < k < self.zoom_count() implies closest_diff
                        <= #[trigger] self.resolution_gap(k, resolution) by {
                        if mid <= k <= right && k > mid {
                            self.lemma_resolution_decreasing(mid as int, k);
                        }
                    }
                }
                right = mid - 1;
            }
        }
        zoom
    }

    /// The last valid tile column/row at `zoom` for a full-world tiling:
    /// one less than the zoom's world width in tiles, which is an exact
    /// power of two.
    pub fn get_max_x_y(&self, zoom: usize) -> (r: i32)
        requires
            self.wf(),
        ensures
            r as int + 1 == pow2(self.clamped_zoom(zoom as int) as nat),
            r >= 0,
    {
        let ghost zc: int = self.clamped_zoom(zoom as int);
        let base_res = self.zoom_resolutions[0];
        let zoom_res = self.get_resolution(zoom);
        proof {
            self.lemma_resolution_ratio(0, zc);
            self.lemma_resolution_bounds(zc);
            self.lemma_resolution_bounds(0);
            assert(zoom_res == self.resolutions()[zc]);
            assert(zc <= 30);
            assert(pow2(zc as nat) <= pow2(30)) by {
                if zc < 30 {
                    vstd::arithmetic::power2::lemma_pow2_strictly_increases(zc as nat, 30);
                }
            }
            lemma2_to64();
            // base_res + zoom_res - 1 == pow2(zc) * zoom_res + (zoom_res - 1)
            assert((zoom_res as int) * (pow2(zc as nat) as int) == (pow2(zc as nat) as int) * (
            zoom_res as int)) by (nonlinear_arith);
            vstd::arithmetic::div_mod::lemma_fundamental_div_mod_converse(
                base_res + zoom_res - 1,
                zoom_res as int,
                pow2(zc as nat) as int,
                zoom_res - 1,
            );
        }
        let q = (base_res + zoom_res - 1) / zoom_res;
        (q as i32) - 1
    }

    /// `zoom` clamped to the last level of the table.
    pub open spec fn clamped_zoom(&self, zoom: int) -> int {
        if zoom >= self.zoom_count() {
            self.zoom_count() - 1
        } else {
            zoom
        }
    }

    /// The resolution at `zoom`; zooms past the table are clamped to the
    /// finest level.
    pub fn get_resolution(&self, zoom: usize) -> (r: u64)
        requires
            self.wf(),
        ensures
            r == self.spec_resolution(zoom as int),
    {
        let max_zoom = self.zoom_resolutions.len() - 1;
        if zoom > max_zoom {
            self.zoom_resolutions[max_zoom]
        } else {
            self.zoom_resolutions[zoom]
        }
    }

    /// The map-unit width of one tile at level `z`.
    pub open spec fn tile_span(&self, z: int) -> int {
        (self.resolutions()[z] as int) * (self.tile_size as int)
    }

    /// The tile under a map-plane point at level `z`: floor of the offset
    /// from the origin in tile spans, saturated to the 32-bit index range.
    /// `None` for a level past the table.
    pub fn get_tile_id(&self, z: usize, coord: &Coord) -> (r: Option<TileId>)
        requires
            self.wf(),
        ensures
            z < self.zoom_count() ==> r == Some(
                TileId {
                    z,
                    x: clamp_to_i32((coord.x - self.origin_x) / self.tile_span(z as int)),
                    y: clamp_to_i32((self.origin_y - coord.y) / self.tile_span(z as int)),
                },
            ),
            z >= self.zoom_count() ==> r is None,
    {
        if z >= self.zoom_resolutions.len() {
            return None;
        }
        proof {
            self.lemma_resolution_bounds(z as int);
            assert(self.tile_span(z as int) >= 1) by (nonlinear_arith)
                requires
                    self.resolutions()[z as int] >= 1,
                    self.tile_size >= 1,
            ;
        }
        let res = self.zoom_resolutions[z];
        let span = res * (self.tile_size as u64);
        let dx = (coord.x as i128) - (self.origin_x as i128);
        let dy = (self.origin_y as i128) - (coord.y as i128);
        let x = clamp_i32_exec(div_floor_i128(dx, span));
        let y = clamp_i32_exec(div_floor_i128(dy, span));
        Some(TileId { z, x, y })
    }

    /// Whether the bounding box of `t` fits the 64-bit map-unit range.
    pub open spec fn tile_bbox_fits(&self, t: TileId) -> bool {
        let span = self.tile_span(t.z as int);
        &&& self.origin_x + t.x * span >= i64::MIN
        &&& self.origin_x + (t.x + 1) * span <= i64::MAX
        &&& self.origin_y - t.y * span <= i64::MAX
        &&& self.origin_y - (t.y + 1) * span >= i64::MIN
    }

    /// The map-plane bounding box of a tile: the inverse of `get_tile_id`.
    /// `None` for a level past the table or a box outside the 64-bit
    /// map-unit range.
    pub fn get_tile_bbox(&self, tile_id: &TileId) -> (r: Option<Bbox>)
        requires
            self.wf(),
        ensures
            tile_id.z < self.zoom_count() && self.tile_bbox_fits(*tile_id) ==> {
                let span = self.tile_span(tile_id.z as int);
                r == Some(
                    Bbox {
                        xmin: (self.origin_x + tile_id.x * span) as i64,
                        ymin: (self.origin_y - (tile_id.y + 1) * span) as i64,
                        xmax: (self.origin_x + (tile_id.x + 1) * span) as i64,
                        ymax: (self.origin_y - tile_id.y * span) as i64,
                    },
                )
            },
            tile_id.z >= self.zoom_count() || !self.tile_bbox_fits(*tile_id) ==> r is None,
    {
        if tile_id.z >= self.zoom_resolutions.len() {
            return None;
        }
        proof {
            self.lemma_resolution_bounds(tile_id.z as int);
            assert(self.tile_span(tile_id.z as int) >= 1) by (nonlinear_arith)
                requires
                    self.resolutions()[tile_id.z as int] >= 1,
                    self.tile_size >= 1,
            ;
            assert((tile_id.x as int) * self.tile_span(tile_id.z as int) <= 0x8000_0000i128
                * 0x4000_0000_0000_0000i128 && (tile_id.x as int) * self.tile_span(
                tile_id.z as int,
            ) >= -0x8000_0000i128 * 0x4000_0000_0000_0000i128) by (nonlinear_arith)
                requires
                    -0x8000_0000 <= tile_id.x as int <= 0x8000_0000,
                    1 <= self.tile_span(tile_id.z as int) <= 0x4000_0000_0000_0000,
            ;
            assert((tile_id.y as int) * self.tile_span(tile_id.z as int) <= 0x8000_0000i128
                * 0x4000_0000_0000_0000i128 && (tile_id.y as int) * self.tile_span(
                tile_id.z as int,
            ) >= -0x8000_0000i128 * 0x4000_0000_0000_0000i128) by (nonlinear_arith)
                requires
                    -0x8000_0000 <= tile_id.y as int <= 0x8000_0000,
                    1 <= self.tile_span(tile_id.z as int) <= 0x4000_0000_0000_0000,
            ;
            let sp = self.tile_span(tile_id.z as int);
            assert((tile_id.x as int + 1) * sp == (tile_id.x as int) * sp + sp)
                by (nonlinear_arith);
            assert((tile_id.y as int + 1) * sp == (tile_id.y as int) * sp + sp)
                by (nonlinear_arith);
        }
        let res = self.zoom_resolutions[tile_id.z];
        let span = (res * (self.tile_size as u64)) as i128;
        let xmin = (self.origin_x as i128) + (tile_id.x as i128) * span;
        let xmax = xmin + span;
        let ymax = (self.origin_y as i128) - (tile_id.y as i128) * span;
        let ymin = ymax - span;
        if xmin >= (i64::MIN as i128) && xmax <= (i64::MAX as i128) && ymax <= (i64::MAX as i128)
            && ymin >= (i64::MIN as i128) {
            Some(
                Bbox {
                    xmin: xmin as i64,
                    ymin: ymin as i64,
                    xmax: xmax as i64,
                    ymax: ymax as i64,
                },
            )
        } else {
            None
        }
    }

    /// The single ancestor of `tile_id` that lies `level` zoom steps up,
    /// or `None` when the pyramid has no level that far up.
    pub fn roll_up_tile_id(&self, tile_id: &TileId, level: u32) -> (r: Option<TileId>)
        requires
            level <= 30,
        ensures
            tile_id.z >= level ==> r == Some(
                TileId {
                    z: (tile_id.z - level) as usize,
                    x: div_trunc_by_pow2(tile_id.x as int, level as nat) as i32,
                    y: div_trunc_by_pow2(tile_id.y as int, level as nat) as i32,
                },
            ),
            tile_id.z < level ==> r is None,
    {
        if tile_id.z >= level as usize {
            let factor = pow2_u64(level);
            proof {
                lemma_pow2_pos(level as nat);
            }
            let x = div_trunc_i32(tile_id.x, factor);
            let y = div_trunc_i32(tile_id.y, factor);
            Some(TileId { z: tile_id.z - level as usize, x, y })
        } else {
            None
        }
    }

    /// The `4^level` descendants of `tile_id` that lie `level` zoom steps
    /// down, column-major; empty when `tile_id` sits on the finest or an
    /// unknown level.
    pub fn drill_down_tile_ids(&self, tile_id: &TileId, level: u32) -> (r: Vec<TileId>)
        requires
            self.wf(),
            1 <= level <= 15,
            (tile_id.x as int) * pow2(level as nat) + pow2(level as nat) <= 0x8000_0000,
            (tile_id.x as int) * pow2(level as nat) >= -0x8000_0000,
            (tile_id.y as int) * pow2(level as nat) + pow2(level as nat) <= 0x8000_0000,
            (tile_id.y as int) * pow2(level as nat) >= -0x8000_0000,
        ensures
            tile_id.z < self.zoom_count() - 1 ==> {
                let f = pow2(level as nat) as int;
                &&& r@.len() == f * f
                &&& forall|k: int|
                    0 <= k < r@.len() ==> #[trigger] r@[k] == TileId {
                        z: (tile_id.z + level) as usize,
                        x: (tile_id.x * f + k / f) as i32,
                        y: (tile_id.y * f + k % f) as i32,
                    }
            },
            tile_id.z >= self.zoom_count() - 1 ==> r@.len() == 0,
    {
        let mut tile_ids: Vec<TileId> = Vec::new();
        if tile_id.z < self.zoom_resolutions.len() - 1 {
            let child_z = tile_id.z + (level as usize);
            let factor = pow2_u64(level) as i64;
            let ghost f: int = pow2(level as nat) as int;
            proof {
                lemma_pow2_pos(level as nat);
                assert(pow2(level as nat) <= pow2(15)) by {
                    if level < 15 {
                        vstd::arithmetic::power2::lemma_pow2_strictly_increases(
                            level as nat,
                            15,
                        );
                    }
                }
                lemma2_to64();
            }
            let base_x = (tile_id.x as i64) * factor;
            let base_y = (tile_id.y as i64) * factor;
            let mut i: i64 = 0;
            while i < factor
                invariant
                    0 <= i <= factor,
                    1 <= factor,
                    f == factor as int,
                    f == pow2(level as nat),
                    f <= 0x8000,
                    base_x == (tile_id.x as int) * f,
                    base_y == (tile_id.y as int) * f,
                    base_x + f <= 0x8000_0000,
                    base_x >= -0x8000_0000,
                    base_y + f <= 0x8000_0000,
                    base_y >= -0x8000_0000,
                    child_z == tile_id.z + level,
                    tile_ids@.len() == i * f,
                    forall|k: int|
                        0 <= k < tile_ids@.len() ==> #[trigger] tile_ids@[k] == (TileId {
                            z: child_z,
                            x: (base_x + k / f) as i32,
                            y: (base_y + k % f) as i32,
                        }),
                decreases factor - i,
            {
                let mut j: i64 = 0;
                while j < factor
                    invariant
                        0 <= j <= factor,
                        0 <= i < factor,
                        1 <= factor,
                        f == factor as int,
                        f == pow2(level as nat),
                        f <= 0x8000,
                        base_x == (tile_id.x as int) * f,
                        base_y == (tile_id.y as int) * f,
                        base_x + f <= 0x8000_0000,
                        base_x >= -0x8000_0000,
                        base_y + f <= 0x8000_0000,
                        base_y >= -0x8000_0000,
                        child_z == tile_id.z + level,
                        tile_ids@.len() == i * f + j,
                        forall|k: int|
                            0 <= k < tile_ids@.len() ==> #[trigger] tile_ids@[k] == (TileId {
                                z: child_z,
                                x: (base_x + k / f) as i32,
                                y: (base_y + k % f) as i32,
                            }),
                    decreases factor - j,
                {
                    proof {
                        assert(i * f + j + 1 <= f * f) by (nonlinear_arith)
                            requires
                                0 <= i < f,
                                0 <= j < f,
                        ;
                        vstd::arithmetic::div_mod::lemma_fundamental_div_mod_converse(
                            i * f + j,
                            f,
                            i as int,
                            j as int,
                        );
                    }
                    tile_ids.push(
                        TileId { z: child_z, x: (base_x + i) as i32, y: (base_y + j) as i32 },
                    );
                    j = j + 1;
                }
                proof {
                    assert(i * f + f == (i + 1) * f) by (nonlinear_arith);
                }
                i = i + 1;
            }
            proof {
                assert(tile_ids@.len() == f * f);
            }
        }
        tile_ids
    }
}

/// `v` saturated to the 32-bit signed range.
pub open spec fn clamp_to_i32(v: int) -> i32 {
    if v > i32::MAX as int {
        i32::MAX
    } else if v < i32::MIN as int {
        i32::MIN
    } else {
        v as i32
    }
}

/// Truncating division of `a` by `2^e`: the quotient rounded toward zero.
pub open spec fn div_trunc_by_pow2(a: int, e: nat) -> int {
    if a >= 0 {
        a / (pow2(e) as int)
    } else {
        -((-a) / (pow2(e) as int))
    }
}

fn clamp_i32_exec(v: i128) -> (r: i32)
    ensures
        r == clamp_to_i32(v as int),
{
    if v > i32::MAX as i128 {
        i32::MAX
    } else if v < i32::MIN as i128 {
        i32::MIN
    } else {
        v as i32
    }
}

/// Floor division of a signed value by a positive divisor: the mathematical
/// quotient, rounded toward negative infinity.
pub(crate) fn div_floor_i128(n: i128, d: u64) -> (q: i128)
    requires
        d >= 1,
        n > i128::MIN as int,
    ensures
        q == (n as int) / (d as int),
        n >= 0 ==> 0 <= q <= n,
        n < 0 ==> n <= q <= 0,
{
    if n >= 0 {
        proof {
            vstd::arithmetic::div_mod::lemma_div_nonincreasing(n as int, d as int);
            vstd::arithmetic::div_mod::lemma_div_pos_is_pos(n as int, d as int);
        }
        let qq = (n as u128) / (d as u128);
        qq as i128
    } else {
        let m = (-n) as u128;
        let qq = (m + (d as u128) - 1) / (d as u128);
        proof {
            let s: int = m + (d as u128) - 1;
            let q1: int = s / (d as int);
            let r1: int = s % (d as int);
            vstd::arithmetic::div_mod::lemma_fundamental_div_mod(s, d as int);
            assert(0 <= r1 < d as int) by {
                vstd::arithmetic::div_mod::lemma_mod_division_less_than_divisor(s, d as int);
            }
            assert(q1 >= 0) by {
                vstd::arithmetic::div_mod::lemma_div_pos_is_pos(s, d as int);
            }
            assert(q1 <= m) by (nonlinear_arith)
                requires
                    d >= 1,
                    m >= 1,
                    s == m + d - 1,
                    s == (d as int) * q1 + r1,
                    0 <= r1 < d as int,
                    q1 >= 0,
            ;
            assert(n as int == (d as int) * (-q1) + (d - 1 - r1)) by (nonlinear_arith)
                requires
                    s == (d as int) * q1 + r1,
                    s == m + d - 1,
                    n == -(m as int),
            ;
            vstd::arithmetic::div_mod::lemma_fundamental_div_mod_converse(
                n as int,
                d as int,
                -q1,
                d - 1 - r1,
            );
        }
        -(qq as i128)
    }
}

/// Truncating division of a 32-bit value by a positive power of two.
fn div_trunc_i32(x: i32, factor: u64) -> (r: i32)
    requires
        1 <= factor,
    ensures
        ({
            let d = factor as int;
            r as int == if x >= 0 {
                (x as int) / d
            } else {
                -((-(x as int)) / d)
            }
        }),
{
    if x >= 0 {
        let q = (x as u64) / factor;
        proof {
            vstd::arithmetic::div_mod::lemma_div_nonincreasing(x as int, factor as int);
        }
        q as i32
    } else {
        let m = (-(x as i64)) as u64;
        let q = m / factor;
        proof {
            vstd::arithmetic::div_mod::lemma_div_nonincreasing(m as int, factor as int);
            vstd::arithmetic::div_mod::lemma_div_pos_is_pos(m as int, factor as int);
        }
        let neg = -(q as i64);
        neg as i32
    }
}

/// The absolute difference of two 64-bit values, as a mathematical integer.
pub open spec fn abs_diff_u64(a: u64, b: u64) -> int {
    if a >= b {
        a - b
    } else {
        b - a
    }
}

/// `2^e`, as a 64-bit value.
pub fn pow2_u64(e: u32) -> (r: u64)
    requires
        e <= 62,
    ensures
        r == pow2(e as nat),
{
    let mut r: u64 = 1;
    let mut i: u32 = 0;
    proof {
        lemma2_to64();
    }
    while i < e
        invariant
            0 <= i <= e <= 62,
            r == pow2(i as nat),
        decreases e - i,
    {
        proof {
            lemma_pow2_adds(i as nat, 1);
            lemma2_to64();
            vstd::arithmetic::power2::lemma_pow2_strictly_increases(i as nat, 63);
            lemma2_to64_rest();
        }
        r = r * 2;
        i = i + 1;
    }
    r
}

} // verus!
