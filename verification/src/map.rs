//! The map core: options, the live view state and the animation flag,
//! with the direct and animated view mutations. The embedding owns the
//! clock, the window and the renderer; every decision about what a
//! mutation does to the view is made here.

use vstd::prelude::*;

use crate::anim::{AnimPlan, ViewSnapshot, fly_plan, anim_view_at, spec_anim_ticks, snapshot_in_range, spec_apply_target};
use crate::geom::Coord;
use crate::view::{MapOptions, MapState, MapViewChange};

verus! {

/// The map's own state: configuration, the live view, and whether an
/// animated transition is running.
pub struct MapCore {
    pub options: MapOptions,
    pub state: MapState,
    pub animating: bool,
}

impl MapCore {
    pub open spec fn wf(&self) -> bool {
        &&& self.options.wf()
        &&& self.state.wf()
    }

    /// A fresh map over the given options.
    pub fn new(options: MapOptions) -> (r: MapCore)
        requires
            options.wf(),
        ensures
            r.wf(),
            r.state.center == options.center,
            r.state.zoom == options.zoom,
            !r.animating,
            r.options == options,
    {
        let state = MapState::new(&options);
        MapCore { options, state, animating: false }
    }

    /// The animated fields of the current view, as one value.
    pub fn snapshot(&self) -> (r: ViewSnapshot)
        ensures
            r.center == self.state.center,
            r.zoom_res == self.state.zoom_res,
            r.pitch_md == self.state.pitch_md,
            r.yaw_md == self.state.yaw_md,
    {
        ViewSnapshot {
            center: self.state.center,
            zoom_res: self.state.zoom_res,
            pitch_md: self.state.pitch_md,
            yaw_md: self.state.yaw_md,
        }
    }

    /// Applies a view change at once, cancelling any running animation:
    /// the requested centre, the requested zoom resolution clamped into
    /// the zoom window (with the discrete level refreshed), and the
    /// requested pitch and yaw.
    pub fn jump_to(&mut self, change: &MapViewChange)
        requires
            old(self).wf(),
            old(self).state.view_seq + 3 < u64::MAX,
            change.center is Some ==> crate::geom::in_coord_range(change.center->0),
            change.zoom_res is Some ==> change.zoom_res->0 >= 1,
        ensures
            final(self).wf(),
            !final(self).animating,
            final(self).options == old(self).options,
            final(self).state.center == match change.center {
                Some(c) => c,
                None => old(self).state.center,
            },
            final(self).state.zoom_res == match change.zoom_res {
                Some(z) => MapState::spec_clamped_res(
                    z as int,
                    old(self).options.tiling.spec_resolution(old(self).options.zoom_max as int),
                    old(self).options.tiling.spec_resolution(old(self).options.zoom_min as int),
                ),
                None => old(self).state.zoom_res,
            },
            change.zoom_res is Some ==> old(self).options.tiling.is_closest_lower_zoom(
                final(self).state.zoom_res,
                final(self).state.zoom as int,
            ),
            final(self).state.pitch_md == match change.pitch_md {
                Some(p) => p,
                None => old(self).state.pitch_md,
            },
            final(self).state.yaw_md == match change.yaw_md {
                Some(y) => y,
                None => old(self).state.yaw_md,
            },
    {
        self.animating = false;
        match change.center {
            Some(c) => self.state.set_center(c),
            None => {},
        }
        match change.zoom_res {
            Some(z) => self.state.set_zoom_res(z, true, &self.options, false),
            None => {},
        }
        if change.pitch_md.is_some() || change.yaw_md.is_some() {
            let pitch = match change.pitch_md {
                Some(p) => p,
                None => self.state.pitch_md,
            };
            let yaw = match change.yaw_md {
                Some(y) => y,
                None => self.state.yaw_md,
            };
            self.state.set_pitch_yaw(pitch, yaw);
        }
    }


    /// Moves the centre directly, cancelling any running animation.
    pub fn set_center(&mut self, center: Coord)
        requires
            old(self).wf(),
            old(self).state.view_seq < u64::MAX,
            crate::geom::in_coord_range(center),
        ensures
            final(self).wf(),
            !final(self).animating,
            final(self).state.center == center,
            final(self).state.zoom == old(self).state.zoom,
            final(self).state.zoom_res == old(self).state.zoom_res,
    {
        self.animating = false;
        self.state.set_center(center);
    }

    /// Tilts and turns the camera directly, the pitch held inside the
    /// configured cap, cancelling any running animation.
    pub fn set_pitch_yaw(&mut self, pitch_md: i64, yaw_md: i64)
        requires
            old(self).wf(),
            old(self).state.view_seq < u64::MAX,
            old(self).options.pitch_max_md >= 0,
        ensures
            final(self).wf(),
            !final(self).animating,
            final(self).state.pitch_md == if pitch_md < 0 {
                0
            } else if pitch_md > old(self).options.pitch_max_md {
                old(self).options.pitch_max_md
            } else {
                pitch_md
            },
            final(self).state.yaw_md == yaw_md,
    {
        self.animating = false;
        let clamped = if pitch_md < 0 {
            0
        } else if pitch_md > self.options.pitch_max_md {
            self.options.pitch_max_md
        } else {
            pitch_md
        };
        self.state.set_pitch_yaw(clamped, yaw_md);
    }

    /// Zooms about a fixed map-plane anchor, cancelling any running
    /// animation; see `MapState::zoom_around` for the exact effect.
    pub fn zoom_around(&mut self, coord: &Coord, num: u32, den: u32)
        requires
            old(self).wf(),
            old(self).state.view_seq < u64::MAX,
            num >= 1,
            den >= 1,
            crate::geom::in_coord_range(*coord),
            old(self).state.zoom_res >= 1,
        ensures
            final(self).wf(),
            !final(self).animating,
            final(self).state.zoom_res == crate::view::MapState::spec_clamped_res(
                crate::view::MapState::spec_zoom_target_res(old(self).state.zoom_res, num, den),
                old(self).options.tiling.spec_resolution(old(self).options.zoom_max as int),
                old(self).options.tiling.spec_resolution(old(self).options.zoom_min as int),
            ),
            final(self).state.zoom_res >= 1,
            final(self).state.zoom_res != old(self).state.zoom_res ==> (
            final(self).state.center == crate::view::MapState::zoomed_center(
                *coord,
                old(self).state.center,
                final(self).state.zoom_res,
                old(self).state.zoom_res,
            ) && old(self).options.tiling.is_closest_lower_zoom(
                final(self).state.zoom_res,
                final(self).state.zoom as int,
            )),
            (final(self).state.zoom_res == old(self).state.zoom_res && final(self).state.zoom_res
                == old(self).options.tiling.spec_resolution(old(self).options.zoom_min as int)
                && num < den) ==> exists|s: int|
                {
                    &&& #[trigger] (s * s) <= ((den - num) as int * 0x1_0000_0000) / (
                    den as int)
                    &&& ((den - num) as int * 0x1_0000_0000) / (den as int) < (s + 1) * (s + 1)
                    &&& s >= 0
                    &&& final(self).state.center == crate::view::MapState::eased_center(
                        old(self).state.center,
                        old(self).options.center,
                        s,
                    )
                },
            (final(self).state.zoom_res == old(self).state.zoom_res && !(
            final(self).state.zoom_res == old(self).options.tiling.spec_resolution(
                old(self).options.zoom_min as int,
            ) && num < den)) ==> final(self).state.center == old(self).state.center,
            final(self).state.pitch_md == old(self).state.pitch_md,
            final(self).state.yaw_md == old(self).state.yaw_md,
    {
        self.animating = false;
        self.state.zoom_around(coord, num, den, &self.options);
    }

    /// Starts an animated transition toward a view change: a duration
    /// within one frame interval degenerates to an immediate jump (the
    /// same effect as `jump_to`); a longer one marks the map animating
    /// and hands the tick count back for the embedding's clock to drive.
    pub fn begin_fly(&mut self, change: &MapViewChange, duration_ms: u64) -> (r: AnimPlan)
        requires
            old(self).wf(),
            old(self).state.view_seq + 3 < u64::MAX,
            change.center is Some ==> crate::geom::in_coord_range(change.center->0),
            change.zoom_res is Some ==> change.zoom_res->0 >= 1,
        ensures
            final(self).wf(),
            final(self).options == old(self).options,
            spec_anim_ticks(duration_ms, old(self).options.max_frame_rate) <= 1 ==> (r
                == AnimPlan::Jump && !final(self).animating),
            spec_anim_ticks(duration_ms, old(self).options.max_frame_rate) > 1 ==> (r
                == (AnimPlan::Animate {
                ticks: spec_anim_ticks(duration_ms, old(self).options.max_frame_rate) as u64,
            }) && final(self).animating && final(self).state == old(self).state),
            spec_anim_ticks(duration_ms, old(self).options.max_frame_rate) <= 1 ==> (
            final(self).state.center == match change.center {
                Some(c) => c,
                None => old(self).state.center,
            }),
            spec_anim_ticks(duration_ms, old(self).options.max_frame_rate) <= 1 ==> (
            final(self).state.zoom_res == match change.zoom_res {
                Some(z) => MapState::spec_clamped_res(
                    z as int,
                    old(self).options.tiling.spec_resolution(old(self).options.zoom_max as int),
                    old(self).options.tiling.spec_resolution(old(self).options.zoom_min as int),
                ),
                None => old(self).state.zoom_res,
            }),
            (spec_anim_ticks(duration_ms, old(self).options.max_frame_rate) <= 1
                && change.zoom_res is Some) ==> old(self).options.tiling.is_closest_lower_zoom(
                final(self).state.zoom_res,
                final(self).state.zoom as int,
            ),
            spec_anim_ticks(duration_ms, old(self).options.max_frame_rate) <= 1 ==> (
            final(self).state.pitch_md == match change.pitch_md {
                Some(p) => p,
                None => old(self).state.pitch_md,
            }),
            spec_anim_ticks(duration_ms, old(self).options.max_frame_rate) <= 1 ==> (
            final(self).state.yaw_md == match change.yaw_md {
                Some(y) => y,
                None => old(self).state.yaw_md,
            }),
    {
        let plan = fly_plan(duration_ms, self.options.max_frame_rate);
        match plan {
            AnimPlan::Jump => {
                self.jump_to(change);
            },
            AnimPlan::Animate { .. } => {
                self.animating = true;
            },
        }
        plan
    }

    /// Applies one animation tick: the interpolated view for frame `i` of
    /// `ticks`, leaving the discrete zoom level untouched (tile work is
    /// skipped while animating).
    pub fn anim_tick(
        &mut self,
        from: &ViewSnapshot,
        to: &MapViewChange,
        i: u64,
        ticks: u64,
        zoom_factor: u32,
    )
        requires
            old(self).wf(),
            old(self).state.view_seq + 3 < u64::MAX,
            snapshot_in_range(*from),
            snapshot_in_range(spec_apply_target(*from, *to)),
            1 <= ticks <= 0x20_0000,
            i <= ticks,
            zoom_factor <= 30,
        ensures
            final(self).wf(),
            final(self).state.zoom == old(self).state.zoom,
            ({
                let x = crate::anim::spec_ease_out_cubic_q32(i as int, ticks as int);
                let y = crate::anim::spec_fly_profile_q32(x);
                let target = spec_apply_target(*from, *to);
                let up = crate::anim::pow2_int(zoom_factor as nat) - 1;
                &&& final(self).state.center.x == crate::anim::spec_lerp(
                    from.center.x as int,
                    target.center.x as int,
                    x,
                )
                &&& final(self).state.center.y == crate::anim::spec_lerp(
                    from.center.y as int,
                    target.center.y as int,
                    x,
                )
                &&& final(self).state.pitch_md == crate::anim::spec_lerp(
                    from.pitch_md as int,
                    target.pitch_md as int,
                    x,
                )
                &&& final(self).state.yaw_md == crate::anim::spec_lerp(
                    from.yaw_md as int,
                    target.yaw_md as int,
                    x,
                )
                &&& final(self).state.zoom_res == crate::anim::spec_zoom_blend(
                    from.zoom_res,
                    target.zoom_res,
                    x,
                    y,
                    up,
                )
            }),
    {
        let v = anim_view_at(from, to, i, ticks, zoom_factor);
        self.state.set_center(v.center);
        let safe_res = if v.zoom_res >= 1 {
            v.zoom_res
        } else {
            1
        };
        self.state.set_zoom_res(safe_res, false, &self.options, true);
        self.state.set_pitch_yaw(v.pitch_md, v.yaw_md);
    }

    /// Lands an animated transition exactly on its target and clears the
    /// animating mark: the final frame writes the requested values, not an
    /// interpolation, so repeated transitions cannot drift.
    pub fn finish_fly(&mut self, change: &MapViewChange)
        requires
            old(self).wf(),
            old(self).state.view_seq + 3 < u64::MAX,
            change.center is Some ==> crate::geom::in_coord_range(change.center->0),
            change.zoom_res is Some ==> change.zoom_res->0 >= 1,
        ensures
            final(self).wf(),
            !final(self).animating,
            final(self).state.center == match change.center {
                Some(c) => c,
                None => old(self).state.center,
            },
            final(self).state.zoom_res == match change.zoom_res {
                Some(z) => MapState::spec_clamped_res(
                    z as int,
                    old(self).options.tiling.spec_resolution(old(self).options.zoom_max as int),
                    old(self).options.tiling.spec_resolution(old(self).options.zoom_min as int),
                ),
                None => old(self).state.zoom_res,
            },
            change.zoom_res is Some ==> old(self).options.tiling.is_closest_lower_zoom(
                final(self).state.zoom_res,
                final(self).state.zoom as int,
            ),
            final(self).state.pitch_md == match change.pitch_md {
                Some(p) => p,
                None => old(self).state.pitch_md,
            },
            final(self).state.yaw_md == match change.yaw_md {
                Some(y) => y,
                None => old(self).state.yaw_md,
            },
    {
        self.jump_to(change);
    }
}

} // verus!
