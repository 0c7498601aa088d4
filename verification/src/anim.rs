//! Animated view transitions: the cubic ease-out curve, the fly-over
//! altitude profile, and the per-tick interpolation between a view
//! snapshot and a target. The embedding drives the clock; every value
//! computed here is a pure function of the tick index.
//!
//! Eased progress is carried as a fixed-point fraction with thirty-two
//! fraction bits ("Q32").

use vstd::prelude::*;
use vstd::arithmetic::div_mod::{
    lemma_div_is_ordered, lemma_div_multiples_vanish, lemma_multiply_divide_le,
    lemma_div_pos_is_pos,
};

use crate::geom::Coord;
use crate::view::MapViewChange;

verus! {

/// One Q32 unit: progress one.
pub const Q32_ONE: u64 = 0x1_0000_0000;

/// The whole milliseconds of one frame at the given frame-rate cap.
pub open spec fn spec_frame_interval(max_frame_rate: u32) -> int {
    1000int / (max_frame_rate as int)
}

/// How many animation ticks a duration spans.
pub open spec fn spec_anim_ticks(duration_ms: u64, max_frame_rate: u32) -> int {
    (duration_ms as int) / spec_frame_interval(max_frame_rate)
}

/// How a transition runs: applied at once, or ticked over a number of
/// frames.
#[derive(Clone, Copy, Debug, PartialEq, Eq, Structural)]
pub enum AnimPlan {
    Jump,
    Animate { ticks: u64 },
}

/// Decides how to run a transition: a duration of at most one frame
/// interval degenerates to an immediate jump; anything longer animates
/// over its frame count.
pub fn fly_plan(duration_ms: u64, max_frame_rate: u32) -> (r: AnimPlan)
    requires
        1 <= max_frame_rate <= 1000,
    ensures
        spec_anim_ticks(duration_ms, max_frame_rate) <= 1 ==> r == AnimPlan::Jump,
        spec_anim_ticks(duration_ms, max_frame_rate) > 1 ==> r == (AnimPlan::Animate {
            ticks: spec_anim_ticks(duration_ms, max_frame_rate) as u64,
        }),
{
    let frame_interval = 1000u64 / (max_frame_rate as u64);
    proof {
        assert(frame_interval >= 1) by {
            lemma_div_is_ordered(max_frame_rate as int, 1000, max_frame_rate as int);
            vstd::arithmetic::div_mod::lemma_div_by_self(max_frame_rate as int);
        }
    }
    let ticks = duration_ms / frame_interval;
    if ticks <= 1 {
        AnimPlan::Jump
    } else {
        AnimPlan::Animate { ticks }
    }
}

/// A duration within one frame interval always degenerates to a jump: the
/// eased transition has no visible frame of its own.
pub proof fn lemma_short_ease_is_jump(duration_ms: u64, max_frame_rate: u32)
    requires
        1 <= max_frame_rate <= 1000,
        duration_ms as int <= spec_frame_interval(max_frame_rate),
    ensures
        spec_anim_ticks(duration_ms, max_frame_rate) <= 1,
{
    let fi = spec_frame_interval(max_frame_rate);
    assert(fi >= 1) by {
        lemma_div_is_ordered(max_frame_rate as int, 1000, max_frame_rate as int);
        vstd::arithmetic::div_mod::lemma_div_by_self(max_frame_rate as int);
    }
    lemma_div_is_ordered(duration_ms as int, fi, fi);
    vstd::arithmetic::div_mod::lemma_div_by_self(fi);
}

/// Eased progress after `i` of `ticks` frames: the cubic ease-out curve
/// `1 - (1 - t)^3` at `t = i / ticks`, as a Q32 fraction (quotient rounded
/// down).
pub open spec fn spec_ease_out_cubic_q32(i: int, ticks: int) -> int {
    let t3 = ticks * ticks * ticks;
    let r3 = (ticks - i) * (ticks - i) * (ticks - i);
    ((t3 - r3) * (Q32_ONE as int)) / t3
}

/// The eased Q32 progress at one tick. Starts at zero, ends exactly at
/// one.
pub fn ease_out_cubic_q32(i: u64, ticks: u64) -> (x: u64)
    requires
        1 <= ticks <= 0x20_0000,
        i <= ticks,
    ensures
        x == spec_ease_out_cubic_q32(i as int, ticks as int),
        x <= Q32_ONE,
        i == 0 ==> x == 0,
        i == ticks ==> x == Q32_ONE,
{
    proof {
        assert((ticks as int) * (ticks as int) <= 0x4_0000_0000_0000 && (ticks as int) * (
        ticks as int) * (ticks as int) <= 0x8000_0000_0000_0000_0000 && (ticks as int) * (
        ticks as int) * (ticks as int) >= 1 && ((ticks - i) as int) * ((ticks - i) as int)
            <= 0x4_0000_0000_0000 && ((ticks - i) as int) * ((ticks - i) as int) * ((ticks
            - i) as int) <= (ticks as int) * (ticks as int) * (ticks as int) && ((ticks
            - i) as int) * ((ticks - i) as int) * ((ticks - i) as int) >= 0)
            by (nonlinear_arith)
            requires
                1 <= ticks <= 0x20_0000,
                0 <= i <= ticks,
        ;
    }
    let t3: u128 = (ticks as u128) * (ticks as u128) * (ticks as u128);
    let rem: u128 = ((ticks - i) as u128);
    let r3: u128 = rem * rem * rem;
    let num: u128 = (t3 - r3) * (Q32_ONE as u128);
    proof {
        assert((t3 as int - r3 as int) * (Q32_ONE as int) <= (t3 as int) * (Q32_ONE as int))
            by (nonlinear_arith)
            requires
                0 <= r3 as int,
                t3 as int >= 1,
                r3 as int <= t3 as int,
        ;
        lemma_multiply_divide_le(num as int, t3 as int, Q32_ONE as int);
        lemma_div_pos_is_pos(num as int, t3 as int);
        if i == ticks {
            assert(r3 as int == 0) by (nonlinear_arith)
                requires
                    r3 as int == (rem as int) * (rem as int) * (rem as int),
                    rem == 0,
            ;
            lemma_div_multiples_vanish(Q32_ONE as int, t3 as int);
            assert((t3 as int) * (Q32_ONE as int) == (Q32_ONE as int) * (t3 as int))
                by (nonlinear_arith);
        }
        if i == 0 {
            assert(r3 == t3);
            vstd::arithmetic::div_mod::lemma_div_of0(t3 as int);
        }
    }
    let x = (num / t3) as u64;
    x
}

/// The fly altitude profile over eased progress: rises to its peak at the
/// middle of the transition and falls back, `1 - |1/2 - x| * 2` in Q32.
pub open spec fn spec_fly_profile_q32(x: int) -> int {
    if x <= (Q32_ONE as int) / 2 {
        2 * x
    } else {
        2 * ((Q32_ONE as int) - x)
    }
}

/// The Q32 altitude factor for an eased progress value.
pub fn fly_profile_q32(x: u64) -> (y: u64)
    requires
        x <= Q32_ONE,
    ensures
        y == spec_fly_profile_q32(x as int),
        y <= Q32_ONE,
{
    if x <= Q32_ONE / 2 {
        2 * x
    } else {
        2 * (Q32_ONE - x)
    }
}

/// A full view snapshot: the animated fields of the view state.
#[derive(Clone, Copy, Debug, PartialEq, Eq, Structural)]
pub struct ViewSnapshot {
    pub center: Coord,
    pub zoom_res: u64,
    pub pitch_md: i64,
    pub yaw_md: i64,
}

/// Linear interpolation from `a` to `b` by a Q32 fraction, rounded down.
pub open spec fn spec_lerp(a: int, b: int, x: int) -> int {
    a + ((b - a) * x) / (Q32_ONE as int)
}

/// The interpolated zoom resolution: the linear blend of the endpoint
/// resolutions, lifted by the fly altitude `1 + (2^zoom_factor - 1) * y`,
/// saturated to the 64-bit range.
pub open spec fn spec_zoom_blend(fr: u64, tr: u64, x: int, y: int, zoom_up: int) -> u64 {
    let base = ((fr as int) * ((Q32_ONE as int) - x) + (tr as int) * x) / (Q32_ONE as int);
    let lifted = (base * ((Q32_ONE as int) + zoom_up * y)) / (Q32_ONE as int);
    if lifted > u64::MAX as int {
        u64::MAX
    } else if lifted < 1 {
        1u64
    } else {
        lifted as u64
    }
}

/// The bound on animated angle and coordinate endpoints.
pub const ANIM_VALUE_LIMIT: i64 = 0x3FFF_FFFF_FFFF_FFFF;

/// Whether a snapshot lies within the animatable range.
pub open spec fn snapshot_in_range(v: ViewSnapshot) -> bool {
    &&& -(ANIM_VALUE_LIMIT as int) <= v.center.x <= ANIM_VALUE_LIMIT as int
    &&& -(ANIM_VALUE_LIMIT as int) <= v.center.y <= ANIM_VALUE_LIMIT as int
    &&& -(ANIM_VALUE_LIMIT as int) <= v.pitch_md <= ANIM_VALUE_LIMIT as int
    &&& -(ANIM_VALUE_LIMIT as int) <= v.yaw_md <= ANIM_VALUE_LIMIT as int
    &&& 1 <= v.zoom_res
}

/// The target snapshot: each requested field, the start value where the
/// target leaves one out.
pub open spec fn spec_apply_target(from: ViewSnapshot, to: MapViewChange) -> ViewSnapshot {
    ViewSnapshot {
        center: match to.center {
            Some(c) => c,
            None => from.center,
        },
        zoom_res: match to.zoom_res {
            Some(z) => z,
            None => from.zoom_res,
        },
        pitch_md: match to.pitch_md {
            Some(p) => p,
            None => from.pitch_md,
        },
        yaw_md: match to.yaw_md {
            Some(y) => y,
            None => from.yaw_md,
        },
    }
}

/// The target snapshot, as a value.
pub fn apply_target(from: &ViewSnapshot, to: &MapViewChange) -> (r: ViewSnapshot)
    ensures
        r == spec_apply_target(*from, *to),
{
    ViewSnapshot {
        center: match to.center {
            Some(c) => c,
            None => from.center,
        },
        zoom_res: match to.zoom_res {
            Some(z) => z,
            None => from.zoom_res,
        },
        pitch_md: match to.pitch_md {
            Some(p) => p,
            None => from.pitch_md,
        },
        yaw_md: match to.yaw_md {
            Some(y) => y,
            None => from.yaw_md,
        },
    }
}

fn lerp_i64(a: i64, b: i64, x: u64) -> (r: i64)
    requires
        -ANIM_VALUE_LIMIT <= a <= ANIM_VALUE_LIMIT,
        -ANIM_VALUE_LIMIT <= b <= ANIM_VALUE_LIMIT,
        x <= Q32_ONE,
    ensures
        r == spec_lerp(a as int, b as int, x as int),
        x == 0 ==> r == a,
        x == Q32_ONE ==> r == b,
        a <= b ==> a <= r <= b,
        b <= a ==> b <= r <= a,
{
    proof {
        assert(((b as int) - (a as int)) * (x as int) <= 0x8000_0000_0000_0000i128
            * 0x1_0000_0000 && ((b as int) - (a as int)) * (x as int) >= -(
        0x8000_0000_0000_0000i128 * 0x1_0000_0000)) by (nonlinear_arith)
            requires
                -0x8000_0000_0000_0000i128 <= (b as int) - (a as int)
                    <= 0x8000_0000_0000_0000i128,
                0 <= x as int <= 0x1_0000_0000,
        ;
    }
    let d: i128 = ((b as i128) - (a as i128)) * (x as i128);
    let q = crate::tiling::div_floor_i128(d, Q32_ONE);
    proof {
        let diff: int = (b as int) - (a as int);
        let qi: int = Q32_ONE as int;
        if diff >= 0 {
            assert(0 <= d as int && d as int <= diff * qi) by (nonlinear_arith)
                requires
                    d as int == diff * (x as int),
                    0 <= x as int <= qi,
                    diff >= 0,
            ;
            lemma_div_pos_is_pos(d as int, qi);
            assert(diff * qi == qi * diff) by (nonlinear_arith);
            lemma_multiply_divide_le(d as int, qi, diff);
            assert(0 <= q as int <= diff);
        } else {
            assert(diff * qi <= d as int && d as int <= 0) by (nonlinear_arith)
                requires
                    d as int == diff * (x as int),
                    0 <= x as int <= qi,
                    diff < 0,
            ;
            lemma_div_is_ordered(diff * qi, d as int, qi);
            lemma_div_multiples_vanish(diff, qi);
            assert(diff * qi == qi * diff) by (nonlinear_arith);
            lemma_div_is_ordered(d as int, 0, qi);
            vstd::arithmetic::div_mod::lemma_div_of0(qi);
            assert(diff <= q as int <= 0);
        }
        if x == Q32_ONE {
            lemma_div_multiples_vanish((b as int) - (a as int), Q32_ONE as int);
            assert(((b as int) - (a as int)) * (Q32_ONE as int) == (Q32_ONE as int) * ((
            b as int) - (a as int))) by (nonlinear_arith);
        }
        assert((d as int) / (Q32_ONE as int) <= 0x8000_0000_0000_0000 && (d as int) / (
        Q32_ONE as int) >= -0x8000_0000_0000_0000) by {
            lemma_div_is_ordered(d as int, 0x8000_0000_0000_0000i128 * 0x1_0000_0000, Q32_ONE as int);
            lemma_div_is_ordered(-(0x8000_0000_0000_0000i128 * 0x1_0000_0000), d as int, Q32_ONE as int);
            assert((0x8000_0000_0000_0000i128 * 0x1_0000_0000) / (Q32_ONE as int)
                == 0x8000_0000_0000_0000i128);
            assert((-(0x8000_0000_0000_0000i128 * 0x1_0000_0000)) / (Q32_ONE as int) == -(
            0x8000_0000_0000_0000i128));
        }
    }
    ((a as i128) + q) as i64
}

/// The view at tick `i` of an animated transition of `ticks` frames:
/// centre, pitch and yaw move linearly along the eased progress, the zoom
/// resolution blends between the endpoints and is lifted by the fly
/// altitude profile scaled by `2^zoom_factor - 1` (zero for a plain ease).
/// The final tick lands exactly on the target.
pub fn anim_view_at(
    from: &ViewSnapshot,
    to: &MapViewChange,
    i: u64,
    ticks: u64,
    zoom_factor: u32,
) -> (r: ViewSnapshot)
    requires
        snapshot_in_range(*from),
        snapshot_in_range(spec_apply_target(*from, *to)),
        1 <= ticks <= 0x20_0000,
        i <= ticks,
        zoom_factor <= 30,
    ensures
        ({
            let x = spec_ease_out_cubic_q32(i as int, ticks as int);
            let y = spec_fly_profile_q32(x);
            let target = spec_apply_target(*from, *to);
            let up = (pow2_int(zoom_factor as nat)) - 1;
            &&& r.center.x == spec_lerp(from.center.x as int, target.center.x as int, x)
            &&& r.center.y == spec_lerp(from.center.y as int, target.center.y as int, x)
            &&& r.pitch_md == spec_lerp(from.pitch_md as int, target.pitch_md as int, x)
            &&& r.yaw_md == spec_lerp(from.yaw_md as int, target.yaw_md as int, x)
            &&& r.zoom_res == spec_zoom_blend(from.zoom_res, target.zoom_res, x, y, up)
        }),
        i == ticks && zoom_factor == 0 ==> r == spec_apply_target(*from, *to),
        snapshot_in_range(r),
{
    let target = apply_target(from, to);
    let x = ease_out_cubic_q32(i, ticks);
    let y = fly_profile_q32(x);
    let up: u64 = pow2_minus_one(zoom_factor);
    let cx = lerp_i64(from.center.x, target.center.x, x);
    let cy = lerp_i64(from.center.y, target.center.y, x);
    let pitch = lerp_i64(from.pitch_md, target.pitch_md, x);
    let yaw = lerp_i64(from.yaw_md, target.yaw_md, x);
    let zoom_res = zoom_blend(from.zoom_res, target.zoom_res, x, y, up);
    proof {
        if i == ticks && zoom_factor == 0 {
            assert(pow2_int(0) == 1) by {
                vstd::arithmetic::power2::lemma2_to64();
            }
            assert(spec_fly_profile_q32(Q32_ONE as int) == 0);
            lemma_zoom_blend_endpoint(from.zoom_res, target.zoom_res);
        }
    }
    ViewSnapshot { center: Coord { x: cx, y: cy }, zoom_res, pitch_md: pitch, yaw_md: yaw }
}

/// `2^e` as a mathematical integer.
pub open spec fn pow2_int(e: nat) -> int {
    vstd::arithmetic::power2::pow2(e) as int
}

/// `2^zoom_factor - 1`: how far the fly profile lifts the zoom resolution
/// at its peak.
fn pow2_minus_one(zoom_factor: u32) -> (r: u64)
    requires
        zoom_factor <= 30,
    ensures
        r as int == pow2_int(zoom_factor as nat) - 1,
        r <= 0x4000_0000,
{
    let p = crate::tiling::pow2_u64(zoom_factor);
    proof {
        vstd::arithmetic::power2::lemma_pow2_pos(zoom_factor as nat);
        assert(vstd::arithmetic::power2::pow2(zoom_factor as nat)
            <= vstd::arithmetic::power2::pow2(30)) by {
            if zoom_factor < 30 {
                vstd::arithmetic::power2::lemma_pow2_strictly_increases(
                    zoom_factor as nat,
                    30,
                );
            }
        }
        vstd::arithmetic::power2::lemma2_to64();
    }
    p - 1
}

fn zoom_blend(fr: u64, tr: u64, x: u64, y: u64, up: u64) -> (r: u64)
    requires
        x <= Q32_ONE,
        y <= Q32_ONE,
        up <= 0x4000_0000,
        fr >= 1,
        tr >= 1,
    ensures
        r == spec_zoom_blend(fr, tr, x as int, y as int, up as int),
{
    proof {
        assert((fr as int) * ((Q32_ONE as int) - (x as int)) + (tr as int) * (x as int)
            <= 0xFFFF_FFFF_FFFF_FFFFi128 * 0x1_0000_0000 * 2 && (fr as int) * ((Q32_ONE as int)
            - (x as int)) >= 0 && (tr as int) * (x as int) >= 0) by (nonlinear_arith)
            requires
                1 <= fr as int <= 0xFFFF_FFFF_FFFF_FFFFi128,
                1 <= tr as int <= 0xFFFF_FFFF_FFFF_FFFFi128,
                0 <= x as int <= 0x1_0000_0000,
        ;
    }
    let base_num: u128 = (fr as u128) * ((Q32_ONE as u128) - (x as u128)) + (tr as u128) * (
    x as u128);
    let base: u128 = base_num / (Q32_ONE as u128);
    proof {
        lemma_div_pos_is_pos(base_num as int, Q32_ONE as int);
        lemma_div_is_ordered(
            base_num as int,
            0xFFFF_FFFF_FFFF_FFFFi128 * 0x1_0000_0000 * 2,
            Q32_ONE as int,
        );
        assert((0xFFFF_FFFF_FFFF_FFFFi128 * 0x1_0000_0000 * 2) / (Q32_ONE as int)
            == 0x1_FFFF_FFFF_FFFF_FFFEi128);
        assert((up as int) * (y as int) <= 0x4000_0000i128 * 0x1_0000_0000 && (up as int) * (
        y as int) >= 0) by (nonlinear_arith)
            requires
                0 <= up as int <= 0x4000_0000,
                0 <= y as int <= 0x1_0000_0000,
        ;
        assert((base as int) * ((Q32_ONE as int) + (up as int) * (y as int))
            <= 0x1_FFFF_FFFF_FFFF_FFFEi128 * (0x1_0000_0000i128 + 0x4000_0000i128
            * 0x1_0000_0000) && (base as int) * ((Q32_ONE as int) + (up as int) * (y as int))
            >= 0) by (nonlinear_arith)
            requires
                0 <= base as int <= 0x1_FFFF_FFFF_FFFF_FFFEi128,
                0 <= (up as int) * (y as int) <= 0x4000_0000i128 * 0x1_0000_0000,
        ;
    }
    let lift: u128 = (Q32_ONE as u128) + (up as u128) * (y as u128);
    let lifted: u128 = ((base * lift) / (Q32_ONE as u128));
    proof {
        lemma_div_pos_is_pos((base * lift) as int, Q32_ONE as int);
    }
    if lifted > (u64::MAX as u128) {
        u64::MAX
    } else if lifted < 1 {
        1u64
    } else {
        lifted as u64
    }
}

/// With full progress and no altitude lift, the blended zoom resolution is
/// exactly the target resolution.
proof fn lemma_zoom_blend_endpoint(fr: u64, tr: u64)
    requires
        fr >= 1,
        tr >= 1,
    ensures
        spec_zoom_blend(fr, tr, Q32_ONE as int, 0, 0) == tr,
{
    let q: int = Q32_ONE as int;
    assert((fr as int) * (q - q) == 0) by (nonlinear_arith);
    lemma_div_multiples_vanish(tr as int, q);
    assert((tr as int) * q == q * (tr as int)) by (nonlinear_arith);
    assert(((fr as int) * (q - q) + (tr as int) * q) / q == tr as int);
    lemma_div_multiples_vanish(tr as int, q);
    assert(((tr as int) * (q + 0 * 0)) / q == tr as int) by {
        assert(0 * 0 == 0) by (nonlinear_arith);
        assert((tr as int) * q == q * (tr as int)) by (nonlinear_arith);
    }
}

} // verus!
