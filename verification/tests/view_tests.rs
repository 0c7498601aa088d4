use mapsdk::anim::{ease_out_cubic_q32, fly_plan, AnimPlan};
use mapsdk::geom::Coord;
use mapsdk::map::MapCore;
use mapsdk::view::{MapOptions, MapState, MapViewChange};

#[test]
fn zoom_around_keeps_the_anchor_screen_position() {
    let options = MapOptions::default_options();
    let mut state = MapState::new(&options);
    // start from an unsaturated resolution inside the zoom window
    state.set_zoom_res(1 << 30, false, &options, false);
    state.set_center(Coord { x: 1 << 10, y: 1 << 11 });
    let anchor = Coord { x: 0, y: 0 };
    let old_res = state.zoom_res;
    let old_center = state.center;
    state.zoom_around(&anchor, 2, 1, &options);
    assert_eq!(state.zoom_res, 1 << 29);
    assert_eq!(state.center, Coord { x: 512, y: 1024 });
    // the anchor's screen offset from the centre is unchanged:
    // (anchor - centre) / resolution agrees before and after
    let pre = (anchor.x - old_center.x) as i128 * state.zoom_res as i128;
    let post = (anchor.x - state.center.x) as i128 * old_res as i128;
    assert_eq!(pre, post);
}

#[test]
fn zoom_out_at_the_limit_eases_toward_home() {
    let options = MapOptions::default_options();
    let mut state = MapState::new(&options);
    // the view starts at the outer resolution limit (zoom_min)
    let res_max = options.tiling.get_resolution(options.zoom_min);
    assert_eq!(state.zoom_res, res_max);
    state.set_center(Coord { x: 1 << 20, y: 0 });
    let before = state.center;
    // zooming further out keeps the resolution and pulls toward home
    state.zoom_around(&Coord { x: 0, y: 0 }, 1, 4, &options);
    assert_eq!(state.zoom_res, res_max);
    assert!(state.center.x < before.x);
    assert!(state.center.x >= 0);
}

#[test]
fn view_bounds_scale_with_resolution() {
    let options = MapOptions::default_options();
    let mut state = MapState::new(&options);
    state.set_zoom_res(4, true, &options, true);
    state.set_center(Coord { x: 1000, y: 2000 });
    // identity rotation and unit look-ahead factor
    state.update_view_bounds(100, 50, 0, 65536, 65536);
    // zoom_res clamps to the finest level of the default table
    let res = state.zoom_res as i64;
    assert_eq!(state.view_bounds.lt, Coord { x: 1000 - 100 * res, y: 2000 + 50 * res });
    assert_eq!(state.view_bounds.rb, Coord { x: 1000 + 100 * res, y: 2000 - 50 * res });
    assert_eq!(state.view_bounds_seq, state.view_seq);
}

#[test]
fn short_ease_degenerates_to_a_jump() {
    // one frame at sixty frames a second lasts sixteen milliseconds
    assert_eq!(fly_plan(0, 60), AnimPlan::Jump);
    assert_eq!(fly_plan(16, 60), AnimPlan::Jump);
    assert_eq!(fly_plan(500, 60), AnimPlan::Animate { ticks: 31 });

    let options = MapOptions::default_options();
    let mut eased = MapCore::new(options.clone());
    let mut jumped = MapCore::new(options);
    let change = MapViewChange::default()
        .with_center(Coord { x: 777, y: -888 })
        .with_pitch(30_000)
        .with_yaw(15_000);
    let plan = eased.begin_fly(&change, 10);
    assert_eq!(plan, AnimPlan::Jump);
    jumped.jump_to(&change);
    assert_eq!(eased.state.center, jumped.state.center);
    assert_eq!(eased.state.zoom_res, jumped.state.zoom_res);
    assert_eq!(eased.state.pitch_md, jumped.state.pitch_md);
    assert_eq!(eased.state.yaw_md, jumped.state.yaw_md);
    assert!(!eased.animating);
}

#[test]
fn eased_progress_starts_at_zero_and_ends_at_one() {
    assert_eq!(ease_out_cubic_q32(0, 100), 0);
    assert_eq!(ease_out_cubic_q32(100, 100), 1 << 32);
    // the curve front-loads its progress: half way in time is past half way
    assert!(ease_out_cubic_q32(50, 100) > 1u64 << 31);
    // and it never decreases
    let mut prev = 0u64;
    for i in 0..=100 {
        let x = ease_out_cubic_q32(i, 100);
        assert!(x >= prev);
        prev = x;
    }
}

#[test]
fn animation_lands_exactly_on_the_target() {
    let options = MapOptions::default_options();
    let mut map = MapCore::new(options);
    map.jump_to(&MapViewChange::default().with_center(Coord { x: 0, y: 0 }));
    let from = map.snapshot();
    let change = MapViewChange::default()
        .with_center(Coord { x: 10_000, y: -4_000 })
        .with_pitch(20_000);
    let plan = map.begin_fly(&change, 500);
    let ticks = match plan {
        AnimPlan::Animate { ticks } => ticks,
        AnimPlan::Jump => panic!("a half second spans many frames"),
    };
    for i in 0..ticks {
        map.anim_tick(&from, &change, i, ticks, 0);
    }
    map.finish_fly(&change);
    assert_eq!(map.state.center, Coord { x: 10_000, y: -4_000 });
    assert_eq!(map.state.pitch_md, 20_000);
    assert!(!map.animating);
}

#[test]
fn flat_projection_round_trips() {
    let options = MapOptions::default_options();
    let mut state = MapState::new(&options);
    state.set_zoom_res(1 << 30, false, &options, false);
    state.set_center(Coord { x: 123_456, y: -654_321 });
    let q = state.screen_to_map_flat(150, 40, 512, 512);
    let res = state.zoom_res as i64;
    assert_eq!(
        q,
        Coord { x: 123_456 + (150 - 256) * res, y: -654_321 + (256 - 40) * res }
    );
    let back = state.map_to_screen_flat(&q, 512, 512);
    assert_eq!(back, (150, 40));
}

#[test]
fn pitch_is_clamped_to_its_cap() {
    let mut map = MapCore::new(MapOptions::default_options());
    map.set_pitch_yaw(200_000, -5_000);
    assert_eq!(map.state.pitch_md, 80_000);
    assert_eq!(map.state.yaw_md, -5_000);
    map.set_pitch_yaw(-10, 0);
    assert_eq!(map.state.pitch_md, 0);
}

#[test]
fn zoom_around_clamps_to_the_zoom_window() {
    let options = MapOptions::default_options();
    let mut map = MapCore::new(options.clone());
    let res_max = options.tiling.get_resolution(options.zoom_min);
    // zooming out past the outer limit saturates there
    map.zoom_around(&Coord { x: 0, y: 0 }, 1, 8);
    assert_eq!(map.state.zoom_res, res_max);
    // zooming in halves the resolution
    map.zoom_around(&Coord { x: 0, y: 0 }, 2, 1);
    assert_eq!(map.state.zoom_res, res_max / 2);
    assert!(!map.animating);
}
