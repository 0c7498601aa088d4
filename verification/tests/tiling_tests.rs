use mapsdk::geom::Coord;
use mapsdk::tiling::{TileId, Tiling};

/// Map units per metre of the default scheme: level 0 of the default
/// pyramid spans the classic web-mercator world of 2 * 20037508.342789244
/// metres across 256-pixel tiles.
fn units_per_metre() -> f64 {
    (1u64 << 46) as f64 / 156543.03392804094
}

fn metres(v: f64) -> u64 {
    (v * units_per_metre()).round() as u64
}

#[test]
fn test_tiling() {
    let tiling = Tiling::default_scheme();
    for i in 0..tiling.zoom_resolutions.len() - 1 {
        assert_eq!(tiling.zoom_resolutions[i], tiling.zoom_resolutions[i + 1] * 2);
    }

    assert_eq!(tiling.get_closest_lower_zoom(metres(200000.0)), 0);
    assert_eq!(tiling.get_closest_lower_zoom(metres(156543.03392804094)), 0);
    assert_eq!(tiling.get_closest_lower_zoom(metres(156543.0)), 0);
    assert_eq!(tiling.get_closest_lower_zoom(metres(100000.0)), 0);
    assert_eq!(tiling.get_closest_lower_zoom(metres(39000.0)), 2);
    assert_eq!(tiling.get_closest_lower_zoom(metres(0.6)), 17);
    assert_eq!(tiling.get_closest_lower_zoom(metres(0.0001)), 23);

    assert_eq!(tiling.get_closest_zoom(metres(200000.0)), 0);
    assert_eq!(tiling.get_closest_zoom(metres(156543.03392804094)), 0);
    assert_eq!(tiling.get_closest_zoom(metres(156543.0)), 0);
    assert_eq!(tiling.get_closest_zoom(metres(100000.0)), 1);
    assert_eq!(tiling.get_closest_zoom(metres(39000.0)), 2);
    assert_eq!(tiling.get_closest_zoom(metres(0.6)), 18);
    assert_eq!(tiling.get_closest_lower_zoom(metres(0.0001)), 23);
}

#[test]
fn resolution_halves_at_every_level() {
    let tiling = Tiling::new(256, 1 << 20, -(1 << 19), 1 << 19, 5);
    for i in 0..4 {
        assert_eq!(tiling.get_resolution(i), 2 * tiling.get_resolution(i + 1));
    }
    // zooms past the table clamp to the finest level
    assert_eq!(tiling.get_resolution(99), tiling.get_resolution(4));
}

#[test]
fn tile_id_and_bbox_are_inverse() {
    let tiling = Tiling::new(256, 1 << 20, -(1 << 19), 1 << 19, 3);
    // level 1 splits the world into 2 x 2 tiles
    assert_eq!(tiling.get_max_x_y(1), 1);
    let t = tiling
        .get_tile_id(1, &Coord { x: 1, y: 1 })
        .expect("level inside the table");
    assert_eq!(t, TileId { z: 1, x: 1, y: 0 });
    let bbox = tiling.get_tile_bbox(&t).expect("world tile has a box");
    assert_eq!(bbox.xmin, 0);
    assert_eq!(bbox.xmax, 1 << 19);
    assert_eq!(bbox.ymax, 1 << 19);
    assert_eq!(bbox.ymin, 0);
    // a point inside that box maps back to the same tile
    let back = tiling
        .get_tile_id(1, &Coord { x: bbox.xmin + 5, y: bbox.ymax - 5 })
        .unwrap();
    assert_eq!(back, t);
    // out-of-table levels fail
    assert!(tiling.get_tile_id(3, &Coord { x: 0, y: 0 }).is_none());
    assert!(tiling
        .get_tile_bbox(&TileId { z: 9, x: 0, y: 0 })
        .is_none());
}

#[test]
fn roll_up_and_drill_down() {
    let tiling = Tiling::new(256, 1 << 20, -(1 << 19), 1 << 19, 5);
    let t = TileId { z: 3, x: 5, y: 6 };
    assert_eq!(
        tiling.roll_up_tile_id(&t, 1),
        Some(TileId { z: 2, x: 2, y: 3 })
    );
    assert_eq!(
        tiling.roll_up_tile_id(&t, 3),
        Some(TileId { z: 0, x: 0, y: 0 })
    );
    assert_eq!(tiling.roll_up_tile_id(&t, 4), None);

    let parent = TileId { z: 1, x: 1, y: 0 };
    let children = tiling.drill_down_tile_ids(&parent, 1);
    assert_eq!(children.len(), 4);
    assert!(children.contains(&TileId { z: 2, x: 2, y: 0 }));
    assert!(children.contains(&TileId { z: 2, x: 2, y: 1 }));
    assert!(children.contains(&TileId { z: 2, x: 3, y: 0 }));
    assert!(children.contains(&TileId { z: 2, x: 3, y: 1 }));
    // the finest level has no children
    let leaf = TileId { z: 4, x: 0, y: 0 };
    assert_eq!(tiling.drill_down_tile_ids(&leaf, 1).len(), 0);
}
