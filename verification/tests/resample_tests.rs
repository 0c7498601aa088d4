use mapsdk::resample::resolve_tiles;
use mapsdk::tiling::{TileId, Tiling};

fn world() -> Tiling {
    Tiling::new(256, 1 << 20, -(1 << 19), 1 << 19, 8)
}

fn is_ancestor(a: &TileId, b: &TileId) -> bool {
    a.z < b.z && {
        let l = b.z - a.z;
        a.x == b.x >> l && a.y == b.y >> l
    }
}

#[test]
fn cached_needed_tiles_are_promoted() {
    let tiling = world();
    let needed = vec![TileId { z: 2, x: 1, y: 1 }, TileId { z: 2, x: 2, y: 1 }];
    let plan = resolve_tiles(
        &tiling,
        2,
        &needed,
        &None,
        &Vec::new(),
        &Vec::new(),
        &vec![TileId { z: 2, x: 1, y: 1 }],
        &Vec::new(),
        5,
    );
    assert_eq!(plan.promote, vec![TileId { z: 2, x: 1, y: 1 }]);
    assert_eq!(plan.request, vec![TileId { z: 2, x: 2, y: 1 }]);
    assert!(plan.cancel.is_empty());
    assert!(plan.resident.contains(&TileId { z: 2, x: 1, y: 1 }));
}

#[test]
fn requests_are_ordered_by_distance_from_the_centre() {
    let tiling = world();
    let needed = vec![
        TileId { z: 3, x: 0, y: 0 },
        TileId { z: 3, x: 3, y: 3 },
        TileId { z: 3, x: 1, y: 1 },
        TileId { z: 3, x: 2, y: 1 },
    ];
    let center = Some(TileId { z: 3, x: 1, y: 1 });
    let plan = resolve_tiles(
        &tiling,
        3,
        &needed,
        &center,
        &Vec::new(),
        &Vec::new(),
        &Vec::new(),
        &Vec::new(),
        5,
    );
    assert_eq!(plan.request.len(), 4);
    assert_eq!(plan.request[0], TileId { z: 3, x: 1, y: 1 });
    assert_eq!(plan.request[1], TileId { z: 3, x: 2, y: 1 });
    // the two remaining tiles both sit at distance two and four
    assert_eq!(plan.request[2], TileId { z: 3, x: 0, y: 0 });
    assert_eq!(plan.request[3], TileId { z: 3, x: 3, y: 3 });
}

#[test]
fn stale_fetches_are_cancelled() {
    let tiling = world();
    let needed = vec![TileId { z: 1, x: 0, y: 0 }];
    let requesting = vec![TileId { z: 1, x: 0, y: 0 }, TileId { z: 1, x: 1, y: 1 }];
    let plan = resolve_tiles(
        &tiling,
        1,
        &needed,
        &None,
        &Vec::new(),
        &requesting,
        &Vec::new(),
        &Vec::new(),
        5,
    );
    assert_eq!(plan.cancel, vec![TileId { z: 1, x: 1, y: 1 }]);
    // the one still wanted is already in flight, so nothing new is asked
    assert!(plan.request.is_empty());
}

#[test]
fn cached_parent_stands_in_for_a_missing_tile() {
    let tiling = world();
    let needed = vec![TileId { z: 3, x: 4, y: 2 }];
    let cached = vec![TileId { z: 1, x: 1, y: 0 }];
    let plan = resolve_tiles(
        &tiling,
        3,
        &needed,
        &None,
        &Vec::new(),
        &Vec::new(),
        &cached,
        &Vec::new(),
        5,
    );
    assert_eq!(plan.fallback, vec![TileId { z: 1, x: 1, y: 0 }]);
    assert!(plan.resident.contains(&TileId { z: 1, x: 1, y: 0 }));
    // the missing tile itself is requested meanwhile
    assert_eq!(plan.request, vec![TileId { z: 3, x: 4, y: 2 }]);
}

#[test]
fn cached_children_stand_in_when_no_ancestor_is_cached() {
    let tiling = world();
    let needed = vec![TileId { z: 3, x: 4, y: 2 }];
    let cached = vec![TileId { z: 4, x: 8, y: 4 }, TileId { z: 4, x: 9, y: 5 }];
    let plan = resolve_tiles(
        &tiling,
        3,
        &needed,
        &None,
        &Vec::new(),
        &Vec::new(),
        &cached,
        &Vec::new(),
        5,
    );
    assert_eq!(plan.fallback.len(), 2);
    assert!(plan.resident.contains(&TileId { z: 4, x: 8, y: 4 }));
    assert!(plan.resident.contains(&TileId { z: 4, x: 9, y: 5 }));
}

#[test]
fn no_tile_and_its_ancestor_both_stay_resident() {
    let tiling = world();
    // two sibling tiles, one resident, one missing with the shared parent
    // cached: the parent stands in and the finer sibling leaves, so the
    // same screen area is never covered twice
    let needed = vec![TileId { z: 3, x: 4, y: 2 }, TileId { z: 3, x: 5, y: 2 }];
    let resident = vec![TileId { z: 3, x: 4, y: 2 }];
    let cached = vec![TileId { z: 2, x: 2, y: 1 }];
    let plan = resolve_tiles(
        &tiling,
        3,
        &needed,
        &None,
        &resident,
        &Vec::new(),
        &cached,
        &Vec::new(),
        5,
    );
    assert!(plan.resident.contains(&TileId { z: 2, x: 2, y: 1 }));
    assert!(!plan.resident.contains(&TileId { z: 3, x: 4, y: 2 }));
    for a in plan.resident.iter() {
        for b in plan.resident.iter() {
            assert!(!is_ancestor(a, b));
        }
    }
}

#[test]
fn unneeded_resident_tiles_are_evicted() {
    let tiling = world();
    let needed = vec![TileId { z: 2, x: 0, y: 0 }];
    let resident = vec![TileId { z: 2, x: 0, y: 0 }, TileId { z: 2, x: 3, y: 3 }];
    let plan = resolve_tiles(
        &tiling,
        2,
        &needed,
        &None,
        &resident,
        &Vec::new(),
        &Vec::new(),
        &Vec::new(),
        5,
    );
    assert_eq!(plan.evict, vec![TileId { z: 2, x: 3, y: 3 }]);
    assert_eq!(plan.resident, vec![TileId { z: 2, x: 0, y: 0 }]);
}
