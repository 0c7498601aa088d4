use mapsdk::geom::{Bbox, Coord, QuadCoords};
use mapsdk::layer::{TiledLayer, TiledLayerOptions};
use mapsdk::tiling::{TileId, Tiling};

fn world() -> Tiling {
    // a 2-level world: 1 tile at level 0, 2 x 2 tiles at level 1
    Tiling::new(256, 1 << 20, -(1 << 19), 1 << 19, 2)
}

fn whole_world_bounds() -> QuadCoords {
    QuadCoords::from_bbox(&Bbox {
        xmin: -(1 << 19),
        ymin: -(1 << 19),
        xmax: 1 << 19,
        ymax: 1 << 19,
    })
}

#[test]
fn update_requests_fetches_and_promotes_responses() {
    let tiling = world();
    let mut layer = TiledLayer::new(
        "http://tiles.example/{z}/{x}/{y}.png".to_string(),
        TiledLayerOptions::default_options(),
    );
    let bounds = whole_world_bounds();
    let center = Coord { x: 0, y: 0 };
    let (needed, plan) = layer.update(&tiling, &bounds, 1, &center);
    assert_eq!(needed.len(), 4);
    assert_eq!(plan.request.len(), 4);
    assert!(plan.promote.is_empty());
    assert!(plan.resident.is_empty());
    // the four requests go on the wire
    let mut urls = Vec::new();
    while let Some(req) = layer.pop_next_request() {
        let mapsdk::fetch::HttpRequest::Get { id, url, .. } = req;
        assert_eq!(id.z, 1);
        urls.push(url);
    }
    assert_eq!(urls.len(), 4);
    assert!(urls.contains(&"http://tiles.example/1/0/0.png".to_string()));
    // two tiles come back
    layer.on_tile_loaded(&TileId { z: 1, x: 0, y: 0 }, vec![1, 2, 3]);
    layer.on_tile_loaded(&TileId { z: 1, x: 1, y: 1 }, vec![4]);
    let (_, plan2) = layer.update(&tiling, &bounds, 1, &center);
    assert_eq!(plan2.promote.len(), 2);
    assert!(layer.resident_ids.contains(&TileId { z: 1, x: 0, y: 0 }));
    assert!(layer.resident_ids.contains(&TileId { z: 1, x: 1, y: 1 }));
    assert_eq!(
        layer.resident_payload(&TileId { z: 1, x: 0, y: 0 }),
        Some(vec![1, 2, 3])
    );
    // the two tiles still missing stay outstanding, not re-requested
    assert!(plan2.request.is_empty());
}

#[test]
fn coarse_parent_stands_in_until_the_fine_tile_arrives() {
    let tiling = world();
    let mut layer = TiledLayer::new(
        "http://tiles.example/{z}/{x}/{y}.png".to_string(),
        TiledLayerOptions::default_options().with_max_up_scale_level(1),
    );
    let bounds = whole_world_bounds();
    let center = Coord { x: 0, y: 0 };
    // the level-0 world tile was fetched on an earlier, coarser view
    layer.on_tile_loaded(&TileId { z: 0, x: 0, y: 0 }, vec![9]);
    let (_, plan) = layer.update(&tiling, &bounds, 1, &center);
    assert_eq!(plan.fallback, vec![TileId { z: 0, x: 0, y: 0 }]);
    assert_eq!(layer.resident_ids, vec![TileId { z: 0, x: 0, y: 0 }]);
    assert_eq!(plan.request.len(), 4);
}

#[test]
fn failed_fetches_are_retried_on_the_next_pass() {
    let tiling = world();
    let mut layer = TiledLayer::new(
        "http://tiles.example/{z}/{x}/{y}.png".to_string(),
        TiledLayerOptions::default_options(),
    );
    let bounds = whole_world_bounds();
    let center = Coord { x: 0, y: 0 };
    let (_, plan) = layer.update(&tiling, &bounds, 1, &center);
    assert_eq!(plan.request.len(), 4);
    while layer.pop_next_request().is_some() {}
    // one fetch fails: its outstanding mark is cleared
    let failed = TileId { z: 1, x: 0, y: 0 };
    layer.on_tile_failed(&failed);
    let (_, plan2) = layer.update(&tiling, &bounds, 1, &center);
    assert_eq!(plan2.request, vec![failed]);
}

#[test]
fn fetches_serve_the_nearest_tile_first() {
    let tiling = world();
    let mut layer = TiledLayer::new(
        "http://tiles.example/{z}/{x}/{y}.png".to_string(),
        TiledLayerOptions::default_options(),
    );
    let bounds = whole_world_bounds();
    // a centre in the upper-left world tile
    let center = Coord { x: -200_000, y: 200_000 };
    let (_, _) = layer.update(&tiling, &bounds, 1, &center);
    // the queue serves the tile under the centre before the others
    assert_eq!(
        layer.pop_next_request().unwrap().id(),
        TileId { z: 1, x: 0, y: 0 }
    );
}
