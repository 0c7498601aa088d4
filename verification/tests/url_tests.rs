use mapsdk::tiling::TileId;
use mapsdk::urls::format_tile_url;

#[test]
fn test_format_tile_url() {
    assert_eq!(
        format_tile_url(
            "http://{s}.tile.osm.org/{z}/{x}/{y}.png",
            2,
            0,
            1,
            &None::<Vec<String>>
        ),
        "http://{s}.tile.osm.org/2/0/1.png"
    );
    assert_eq!(
        format_tile_url(
            "http://{s}.tile.osm.org/{z}/{x}/{y}.png",
            2,
            0,
            1,
            &None::<Vec<String>>
        ),
        "http://{s}.tile.osm.org/2/0/1.png"
    );
    assert_eq!(
        format_tile_url(
            "http://{s}.tile.osm.org/{z}/{x}/{y}.png",
            2,
            0,
            1,
            &Some(vec!["a".to_string(), "b".to_string(), "c".to_string()])
        ),
        "http://b.tile.osm.org/2/0/1.png"
    );
}

#[test]
fn negative_coordinates_and_empty_subdomains() {
    // an empty subdomain list leaves {s} untouched
    assert_eq!(
        format_tile_url("{s}/{z}/{x}/{y}", 3, -2, -15, &Some(Vec::<String>::new())),
        "{s}/3/-2/-15"
    );
    // repeated placeholders are all substituted
    assert_eq!(
        format_tile_url("{x}{x}", 0, 7, 0, &None::<Vec<String>>),
        "77"
    );
}

#[test]
fn tile_id_renders_as_slash_separated() {
    let t = TileId { z: 12, x: -3, y: 4096 };
    assert_eq!(t.id_string(), "12/-3/4096");
}
