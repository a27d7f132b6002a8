use cxpk::cxmp::{
    can_tile, default_version, map_grid, pack_map_cxmp, tile_edges, CxmpDriver, Grid, Placement,
    TileEdges, TileUv, CXMP_MAGIC,
};
use cxpk::driver::{AssetDriver, Effect};
use cxpk::fault::{AssetError, Flaw};
use cxpk::hitbox::{
    assign_hitboxes, clamp_range, first_occurrences, hitbox_objects, objects_in, Hitbox, MapObject,
    PlacedHitbox, TileRange, TileSpan,
};
use cxpk::raster::Image;
use cxpk::tiles::{cut_tile, join_texture};
use cxpk::tree::Node;

fn texture(width: u32, height: u32) -> Image {
    let count = (width * height * 4) as usize;
    let pixels = (0..count).map(|i| (i as u8).wrapping_mul(11).wrapping_add(1)).collect();
    Image { width, height, pixels }
}

fn decoded(bytes: &[u8]) -> (u32, u32, Vec<u8>) {
    let image = image::load_from_memory(bytes).unwrap().into_rgba8();
    (image.width(), image.height(), image.into_raw())
}

fn uv(seed: u32) -> TileUv {
    TileUv { u0: seed, v0: seed + 1, u1: seed + 2, v1: seed + 3 }
}

fn u32_of(bytes: &[u8], at: usize) -> u32 {
    u32::from_le_bytes([bytes[at], bytes[at + 1], bytes[at + 2], bytes[at + 3]])
}

fn range(min_x: i32, min_y: i32, max_x: i32, max_y: i32) -> TileRange {
    TileRange { min_x, min_y, max_x, max_y }
}

#[test]
fn cxmp_identity() {
    assert_eq!(CxmpDriver.magic(), b"CXMP");
    assert_eq!(&CXMP_MAGIC, b"CXMP");
    assert_eq!(CxmpDriver.extension(), ".cxmp");
    assert_eq!(CxmpDriver.entry_file(), "map.entry");
    assert_eq!(default_version(), 1);
}

#[test]
fn grids_and_edges() {
    assert_eq!(map_grid(0, 5, 5), Err(Flaw::ZeroTileSize));
    assert_eq!(map_grid(4, 5, 8), Ok(Grid { cols: 2, rows: 2 }));
    assert_eq!(map_grid(4, 0, 8), Ok(Grid { cols: 0, rows: 2 }));
    assert_eq!(
        tile_edges(4, 5, 8, 1, 0),
        TileEdges { left: 4, top: 0, right: 5, bottom: 4 }
    );
    assert_eq!(
        tile_edges(4, 5, 8, 0, 1),
        TileEdges { left: 0, top: 4, right: 4, bottom: 8 }
    );
}

#[test]
fn tilings_that_fit() {
    assert!(can_tile(16, 100, 100));
    assert!(can_tile(1, 32768, 32768));
    assert!(!can_tile(1, 32768, 32769));
    assert!(!can_tile(u32::MAX, 1, 1));
    assert!(can_tile(u32::MAX - 1, 1, 1));
    assert!(!can_tile(0x8000_0000, 1, 2));
    assert!(can_tile(3, 0, 7));
}

#[test]
fn tiles_are_filled_up_beyond_the_edge() {
    let whole = texture(3, 2);
    let tile = cut_tile(&whole, 2, 1, 0);
    let mut expected = whole.pixels[8..12].to_vec();
    expected.extend_from_slice(&[0; 4]);
    expected.extend_from_slice(&whole.pixels[20..24]);
    expected.extend_from_slice(&[0; 4]);
    assert_eq!(tile, expected);
}

#[test]
fn tiles_join_to_the_texture() {
    let whole = texture(5, 3);
    let mut pixels = Vec::new();
    for ty in 0..2 {
        for tx in 0..3 {
            pixels.extend_from_slice(&cut_tile(&whole, 2, tx, ty));
        }
    }
    let again = join_texture(&pixels, 5, 3, 2, 3, 2);
    assert_eq!(again.pixels, whole.pixels);
    // Where there is no tile the texture stays empty.
    let part = join_texture(&pixels[..16], 3, 3, 2, 1, 1);
    assert_eq!(&part.pixels[0..8], &whole.pixels[0..8]);
    assert_eq!(&part.pixels[8..12], &[0; 4]);
    assert_eq!(&part.pixels[24..], &[0; 12]);
}

#[test]
fn hitboxes_of_a_map() {
    let text = r#"{ "layers": [
        { "name": "Ground", "objects": [ { "x": 9 } ] },
        { "name": "HITBOXES", "objects": [
            { "x": 1, "y": 2.5, "width": 3, "height": -4, "rotation": 45 },
            { "y": "no number" }
        ] },
        { "name": "Hitboxes", "objects": [ { "x": 7 } ] }
    ] }"#;
    let bits = |value: f64| value.to_bits();
    assert_eq!(
        hitbox_objects(text),
        vec![
            MapObject {
                x: bits(1.0),
                y: bits(2.5),
                width: bits(3.0),
                height: bits(-4.0),
                rotation: bits(45.0),
            },
            MapObject { x: 0, y: 0, width: 0, height: 0, rotation: 0 },
        ]
    );
    assert!(hitbox_objects("{ broken").is_empty());
    assert!(hitbox_objects("{}").is_empty());
    assert!(hitbox_objects("[1, 2]").is_empty());
    assert!(hitbox_objects(r#"{ "layers": [ { "name": "other" } ] }"#).is_empty());
    // The first hitbox layer counts, with or without objects.
    let text = r#"{ "layers": [ { "name": "hitboxes" }, { "name": "Hitboxes", "objects": [ {} ] } ] }"#;
    assert!(hitbox_objects(text).is_empty());
}

#[test]
fn ranges_are_held_against_the_map() {
    assert_eq!(
        clamp_range(range(-5, 1, 9, 1), 3, 2),
        Some(TileSpan { min_x: 0, min_y: 1, max_x: 2, max_y: 1 })
    );
    assert_eq!(clamp_range(range(3, 0, 9, 1), 3, 2), None);
    assert_eq!(clamp_range(range(0, -3, 1, -1), 3, 2), None);
    assert_eq!(clamp_range(range(0, 0, 0, 0), 0, 2), None);
    assert_eq!(clamp_range(range(i32::MIN, i32::MIN, i32::MAX, i32::MAX), 1, 0), None);
}

fn hitbox(x: u32, y: u32, seed: u32) -> Hitbox {
    Hitbox { x, y, w: seed, h: seed + 1, rotation: seed + 2 }
}

fn two_hitboxes() -> Vec<PlacedHitbox> {
    vec![
        PlacedHitbox {
            range: range(-1, 0, 1, 0),
            xs: vec![10, 11],
            ys: vec![20],
            w: 100,
            h: 101,
            rotation: 102,
        },
        PlacedHitbox {
            range: range(1, 0, 1, 5),
            xs: vec![31],
            ys: vec![40, 41],
            w: 200,
            h: 201,
            rotation: 202,
        },
        PlacedHitbox { range: range(7, 7, 8, 8), xs: vec![], ys: vec![], w: 1, h: 1, rotation: 1 },
    ]
}

#[test]
fn hitboxes_are_dealt_out() {
    let buckets = assign_hitboxes(&two_hitboxes(), 2, 2);
    assert_eq!(buckets.len(), 4);
    assert_eq!(buckets[0], vec![hitbox(10, 20, 100)]);
    assert_eq!(buckets[1], vec![hitbox(11, 20, 100), hitbox(31, 40, 200)]);
    assert!(buckets[2].is_empty());
    assert_eq!(buckets[3], vec![hitbox(31, 41, 200)]);
}

#[test]
fn map_round_trip() {
    let whole = texture(5, 3);
    let uvs: Vec<TileUv> = (0..4).map(|i| uv(10 * i)).collect();
    let blob = pack_map_cxmp(0x1_0007, 3, &whole, &uvs, &vec![]).unwrap();
    assert_eq!(&blob[0..8], &[b'C', b'X', b'M', b'P', 7, 0, 3, 0]);
    let whole = texture(4, 4);
    let blob = pack_map_cxmp(7, 2, &whole, &uvs, &two_hitboxes()).unwrap();
    let header: Vec<u32> = (2..12).map(|i| u32_of(&blob, 4 * i)).collect();
    assert_eq!(header, vec![4, 4, 2, 2, 4, 4, 48, 112, 176, 208]);
    assert_eq!(blob.len(), 208 + 80);
    assert_eq!(u32_of(&blob, 48), 0);
    assert_eq!(u32_of(&blob, 64 + 12), 13);
    assert_eq!(&blob[112..120], &whole.pixels[0..8]);
    assert_eq!(&blob[120..128], &whole.pixels[16..24]);
    let table: Vec<u32> = (0..8).map(|i| u32_of(&blob, 176 + 4 * i)).collect();
    assert_eq!(table, vec![0, 1, 1, 2, 3, 0, 3, 1]);
    assert_eq!(u32_of(&blob, 208), 10);
    assert_eq!(u32_of(&blob, 208 + 16), 102);

    assert!(CxmpDriver.can_unpack(&blob));
    let unpacked = CxmpDriver.unpack(&blob);
    assert_eq!(unpacked.outcome.unwrap(), (7, 2));
    assert_eq!(unpacked.effects.len(), 2);
    assert!(matches!(unpacked.effects[0], Effect::CreateFolder));
    match &unpacked.effects[1] {
        Effect::WriteFile { name, contents } => {
            assert_eq!(name, "texture.png");
            assert_eq!(decoded(contents), (4, 4, whole.pixels.clone()));
        }
        Effect::CreateFolder => panic!("no file"),
    }
    assert_eq!(
        CxmpDriver.placements(&blob),
        vec![
            Placement { column: 0, row: 0, hitbox: hitbox(10, 20, 100) },
            Placement { column: 1, row: 0, hitbox: hitbox(11, 20, 100) },
            Placement { column: 1, row: 0, hitbox: hitbox(31, 40, 200) },
            Placement { column: 1, row: 1, hitbox: hitbox(31, 41, 200) },
        ]
    );
}

#[test]
fn map_with_partial_tiles_round_trip() {
    let whole = texture(7, 5);
    let uvs: Vec<TileUv> = (0..6).map(|i| uv(i)).collect();
    let blob = pack_map_cxmp(1, 3, &whole, &uvs, &vec![]).unwrap();
    assert!(CxmpDriver.can_unpack(&blob));
    let unpacked = CxmpDriver.unpack(&blob);
    assert_eq!(unpacked.outcome.unwrap(), (1, 3));
    match &unpacked.effects[1] {
        Effect::WriteFile { contents, .. } => {
            assert_eq!(decoded(contents), (7, 5, whole.pixels.clone()));
        }
        Effect::CreateFolder => panic!("no file"),
    }
    assert!(CxmpDriver.placements(&blob).is_empty());
}

#[test]
fn map_without_tile_size() {
    let outcome = pack_map_cxmp(1, 0, &texture(1, 1), &vec![], &vec![]);
    assert!(matches!(outcome, Err(AssetError::Flawed(Flaw::ZeroTileSize))));
}

#[test]
fn map_headers() {
    let unpacked = CxmpDriver.unpack(&[0; 47]);
    assert!(unpacked.effects.is_empty());
    assert!(matches!(unpacked.outcome, Err(AssetError::Flawed(Flaw::TooShort))));
    let unpacked = CxmpDriver.unpack(&[0; 48]);
    assert!(unpacked.effects.is_empty());
    assert!(matches!(unpacked.outcome, Err(AssetError::Flawed(Flaw::BadMagic))));
}

#[test]
fn map_without_pixels_cannot_be_saved() {
    let flat = Image { width: 0, height: 3, pixels: vec![] };
    let blob = pack_map_cxmp(1, 2, &flat, &vec![], &vec![]).unwrap();
    assert!(CxmpDriver.can_unpack(&blob));
    let unpacked = CxmpDriver.unpack(&blob);
    assert!(matches!(unpacked.outcome, Err(AssetError::Save(0, _))));
    assert_eq!(unpacked.effects.len(), 2);
}

#[test]
fn maps_that_end_early_cannot_be_unpacked() {
    let uvs: Vec<TileUv> = (0..4).map(|i| uv(i)).collect();
    let blob = pack_map_cxmp(7, 2, &texture(4, 4), &uvs, &two_hitboxes()).unwrap();
    assert!(!CxmpDriver.can_unpack(&blob[..blob.len() - 1]));
    assert!(!CxmpDriver.can_unpack(&blob[..200]));
    assert!(!CxmpDriver.can_unpack(&blob[..100]));
    assert!(CxmpDriver.can_unpack(&blob[..40]));
    let mut bad = blob.clone();
    bad[176] = 4;
    assert!(!CxmpDriver.can_unpack(&bad));
    let mut bad = blob.clone();
    bad[16] = 0;
    assert!(!CxmpDriver.can_unpack(&bad));
    let mut bad = blob;
    bad[16] = 6;
    assert!(!CxmpDriver.can_unpack(&bad));
}

#[test]
fn map_description() {
    assert_eq!(
        CxmpDriver.describe(3, 32),
        "version = 3\ntile_size = 32\ntexture = \"texture.png\"\nhitboxes = \"hitboxes.json\"\n"
    );
}

#[test]
fn hitboxes_are_listed_once() {
    let a = (1, 2, 3, 4, 5);
    let b = (1, 2, 3, 4, 6);
    assert_eq!(first_occurrences(&vec![a, b, a, a, b, (0, 2, 3, 4, 5)]), vec![0, 1, 5]);
    assert!(first_occurrences(&vec![]).is_empty());
}

#[test]
fn a_map_without_hitboxes_packs_to_the_same_blob() {
    let whole = texture(5, 4);
    let uvs: Vec<TileUv> = (0..6).map(uv).collect();
    let far = PlacedHitbox {
        range: range(9, 9, 9, 9),
        xs: vec![],
        ys: vec![],
        w: 1,
        h: 1,
        rotation: 1,
    };
    let blob = pack_map_cxmp(3, 2, &whole, &uvs, &vec![far]).unwrap();
    let unpacked = CxmpDriver.unpack(&blob);
    let (version, size) = unpacked.outcome.unwrap();
    let (width, height, pixels) = match &unpacked.effects[1] {
        Effect::WriteFile { contents, .. } => decoded(contents),
        Effect::CreateFolder => panic!("no file"),
    };
    let again = Image { width, height, pixels };
    assert!(CxmpDriver.placements(&blob).is_empty());
    let same = pack_map_cxmp(version as u32, size as u32, &again, &uvs, &vec![]).unwrap();
    assert_eq!(same, blob);
}

#[test]
fn other_layers_are_passed_over() {
    let named = |name: &str, objects: Vec<Node>| {
        Node::Table(vec![
            ("name".to_string(), Node::Text(name.to_string())),
            ("objects".to_string(), Node::List(objects)),
        ])
    };
    let object = |bits: u64| Node::Table(vec![("x".to_string(), Node::Number(Some(bits)))]);
    let map = |layers: Vec<Node>| Node::Table(vec![("layers".to_string(), Node::List(layers))]);
    let wanted = || named("hitBoxes", vec![object(5), Node::Null]);
    let full = map(vec![named("ground", vec![object(1)]), wanted(), named("Hitboxes", vec![])]);
    let bare = map(vec![wanted()]);
    let found = objects_in(&full);
    assert_eq!(found, objects_in(&bare));
    assert_eq!(
        found,
        vec![
            MapObject { x: 5, y: 0, width: 0, height: 0, rotation: 0 },
            MapObject { x: 0, y: 0, width: 0, height: 0, rotation: 0 },
        ]
    );
    assert!(objects_in(&map(vec![named("ground", vec![object(1)])])).is_empty());
    assert!(objects_in(&Node::Null).is_empty());
}
