use cxpk::cxta::{CxtaDriver, Item, CXTA_MAGIC, MAX_ATLAS_DIM};
use cxpk::driver::{AssetDriver, Effect};
use cxpk::fault::{AssetError, Flaw};
use cxpk::raster::Image;
use xxhash_rust::xxh64::xxh64;

fn image(width: u32, height: u32, seed: u8) -> Image {
    let count = (width * height * 4) as usize;
    let pixels = (0..count).map(|i| (i as u8).wrapping_mul(3).wrapping_add(seed)).collect();
    Image { width, height, pixels }
}

fn names(list: &[&str]) -> Vec<String> {
    list.iter().map(|name| name.to_string()).collect()
}

fn decoded(bytes: &[u8]) -> (u32, u32, Vec<u8>) {
    let image = image::load_from_memory(bytes).unwrap().into_rgba8();
    (image.width(), image.height(), image.into_raw())
}

fn written(effects: &[Effect]) -> Vec<(String, Vec<u8>)> {
    effects
        .iter()
        .filter_map(|effect| match effect {
            Effect::CreateFolder => None,
            Effect::WriteFile { name, contents } => Some((name.clone(), contents.clone())),
        })
        .collect()
}

fn hash_of(name: &str) -> u64 {
    xxh64(name.as_bytes(), 0)
}

#[test]
fn cxta_identity() {
    assert_eq!(CxtaDriver.magic(), b"CXTA");
    assert_eq!(&CXTA_MAGIC, b"CXTA");
    assert_eq!(CxtaDriver.extension(), ".cxta");
    assert_eq!(CxtaDriver.entry_file(), "atlas.entry");
    assert_eq!(MAX_ATLAS_DIM, 4096);
}

#[test]
fn atlas_round_trip() {
    let list = names(&["zeta", "alpha", "mid"]);
    let images = vec![Some(image(2, 3, 1)), Some(image(2, 3, 60)), Some(image(2, 3, 120))];
    assert!(CxtaDriver.packable(&images));
    let blob = CxtaDriver.pack(&list, &images).unwrap();
    assert_eq!(&blob[0..4], b"CXTA");
    assert_eq!(&blob[4..8], &[3, 0, 0, 0]);
    let length = u32::from_le_bytes([blob[8], blob[9], blob[10], blob[11]]) as usize;
    let (width, height, _) = decoded(&blob[12..12 + length]);
    assert_eq!((width, height), (6, 3));
    let items = &blob[12 + length..];
    assert_eq!(items.len(), 48);
    assert_eq!(&items[0..8], &hash_of("alpha").to_le_bytes());
    assert_eq!(&items[8..16], &[0, 0, 0, 0, 2, 0, 3, 0]);
    assert_eq!(&items[16..24], &hash_of("mid").to_le_bytes());
    assert_eq!(&items[24..32], &[2, 0, 0, 0, 2, 0, 3, 0]);
    assert_eq!(&items[32..40], &hash_of("zeta").to_le_bytes());
    assert_eq!(&items[40..48], &[4, 0, 0, 0, 2, 0, 3, 0]);

    let unpacked = CxtaDriver.unpack(&blob);
    assert!(unpacked.outcome.is_ok());
    assert!(matches!(unpacked.effects[0], Effect::CreateFolder));
    let files = written(&unpacked.effects);
    assert_eq!(files.len(), 4);
    for (k, (name, position)) in [("alpha", 1), ("mid", 2), ("zeta", 0)].iter().enumerate() {
        assert_eq!(files[k].0, format!("{:016x}.png", hash_of(name)));
        let pixels = images[*position].as_ref().unwrap().pixels.clone();
        assert_eq!(decoded(&files[k].1), (2, 3, pixels));
    }
    assert_eq!(files[3].0, "atlas.entry");
    let lines: Vec<String> = ["alpha", "mid", "zeta"]
        .iter()
        .map(|name| {
            format!(
                "{{ name = \"{:016x}\", file = \"{:016x}.png\" }}",
                hash_of(name),
                hash_of(name)
            )
        })
        .collect();
    let expected = format!("[[images]]\n{}", lines.join("\n[[images]]\n"));
    assert_eq!(files[3].1, expected.as_bytes());
}

#[test]
fn the_last_image_of_a_name_counts() {
    let list = names(&["b", "a", "b"]);
    let images = vec![Some(image(1, 1, 1)), Some(image(1, 1, 2)), Some(image(1, 1, 3))];
    let blob = CxtaDriver.pack(&list, &images).unwrap();
    assert_eq!(&blob[4..8], &[2, 0, 0, 0]);
    let unpacked = CxtaDriver.unpack(&blob);
    let files = written(&unpacked.effects);
    assert_eq!(files[0].0, format!("{:016x}.png", hash_of("a")));
    assert_eq!(decoded(&files[0].1).2, image(1, 1, 2).pixels);
    assert_eq!(files[1].0, format!("{:016x}.png", hash_of("b")));
    assert_eq!(decoded(&files[1].1).2, image(1, 1, 3).pixels);
}

#[test]
fn atlas_wraps_into_rows() {
    let list = names(&["a", "b", "c"]);
    let images: Vec<Option<Image>> = (0..3).map(|i| Some(image(2000, 2, i * 40))).collect();
    let blob = CxtaDriver.pack(&list, &images).unwrap();
    let parsed = CxtaDriver.parse(&blob).unwrap();
    let (width, height, _) = decoded(&parsed.png);
    assert_eq!((width, height), (4000, 4));
    assert_eq!(parsed.items[1].x, 2000);
    assert_eq!(parsed.items[1].y, 0);
    assert_eq!(parsed.items[2].x, 0);
    assert_eq!(parsed.items[2].y, 2);
    let files = written(&CxtaDriver.unpack(&blob).effects);
    for i in 0..3 {
        assert_eq!(decoded(&files[i].1).2, images[i].as_ref().unwrap().pixels);
    }
}

#[test]
fn atlas_pack_errors() {
    let outcome = CxtaDriver.pack(&vec![], &vec![]);
    assert!(matches!(outcome, Err(AssetError::Flawed(Flaw::NoImages))));
    let outcome = CxtaDriver.pack(&names(&["b", "a"]), &vec![Some(image(1, 1, 0)), None]);
    assert!(matches!(outcome, Err(AssetError::Flawed(Flaw::Unreadable { index: 1 }))));
    let outcome = CxtaDriver.pack(
        &names(&["b", "a"]),
        &vec![Some(image(1, 2, 0)), Some(image(3, 1, 0))],
    );
    assert!(matches!(
        outcome,
        Err(AssetError::Flawed(Flaw::ImageSizeDiffers {
            index: 0,
            width: 1,
            height: 2,
            first_width: 3,
            first_height: 1,
        }))
    ));
    let tall: Vec<Option<Image>> = (0..3).map(|i| Some(image(4096, 2000, i))).collect();
    let outcome = CxtaDriver.pack(&names(&["a", "b", "c"]), &tall);
    assert!(matches!(outcome, Err(AssetError::Flawed(Flaw::AtlasTooLarge))));
    let flat = Image { width: 1, height: 0, pixels: vec![] };
    let outcome = CxtaDriver.pack(&names(&["a"]), &vec![Some(flat)]);
    assert!(matches!(outcome, Err(AssetError::Encode(0, _))));
}

#[test]
fn layouts_that_cannot_be_computed() {
    let thin = Image { width: 0, height: 4, pixels: vec![] };
    assert!(!CxtaDriver.packable(&vec![Some(thin)]));
    assert!(!CxtaDriver.packable(&vec![Some(image(4097, 1, 0))]));
    assert!(CxtaDriver.packable(&vec![Some(image(4096, 1, 0))]));
    assert!(CxtaDriver.packable(&vec![Some(image(4097, 1, 0)), None]));
    assert!(CxtaDriver.packable(&vec![Some(image(4097, 1, 0)), Some(image(1, 1, 0))]));
    assert!(CxtaDriver.packable(&vec![]));
}

#[test]
fn atlas_headers() {
    let unpacked = CxtaDriver.unpack(&[0; 11]);
    assert!(unpacked.effects.is_empty());
    assert!(matches!(unpacked.outcome, Err(AssetError::Flawed(Flaw::TooShort))));
    let unpacked = CxtaDriver.unpack(&[0; 12]);
    assert!(unpacked.effects.is_empty());
    assert!(matches!(unpacked.outcome, Err(AssetError::Flawed(Flaw::BadMagic))));
    let unpacked = CxtaDriver.unpack(b"CXTA\0\0\0\0\x01\0\0\0");
    assert!(unpacked.effects.is_empty());
    assert!(matches!(unpacked.outcome, Err(AssetError::Flawed(Flaw::PngCutShort))));
    let unpacked = CxtaDriver.unpack(b"CXTA\0\0\0\0\x01\0\0\0x");
    assert!(unpacked.effects.is_empty());
    assert!(matches!(unpacked.outcome, Err(AssetError::Decode(0, _))));
}

#[test]
fn items_cut_short() {
    let list = names(&["a", "b"]);
    let images = vec![Some(image(1, 1, 1)), Some(image(1, 1, 2))];
    let blob = CxtaDriver.pack(&list, &images).unwrap();
    let unpacked = CxtaDriver.unpack(&blob[..blob.len() - 1]);
    assert!(matches!(unpacked.outcome, Err(AssetError::Flawed(Flaw::ItemsCutShort))));
    assert_eq!(written(&unpacked.effects).len(), 1);
}

#[test]
fn items_outside_the_atlas() {
    let blob = CxtaDriver.pack(&names(&["a", "b"]), &vec![Some(image(1, 1, 1)), Some(image(1, 1, 2))]).unwrap();
    let mut bad = blob.clone();
    let last = bad.len();
    bad[last - 8] = 2;
    let unpacked = CxtaDriver.unpack(&bad);
    assert!(matches!(
        unpacked.outcome,
        Err(AssetError::Flawed(Flaw::CellOutside { index: 1 }))
    ));
    assert_eq!(written(&unpacked.effects).len(), 1);
    let mut bad = blob;
    bad[last - 4] = 0;
    let unpacked = CxtaDriver.unpack(&bad);
    assert!(matches!(unpacked.outcome, Err(AssetError::Save(1, _))));
    let files = written(&unpacked.effects);
    assert_eq!(files.len(), 2);
    assert!(files[1].1.is_empty());
}

#[test]
fn an_atlas_without_items() {
    let mut png = Vec::new();
    image::RgbaImage::new(1, 1)
        .write_to(&mut std::io::Cursor::new(&mut png), image::ImageOutputFormat::Png)
        .unwrap();
    let mut blob = b"CXTA\0\0\0\0".to_vec();
    blob.extend_from_slice(&(png.len() as u32).to_le_bytes());
    blob.extend_from_slice(&png);
    let unpacked = CxtaDriver.unpack(&blob);
    assert!(unpacked.outcome.is_ok());
    assert_eq!(
        written(&unpacked.effects),
        vec![("atlas.entry".to_string(), b"[[images]]\n".to_vec())]
    );
}

#[test]
fn items_are_described_by_their_hashes() {
    let item = Item { hash: 0xabc, x: 0, y: 0, width: 1, height: 1 };
    assert_eq!(
        CxtaDriver.describe(&vec![item]),
        "[[images]]\n{ name = \"0000000000000abc\", file = \"0000000000000abc.png\" }"
    );
}

#[test]
fn the_order_of_the_list_does_not_matter() {
    let list = names(&["zeta", "alpha", "mid"]);
    let images: Vec<Option<Image>> = (0..3).map(|i| Some(image(2, 2, i * 50))).collect();
    let turned = names(&["mid", "zeta", "alpha"]);
    let moved: Vec<Option<Image>> =
        [2, 0, 1].iter().map(|i| Some(image(2, 2, i * 50))).collect();
    assert_eq!(
        CxtaDriver.pack(&list, &images).unwrap(),
        CxtaDriver.pack(&turned, &moved).unwrap()
    );
}

#[test]
fn an_atlas_of_another_format_is_decoded_elsewhere() {
    let mut blob = b"CXTA\x01\0\0\0\x0e\0\0\0P6\n1 1\n255\n\x01\x02\x03".to_vec();
    blob.extend_from_slice(&[7, 0, 0, 0, 0, 0, 0, 0, 0, 0, 0, 0, 1, 0, 1, 0]);
    assert!(!CxtaDriver.can_unpack(&blob));
    let parsed = CxtaDriver.parse(&blob).unwrap();
    let (width, height, pixels) = decoded(&parsed.png);
    let unpacked = CxtaDriver.export(&parsed, Ok(Image { width, height, pixels }));
    assert!(unpacked.outcome.is_ok());
    let files = written(&unpacked.effects);
    assert_eq!(files[0].0, "0000000000000007.png");
    assert_eq!(decoded(&files[0].1), (1, 1, vec![1, 2, 3, 255]));
    assert!(CxtaDriver.can_unpack(b"CXTA"));
    assert!(CxtaDriver.can_unpack(b"CXTA\0\0\0\0\x01\0\0\0x"));
}
