use cxpk::codec::decode_picture;
use cxpk::cxan::{
    animation_fps, load_animation_config, load_png_frames, select_frames, CxanDriver, FolderEntry, CXAN_MAGIC,
    CXAP_MAGIC, DEFAULT_FPS_BITS, MAX_TEX,
};
use cxpk::driver::{get_drivers, AssetDriver, Effect};
use cxpk::fault::{AssetError, Flaw};
use cxpk::raster::Image;
use cxpk::tree::Node;

fn frame(width: u32, height: u32, seed: u8) -> Image {
    let count = (width * height * 4) as usize;
    let pixels = (0..count).map(|i| (i as u8).wrapping_mul(5).wrapping_add(seed)).collect();
    Image { width, height, pixels }
}

fn decoded(bytes: &[u8]) -> (u32, u32, Vec<u8>) {
    let image = image::load_from_memory(bytes).unwrap().into_rgba8();
    (image.width(), image.height(), image.into_raw())
}

fn written(effects: &[Effect]) -> Vec<(String, Vec<u8>)> {
    effects
        .iter()
        .filter_map(|effect| match effect {
            Effect::CreateFolder => None,
            Effect::WriteFile { name, contents } => Some((name.clone(), contents.clone())),
        })
        .collect()
}

fn entry(name: &str) -> FolderEntry {
    let extension = std::path::Path::new(name)
        .extension()
        .and_then(|text| text.to_str())
        .map(str::to_owned);
    FolderEntry { file_name: Some(name.to_string()), extension }
}

fn u32_of(bytes: &[u8], at: usize) -> u32 {
    u32::from_le_bytes([bytes[at], bytes[at + 1], bytes[at + 2], bytes[at + 3]])
}

#[test]
fn cxan_identity() {
    assert_eq!(CxanDriver.magic(), b"CXAN");
    assert_eq!(&CXAN_MAGIC, b"CXAN");
    assert_eq!(&CXAP_MAGIC, b"CXAP");
    assert_eq!(CxanDriver.extension(), ".cxan");
    assert_eq!(CxanDriver.entry_file(), "animation.entry");
    assert_eq!(MAX_TEX, 16384);
}

#[test]
fn drivers_in_use() {
    let drivers = get_drivers();
    assert_eq!(drivers.len(), 1);
    assert_eq!(drivers[0].magic(), b"CXAN");
    assert_eq!(drivers[0].extension(), ".cxan");
    assert_eq!(drivers[0].entry_file(), "animation.entry");
}

#[test]
fn frame_rate_of_a_description() {
    assert_eq!(load_animation_config("fps = 12.5\n").unwrap(), 12.5f64.to_bits());
    assert_eq!(load_animation_config("").unwrap(), 24.0f64.to_bits());
    assert_eq!(DEFAULT_FPS_BITS, 24.0f64.to_bits());
    // Only a number with a fraction is a float in TOML.
    assert_eq!(load_animation_config("fps = 30").unwrap(), 24.0f64.to_bits());
    assert_eq!(load_animation_config("fps = \"x\"").unwrap(), 24.0f64.to_bits());
    assert!(matches!(load_animation_config("fps = "), Err(AssetError::Toml(_))));
}

#[test]
fn frames_are_selected_by_name() {
    let mut entries = vec![
        entry("b.png"),
        entry("animation.entry"),
        entry("a.PNG"),
        entry(".png"),
        entry("c.Png"),
        entry("a.jpg"),
        entry("a.png"),
    ];
    entries.push(FolderEntry { file_name: None, extension: Some("png".to_string()) });
    assert_eq!(select_frames(&entries), vec![7, 2, 6, 0, 4]);
    assert!(select_frames(&vec![]).is_empty());
}

#[test]
fn frames_with_equal_names_keep_their_order() {
    let entries = vec![entry("x.png"), entry("x.png"), entry("w.png")];
    assert_eq!(select_frames(&entries), vec![2, 0, 1]);
}

#[test]
fn frames_must_agree() {
    assert!(matches!(
        load_png_frames(vec![]),
        Err(AssetError::Flawed(Flaw::NoFrames))
    ));
    assert!(matches!(
        load_png_frames(vec![Some(frame(1, 1, 0)), None, Some(frame(2, 1, 0))]),
        Err(AssetError::Flawed(Flaw::Unreadable { index: 1 }))
    ));
    let outcome = load_png_frames(vec![Some(frame(1, 1, 0)), Some(frame(1, 1, 0)), Some(frame(1, 3, 0))]);
    assert!(matches!(
        outcome,
        Err(AssetError::Flawed(Flaw::FrameSizeDiffers {
            index: 2,
            width: 1,
            height: 3,
            first_width: 1,
            first_height: 1,
        }))
    ));
    let frames = load_png_frames(vec![Some(frame(2, 1, 3)), Some(frame(2, 1, 4))]).unwrap();
    assert_eq!(frames.len(), 2);
    assert_eq!(frames[0].pixels, frame(2, 1, 3).pixels);
    assert_eq!(frames[1].pixels, frame(2, 1, 4).pixels);
}

#[test]
fn animation_round_trip() {
    let frames = vec![frame(3, 2, 1), frame(3, 2, 50), frame(3, 2, 100)];
    let fps = 12.5f32.to_bits();
    let blob = CxanDriver.pack(fps, &frames).unwrap();
    assert_eq!(&blob[0..4], b"CXAN");
    assert_eq!(&blob[4..8], &[1, 0, 3, 0]);
    assert_eq!(u32_of(&blob, 8), fps);
    assert_eq!(u32_of(&blob, 12), 20);
    let map_offset = u32_of(&blob, 16) as usize;
    assert_eq!(&blob[20..24], b"CXAP");
    assert_eq!(&blob[24..28], &[3, 0, 1, 0]);
    assert_eq!(u32_of(&blob, 28), 3);
    assert_eq!(u32_of(&blob, 32), 2);
    let length = u32_of(&blob, 36) as usize;
    assert_eq!(map_offset, 40 + length);
    let (width, height, _) = decoded(&blob[40..40 + length]);
    assert_eq!((width, height), (9, 2));
    assert_eq!(&blob[map_offset..], &[0, 0, 0, 0, 0, 0, 1, 0, 0, 0, 2, 0]);

    let unpacked = CxanDriver.unpack(&blob);
    assert_eq!(unpacked.outcome.unwrap(), fps);
    assert!(matches!(unpacked.effects[0], Effect::CreateFolder));
    let files = written(&unpacked.effects);
    assert_eq!(files.len(), 3);
    for (i, (name, contents)) in files.iter().enumerate() {
        assert_eq!(name, &format!("frame_{:05}.png", i));
        assert_eq!(decoded(contents), (3, 2, frames[i].pixels.clone()));
    }
    let again: Vec<Option<Image>> = files
        .iter()
        .map(|(name, contents)| decode_picture(name, contents).ok())
        .collect();
    let frames = load_png_frames(again).unwrap();
    assert_eq!(CxanDriver.pack(fps, &frames).unwrap(), blob);
}

#[test]
fn frames_fill_rows_of_cells() {
    let frames: Vec<Image> = (0..3).map(|i| frame(8192, 1, i * 30)).collect();
    let blob = CxanDriver.pack(0, &frames).unwrap();
    // Two columns fit, so the third frame stands in the second row.
    assert_eq!(&blob[24..28], &[2, 0, 2, 0]);
    let unpacked = CxanDriver.unpack(&blob);
    assert!(unpacked.outcome.is_ok());
    let files = written(&unpacked.effects);
    for (i, (_, contents)) in files.iter().enumerate() {
        assert_eq!(decoded(contents), (8192, 1, frames[i].pixels.clone()));
    }
    let frames = vec![frame(9000, 1, 1), frame(9000, 1, 2)];
    let blob = CxanDriver.pack(7, &frames).unwrap();
    assert_eq!(&blob[24..28], &[1, 0, 2, 0]);
}

#[test]
fn frames_come_from_several_pages() {
    let blob = blob_of(
        &[(1, 1, 1, 1, page_png(1, 1)), (2, 1, 2, 1, page_png(4, 1))],
        &[(1, 1), (0, 0)],
    );
    let unpacked = CxanDriver.unpack(&blob);
    assert_eq!(unpacked.outcome.unwrap(), 3);
    let files = written(&unpacked.effects);
    assert_eq!(decoded(&files[0].1), (2, 1, frame(4, 1, 0).pixels[8..16].to_vec()));
    assert_eq!(decoded(&files[1].1), (1, 1, frame(1, 1, 0).pixels));
}

#[test]
fn animation_limits() {
    let outcome = CxanDriver.pack(0, &vec![Image { width: 16385, height: 1, pixels: vec![0; 65540] }]);
    assert!(matches!(outcome, Err(AssetError::Flawed(Flaw::FrameTooLarge))));
    let outcome = CxanDriver.pack(0, &vec![Image { width: 1, height: 16385, pixels: vec![0; 65540] }]);
    assert!(matches!(outcome, Err(AssetError::Flawed(Flaw::FrameTooLarge))));
    let many: Vec<Image> = (0..65536).map(|_| frame(1, 1, 0)).collect();
    let outcome = CxanDriver.pack(0, &many);
    assert!(matches!(outcome, Err(AssetError::Flawed(Flaw::TooManyFrames))));
}

fn blob_of(pages: &[(u16, u16, u32, u32, Vec<u8>)], map: &[(u16, u16)]) -> Vec<u8> {
    let mut body = Vec::new();
    for (cols, rows, width, height, png) in pages {
        body.extend_from_slice(b"CXAP");
        body.extend_from_slice(&cols.to_le_bytes());
        body.extend_from_slice(&rows.to_le_bytes());
        body.extend_from_slice(&width.to_le_bytes());
        body.extend_from_slice(&height.to_le_bytes());
        body.extend_from_slice(&(png.len() as u32).to_le_bytes());
        body.extend_from_slice(png);
    }
    let mut blob = b"CXAN".to_vec();
    blob.extend_from_slice(&(pages.len() as u16).to_le_bytes());
    blob.extend_from_slice(&(map.len() as u16).to_le_bytes());
    blob.extend_from_slice(&3u32.to_le_bytes());
    blob.extend_from_slice(&20u32.to_le_bytes());
    blob.extend_from_slice(&(20 + body.len() as u32).to_le_bytes());
    blob.extend_from_slice(&body);
    for (page, cell) in map {
        blob.extend_from_slice(&page.to_le_bytes());
        blob.extend_from_slice(&cell.to_le_bytes());
    }
    blob
}

fn page_png(width: u32, height: u32) -> Vec<u8> {
    let mut bytes = Vec::new();
    let image = image::RgbaImage::from_raw(width, height, frame(width, height, 0).pixels).unwrap();
    image
        .write_to(&mut std::io::Cursor::new(&mut bytes), image::ImageOutputFormat::Png)
        .unwrap();
    bytes
}

#[test]
fn frames_are_cut_from_their_cells() {
    let blob = blob_of(&[(2, 2, 2, 1, page_png(4, 2))], &[(0, 3), (0, 0)]);
    let unpacked = CxanDriver.unpack(&blob);
    assert_eq!(unpacked.outcome.unwrap(), 3);
    let files = written(&unpacked.effects);
    let whole = frame(4, 2, 0).pixels;
    assert_eq!(decoded(&files[0].1), (2, 1, whole[24..32].to_vec()));
    assert_eq!(decoded(&files[1].1), (2, 1, whole[0..8].to_vec()));
}

#[test]
fn unpacking_headers() {
    let unpacked = CxanDriver.unpack(&[0; 23]);
    assert!(unpacked.effects.is_empty());
    assert!(matches!(unpacked.outcome, Err(AssetError::Flawed(Flaw::TooShort))));
    let unpacked = CxanDriver.unpack(&[0; 24]);
    assert!(unpacked.effects.is_empty());
    assert!(matches!(unpacked.outcome, Err(AssetError::Flawed(Flaw::BadMagic))));
}

#[test]
fn unpacking_broken_pages() {
    let good = blob_of(&[(1, 1, 1, 1, page_png(1, 1))], &[(0, 0)]);
    let mut bad = good.clone();
    bad[20] = b'X';
    let unpacked = CxanDriver.unpack(&bad);
    assert_eq!(unpacked.effects.len(), 1);
    assert!(matches!(unpacked.outcome, Err(AssetError::Flawed(Flaw::BadPageMagic))));

    let mut bad = good.clone();
    bad[4] = 2;
    let unpacked = CxanDriver.unpack(&bad);
    assert!(matches!(unpacked.outcome, Err(AssetError::Flawed(Flaw::PagesCutShort))));

    let mut bad = good.clone();
    bad[36] = 255;
    let unpacked = CxanDriver.unpack(&bad);
    assert!(matches!(unpacked.outcome, Err(AssetError::Flawed(Flaw::PngCutShort))));

    let unpacked = CxanDriver.unpack(&good[..good.len() - 1]);
    assert_eq!(unpacked.effects.len(), 1);
    assert!(matches!(unpacked.outcome, Err(AssetError::Flawed(Flaw::FrameMapCutShort))));

    let junk = blob_of(
        &[(1, 1, 1, 1, page_png(1, 1)), (1, 1, 1, 1, b"junk".to_vec())],
        &[(0, 0)],
    );
    let unpacked = CxanDriver.unpack(&junk);
    assert_eq!(unpacked.effects.len(), 1);
    assert!(matches!(unpacked.outcome, Err(AssetError::Decode(1, _))));
}

#[test]
fn cells_outside_their_page() {
    let page = page_png(2, 1);
    let outside = [(0u16, 2u16), (1, 0)];
    for cell in outside {
        let blob = blob_of(&[(2, 1, 1, 1, page.clone())], &[(0, 0), cell]);
        let unpacked = CxanDriver.unpack(&blob);
        assert!(matches!(
            unpacked.outcome,
            Err(AssetError::Flawed(Flaw::CellOutside { index: 1 }))
        ));
        assert_eq!(written(&unpacked.effects).len(), 1);
    }
    let blob = blob_of(&[(0, 1, 1, 1, page.clone())], &[(0, 0)]);
    let unpacked = CxanDriver.unpack(&blob);
    assert!(matches!(
        unpacked.outcome,
        Err(AssetError::Flawed(Flaw::CellOutside { index: 0 }))
    ));
    let blob = blob_of(&[(65535, 1, u32::MAX, 1, page)], &[(0, 65534)]);
    let unpacked = CxanDriver.unpack(&blob);
    assert!(matches!(
        unpacked.outcome,
        Err(AssetError::Flawed(Flaw::CellOutside { index: 0 }))
    ));
}

#[test]
fn a_frame_without_pixels_cannot_be_saved() {
    let blob = blob_of(&[(1, 1, 0, 1, page_png(2, 1))], &[(0, 0)]);
    let unpacked = CxanDriver.unpack(&blob);
    assert!(matches!(unpacked.outcome, Err(AssetError::Save(0, _))));
    assert_eq!(written(&unpacked.effects), vec![("frame_00000.png".to_string(), vec![])]);
}

#[test]
fn frame_rate_of_a_document() {
    let document = Node::Table(vec![("fps".to_string(), Node::Number(Some(7.0f64.to_bits())))]);
    assert_eq!(animation_fps(&document), 7.0f64.to_bits());
    assert_eq!(animation_fps(&Node::Null), DEFAULT_FPS_BITS);
    let whole = Node::Table(vec![("fps".to_string(), Node::Integer(30))]);
    assert_eq!(animation_fps(&whole), DEFAULT_FPS_BITS);
}

#[test]
fn frames_are_selected_alike_from_every_listing() {
    let names = ["c.png", "a.PNG", "animation.entry", "b.png"];
    let forward: Vec<FolderEntry> = names.iter().map(|name| entry(name)).collect();
    let backward: Vec<FolderEntry> = names.iter().rev().map(|name| entry(name)).collect();
    let picked = |entries: &Vec<FolderEntry>| -> Vec<Option<String>> {
        select_frames(entries).iter().map(|index| entries[*index].file_name.clone()).collect()
    };
    assert_eq!(picked(&forward), picked(&backward));
    assert_eq!(picked(&forward)[0], Some("a.PNG".to_string()));
}

#[test]
fn unpacked_frames_load_in_their_order() {
    let frames: Vec<Image> = (0..12).map(|i| frame(2, 2, i * 20)).collect();
    let blob = CxanDriver.pack(0, &frames).unwrap();
    assert!(CxanDriver.can_unpack(&blob));
    let mut files = written(&CxanDriver.unpack(&blob).effects);
    files.reverse();
    let entries: Vec<FolderEntry> = files.iter().map(|(name, _)| entry(name)).collect();
    let loaded: Vec<Option<Image>> = select_frames(&entries)
        .iter()
        .map(|index| decode_picture(&files[*index].0, &files[*index].1).ok())
        .collect();
    let again = load_png_frames(loaded).unwrap();
    assert_eq!(again.len(), frames.len());
    for (a, b) in again.iter().zip(&frames) {
        assert_eq!((a.width, a.height, &a.pixels), (b.width, b.height, &b.pixels));
    }
}

#[test]
fn pages_of_other_formats_are_decoded_elsewhere() {
    let blob = blob_of(&[(1, 1, 1, 1, b"P6\n1 1\n255\n\x01\x02\x03".to_vec())], &[(0, 0)]);
    assert!(!CxanDriver.can_unpack(&blob));
    let parsed = CxanDriver.parse(&blob).unwrap();
    let (width, height, pixels) = decoded(&parsed.pages[0].png);
    let unpacked = CxanDriver.export(&parsed, Ok(vec![Image { width, height, pixels }]));
    assert_eq!(unpacked.outcome.unwrap(), 3);
    let files = written(&unpacked.effects);
    assert_eq!(decoded(&files[0].1), (1, 1, vec![1, 2, 3, 255]));
    assert!(CxanDriver.can_unpack(b"CXAN"));
}
