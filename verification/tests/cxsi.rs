use cxpk::cxsi::{CxsiDriver, Parsed, Variant, CXSI_MAGIC};
use cxpk::driver::{AssetDriver, Effect};
use cxpk::fault::{AssetError, Flaw};
use cxpk::raster::Image;
use cxpk::tree::Node;

fn picture(width: u32, height: u32, seed: u8) -> Vec<u8> {
    let count = (width * height * 4) as usize;
    (0..count).map(|i| (i as u8).wrapping_mul(7).wrapping_add(seed)).collect()
}

fn png_of(width: u32, height: u32, pixels: &[u8]) -> Vec<u8> {
    let mut bytes = Vec::new();
    let image = image::RgbaImage::from_raw(width, height, pixels.to_vec()).unwrap();
    image
        .write_to(&mut std::io::Cursor::new(&mut bytes), image::ImageOutputFormat::Png)
        .unwrap();
    bytes
}

fn decoded(bytes: &[u8]) -> (u32, u32, Vec<u8>) {
    let image = image::load_from_memory(bytes).unwrap().into_rgba8();
    (image.width(), image.height(), image.into_raw())
}

fn written(effects: &[Effect]) -> Vec<(String, Vec<u8>)> {
    effects
        .iter()
        .filter_map(|effect| match effect {
            Effect::CreateFolder => None,
            Effect::WriteFile { name, contents } => Some((name.clone(), contents.clone())),
        })
        .collect()
}

const TWO: &str = "variants = [\n  { file = \"a.png\" },\n  { file = \"b.PNG\" }\n]\n";

#[test]
fn cxsi_identity() {
    assert_eq!(CxsiDriver.magic(), b"CXSI");
    assert_eq!(&CXSI_MAGIC, b"CXSI");
    assert_eq!(CxsiDriver.extension(), ".cxsi");
    assert_eq!(CxsiDriver.entry_file(), "simage.entry");
}

#[test]
fn cxsi_lists_the_files_of_the_variants() {
    let files = CxsiDriver.variant_files(TWO).unwrap();
    assert_eq!(files, vec![Some("a.png".to_string()), Some("b.PNG".to_string())]);
    let files = CxsiDriver.variant_files("variants = [{ name = \"x\" }, 3]").unwrap();
    assert_eq!(files, vec![None, None]);
    assert_eq!(CxsiDriver.variant_files("variants = []").unwrap().len(), 0);
}

#[test]
fn cxsi_description_errors() {
    assert!(matches!(CxsiDriver.variant_files("variants = ["), Err(AssetError::Toml(_))));
    assert!(matches!(
        CxsiDriver.variant_files("other = 1"),
        Err(AssetError::Flawed(Flaw::NoVariants))
    ));
    assert!(matches!(
        CxsiDriver.variant_files("variants = \"no list\""),
        Err(AssetError::Flawed(Flaw::NoVariants))
    ));
    let most = format!("variants = [{}]", "1,".repeat(65535));
    assert_eq!(CxsiDriver.variant_files(&most).unwrap().len(), 65535);
    let many = format!("variants = [{}]", "1,".repeat(65536));
    assert!(matches!(
        CxsiDriver.variant_files(&many),
        Err(AssetError::Flawed(Flaw::TooManyVariants))
    ));
}

#[test]
fn cxsi_round_trip() {
    let first = picture(3, 2, 1);
    let second = picture(1, 4, 9);
    let contents = vec![Some(png_of(3, 2, &first)), Some(png_of(1, 4, &second))];
    let blob = CxsiDriver.pack(TWO, &contents).unwrap().unwrap();
    assert_eq!(&blob[0..4], b"CXSI");
    assert_eq!(&blob[4..6], &[2, 0]);
    assert_eq!(&blob[6..10], &[3, 0, 2, 0]);
    let unpacked = CxsiDriver.unpack(&blob);
    assert!(unpacked.outcome.is_ok());
    assert!(matches!(unpacked.effects[0], Effect::CreateFolder));
    let files = written(&unpacked.effects);
    assert_eq!(files.len(), 3);
    assert_eq!(files[0].0, "variant_000.png");
    assert_eq!(decoded(&files[0].1), (3, 2, first));
    assert_eq!(files[1].0, "variant_001.png");
    assert_eq!(decoded(&files[1].1), (1, 4, second));
    assert_eq!(files[2].0, "simage.entry");
    let expected = "variants = [\n  { file = \"variant_000.png\" },\n  { file = \"variant_001.png\" }\n]\n";
    assert_eq!(files[2].1, expected.as_bytes());
    let again = CxsiDriver.variant_files(expected).unwrap();
    assert_eq!(
        again,
        vec![Some("variant_000.png".to_string()), Some("variant_001.png".to_string())]
    );
    let same = CxsiDriver
        .pack(expected, &vec![Some(files[0].1.clone()), Some(files[1].1.clone())])
        .unwrap()
        .unwrap();
    assert_eq!(same, blob);
}

#[test]
fn cxsi_without_variants() {
    let blob = CxsiDriver.pack("variants = []", &vec![]).unwrap().unwrap();
    assert_eq!(blob, b"CXSI\0\0".to_vec());
    let unpacked = CxsiDriver.unpack(&blob);
    assert!(unpacked.outcome.is_ok());
    assert_eq!(
        written(&unpacked.effects),
        vec![("simage.entry".to_string(), b"variants = [\n  \n]\n".to_vec())]
    );
}

#[test]
fn cxsi_pack_errors_come_in_order() {
    let good = png_of(1, 1, &[1, 2, 3, 4]);
    let text = "variants = [{ file = \"a.png\" }, { x = 1 }, { file = \"c.png\" }]";
    let outcome = CxsiDriver.pack(text, &vec![Some(b"junk".to_vec()), None, None]);
    assert!(matches!(outcome, Some(Err(AssetError::Decode(0, _)))));
    let outcome = CxsiDriver.pack(text, &vec![None, None, None]);
    assert!(matches!(outcome, Some(Err(AssetError::Flawed(Flaw::Unreadable { index: 0 })))));
    let outcome = CxsiDriver.pack(text, &vec![Some(good.clone()), None, None]);
    assert!(matches!(outcome, Some(Err(AssetError::Flawed(Flaw::NoVariantFile)))));
    let outcome = CxsiDriver.pack(TWO, &vec![Some(good)]);
    assert!(matches!(outcome, Some(Err(AssetError::Flawed(Flaw::Unreadable { index: 1 })))));
}

#[test]
fn cxsi_unknown_format_does_not_decode() {
    let good = png_of(1, 1, &[1, 2, 3, 4]);
    let text = "variants = [{ file = \"picture\" }]";
    let outcome = CxsiDriver.pack(text, &vec![Some(good)]);
    assert!(matches!(outcome, Some(Err(AssetError::Decode(0, _)))));
}

#[test]
fn cxsi_takes_loaded_pictures_of_other_formats() {
    let text = "variants = [{ file = \"picture.ppm\" }]";
    let ppm = b"P6\n1 1\n255\n\x10\x20\x30".to_vec();
    assert!(CxsiDriver.pack(text, &vec![Some(ppm.clone())]).is_none());
    assert!(matches!(
        CxsiDriver.pack(text, &vec![None]),
        Some(Err(AssetError::Flawed(Flaw::Unreadable { index: 0 })))
    ));
    let files = CxsiDriver.variant_files(text).unwrap();
    let loaded = image::load_from_memory(&ppm).unwrap().into_rgba8();
    let loaded = Image { width: 1, height: 1, pixels: loaded.into_raw() };
    let blob = CxsiDriver.pack_loaded(&files, vec![Some(Ok(loaded))]).unwrap();
    let unpacked = CxsiDriver.unpack(&blob);
    let files = written(&unpacked.effects);
    assert_eq!(decoded(&files[0].1), (1, 1, vec![16, 32, 48, 255]));
}

#[test]
fn cxsi_loaded_pictures_come_in_order() {
    let files = vec![Some("a.png".to_string()), None, Some("c.png".to_string())];
    let pixel = || Image { width: 1, height: 1, pixels: vec![1, 2, 3, 4] };
    let junk = || image::load_from_memory(b"junk").map(|_| pixel());
    let outcome = CxsiDriver.pack_loaded(&files, vec![Some(junk())]);
    assert!(matches!(outcome, Err(AssetError::Decode(0, _))));
    let outcome = CxsiDriver.pack_loaded(&files, vec![]);
    assert!(matches!(outcome, Err(AssetError::Flawed(Flaw::Unreadable { index: 0 }))));
    let outcome = CxsiDriver.pack_loaded(&files, vec![Some(Ok(pixel()))]);
    assert!(matches!(outcome, Err(AssetError::Flawed(Flaw::NoVariantFile))));
    let flat = Image { width: 0, height: 1, pixels: vec![] };
    let outcome = CxsiDriver.pack_loaded(&files, vec![Some(Ok(flat))]);
    assert!(matches!(outcome, Err(AssetError::Encode(0, _))));
    let files = vec![Some("a.png".to_string())];
    let blob = CxsiDriver.pack_loaded(&files, vec![Some(Ok(pixel()))]).unwrap();
    assert_eq!(&blob[0..10], b"CXSI\x01\0\x01\0\x01\0");
    let same = CxsiDriver
        .pack_files(&files, &vec![Some(png_of(1, 1, &[1, 2, 3, 4]))])
        .unwrap()
        .unwrap();
    assert_eq!(same, blob);
}

#[test]
fn cxsi_reads_files_from_a_document() {
    let entry = Node::Table(vec![("file".to_string(), Node::Text("x.png".to_string()))]);
    let document = Node::Table(vec![(
        "variants".to_string(),
        Node::List(vec![Node::Null, entry]),
    )]);
    assert_eq!(
        CxsiDriver.variant_files_in(&document).unwrap(),
        vec![None, Some("x.png".to_string())]
    );
    assert!(matches!(
        CxsiDriver.variant_files_in(&Node::Null),
        Err(AssetError::Flawed(Flaw::NoVariants))
    ));
}

#[test]
fn cxsi_leaves_other_formats_to_others() {
    let gif = Variant { width: 1, height: 1, png: b"GIF89a".to_vec() };
    let junk = Variant { width: 1, height: 1, png: b"junk".to_vec() };
    assert!(!CxsiDriver.can_unpack(&CxsiDriver.assemble(&vec![gif])));
    assert!(CxsiDriver.can_unpack(&CxsiDriver.assemble(&vec![junk])));
    assert!(CxsiDriver.can_unpack(b"CXSI"));
    let mut large = b"\x89PNG\r\n\x1a\n\0\0\0\x0dIHDR\0\0\x40\0\0\0\x40\0\x08\x06\0\0\0".to_vec();
    let variant = Variant { width: 16384, height: 16384, png: large.clone() };
    assert!(!CxsiDriver.can_unpack(&CxsiDriver.assemble(&vec![variant])));
    large[22] = 0x20;
    let variant = Variant { width: 16384, height: 8192, png: large };
    assert!(CxsiDriver.can_unpack(&CxsiDriver.assemble(&vec![variant])));
}

#[test]
fn cxsi_assembles_variants() {
    let variants = vec![
        Variant { width: 258, height: 1, png: vec![5, 6, 7] },
        Variant { width: 2, height: 3, png: vec![] },
    ];
    let blob = CxsiDriver.assemble(&variants);
    let mut expected = b"CXSI".to_vec();
    expected.extend_from_slice(&[2, 0]);
    expected.extend_from_slice(&[2, 1, 1, 0, 3, 0, 0, 0, 5, 6, 7]);
    expected.extend_from_slice(&[2, 0, 3, 0, 0, 0, 0, 0]);
    assert_eq!(blob, expected);
    let parsed = CxsiDriver.parse(&blob).unwrap();
    assert_eq!(parsed.flaw, None);
    assert_eq!(parsed.variants.len(), 2);
    assert_eq!(parsed.variants[0].width, 258);
    assert_eq!(parsed.variants[0].height, 1);
    assert_eq!(parsed.variants[0].png, vec![5, 6, 7]);
    assert_eq!(parsed.variants[1].width, 2);
    assert_eq!(parsed.variants[1].height, 3);
    assert!(parsed.variants[1].png.is_empty());
}

#[test]
fn cxsi_header_errors_do_nothing() {
    let unpacked = CxsiDriver.unpack(b"CXSI\x01");
    assert!(unpacked.effects.is_empty());
    assert!(matches!(unpacked.outcome, Err(AssetError::Flawed(Flaw::TooShort))));
    let unpacked = CxsiDriver.unpack(b"CXAN\0\0");
    assert!(unpacked.effects.is_empty());
    assert!(matches!(unpacked.outcome, Err(AssetError::Flawed(Flaw::BadMagic))));
}

#[test]
fn cxsi_cut_short_keeps_what_came_before() {
    let contents = vec![
        Some(png_of(1, 1, &[1, 2, 3, 4])),
        Some(png_of(1, 1, &[5, 6, 7, 8])),
    ];
    let blob = CxsiDriver.pack(TWO, &contents).unwrap().unwrap();
    let unpacked = CxsiDriver.unpack(&blob[..blob.len() - 1]);
    assert!(matches!(unpacked.outcome, Err(AssetError::Flawed(Flaw::PngCutShort))));
    assert_eq!(unpacked.effects.len(), 2);
    let length = u32::from_le_bytes([blob[10], blob[11], blob[12], blob[13]]) as usize;
    let unpacked = CxsiDriver.unpack(&blob[..14 + length + 7]);
    assert!(matches!(unpacked.outcome, Err(AssetError::Flawed(Flaw::VariantsCutShort))));
    assert_eq!(unpacked.effects.len(), 2);
    let unpacked = CxsiDriver.unpack(&blob[..8]);
    assert!(matches!(unpacked.outcome, Err(AssetError::Flawed(Flaw::VariantsCutShort))));
    assert_eq!(unpacked.effects.len(), 1);
}

#[test]
fn cxsi_bad_variant_stops_the_writing() {
    let good = png_of(1, 1, &[1, 2, 3, 4]);
    let blob = CxsiDriver.assemble(&vec![
        Variant { width: 1, height: 1, png: good.clone() },
        Variant { width: 1, height: 1, png: b"not a picture".to_vec() },
        Variant { width: 1, height: 1, png: good.clone() },
    ]);
    let unpacked = CxsiDriver.unpack(&blob);
    assert!(matches!(unpacked.outcome, Err(AssetError::Decode(1, _))));
    assert_eq!(written(&unpacked.effects), vec![("variant_000.png".to_string(), good)]);
}

#[test]
fn cxsi_export_follows_the_failure() {
    let parsed = Parsed {
        variants: vec![Variant { width: 1, height: 1, png: vec![1] }],
        flaw: Some(Flaw::PngCutShort),
    };
    let unpacked = CxsiDriver.export(parsed, None);
    assert!(matches!(unpacked.outcome, Err(AssetError::Flawed(Flaw::PngCutShort))));
    assert_eq!(written(&unpacked.effects), vec![("variant_000.png".to_string(), vec![1])]);
}
