use cxpk::bytes::{
    copy_range, holds_at, push_bytes, push_u16, push_u32, push_u64, read_u16, read_u32, read_u64, same_bytes,
};
use cxpk::codec::{can_decode, can_decode_bytes, decode_picture};
use cxpk::raster::Image;
use cxpk::sheet::compose;
use cxpk::sort::order_by_name;
use cxpk::text::{
    decimal_text, hexadecimal_text, list_text, padded_text, same_text, same_text_but_for_case,
    slashed, text_bytes, trim_nul, without_end,
};
use cxpk::tree::{read_json, read_toml, Node};

#[test]
fn numbers_are_stored_low_byte_first() {
    let mut out = Vec::new();
    push_u16(&mut out, 0x0102);
    push_u32(&mut out, 0x03040506);
    push_u64(&mut out, 0x0708090a0b0c0d0e);
    assert_eq!(out, vec![2, 1, 6, 5, 4, 3, 14, 13, 12, 11, 10, 9, 8, 7]);
    assert_eq!(read_u16(&out, 0), 0x0102);
    assert_eq!(read_u32(&out, 2), 0x03040506);
    assert_eq!(read_u64(&out, 6), 0x0708090a0b0c0d0e);
    assert_eq!(copy_range(&out, 1, 3), vec![1, 6]);
    assert!(holds_at(&out, 1, &[1, 6]));
    assert!(!holds_at(&out, 1, &[1, 7]));
    assert!(!holds_at(&out, 13, &[7, 0]));
    assert!(same_bytes(b"ab", b"ab"));
    assert!(!same_bytes(b"ab", b"abc"));
}

#[test]
fn numbers_as_text() {
    assert_eq!(decimal_text(0), "0");
    assert_eq!(decimal_text(u64::MAX), format!("{}", u64::MAX));
    for number in [0u64, 7, 42, 999, 1000, 123456] {
        assert_eq!(padded_text(number, 3), format!("{:03}", number));
        assert_eq!(padded_text(number, 5), format!("{:05}", number));
        assert_eq!(hexadecimal_text(number, 16), format!("{:016x}", number));
    }
    assert_eq!(hexadecimal_text(u64::MAX, 16), "ffffffffffffffff");
}

#[test]
fn texts_are_compared_and_edited() {
    assert!(same_text("a\u{e4}", "a\u{e4}"));
    assert!(!same_text("a", "A"));
    assert!(same_text_but_for_case("HitBoxes", "hitboxes"));
    assert!(!same_text_but_for_case("\u{c4}", "\u{e4}"));
    assert!(!same_text_but_for_case("@", "`"));
    assert_eq!(trim_nul("\0\0a\0b\0"), "a\0b");
    assert_eq!(trim_nul("\0\0"), "");
    assert_eq!(slashed("a\\b/c"), "a/b/c");
    assert_eq!(without_end("walk.cxan", ".cxan"), Some("walk".to_string()));
    assert_eq!(without_end("walk", ".cxan"), None);
    assert_eq!(list_text(&vec![], ", "), "");
    assert_eq!(list_text(&vec!["a".to_string(), "b".to_string()], ", "), "a, b");
    assert_eq!(text_bytes("\u{e9}"), vec![0xc3, 0xa9]);
}

#[test]
fn names_are_put_in_order() {
    let names: Vec<Option<String>> = ["b", "a", "", "b", "a\u{e9}", "B"]
        .iter()
        .map(|name| Some(name.to_string()))
        .chain([None])
        .collect();
    let order = order_by_name(&names);
    assert_eq!(order, vec![6, 2, 5, 1, 4, 0, 3]);
    let mut expected: Vec<usize> = (0..names.len()).collect();
    expected.sort_by_key(|i| names[*i].clone());
    assert_eq!(order, expected);
}

#[test]
fn long_lists_are_put_in_order() {
    let names: Vec<Option<String>> = (0..500u32)
        .map(|i| Some(format!("{}", (i * 7919) % 101)))
        .collect();
    let mut expected: Vec<usize> = (0..names.len()).collect();
    expected.sort_by_key(|i| names[*i].clone());
    assert_eq!(order_by_name(&names), expected);
}

#[test]
fn pictures_are_cropped() {
    let image = Image { width: 3, height: 2, pixels: (0..24).collect() };
    let part = image.crop(1, 1, 2, 1);
    assert_eq!((part.width, part.height), (2, 1));
    assert_eq!(part.pixels, (16..24).collect::<Vec<u8>>());
    let whole = image.crop(0, 0, 3, 2);
    assert_eq!(whole.pixels, image.pixels);
    assert!(image.crop(3, 2, 0, 0).pixels.is_empty());
}

#[test]
fn pictures_are_laid_out() {
    let red = Image { width: 1, height: 1, pixels: vec![1, 2, 3, 4] };
    let blue = Image { width: 1, height: 1, pixels: vec![5, 6, 7, 8] };
    let page = compose(&vec![&red, &blue, &red], 2, 2, 1, 1);
    assert_eq!((page.width, page.height), (2, 2));
    assert_eq!(page.pixels, vec![1, 2, 3, 4, 5, 6, 7, 8, 1, 2, 3, 4, 0, 0, 0, 0]);
    assert_eq!(page.crop(1, 0, 1, 1).pixels, blue.pixels);
}

#[test]
fn pictures_are_decoded_by_their_name() {
    let mut png = Vec::new();
    image::RgbaImage::from_raw(2, 1, vec![1, 2, 3, 4, 5, 6, 7, 8])
        .unwrap()
        .write_to(&mut std::io::Cursor::new(&mut png), image::ImageOutputFormat::Png)
        .unwrap();
    let image = decode_picture("x.png", &png).unwrap();
    assert_eq!((image.width, image.height), (2, 1));
    assert_eq!(image.pixels, vec![1, 2, 3, 4, 5, 6, 7, 8]);
    assert!(decode_picture("x.PnG", &png).is_ok());
    assert!(decode_picture("x.png", b"P6\n1 1\n255\n123").is_err());
    assert!(decode_picture("x", &png).is_err());
    assert!(decode_picture("x.txt", &png).is_err());
}

#[test]
fn formats_that_are_decoded() {
    for name in ["a.png", "dir/a.PNG", "a", "dir/a", "a.txt", "a.png.bak", "", "a.pngs"] {
        assert!(can_decode(name, b"any"), "{}", name);
    }
    for name in ["a.jpg", "a.JPEG", "a.webp", "a.ppm", "a.hdr", ".png", "a/.png", "a.", "a.b/c"] {
        assert!(!can_decode(name, b"any"), "{}", name);
    }
    let others: [&[u8]; 16] = [
        b"\xff\xd8\xff",
        b"GIF89a",
        b"GIF87a",
        b"RIFF",
        b"MM\0*",
        b"II*\0",
        b"DDS ",
        b"BM",
        b"\0\0\x01\0",
        b"#?RADIANCE",
        b"farbfeld",
        b"\0\0\0 ftypavif",
        b"\0\0\0\x1cftypavif",
        b"\x76\x2f\x31\x01",
        b"qoif",
        b"P6",
    ];
    for bytes in others {
        assert!(image::guess_format(bytes).is_ok());
        assert!(!can_decode_bytes(bytes));
        assert!(can_decode_bytes(&bytes[..bytes.len() - 1]));
    }
    assert!(can_decode_bytes(b"\x89PNG\r\n\x1a\n"));
    assert!(can_decode_bytes(b""));
    assert!(can_decode_bytes(b"P0"));
    assert!(can_decode_bytes(b"P8"));
}

fn header(width: u32, height: u32, depth: u8, colours: u8) -> Vec<u8> {
    let mut bytes = b"\x89PNG\r\n\x1a\n\0\0\0\x0dIHDR".to_vec();
    bytes.extend_from_slice(&width.to_be_bytes());
    bytes.extend_from_slice(&height.to_be_bytes());
    bytes.extend_from_slice(&[depth, colours, 0, 0, 0, 0, 0, 0, 0]);
    bytes
}

fn with_chunk(mut bytes: Vec<u8>, kind: &[u8; 4], data: &[u8]) -> Vec<u8> {
    bytes.extend_from_slice(&(data.len() as u32).to_be_bytes());
    bytes.extend_from_slice(kind);
    bytes.extend_from_slice(data);
    bytes.extend_from_slice(&[0; 4]);
    bytes
}

#[test]
fn large_pngs_are_left_out() {
    assert!(can_decode_bytes(&header(16384, 8192, 8, 6)));
    assert!(!can_decode_bytes(&header(16384, 8193, 8, 6)));
    assert!(!can_decode_bytes(&header(16384, 8192, 16, 6)));
    assert!(can_decode_bytes(&header(8192, 8192, 16, 6)));
    assert!(!can_decode_bytes(&header(u32::MAX, u32::MAX, 16, 6)));
    assert!(!can_decode("a.png", &header(16384, 8193, 8, 6)));
    assert!(can_decode("a.txt", &header(16384, 8193, 8, 6)));
}

#[test]
fn pngs_with_broken_palettes_are_left_out() {
    let indexed = || header(1, 1, 8, 3);
    assert!(!can_decode_bytes(&with_chunk(indexed(), b"PLTE", &[0; 1])));
    assert!(can_decode_bytes(&with_chunk(indexed(), b"PLTE", &[0; 3])));
    assert!(can_decode_bytes(&with_chunk(indexed(), b"PLTE", &[0; 768])));
    assert!(!can_decode_bytes(&with_chunk(indexed(), b"PLTE", &[0; 771])));
    let later = with_chunk(with_chunk(indexed(), b"tEXt", b"some text"), b"PLTE", &[0; 4]);
    assert!(!can_decode_bytes(&later));
    assert!(!can_decode("a.png", &later));
    assert!(can_decode_bytes(&with_chunk(header(1, 1, 8, 6), b"PLTE", &[0; 1])));
}

#[test]
fn pngs_with_other_broken_chunks_are_left_out() {
    let plain = || header(1, 1, 8, 6);
    assert!(!can_decode_bytes(&with_chunk(plain(), b"acTL", &[255, 255, 255, 255, 0, 0, 0, 0])));
    assert!(can_decode_bytes(&with_chunk(plain(), b"acTL", &[255, 255, 255, 254, 0, 0, 0, 0])));
    let mut cut = with_chunk(plain(), b"IDAT", &[0; 5]);
    cut.truncate(cut.len() - 6);
    assert!(can_decode_bytes(&cut));
    let empty = with_chunk(b"\x89PNG\r\n\x1a\n".to_vec(), b"IHDR", &[]);
    assert!(!can_decode_bytes(&with_chunk(empty, b"IHDR", &[])));
}

#[test]
fn pngs_with_palettes_are_decoded() {
    let mut bytes = Vec::new();
    {
        let mut encoder = png::Encoder::new(&mut bytes, 2, 1);
        encoder.set_color(png::ColorType::Indexed);
        encoder.set_depth(png::BitDepth::Eight);
        encoder.set_palette(vec![1, 2, 3, 4, 5, 6]);
        let mut writer = encoder.write_header().unwrap();
        writer.write_image_data(&[1, 0]).unwrap();
    }
    assert!(can_decode("a.png", &bytes));
    let image = decode_picture("a.png", &bytes).unwrap();
    assert_eq!(image.pixels, vec![4, 5, 6, 255, 1, 2, 3, 255]);
}

#[test]
fn lists_are_appended_one_after_the_other() {
    let mut twice = vec![9];
    push_bytes(&mut twice, &[1, 2]);
    push_bytes(&mut twice, &[3]);
    let mut once = vec![9];
    push_bytes(&mut once, &[1, 2, 3]);
    assert_eq!(twice, once);
}

#[test]
fn documents_are_read() {
    let node = read_toml("a = \"x\"\nb = 1.5\nc = [2, \"y\"]\nd = 3\n").unwrap();
    assert_eq!(node.get_text("a"), Some(&"x".to_string()));
    assert_eq!(node.get_number("b"), Some(1.5f64.to_bits()));
    let items = node.get_list("c").unwrap();
    assert_eq!(items.len(), 2);
    assert!(matches!(items[0], Node::Integer(2)));
    assert!(matches!(&items[1], Node::Text(text) if text == "y"));
    assert_eq!(node.get_number("d"), None);
    assert!(node.get("e").is_none());
    assert!(items[0].get("x").is_none());
    assert!(read_toml("a = ").is_err());
    let node = read_json("{ \"a\": { \"b\": [1, 2.5, null] } }").unwrap();
    let items = node.get("a").unwrap().get_list("b").unwrap();
    assert!(matches!(items[0], Node::Number(Some(bits)) if bits == 1.0f64.to_bits()));
    assert!(matches!(items[1], Node::Number(Some(bits)) if bits == 2.5f64.to_bits()));
    assert!(matches!(items[2], Node::Null));
    assert!(read_json("{").is_none());
}

#[test]
fn kinds_of_values_are_told_apart() {
    let node = read_toml("a = true\nb = 1979-05-27\nc = 3\nd = 3.0\n").unwrap();
    assert!(matches!(node.get("a"), Some(Node::Boolean(true))));
    assert!(matches!(node.get("b"), Some(Node::Date(text)) if text == "1979-05-27"));
    assert!(matches!(node.get("c"), Some(Node::Integer(3))));
    assert_eq!(node.get_number("a"), None);
    assert_eq!(node.get_number("b"), None);
    assert_eq!(node.get_number("c"), None);
    assert_eq!(node.get_number("d"), Some(3.0f64.to_bits()));
    let node = read_json("{ \"a\": false, \"b\": 3 }").unwrap();
    assert!(matches!(node.get("a"), Some(Node::Boolean(false))));
    assert_eq!(node.get_number("b"), Some(3.0f64.to_bits()));
}
