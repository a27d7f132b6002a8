use cxpk::container::{
    choose_step, pack_container, read_index, unpack_container, PackedFile, Step, CXPK_MAGIC,
};
use cxpk::driver::get_drivers;
use cxpk::fault::Flaw;

fn file(name: &str, data: &[u8]) -> PackedFile {
    PackedFile { name: name.to_string(), data: data.to_vec() }
}

#[test]
fn container_layout() {
    assert_eq!(&CXPK_MAGIC, b"CXPK");
    let bytes = pack_container(&vec![file("a.txt", b"hi"), file("b", b"there")]).unwrap();
    assert_eq!(bytes.len(), 8 + 2 * 72 + 7);
    assert_eq!(&bytes[0..8], b"CXPK\x02\0\0\0");
    assert_eq!(&bytes[8..13], b"a.txt");
    assert_eq!(&bytes[13..72], &[0; 59]);
    assert_eq!(&bytes[72..80], &[152, 0, 0, 0, 2, 0, 0, 0]);
    assert_eq!(&bytes[80..82], b"b\0");
    assert_eq!(&bytes[144..152], &[154, 0, 0, 0, 5, 0, 0, 0]);
    assert_eq!(&bytes[152..], b"hithere");
}

#[test]
fn container_round_trip() {
    let names = ["plain.txt", "dir/\u{e4}\u{f6}\u{fc}.bin", ".cxan", "empty"];
    let datas: [&[u8]; 4] = [b"one", b"\0\x01\x02", b"CXANdata", b""];
    let files: Vec<PackedFile> = (0..4).map(|i| file(names[i], datas[i])).collect();
    let bytes = pack_container(&files).unwrap();
    let contents = unpack_container(&bytes, &get_drivers());
    assert_eq!(contents.flaw, None);
    assert_eq!(contents.steps.len(), 4);
    for (i, step) in contents.steps.iter().enumerate() {
        match step {
            Step::Raw { name, data } => {
                assert_ne!(i, 2);
                assert_eq!(name, names[i]);
                assert_eq!(data, datas[i]);
            }
            Step::Asset { driver, name, folder, data } => {
                assert_eq!(i, 2);
                assert_eq!(*driver, 0);
                assert_eq!(name, ".cxan");
                assert_eq!(folder, "");
                assert_eq!(data, datas[i]);
            }
        }
    }
}

#[test]
fn long_names_are_cut() {
    let long = "x".repeat(70);
    let bytes = pack_container(&vec![file(&long, b"d")]).unwrap();
    let index = read_index(&bytes).unwrap();
    assert_eq!(index[0].name, "x".repeat(63));
    assert_eq!(index[0].size, 1);
    assert_eq!(index[0].offset, 80);
    let exact = "y".repeat(63);
    let bytes = pack_container(&vec![file(&exact, b"")]).unwrap();
    assert_eq!(read_index(&bytes).unwrap()[0].name, exact);
}

#[test]
fn a_name_cut_within_a_character_is_repaired() {
    let name = format!("{}\u{e9}", "z".repeat(62));
    let bytes = pack_container(&vec![file(&name, b"")]).unwrap();
    let index = read_index(&bytes).unwrap();
    assert_eq!(index[0].name, format!("{}\u{fffd}", "z".repeat(62)));
}

#[test]
fn zeros_around_a_name_are_trimmed() {
    let bytes = pack_container(&vec![file("\0ab\0c\0", b"")]).unwrap();
    assert_eq!(read_index(&bytes).unwrap()[0].name, "ab\0c");
}

#[test]
fn assets_are_known_by_magic_and_extension() {
    let drivers = get_drivers();
    let step = choose_step("walk/left.cxan".to_string(), b"CXAN...".to_vec(), &drivers);
    match step {
        Step::Asset { driver, name, folder, data } => {
            assert_eq!(driver, 0);
            assert_eq!(name, "walk/left.cxan");
            assert_eq!(folder, "walk/left");
            assert_eq!(data, b"CXAN...".to_vec());
        }
        Step::Raw { .. } => panic!("taken as it is"),
    }
    for (name, data) in [
        ("walk.cxan", &b"CXA"[..]),
        ("walk.cxan", &b"CXSI----"[..]),
        ("walk.bin", &b"CXAN----"[..]),
        ("cxan", &b"CXAN----"[..]),
    ] {
        let step = choose_step(name.to_string(), data.to_vec(), &drivers);
        assert!(matches!(step, Step::Raw { .. }));
    }
}

#[test]
fn containers_that_are_none() {
    let drivers = get_drivers();
    let flaw_of = |bytes: &[u8]| {
        let contents = unpack_container(bytes, &drivers);
        assert!(contents.steps.is_empty());
        contents.flaw
    };
    assert_eq!(flaw_of(b"CXP"), Some(Flaw::ContainerCutShort));
    assert_eq!(flaw_of(b"CXPX\0\0\0\0"), Some(Flaw::BadMagic));
    assert_eq!(flaw_of(b"CXPK\0\0"), Some(Flaw::ContainerCutShort));
    assert_eq!(flaw_of(b"CXPK\x01\0\0\0"), Some(Flaw::ContainerCutShort));
    assert_eq!(flaw_of(b"CXPK\0\0\0\0"), None);
}

#[test]
fn containers_that_end_early() {
    let drivers = get_drivers();
    let bytes = pack_container(&vec![file("a", b"12"), file("b", b"34"), file("c", b"")]).unwrap();
    let contents = unpack_container(&bytes[..bytes.len() - 1], &drivers);
    assert_eq!(contents.steps.len(), 1);
    assert_eq!(contents.flaw, Some(Flaw::ContainerCutShort));
    let contents = unpack_container(&bytes, &drivers);
    assert_eq!(contents.steps.len(), 3);
    assert_eq!(contents.flaw, None);
}
