use cxpk::container::{pack_container, unpack_container, PackedFile, Step};
use cxpk::driver::get_drivers;
use cxpk::fault::{AssetError, Flaw};
use cxpk::packer::{
    collect_files, find_asset_folders, process_directory, AssetFolder, Job, PathText, WalkedFile,
};

fn path(root: &str, relative: &str) -> PathText {
    let shown = if relative.is_empty() {
        root.to_string()
    } else {
        format!("{}/{}", root, relative)
    };
    PathText {
        components: shown.split('/').map(|part| part.as_bytes().to_vec()).collect(),
        shown,
        relative: Some(relative.to_string()),
    }
}

fn walked(relative: &str) -> WalkedFile {
    let (parent, name) = match relative.rfind('/') {
        Some(at) => (&relative[..at], &relative[at + 1..]),
        None => ("", relative),
    };
    WalkedFile {
        file_name: Some(name.to_string()),
        path: path("assets", relative),
        parent: Some(path("assets", parent)),
    }
}

fn shown(jobs: &[Job]) -> Vec<(usize, Option<usize>, String)> {
    jobs.iter().map(|job| (job.file, job.driver, job.name.clone())).collect()
}

#[test]
fn folders_are_found_by_their_entry_file() {
    let files = vec![
        walked("music.ogg"),
        walked("walk/animation.entry"),
        walked("walk/0.png"),
        walked("run/deep/animation.entry"),
        walked("other/map.entry"),
    ];
    let folders = find_asset_folders(&files, &get_drivers());
    assert_eq!(
        folders,
        vec![AssetFolder { file: 1, driver: 0 }, AssetFolder { file: 3, driver: 0 }]
    );
}

#[test]
fn a_folder_is_found_once() {
    let files = vec![walked("walk/animation.entry"), walked("walk/animation.entry")];
    let folders = find_asset_folders(&files, &get_drivers());
    assert_eq!(folders, vec![AssetFolder { file: 0, driver: 0 }]);
}

#[test]
fn files_without_a_name_or_a_folder_mark_nothing() {
    let mut nameless = walked("walk/animation.entry");
    nameless.file_name = None;
    let mut homeless = walked("walk/animation.entry");
    homeless.parent = None;
    assert!(find_asset_folders(&vec![nameless, homeless], &get_drivers()).is_empty());
}

#[test]
fn a_directory_becomes_jobs() {
    let files = vec![
        walked("z.txt"),
        walked("walk/animation.entry"),
        walked("walk/sub/0.png"),
        walked("walker/readme"),
        walked("a\\b.txt"),
        walked("run/animation.entry"),
    ];
    let jobs = process_directory(&files, &get_drivers()).unwrap();
    assert_eq!(
        shown(&jobs),
        vec![
            (5, Some(0), "run.cxan".to_string()),
            (1, Some(0), "walk.cxan".to_string()),
            (4, None, "a/b.txt".to_string()),
            (3, None, "walker/readme".to_string()),
            (0, None, "z.txt".to_string()),
        ]
    );
}

#[test]
fn the_directory_itself_can_be_an_asset() {
    let files = vec![walked("animation.entry"), walked("0.png"), walked("sub/file")];
    let jobs = process_directory(&files, &get_drivers()).unwrap();
    assert_eq!(shown(&jobs), vec![(0, Some(0), "..cxan".to_string())]);
}

#[test]
fn paths_outside_the_directory_are_refused() {
    let mut file = walked("animation.entry");
    if let Some(parent) = &mut file.parent {
        parent.relative = None;
    }
    let outcome = process_directory(&vec![file], &get_drivers());
    assert!(matches!(outcome, Err(AssetError::Flawed(Flaw::OutsideRoot))));
    let mut file = walked("file");
    file.path.relative = None;
    let outcome = process_directory(&vec![file], &get_drivers());
    assert!(matches!(outcome, Err(AssetError::Flawed(Flaw::OutsideRoot))));
}

#[test]
fn an_empty_directory_has_no_jobs() {
    assert!(process_directory(&vec![], &get_drivers()).unwrap().is_empty());
}

fn job(name: &str) -> Job {
    Job { file: 0, driver: None, name: name.to_string() }
}

#[test]
fn results_are_collected_by_name() {
    let jobs = vec![job("b"), job("a"), job("b"), job("A")];
    let results = vec![Some(vec![1]), Some(vec![2]), Some(vec![3]), Some(vec![4])];
    let files: Vec<(String, Vec<u8>)> = collect_files(&jobs, results)
        .unwrap()
        .into_iter()
        .map(|PackedFile { name, data }| (name, data))
        .collect();
    assert_eq!(
        files,
        vec![
            ("A".to_string(), vec![4]),
            ("a".to_string(), vec![2]),
            ("b".to_string(), vec![1]),
            ("b".to_string(), vec![3]),
        ]
    );
}

#[test]
fn the_first_failed_job_is_reported() {
    let jobs = vec![job("b"), job("a"), job("c")];
    let outcome = collect_files(&jobs, vec![Some(vec![1]), None, None]);
    assert!(matches!(
        outcome,
        Err(AssetError::Flawed(Flaw::Unreadable { index: 1 }))
    ));
}

#[test]
fn the_plan_is_the_same_every_time() {
    let list = || {
        vec![
            walked("b/animation.entry"),
            walked("c.txt"),
            walked("a/animation.entry"),
            walked("a.txt"),
        ]
    };
    let first = process_directory(&list(), &get_drivers()).unwrap();
    let second = process_directory(&list(), &get_drivers()).unwrap();
    assert_eq!(shown(&first), shown(&second));
    let mut turned = list();
    turned.reverse();
    let third = process_directory(&turned, &get_drivers()).unwrap();
    let names = |jobs: &[Job]| jobs.iter().map(|job| job.name.clone()).collect::<Vec<_>>();
    assert_eq!(names(&third), names(&first));
}

#[test]
fn a_directory_of_files_comes_back() {
    let files = vec![walked("z/deep/b.bin"), walked("a.txt"), walked("z/a.txt")];
    let contents: [&[u8]; 3] = [b"CXAN but no blob", b"", b"text"];
    let jobs = process_directory(&files, &get_drivers()).unwrap();
    let results = jobs.iter().map(|job| Some(contents[job.file].to_vec())).collect();
    let packed = collect_files(&jobs, results).unwrap();
    let bytes = pack_container(&packed).unwrap();
    let unpacked = unpack_container(&bytes, &get_drivers());
    assert_eq!(unpacked.flaw, None);
    let mut found: Vec<(String, Vec<u8>)> = unpacked
        .steps
        .into_iter()
        .map(|step| match step {
            Step::Raw { name, data } => (name, data),
            Step::Asset { .. } => panic!("taken for a blob"),
        })
        .collect();
    found.sort();
    assert_eq!(
        found,
        vec![
            ("a.txt".to_string(), b"".to_vec()),
            ("z/a.txt".to_string(), b"text".to_vec()),
            ("z/deep/b.bin".to_string(), b"CXAN but no blob".to_vec()),
        ]
    );
}
