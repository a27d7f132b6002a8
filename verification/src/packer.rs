//! Directories of assets: which folders are packed as blobs, which files are taken as they are, and
//! under which names.
use vstd::prelude::*;
use vstd::string::*;

use crate::bytes::same_bytes;
use crate::container::{
    container_bytes, driver_of, driver_views, file_steps, file_views, storable, unpacking,
    unpacking_undoes_packing, DriverView, FileView, PackedFile, StepView,
};
use crate::driver::AssetDriver;
use crate::fault::{AssetError, Fault, Flaw};
use crate::sort::{
    goes_before, has_place, is_order, lemma_one_order, name_before, name_views, order_by_name,
    order_is_unique, order_lists_everything_once, strictly_named,
};
use crate::text::{ends_in, same_text, slashed, with_slashes};

verus! {

/// A path: its components, the text that it is shown as, and the text that it is shown as relative
/// to the directory of the assets, where it lies in it.
pub struct PathText {
    pub components: Vec<Vec<u8>>,
    pub shown: String,
    pub relative: Option<String>,
}

/// What a [`PathText`] says.
pub struct PathView {
    pub components: Seq<Seq<u8>>,
    pub shown: Seq<char>,
    pub relative: Option<Seq<char>>,
}

/// The bytes of each component.
pub open spec fn component_views(components: Seq<Vec<u8>>) -> Seq<Seq<u8>> {
    Seq::new(components.len(), |i: int| components[i]@)
}

impl View for PathText {
    type V = PathView;

    open spec fn view(&self) -> PathView {
        PathView {
            components: component_views(self.components@),
            shown: self.shown@,
            relative: match self.relative {
                Some(text) => Some(text@),
                None => None,
            },
        }
    }
}

/// A file of the directory of the assets: its name where it is valid Unicode, its path, and the path
/// of the folder that it lies in.
pub struct WalkedFile {
    pub file_name: Option<String>,
    pub path: PathText,
    pub parent: Option<PathText>,
}

/// What a [`WalkedFile`] says.
pub struct WalkedView {
    pub file_name: Option<Seq<char>>,
    pub path: PathView,
    pub parent: Option<PathView>,
}

impl View for WalkedFile {
    type V = WalkedView;

    open spec fn view(&self) -> WalkedView {
        WalkedView {
            file_name: match self.file_name {
                Some(name) => Some(name@),
                None => None,
            },
            path: self.path@,
            parent: match self.parent {
                Some(parent) => Some(parent@),
                None => None,
            },
        }
    }
}

/// What the files say.
pub open spec fn walked_views(files: Seq<WalkedFile>) -> Seq<WalkedView> {
    Seq::new(files.len(), |i: int| files[i]@)
}

/// Whether a file marks its folder as one of this driver.
pub open spec fn marks(file: WalkedView, driver: DriverView) -> bool {
    &&& file.file_name == Some(driver.entry)
    &&& file.parent is Some
}

/// The folders that the files mark, each with the first file that marks it and its driver, once the
/// first `i` files and the first `d` drivers of the next one are gone through: a later mark replaces
/// the driver of an earlier one.
pub open spec fn marked_folders(
    files: Seq<WalkedView>,
    drivers: Seq<DriverView>,
    i: int,
    d: int,
) -> Map<Seq<Seq<u8>>, (int, int)>
    decreases i, d,
{
    if i < 0 || d < 0 {
        Map::empty()
    } else if d > 0 {
        let before = marked_folders(files, drivers, i, d - 1);
        if marks(files[i], drivers[d - 1]) {
            marked(before, files[i].parent->0.components, i, d - 1)
        } else {
            before
        }
    } else if i > 0 {
        marked_folders(files, drivers, i - 1, drivers.len() as int)
    } else {
        Map::empty()
    }
}

/// The folders with one more mark.
pub open spec fn marked(
    folders: Map<Seq<Seq<u8>>, (int, int)>,
    components: Seq<Seq<u8>>,
    file: int,
    driver: int,
) -> Map<Seq<Seq<u8>>, (int, int)> {
    if folders.contains_key(components) {
        folders.insert(components, (folders[components].0, driver))
    } else {
        folders.insert(components, (file, driver))
    }
}

/// The folders that the files mark, each with the first file that marks it and its driver.
pub open spec fn asset_folders(files: Seq<WalkedView>, drivers: Seq<DriverView>) -> Map<
    Seq<Seq<u8>>,
    (int, int),
> {
    marked_folders(files, drivers, files.len() as int, 0)
}

/// A folder of assets: a file that lies in it, and its driver.
#[derive(Clone, Copy, Debug, PartialEq, Eq, Structural)]
pub struct AssetFolder {
    pub file: usize,
    pub driver: usize,
}

/// The path of a folder of assets.
pub open spec fn folder_path(files: Seq<WalkedView>, folder: AssetFolder) -> PathView {
    files[folder.file as int].parent->0
}

/// Whether one of the folders has these components.
pub open spec fn listed_folder(
    files: Seq<WalkedView>,
    folders: Seq<AssetFolder>,
    components: Seq<Seq<u8>>,
) -> bool {
    exists|k: int|
        0 <= k < folders.len() && (#[trigger] folder_path(files, folders[k])).components
            == components
}

/// Whether the list holds every folder of the map once, with its driver, and nothing else.
pub open spec fn lists(
    files: Seq<WalkedView>,
    folders: Seq<AssetFolder>,
    map: Map<Seq<Seq<u8>>, (int, int)>,
) -> bool {
    &&& forall|k: int|
        0 <= k < folders.len() ==> {
            let path = folder_path(files, #[trigger] folders[k]);
            &&& folders[k].file < files.len()
            &&& files[folders[k].file as int].parent is Some
            &&& map.contains_key(path.components)
            &&& map[path.components] == (folders[k].file as int, folders[k].driver as int)
        }
    &&& forall|j: int, k: int|
        0 <= j < k < folders.len() ==> folder_path(files, #[trigger] folders[j]).components
            != folder_path(files, #[trigger] folders[k]).components
    &&& forall|components: Seq<Seq<u8>>| #[trigger]
        map.contains_key(components) ==> listed_folder(files, folders, components)
}

/// Whether two paths have the same components.
fn same_components(a: &Vec<Vec<u8>>, b: &Vec<Vec<u8>>) -> (same: bool)
    ensures
        same == (component_views(a@) == component_views(b@)),
{
    if a.len() != b.len() {
        assert(component_views(a@).len() != component_views(b@).len());
        return false;
    }
    begins_with(a, b)
}

/// Whether a path lies in a folder or is the folder.
pub open spec fn is_under(path: Seq<Seq<u8>>, folder: Seq<Seq<u8>>) -> bool {
    &&& folder.len() <= path.len()
    &&& path.take(folder.len() as int) == folder
}

/// Whether the components of a path begin with those of a folder.
fn begins_with(path: &Vec<Vec<u8>>, folder: &Vec<Vec<u8>>) -> (begins: bool)
    ensures
        begins == is_under(component_views(path@), component_views(folder@)),
        path@.len() == folder@.len() ==> begins == (component_views(path@) == component_views(
            folder@,
        )),
{
    let ghost inner = component_views(path@);
    let ghost outer = component_views(folder@);
    assert(path@.len() == folder@.len() ==> inner.take(outer.len() as int) =~= inner);
    if folder.len() > path.len() {
        return false;
    }
    let mut i: usize = 0;
    while i < folder.len()
        invariant
            inner == component_views(path@),
            outer == component_views(folder@),
            folder@.len() <= path@.len(),
            path@.len() == folder@.len() ==> inner.take(outer.len() as int) == inner,
            i <= folder@.len(),
            forall|k: int| 0 <= k < i ==> #[trigger] inner[k] == outer[k],
        decreases folder@.len() - i,
    {
        if !same_bytes(path[i].as_slice(), folder[i].as_slice()) {
            assert(inner[i as int] != outer[i as int]);
            assert(inner.take(outer.len() as int)[i as int] == inner[i as int]);
            return false;
        }
        assert(inner[i as int] == outer[i as int]);
        i = i + 1;
    }
    assert(inner.take(outer.len() as int) =~= outer);
    true
}

/// Enters a folder with its driver, in place of the driver that it had.
fn enter_folder(
    files: &Vec<WalkedFile>,
    folders: &mut Vec<AssetFolder>,
    file: usize,
    driver: usize,
    Ghost(map): Ghost<Map<Seq<Seq<u8>>, (int, int)>>,
)
    requires
        file < files@.len(),
        files@[file as int].parent is Some,
        lists(walked_views(files@), old(folders)@, map),
    ensures
        lists(
            walked_views(files@),
            final(folders)@,
            marked(
                map,
                walked_views(files@)[file as int].parent->0.components,
                file as int,
                driver as int,
            ),
        ),
{
    let ghost views = walked_views(files@);
    let ghost key = views[file as int].parent->0.components;
    let ghost next = marked(map, key, file as int, driver as int);
    let ghost before = folders@;
    if let Some(parent) = &files[file].parent {
        assert(key == component_views(parent.components@));
        let mut k: usize = 0;
        while k < folders.len()
            invariant
                views == walked_views(files@),
                folders@ == before,
                lists(views, before, map),
                next == marked(map, key, file as int, driver as int),
                key == views[file as int].parent->0.components,
                key == component_views(parent.components@),
                k <= folders@.len(),
                forall|j: int|
                    0 <= j < k ==> folder_path(views, #[trigger] before[j]).components != key,
            decreases folders@.len() - k,
        {
            let entry: AssetFolder = folders[k];
            assert(entry == before[k as int]);
            let mut same: bool = false;
            if let Some(other) = &files[entry.file].parent {
                assert(folder_path(views, entry) == other@);
                same = same_components(&other.components, &parent.components);
            }
            if same {
                folders.set(k, AssetFolder { file: entry.file, driver });
                proof {
                    let after = folders@;
                    assert(folder_path(views, after[k as int]).components == key);
                    assert forall|j: int| 0 <= j < after.len() implies {
                        let path = folder_path(views, #[trigger] after[j]);
                        &&& after[j].file < views.len()
                        &&& views[after[j].file as int].parent is Some
                        &&& next.contains_key(path.components)
                        &&& next[path.components] == (
                            after[j].file as int,
                            after[j].driver as int,
                        )
                    } by {
                        if j != k {
                            assert(after[j] == before[j]);
                            let low = if j < k { j } else { k as int };
                            let high = if j < k { k as int } else { j };
                            assert(folder_path(views, before[low]).components != folder_path(
                                views,
                                before[high],
                            ).components);
                        }
                    }
                    assert forall|i: int, j: int| 0 <= i < j < after.len() implies folder_path(
                        views,
                        #[trigger] after[i],
                    ).components != folder_path(views, #[trigger] after[j]).components by {
                        assert(folder_path(views, after[i]) == folder_path(views, before[i]));
                        assert(folder_path(views, after[j]) == folder_path(views, before[j]));
                    }
                    assert forall|components: Seq<Seq<u8>>| #[trigger]
                        next.contains_key(components) implies listed_folder(
                        views,
                        after,
                        components,
                    ) by {
                        if components == key {
                            assert(folder_path(views, after[k as int]).components == key);
                        } else {
                            assert(map.contains_key(components));
                            let j = choose|j: int|
                                0 <= j < before.len() && (#[trigger] folder_path(
                                    views,
                                    before[j],
                                )).components == components;
                            assert(folder_path(views, after[j]).components == components);
                        }
                    }
                }
                return ;
            }
            k = k + 1;
        }
    }
    folders.push(AssetFolder { file, driver });
    proof {
        let after = folders@;
        let last = before.len() as int;
        assert(folder_path(views, after[last]).components == key);
        assert forall|j: int| 0 <= j < after.len() implies {
            let path = folder_path(views, #[trigger] after[j]);
            &&& after[j].file < views.len()
            &&& views[after[j].file as int].parent is Some
            &&& next.contains_key(path.components)
            &&& next[path.components] == (after[j].file as int, after[j].driver as int)
        } by {
            if j < last {
                assert(after[j] == before[j]);
            }
        }
        assert forall|i: int, j: int| 0 <= i < j < after.len() implies folder_path(
            views,
            #[trigger] after[i],
        ).components != folder_path(views, #[trigger] after[j]).components by {
            assert(after[i] == before[i]);
            if j < last {
                assert(after[j] == before[j]);
            }
        }
        assert forall|components: Seq<Seq<u8>>| #[trigger]
            next.contains_key(components) implies listed_folder(views, after, components) by {
            if components != key {
                assert(map.contains_key(components));
                let j = choose|j: int|
                    0 <= j < before.len() && (#[trigger] folder_path(
                        views,
                        before[j],
                    )).components == components;
                assert(folder_path(views, after[j]).components == components);
            } else {
                assert(folder_path(views, after[last]).components == key);
            }
        }
    }
}

/// Finds the folders that hold the entry file of a driver.
pub fn find_asset_folders(files: &Vec<WalkedFile>, drivers: &Vec<Box<dyn AssetDriver>>) -> (folders:
    Vec<AssetFolder>)
    ensures
        lists(
            walked_views(files@),
            folders@,
            asset_folders(walked_views(files@), driver_views(drivers@)),
        ),
{
    let ghost views = walked_views(files@);
    let ghost known = driver_views(drivers@);
    let mut folders: Vec<AssetFolder> = Vec::new();
    let mut i: usize = 0;
    while i < files.len()
        invariant
            views == walked_views(files@),
            known == driver_views(drivers@),
            i <= files@.len(),
            lists(views, folders@, marked_folders(views, known, i as int, 0)),
        decreases files@.len() - i,
    {
        let file: &WalkedFile = &files[i];
        assert(views[i as int] == file@);
        let mut d: usize = 0;
        while d < drivers.len()
            invariant
                views == walked_views(files@),
                known == driver_views(drivers@),
                i < files@.len(),
                views[i as int] == file@,
                *file == files@[i as int],
                d <= drivers@.len(),
                lists(views, folders@, marked_folders(views, known, i as int, d as int)),
            decreases drivers@.len() - d,
        {
            assert(known[d as int].entry == drivers@[d as int].entry_text());
            let named: bool = match &file.file_name {
                Some(name) => same_text(name.as_str(), drivers[d].entry_file()),
                None => false,
            };
            if named && file.parent.is_some() {
                assert(marks(views[i as int], known[d as int]));
                let ghost map = marked_folders(views, known, i as int, d as int);
                enter_folder(files, &mut folders, i, d, Ghost(map));
            }
            d = d + 1;
        }
        i = i + 1;
    }
    folders
}

/// Whether one of the first `i` files, or the next one for one of the first `d` drivers, marks the
/// folder.
pub open spec fn is_marked(
    files: Seq<WalkedView>,
    drivers: Seq<DriverView>,
    i: int,
    d: int,
    components: Seq<Seq<u8>>,
) -> bool {
    exists|f: int, k: int|
        {
            &&& 0 <= f && 0 <= k < drivers.len()
            &&& f < i || (f == i && k < d)
            &&& #[trigger] marks(files[f], drivers[k])
            &&& files[f].parent->0.components == components
        }
}

/// The folders found are those that hold a file with the name of a driver's entry file, and no
/// others.
pub proof fn folders_are_those_with_an_entry_file(
    files: Seq<WalkedView>,
    drivers: Seq<DriverView>,
    i: int,
    d: int,
    components: Seq<Seq<u8>>,
)
    requires
        0 <= i <= files.len(),
        0 <= d <= drivers.len(),
    ensures
        marked_folders(files, drivers, i, d).contains_key(components) == is_marked(
            files,
            drivers,
            i,
            d,
            components,
        ),
    decreases i, d,
{
    let map = marked_folders(files, drivers, i, d);
    if d > 0 {
        folders_are_those_with_an_entry_file(files, drivers, i, d - 1, components);
        if is_marked(files, drivers, i, d - 1, components) {
            let (f, k) = choose|f: int, k: int|
                {
                    &&& 0 <= f && 0 <= k < drivers.len()
                    &&& f < i || (f == i && k < d - 1)
                    &&& #[trigger] marks(files[f], drivers[k])
                    &&& files[f].parent->0.components == components
                };
            assert(marks(files[f], drivers[k]));
            assert(is_marked(files, drivers, i, d, components));
        } else if marks(files[i], drivers[d - 1]) && files[i].parent->0.components == components {
            assert(is_marked(files, drivers, i, d, components));
        } else {
            assert(!is_marked(files, drivers, i, d, components));
        }
    } else if i > 0 {
        let all = drivers.len() as int;
        folders_are_those_with_an_entry_file(files, drivers, i - 1, all, components);
        assert(map == marked_folders(files, drivers, i - 1, all));
        if is_marked(files, drivers, i - 1, all, components) {
            let (f, k) = choose|f: int, k: int|
                {
                    &&& 0 <= f && 0 <= k < drivers.len()
                    &&& f < i - 1 || (f == i - 1 && k < all)
                    &&& #[trigger] marks(files[f], drivers[k])
                    &&& files[f].parent->0.components == components
                };
            assert(marks(files[f], drivers[k]));
        }
        if is_marked(files, drivers, i, d, components) {
            let (f, k) = choose|f: int, k: int|
                {
                    &&& 0 <= f && 0 <= k < drivers.len()
                    &&& f < i || (f == i && k < d)
                    &&& #[trigger] marks(files[f], drivers[k])
                    &&& files[f].parent->0.components == components
                };
            assert(marks(files[f], drivers[k]));
        }
    } else {
        assert(map == Map::<Seq<Seq<u8>>, (int, int)>::empty());
        assert(!is_marked(files, drivers, i, d, components));
    }
}

/// Whether a file lies in none of the folders.
pub open spec fn is_raw(file: WalkedView, map: Map<Seq<Seq<u8>>, (int, int)>) -> bool {
    forall|components: Seq<Seq<u8>>| #[trigger]
        map.contains_key(components) ==> !is_under(file.path.components, components)
}

/// The files among the first `count` that lie in none of the folders.
pub open spec fn raw_files(
    files: Seq<WalkedView>,
    map: Map<Seq<Seq<u8>>, (int, int)>,
    count: int,
) -> Seq<usize>
    decreases count,
{
    if count <= 0 {
        Seq::empty()
    } else if is_raw(files[count - 1], map) {
        raw_files(files, map, count - 1).push((count - 1) as usize)
    } else {
        raw_files(files, map, count - 1)
    }
}

/// Finds the files that lie in none of the folders.
fn find_raw_files(
    files: &Vec<WalkedFile>,
    folders: &Vec<AssetFolder>,
    Ghost(map): Ghost<Map<Seq<Seq<u8>>, (int, int)>>,
) -> (found: Vec<usize>)
    requires
        lists(walked_views(files@), folders@, map),
    ensures
        found@ == raw_files(walked_views(files@), map, files@.len() as int),
        forall|a: int| 0 <= a < found@.len() ==> (#[trigger] found@[a]) < files@.len(),
{
    let ghost views = walked_views(files@);
    let mut found: Vec<usize> = Vec::new();
    let mut i: usize = 0;
    while i < files.len()
        invariant
            views == walked_views(files@),
            lists(views, folders@, map),
            i <= files@.len(),
            found@ == raw_files(views, map, i as int),
            forall|a: int| 0 <= a < found@.len() ==> (#[trigger] found@[a]) < i,
        decreases files@.len() - i,
    {
        assert(views[i as int] == files@[i as int]@);
        let mut raw: bool = true;
        let mut k: usize = 0;
        while k < folders.len() && raw
            invariant
                views == walked_views(files@),
                lists(views, folders@, map),
                i < files@.len(),
                views[i as int] == files@[i as int]@,
                k <= folders@.len(),
                raw ==> forall|j: int|
                    0 <= j < k ==> !is_under(
                        views[i as int].path.components,
                        folder_path(views, #[trigger] folders@[j]).components,
                    ),
                !raw ==> !is_raw(views[i as int], map),
            decreases folders@.len() - k,
        {
            let entry: AssetFolder = folders[k];
            assert(entry == folders@[k as int]);
            if let Some(parent) = &files[entry.file].parent {
                assert(folder_path(views, entry) == parent@);
                if begins_with(&files[i].path.components, &parent.components) {
                    assert(map.contains_key(folder_path(views, entry).components));
                    raw = false;
                }
            }
            k = k + 1;
        }
        proof {
            if raw {
                assert forall|components: Seq<Seq<u8>>| #[trigger]
                    map.contains_key(components) implies !is_under(
                    views[i as int].path.components,
                    components,
                ) by {
                    assert(listed_folder(views, folders@, components));
                    let j = choose|j: int|
                        0 <= j < folders@.len() && (#[trigger] folder_path(
                            views,
                            folders@[j],
                        )).components == components;
                    assert(folders@[j] == folders@[j]);
                }
            }
            assert(raw == is_raw(views[i as int], map));
        }
        if raw {
            found.push(i);
        }
        i = i + 1;
    }
    found
}

/// Every file is taken as it is if it lies in no folder of assets, and only then, once and in the
/// order of the walk.
pub proof fn files_in_no_folder_are_raw(
    files: Seq<WalkedView>,
    map: Map<Seq<Seq<u8>>, (int, int)>,
    count: int,
)
    requires
        0 <= count <= files.len() <= usize::MAX,
    ensures
        forall|i: int|
            0 <= i < count ==> has_place(raw_files(files, map, count), i) == #[trigger] is_raw(
                files[i],
                map,
            ),
        forall|a: int|
            0 <= a < raw_files(files, map, count).len() ==> (#[trigger] raw_files(
                files,
                map,
                count,
            )[a]) < count,
        forall|a: int, b: int|
            0 <= a < b < raw_files(files, map, count).len() ==> #[trigger] raw_files(
                files,
                map,
                count,
            )[a] < #[trigger] raw_files(files, map, count)[b],
    decreases count,
{
    if count > 0 {
        files_in_no_folder_are_raw(files, map, count - 1);
        let fewer = raw_files(files, map, count - 1);
        let all = raw_files(files, map, count);
        assert forall|i: int| 0 <= i < count implies has_place(all, i) == #[trigger] is_raw(
            files[i],
            map,
        ) by {
            if i < count - 1 {
                if has_place(fewer, i) {
                    let a = choose|a: int| 0 <= a < fewer.len() && #[trigger] fewer[a] == i;
                    assert(all[a] == i);
                }
                if has_place(all, i) {
                    let a = choose|a: int| 0 <= a < all.len() && #[trigger] all[a] == i;
                    assert(fewer[a] == i);
                }
            } else {
                if is_raw(files[i], map) {
                    assert(all[all.len() - 1] == i);
                } else if has_place(all, i) {
                    let a = choose|a: int| 0 <= a < all.len() && #[trigger] all[a] == i;
                    assert(fewer[a] < count - 1);
                }
            }
        }
    }
}

/// A thing to be packed: a folder of assets with its driver, or a file as it is.
pub struct Job {
    pub file: usize,
    pub driver: Option<usize>,
    pub name: String,
}

/// What a [`Job`] says.
#[verifier::ext_equal]
pub struct JobView {
    pub file: usize,
    pub driver: Option<usize>,
    pub name: Seq<char>,
}

impl View for Job {
    type V = JobView;

    open spec fn view(&self) -> JobView {
        JobView { file: self.file, driver: self.driver, name: self.name@ }
    }
}

/// What the jobs say.
pub open spec fn job_views(jobs: Seq<Job>) -> Seq<JobView> {
    Seq::new(jobs.len(), |i: int| jobs[i]@)
}

/// The name of the blob of a folder: its relative path, a dot for the directory itself, and the
/// extension.
pub open spec fn blob_name(relative: Seq<char>, extension: Seq<char>) -> Seq<char> {
    if relative.len() == 0 {
        "."@ + extension
    } else {
        with_slashes(relative) + extension
    }
}

/// What the paths are shown as, in the order they came in.
pub open spec fn shown_paths(paths: Seq<PathView>) -> Seq<Option<Seq<char>>> {
    Seq::new(paths.len(), |i: int| Some(paths[i].shown))
}

/// The paths of the folders.
pub open spec fn folder_paths(files: Seq<WalkedView>, folders: Seq<AssetFolder>) -> Seq<PathView> {
    Seq::new(folders.len(), |k: int| folder_path(files, folders[k]))
}

/// The paths of the files at the positions.
pub open spec fn file_paths(files: Seq<WalkedView>, positions: Seq<usize>) -> Seq<PathView> {
    Seq::new(positions.len(), |k: int| files[positions[k] as int].path)
}

/// Whether all the paths lie in the directory of the assets.
pub open spec fn all_inside(paths: Seq<PathView>) -> bool {
    forall|i: int| 0 <= i < paths.len() ==> (#[trigger] paths[i]).relative is Some
}

/// The jobs of the folders in this order.
pub open spec fn folder_jobs(
    files: Seq<WalkedView>,
    drivers: Seq<DriverView>,
    folders: Seq<AssetFolder>,
    order: Seq<usize>,
) -> Seq<JobView> {
    Seq::new(
        order.len(),
        |k: int|
            {
                let folder = folders[order[k] as int];
                JobView {
                    file: folder.file,
                    driver: Some(folder.driver),
                    name: blob_name(
                        folder_path(files, folder).relative->0,
                        drivers[folder.driver as int].extension,
                    ),
                }
            },
    )
}

/// The jobs of the files at the positions in this order.
pub open spec fn file_jobs(
    files: Seq<WalkedView>,
    positions: Seq<usize>,
    order: Seq<usize>,
) -> Seq<JobView> {
    Seq::new(
        order.len(),
        |k: int|
            JobView {
                file: positions[order[k] as int],
                driver: None,
                name: with_slashes(files[positions[order[k] as int] as int].path.relative->0),
            },
    )
}

/// The jobs of a directory: the folders of assets, then the files in none of them, both in the order
/// of the texts that their paths are shown as.
pub open spec fn is_plan(
    files: Seq<WalkedView>,
    drivers: Seq<DriverView>,
    folders: Seq<AssetFolder>,
    orders: (Seq<usize>, Seq<usize>),
    plan: Result<Seq<JobView>, Fault>,
) -> bool {
    let map = asset_folders(files, drivers);
    let raws = raw_files(files, map, files.len() as int);
    &&& lists(files, folders, map)
    &&& is_order(shown_paths(folder_paths(files, folders)), orders.0)
    &&& is_order(shown_paths(file_paths(files, raws)), orders.1)
    &&& plan == (if all_inside(folder_paths(files, folders)) && all_inside(
        file_paths(files, raws),
    ) {
        Ok::<Seq<JobView>, Fault>(
            folder_jobs(files, drivers, folders, orders.0) + file_jobs(files, raws, orders.1),
        )
    } else {
        Err::<Seq<JobView>, Fault>(Fault::Flawed(Flaw::OutsideRoot))
    })
}

/// Orders paths by what they are shown as.
fn order_paths(paths: &Vec<&PathText>) -> (order: Vec<usize>)
    ensures
        is_order(shown_paths(path_views(paths@)), order@),
{
    let ghost wanted = shown_paths(path_views(paths@));
    let mut names: Vec<Option<String>> = Vec::new();
    let mut i: usize = 0;
    while i < paths.len()
        invariant
            wanted == shown_paths(path_views(paths@)),
            i <= paths@.len(),
            names@.len() == i,
            forall|k: int| 0 <= k < i ==> #[trigger] name_views(names@)[k] == wanted[k],
        decreases paths@.len() - i,
    {
        let ghost before = names@;
        names.push(Some(paths[i].shown.clone()));
        proof {
            assert forall|k: int| 0 <= k < i + 1 implies #[trigger] name_views(names@)[k]
                == wanted[k] by {
                if k < i {
                    assert(names@[k] == before[k]);
                    assert(name_views(before)[k] == wanted[k]);
                }
            }
        }
        i = i + 1;
    }
    assert(name_views(names@) =~= wanted);
    order_by_name(&names)
}

/// What the paths say.
pub open spec fn path_views(paths: Seq<&PathText>) -> Seq<PathView> {
    Seq::new(paths.len(), |i: int| paths[i]@)
}

/// Names the folders of assets and puts them in order; `None` where one lies outside the directory.
fn plan_folders(
    files: &Vec<WalkedFile>,
    drivers: &Vec<Box<dyn AssetDriver>>,
    folders: &Vec<AssetFolder>,
    Ghost(map): Ghost<Map<Seq<Seq<u8>>, (int, int)>>,
) -> (planned: (Option<Vec<Job>>, Ghost<Seq<usize>>))
    requires
        lists(walked_views(files@), folders@, map),
        forall|k: int| 0 <= k < folders@.len() ==> (#[trigger] folders@[k]).driver < drivers@.len(),
    ensures
        is_order(shown_paths(folder_paths(walked_views(files@), folders@)), planned.1@),
        planned.0 is Some == all_inside(folder_paths(walked_views(files@), folders@)),
        planned.0 matches Some(jobs) ==> job_views(jobs@) == folder_jobs(
            walked_views(files@),
            driver_views(drivers@),
            folders@,
            planned.1@,
        ),
{
    let ghost views = walked_views(files@);
    let ghost known = driver_views(drivers@);
    let ghost targets = folder_paths(views, folders@);
    let mut paths: Vec<&PathText> = Vec::new();
    let mut i: usize = 0;
    while i < folders.len()
        invariant
            views == walked_views(files@),
            lists(views, folders@, map),
            targets == folder_paths(views, folders@),
            i <= folders@.len(),
            paths@.len() == i,
            forall|k: int| 0 <= k < i ==> (#[trigger] paths@[k])@ == targets[k],
        decreases folders@.len() - i,
    {
        let entry: AssetFolder = folders[i];
        assert(entry == folders@[i as int]);
        if let Some(parent) = &files[entry.file].parent {
            assert(folder_path(views, entry) == parent@);
            paths.push(parent);
        }
        i = i + 1;
    }
    assert(path_views(paths@) =~= targets);
    let order = order_paths(&paths);
    let ghost all = folder_jobs(views, known, folders@, order@);
    let mut jobs: Vec<Job> = Vec::new();
    let mut k: usize = 0;
    proof {
        order_lists_everything_once(shown_paths(targets), order@);
        assert(job_views(jobs@) =~= all.take(0));
    }
    while k < order.len()
        invariant
            views == walked_views(files@),
            known == driver_views(drivers@),
            targets == folder_paths(views, folders@),
            path_views(paths@) == targets,
            forall|j: int|
                0 <= j < folders@.len() ==> (#[trigger] folders@[j]).driver < drivers@.len(),
            is_order(shown_paths(targets), order@),
            all == folder_jobs(views, known, folders@, order@),
            k <= order@.len(),
            jobs@.len() == k,
            job_views(jobs@) == all.take(k as int),
            forall|j: int| 0 <= j < k ==> targets[#[trigger] order@[j] as int].relative is Some,
        decreases order@.len() - k,
    {
        let position: usize = order[k];
        let entry: AssetFolder = folders[position];
        let path: &PathText = paths[position];
        assert(targets[position as int] == path@);
        let relative: &String = match &path.relative {
            Some(relative) => relative,
            None => {
                assert(targets[position as int].relative is None);
                return (None, Ghost(order@));
            },
        };
        let mut name: String = if relative.as_str().unicode_len() == 0 {
            ".".to_owned()
        } else {
            slashed(relative.as_str())
        };
        assert(known[entry.driver as int].extension == drivers@[entry.driver as int].extension_text());
        name.append(drivers[entry.driver].extension());
        let ghost before = job_views(jobs@);
        jobs.push(Job { file: entry.file, driver: Some(entry.driver), name });
        k = k + 1;
        assert(jobs@[k - 1]@ == all[k - 1]);
        assert(job_views(jobs@) =~= before.push(all[k - 1]));
        assert(all.take(k as int) =~= all.take(k - 1).push(all[k - 1]));
    }
    proof {
        assert(all.take(k as int) =~= all);
        assert forall|i: int| 0 <= i < targets.len() implies (#[trigger] targets[i]).relative
            is Some by {
            assert(has_place(order@, i));
            let j = choose|j: int| 0 <= j < order@.len() && #[trigger] order@[j] == i;
            assert(targets[order@[j] as int].relative is Some);
        }
    }
    (Some(jobs), Ghost(order@))
}

/// Names the files in no folder of assets and puts them in order; `None` where one lies outside the
/// directory.
fn plan_files(files: &Vec<WalkedFile>, positions: &Vec<usize>) -> (planned: (
    Option<Vec<Job>>,
    Ghost<Seq<usize>>,
))
    requires
        forall|a: int| 0 <= a < positions@.len() ==> (#[trigger] positions@[a]) < files@.len(),
    ensures
        is_order(shown_paths(file_paths(walked_views(files@), positions@)), planned.1@),
        planned.0 is Some == all_inside(file_paths(walked_views(files@), positions@)),
        planned.0 matches Some(jobs) ==> job_views(jobs@) == file_jobs(
            walked_views(files@),
            positions@,
            planned.1@,
        ),
{
    let ghost views = walked_views(files@);
    let ghost targets = file_paths(views, positions@);
    let mut paths: Vec<&PathText> = Vec::new();
    let mut i: usize = 0;
    while i < positions.len()
        invariant
            views == walked_views(files@),
            forall|a: int| 0 <= a < positions@.len() ==> (#[trigger] positions@[a]) < files@.len(),
            targets == file_paths(views, positions@),
            i <= positions@.len(),
            paths@.len() == i,
            forall|k: int| 0 <= k < i ==> (#[trigger] paths@[k])@ == targets[k],
        decreases positions@.len() - i,
    {
        paths.push(&files[positions[i]].path);
        i = i + 1;
    }
    assert(path_views(paths@) =~= targets);
    let order = order_paths(&paths);
    let ghost all = file_jobs(views, positions@, order@);
    let mut jobs: Vec<Job> = Vec::new();
    let mut k: usize = 0;
    proof {
        order_lists_everything_once(shown_paths(targets), order@);
        assert(job_views(jobs@) =~= all.take(0));
    }
    while k < order.len()
        invariant
            views == walked_views(files@),
            targets == file_paths(views, positions@),
            path_views(paths@) == targets,
            is_order(shown_paths(targets), order@),
            all == file_jobs(views, positions@, order@),
            k <= order@.len(),
            jobs@.len() == k,
            job_views(jobs@) == all.take(k as int),
            forall|j: int| 0 <= j < k ==> targets[#[trigger] order@[j] as int].relative is Some,
        decreases order@.len() - k,
    {
        let position: usize = order[k];
        let path: &PathText = paths[position];
        assert(targets[position as int] == path@);
        let relative: &String = match &path.relative {
            Some(relative) => relative,
            None => {
                assert(targets[position as int].relative is None);
                return (None, Ghost(order@));
            },
        };
        let name: String = slashed(relative.as_str());
        let ghost before = job_views(jobs@);
        jobs.push(Job { file: positions[position], driver: None, name });
        k = k + 1;
        assert(jobs@[k - 1]@ == all[k - 1]);
        assert(job_views(jobs@) =~= before.push(all[k - 1]));
        assert(all.take(k as int) =~= all.take(k - 1).push(all[k - 1]));
    }
    proof {
        assert(all.take(k as int) =~= all);
        assert forall|i: int| 0 <= i < targets.len() implies (#[trigger] targets[i]).relative
            is Some by {
            assert(has_place(order@, i));
            let j = choose|j: int| 0 <= j < order@.len() && #[trigger] order@[j] == i;
            assert(targets[order@[j] as int].relative is Some);
        }
    }
    (Some(jobs), Ghost(order@))
}

/// The drivers of marked folders are among the known ones.
pub proof fn lemma_marked_drivers(
    files: Seq<WalkedView>,
    drivers: Seq<DriverView>,
    i: int,
    d: int,
)
    requires
        d <= drivers.len(),
    ensures
        forall|components: Seq<Seq<u8>>| #[trigger]
            marked_folders(files, drivers, i, d).contains_key(components) ==> 0 <= marked_folders(
                files,
                drivers,
                i,
                d,
            )[components].1 < drivers.len(),
    decreases i, d,
{
    if i < 0 || d < 0 || (i == 0 && d == 0) {
        assert(marked_folders(files, drivers, i, d) == Map::<Seq<Seq<u8>>, (int, int)>::empty());
    } else if d > 0 {
        lemma_marked_drivers(files, drivers, i, d - 1);
        let before = marked_folders(files, drivers, i, d - 1);
        let after = marked_folders(files, drivers, i, d);
        assert forall|components: Seq<Seq<u8>>| #[trigger]
            after.contains_key(components) implies 0 <= after[components].1 < drivers.len() by {
            if after != before && components != files[i].parent->0.components {
                assert(before.contains_key(components));
            }
        }
    } else {
        lemma_marked_drivers(files, drivers, i - 1, drivers.len() as int);
        assert(marked_folders(files, drivers, i, d) == marked_folders(
            files,
            drivers,
            i - 1,
            drivers.len() as int,
        ));
    }
}

/// What the jobs of a directory came to.
pub open spec fn plan_of(outcome: Result<Vec<Job>, AssetError>) -> Result<Seq<JobView>, Fault> {
    match outcome {
        Ok(jobs) => Ok(job_views(jobs@)),
        Err(error) => Err(error.fault()),
    }
}

/// Plans what to pack of a directory: the folders of assets as blobs, the other files as they are.
pub fn process_directory(files: &Vec<WalkedFile>, drivers: &Vec<Box<dyn AssetDriver>>) -> (outcome:
    Result<Vec<Job>, AssetError>)
    ensures
        exists|folders: Seq<AssetFolder>, orders: (Seq<usize>, Seq<usize>)| #[trigger]
            is_plan(
                walked_views(files@),
                driver_views(drivers@),
                folders,
                orders,
                plan_of(outcome),
            ),
{
    let ghost views = walked_views(files@);
    let ghost known = driver_views(drivers@);
    let ghost map = asset_folders(views, known);
    let folders = find_asset_folders(files, drivers);
    proof {
        lemma_marked_drivers(views, known, views.len() as int, 0);
        assert forall|k: int| 0 <= k < folders@.len() implies (#[trigger] folders@[k]).driver
            < drivers@.len() by {
            assert(map.contains_key(folder_path(views, folders@[k]).components));
        }
    }
    let raws = find_raw_files(files, &folders, Ghost(map));
    let (blobs, Ghost(blob_order)) = plan_folders(files, drivers, &folders, Ghost(map));
    let (others, Ghost(other_order)) = plan_files(files, &raws);
    let outcome: Result<Vec<Job>, AssetError> = match (blobs, others) {
        (Some(mut jobs), Some(mut rest)) => {
            let ghost first = job_views(jobs@);
            let ghost second = job_views(rest@);
            jobs.append(&mut rest);
            assert(job_views(jobs@) =~= first + second);
            Ok(jobs)
        },
        _ => Err(AssetError::Flawed(Flaw::OutsideRoot)),
    };
    assert(is_plan(views, known, folders@, (blob_order, other_order), plan_of(outcome)));
    outcome
}

/// The folders in this order.
spec fn folders_in_order(folders: Seq<AssetFolder>, order: Seq<usize>) -> Seq<AssetFolder> {
    Seq::new(order.len(), |k: int| folders[order[k] as int])
}

/// The folders of a list that are shown differently stand in one strict order.
proof fn lemma_folders_in_order(
    files: Seq<WalkedView>,
    folders: Seq<AssetFolder>,
    order: Seq<usize>,
)
    requires
        is_order(shown_paths(folder_paths(files, folders)), order),
        forall|j: int, k: int|
            0 <= j < k < folders.len() ==> folder_path(files, #[trigger] folders[j]).shown
                != folder_path(files, #[trigger] folders[k]).shown,
    ensures
        strictly_named(
            folders_in_order(folders, order),
            |folder: AssetFolder| Some(folder_path(files, folder).shown),
        ),
        forall|a: int|
            0 <= a < order.len() ==> folders.contains(
                #[trigger] folders_in_order(folders, order)[a],
            ),
        forall|k: int|
            0 <= k < folders.len() ==> folders_in_order(folders, order).contains(
                #[trigger] folders[k],
            ),
{
    let names = shown_paths(folder_paths(files, folders));
    let sorted = folders_in_order(folders, order);
    order_lists_everything_once(names, order);
    assert forall|a: int, b: int| 0 <= a < b < sorted.len() implies name_before(
        Some(folder_path(files, #[trigger] sorted[a]).shown),
        Some(folder_path(files, #[trigger] sorted[b]).shown),
    ) by {
        let p = order[a] as int;
        let q = order[b] as int;
        assert(goes_before(names, p, q));
        let low = if p < q { p } else { q };
        let high = if p < q { q } else { p };
        assert(p != q);
        assert(folder_path(files, folders[low]).shown != folder_path(files, folders[high]).shown);
    }
    assert forall|k: int| 0 <= k < folders.len() implies sorted.contains(
        #[trigger] folders[k],
    ) by {
        assert(has_place(order, k));
        let a = choose|a: int| 0 <= a < order.len() && #[trigger] order[a] == k;
        assert(sorted[a] == folders[k]);
    }
}

/// What is planned for a directory is determined by its files, unless two folders of assets are
/// shown as the same text.
pub proof fn plan_is_deterministic(
    files: Seq<WalkedView>,
    drivers: Seq<DriverView>,
    first: (Seq<AssetFolder>, (Seq<usize>, Seq<usize>), Result<Seq<JobView>, Fault>),
    second: (Seq<AssetFolder>, (Seq<usize>, Seq<usize>), Result<Seq<JobView>, Fault>),
)
    requires
        is_plan(files, drivers, first.0, first.1, first.2),
        is_plan(files, drivers, second.0, second.1, second.2),
        forall|a: Seq<Seq<u8>>, b: Seq<Seq<u8>>|
            a != b && (#[trigger] asset_folders(files, drivers).contains_key(a)) && (
            #[trigger] asset_folders(files, drivers).contains_key(b)) ==> files[asset_folders(
                files,
                drivers,
            )[a].0].parent->0.shown != files[asset_folders(
                files,
                drivers,
            )[b].0].parent->0.shown,
    ensures
        first.2 == second.2,
{
    let map = asset_folders(files, drivers);
    let raws = raw_files(files, map, files.len() as int);
    order_is_unique(shown_paths(file_paths(files, raws)), first.1.1, second.1.1);
    lemma_lists_alike(files, first.0, second.0, map);
    lemma_lists_alike(files, second.0, first.0, map);
    lemma_shown_apart(files, first.0, map);
    lemma_shown_apart(files, second.0, map);
    lemma_folders_in_order(files, first.0, first.1.0);
    lemma_folders_in_order(files, second.0, second.1.0);
    let one = folders_in_order(first.0, first.1.0);
    let two = folders_in_order(second.0, second.1.0);
    assert forall|a: int| 0 <= a < one.len() implies two.contains(#[trigger] one[a]) by {
        assert(first.0.contains(one[a]));
        let k = choose|k: int| 0 <= k < first.0.len() && first.0[k] == one[a];
        assert(second.0.contains(first.0[k]));
        let j = choose|j: int| 0 <= j < second.0.len() && second.0[j] == one[a];
        assert(two.contains(second.0[j]));
    }
    assert forall|b: int| 0 <= b < two.len() implies one.contains(#[trigger] two[b]) by {
        assert(second.0.contains(two[b]));
        let k = choose|k: int| 0 <= k < second.0.len() && second.0[k] == two[b];
        assert(first.0.contains(second.0[k]));
        let j = choose|j: int| 0 <= j < first.0.len() && first.0[j] == two[b];
        assert(one.contains(first.0[j]));
    }
    lemma_one_order(one, two, |folder: AssetFolder| Some(folder_path(files, folder).shown));
    assert(folder_jobs(files, drivers, first.0, first.1.0) =~= folder_jobs(
        files,
        drivers,
        second.0,
        second.1.0,
    )) by {
        assert forall|k: int| 0 <= k < one.len() implies first.0[#[trigger] first.1.0[k] as int]
            == second.0[second.1.0[k] as int] by {
            assert(one[k] == two[k]);
        }
    }
    assert(all_inside(folder_paths(files, first.0)) == all_inside(folder_paths(files, second.0)))
        by {
        lemma_inside_alike(files, first.0, second.0);
        lemma_inside_alike(files, second.0, first.0);
    }
}

/// Two lists of the same folders hold the same folders.
proof fn lemma_lists_alike(
    files: Seq<WalkedView>,
    first: Seq<AssetFolder>,
    second: Seq<AssetFolder>,
    map: Map<Seq<Seq<u8>>, (int, int)>,
)
    requires
        lists(files, first, map),
        lists(files, second, map),
    ensures
        forall|k: int| 0 <= k < first.len() ==> second.contains(#[trigger] first[k]),
{
    assert forall|k: int| 0 <= k < first.len() implies second.contains(#[trigger] first[k]) by {
        let components = folder_path(files, first[k]).components;
        assert(map.contains_key(components));
        assert(listed_folder(files, second, components));
        let j = choose|j: int|
            0 <= j < second.len() && (#[trigger] folder_path(files, second[j])).components
                == components;
        assert(second[j] == first[k]);
    }
}

/// Where different folders are shown as different texts, the folders of a list are.
proof fn lemma_shown_apart(
    files: Seq<WalkedView>,
    folders: Seq<AssetFolder>,
    map: Map<Seq<Seq<u8>>, (int, int)>,
)
    requires
        lists(files, folders, map),
        forall|a: Seq<Seq<u8>>, b: Seq<Seq<u8>>|
            a != b && (#[trigger] map.contains_key(a)) && (#[trigger] map.contains_key(b))
                ==> files[map[a].0].parent->0.shown != files[map[b].0].parent->0.shown,
    ensures
        forall|j: int, k: int|
            0 <= j < k < folders.len() ==> folder_path(files, #[trigger] folders[j]).shown
                != folder_path(files, #[trigger] folders[k]).shown,
{
    assert forall|j: int, k: int| 0 <= j < k < folders.len() implies folder_path(
        files,
        #[trigger] folders[j],
    ).shown != folder_path(files, #[trigger] folders[k]).shown by {
        let a = folder_path(files, folders[j]).components;
        let b = folder_path(files, folders[k]).components;
        assert(map.contains_key(a) && map.contains_key(b));
    }
}

/// Lists of the same folders lie inside alike.
proof fn lemma_inside_alike(
    files: Seq<WalkedView>,
    first: Seq<AssetFolder>,
    second: Seq<AssetFolder>,
)
    requires
        forall|k: int| 0 <= k < second.len() ==> first.contains(#[trigger] second[k]),
    ensures
        all_inside(folder_paths(files, first)) ==> all_inside(folder_paths(files, second)),
{
    if all_inside(folder_paths(files, first)) {
        assert forall|k: int| 0 <= k < second.len() implies (#[trigger] folder_paths(
            files,
            second,
        )[k]).relative is Some by {
            assert(first.contains(second[k]));
            let j = choose|j: int| 0 <= j < first.len() && first[j] == second[k];
            assert(folder_paths(files, first)[j].relative is Some);
        }
    }
}

/// Where a job takes its bytes from, its driver and its name.
#[verifier::ext_equal]
pub struct Source {
    pub path: PathView,
    pub driver: Option<usize>,
    pub name: Seq<char>,
}

/// Where the jobs take their bytes from: a folder of assets, or a file.
pub open spec fn job_sources(files: Seq<WalkedView>, jobs: Seq<JobView>) -> Seq<Source> {
    Seq::new(
        jobs.len(),
        |k: int|
            Source {
                path: if jobs[k].driver is Some {
                    files[jobs[k].file as int].parent->0
                } else {
                    files[jobs[k].file as int].path
                },
                driver: jobs[k].driver,
                name: jobs[k].name,
            },
    )
}

/// Whether what a walk finds is told apart: no two files that lie in no folder of assets are shown as
/// the same text, nor are two folders of assets, and no folder is marked for two drivers. Files that
/// mark a folder with the same components name it by the same path.
pub open spec fn told_apart(files: Seq<WalkedView>, drivers: Seq<DriverView>) -> bool {
    let map = asset_folders(files, drivers);
    &&& files.len() <= usize::MAX
    &&& forall|i: int, j: int|
        0 <= i < j < files.len() && is_raw(#[trigger] files[i], map) && is_raw(
            #[trigger] files[j],
            map,
        ) ==> files[i].path.shown != files[j].path.shown
    &&& forall|i: int, d: int, j: int, e: int|
        0 <= i < files.len() && 0 <= j < files.len() && 0 <= d < drivers.len() && 0 <= e
            < drivers.len() && #[trigger] marks(files[i], drivers[d]) && #[trigger] marks(
            files[j],
            drivers[e],
        ) ==> if files[i].parent->0.components == files[j].parent->0.components {
            files[i].parent == files[j].parent && d == e
        } else {
            files[i].parent->0.shown != files[j].parent->0.shown
        }
}

/// Whether a file marks the folder as one of the driver.
pub open spec fn marks_folder(
    files: Seq<WalkedView>,
    drivers: Seq<DriverView>,
    folder: (PathView, usize),
) -> bool {
    exists|f: int|
        0 <= f < files.len() && folder.1 < drivers.len() && #[trigger] marks(
            files[f],
            drivers[folder.1 as int],
        ) && files[f].parent->0 == folder.0
}

/// The folders in order, each with its driver.
spec fn sorted_folders(
    files: Seq<WalkedView>,
    folders: Seq<AssetFolder>,
    order: Seq<usize>,
) -> Seq<(PathView, usize)> {
    Seq::new(
        order.len(),
        |k: int|
            (
                folder_path(files, folders[order[k] as int]),
                folders[order[k] as int].driver,
            ),
    )
}

/// The paths in order.
spec fn sorted_paths(paths: Seq<PathView>, order: Seq<usize>) -> Seq<PathView> {
    Seq::new(order.len(), |k: int| paths[order[k] as int])
}

/// Whether the file and the driver of each folder of a map belong to it.
spec fn belong(
    files: Seq<WalkedView>,
    drivers: Seq<DriverView>,
    map: Map<Seq<Seq<u8>>, (int, int)>,
) -> bool {
    forall|components: Seq<Seq<u8>>| #[trigger]
        map.contains_key(components) ==> belongs(files, drivers, components, map[components])
}

spec fn belongs(
    files: Seq<WalkedView>,
    drivers: Seq<DriverView>,
    components: Seq<Seq<u8>>,
    folder: (int, int),
) -> bool {
    &&& 0 <= folder.0 < files.len()
    &&& files[folder.0].parent is Some
    &&& files[folder.0].parent->0.components == components
    &&& marks_some(files[folder.0], drivers)
    &&& 0 <= folder.1 < drivers.len()
    &&& exists|f: int|
        0 <= f < files.len() && #[trigger] marks(files[f], drivers[folder.1])
            && files[f].parent->0.components == components
}

/// Whether a file marks its folder.
spec fn marks_some(file: WalkedView, drivers: Seq<DriverView>) -> bool {
    exists|d: int| 0 <= d < drivers.len() && #[trigger] marks(file, drivers[d])
}

/// The file and the driver of each marked folder belong to it.
proof fn lemma_belong(files: Seq<WalkedView>, drivers: Seq<DriverView>, i: int, d: int)
    requires
        0 <= i <= files.len(),
        0 <= d <= drivers.len(),
        d > 0 ==> i < files.len(),
    ensures
        belong(files, drivers, marked_folders(files, drivers, i, d)),
    decreases i, d,
{
    let after = marked_folders(files, drivers, i, d);
    if d > 0 {
        lemma_belong(files, drivers, i, d - 1);
        let before = marked_folders(files, drivers, i, d - 1);
        if marks(files[i], drivers[d - 1]) {
            let key = files[i].parent->0.components;
            assert forall|components: Seq<Seq<u8>>| #[trigger]
                after.contains_key(components) implies belongs(
                files,
                drivers,
                components,
                after[components],
            ) by {
                if components == key {
                    assert(before.contains_key(key) ==> belongs(files, drivers, key, before[key]));
                    assert(after[key].1 == d - 1);
                } else {
                    assert(before.contains_key(components));
                }
            }
        }
    } else if i > 0 {
        lemma_belong(files, drivers, i - 1, drivers.len() as int);
    }
}

/// The folders of a plan in order are those that are marked, in strict order.
proof fn lemma_sorted_folders(
    files: Seq<WalkedView>,
    drivers: Seq<DriverView>,
    folders: Seq<AssetFolder>,
    order: Seq<usize>,
)
    requires
        told_apart(files, drivers),
        lists(files, folders, asset_folders(files, drivers)),
        is_order(shown_paths(folder_paths(files, folders)), order),
    ensures
        strictly_named(
            sorted_folders(files, folders, order),
            |folder: (PathView, usize)| Some(folder.0.shown),
        ),
        forall|folder: (PathView, usize)| #[trigger]
            marks_folder(files, drivers, folder) == sorted_folders(files, folders, order).contains(
                folder,
            ),
{
    let map = asset_folders(files, drivers);
    let names = shown_paths(folder_paths(files, folders));
    let sorted = sorted_folders(files, folders, order);
    lemma_belong(files, drivers, files.len() as int, 0);
    order_lists_everything_once(names, order);
    assert forall|a: int, b: int| 0 <= a < b < sorted.len() implies name_before(
        Some((#[trigger] sorted[a]).0.shown),
        Some((#[trigger] sorted[b]).0.shown),
    ) by {
        let p = order[a] as int;
        let q = order[b] as int;
        assert(goes_before(names, p, q));
        let low = if p < q { p } else { q };
        let high = if p < q { q } else { p };
        assert(p != q);
        assert(folder_path(files, folders[low]).components != folder_path(
            files,
            folders[high],
        ).components);
        let i = folders[p].file as int;
        let j = folders[q].file as int;
        let first = folder_path(files, folders[p]).components;
        let second = folder_path(files, folders[q]).components;
        assert(belongs(files, drivers, first, map[first]));
        assert(belongs(files, drivers, second, map[second]));
        let d = choose|d: int| 0 <= d < drivers.len() && #[trigger] marks(files[i], drivers[d]);
        let e = choose|e: int| 0 <= e < drivers.len() && #[trigger] marks(files[j], drivers[e]);
        assert(files[i].parent->0.shown != files[j].parent->0.shown);
    }
    assert forall|folder: (PathView, usize)| #[trigger]
        marks_folder(files, drivers, folder) == sorted.contains(folder) by {
        if sorted.contains(folder) {
            let a = choose|a: int| 0 <= a < sorted.len() && sorted[a] == folder;
            let k = order[a] as int;
            let components = folder_path(files, folders[k]).components;
            assert(map.contains_key(components));
            assert(belongs(files, drivers, components, map[components]));
            let f = choose|f: int|
                0 <= f < files.len() && #[trigger] marks(files[f], drivers[map[components].1])
                    && files[f].parent->0.components == components;
            let g = folders[k].file as int;
            let e = choose|e: int| 0 <= e < drivers.len() && #[trigger] marks(files[g], drivers[e]);
            assert(files[f].parent == files[g].parent);
            assert(marks(files[f], drivers[folder.1 as int]));
        }
        if marks_folder(files, drivers, folder) {
            let f = choose|f: int|
                0 <= f < files.len() && folder.1 < drivers.len() && #[trigger] marks(
                    files[f],
                    drivers[folder.1 as int],
                ) && files[f].parent->0 == folder.0;
            let components = folder.0.components;
            folders_are_those_with_an_entry_file(
                files,
                drivers,
                files.len() as int,
                0,
                components,
            );
            assert(is_marked(files, drivers, files.len() as int, 0, components));
            assert(map.contains_key(components));
            assert(listed_folder(files, folders, components));
            let k = choose|k: int|
                0 <= k < folders.len() && (#[trigger] folder_path(files, folders[k])).components
                    == components;
            assert(folders[k] == folders[k]);
            assert(belongs(files, drivers, components, map[components]));
            let g = choose|g: int|
                0 <= g < files.len() && #[trigger] marks(files[g], drivers[map[components].1])
                    && files[g].parent->0.components == components;
            assert(map[components].1 == folder.1);
            let h = folders[k].file as int;
            let e = choose|e: int| 0 <= e < drivers.len() && #[trigger] marks(files[h], drivers[e]);
            assert(files[f].parent == files[h].parent);
            assert(has_place(order, k));
            let a = choose|a: int| 0 <= a < order.len() && #[trigger] order[a] == k;
            assert(sorted[a] == folder);
        }
    }
}

/// Whether the path is that of a file in none of the folders.
spec fn is_raw_path(
    files: Seq<WalkedView>,
    map: Map<Seq<Seq<u8>>, (int, int)>,
    path: PathView,
) -> bool {
    exists|f: int|
        #![trigger files[f]]
        0 <= f < files.len() && is_raw(files[f], map) && files[f].path == path
}

/// The paths of the files of a plan in order are those of the files in no folder, in strict order.
proof fn lemma_sorted_paths(
    files: Seq<WalkedView>,
    drivers: Seq<DriverView>,
    map: Map<Seq<Seq<u8>>, (int, int)>,
    order: Seq<usize>,
)
    requires
        told_apart(files, drivers),
        map == asset_folders(files, drivers),
        is_order(shown_paths(file_paths(files, raw_files(files, map, files.len() as int))), order),
    ensures
        strictly_named(
            sorted_paths(file_paths(files, raw_files(files, map, files.len() as int)), order),
            |path: PathView| Some(path.shown),
        ),
        forall|path: PathView| #[trigger]
            is_raw_path(files, map, path) == sorted_paths(
                file_paths(files, raw_files(files, map, files.len() as int)),
                order,
            ).contains(path),
{
    let raws = raw_files(files, map, files.len() as int);
    let paths = file_paths(files, raws);
    let names = shown_paths(paths);
    let sorted = sorted_paths(paths, order);
    files_in_no_folder_are_raw(files, map, files.len() as int);
    order_lists_everything_once(names, order);
    assert forall|a: int, b: int| 0 <= a < b < sorted.len() implies name_before(
        Some((#[trigger] sorted[a]).shown),
        Some((#[trigger] sorted[b]).shown),
    ) by {
        let p = order[a] as int;
        let q = order[b] as int;
        assert(goes_before(names, p, q));
        assert(p != q);
        let low = if p < q { p } else { q };
        let high = if p < q { q } else { p };
        assert(raws[low] < raws[high]);
        assert(has_place(raws, raws[low] as int) && has_place(raws, raws[high] as int));
        assert(is_raw(files[raws[low] as int], map) && is_raw(files[raws[high] as int], map));
        assert(files[raws[low] as int].path.shown != files[raws[high] as int].path.shown);
    }
    assert forall|path: PathView| #[trigger]
        is_raw_path(files, map, path) == sorted.contains(path) by {
        if is_raw_path(files, map, path) {
            let f = choose|f: int|
                #![trigger files[f]]
                0 <= f < files.len() && is_raw(files[f], map) && files[f].path == path;
            assert(has_place(raws, f));
            let p = choose|p: int| 0 <= p < raws.len() && #[trigger] raws[p] == f;
            assert(has_place(order, p));
            let a = choose|a: int| 0 <= a < order.len() && #[trigger] order[a] == p;
            assert(sorted[a] == path);
        }
        if sorted.contains(path) {
            let a = choose|a: int| 0 <= a < sorted.len() && sorted[a] == path;
            let f = raws[order[a] as int] as int;
            assert(has_place(raws, f));
            assert(is_raw(files[f], map));
        }
    }
}

/// Paths lie inside alike in any order.
proof fn lemma_inside_in_order(paths: Seq<PathView>, order: Seq<usize>)
    requires
        is_order(shown_paths(paths), order),
    ensures
        all_inside(paths) == all_inside(sorted_paths(paths, order)),
{
    let sorted = sorted_paths(paths, order);
    order_lists_everything_once(shown_paths(paths), order);
    if all_inside(sorted) {
        assert forall|i: int| 0 <= i < paths.len() implies (#[trigger] paths[i]).relative
            is Some by {
            assert(has_place(order, i));
            let a = choose|a: int| 0 <= a < order.len() && #[trigger] order[a] == i;
            assert(sorted[a].relative is Some);
        }
    }
    if all_inside(paths) {
        assert forall|a: int| 0 <= a < sorted.len() implies (#[trigger] sorted[a]).relative
            is Some by {
            assert(paths[order[a] as int].relative is Some);
        }
    }
}

/// Two walks over the same files mark the same folders.
proof fn lemma_marked_alike(
    first: Seq<WalkedView>,
    second: Seq<WalkedView>,
    drivers: Seq<DriverView>,
    components: Seq<Seq<u8>>,
)
    requires
        forall|file: WalkedView| #[trigger] first.contains(file) ==> second.contains(file),
        asset_folders(first, drivers).contains_key(components),
    ensures
        asset_folders(second, drivers).contains_key(components),
{
    folders_are_those_with_an_entry_file(first, drivers, first.len() as int, 0, components);
    folders_are_those_with_an_entry_file(second, drivers, second.len() as int, 0, components);
    let (f, k) = choose|f: int, k: int|
        {
            &&& 0 <= f && 0 <= k < drivers.len()
            &&& f < first.len() || (f == first.len() && k < 0)
            &&& #[trigger] marks(first[f], drivers[k])
            &&& first[f].parent->0.components == components
        };
    assert(first.contains(first[f]));
    let g = choose|g: int| 0 <= g < second.len() && second[g] == first[f];
    assert(marks(second[g], drivers[k]));
    assert(is_marked(second, drivers, second.len() as int, 0, components));
}

/// What is marked or raw in one walk is so in another one over the same files.
proof fn lemma_walked_alike(
    first: Seq<WalkedView>,
    second: Seq<WalkedView>,
    drivers: Seq<DriverView>,
)
    requires
        forall|file: WalkedView| #[trigger] first.contains(file) == second.contains(file),
    ensures
        forall|folder: (PathView, usize)| #[trigger]
            marks_folder(first, drivers, folder) ==> marks_folder(second, drivers, folder),
        forall|path: PathView| #[trigger]
            is_raw_path(first, asset_folders(first, drivers), path) ==> is_raw_path(
                second,
                asset_folders(second, drivers),
                path,
            ),
{
    assert forall|folder: (PathView, usize)| #[trigger]
        marks_folder(first, drivers, folder) implies marks_folder(second, drivers, folder) by {
        let f = choose|f: int|
            0 <= f < first.len() && folder.1 < drivers.len() && #[trigger] marks(
                first[f],
                drivers[folder.1 as int],
            ) && first[f].parent->0 == folder.0;
        assert(first.contains(first[f]));
        let g = choose|g: int| 0 <= g < second.len() && second[g] == first[f];
        assert(marks(second[g], drivers[folder.1 as int]));
    }
    let one = asset_folders(first, drivers);
    let two = asset_folders(second, drivers);
    assert forall|path: PathView| #[trigger] is_raw_path(first, one, path) implies is_raw_path(
        second,
        two,
        path,
    ) by {
        let f = choose|f: int|
            #![trigger first[f]]
            0 <= f < first.len() && is_raw(first[f], one) && first[f].path == path;
        assert(first.contains(first[f]));
        let g = choose|g: int| 0 <= g < second.len() && second[g] == first[f];
        assert forall|components: Seq<Seq<u8>>| #[trigger]
            two.contains_key(components) implies !is_under(
            second[g].path.components,
            components,
        ) by {
            lemma_marked_alike(second, first, drivers, components);
            assert(one.contains_key(components));
        }
        assert(is_raw(second[g], two));
    }
}

/// Two walks over the same directory, in whatever order they list its files, come to the same plan:
/// the same jobs with the same names, from the same folders and files, in the same order.
pub proof fn plan_ignores_the_walk(
    first_files: Seq<WalkedView>,
    second_files: Seq<WalkedView>,
    drivers: Seq<DriverView>,
    first: (Seq<AssetFolder>, (Seq<usize>, Seq<usize>), Result<Seq<JobView>, Fault>),
    second: (Seq<AssetFolder>, (Seq<usize>, Seq<usize>), Result<Seq<JobView>, Fault>),
)
    requires
        told_apart(first_files, drivers),
        told_apart(second_files, drivers),
        forall|file: WalkedView| #[trigger]
            first_files.contains(file) == second_files.contains(file),
        is_plan(first_files, drivers, first.0, first.1, first.2),
        is_plan(second_files, drivers, second.0, second.1, second.2),
    ensures
        match (first.2, second.2) {
            (Ok(a), Ok(b)) => job_sources(first_files, a) == job_sources(second_files, b),
            (Err(a), Err(b)) => a == b,
            _ => false,
        },
{
    let one = asset_folders(first_files, drivers);
    let two = asset_folders(second_files, drivers);
    let raws_one = raw_files(first_files, one, first_files.len() as int);
    let raws_two = raw_files(second_files, two, second_files.len() as int);
    lemma_walked_alike(first_files, second_files, drivers);
    lemma_walked_alike(second_files, first_files, drivers);
    lemma_sorted_folders(first_files, drivers, first.0, first.1.0);
    lemma_sorted_folders(second_files, drivers, second.0, second.1.0);
    lemma_sorted_paths(first_files, drivers, one, first.1.1);
    lemma_sorted_paths(second_files, drivers, two, second.1.1);
    let a = sorted_folders(first_files, first.0, first.1.0);
    let b = sorted_folders(second_files, second.0, second.1.0);
    assert forall|k: int| 0 <= k < a.len() implies b.contains(#[trigger] a[k]) by {
        assert(a.contains(a[k]));
        assert(marks_folder(first_files, drivers, a[k]));
        assert(marks_folder(second_files, drivers, a[k]));
    }
    assert forall|k: int| 0 <= k < b.len() implies a.contains(#[trigger] b[k]) by {
        assert(b.contains(b[k]));
        assert(marks_folder(second_files, drivers, b[k]));
        assert(marks_folder(first_files, drivers, b[k]));
    }
    lemma_one_order(a, b, |folder: (PathView, usize)| Some(folder.0.shown));
    let c = sorted_paths(file_paths(first_files, raws_one), first.1.1);
    let d = sorted_paths(file_paths(second_files, raws_two), second.1.1);
    assert forall|k: int| 0 <= k < c.len() implies d.contains(#[trigger] c[k]) by {
        assert(c.contains(c[k]));
        assert(is_raw_path(first_files, one, c[k]));
        assert(is_raw_path(second_files, two, c[k]));
    }
    assert forall|k: int| 0 <= k < d.len() implies c.contains(#[trigger] d[k]) by {
        assert(d.contains(d[k]));
        assert(is_raw_path(second_files, two, d[k]));
        assert(is_raw_path(first_files, one, d[k]));
    }
    lemma_one_order(c, d, |path: PathView| Some(path.shown));
    lemma_sources_alike(first_files, second_files, drivers, first, second);
}

/// Plans with the same folders and files in order lie inside alike and have the same jobs.
proof fn lemma_sources_alike(
    first_files: Seq<WalkedView>,
    second_files: Seq<WalkedView>,
    drivers: Seq<DriverView>,
    first: (Seq<AssetFolder>, (Seq<usize>, Seq<usize>), Result<Seq<JobView>, Fault>),
    second: (Seq<AssetFolder>, (Seq<usize>, Seq<usize>), Result<Seq<JobView>, Fault>),
)
    requires
        is_plan(first_files, drivers, first.0, first.1, first.2),
        is_plan(second_files, drivers, second.0, second.1, second.2),
        sorted_folders(first_files, first.0, first.1.0) == sorted_folders(
            second_files,
            second.0,
            second.1.0,
        ),
        sorted_paths(
            file_paths(
                first_files,
                raw_files(
                    first_files,
                    asset_folders(first_files, drivers),
                    first_files.len() as int,
                ),
            ),
            first.1.1,
        ) == sorted_paths(
            file_paths(
                second_files,
                raw_files(
                    second_files,
                    asset_folders(second_files, drivers),
                    second_files.len() as int,
                ),
            ),
            second.1.1,
        ),
    ensures
        match (first.2, second.2) {
            (Ok(a), Ok(b)) => job_sources(first_files, a) == job_sources(second_files, b),
            (Err(a), Err(b)) => a == b,
            _ => false,
        },
{
    let raws_one = raw_files(
        first_files,
        asset_folders(first_files, drivers),
        first_files.len() as int,
    );
    let raws_two = raw_files(
        second_files,
        asset_folders(second_files, drivers),
        second_files.len() as int,
    );
    let a = sorted_folders(first_files, first.0, first.1.0);
    let b = sorted_folders(second_files, second.0, second.1.0);
    let c = sorted_paths(file_paths(first_files, raws_one), first.1.1);
    let d = sorted_paths(file_paths(second_files, raws_two), second.1.1);
    lemma_inside_in_order(folder_paths(first_files, first.0), first.1.0);
    lemma_inside_in_order(folder_paths(second_files, second.0), second.1.0);
    lemma_inside_in_order(file_paths(first_files, raws_one), first.1.1);
    lemma_inside_in_order(file_paths(second_files, raws_two), second.1.1);
    let e = sorted_paths(folder_paths(first_files, first.0), first.1.0);
    let f = sorted_paths(folder_paths(second_files, second.0), second.1.0);
    assert(e.len() == a.len() && f.len() == b.len());
    assert forall|k: int| 0 <= k < e.len() implies e[k] == f[k] by {
        assert(a[k] == b[k]);
        assert(e[k] == a[k].0);
        assert(f[k] == b[k].0);
    }
    assert(e =~= f);
    if first.2 is Ok {
        let jobs = first.2->Ok_0;
        let others = second.2->Ok_0;
        let x = job_sources(first_files, jobs);
        let y = job_sources(second_files, others);
        let count = a.len() as int;
        assert(jobs.len() == count + c.len() && others.len() == count + d.len());
        assert forall|k: int| 0 <= k < x.len() implies x[k] == y[k] by {
            if k < count {
                assert(a[k] == b[k]);
            } else {
                assert(c[k - count] == d[k - count]);
            }
        }
        assert(x =~= y);
    }
}

/// The names of the jobs.
pub open spec fn job_names(jobs: Seq<JobView>) -> Seq<Option<Seq<char>>> {
    Seq::new(jobs.len(), |i: int| Some(jobs[i].name))
}

/// The bytes that the jobs came to, those that came to any.
pub open spec fn result_views(results: Seq<Option<Vec<u8>>>) -> Seq<Option<Seq<u8>>> {
    Seq::new(
        results.len(),
        |i: int|
            match results[i] {
                Some(bytes) => Some(bytes@),
                None => None,
            },
    )
}

/// The first job from `from` on that came to nothing.
pub open spec fn first_failed(results: Seq<Option<Seq<u8>>>, from: int) -> Option<int>
    decreases results.len() - from,
{
    if from < 0 || from >= results.len() {
        None
    } else if results[from] is None {
        Some(from)
    } else {
        first_failed(results, from + 1)
    }
}

/// The files that the jobs came to, in this order.
pub open spec fn collected(
    jobs: Seq<JobView>,
    results: Seq<Option<Seq<u8>>>,
    order: Seq<usize>,
) -> Seq<FileView> {
    Seq::new(
        order.len(),
        |k: int|
            FileView {
                name: jobs[order[k] as int].name,
                data: results[order[k] as int]->0,
            },
    )
}

/// Collects what the jobs came to, `None` standing for a job that failed, in the order of the names.
pub fn collect_files(jobs: &Vec<Job>, results: Vec<Option<Vec<u8>>>) -> (outcome: Result<
    Vec<PackedFile>,
    AssetError,
>)
    requires
        jobs@.len() == results@.len(),
    ensures
        match first_failed(result_views(results@), 0) {
            Some(index) => outcome matches Err(error) && error.fault() == Fault::Flawed(
                Flaw::Unreadable { index: index as usize },
            ),
            None => outcome matches Ok(files) && exists|order: Seq<usize>|
                {
                    &&& #[trigger] is_order(job_names(job_views(jobs@)), order)
                    &&& file_views(files@) == collected(
                        job_views(jobs@),
                        result_views(results@),
                        order,
                    )
                },
        },
{
    let ghost views = job_views(jobs@);
    let ghost bytes = result_views(results@);
    let mut names: Vec<Option<String>> = Vec::new();
    let mut i: usize = 0;
    while i < results.len()
        invariant
            views == job_views(jobs@),
            bytes == result_views(results@),
            jobs@.len() == results@.len(),
            i <= results@.len(),
            names@.len() == i,
            forall|k: int| 0 <= k < i ==> #[trigger] name_views(names@)[k] == job_names(views)[k],
            forall|k: int| 0 <= k < i ==> (#[trigger] bytes[k]) is Some,
            first_failed(bytes, 0) == first_failed(bytes, i as int),
        decreases results@.len() - i,
    {
        if results[i].is_none() {
            assert(bytes[i as int] is None);
            return Err(AssetError::Flawed(Flaw::Unreadable { index: i }));
        }
        assert(bytes[i as int] is Some);
        let ghost before = names@;
        names.push(Some(jobs[i].name.clone()));
        proof {
            assert forall|k: int| 0 <= k < i + 1 implies #[trigger] name_views(names@)[k]
                == job_names(views)[k] by {
                if k < i {
                    assert(names@[k] == before[k]);
                    assert(name_views(before)[k] == job_names(views)[k]);
                }
            }
        }
        i = i + 1;
    }
    assert(name_views(names@) =~= job_names(views));
    let order = order_by_name(&names);
    let ghost all = collected(views, bytes, order@);
    proof {
        order_lists_everything_once(job_names(views), order@);
    }
    let mut rest: Vec<Option<Vec<u8>>> = results;
    let mut files: Vec<PackedFile> = Vec::new();
    let mut k: usize = 0;
    assert(file_views(files@) =~= all.take(0));
    while k < order.len()
        invariant
            views == job_views(jobs@),
            bytes.len() == views.len(),
            rest@.len() == bytes.len(),
            jobs@.len() == views.len(),
            is_order(job_names(views), order@),
            order@.no_duplicates(),
            forall|j: int| 0 <= j < bytes.len() ==> (#[trigger] bytes[j]) is Some,
            all == collected(views, bytes, order@),
            k <= order@.len(),
            forall|j: int|
                k <= j < order@.len() ==> result_views(rest@)[#[trigger] order@[j] as int]
                    == bytes[order@[j] as int],
            file_views(files@) == all.take(k as int),
        decreases order@.len() - k,
    {
        let position: usize = order[k];
        let ghost left = rest@;
        assert(result_views(rest@)[order@[k as int] as int] == bytes[order@[k as int] as int]);
        let taken: Option<Vec<u8>> = rest[position].take();
        proof {
            assert forall|j: int| k + 1 <= j < order@.len() implies result_views(
                rest@,
            )[#[trigger] order@[j] as int] == bytes[order@[j] as int] by {
                assert(order@[j] != order@[k as int]);
                assert(rest@[order@[j] as int] == left[order@[j] as int]);
                assert(result_views(left)[order@[j] as int] == bytes[order@[j] as int]);
            }
        }
        if let Some(data) = taken {
            let ghost before = file_views(files@);
            files.push(PackedFile { name: jobs[position].name.clone(), data });
            proof {
                assert(files@[files@.len() - 1]@ == all[k as int]);
                assert(file_views(files@) =~= before.push(all[k as int]));
                assert(all.take(k + 1) =~= all.take(k as int).push(all[k as int]));
            }
        }
        k = k + 1;
    }
    assert(all.take(k as int) =~= all);
    assert(is_order(job_names(views), order@));
    Ok(files)
}

/// Jobs with the same sources that come to the same bytes are collected as the same files in the
/// same order, whichever walk they were planned from.
pub proof fn files_ignore_the_walk(
    first_files: Seq<WalkedView>,
    second_files: Seq<WalkedView>,
    first_jobs: Seq<JobView>,
    second_jobs: Seq<JobView>,
    results: Seq<Option<Seq<u8>>>,
    first_order: Seq<usize>,
    second_order: Seq<usize>,
)
    requires
        job_sources(first_files, first_jobs) == job_sources(second_files, second_jobs),
        is_order(job_names(first_jobs), first_order),
        is_order(job_names(second_jobs), second_order),
    ensures
        collected(first_jobs, results, first_order) == collected(
            second_jobs,
            results,
            second_order,
        ),
{
    let one = job_sources(first_files, first_jobs);
    let two = job_sources(second_files, second_jobs);
    assert(one.len() == first_jobs.len() && two.len() == second_jobs.len());
    assert forall|k: int| 0 <= k < first_jobs.len() implies #[trigger] first_jobs[k].name
        == second_jobs[k].name by {
        assert(one[k] == two[k]);
    }
    assert(job_names(first_jobs) =~= job_names(second_jobs));
    order_is_unique(job_names(first_jobs), first_order, second_order);
    assert(collected(first_jobs, results, first_order) =~= collected(
        second_jobs,
        results,
        second_order,
    ));
}

/// What the jobs come to where each takes a file as it is.
pub open spec fn job_contents(jobs: Seq<JobView>, contents: Seq<Seq<u8>>) -> Seq<
    Option<Seq<u8>>,
> {
    Seq::new(jobs.len(), |i: int| Some(contents[jobs[i].file as int]))
}

/// The step that writes a file of a directory as it was.
pub open spec fn restoring(file: WalkedView, data: Seq<u8>) -> StepView {
    StepView::Raw { name: file.path.relative->0, data }
}

/// Whether unpacking does not take the file of a directory for a blob: no driver knows its data by
/// the magic, or its name does not end in that driver's extension.
pub open spec fn stays_raw(file: WalkedView, data: Seq<u8>, drivers: Seq<DriverView>) -> bool {
    match driver_of(data, drivers, 0) {
        Some(driver) => !ends_in(file.path.relative->0, drivers[driver].extension),
        None => true,
    }
}

/// Without a marked folder the jobs of a plan are those of all the files, each once.
proof fn lemma_all_raw(
    files: Seq<WalkedView>,
    drivers: Seq<DriverView>,
    folders: Seq<AssetFolder>,
    orders: (Seq<usize>, Seq<usize>),
    jobs: Seq<JobView>,
)
    requires
        files.len() <= usize::MAX,
        is_plan(files, drivers, folders, orders, Ok(jobs)),
        forall|f: int, k: int|
            0 <= f < files.len() && 0 <= k < drivers.len() ==> !(#[trigger] marks(
                files[f],
                drivers[k],
            )),
    ensures
        jobs.len() == files.len(),
        forall|j: int|
            0 <= j < jobs.len() ==> (#[trigger] jobs[j]).file < files.len() && jobs[j].name
                == with_slashes(files[jobs[j].file as int].path.relative->0),
        forall|f: int| 0 <= f < files.len() ==> #[trigger] has_job(jobs, f),
        forall|f: int| 0 <= f < files.len() ==> (#[trigger] files[f]).path.relative is Some,
{
    let map = asset_folders(files, drivers);
    let n = files.len() as int;
    assert forall|components: Seq<Seq<u8>>| !(#[trigger] map.contains_key(components)) by {
        folders_are_those_with_an_entry_file(files, drivers, n, 0, components);
    }
    assert(folders.len() == 0) by {
        if folders.len() > 0 {
            assert(map.contains_key(folder_path(files, folders[0]).components));
        }
    }
    let raws = raw_files(files, map, n);
    lemma_raws_are_all(files, map, n);
    assert(folder_jobs(files, drivers, folders, orders.0).len() == 0);
    assert(jobs =~= file_jobs(files, raws, orders.1));
    let names = shown_paths(file_paths(files, raws));
    order_lists_everything_once(names, orders.1);
    assert forall|f: int| 0 <= f < files.len() implies #[trigger] has_job(jobs, f) by {
        assert(raws[f] == f);
        assert(has_place(orders.1, f));
        let j = choose|j: int| 0 <= j < orders.1.len() && #[trigger] orders.1[j] == f;
        assert(jobs[j].file == f);
    }
    assert forall|f: int| 0 <= f < files.len() implies (#[trigger] files[f]).path.relative
        is Some by {
        assert(file_paths(files, raws)[f].relative is Some);
    }
}

/// Whether one of the jobs is that of the file.
pub open spec fn has_job(jobs: Seq<JobView>, file: int) -> bool {
    exists|j: int| 0 <= j < jobs.len() && (#[trigger] jobs[j]).file == file
}

proof fn lemma_raws_are_all(
    files: Seq<WalkedView>,
    map: Map<Seq<Seq<u8>>, (int, int)>,
    count: int,
)
    requires
        0 <= count <= files.len() <= usize::MAX,
        forall|components: Seq<Seq<u8>>| !(#[trigger] map.contains_key(components)),
    ensures
        raw_files(files, map, count).len() == count,
        forall|f: int| 0 <= f < count ==> #[trigger] raw_files(files, map, count)[f] == f,
    decreases count,
{
    if count > 0 {
        lemma_raws_are_all(files, map, count - 1);
        assert(is_raw(files[count - 1], map));
    }
}

/// A directory without folders of assets, packed into a container and unpacked again, gives every
/// file back under its relative path with its bytes, and nothing else.
pub proof fn unpacking_gives_the_files_back(
    files: Seq<WalkedView>,
    drivers: Seq<DriverView>,
    contents: Seq<Seq<u8>>,
    folders: Seq<AssetFolder>,
    orders: (Seq<usize>, Seq<usize>),
    jobs: Seq<JobView>,
    order: Seq<usize>,
)
    requires
        files.len() <= usize::MAX,
        contents.len() == files.len(),
        is_plan(files, drivers, folders, orders, Ok(jobs)),
        forall|f: int, k: int|
            0 <= f < files.len() && 0 <= k < drivers.len() ==> !(#[trigger] marks(
                files[f],
                drivers[k],
            )),
        forall|f: int|
            0 <= f < files.len() ==> !(#[trigger] files[f]).path.relative->0.contains('\\')
                && stays_raw(files[f], contents[f], drivers),
        is_order(job_names(jobs), order),
        storable(collected(jobs, job_contents(jobs, contents), order)),
    ensures
        ({
            let packed = collected(jobs, job_contents(jobs, contents), order);
            let (steps, flaw) = unpacking(container_bytes(packed), drivers);
            &&& flaw is None
            &&& steps.len() == files.len()
            &&& forall|f: int|
                0 <= f < files.len() ==> steps.contains(restoring(#[trigger] files[f], contents[f]))
            &&& forall|k: int|
                0 <= k < steps.len() ==> restores_one(files, contents, #[trigger] steps[k])
        }),
{
    let packed = collected(jobs, job_contents(jobs, contents), order);
    let steps = file_steps(packed, drivers);
    unpacking_undoes_packing(packed, drivers);
    lemma_all_raw(files, drivers, folders, orders, jobs);
    order_lists_everything_once(job_names(jobs), order);
    assert forall|k: int| 0 <= k < steps.len() implies steps[k] == restoring(
        files[jobs[#[trigger] order[k] as int].file as int],
        contents[jobs[order[k] as int].file as int],
    ) by {
        let job = jobs[order[k] as int];
        let file = files[job.file as int];
        lemma_no_backslash(file.path.relative->0);
        assert(packed[k].name == file.path.relative->0);
        assert(packed[k].data == contents[job.file as int]);
    }
    assert forall|f: int| 0 <= f < files.len() implies steps.contains(
        restoring(#[trigger] files[f], contents[f]),
    ) by {
        assert(has_job(jobs, f));
        let j = choose|j: int| 0 <= j < jobs.len() && (#[trigger] jobs[j]).file == f;
        assert(has_place(order, j));
        let k = choose|k: int| 0 <= k < order.len() && #[trigger] order[k] == j;
        assert(steps[k] == restoring(files[f], contents[f]));
    }
    assert forall|k: int| 0 <= k < steps.len() implies restores_one(
        files,
        contents,
        #[trigger] steps[k],
    ) by {
        let f = jobs[order[k] as int].file as int;
        assert(steps[k] == restoring(files[f], contents[f]));
    }
}

/// Whether a step writes one of the files as it was.
pub open spec fn restores_one(
    files: Seq<WalkedView>,
    contents: Seq<Seq<u8>>,
    step: StepView,
) -> bool {
    exists|f: int| 0 <= f < files.len() && step == restoring(#[trigger] files[f], contents[f])
}

proof fn lemma_no_backslash(text: Seq<char>)
    requires
        !text.contains('\\'),
    ensures
        with_slashes(text) == text,
{
    assert forall|i: int| 0 <= i < text.len() implies with_slashes(text)[i] == text[i] by {
        assert(text.contains(text[i]));
    }
    assert(with_slashes(text) =~= text);
}

} // verus!
