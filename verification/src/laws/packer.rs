//! Directories of assets.
use vstd::prelude::*;
use vstd::utf8::encode_utf8;

use crate::container::{driver_views, file_views, step_of, PackedFile, Step};
use crate::driver::AssetDriver;
use crate::fault::{Fault, Flaw};
use crate::laws::container::{begins_with, blobs_are_unpacked_into_their_folder};
use crate::laws::sort::{bytes_are_in_dictionary_order, differ_at};
use crate::laws::text::backslashes_become_slashes;
use crate::packer::{
    all_inside, asset_folders, blob_name, collected, component_views, file_jobs, file_paths,
    files_in_no_folder_are_raw, first_failed, folder_jobs, folder_path, folder_paths, is_plan,
    is_raw, is_under, job_names, job_views, listed_folder, lists, marked_folders, marks,
    raw_files, result_views, shown_paths, walked_views, AssetFolder, Job, JobView, PathText,
    WalkedFile,
};
use crate::sort::{
    goes_before, has_place, is_order, lemma_name_irreflexive, lemma_name_transitive, name_before,
    order_lists_everything_once,
};
use crate::text::with_slashes;

verus! {

/// Whether a file is the entry file of a driver, which goes by the name, in some folder.
pub open spec fn is_entry(file: WalkedFile, entry: Seq<char>) -> bool {
    &&& file.parent is Some
    &&& file.file_name matches Some(name) && name@ == entry
}

/// Whether a path begins with the components of a folder, one for one.
pub open spec fn lies_in(path: PathText, folder: PathText) -> bool {
    &&& folder.components@.len() <= path.components@.len()
    &&& forall|i: int|
        0 <= i < folder.components@.len() ==> path.components@[i]@
            == (#[trigger] folder.components@[i])@
}

/// Whether two paths have the same components.
pub open spec fn same_folder(a: PathText, b: PathText) -> bool {
    a.components@.len() == b.components@.len() && lies_in(a, b)
}

/// Whether a name is a relative path, backslashes made slashes, followed by an end.
pub open spec fn is_path_and_end(name: Seq<char>, relative: Seq<char>, end: Seq<char>) -> bool {
    &&& name.len() == relative.len() + end.len()
    &&& forall|i: int|
        0 <= i < relative.len() ==> #[trigger] name[i] == (if relative[i] == '\\' {
            '/'
        } else {
            relative[i]
        })
    &&& forall|i: int| 0 <= i < end.len() ==> name[relative.len() + i] == #[trigger] end[i]
}

/// Whether jobs are a plan for a directory.
pub open spec fn planned(
    files: Seq<WalkedFile>,
    drivers: Seq<Box<dyn AssetDriver>>,
    folders: Seq<AssetFolder>,
    orders: (Seq<usize>, Seq<usize>),
    jobs: Seq<Job>,
) -> bool {
    is_plan(
        walked_views(files),
        driver_views(drivers),
        folders,
        orders,
        Ok::<Seq<JobView>, Fault>(job_views(jobs)),
    )
}

proof fn lemma_entry(files: Seq<WalkedFile>, drivers: Seq<Box<dyn AssetDriver>>, f: int, d: int)
    requires
        0 <= f < files.len(),
        0 <= d < drivers.len(),
    ensures
        marks(walked_views(files)[f], driver_views(drivers)[d]) == is_entry(
            files[f],
            drivers[d].entry_text(),
        ),
{
    let file = walked_views(files)[f];
    let driver = driver_views(drivers)[d];
    assert(file == files[f]@);
    assert(driver.entry == drivers[d].entry_text());
}

proof fn lemma_lies_in(path: PathText, folder: PathText)
    ensures
        is_under(path@.components, folder@.components) == lies_in(path, folder),
        (path@.components == folder@.components) == same_folder(path, folder),
{
    let a = component_views(path.components@);
    let b = component_views(folder.components@);
    if b.len() <= a.len() {
        let start = a.take(b.len() as int);
        if start == b {
            assert forall|i: int| 0 <= i < b.len() implies path.components@[i]@
                == (#[trigger] folder.components@[i])@ by {
                assert(start[i] == a[i]);
                assert(b[i] == folder.components@[i]@);
            }
        }
        if lies_in(path, folder) {
            assert forall|i: int| 0 <= i < b.len() implies start[i] == b[i] by {
                assert(path.components@[i]@ == folder.components@[i]@);
            }
            assert(start =~= b);
        }
        if a.len() == b.len() {
            assert(start =~= a);
        }
    }
}

/// How many of the jobs of a plan pack folders: they come first.
proof fn lemma_parts(
    files: Seq<WalkedFile>,
    drivers: Seq<Box<dyn AssetDriver>>,
    folders: Seq<AssetFolder>,
    orders: (Seq<usize>, Seq<usize>),
    jobs: Seq<Job>,
)
    requires
        planned(files, drivers, folders, orders, jobs),
    ensures
        ({
            let views = walked_views(files);
            let raws = raw_files(
                views,
                asset_folders(views, driver_views(drivers)),
                views.len() as int,
            );
            &&& jobs.len() == folders.len() + raws.len()
            &&& orders.0.len() == folders.len()
            &&& orders.1.len() == raws.len()
            &&& forall|k: int|
                0 <= k < folders.len() ==> (#[trigger] jobs[k])@ == folder_jobs(
                    views,
                    driver_views(drivers),
                    folders,
                    orders.0,
                )[k]
            &&& forall|k: int|
                folders.len() <= k < jobs.len() ==> (#[trigger] jobs[k])@ == file_jobs(
                    views,
                    raws,
                    orders.1,
                )[k - folders.len()]
        }),
{
    let views = walked_views(files);
    let known = driver_views(drivers);
    let raws = raw_files(views, asset_folders(views, known), views.len() as int);
    let first = folder_jobs(views, known, folders, orders.0);
    let second = file_jobs(views, raws, orders.1);
    let all = job_views(jobs);
    assert(all == first + second);
    assert(folder_paths(views, folders).len() == folders.len());
    assert(shown_paths(folder_paths(views, folders)).len() == folders.len());
    assert(all.len() == jobs.len());
    assert forall|k: int| 0 <= k < jobs.len() implies (#[trigger] jobs[k])@ == all[k] by {}
}

/// A job that packs a folder is named by the relative path of the folder, backslashes made slashes,
/// and the extension of its driver; the directory itself by a dot and the extension. A job that
/// takes a file as it is is named by the relative path of the file.
#[verifier::rlimit(60)]
pub proof fn jobs_are_named_by_their_paths(
    files: Seq<WalkedFile>,
    drivers: Seq<Box<dyn AssetDriver>>,
    folders: Seq<AssetFolder>,
    orders: (Seq<usize>, Seq<usize>),
    jobs: Seq<Job>,
    k: int,
)
    requires
        files.len() <= usize::MAX,
        planned(files, drivers, folders, orders, jobs),
        0 <= k < jobs.len(),
    ensures
        jobs[k].file < files.len(),
        match jobs[k].driver {
            Some(d) => d < drivers.len() && match files[jobs[k].file as int].parent {
                Some(folder) => folder.relative matches Some(relative) && is_path_and_end(
                    jobs[k].name@,
                    if relative@.len() == 0 {
                        seq!['.']
                    } else {
                        relative@
                    },
                    drivers[d as int].extension_text(),
                ),
                None => false,
            },
            None => files[jobs[k].file as int].path.relative matches Some(relative)
                && is_path_and_end(jobs[k].name@, relative@, Seq::empty()),
        },
{
    let views = walked_views(files);
    let known = driver_views(drivers);
    let map = asset_folders(views, known);
    let raws = raw_files(views, map, views.len() as int);
    lemma_parts(files, drivers, folders, orders, jobs);
    assert(jobs[k]@.name == jobs[k].name@);
    if k < folders.len() {
        let at = orders.0[k] as int;
        let folder = folders[at];
        assert(folder_paths(views, folders)[at].relative is Some);
        crate::packer::lemma_marked_drivers(views, known, views.len() as int, 0);
        let components = folder_path(views, folder).components;
        assert(map.contains_key(components));
        assert(views[folder.file as int] == files[folder.file as int]@);
        assert(known[folder.driver as int].extension
            == drivers[folder.driver as int].extension_text());
        let relative = folder_path(views, folder).relative->0;
        let end = known[folder.driver as int].extension;
        reveal_strlit(".");
        assert("."@ =~= seq!['.']);
        assert(jobs[k].name@ == blob_name(relative, end));
        if relative.len() > 0 {
            lemma_slashed(relative, end);
        }
    } else {
        let at = orders.1[k - folders.len()] as int;
        files_in_no_folder_are_raw(views, map, views.len() as int);
        assert(file_paths(views, raws)[at].relative is Some);
        assert(views[raws[at] as int] == files[raws[at] as int]@);
        let relative = views[raws[at] as int].path.relative->0;
        lemma_slashed(relative, Seq::empty());
        assert(with_slashes(relative) + Seq::<char>::empty() =~= with_slashes(relative));
    }
}

proof fn lemma_slashed(relative: Seq<char>, end: Seq<char>)
    ensures
        is_path_and_end(with_slashes(relative) + end, relative, end),
{
    let name = with_slashes(relative) + end;
    assert forall|i: int| 0 <= i < relative.len() implies #[trigger] name[i] == (if relative[i]
        == '\\' {
        '/'
    } else {
        relative[i]
    }) by {
        backslashes_become_slashes(relative, i);
        assert(name[i] == with_slashes(relative)[i]);
    }
    if relative.len() > 0 {
        backslashes_become_slashes(relative, 0);
    }
}

/// Folders with different relative paths, without backslashes, are packed under different names,
/// and the name without the extension is the relative path.
pub proof fn names_tell_folders_apart(
    first: Seq<char>,
    second: Seq<char>,
    end: Seq<char>,
    first_name: Seq<char>,
    second_name: Seq<char>,
)
    requires
        !first.contains('\\'),
        !second.contains('\\'),
        is_path_and_end(first_name, first, end),
        is_path_and_end(second_name, second, end),
    ensures
        first_name.take(first_name.len() - end.len()) == first,
        first != second ==> first_name != second_name,
{
    lemma_front(first, end, first_name);
    lemma_front(second, end, second_name);
}

proof fn lemma_front(relative: Seq<char>, end: Seq<char>, name: Seq<char>)
    requires
        !relative.contains('\\'),
        is_path_and_end(name, relative, end),
    ensures
        name.take(name.len() - end.len()) == relative,
{
    assert forall|i: int| 0 <= i < relative.len() implies name[i] == relative[i] by {
        assert(relative.contains(relative[i]));
    }
    assert(name.take(name.len() - end.len()) =~= relative);
}

/// A folder that was packed comes back where it was: its blob, which begins with the magic of its
/// driver and of none before it, is unpacked by the same driver into the folder of the same relative
/// path.
pub proof fn packed_folders_come_back(
    files: Seq<WalkedFile>,
    drivers: Seq<Box<dyn AssetDriver>>,
    folders: Seq<AssetFolder>,
    orders: (Seq<usize>, Seq<usize>),
    jobs: Seq<Job>,
    k: int,
    relative: Seq<char>,
    blob: Seq<u8>,
    step: Step,
)
    requires
        files.len() <= usize::MAX,
        planned(files, drivers, folders, orders, jobs),
        0 <= k < jobs.len(),
        jobs[k].driver is Some,
        files[jobs[k].file as int].parent->0.relative matches Some(text) && text@ == relative,
        relative.len() > 0,
        !relative.contains('\\'),
        begins_with(blob, drivers[jobs[k].driver->0 as int].magic_bytes()),
        forall|e: int|
            0 <= e < jobs[k].driver->0 ==> !begins_with(
                blob,
                (#[trigger] drivers[e]).magic_bytes(),
            ),
        step@ == step_of(jobs[k].name@, blob, driver_views(drivers)),
    ensures
        match step {
            Step::Asset { driver, name, folder, data } => {
                &&& driver == jobs[k].driver->0
                &&& name@ == jobs[k].name@
                &&& folder@ == relative
                &&& data@ == blob
            },
            Step::Raw { .. } => false,
        },
{
    jobs_are_named_by_their_paths(files, drivers, folders, orders, jobs, k);
    let d = jobs[k].driver->0 as int;
    let end = drivers[d].extension_text();
    let name = jobs[k].name@;
    lemma_front(relative, end, name);
    assert(name =~= relative + end) by {
        assert forall|i: int| 0 <= i < name.len() implies name[i] == (relative + end)[i] by {
            if i < relative.len() {
                assert(name.take(name.len() - end.len())[i] == name[i]);
            } else {
                assert(name[relative.len() + (i - relative.len())] == end[i - relative.len()]);
            }
        }
    }
    blobs_are_unpacked_into_their_folder(drivers, d, name, relative, blob, step);
}

/// Whether the entry file `f` of driver `d` lies in the folder.
pub open spec fn is_entry_of(
    files: Seq<WalkedFile>,
    drivers: Seq<Box<dyn AssetDriver>>,
    f: int,
    d: int,
    folder: PathText,
) -> bool {
    &&& 0 <= f < files.len()
    &&& 0 <= d < drivers.len()
    &&& is_entry(files[f], drivers[d].entry_text())
    &&& same_folder(files[f].parent->0, folder)
}

/// Whether the last entry file of the folder, in the order of the walk, is `f`, of driver `d`; of
/// the drivers of one file the last counts.
pub open spec fn is_last_entry(
    files: Seq<WalkedFile>,
    drivers: Seq<Box<dyn AssetDriver>>,
    f: int,
    d: int,
    folder: PathText,
) -> bool {
    &&& is_entry_of(files, drivers, f, d, folder)
    &&& forall|g: int, e: int| #[trigger]
        is_entry_of(files, drivers, g, e, folder) ==> g < f || (g == f && e <= d)
}

spec fn is_last_mark(
    files: Seq<WalkedFile>,
    drivers: Seq<Box<dyn AssetDriver>>,
    i: int,
    j: int,
    f: int,
    d: int,
    folder: PathText,
) -> bool {
    &&& is_entry_of(files, drivers, f, d, folder)
    &&& f < i || (f == i && d < j)
    &&& forall|g: int, e: int| #[trigger]
        is_entry_of(files, drivers, g, e, folder) && (g < i || (g == i && e < j)) ==> g < f || (g
            == f && e <= d)
}

proof fn lemma_last_mark(
    files: Seq<WalkedFile>,
    drivers: Seq<Box<dyn AssetDriver>>,
    i: int,
    j: int,
    folder: PathText,
) -> (f: int)
    requires
        0 <= i <= files.len(),
        0 <= j <= drivers.len(),
        j > 0 ==> i < files.len(),
        marked_folders(walked_views(files), driver_views(drivers), i, j).contains_key(
            folder@.components,
        ),
    ensures
        is_last_mark(
            files,
            drivers,
            i,
            j,
            f,
            marked_folders(
                walked_views(files),
                driver_views(drivers),
                i,
                j,
            )[folder@.components].1,
            folder,
        ),
    decreases i, j,
{
    let views = walked_views(files);
    let known = driver_views(drivers);
    let key = folder@.components;
    if j > 0 {
        lemma_entry(files, drivers, i, j - 1);
        let mine = marks(views[i], known[j - 1]) && views[i].parent->0.components == key;
        if files[i].parent is Some {
            lemma_lies_in(files[i].parent->0, folder);
        }
        if mine {
            assert(is_entry_of(files, drivers, i, j - 1, folder));
            i
        } else {
            let f = lemma_last_mark(files, drivers, i, j - 1, folder);
            let d = marked_folders(views, known, i, j - 1)[key].1;
            assert(marked_folders(views, known, i, j)[key].1 == d);
            assert forall|g: int, e: int| #[trigger]
                is_entry_of(files, drivers, g, e, folder) && (g < i || (g == i && e
                    < j)) implies g < f || (g == f && e <= d) by {
                if g == i && e == j - 1 {
                    assert(false);
                }
            }
            f
        }
    } else {
        let all = drivers.len() as int;
        assert(known.len() == all);
        assert(i > 0);
        let f = lemma_last_mark(files, drivers, i - 1, all, folder);
        let d = marked_folders(views, known, i - 1, all)[key].1;
        assert forall|g: int, e: int| #[trigger]
            is_entry_of(files, drivers, g, e, folder) && (g < i || (g == i && e < j)) implies g < f
            || (g == f && e <= d) by {}
        f
    }
}

/// A folder is packed if it holds an entry file, by the driver of the last one, and once.
pub proof fn folders_with_an_entry_file_are_packed(
    files: Seq<WalkedFile>,
    drivers: Seq<Box<dyn AssetDriver>>,
    folders: Seq<AssetFolder>,
    orders: (Seq<usize>, Seq<usize>),
    jobs: Seq<Job>,
    f: int,
    d: int,
) -> (k: int)
    requires
        planned(files, drivers, folders, orders, jobs),
        0 <= f < files.len(),
        0 <= d < drivers.len(),
        is_entry(files[f], drivers[d].entry_text()),
    ensures
        0 <= k < jobs.len(),
        jobs[k].driver is Some,
        jobs[k].file < files.len(),
        files[jobs[k].file as int].parent is Some,
        same_folder(files[jobs[k].file as int].parent->0, files[f].parent->0),
{
    let views = walked_views(files);
    let known = driver_views(drivers);
    let map = asset_folders(views, known);
    let key = views[f].parent->0.components;
    lemma_parts(files, drivers, folders, orders, jobs);
    lemma_entry(files, drivers, f, d);
    crate::packer::folders_are_those_with_an_entry_file(
        views,
        known,
        views.len() as int,
        0,
        key,
    );
    assert(marks(views[f], known[d]));
    assert(map.contains_key(key));
    assert(listed_folder(views, folders, key));
    let at = choose|at: int|
        0 <= at < folders.len() && (#[trigger] folder_path(views, folders[at])).components == key;
    order_lists_everything_once(shown_paths(folder_paths(views, folders)), orders.0);
    assert(has_place(orders.0, at));
    let k = choose|k: int| 0 <= k < orders.0.len() && #[trigger] orders.0[k] == at;
    assert(jobs[k]@ == folder_jobs(views, known, folders, orders.0)[k]);
    assert(jobs[k]@.file == jobs[k].file && jobs[k]@.driver == jobs[k].driver);
    assert(folders[at] == folders[at]);
    lemma_lies_in(files[jobs[k].file as int].parent->0, files[f].parent->0);
    k
}

/// Every job that packs a folder does so by the driver of the last entry file of the folder.
pub proof fn folders_are_packed_by_their_last_entry_file(
    files: Seq<WalkedFile>,
    drivers: Seq<Box<dyn AssetDriver>>,
    folders: Seq<AssetFolder>,
    orders: (Seq<usize>, Seq<usize>),
    jobs: Seq<Job>,
    k: int,
) -> (f: int)
    requires
        planned(files, drivers, folders, orders, jobs),
        0 <= k < jobs.len(),
        jobs[k].driver is Some,
    ensures
        jobs[k].file < files.len(),
        files[jobs[k].file as int].parent is Some,
        is_last_entry(
            files,
            drivers,
            f,
            jobs[k].driver->0 as int,
            files[jobs[k].file as int].parent->0,
        ),
{
    let views = walked_views(files);
    let known = driver_views(drivers);
    let map = asset_folders(views, known);
    lemma_parts(files, drivers, folders, orders, jobs);
    assert(jobs[k]@.driver == jobs[k].driver && jobs[k]@.file == jobs[k].file);
    let at = orders.0[k] as int;
    let folder = folders[at];
    let path = files[folder.file as int].parent->0;
    assert(path@ == folder_path(views, folder));
    assert(map.contains_key(path@.components));
    let f = lemma_last_mark(files, drivers, files.len() as int, 0, path);
    assert forall|g: int, e: int| #[trigger]
        is_entry_of(files, drivers, g, e, path) implies g < f || (g == f && e
        <= folder.driver) by {}
    f
}

/// No two jobs pack the same folder.
pub proof fn no_folder_is_packed_twice(
    files: Seq<WalkedFile>,
    drivers: Seq<Box<dyn AssetDriver>>,
    folders: Seq<AssetFolder>,
    orders: (Seq<usize>, Seq<usize>),
    jobs: Seq<Job>,
    j: int,
    k: int,
)
    requires
        planned(files, drivers, folders, orders, jobs),
        0 <= j < k < jobs.len(),
        jobs[j].driver is Some,
        jobs[k].driver is Some,
    ensures
        !same_folder(files[jobs[j].file as int].parent->0, files[jobs[k].file as int].parent->0),
{
    let views = walked_views(files);
    lemma_parts(files, drivers, folders, orders, jobs);
    assert(jobs[j]@.driver == jobs[j].driver && jobs[k]@.driver == jobs[k].driver);
    assert(jobs[j]@.file == jobs[j].file && jobs[k]@.file == jobs[k].file);
    let a = orders.0[j] as int;
    let b = orders.0[k] as int;
    order_lists_everything_once(shown_paths(folder_paths(views, folders)), orders.0);
    assert(a != b);
    let low = if a < b { a } else { b };
    let high = if a < b { b } else { a };
    assert(folder_path(views, folders[low]).components != folder_path(
        views,
        folders[high],
    ).components);
    lemma_lies_in(files[jobs[j].file as int].parent->0, files[jobs[k].file as int].parent->0);
}

/// The folders found are those that hold an entry file, each once, with the driver of the last one.
pub proof fn folders_with_an_entry_file_are_found(
    files: Seq<WalkedFile>,
    drivers: Seq<Box<dyn AssetDriver>>,
    folders: Seq<AssetFolder>,
    j: int,
    k: int,
    f: int,
    d: int,
) -> (found: (int, int))
    requires
        lists(
            walked_views(files),
            folders,
            asset_folders(walked_views(files), driver_views(drivers)),
        ),
    ensures
        0 <= k < folders.len() ==> {
            &&& folders[k].file < files.len()
            &&& files[folders[k].file as int].parent is Some
            &&& is_last_entry(
                files,
                drivers,
                found.0,
                folders[k].driver as int,
                files[folders[k].file as int].parent->0,
            )
        },
        0 <= j < k < folders.len() ==> !same_folder(
            files[folders[j].file as int].parent->0,
            files[folders[k].file as int].parent->0,
        ),
        0 <= f < files.len() && 0 <= d < drivers.len() && is_entry(
            files[f],
            drivers[d].entry_text(),
        ) ==> 0 <= found.1 < folders.len() && same_folder(
            files[folders[found.1].file as int].parent->0,
            files[f].parent->0,
        ),
{
    let views = walked_views(files);
    let known = driver_views(drivers);
    let map = asset_folders(views, known);
    let last = if 0 <= k < folders.len() {
        let path = files[folders[k].file as int].parent->0;
        assert(path@ == folder_path(views, folders[k]));
        assert(map.contains_key(path@.components));
        let last = lemma_last_mark(files, drivers, files.len() as int, 0, path);
        assert forall|g: int, e: int| #[trigger]
            is_entry_of(files, drivers, g, e, path) implies g < last || (g == last && e
            <= folders[k].driver) by {}
        last
    } else {
        0
    };
    if 0 <= j < k < folders.len() {
        assert(folder_path(views, folders[j]).components != folder_path(
            views,
            folders[k],
        ).components);
        lemma_lies_in(
            files[folders[j].file as int].parent->0,
            files[folders[k].file as int].parent->0,
        );
    }
    let at = if 0 <= f < files.len() && 0 <= d < drivers.len() && is_entry(
        files[f],
        drivers[d].entry_text(),
    ) {
        let key = views[f].parent->0.components;
        lemma_entry(files, drivers, f, d);
        crate::packer::folders_are_those_with_an_entry_file(
            views,
            known,
            views.len() as int,
            0,
            key,
        );
        assert(marks(views[f], known[d]));
        assert(map.contains_key(key));
        assert(listed_folder(views, folders, key));
        let at = choose|at: int|
            0 <= at < folders.len() && (#[trigger] folder_path(views, folders[at])).components
                == key;
        assert(folders[at] == folders[at]);
        lemma_lies_in(files[folders[at].file as int].parent->0, files[f].parent->0);
        at
    } else {
        0
    };
    (last, at)
}

/// Whether a file lies in a folder that holds an entry file.
pub open spec fn lies_in_assets(
    files: Seq<WalkedFile>,
    drivers: Seq<Box<dyn AssetDriver>>,
    f: int,
) -> bool {
    exists|g: int, d: int|
        0 <= g < files.len() && 0 <= d < drivers.len() && #[trigger] is_entry(
            files[g],
            drivers[d].entry_text(),
        ) && lies_in(files[f].path, files[g].parent->0)
}

proof fn lemma_raw(files: Seq<WalkedFile>, drivers: Seq<Box<dyn AssetDriver>>, f: int)
    requires
        0 <= f < files.len(),
    ensures
        is_raw(
            walked_views(files)[f],
            asset_folders(walked_views(files), driver_views(drivers)),
        ) == !lies_in_assets(files, drivers, f),
{
    let views = walked_views(files);
    let known = driver_views(drivers);
    let map = asset_folders(views, known);
    let n = views.len() as int;
    if lies_in_assets(files, drivers, f) {
        let (g, d) = choose|g: int, d: int|
            0 <= g < files.len() && 0 <= d < drivers.len() && #[trigger] is_entry(
                files[g],
                drivers[d].entry_text(),
            ) && lies_in(files[f].path, files[g].parent->0);
        lemma_entry(files, drivers, g, d);
        let key = views[g].parent->0.components;
        crate::packer::folders_are_those_with_an_entry_file(views, known, n, 0, key);
        assert(marks(views[g], known[d]));
        assert(map.contains_key(key));
        lemma_lies_in(files[f].path, files[g].parent->0);
    } else {
        assert forall|key: Seq<Seq<u8>>| #[trigger] map.contains_key(key) implies !is_under(
            views[f].path.components,
            key,
        ) by {
            crate::packer::folders_are_those_with_an_entry_file(views, known, n, 0, key);
            assert(crate::packer::is_marked(views, known, n, 0, key));
            let (g, d) = choose|g: int, d: int|
                {
                    &&& 0 <= g && 0 <= d < known.len()
                    &&& g < n || (g == n && d < 0)
                    &&& #[trigger] marks(views[g], known[d])
                    &&& views[g].parent->0.components == key
                };
            lemma_entry(files, drivers, g, d);
            assert(is_entry(files[g], drivers[d].entry_text()));
            lemma_lies_in(files[f].path, files[g].parent->0);
        }
    }
}

/// A file is taken as it is if it lies in no folder that holds an entry file, and only then; once.
#[verifier::rlimit(60)]
pub proof fn files_outside_assets_are_taken_as_they_are(
    files: Seq<WalkedFile>,
    drivers: Seq<Box<dyn AssetDriver>>,
    folders: Seq<AssetFolder>,
    orders: (Seq<usize>, Seq<usize>),
    jobs: Seq<Job>,
    f: int,
)
    requires
        files.len() <= usize::MAX,
        planned(files, drivers, folders, orders, jobs),
        0 <= f < files.len(),
    ensures
        lies_in_assets(files, drivers, f) == (forall|k: int|
            0 <= k < jobs.len() && (#[trigger] jobs[k]).driver is None ==> jobs[k].file != f),
        forall|j: int, k: int|
            0 <= j < k < jobs.len() && (#[trigger] jobs[j]).driver is None && (
            #[trigger] jobs[k]).driver is None ==> jobs[j].file != jobs[k].file,
{
    let views = walked_views(files);
    let known = driver_views(drivers);
    let map = asset_folders(views, known);
    let raws = raw_files(views, map, views.len() as int);
    lemma_parts(files, drivers, folders, orders, jobs);
    lemma_raw(files, drivers, f);
    files_in_no_folder_are_raw(views, map, views.len() as int);
    let names = shown_paths(file_paths(views, raws));
    order_lists_everything_once(names, orders.1);
    let count = folders.len() as int;
    assert forall|k: int| 0 <= k < jobs.len() implies ((#[trigger] jobs[k]).driver is None) == (k
        >= count) && (k >= count ==> jobs[k].file == raws[orders.1[k - count] as int]) by {
        assert(jobs[k]@.driver == jobs[k].driver && jobs[k]@.file == jobs[k].file);
        if k < count {
            assert(jobs[k]@ == folder_jobs(views, known, folders, orders.0)[k]);
        } else {
            assert(jobs[k]@ == file_jobs(views, raws, orders.1)[k - count]);
        }
    }
    assert(has_place(raws, f) == is_raw(views[f], map));
    if is_raw(views[f], map) {
        let p = choose|p: int| 0 <= p < raws.len() && #[trigger] raws[p] == f;
        assert(has_place(orders.1, p));
        let a = choose|a: int| 0 <= a < orders.1.len() && #[trigger] orders.1[a] == p;
        assert(jobs[count + a].file == f);
    } else {
        assert forall|k: int|
            0 <= k < jobs.len() && (#[trigger] jobs[k]).driver is None implies jobs[k].file
            != f by {
            assert(raws[orders.1[k - count] as int] == jobs[k].file);
        }
    }
    assert forall|j: int, k: int|
        0 <= j < k < jobs.len() && (#[trigger] jobs[j]).driver is None && (
        #[trigger] jobs[k]).driver is None implies jobs[j].file != jobs[k].file by {
        let p = orders.1[j - count] as int;
        let q = orders.1[k - count] as int;
        assert(p != q);
        if p < q {
            assert(raws[p] < raws[q]);
        } else {
            assert(raws[q] < raws[p]);
        }
    }
}

/// Whether a text comes before another in the order of their UTF-8 bytes.
pub open spec fn comes_first(a: Seq<char>, b: Seq<char>) -> bool {
    exists|at: int| #[trigger] differ_at(encode_utf8(a), encode_utf8(b), at)
}

/// The text that the path of a job is shown as.
pub open spec fn shown_as(files: Seq<WalkedFile>, job: Job) -> Seq<char> {
    match job.driver {
        Some(_) => files[job.file as int].parent->0.shown@,
        None => files[job.file as int].path.shown@,
    }
}

/// The jobs that pack folders come before those that take files as they are, and either are in the
/// order of the texts that their paths are shown as.
pub proof fn jobs_are_in_order(
    files: Seq<WalkedFile>,
    drivers: Seq<Box<dyn AssetDriver>>,
    folders: Seq<AssetFolder>,
    orders: (Seq<usize>, Seq<usize>),
    jobs: Seq<Job>,
    j: int,
    k: int,
)
    requires
        files.len() <= usize::MAX,
        planned(files, drivers, folders, orders, jobs),
        0 <= j < k < jobs.len(),
    ensures
        jobs[k].driver is Some ==> jobs[j].driver is Some,
        (jobs[j].driver is Some) == (jobs[k].driver is Some) ==> !comes_first(
            shown_as(files, jobs[k]),
            shown_as(files, jobs[j]),
        ),
{
    let views = walked_views(files);
    let known = driver_views(drivers);
    let map = asset_folders(views, known);
    let raws = raw_files(views, map, views.len() as int);
    let count = folders.len() as int;
    lemma_parts(files, drivers, folders, orders, jobs);
    files_in_no_folder_are_raw(views, map, views.len() as int);
    assert(jobs[j]@.driver == jobs[j].driver && jobs[j]@.file == jobs[j].file);
    assert(jobs[k]@.driver == jobs[k].driver && jobs[k]@.file == jobs[k].file);
    if k < count {
        let names = shown_paths(folder_paths(views, folders));
        let p = orders.0[j] as int;
        let q = orders.0[k] as int;
        assert(goes_before(names, p, q));
        assert(folders[p] == folders[p] && folders[q] == folders[q]);
        assert(views[folders[p].file as int] == files[folders[p].file as int]@);
        assert(views[folders[q].file as int] == files[folders[q].file as int]@);
        lemma_not_first(names, p, q);
        lemma_comes_first(shown_as(files, jobs[k]), shown_as(files, jobs[j]));
    } else if j >= count {
        let names = shown_paths(file_paths(views, raws));
        let p = orders.1[j - count] as int;
        let q = orders.1[k - count] as int;
        assert(goes_before(names, p, q));
        assert(views[raws[p] as int] == files[raws[p] as int]@);
        assert(views[raws[q] as int] == files[raws[q] as int]@);
        lemma_not_first(names, p, q);
        lemma_comes_first(shown_as(files, jobs[k]), shown_as(files, jobs[j]));
    }
}

proof fn lemma_not_first(names: Seq<Option<Seq<char>>>, i: int, j: int)
    requires
        goes_before(names, i, j),
    ensures
        !name_before(names[j], names[i]),
{
    lemma_name_irreflexive(names[i]);
    if name_before(names[j], names[i]) && name_before(names[i], names[j]) {
        lemma_name_transitive(names[i], names[j], names[i]);
    }
}

proof fn lemma_comes_first(a: Seq<char>, b: Seq<char>)
    ensures
        name_before(Some(a), Some(b)) == comes_first(a, b),
{
    bytes_are_in_dictionary_order(encode_utf8(a), encode_utf8(b));
}

/// A directory is refused only where a folder to be packed or a file to be taken as it is lies
/// outside of it.
pub proof fn only_paths_outside_are_refused(
    files: Seq<WalkedFile>,
    drivers: Seq<Box<dyn AssetDriver>>,
    folders: Seq<AssetFolder>,
    orders: (Seq<usize>, Seq<usize>),
    fault: Fault,
)
    requires
        files.len() <= usize::MAX,
        is_plan(
            walked_views(files),
            driver_views(drivers),
            folders,
            orders,
            Err::<Seq<JobView>, Fault>(fault),
        ),
    ensures
        fault == Fault::Flawed(Flaw::OutsideRoot),
        exists|f: int|
            0 <= f < files.len() && ((files[f].path.relative is None && !lies_in_assets(
                files,
                drivers,
                f,
            )) || (files[f].parent matches Some(folder) && folder.relative is None
                && holds_entry(files, drivers, #[trigger] files[f]))),
{
    let views = walked_views(files);
    let known = driver_views(drivers);
    let map = asset_folders(views, known);
    let n = views.len() as int;
    let raws = raw_files(views, map, n);
    files_in_no_folder_are_raw(views, map, n);
    if !all_inside(folder_paths(views, folders)) {
        let at = choose|at: int|
            0 <= at < folders.len() && (#[trigger] folder_paths(views, folders)[at]).relative
                is None;
        let f = folders[at].file as int;
        let key = folder_path(views, folders[at]).components;
        assert(map.contains_key(key));
        crate::packer::folders_are_those_with_an_entry_file(views, known, n, 0, key);
        assert(crate::packer::is_marked(views, known, n, 0, key));
        let (g, d) = choose|g: int, d: int|
            {
                &&& 0 <= g && 0 <= d < known.len()
                &&& g < n || (g == n && d < 0)
                &&& #[trigger] marks(views[g], known[d])
                &&& views[g].parent->0.components == key
            };
        lemma_entry(files, drivers, g, d);
        lemma_lies_in(files[g].parent->0, files[f].parent->0);
        assert(is_entry_of(files, drivers, g, d, files[f].parent->0));
        assert(views[f] == files[f]@);
        assert(holds_entry(files, drivers, files[f]));
    } else {
        let at = choose|at: int|
            0 <= at < raws.len() && (#[trigger] file_paths(views, raws)[at]).relative is None;
        let f = raws[at] as int;
        assert(has_place(raws, f));
        lemma_raw(files, drivers, f);
        assert(views[f] == files[f]@);
        assert(files[f].path.relative is None);
    }
}

/// Whether the folder of a file holds an entry file.
pub open spec fn holds_entry(
    files: Seq<WalkedFile>,
    drivers: Seq<Box<dyn AssetDriver>>,
    file: WalkedFile,
) -> bool {
    exists|g: int, d: int| #[trigger] is_entry_of(files, drivers, g, d, file.parent->0)
}

/// The files of a container are what the jobs came to: each job's bytes under its name, once, in
/// the order of the names, jobs of one name in their order.
pub proof fn files_are_what_the_jobs_came_to(
    jobs: Seq<Job>,
    results: Seq<Option<Vec<u8>>>,
    order: Seq<usize>,
    files: Seq<PackedFile>,
)
    requires
        jobs.len() == results.len(),
        is_order(job_names(job_views(jobs)), order),
        file_views(files) == collected(job_views(jobs), result_views(results), order),
        forall|i: int| 0 <= i < results.len() ==> (#[trigger] results[i]) is Some,
    ensures
        files.len() == jobs.len(),
        order.len() == jobs.len(),
        order.no_duplicates(),
        forall|k: int|
            0 <= k < files.len() ==> {
                let at = order[k] as int;
                &&& at < jobs.len()
                &&& (#[trigger] files[k]).name@ == jobs[at].name@
                &&& files[k].data@ == results[at]->0@
            },
        forall|j: int, k: int|
            0 <= j < k < files.len() ==> !comes_first(
                (#[trigger] files[k]).name@,
                (#[trigger] files[j]).name@,
            ) && (files[j].name@ == files[k].name@ ==> order[j] < order[k]),
{
    let names = job_names(job_views(jobs));
    let views = file_views(files);
    order_lists_everything_once(names, order);
    assert(names.len() == jobs.len());
    assert(views.len() == files.len());
    assert forall|k: int| 0 <= k < files.len() implies {
        let at = order[k] as int;
        &&& at < jobs.len()
        &&& (#[trigger] files[k]).name@ == jobs[at].name@
        &&& files[k].data@ == results[at]->0@
    } by {
        assert(views[k] == files[k]@);
        assert(order[k] < names.len());
        assert(results[order[k] as int] is Some);
    }
    assert forall|j: int, k: int| 0 <= j < k < files.len() implies !comes_first(
        (#[trigger] files[k]).name@,
        (#[trigger] files[j]).name@,
    ) && (files[j].name@ == files[k].name@ ==> order[j] < order[k]) by {
        assert(goes_before(names, order[j] as int, order[k] as int));
        lemma_not_first(names, order[j] as int, order[k] as int);
        lemma_comes_first(files[k].name@, files[j].name@);
        lemma_name_irreflexive(names[order[j] as int]);
    }
}

/// The first job that came to nothing is found, if there is one.
pub proof fn the_first_failure_is_found(results: Seq<Option<Vec<u8>>>, from: int)
    requires
        0 <= from,
    ensures
        match first_failed(result_views(results), from) {
            Some(at) => from <= at < results.len() && results[at] is None && forall|i: int|
                from <= i < at ==> (#[trigger] results[i]) is Some,
            None => forall|i: int| from <= i < results.len() ==> (#[trigger] results[i]) is Some,
        },
    decreases results.len() - from,
{
    if from < results.len() {
        the_first_failure_is_found(results, from + 1);
    }
}

} // verus!
