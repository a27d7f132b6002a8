//! Containers.
use vstd::prelude::*;
use vstd::utf8::{decode_utf8, encode_utf8, valid_utf8};

use crate::bytes::{has_at, joined};
use crate::container::{
    container_bytes, data_parts, driver_of, driver_views, entry_data, entry_views,
    first_too_large, index_parts, lossy_text, name_field, offset_of, packing, step_of, step_views,
    steps_of, storable, stored_index, unpacking, unpacking_undoes_packing, Contents, DriverView,
    EntryView, FileView, IndexEntry, Step,
};
use crate::cxan::{animation_blob, CXAN_MAGIC};
use crate::driver::AssetDriver;
use crate::fault::{Fault, Flaw};
use crate::laws::bytes::{number, numbers_are_read_low_byte_first, parts_stand_byte_by_byte};
use crate::laws::text::texts_end_in_what_is_put_behind;
use crate::raster::Raster;
use crate::text::{ends_in, trimmed};

verus! {

/// Whether bytes begin with others.
pub open spec fn begins_with(data: Seq<u8>, start: Seq<u8>) -> bool {
    data.len() >= start.len() && forall|i: int|
        0 <= i < start.len() ==> data[i] == #[trigger] start[i]
}

/// A part that stands at the beginning is what the bytes begin with.
pub proof fn lemma_begins(data: Seq<u8>, start: Seq<u8>)
    ensures
        has_at(data, 0, start) == begins_with(data, start),
{
    parts_stand_byte_by_byte(data, 0, start);
    if has_at(data, 0, start) {
        assert forall|i: int| 0 <= i < start.len() implies data[i] == #[trigger] start[i] by {
            assert(data[0 + i] == start[i]);
        }
    }
}

proof fn lemma_first_driver(drivers: Seq<Box<dyn AssetDriver>>, data: Seq<u8>, from: int, d: int)
    requires
        0 <= from <= d <= drivers.len(),
        forall|e: int|
            from <= e < d ==> !begins_with(data, (#[trigger] drivers[e]).magic_bytes()),
        d < drivers.len() ==> begins_with(data, drivers[d].magic_bytes()),
    ensures
        driver_of(data, driver_views(drivers), from) == (if d < drivers.len() {
            Some(d)
        } else {
            None
        }),
    decreases d - from,
{
    let views = driver_views(drivers);
    if from < drivers.len() {
        lemma_begins(data, drivers[from].magic_bytes());
        assert(views[from].magic == drivers[from].magic_bytes());
    }
    if from < d {
        assert(!begins_with(data, drivers[from].magic_bytes()));
        lemma_first_driver(drivers, data, from + 1, d);
    }
}

/// Data that begins with the magic of a driver, the first such, under a name that is a folder and
/// the driver's extension, is unpacked by that driver into that folder.
pub proof fn blobs_are_unpacked_into_their_folder(
    drivers: Seq<Box<dyn AssetDriver>>,
    d: int,
    name: Seq<char>,
    folder: Seq<char>,
    data: Seq<u8>,
    step: Step,
)
    requires
        step@ == step_of(name, data, driver_views(drivers)),
        0 <= d < drivers.len(),
        begins_with(data, drivers[d].magic_bytes()),
        forall|e: int| 0 <= e < d ==> !begins_with(data, (#[trigger] drivers[e]).magic_bytes()),
        name == folder + drivers[d].extension_text(),
    ensures
        match step {
            Step::Asset { driver, name: shown, folder: into, data: bytes } => {
                &&& driver == d
                &&& shown@ == name
                &&& into@ == folder
                &&& bytes@ == data
            },
            Step::Raw { .. } => false,
        },
{
    lemma_first_driver(drivers, data, 0, d);
    assert(driver_views(drivers)[d].extension == drivers[d].extension_text());
    texts_end_in_what_is_put_behind(folder, name, drivers[d].extension_text());
}

/// Data that begins with the magic of no driver, or under a name that does not end in the extension
/// of the first driver whose magic it begins with, is written as it is.
pub proof fn other_files_are_written_as_they_are(
    drivers: Seq<Box<dyn AssetDriver>>,
    d: int,
    name: Seq<char>,
    data: Seq<u8>,
    step: Step,
)
    requires
        step@ == step_of(name, data, driver_views(drivers)),
        0 <= d <= drivers.len(),
        forall|e: int| 0 <= e < d ==> !begins_with(data, (#[trigger] drivers[e]).magic_bytes()),
        d < drivers.len() ==> begins_with(data, drivers[d].magic_bytes()) && forall|
            folder: Seq<char>,
        |
            name != #[trigger] (folder + drivers[d].extension_text()),
    ensures
        match step {
            Step::Raw { name: shown, data: bytes } => shown@ == name && bytes@ == data,
            Step::Asset { .. } => false,
        },
{
    lemma_first_driver(drivers, data, 0, d);
    if d < drivers.len() {
        let end = drivers[d].extension_text();
        assert(driver_views(drivers)[d].extension == end);
        texts_end_in_what_is_put_behind(Seq::empty(), name, end);
        if ends_in(name, end) {
            assert(name == name.take(name.len() - end.len()) + end);
        }
    }
}

/// Whether the drivers are those in use: the one of animations.
pub open spec fn are_in_use(drivers: Seq<Box<dyn AssetDriver>>) -> bool {
    &&& drivers.len() == 1
    &&& drivers[0].magic_bytes() == seq![67u8, 88, 65, 78]
    &&& drivers[0].extension_text() == seq!['.', 'c', 'x', 'a', 'n']
}

proof fn lemma_animation_begins(fps: u32, frames: Seq<Raster>)
    ensures
        begins_with(animation_blob(fps, frames), seq![67u8, 88, 65, 78]),
{
    assert(CXAN_MAGIC@ =~= seq![67u8, 88, 65, 78]);
}

/// Every animation in a container, under the name of a folder and `.cxan`, is unpacked as an
/// animation into that folder.
pub proof fn animations_come_out_of_containers(
    files: Seq<FileView>,
    i: int,
    folder: Seq<char>,
    fps: u32,
    frames: Seq<Raster>,
    drivers: Seq<Box<dyn AssetDriver>>,
    contents: Contents,
)
    requires
        storable(files),
        are_in_use(drivers),
        step_views(contents.steps@) == unpacking(container_bytes(files), driver_views(drivers)).0,
        0 <= i < files.len(),
        files[i].name == folder + seq!['.', 'c', 'x', 'a', 'n'],
        files[i].data == animation_blob(fps, frames),
    ensures
        i < contents.steps@.len(),
        match contents.steps@[i] {
            Step::Asset { driver, name, folder: into, data } => {
                &&& driver == 0
                &&& name@ == files[i].name
                &&& into@ == folder
                &&& data@ == animation_blob(fps, frames)
            },
            Step::Raw { .. } => false,
        },
{
    let views = driver_views(drivers);
    unpacking_undoes_packing(files, views);
    let steps = step_views(contents.steps@);
    assert(steps.len() == contents.steps@.len());
    assert(steps[i] == contents.steps@[i]@);
    lemma_animation_begins(fps, frames);
    blobs_are_unpacked_into_their_folder(
        drivers,
        0,
        files[i].name,
        folder,
        files[i].data,
        contents.steps@[i],
    );
}

/// The bytes of the data of the first `count` files.
pub open spec fn size_of(files: Seq<FileView>, count: int) -> int
    decreases count,
{
    if count <= 0 {
        0
    } else {
        size_of(files, count - 1) + files[count - 1].data.len()
    }
}

proof fn lemma_size(files: Seq<FileView>, count: int)
    requires
        0 <= count <= files.len(),
    ensures
        joined(data_parts(files).take(count)).len() == size_of(files, count),
    decreases count,
{
    let parts = data_parts(files);
    if count > 0 {
        lemma_size(files, count - 1);
        assert(parts.take(count).drop_last() =~= parts.take(count - 1));
        assert(parts.take(count).last() == files[count - 1].data);
    } else {
        assert(parts.take(0) =~= Seq::<Seq<u8>>::empty());
    }
}

/// Whether 64 bytes from `at` on are the field of a name: its first 63 bytes at most, and zeros.
pub open spec fn is_field(bytes: Seq<u8>, at: int, name: Seq<char>) -> bool {
    forall|k: int|
        0 <= k < 64 ==> #[trigger] bytes[at + k] == (if k < 63 && k < encode_utf8(name).len() {
            encode_utf8(name)[k]
        } else {
            0u8
        })
}

/// A container is its magic, the number of files, for each file 72 bytes with its name, the offset
/// and the size of its data, and then the data of the files one after the other.
#[verifier::rlimit(60)]
pub proof fn containers_are_laid_out_so(files: Seq<FileView>, i: int)
    requires
        files.len() < 0x1_0000_0000,
        0 <= i < files.len(),
        files[i].data.len() < 0x1_0000_0000,
        8 + 72 * files.len() + size_of(files, i) < 0x1_0000_0000,
    ensures
        ({
            let bytes = container_bytes(files);
            let at = 8 + 72 * i;
            let offset = 8 + 72 * files.len() + size_of(files, i);
            &&& bytes.len() == 8 + 72 * files.len() + size_of(files, files.len() as int)
            &&& begins_with(bytes, seq![67u8, 88, 80, 75])
            &&& number(bytes, 4, 4) == files.len()
            &&& is_field(bytes, at, files[i].name)
            &&& number(bytes, at + 64, 4) == offset
            &&& number(bytes, at + 68, 4) == files[i].data.len()
            &&& forall|k: int|
                0 <= k < files[i].data.len() ==> bytes[offset + k] == #[trigger] files[i].data[k]
        }),
{
    let bytes = container_bytes(files);
    let n = files.len() as int;
    let at = 8 + 72 * i;
    let field = name_field(files[i].name);
    let offset = offset_of(files, i) as u32;
    let size = files[i].data.len() as u32;
    crate::container::lemma_container_stands(files);
    lemma_begins(bytes, crate::container::CXPK_MAGIC@);
    assert(crate::container::CXPK_MAGIC@ =~= seq![67u8, 88, 80, 75]);
    numbers_are_read_low_byte_first(bytes, 4);
    numbers_are_read_low_byte_first(bytes, at + 64);
    numbers_are_read_low_byte_first(bytes, at + 68);
    crate::container::lemma_entry_stands(bytes, files, i);
    assert(field.len() == 64);
    crate::container::lemma_fields_read_back(bytes, at, field, offset, size);
    parts_stand_byte_by_byte(bytes, at, index_parts(files)[i]);
    assert forall|k: int| 0 <= k < 64 implies #[trigger] bytes[at + k] == (if k < 63 && k
        < encode_utf8(files[i].name).len() {
        encode_utf8(files[i].name)[k]
    } else {
        0u8
    }) by {
        assert(bytes[at + k] == index_parts(files)[i][k]);
        assert(index_parts(files)[i][k] == field[k]);
    }
    lemma_size(files, i);
    lemma_size(files, n);
    assert(data_parts(files).take(n) =~= data_parts(files));
    crate::bytes::lemma_joined_at(data_parts(files), i);
    crate::bytes::lemma_has_at_nested(
        bytes,
        8 + 72 * n,
        joined(data_parts(files)),
        size_of(files, i),
        data_parts(files)[i],
    );
    parts_stand_byte_by_byte(bytes, 8 + 72 * n + size_of(files, i), files[i].data);
}

/// Files are put into a container if none is larger than its size field can say; else the first
/// that is too large is named.
pub proof fn the_first_too_large_file_is_named(files: Seq<FileView>)
    ensures
        match packing(files) {
            Ok(bytes) => bytes == container_bytes(files) && forall|i: int|
                0 <= i < files.len() ==> (#[trigger] files[i]).data.len() < 0x1_0000_0000,
            Err(Fault::Flawed(Flaw::FileTooLarge { index })) => files.len() <= usize::MAX ==> {
                &&& index < files.len()
                &&& files[index as int].data.len() >= 0x1_0000_0000
                &&& forall|i: int|
                    0 <= i < index ==> (#[trigger] files[i]).data.len() < 0x1_0000_0000
            },
            Err(_) => false,
        },
{
    lemma_too_large(files, 0);
}

proof fn lemma_too_large(files: Seq<FileView>, from: int)
    requires
        0 <= from,
    ensures
        match first_too_large(files, from) {
            Some(at) => from <= at < files.len() && files[at].data.len() >= 0x1_0000_0000 && forall|
                i: int,
            |
                from <= i < at ==> (#[trigger] files[i]).data.len() < 0x1_0000_0000,
            None => forall|i: int|
                from <= i < files.len() ==> (#[trigger] files[i]).data.len() < 0x1_0000_0000,
        },
    decreases files.len() - from,
{
    if from < files.len() {
        lemma_too_large(files, from + 1);
    }
}

/// Whether an index is what was read of bytes.
pub open spec fn is_read(bytes: Seq<u8>, outcome: Result<Vec<IndexEntry>, Flaw>) -> bool {
    match stored_index(bytes) {
        Ok(entries) => outcome matches Ok(found) && entry_views(found@) == entries,
        Err(flaw) => outcome == Err::<Vec<IndexEntry>, Flaw>(flaw),
    }
}

/// The index of a container is read from its bytes; what does not begin with the magic is refused,
/// and so is what ends before its index does.
pub proof fn the_index_is_read_from_the_bytes(
    bytes: Seq<u8>,
    outcome: Result<Vec<IndexEntry>, Flaw>,
)
    requires
        is_read(bytes, outcome),
    ensures
        ({
            let magic = begins_with(bytes, seq![67u8, 88, 80, 75]);
            let whole = bytes.len() >= 8 && 8 + 72 * number(bytes, 4, 4) <= bytes.len();
            match outcome {
                Ok(entries) => {
                    &&& magic
                    &&& whole
                    &&& entries@.len() == number(bytes, 4, 4)
                    &&& forall|i: int|
                        0 <= i < entries@.len() ==> {
                            let entry = #[trigger] entries@[i];
                            let field = bytes.subrange(8 + 72 * i, 8 + 72 * i + 64);
                            &&& entry.offset == number(bytes, 8 + 72 * i + 64, 4)
                            &&& entry.size == number(bytes, 8 + 72 * i + 68, 4)
                            &&& valid_utf8(field) ==> entry.name@ == trimmed(decode_utf8(field))
                            &&& !valid_utf8(field) ==> entry.name@ == trimmed(lossy_text(field))
                        }
                },
                Err(Flaw::BadMagic) => bytes.len() >= 4 && !magic,
                Err(Flaw::ContainerCutShort) => bytes.len() < 4 || (magic && !whole),
                Err(_) => false,
            }
        }),
{
    lemma_begins(bytes, crate::container::CXPK_MAGIC@);
    assert(crate::container::CXPK_MAGIC@ =~= seq![67u8, 88, 80, 75]);
    numbers_are_read_low_byte_first(bytes, 4);
    if let Ok(entries) = outcome {
        let views = entry_views(entries@);
        assert(views.len() == entries@.len());
        assert forall|i: int| 0 <= i < entries@.len() implies {
            let entry = #[trigger] entries@[i];
            let field = bytes.subrange(8 + 72 * i, 8 + 72 * i + 64);
            &&& entry.offset == number(bytes, 8 + 72 * i + 64, 4)
            &&& entry.size == number(bytes, 8 + 72 * i + 68, 4)
            &&& valid_utf8(field) ==> entry.name@ == trimmed(decode_utf8(field))
            &&& !valid_utf8(field) ==> entry.name@ == trimmed(lossy_text(field))
        } by {
            assert(views[i] == entries@[i]@);
            numbers_are_read_low_byte_first(bytes, 8 + 72 * i + 64);
            numbers_are_read_low_byte_first(bytes, 8 + 72 * i + 68);
        }
    }
}

/// The name that a step is about.
pub open spec fn name_of(step: Step) -> Seq<char> {
    match step {
        Step::Asset { driver, name, folder, data } => name@,
        Step::Raw { name, data } => name@,
    }
}

/// The data that a step is about.
pub open spec fn data_of(step: Step) -> Seq<u8> {
    match step {
        Step::Asset { driver, name, folder, data } => data@,
        Step::Raw { name, data } => data@,
    }
}

/// Whether the data of an entry lies in the container; no data does anywhere.
pub open spec fn is_there(bytes: Seq<u8>, entry: EntryView) -> bool {
    entry.size == 0 || entry.offset + entry.size <= bytes.len()
}

/// Unpacking goes through the entries of a container in order, each with its name and the bytes
/// from its offset on, as many as its size says; it ends at the first entry whose data is not
/// there.
pub proof fn entries_are_gone_through_in_order(
    bytes: Seq<u8>,
    drivers: Seq<Box<dyn AssetDriver>>,
    entries: Seq<EntryView>,
    count: int,
    contents: Contents,
)
    requires
        step_views(contents.steps@) == unpacking(bytes, driver_views(drivers)).0,
        contents.flaw == unpacking(bytes, driver_views(drivers)).1,
        stored_index(bytes) == Ok::<Seq<EntryView>, Flaw>(entries),
        0 <= count <= entries.len(),
        forall|i: int| 0 <= i < count ==> is_there(bytes, #[trigger] entries[i]),
        count < entries.len() ==> !is_there(bytes, entries[count]),
    ensures
        contents.steps@.len() == count,
        contents.flaw == (if count < entries.len() {
            Some(Flaw::ContainerCutShort)
        } else {
            None
        }),
        forall|i: int|
            0 <= i < count ==> {
                let step = #[trigger] contents.steps@[i];
                &&& name_of(step) == entries[i].name
                &&& data_of(step).len() == entries[i].size
                &&& forall|k: int|
                    0 <= k < entries[i].size ==> #[trigger] data_of(step)[k]
                        == bytes[entries[i].offset + k]
            },
{
    let views = driver_views(drivers);
    let steps = step_views(contents.steps@);
    lemma_steps(bytes, entries, views, 0, count);
    assert(steps.len() == contents.steps@.len());
    assert forall|i: int| 0 <= i < count implies {
        let step = #[trigger] contents.steps@[i];
        &&& name_of(step) == entries[i].name
        &&& data_of(step).len() == entries[i].size
        &&& forall|k: int|
            0 <= k < entries[i].size ==> #[trigger] data_of(step)[k] == bytes[entries[i].offset
                + k]
    } by {
        assert(steps[i] == contents.steps@[i]@);
        assert(is_there(bytes, entries[i]));
        let data = entry_data(bytes, entries[i])->0;
        assert(steps[i] == step_of(entries[i].name, data, views));
        assert(data_of(contents.steps@[i]) == data);
    }
}

proof fn lemma_steps(
    bytes: Seq<u8>,
    entries: Seq<EntryView>,
    drivers: Seq<DriverView>,
    from: int,
    count: int,
)
    requires
        0 <= from <= count <= entries.len(),
        forall|i: int| from <= i < count ==> is_there(bytes, #[trigger] entries[i]),
        count < entries.len() ==> !is_there(bytes, entries[count]),
    ensures
        steps_of(bytes, entries, drivers, from).0.len() == count - from,
        steps_of(bytes, entries, drivers, from).1 == (if count < entries.len() {
            Some(Flaw::ContainerCutShort)
        } else {
            None
        }),
        forall|i: int|
            0 <= i < count - from ==> #[trigger] steps_of(bytes, entries, drivers, from).0[i]
                == step_of(
                entries[from + i].name,
                entry_data(bytes, entries[from + i])->0,
                drivers,
            ),
    decreases count - from,
{
    if from < count {
        assert(is_there(bytes, entries[from]));
        lemma_steps(bytes, entries, drivers, from + 1, count);
        let rest = steps_of(bytes, entries, drivers, from + 1);
        let all = steps_of(bytes, entries, drivers, from);
        assert forall|i: int| 0 <= i < count - from implies #[trigger] all.0[i] == step_of(
            entries[from + i].name,
            entry_data(bytes, entries[from + i])->0,
            drivers,
        ) by {
            if i > 0 {
                assert(all.0[i] == rest.0[i - 1]);
            }
        }
    }
}

/// Nothing is unpacked of a container whose index cannot be read.
pub proof fn broken_containers_give_nothing(
    bytes: Seq<u8>,
    drivers: Seq<Box<dyn AssetDriver>>,
    flaw: Flaw,
    contents: Contents,
)
    requires
        step_views(contents.steps@) == unpacking(bytes, driver_views(drivers)).0,
        contents.flaw == unpacking(bytes, driver_views(drivers)).1,
        stored_index(bytes) == Err::<Seq<EntryView>, Flaw>(flaw),
    ensures
        contents.steps@.len() == 0,
        contents.flaw == Some(flaw),
{
    assert(step_views(contents.steps@).len() == contents.steps@.len());
}

} // verus!
