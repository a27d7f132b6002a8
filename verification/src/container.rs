//! CXPK: the container of all the blobs and files.
//!
//! A container is the magic and the number of files in four bytes; then for each file its name in
//! 64 bytes, filled up with zeros, and the offset and the size of its data in four bytes each; then
//! the data of the files.
use vstd::prelude::*;
use vstd::string::*;
use vstd::utf8::{
    decode_utf8, encode_scalar, encode_utf8, encode_utf8_decode_utf8, encode_utf8_valid_utf8,
    valid_utf8,
};

use crate::bytes::{
    copy_range, has_at, holds_at, joined, le32, lemma_has_at_nested, lemma_has_at_parts,
    lemma_even_parts, lemma_has_at_within, lemma_joined_at, lemma_joined_len, lemma_joined_push,
    lemma_u32_at, push_bytes, push_u32, read_u32, u32_at,
};
use crate::driver::AssetDriver;
use crate::fault::{packed_as, AssetError, Fault, Flaw};
use crate::raster::push_zeros;
use crate::text::{ends_in, trim_nul, trimmed, trimmed_front, without_end};

verus! {

/// What a container begins with: "CXPK".
pub const CXPK_MAGIC: [u8; 4] = [67u8, 88, 80, 75];

/// A file of a container.
pub struct PackedFile {
    pub name: String,
    pub data: Vec<u8>,
}

/// What a [`PackedFile`] says.
#[verifier::ext_equal]
pub struct FileView {
    pub name: Seq<char>,
    pub data: Seq<u8>,
}

impl View for PackedFile {
    type V = FileView;

    open spec fn view(&self) -> FileView {
        FileView { name: self.name@, data: self.data@ }
    }
}

/// What the files say.
pub open spec fn file_views(files: Seq<PackedFile>) -> Seq<FileView> {
    Seq::new(files.len(), |i: int| files[i]@)
}

/// The field of a name: its first 63 bytes at most, filled up with zeros.
pub open spec fn name_field(name: Seq<char>) -> Seq<u8> {
    let bytes = encode_utf8(name);
    let kept = if bytes.len() < 63 {
        bytes
    } else {
        bytes.take(63)
    };
    kept + Seq::new((64 - kept.len()) as nat, |i: int| 0u8)
}

/// The data of each file.
pub open spec fn data_parts(files: Seq<FileView>) -> Seq<Seq<u8>> {
    Seq::new(files.len(), |i: int| files[i].data)
}

/// Where the data of a file begins.
pub open spec fn offset_of(files: Seq<FileView>, i: int) -> int {
    8 + 72 * files.len() as int + joined(data_parts(files).take(i)).len()
}

/// The index entry of each file.
pub open spec fn index_parts(files: Seq<FileView>) -> Seq<Seq<u8>> {
    Seq::new(
        files.len(),
        |i: int|
            name_field(files[i].name) + le32(offset_of(files, i) as u32) + le32(
                files[i].data.len() as u32,
            ),
    )
}

/// The container of the files.
pub open spec fn container_bytes(files: Seq<FileView>) -> Seq<u8> {
    CXPK_MAGIC@ + le32(files.len() as u32) + joined(index_parts(files)) + joined(
        data_parts(files),
    )
}

/// The first file from `from` on whose size cannot be said in its field.
pub open spec fn first_too_large(files: Seq<FileView>, from: int) -> Option<int>
    decreases files.len() - from,
{
    if from < 0 || from >= files.len() {
        None
    } else if files[from].data.len() > u32::MAX {
        Some(from)
    } else {
        first_too_large(files, from + 1)
    }
}

/// What putting the files into a container comes to.
pub open spec fn packing(files: Seq<FileView>) -> Result<Seq<u8>, Fault> {
    match first_too_large(files, 0) {
        Some(index) => Err(Fault::Flawed(Flaw::FileTooLarge { index: index as usize })),
        None => Ok(container_bytes(files)),
    }
}

/// Stores the field of a name.
fn push_name(out: &mut Vec<u8>, name: &String)
    ensures
        final(out)@ == old(out)@ + name_field(name@),
{
    let bytes: &[u8] = name.as_str().as_bytes();
    let count: usize = if bytes.len() < 63 {
        bytes.len()
    } else {
        63
    };
    let kept = copy_range(bytes, 0, count);
    proof {
        assert(bytes@ == encode_utf8(name@));
        assert(kept@ =~= bytes@.take(count as int));
        assert(bytes@.take(bytes@.len() as int) =~= bytes@);
    }
    push_bytes(out, kept.as_slice());
    push_zeros(out, (64 - count) as u64);
    assert(out@ =~= old(out)@ + name_field(name@));
}

/// Puts files into a container.
pub fn pack_container(files: &Vec<PackedFile>) -> (outcome: Result<Vec<u8>, AssetError>)
    ensures
        packed_as(outcome, packing(file_views(files@))),
{
    let ghost views = file_views(files@);
    let mut k: usize = 0;
    while k < files.len()
        invariant
            views == file_views(files@),
            k <= files@.len(),
            forall|j: int| 0 <= j < k ==> (#[trigger] views[j]).data.len() <= u32::MAX,
            first_too_large(views, 0) == first_too_large(views, k as int),
        decreases files@.len() - k,
    {
        assert(views[k as int].data == files@[k as int].data@);
        if files[k].data.len() as u64 > u32::MAX as u64 {
            return Err(AssetError::Flawed(Flaw::FileTooLarge { index: k }));
        }
        k = k + 1;
    }
    let mut out: Vec<u8> = Vec::new();
    push_bytes(&mut out, CXPK_MAGIC.as_slice());
    push_u32(&mut out, files.len() as u32);
    let ghost head = out@;
    let ghost index = index_parts(views);
    let ghost datas = data_parts(views);
    let mut offset: u128 = 8 + 72 * (files.len() as u128);
    let mut i: usize = 0;
    assert(index.take(0) =~= Seq::<Seq<u8>>::empty());
    assert(datas.take(0) =~= Seq::<Seq<u8>>::empty());
    assert(out@ =~= head + joined(index.take(0)));
    while i < files.len()
        invariant
            views == file_views(files@),
            index == index_parts(views),
            datas == data_parts(views),
            forall|j: int| 0 <= j < files@.len() ==> (#[trigger] views[j]).data.len() <= u32::MAX,
            i <= files@.len(),
            offset == offset_of(views, i as int),
            offset <= 8 + 72 * usize::MAX + i * u32::MAX,
            out@ == head + joined(index.take(i as int)),
        decreases files@.len() - i,
    {
        let file: &PackedFile = &files[i];
        assert(views[i as int] == file@);
        push_name(&mut out, &file.name);
        push_u32(&mut out, offset as u32);
        push_u32(&mut out, file.data.len() as u32);
        proof {
            lemma_joined_push(index.take(i as int), index[i as int]);
            assert(index.take(i + 1) =~= index.take(i as int).push(index[i as int]));
            lemma_joined_push(datas.take(i as int), datas[i as int]);
            assert(datas.take(i + 1) =~= datas.take(i as int).push(datas[i as int]));
            assert(out@ =~= head + joined(index.take(i + 1)));
            assert(i * u32::MAX + u32::MAX == (i + 1) * u32::MAX) by (nonlinear_arith);
            assert(i * u32::MAX <= usize::MAX * u32::MAX) by (nonlinear_arith)
                requires
                    0 <= i <= usize::MAX,
            ;
        }
        offset = offset + file.data.len() as u128;
        i = i + 1;
    }
    assert(index.take(i as int) =~= index);
    let ghost front = out@;
    let mut j: usize = 0;
    assert(out@ =~= front + joined(datas.take(0)));
    while j < files.len()
        invariant
            views == file_views(files@),
            datas == data_parts(views),
            j <= files@.len(),
            out@ == front + joined(datas.take(j as int)),
        decreases files@.len() - j,
    {
        push_bytes(&mut out, files[j].data.as_slice());
        proof {
            assert(datas[j as int] == files@[j as int].data@);
            lemma_joined_push(datas.take(j as int), datas[j as int]);
            assert(datas.take(j + 1) =~= datas.take(j as int).push(datas[j as int]));
            assert(out@ =~= front + joined(datas.take(j + 1)));
        }
        j = j + 1;
    }
    assert(datas.take(j as int) =~= datas);
    Ok(out)
}

/// The text that bytes are read as, what is no UTF-8 being replaced.
pub uninterp spec fn lossy_text(bytes: Seq<u8>) -> Seq<char>;

/// Reads bytes as a text with `String::from_utf8_lossy`: the same bytes give the same text, and
/// valid UTF-8 gives the text that it encodes.
#[verifier::external_body]
fn read_text(bytes: &[u8]) -> (text: String)
    ensures
        text@ == lossy_text(bytes@),
        valid_utf8(bytes@) ==> text@ == decode_utf8(bytes@),
{
    String::from_utf8_lossy(bytes).into_owned()
}

/// The text of a name field: what it encodes, or what it is read as where it is no UTF-8.
pub open spec fn field_text(bytes: Seq<u8>) -> Seq<char> {
    if valid_utf8(bytes) {
        decode_utf8(bytes)
    } else {
        lossy_text(bytes)
    }
}

/// An entry of the index of a container.
pub struct IndexEntry {
    pub name: String,
    pub offset: u32,
    pub size: u32,
}

/// What an [`IndexEntry`] says.
#[verifier::ext_equal]
pub struct EntryView {
    pub name: Seq<char>,
    pub offset: u32,
    pub size: u32,
}

impl View for IndexEntry {
    type V = EntryView;

    open spec fn view(&self) -> EntryView {
        EntryView { name: self.name@, offset: self.offset, size: self.size }
    }
}

/// What the entries say.
pub open spec fn entry_views(entries: Seq<IndexEntry>) -> Seq<EntryView> {
    Seq::new(entries.len(), |i: int| entries[i]@)
}

/// The index entry stored at `at`; the name goes without the zeros around it.
pub open spec fn entry_at(bytes: Seq<u8>, at: int) -> EntryView {
    EntryView {
        name: trimmed(field_text(bytes.subrange(at, at + 64))),
        offset: u32_at(bytes, at + 64),
        size: u32_at(bytes, at + 68),
    }
}

/// The index of a container.
pub open spec fn stored_index(bytes: Seq<u8>) -> Result<Seq<EntryView>, Flaw> {
    if bytes.len() < 4 {
        Err(Flaw::ContainerCutShort)
    } else if !has_at(bytes, 0, CXPK_MAGIC@) {
        Err(Flaw::BadMagic)
    } else if bytes.len() < 8 || 8 + 72 * u32_at(bytes, 4) > bytes.len() {
        Err(Flaw::ContainerCutShort)
    } else {
        Ok(Seq::new(u32_at(bytes, 4) as nat, |i: int| entry_at(bytes, 8 + 72 * i)))
    }
}

/// Reads the index of a container.
pub fn read_index(bytes: &[u8]) -> (outcome: Result<Vec<IndexEntry>, Flaw>)
    ensures
        match stored_index(bytes@) {
            Ok(entries) => outcome matches Ok(found) && entry_views(found@) == entries,
            Err(flaw) => outcome == Err::<Vec<IndexEntry>, Flaw>(flaw),
        },
{
    assert(bytes@.len() == bytes.len());
    if bytes.len() < 4 {
        return Err(Flaw::ContainerCutShort);
    }
    if !holds_at(bytes, 0, CXPK_MAGIC.as_slice()) {
        return Err(Flaw::BadMagic);
    }
    if bytes.len() < 8 {
        return Err(Flaw::ContainerCutShort);
    }
    let count: u32 = read_u32(bytes, 4);
    if 8 + 72 * (count as u128) > bytes.len() as u128 {
        return Err(Flaw::ContainerCutShort);
    }
    let ghost all = stored_index(bytes@)->Ok_0;
    let mut entries: Vec<IndexEntry> = Vec::new();
    let mut i: u32 = 0;
    assert(entry_views(entries@) =~= all.take(0));
    while i < count
        invariant
            bytes@.len() == bytes.len(),
            8 + 72 * count <= bytes@.len(),
            all.len() == count,
            forall|k: int| 0 <= k < count ==> #[trigger] all[k] == entry_at(bytes@, 8 + 72 * k),
            i <= count,
            entry_views(entries@) == all.take(i as int),
        decreases count - i,
    {
        let ghost before = entry_views(entries@);
        let at: usize = 8 + 72 * (i as usize);
        let field = copy_range(bytes, at, at + 64);
        let text = read_text(field.as_slice());
        let name = trim_nul(text.as_str());
        let offset: u32 = read_u32(bytes, at + 64);
        let size: u32 = read_u32(bytes, at + 68);
        entries.push(IndexEntry { name, offset, size });
        i = i + 1;
        assert(entry_views(entries@) =~= before.push(all[i - 1]));
        assert(all.take(i as int) =~= all.take(i - 1).push(all[i - 1]));
    }
    assert(all.take(i as int) =~= all);
    Ok(entries)
}

/// The data of an entry, `None` where the container ends early.
pub open spec fn entry_data(bytes: Seq<u8>, entry: EntryView) -> Option<Seq<u8>> {
    if entry.size == 0 {
        Some(Seq::empty())
    } else if entry.offset + entry.size > bytes.len() {
        None
    } else {
        Some(bytes.subrange(entry.offset as int, entry.offset + entry.size))
    }
}

/// What a driver says of itself.
pub struct DriverView {
    pub magic: Seq<u8>,
    pub extension: Seq<char>,
    pub entry: Seq<char>,
}

/// What the drivers say of themselves.
pub open spec fn driver_views(drivers: Seq<Box<dyn AssetDriver>>) -> Seq<DriverView> {
    Seq::new(
        drivers.len(),
        |i: int|
            DriverView {
                magic: drivers[i].magic_bytes(),
                extension: drivers[i].extension_text(),
                entry: drivers[i].entry_text(),
            },
    )
}

/// The first driver from `from` on whose blobs begin like the data.
pub open spec fn driver_of(data: Seq<u8>, drivers: Seq<DriverView>, from: int) -> Option<int>
    decreases drivers.len() - from,
{
    if from < 0 || from >= drivers.len() {
        None
    } else if has_at(data, 0, drivers[from].magic) {
        Some(from)
    } else {
        driver_of(data, drivers, from + 1)
    }
}

/// What to do with an entry of a container: unpack its data into a folder, or write it as a file.
pub enum Step {
    Asset { driver: usize, name: String, folder: String, data: Vec<u8> },
    Raw { name: String, data: Vec<u8> },
}

/// What a [`Step`] says.
#[verifier::ext_equal]
pub enum StepView {
    Asset { driver: int, name: Seq<char>, folder: Seq<char>, data: Seq<u8> },
    Raw { name: Seq<char>, data: Seq<u8> },
}

impl View for Step {
    type V = StepView;

    open spec fn view(&self) -> StepView {
        match self {
            Step::Asset { driver, name, folder, data } => StepView::Asset {
                driver: *driver as int,
                name: name@,
                folder: folder@,
                data: data@,
            },
            Step::Raw { name, data } => StepView::Raw { name: name@, data: data@ },
        }
    }
}

/// What the steps say.
pub open spec fn step_views(steps: Seq<Step>) -> Seq<StepView> {
    Seq::new(steps.len(), |i: int| steps[i]@)
}

/// What to do with a file of a container. It is unpacked where a driver knows its data by the
/// magic and the name ends in that driver's extension; the folder is named by what comes before.
pub open spec fn step_of(name: Seq<char>, data: Seq<u8>, drivers: Seq<DriverView>) -> StepView {
    match driver_of(data, drivers, 0) {
        Some(driver) => if ends_in(name, drivers[driver].extension) {
            StepView::Asset {
                driver,
                name,
                folder: name.take(name.len() - drivers[driver].extension.len()),
                data,
            }
        } else {
            StepView::Raw { name, data }
        },
        None => StepView::Raw { name, data },
    }
}

/// The steps of the entries from `from` on, up to the first whose data is not all there, and
/// whether there is such an entry.
pub open spec fn steps_of(
    bytes: Seq<u8>,
    entries: Seq<EntryView>,
    drivers: Seq<DriverView>,
    from: int,
) -> (Seq<StepView>, Option<Flaw>)
    decreases entries.len() - from,
{
    if from < 0 || from >= entries.len() {
        (Seq::empty(), None)
    } else {
        match entry_data(bytes, entries[from]) {
            None => (Seq::empty(), Some(Flaw::ContainerCutShort)),
            Some(data) => {
                let rest = steps_of(bytes, entries, drivers, from + 1);
                (seq![step_of(entries[from].name, data, drivers)] + rest.0, rest.1)
            },
        }
    }
}

/// What unpacking a container comes to: the steps, and what is wrong behind them.
pub open spec fn unpacking(bytes: Seq<u8>, drivers: Seq<DriverView>) -> (
    Seq<StepView>,
    Option<Flaw>,
) {
    match stored_index(bytes) {
        Err(flaw) => (Seq::empty(), Some(flaw)),
        Ok(entries) => steps_of(bytes, entries, drivers, 0),
    }
}

/// Decides what to do with a file of a container.
pub fn choose_step(name: String, data: Vec<u8>, drivers: &Vec<Box<dyn AssetDriver>>) -> (step:
    Step)
    ensures
        step@ == step_of(name@, data@, driver_views(drivers@)),
{
    let ghost views = driver_views(drivers@);
    let mut d: usize = 0;
    while d < drivers.len() && !holds_at(data.as_slice(), 0, drivers[d].magic().as_slice())
        invariant
            views == driver_views(drivers@),
            d <= drivers@.len(),
            driver_of(data@, views, 0) == driver_of(data@, views, d as int),
        decreases drivers@.len() - d,
    {
        assert(views[d as int].magic == drivers@[d as int].magic_bytes());
        d = d + 1;
    }
    if d < drivers.len() {
        assert(views[d as int].magic == drivers@[d as int].magic_bytes());
        if let Some(folder) = without_end(name.as_str(), drivers[d].extension()) {
            return Step::Asset { driver: d, name, folder, data };
        }
    }
    Step::Raw { name, data }
}

/// What to do with the files of a container, and what is wrong behind them.
pub struct Contents {
    pub steps: Vec<Step>,
    pub flaw: Option<Flaw>,
}

/// Says what to do with each file of a container in turn, up to the first that is not all there.
pub fn unpack_container(bytes: &[u8], drivers: &Vec<Box<dyn AssetDriver>>) -> (contents: Contents)
    ensures
        step_views(contents.steps@) == unpacking(bytes@, driver_views(drivers@)).0,
        contents.flaw == unpacking(bytes@, driver_views(drivers@)).1,
{
    assert(bytes@.len() == bytes.len());
    let ghost views = driver_views(drivers@);
    let mut steps: Vec<Step> = Vec::new();
    assert(step_views(steps@) =~= Seq::<StepView>::empty());
    let entries = match read_index(bytes) {
        Ok(entries) => entries,
        Err(flaw) => return Contents { steps, flaw: Some(flaw) },
    };
    let ghost index = entry_views(entries@);
    let ghost all = steps_of(bytes@, index, views, 0);
    let mut i: usize = 0;
    assert(step_views(steps@) + all.0 =~= all.0);
    while i < entries.len()
        invariant
            bytes@.len() == bytes.len(),
            views == driver_views(drivers@),
            index == entry_views(entries@),
            all == steps_of(bytes@, index, views, 0),
            unpacking(bytes@, views) == all,
            i <= entries@.len(),
            ({
                let rest = steps_of(bytes@, index, views, i as int);
                &&& step_views(steps@) + rest.0 == all.0
                &&& rest.1 == all.1
            }),
        decreases entries@.len() - i,
    {
        let ghost rest = steps_of(bytes@, index, views, i as int);
        let entry: &IndexEntry = &entries[i];
        assert(index[i as int] == entry@);
        let mut data: Vec<u8> = Vec::new();
        if entry.size > 0 {
            if entry.offset as u64 + entry.size as u64 > bytes.len() as u64 {
                assert(step_views(steps@) =~= all.0);
                return Contents { steps, flaw: Some(Flaw::ContainerCutShort) };
            }
            data =
            copy_range(
                bytes,
                entry.offset as usize,
                entry.offset as usize + entry.size as usize,
            );
        }
        assert(entry_data(bytes@, entry@) == Some(data@));
        let ghost before = step_views(steps@);
        let step = choose_step(entry.name.clone(), data, drivers);
        steps.push(step);
        proof {
            let next = steps_of(bytes@, index, views, i + 1);
            assert(step_views(steps@) =~= before.push(step@));
            assert(rest.0 == seq![step@] + next.0);
            assert(step_views(steps@) + next.0 =~= before + rest.0);
        }
        i = i + 1;
    }
    assert(step_views(steps@) =~= all.0);
    Contents { steps, flaw: None }
}

/// That many NUL characters.
spec fn nuls(count: nat) -> Seq<char> {
    Seq::new(count, |i: int| '\0')
}

/// NUL characters behind a text become zeros behind its bytes.
proof fn lemma_nuls_encode(text: Seq<char>, count: nat)
    ensures
        encode_utf8(text + nuls(count)) == encode_utf8(text) + Seq::new(count, |i: int| 0u8),
    decreases text.len(), count,
{
    let zeros = Seq::new(count, |i: int| 0u8);
    if text.len() > 0 {
        lemma_nuls_encode(text.drop_first(), count);
        assert((text + nuls(count)).drop_first() =~= text.drop_first() + nuls(count));
        assert(encode_utf8(text + nuls(count)) =~= encode_utf8(text) + zeros);
    } else if count > 0 {
        let fewer = (count - 1) as nat;
        lemma_nuls_encode(text, fewer);
        assert((text + nuls(count)).drop_first() =~= text + nuls(fewer));
        assert((0u32 & 0x7F) as u8 == 0) by (bit_vector);
        assert(encode_scalar(0) =~= seq![0u8]);
        assert(zeros =~= seq![0u8] + Seq::new(fewer, |i: int| 0u8));
        assert(encode_utf8(text + nuls(count)) =~= encode_utf8(text) + zeros);
    } else {
        assert(text + nuls(count) =~= text);
        assert(encode_utf8(text) + zeros =~= encode_utf8(text));
    }
}

/// The NUL characters behind a text are trimmed away, those of a text that has none at its ends
/// and no others.
proof fn lemma_nuls_trimmed(text: Seq<char>, count: nat)
    requires
        text.len() > 0 ==> text[0] != '\0' && text.last() != '\0',
    ensures
        trimmed(text + nuls(count)) == text,
    decreases count,
{
    let all = text + nuls(count);
    if text.len() > 0 {
        assert(trimmed_front(all) == all);
        if count > 0 {
            let fewer = (count - 1) as nat;
            lemma_nuls_trimmed(text, fewer);
            assert(all.drop_last() =~= text + nuls(fewer));
            assert(trimmed_front(all.drop_last()) == all.drop_last());
        } else {
            assert(all =~= text);
        }
    } else if count > 0 {
        let fewer = (count - 1) as nat;
        lemma_nuls_trimmed(text, fewer);
        assert(all.drop_first() =~= text + nuls(fewer));
    } else {
        assert(all =~= text);
    }
}

/// Whether a name can be stored: it takes no more bytes than its field leaves, and has no NUL
/// characters at its ends.
pub open spec fn name_fits(name: Seq<char>) -> bool {
    &&& encode_utf8(name).len() <= 63
    &&& name.len() > 0 ==> name[0] != '\0' && name.last() != '\0'
}

/// A stored name reads back.
pub proof fn name_reads_back(name: Seq<char>)
    requires
        name_fits(name),
    ensures
        name_field(name).len() == 64,
        trimmed(field_text(name_field(name))) == name,
{
    let bytes = encode_utf8(name);
    let count = (64 - bytes.len()) as nat;
    assert(bytes.take(bytes.len() as int) =~= bytes);
    lemma_nuls_encode(name, count);
    assert(name_field(name) == encode_utf8(name + nuls(count)));
    encode_utf8_valid_utf8(name + nuls(count));
    encode_utf8_decode_utf8(name + nuls(count));
    lemma_nuls_trimmed(name, count);
}

/// Whether files can be stored: their number, their sizes and the offsets of their data can be said
/// in their fields, and their names fit.
pub open spec fn storable(files: Seq<FileView>) -> bool {
    &&& files.len() <= u32::MAX
    &&& forall|i: int|
        0 <= i < files.len() ==> {
            &&& name_fits((#[trigger] files[i]).name)
            &&& files[i].data.len() <= u32::MAX
            &&& offset_of(files, i) <= u32::MAX
        }
}

/// The fields of an index entry read back.
pub proof fn lemma_fields_read_back(bytes: Seq<u8>, at: int, field: Seq<u8>, offset: u32, size: u32)
    requires
        field.len() == 64,
        has_at(bytes, at, field + le32(offset) + le32(size)),
    ensures
        bytes.subrange(at, at + 64) == field,
        u32_at(bytes, at + 64) == offset,
        u32_at(bytes, at + 68) == size,
{
    lemma_has_at_parts(bytes, at, field + le32(offset), le32(size));
    lemma_has_at_parts(bytes, at, field, le32(offset));
    lemma_u32_at(bytes, at + 64, offset);
    lemma_u32_at(bytes, at + 68, size);
}

/// Every index entry takes 72 bytes.
proof fn lemma_index_parts(files: Seq<FileView>)
    ensures
        forall|k: int|
            0 <= k < files.len() ==> (#[trigger] index_parts(files)[k]).len() == 72,
{
    assert forall|k: int| 0 <= k < files.len() implies (#[trigger] index_parts(files)[k]).len()
        == 72 by {
        assert(name_field(files[k].name).len() == 64);
    }
}

/// Each index entry stands in its place.
pub proof fn lemma_entry_stands(bytes: Seq<u8>, files: Seq<FileView>, i: int)
    requires
        0 <= i < files.len(),
        has_at(bytes, 8, joined(index_parts(files))),
    ensures
        joined(index_parts(files)).len() == 72 * files.len(),
        has_at(bytes, 8 + 72 * i, index_parts(files)[i]),
{
    lemma_index_parts(files);
    lemma_joined_len(index_parts(files), 72);
    lemma_even_parts(bytes, 8, index_parts(files), 72, i);
}

/// An index entry reads back.
pub proof fn lemma_entry_reads_back(bytes: Seq<u8>, files: Seq<FileView>, i: int)
    requires
        storable(files),
        0 <= i < files.len(),
        has_at(bytes, 8, joined(index_parts(files))),
    ensures
        joined(index_parts(files)).len() == 72 * files.len(),
        entry_at(bytes, 8 + 72 * i) == (EntryView {
            name: files[i].name,
            offset: offset_of(files, i) as u32,
            size: files[i].data.len() as u32,
        }),
{
    lemma_entry_stands(bytes, files, i);
    name_reads_back(files[i].name);
    lemma_fields_read_back(
        bytes,
        8 + 72 * i,
        name_field(files[i].name),
        offset_of(files, i) as u32,
        files[i].data.len() as u32,
    );
}

/// The index of a container of files.
pub open spec fn index_of(files: Seq<FileView>) -> Seq<EntryView> {
    Seq::new(
        files.len(),
        |i: int|
            EntryView {
                name: files[i].name,
                offset: offset_of(files, i) as u32,
                size: files[i].data.len() as u32,
            },
    )
}

/// The data of a file reads back.
proof fn lemma_data_reads_back(bytes: Seq<u8>, files: Seq<FileView>, i: int)
    requires
        storable(files),
        0 <= i < files.len(),
        has_at(bytes, 8 + 72 * files.len() as int, joined(data_parts(files))),
    ensures
        entry_data(bytes, index_of(files)[i]) == Some(files[i].data),
{
    let parts = data_parts(files);
    let start = 8 + 72 * files.len() as int;
    lemma_joined_at(parts, i);
    lemma_has_at_nested(
        bytes,
        start,
        joined(parts),
        joined(parts.take(i)).len() as int,
        parts[i],
    );
    assert(has_at(bytes, offset_of(files, i), files[i].data));
    if files[i].data.len() == 0 {
        assert(files[i].data =~= Seq::<u8>::empty());
    }
}

/// The steps of the files from `from` on.
proof fn lemma_steps(
    bytes: Seq<u8>,
    entries: Seq<EntryView>,
    files: Seq<FileView>,
    drivers: Seq<DriverView>,
    from: int,
)
    requires
        entries.len() == files.len(),
        0 <= from <= files.len(),
        forall|i: int|
            0 <= i < files.len() ==> (#[trigger] entries[i]).name == files[i].name && entry_data(
                bytes,
                entries[i],
            ) == Some(files[i].data),
    ensures
        steps_of(bytes, entries, drivers, from) == (
            file_steps(files, drivers).skip(from),
            None::<Flaw>,
        ),
    decreases files.len() - from,
{
    let all = file_steps(files, drivers);
    if from < files.len() {
        lemma_steps(bytes, entries, files, drivers, from + 1);
        assert(entries[from].name == files[from].name);
        assert(all.skip(from) =~= seq![all[from]] + all.skip(from + 1));
    } else {
        assert(all.skip(from) =~= Seq::<StepView>::empty());
    }
}

/// What to do with each of the files.
pub open spec fn file_steps(files: Seq<FileView>, drivers: Seq<DriverView>) -> Seq<StepView> {
    Seq::new(files.len(), |i: int| step_of(files[i].name, files[i].data, drivers))
}

/// The magic, the number of files, the index and the data of a container stand in a row.
pub proof fn lemma_container_stands(files: Seq<FileView>)
    requires
        files.len() <= u32::MAX,
    ensures
        has_at(container_bytes(files), 0, CXPK_MAGIC@),
        u32_at(container_bytes(files), 4) == files.len(),
        has_at(container_bytes(files), 8, joined(index_parts(files))),
        joined(index_parts(files)).len() == 72 * files.len(),
        has_at(container_bytes(files), 8 + 72 * files.len() as int, joined(data_parts(files))),
        container_bytes(files).len() == 8 + 72 * files.len() + joined(data_parts(files)).len(),
{
    let bytes = container_bytes(files);
    let head = CXPK_MAGIC@ + le32(files.len() as u32);
    let index = joined(index_parts(files));
    let data = joined(data_parts(files));
    lemma_has_at_within(Seq::empty(), head, index + data);
    assert(Seq::<u8>::empty() + head + (index + data) =~= bytes);
    lemma_has_at_parts(bytes, 0, CXPK_MAGIC@, le32(files.len() as u32));
    lemma_u32_at(bytes, 4, files.len() as u32);
    lemma_has_at_within(head, index, data);
    lemma_index_parts(files);
    lemma_joined_len(index_parts(files), 72);
    lemma_has_at_within(head + index, data, Seq::empty());
    assert(head + index + data + Seq::<u8>::empty() =~= bytes);
}

/// Unpacking a container gives every file that was put into it, with its name and its data, in
/// order.
pub proof fn unpacking_undoes_packing(files: Seq<FileView>, drivers: Seq<DriverView>)
    requires
        storable(files),
    ensures
        stored_index(container_bytes(files)) == Ok::<Seq<EntryView>, Flaw>(index_of(files)),
        unpacking(container_bytes(files), drivers) == (
            file_steps(files, drivers),
            None::<Flaw>,
        ),
{
    let bytes = container_bytes(files);
    let head = CXPK_MAGIC@ + le32(files.len() as u32);
    let index = joined(index_parts(files));
    let data = joined(data_parts(files));
    lemma_has_at_within(Seq::empty(), head, index + data);
    assert(Seq::<u8>::empty() + head + (index + data) =~= bytes);
    lemma_has_at_parts(bytes, 0, CXPK_MAGIC@, le32(files.len() as u32));
    lemma_u32_at(bytes, 4, files.len() as u32);
    lemma_has_at_within(head, index, data);
    assert(index.len() == 72 * files.len()) by {
        if files.len() > 0 {
            lemma_entry_reads_back(bytes, files, 0);
        }
    }
    lemma_has_at_within(head + index, data, Seq::empty());
    assert(head + index + data + Seq::<u8>::empty() =~= bytes);
    assert forall|i: int| 0 <= i < files.len() implies #[trigger] entry_at(bytes, 8 + 72 * i)
        == index_of(files)[i] by {
        lemma_entry_reads_back(bytes, files, i);
    }
    assert(stored_index(bytes)->Ok_0 =~= index_of(files));
    let entries = index_of(files);
    assert forall|i: int| 0 <= i < files.len() implies (#[trigger] entries[i]).name
        == files[i].name && entry_data(bytes, entries[i]) == Some(files[i].data) by {
        lemma_data_reads_back(bytes, files, i);
    }
    lemma_steps(bytes, entries, files, drivers, 0);
    assert(file_steps(files, drivers).skip(0) =~= file_steps(files, drivers));
}

} // verus!
