//! CXAN: an animation, its frames laid out on pages.
//!
//! A blob is the magic, the number of pages and of frames in two bytes each, the frame rate as a
//! float of four bytes, and the offsets of the pages and of the frame map; then the pages, and for
//! each frame its page and its cell on it. A page is its magic, its columns and rows in two bytes
//! each, the dimensions of a frame and the length of its PNG in four bytes each, and the PNG.
use vstd::arithmetic::div_mod::{lemma_fundamental_div_mod, lemma_fundamental_div_mod_converse};
use vstd::prelude::*;
use vstd::string::*;
use vstd::utf8::{encode_utf8, is_ascii_chars, is_ascii_chars_encode_utf8};

use crate::bytes::{
    copy_range, has_at, holds_at, joined, le16, le32, lemma_has_at_nested, lemma_has_at_parts,
    lemma_has_at_within, lemma_joined_at, lemma_joined_len, lemma_joined_push, lemma_u16_at,
    lemma_u32_at, push_bytes, push_u16, push_u32, read_u16, read_u32, u16_at, u32_at,
};
use crate::codec::{
    can_decode_bytes, covers_bytes, decode_guessed, decoded_png, encode_file, encode_png, file_of,
    file_picture, lemma_png_is_covered, payload_picture, png_named, stored_faithfully, stream_of,
    DECODE_LIMIT,
};
use crate::driver::{deeds, lemma_deeds_push, AssetDriver, Deed, Effect, Unpacked, Unpacking};
use crate::fault::{packed_as, AssetError, Fault, Flaw};
use crate::raster::{first_missing, loaded, rasters, Image, Raster};
use crate::sheet::{
    cell_x, cell_y, compose, lemma_cell_inside, lemma_sheet_cell, of_size, sheet, shown,
};
use crate::sort::{
    ascending, goes_before, has_place, lemma_bytes_differ, lemma_name_irreflexive, lemma_one_order,
    name_before, name_views, order_by_name, order_lists_everything_once, strictly_named,
};
use crate::text::{
    lemma_padded_digits, lemma_padded_order, padded, padded_text, same_but_for_case,
    same_text_but_for_case, ten_to,
};
use crate::tree::{read_toml, toml_tree, Node, Tree};

verus! {

/// What a blob begins with: "CXAN".
pub const CXAN_MAGIC: [u8; 4] = [67u8, 88, 65, 78];

/// What a page begins with: "CXAP".
pub const CXAP_MAGIC: [u8; 4] = [67u8, 88, 65, 80];

/// The most pixels that a page has in a row or a column.
pub const MAX_TEX: u32 = 16384;

/// The driver of animations.
pub struct CxanDriver;

impl AssetDriver for CxanDriver {
    open spec fn magic_bytes(&self) -> Seq<u8> {
        CXAN_MAGIC@
    }

    open spec fn extension_text(&self) -> Seq<char> {
        ".cxan"@
    }

    open spec fn entry_text(&self) -> Seq<char> {
        "animation.entry"@
    }

    fn magic(&self) -> &[u8; 4] {
        &CXAN_MAGIC
    }

    fn extension(&self) -> &str {
        ".cxan"
    }

    fn entry_file(&self) -> &str {
        "animation.entry"
    }
}

/// The bits of the double 24.0, the frame rate of a description that names none.
pub const DEFAULT_FPS_BITS: u64 = 0x4038_0000_0000_0000;

/// The frame rate in a description, as the bits of a double.
pub open spec fn fps_in(tree: Tree) -> u64 {
    match tree.named_number("fps"@) {
        Some(bits) => bits,
        None => DEFAULT_FPS_BITS,
    }
}

/// The frame rate that a description names, read as TOML.
pub open spec fn described_fps(text: Seq<char>) -> Result<u64, Fault> {
    match toml_tree(text) {
        None => Err(Fault::Toml),
        Some(tree) => Ok(fps_in(tree)),
    }
}

/// Reads the frame rate from a description, as the bits of a double.
pub fn load_animation_config(text: &str) -> (outcome: Result<u64, AssetError>)
    ensures
        match described_fps(text@) {
            Ok(bits) => outcome == Ok::<u64, AssetError>(bits),
            Err(fault) => outcome matches Err(error) && error.fault() == fault,
        },
{
    match read_toml(text) {
        Ok(document) => Ok(animation_fps(&document)),
        Err(error) => Err(AssetError::Toml(error)),
    }
}

/// The frame rate in a description that was read, as the bits of a double.
pub fn animation_fps(document: &Node) -> (bits: u64)
    ensures
        bits == fps_in(document.tree()),
{
    match document.get_number("fps") {
        Some(bits) => bits,
        None => DEFAULT_FPS_BITS,
    }
}

/// A file of a folder: its name and the extension of its name, each where it is valid Unicode.
pub struct FolderEntry {
    pub file_name: Option<String>,
    pub extension: Option<String>,
}

/// Whether a file is a frame: its extension is `png`, in upper or lower case.
pub open spec fn is_frame(entry: FolderEntry) -> bool {
    entry.extension matches Some(extension) && same_but_for_case(extension@, "png"@)
}

/// The names of the files.
pub open spec fn file_names(entries: Seq<FolderEntry>) -> Seq<Option<Seq<char>>> {
    Seq::new(
        entries.len(),
        |i: int|
            match entries[i].file_name {
                Some(name) => Some(name@),
                None => None,
            },
    )
}

/// Whether the positions are those of all the frames, in the order of their names.
pub open spec fn selects_frames(entries: Seq<FolderEntry>, selected: Seq<usize>) -> bool {
    &&& forall|a: int|
        0 <= a < selected.len() ==> (#[trigger] selected[a]) < entries.len() && is_frame(
            entries[selected[a] as int],
        )
    &&& forall|i: int|
        #![trigger entries[i]]
        0 <= i < entries.len() && is_frame(entries[i]) ==> has_place(selected, i)
    &&& ascending(file_names(entries), selected)
}

/// Picks the frames among the files of a folder, in the order of their names.
pub fn select_frames(entries: &Vec<FolderEntry>) -> (selected: Vec<usize>)
    ensures
        selects_frames(entries@, selected@),
{
    let mut chosen: Vec<usize> = Vec::new();
    let mut names: Vec<Option<String>> = Vec::new();
    let ghost all = file_names(entries@);
    let mut i: usize = 0;
    while i < entries.len()
        invariant
            all == file_names(entries@),
            i <= entries@.len(),
            chosen@.len() == names@.len(),
            forall|a: int|
                0 <= a < chosen@.len() ==> (#[trigger] chosen@[a]) < i && is_frame(
                    entries@[chosen@[a] as int],
                ) && name_views(names@)[a] == all[chosen@[a] as int],
            forall|a: int, b: int|
                0 <= a < b < chosen@.len() ==> #[trigger] chosen@[a] < #[trigger] chosen@[b],
            forall|k: int|
                #![trigger entries@[k]]
                0 <= k < i && is_frame(entries@[k]) ==> has_place(chosen@, k),
        decreases entries@.len() - i,
    {
        let ghost before = chosen@;
        let ghost names_before = names@;
        let wanted: bool = match &entries[i].extension {
            Some(extension) => same_text_but_for_case(extension.as_str(), "png"),
            None => false,
        };
        if wanted {
            let name: Option<String> = match &entries[i].file_name {
                Some(name) => Some(name.clone()),
                None => None,
            };
            chosen.push(i);
            names.push(name);
        }
        proof {
            assert forall|a: int| 0 <= a < chosen@.len() implies (#[trigger] chosen@[a]) < i + 1
                && is_frame(entries@[chosen@[a] as int]) && name_views(names@)[a]
                == all[chosen@[a] as int] by {
                if a < before.len() {
                    assert(chosen@[a] == before[a]);
                    assert(names@[a] == names_before[a]);
                    assert(name_views(names_before)[a] == all[before[a] as int]);
                }
            }
            assert forall|k: int|
                #![trigger entries@[k]]
                0 <= k < i + 1 && is_frame(entries@[k]) implies has_place(chosen@, k) by {
                if k < i {
                    assert(has_place(before, k));
                    let a = choose|a: int| 0 <= a < before.len() && #[trigger] before[a] == k;
                    assert(chosen@[a] == k);
                } else {
                    assert(chosen@[chosen@.len() - 1] == k);
                }
            }
        }
        i = i + 1;
    }
    let order = order_by_name(&names);
    let ghost sub = name_views(names@);
    proof {
        order_lists_everything_once(sub, order@);
    }
    let mut selected: Vec<usize> = Vec::new();
    let mut k: usize = 0;
    while k < order.len()
        invariant
            k <= order@.len(),
            order@.len() == chosen@.len(),
            selected@.len() == k,
            forall|a: int| 0 <= a < order@.len() ==> (#[trigger] order@[a]) < chosen@.len(),
            forall|a: int| 0 <= a < k ==> #[trigger] selected@[a] == chosen@[order@[a] as int],
        decreases order@.len() - k,
    {
        selected.push(chosen[order[k]]);
        k = k + 1;
    }
    proof {
        assert forall|a: int, b: int| 0 <= a < b < selected@.len() implies goes_before(
            all,
            #[trigger] selected@[a] as int,
            #[trigger] selected@[b] as int,
        ) by {
            let p = order@[a] as int;
            let q = order@[b] as int;
            assert(goes_before(sub, p, q));
            assert(sub[p] == all[chosen@[p] as int]);
            assert(sub[q] == all[chosen@[q] as int]);
            if p < q {
                assert(chosen@[p] < chosen@[q]);
            }
        }
        assert forall|i: int|
            #![trigger entries@[i]]
            0 <= i < entries@.len() && is_frame(entries@[i]) implies has_place(selected@, i) by {
            assert(has_place(chosen@, i));
            let a = choose|a: int| 0 <= a < chosen@.len() && #[trigger] chosen@[a] == i;
            assert(has_place(order@, a));
            let b = choose|b: int| 0 <= b < order@.len() && #[trigger] order@[b] == a;
            assert(selected@[b] == i);
        }
    }
    selected
}

/// The names of the selected files.
pub open spec fn selected_names(entries: Seq<FolderEntry>, selected: Seq<usize>) -> Seq<
    Option<Seq<char>>,
> {
    Seq::new(selected.len(), |k: int| file_names(entries)[selected[k] as int])
}

/// Whether there is a frame with the name.
pub open spec fn has_frame(entries: Seq<FolderEntry>, name: Option<Seq<char>>) -> bool {
    exists|i: int|
        #![trigger entries[i]]
        0 <= i < entries.len() && is_frame(entries[i]) && file_names(entries)[i] == name
}

/// Whether no two frames have the same name.
pub open spec fn distinct_frames(entries: Seq<FolderEntry>) -> bool {
    forall|i: int, j: int|
        0 <= i < j < entries.len() && is_frame(#[trigger] entries[i]) && is_frame(
            #[trigger] entries[j],
        ) ==> file_names(entries)[i] != file_names(entries)[j]
}

/// The names of the selected files are those of all the frames, in strict order.
proof fn lemma_selected_names(entries: Seq<FolderEntry>, selected: Seq<usize>)
    requires
        selects_frames(entries, selected),
        distinct_frames(entries),
    ensures
        strictly_named(selected_names(entries, selected), |name: Option<Seq<char>>| name),
        forall|name: Option<Seq<char>>| #[trigger]
            has_frame(entries, name) == selected_names(entries, selected).contains(name),
{
    let names = selected_names(entries, selected);
    let all = file_names(entries);
    assert forall|a: int, b: int| 0 <= a < b < names.len() implies name_before(
        #[trigger] names[a],
        #[trigger] names[b],
    ) by {
        let i = selected[a] as int;
        let j = selected[b] as int;
        assert(goes_before(all, i, j));
        assert(is_frame(entries[i]) && is_frame(entries[j]));
    }
    assert forall|name: Option<Seq<char>>| #[trigger]
        has_frame(entries, name) == names.contains(name) by {
        if has_frame(entries, name) {
            let i = choose|i: int|
                #![trigger entries[i]]
                0 <= i < entries.len() && is_frame(entries[i]) && all[i] == name;
            assert(has_place(selected, i));
            let a = choose|a: int| 0 <= a < selected.len() && #[trigger] selected[a] == i;
            assert(names[a] == name);
        }
        if names.contains(name) {
            let a = choose|a: int| 0 <= a < names.len() && names[a] == name;
            assert(is_frame(entries[selected[a] as int]));
        }
    }
}

/// Two listings of the same folder select the same frames in the same order.
pub proof fn listings_select_alike(
    first: Seq<FolderEntry>,
    second: Seq<FolderEntry>,
    first_selected: Seq<usize>,
    second_selected: Seq<usize>,
)
    requires
        distinct_frames(first),
        distinct_frames(second),
        forall|name: Option<Seq<char>>| #[trigger]
            has_frame(first, name) == has_frame(second, name),
        selects_frames(first, first_selected),
        selects_frames(second, second_selected),
    ensures
        selected_names(first, first_selected) == selected_names(second, second_selected),
{
    let a = selected_names(first, first_selected);
    let b = selected_names(second, second_selected);
    lemma_selected_names(first, first_selected);
    lemma_selected_names(second, second_selected);
    assert forall|i: int| 0 <= i < a.len() implies b.contains(#[trigger] a[i]) by {
        assert(a.contains(a[i]));
        assert(has_frame(first, a[i]) == has_frame(second, a[i]));
    }
    assert forall|i: int| 0 <= i < b.len() implies a.contains(#[trigger] b[i]) by {
        assert(b.contains(b[i]));
        assert(has_frame(first, b[i]) == has_frame(second, b[i]));
    }
    lemma_one_order(a, b, |name: Option<Seq<char>>| name);
}

/// What the selected files decode to.
pub open spec fn selected_pictures(
    entries: Seq<FolderEntry>,
    contents: Seq<Seq<u8>>,
    selected: Seq<usize>,
) -> Seq<Option<Raster>> {
    Seq::new(
        selected.len(),
        |k: int|
            file_picture(
                file_names(entries)[selected[k] as int]->0,
                contents[selected[k] as int],
            ),
    )
}

/// Whether frames of the same name have the same contents in two listings.
pub open spec fn same_contents(
    first: Seq<FolderEntry>,
    first_contents: Seq<Seq<u8>>,
    second: Seq<FolderEntry>,
    second_contents: Seq<Seq<u8>>,
) -> bool {
    forall|i: int, j: int|
        #![trigger first[i], second[j]]
        0 <= i < first.len() && 0 <= j < second.len() && is_frame(first[i]) && is_frame(second[j])
            && file_names(first)[i] == file_names(second)[j] ==> first_contents[i]
            == second_contents[j]
}

/// Two listings of the same folder load the same pictures in the same order.
pub proof fn listings_load_alike(
    first: Seq<FolderEntry>,
    first_contents: Seq<Seq<u8>>,
    first_selected: Seq<usize>,
    second: Seq<FolderEntry>,
    second_contents: Seq<Seq<u8>>,
    second_selected: Seq<usize>,
)
    requires
        distinct_frames(first),
        distinct_frames(second),
        forall|name: Option<Seq<char>>| #[trigger]
            has_frame(first, name) == has_frame(second, name),
        same_contents(first, first_contents, second, second_contents),
        selects_frames(first, first_selected),
        selects_frames(second, second_selected),
    ensures
        selected_pictures(first, first_contents, first_selected) == selected_pictures(
            second,
            second_contents,
            second_selected,
        ),
{
    listings_select_alike(first, second, first_selected, second_selected);
    let a = selected_names(first, first_selected);
    let b = selected_names(second, second_selected);
    let x = selected_pictures(first, first_contents, first_selected);
    let y = selected_pictures(second, second_contents, second_selected);
    assert(a.len() == first_selected.len() && b.len() == second_selected.len());
    assert forall|k: int| 0 <= k < x.len() implies x[k] == y[k] by {
        assert(a[k] == b[k]);
        let i = first_selected[k] as int;
        let j = second_selected[k] as int;
        assert(is_frame(first[i]) && is_frame(second[j]));
    }
    assert(x =~= y);
}

/// The first frame from `from` on that has other dimensions than the first of all.
pub open spec fn first_of_other_size(frames: Seq<Option<Raster>>, from: int) -> Option<int>
    decreases frames.len() - from,
{
    if from < 0 || from >= frames.len() {
        None
    } else if frames[from]->0.width != frames[0]->0.width || frames[from]->0.height
        != frames[0]->0.height {
        Some(from)
    } else {
        first_of_other_size(frames, from + 1)
    }
}

/// What is wrong with the frames of a folder.
pub open spec fn frames_flaw(frames: Seq<Option<Raster>>) -> Option<Flaw> {
    if frames.len() == 0 {
        Some(Flaw::NoFrames)
    } else {
        match first_missing(frames, 0) {
            Some(index) => Some(Flaw::Unreadable { index: index as usize }),
            None => match first_of_other_size(frames, 1) {
                Some(index) => Some(
                    Flaw::FrameSizeDiffers {
                        index: index as usize,
                        width: frames[index]->0.width,
                        height: frames[index]->0.height,
                        first_width: frames[0]->0.width,
                        first_height: frames[0]->0.height,
                    },
                ),
                None => None,
            },
        }
    }
}

/// Gathers the frames of a folder, `None` standing for one that could not be read or decoded, and
/// sees to it that there is one and that they all have the same dimensions.
pub fn load_png_frames(frames: Vec<Option<Image>>) -> (outcome: Result<Vec<Image>, AssetError>)
    ensures
        match frames_flaw(loaded(frames@)) {
            Some(flaw) => outcome matches Err(error) && error.fault() == Fault::Flawed(flaw),
            None => outcome matches Ok(images) && {
                &&& images@.len() == frames@.len()
                &&& images@.len() > 0
                &&& forall|i: int|
                    0 <= i < images@.len() ==> Some((#[trigger] images@[i])@) == loaded(
                        frames@,
                    )[i]
                &&& forall|i: int|
                    0 <= i < images@.len() ==> (#[trigger] images@[i]).width == images@[0].width
                        && images@[i].height == images@[0].height
            },
        },
{
    if frames.len() == 0 {
        return Err(AssetError::Flawed(Flaw::NoFrames));
    }
    let ghost views = loaded(frames@);
    let mut rest: Vec<Option<Image>> = frames;
    let mut images: Vec<Image> = Vec::new();
    let mut i: usize = 0;
    while i < rest.len()
        invariant
            views == loaded(frames@),
            views.len() == rest@.len(),
            views.len() > 0,
            i <= rest@.len(),
            images@.len() == i,
            forall|k: int| i <= k < rest@.len() ==> #[trigger] loaded(rest@)[k] == views[k],
            forall|k: int| 0 <= k < i ==> Some((#[trigger] images@[k])@) == views[k],
            first_missing(views, 0) == first_missing(views, i as int),
        decreases rest@.len() - i,
    {
        let ghost before = rest@;
        assert(loaded(rest@)[i as int] == views[i as int]);
        let taken: Option<Image> = rest[i].take();
        match taken {
            Some(image) => images.push(image),
            None => return Err(AssetError::Flawed(Flaw::Unreadable { index: i })),
        }
        proof {
            assert forall|k: int| i + 1 <= k < rest@.len() implies #[trigger] loaded(rest@)[k]
                == views[k] by {
                assert(rest@[k] == before[k]);
                assert(loaded(before)[k] == views[k]);
            }
        }
        i = i + 1;
    }
    let width: u32 = images[0].width;
    let height: u32 = images[0].height;
    assert(views[0] == Some(images@[0]@));
    let mut k: usize = 1;
    while k < images.len()
        invariant
            views == loaded(frames@),
            0 < images@.len() == views.len(),
            width == images@[0].width,
            height == images@[0].height,
            views[0] == Some(images@[0]@),
            1 <= k <= images@.len(),
            forall|j: int| 0 <= j < images@.len() ==> Some((#[trigger] images@[j])@) == views[j],
            forall|j: int|
                0 <= j < k ==> (#[trigger] images@[j]).width == width && images@[j].height == height,
            first_of_other_size(views, 1) == first_of_other_size(views, k as int),
            first_missing(views, 0) is None,
        decreases images@.len() - k,
    {
        assert(views[k as int] == Some(images@[k as int]@));
        if images[k].width != width || images[k].height != height {
            return Err(
                AssetError::Flawed(
                    Flaw::FrameSizeDiffers {
                        index: k,
                        width: images[k].width,
                        height: images[k].height,
                        first_width: width,
                        first_height: height,
                    },
                ),
            );
        }
        k = k + 1;
    }
    Ok(images)
}

/// The most columns of cells that a page has.
pub open spec fn most_cols(width: u32) -> int {
    MAX_TEX as int / width as int
}

/// The most cells that a page has.
pub open spec fn cells_per_page(width: u32, height: u32) -> int {
    most_cols(width) * (MAX_TEX as int / height as int)
}

/// The number of pages that this many frames take.
pub open spec fn chunk_count(count: int, cells: int) -> int {
    (count + cells - 1) / cells
}

/// The frames of a page.
pub open spec fn chunk(frames: Seq<Raster>, cells: int, page: int) -> Seq<Raster> {
    frames.subrange(
        page * cells,
        if (page + 1) * cells < frames.len() {
            (page + 1) * cells
        } else {
            frames.len() as int
        },
    )
}

/// The columns of a page of this many frames.
pub open spec fn page_cols(count: int, width: u32) -> int {
    if most_cols(width) < count {
        most_cols(width)
    } else {
        count
    }
}

/// The rows of a page of this many frames.
pub open spec fn page_rows(count: int, width: u32) -> int {
    (count + page_cols(count, width) - 1) / page_cols(count, width)
}

/// The picture of a page with these frames.
pub open spec fn page_sheet(frames: Seq<Raster>, width: u32, height: u32) -> Raster {
    sheet(
        frames,
        page_cols(frames.len() as int, width),
        page_rows(frames.len() as int, width),
        width,
        height,
    )
}

/// A page as it is stored.
#[verifier::ext_equal]
pub struct PageView {
    pub cols: u16,
    pub rows: u16,
    pub width: u32,
    pub height: u32,
    pub png: Seq<u8>,
}

/// A page as bytes.
pub open spec fn page_bytes(page: PageView) -> Seq<u8> {
    CXAP_MAGIC@ + le16(page.cols) + le16(page.rows) + le32(page.width) + le32(page.height) + le32(
        page.png.len() as u32,
    ) + page.png
}

/// The page of these frames.
pub open spec fn page_of(frames: Seq<Raster>, width: u32, height: u32) -> PageView {
    PageView {
        cols: page_cols(frames.len() as int, width) as u16,
        rows: page_rows(frames.len() as int, width) as u16,
        width,
        height,
        png: stream_of(page_sheet(frames, width, height)),
    }
}

/// The first `count` pages of an animation.
pub open spec fn pages_of(
    frames: Seq<Raster>,
    width: u32,
    height: u32,
    count: int,
) -> Seq<PageView> {
    Seq::new(
        count as nat,
        |p: int| page_of(chunk(frames, cells_per_page(width, height), p), width, height),
    )
}

/// The bytes of each page.
pub open spec fn page_parts(pages: Seq<PageView>) -> Seq<Seq<u8>> {
    Seq::new(pages.len(), |p: int| page_bytes(pages[p]))
}

/// The page and the cell of each of the first `count` frames.
pub open spec fn map_of(count: int, cells: int) -> Seq<(u16, u16)> {
    Seq::new(count as nat, |i: int| ((i / cells) as u16, (i % cells) as u16))
}

/// The bytes of each entry of a frame map.
pub open spec fn map_parts(map: Seq<(u16, u16)>) -> Seq<Seq<u8>> {
    Seq::new(map.len(), |i: int| le16(map[i].0) + le16(map[i].1))
}

/// The header of a blob.
pub open spec fn header_bytes(pages: u16, frames: u16, fps: u32, map_offset: u32) -> Seq<u8> {
    CXAN_MAGIC@ + le16(pages) + le16(frames) + le32(fps) + le32(20) + le32(map_offset)
}

/// The blob of the pages and the frame map; `fps` is the bits of the frame rate.
pub open spec fn cxan_blob(fps: u32, pages: Seq<PageView>, map: Seq<(u16, u16)>) -> Seq<u8> {
    let body = joined(page_parts(pages));
    header_bytes(pages.len() as u16, map.len() as u16, fps, (20 + body.len()) as u32) + body
        + joined(map_parts(map))
}

/// The pages of an animation.
pub open spec fn all_pages(frames: Seq<Raster>, width: u32, height: u32) -> Seq<PageView> {
    pages_of(
        frames,
        width,
        height,
        chunk_count(frames.len() as int, cells_per_page(width, height)),
    )
}

/// The blob of an animation; `fps` is the bits of the frame rate.
pub open spec fn animation_blob(fps: u32, frames: Seq<Raster>) -> Seq<u8> {
    let width = frames[0].width;
    let height = frames[0].height;
    cxan_blob(
        fps,
        all_pages(frames, width, height),
        map_of(frames.len() as int, cells_per_page(width, height)),
    )
}

/// What packing an animation comes to.
pub open spec fn packing(fps: u32, frames: Seq<Raster>) -> Result<Seq<u8>, Fault> {
    if frames.len() > u16::MAX {
        Err(Fault::Flawed(Flaw::TooManyFrames))
    } else if frames[0].width > MAX_TEX || frames[0].height > MAX_TEX {
        Err(Fault::Flawed(Flaw::FrameTooLarge))
    } else {
        Ok(animation_blob(fps, frames))
    }
}

/// Whether the frames can be packed: there is one, they have the same dimensions, and these are
/// not zero unless there are too many frames anyway.
pub open spec fn packable(frames: Seq<Raster>) -> bool {
    &&& frames.len() > 0
    &&& of_size(frames, frames[0].width, frames[0].height)
    &&& frames.len() <= u16::MAX ==> frames[0].width > 0 && frames[0].height > 0
}

/// Whether the picture of every page decodes to itself.
pub open spec fn pages_faithful(frames: Seq<Raster>, width: u32, height: u32) -> bool {
    let cells = cells_per_page(width, height);
    forall|p: int|
        0 <= p < chunk_count(frames.len() as int, cells) ==> page_faithful(
            #[trigger] chunk(frames, cells, p),
            width,
            height,
        )
}

/// Whether the picture of a page decodes to itself.
pub open spec fn page_faithful(frames: Seq<Raster>, width: u32, height: u32) -> bool {
    stored_faithfully(
        page_sheet(frames, width, height),
        stream_of(page_sheet(frames, width, height)),
    )
}

/// The cells of a page: there are some, and a page has no more than fit.
pub proof fn lemma_cells(width: u32, height: u32)
    requires
        0 < width <= MAX_TEX,
        0 < height <= MAX_TEX,
    ensures
        1 <= most_cols(width) <= MAX_TEX,
        1 <= MAX_TEX as int / height as int <= MAX_TEX,
        most_cols(width) * width <= MAX_TEX,
        (MAX_TEX as int / height as int) * height <= MAX_TEX,
        1 <= cells_per_page(width, height) <= 0x1000_0000,
{
    let cols = most_cols(width);
    let rows = MAX_TEX as int / height as int;
    lemma_fundamental_div_mod(MAX_TEX as int, width as int);
    lemma_fundamental_div_mod(MAX_TEX as int, height as int);
    assert(1 <= cols <= 16384 && cols * width <= 16384) by (nonlinear_arith)
        requires
            0 < width <= 16384,
            cols == 16384int / width as int,
    ;
    assert(1 <= rows <= 16384 && rows * height <= 16384) by (nonlinear_arith)
        requires
            0 < height <= 16384,
            rows == 16384int / height as int,
    ;
    assert(1 <= cols * rows <= 0x1000_0000) by (nonlinear_arith)
        requires
            1 <= cols <= 16384,
            1 <= rows <= 16384,
    ;
}

/// A page has room for its frames and keeps to the largest dimensions.
pub proof fn lemma_page_shape(count: int, width: u32, height: u32)
    requires
        0 < width <= MAX_TEX,
        0 < height <= MAX_TEX,
        0 < count <= cells_per_page(width, height),
    ensures
        1 <= page_cols(count, width) <= MAX_TEX,
        page_cols(count, width) <= count,
        1 <= page_rows(count, width) <= MAX_TEX,
        count <= page_cols(count, width) * page_rows(count, width),
        page_cols(count, width) * width <= MAX_TEX,
        page_rows(count, width) * height <= MAX_TEX,
        0 < page_cols(count, width) * width,
        0 < page_rows(count, width) * height,
{
    lemma_cells(width, height);
    let most = most_cols(width);
    let most_rows = MAX_TEX as int / height as int;
    let cols = page_cols(count, width);
    let rows = page_rows(count, width);
    lemma_fundamental_div_mod(count + cols - 1, cols);
    vstd::arithmetic::div_mod::lemma_mod_bound(count + cols - 1, cols);
    let left = (count + cols - 1) % cols;
    assert(count + cols - 1 == cols * rows + left);
    assert(count <= cols * rows && 1 <= rows) by (nonlinear_arith)
        requires
            count + cols - 1 == cols * rows + left,
            0 <= left < cols,
            1 <= count,
            1 <= cols,
    ;
    if most < count {
        assert(rows <= most_rows) by (nonlinear_arith)
            requires
                cols == most,
                count <= most * most_rows,
                count + cols - 1 == cols * rows + left,
                0 <= left,
                1 <= cols,
        ;
    } else {
        assert(rows == 1) by (nonlinear_arith)
            requires
                cols == count,
                1 <= cols,
                1 <= rows,
                count + cols - 1 == cols * rows + left,
                0 <= left < cols,
        ;
    }
    assert(0 < cols * width && cols * width <= most * width) by (nonlinear_arith)
        requires
            1 <= cols <= most,
            0 < width,
    ;
    assert(0 < rows * height && rows * height <= most_rows * height) by (nonlinear_arith)
        requires
            1 <= rows <= most_rows,
            0 < height,
    ;
}

/// Packs the frames from `from` up to `to` into a page.
fn pack_page(frames: &Vec<Image>, from: usize, to: usize, width: u32, height: u32) -> (page: Vec<
    u8,
>)
    requires
        from < to <= frames@.len(),
        of_size(rasters(frames@), width, height),
        0 < width <= MAX_TEX,
        0 < height <= MAX_TEX,
        to - from <= cells_per_page(width, height),
    ensures
        page@ == page_bytes(
            page_of(rasters(frames@).subrange(from as int, to as int), width, height),
        ),
        page_faithful(rasters(frames@).subrange(from as int, to as int), width, height),
{
    let ghost part = rasters(frames@).subrange(from as int, to as int);
    let count: usize = to - from;
    proof {
        lemma_cells(width, height);
        lemma_page_shape(count as int, width, height);
    }
    let most: usize = (MAX_TEX / width) as usize;
    let cols: usize = if most < count {
        most
    } else {
        count
    };
    let rows: usize = (count + cols - 1) / cols;
    let mut cells: Vec<&Image> = Vec::new();
    let mut i: usize = from;
    while i < to
        invariant
            from <= i <= to <= frames@.len(),
            cells@.len() == i - from,
            forall|k: int| 0 <= k < cells@.len() ==> *(#[trigger] cells@[k]) == frames@[from + k],
        decreases to - i,
    {
        cells.push(&frames[i]);
        i = i + 1;
    }
    assert(shown(cells@) =~= part);
    let atlas = compose(&cells, cols as u32, rows as u32, width, height);
    let mut page: Vec<u8> = Vec::new();
    push_bytes(&mut page, CXAP_MAGIC.as_slice());
    push_u16(&mut page, cols as u16);
    push_u16(&mut page, rows as u16);
    push_u32(&mut page, width);
    push_u32(&mut page, height);
    if let Ok(png) = encode_png(&atlas) {
        push_u32(&mut page, png.len() as u32);
        push_bytes(&mut page, png.as_slice());
        assert(page@ =~= page_bytes(page_of(part, width, height)));
    }
    page
}

/// The number of pages is the one at which the frames are used up.
proof fn lemma_chunk_count(count: int, cells: int, pages: int)
    requires
        0 < cells,
        (pages - 1) * cells < count <= pages * cells,
    ensures
        chunk_count(count, cells) == pages,
{
    let left = count + cells - 1 - pages * cells;
    assert((pages - 1) * cells == pages * cells - cells) by (nonlinear_arith);
    lemma_fundamental_div_mod_converse(count + cells - 1, cells, pages, left);
}

impl CxanDriver {
    /// Packs the frames of an animation; `fps` is the bits of the frame rate.
    pub fn pack(&self, fps: u32, frames: &Vec<Image>) -> (outcome: Result<Vec<u8>, AssetError>)
        requires
            packable(rasters(frames@)),
        ensures
            packed_as(outcome, packing(fps, rasters(frames@))),
            outcome is Ok ==> pages_faithful(
                rasters(frames@),
                frames@[0].width,
                frames@[0].height,
            ),
    {
        let ghost views = rasters(frames@);
        let width: u32 = frames[0].width;
        let height: u32 = frames[0].height;
        let count: usize = frames.len();
        if count > 65535 {
            return Err(AssetError::Flawed(Flaw::TooManyFrames));
        }
        if width > MAX_TEX || height > MAX_TEX {
            return Err(AssetError::Flawed(Flaw::FrameTooLarge));
        }
        proof {
            lemma_cells(width, height);
        }
        let most: usize = (MAX_TEX / width) as usize;
        let most_down: usize = (MAX_TEX / height) as usize;
        let cells: usize = most * most_down;
        let mut body: Vec<u8> = Vec::new();
        let mut pages: usize = 0;
        let mut from: usize = 0;
        assert(page_parts(pages_of(views, width, height, 0)) =~= Seq::<Seq<u8>>::empty());
        assert(0 * cells == 0 && (0 - 1) * cells == -cells) by (nonlinear_arith);
        while from < count
            invariant
                views == rasters(frames@),
                count == frames@.len(),
                count <= 65535,
                of_size(views, width, height),
                0 < width <= MAX_TEX,
                0 < height <= MAX_TEX,
                cells == cells_per_page(width, height),
                1 <= cells <= 0x1000_0000,
                pages <= from <= count,
                (pages - 1) * cells < count,
                from == (if pages * cells < count {
                    pages * cells
                } else {
                    count as int
                }),
                body@ == joined(page_parts(pages_of(views, width, height, pages as int))),
                forall|p: int|
                    0 <= p < pages ==> page_faithful(
                        #[trigger] chunk(views, cells as int, p),
                        width,
                        height,
                    ),
            decreases count - from,
        {
            let to: usize = if count - from > cells {
                from + cells
            } else {
                count
            };
            assert((pages + 1) * cells == pages * cells + cells) by (nonlinear_arith);
            let page = pack_page(frames, from, to, width, height);
            proof {
                let done = pages_of(views, width, height, pages as int);
                let next = pages_of(views, width, height, pages + 1);
                assert(chunk(views, cells as int, pages as int) == views.subrange(
                    from as int,
                    to as int,
                ));
                assert(page_parts(next) =~= page_parts(done).push(page@));
                lemma_joined_push(page_parts(done), page@);
            }
            push_bytes(&mut body, page.as_slice());
            pages = pages + 1;
            from = to;
        }
        proof {
            lemma_chunk_count(count as int, cells as int, pages as int);
        }
        let mut blob: Vec<u8> = Vec::new();
        push_bytes(&mut blob, CXAN_MAGIC.as_slice());
        push_u16(&mut blob, pages as u16);
        push_u16(&mut blob, count as u16);
        push_u32(&mut blob, fps);
        push_u32(&mut blob, 20);
        push_u32(&mut blob, (20 + body.len() as u128) as u32);
        push_bytes(&mut blob, body.as_slice());
        let ghost map = map_of(count as int, cells as int);
        let ghost head = blob@;
        let mut i: usize = 0;
        assert(map_parts(map).take(0) =~= Seq::<Seq<u8>>::empty());
        assert(blob@ =~= head + joined(map_parts(map).take(0)));
        while i < count
            invariant
                i <= count <= 65535,
                1 <= cells,
                map == map_of(count as int, cells as int),
                blob@ == head + joined(map_parts(map).take(i as int)),
            decreases count - i,
        {
            push_u16(&mut blob, (i / cells) as u16);
            push_u16(&mut blob, (i % cells) as u16);
            proof {
                let parts = map_parts(map);
                lemma_joined_push(parts.take(i as int), parts[i as int]);
                assert(parts.take(i + 1) =~= parts.take(i as int).push(parts[i as int]));
                assert(blob@ =~= head + joined(parts.take(i + 1)));
            }
            i = i + 1;
        }
        proof {
            assert(map_parts(map).take(count as int) =~= map_parts(map));
            assert(head =~= header_bytes(
                pages as u16,
                count as u16,
                fps,
                (20 + body@.len()) as u32,
            ) + body@);
        }
        Ok(blob)
    }
}

/// A page as it is stored.
pub struct Page {
    pub cols: u16,
    pub rows: u16,
    pub width: u32,
    pub height: u32,
    pub png: Vec<u8>,
}

impl View for Page {
    type V = PageView;

    open spec fn view(&self) -> PageView {
        PageView {
            cols: self.cols,
            rows: self.rows,
            width: self.width,
            height: self.height,
            png: self.png@,
        }
    }
}

/// What the pages say.
pub open spec fn page_views(pages: Seq<Page>) -> Seq<PageView> {
    Seq::new(pages.len(), |i: int| pages[i]@)
}

/// What is wrong with the header of a blob.
pub open spec fn header_flaw(data: Seq<u8>) -> Option<Flaw> {
    if data.len() < 24 {
        Some(Flaw::TooShort)
    } else if !has_at(data, 0, CXAN_MAGIC@) {
        Some(Flaw::BadMagic)
    } else {
        None
    }
}

/// The pages stored from `at` on, as many as are there, and what is wrong with the next one.
pub open spec fn pages_at(data: Seq<u8>, at: int, count: nat) -> (Seq<PageView>, Option<Flaw>)
    decreases count,
{
    if count == 0 {
        (Seq::empty(), None)
    } else if at + 20 > data.len() {
        (Seq::empty(), Some(Flaw::PagesCutShort))
    } else if !has_at(data, at, CXAP_MAGIC@) {
        (Seq::empty(), Some(Flaw::BadPageMagic))
    } else if at + 20 + u32_at(data, at + 16) > data.len() {
        (Seq::empty(), Some(Flaw::PngCutShort))
    } else {
        let size = u32_at(data, at + 16);
        let page = PageView {
            cols: u16_at(data, at + 4),
            rows: u16_at(data, at + 6),
            width: u32_at(data, at + 8),
            height: u32_at(data, at + 12),
            png: data.subrange(at + 20, at + 20 + size),
        };
        let rest = pages_at(data, at + 20 + size, (count - 1) as nat);
        (seq![page] + rest.0, rest.1)
    }
}

/// The pages of a blob whose header is right.
pub open spec fn stored_pages(data: Seq<u8>) -> (Seq<PageView>, Option<Flaw>) {
    pages_at(data, u32_at(data, 12) as int, u16_at(data, 4) as nat)
}

/// The page and the cell of `count` frames stored from `at` on, `None` where they end early.
pub open spec fn map_at(data: Seq<u8>, at: int, count: int) -> Option<Seq<(u16, u16)>> {
    if count > 0 && at + 4 * count > data.len() {
        None
    } else {
        Some(
            Seq::new(
                count as nat,
                |i: int| (u16_at(data, at + 4 * i), u16_at(data, at + 4 * i + 2)),
            ),
        )
    }
}

/// The frame map of a blob whose header is right.
pub open spec fn stored_map(data: Seq<u8>) -> Option<Seq<(u16, u16)>> {
    map_at(data, u32_at(data, 16) as int, u16_at(data, 6) as int)
}

/// The frame rate of a blob whose header is right, as bits.
pub open spec fn stored_fps(data: Seq<u8>) -> u32 {
    u32_at(data, 8)
}

/// The first page from `from` on that does not decode.
pub open spec fn first_undecoded(pages: Seq<PageView>, from: int) -> Option<int>
    decreases pages.len() - from,
{
    if from < 0 || from >= pages.len() {
        None
    } else if payload_picture(pages[from].png) is None {
        Some(from)
    } else {
        first_undecoded(pages, from + 1)
    }
}

/// What the pages decode to: their pictures, or the first page that has none.
pub open spec fn decoded_pages(pages: Seq<PageView>) -> Result<Seq<Raster>, int> {
    match first_undecoded(pages, 0) {
        Some(failed) => Err(failed),
        None => Ok(Seq::new(pages.len(), |i: int| payload_picture(pages[i].png)->0)),
    }
}

/// Whether every page is decoded here.
pub open spec fn covers_pages(pages: Seq<PageView>) -> bool {
    forall|i: int| 0 <= i < pages.len() ==> covers_bytes((#[trigger] pages[i]).png)
}

/// Whether every page of a blob is decoded here.
pub open spec fn unpackable(data: Seq<u8>) -> bool {
    header_flaw(data) is None ==> covers_pages(stored_pages(data).0)
}

/// Whether the cell of a frame lies inside the picture of its page.
pub open spec fn is_placed(pages: Seq<PageView>, pictures: Seq<Raster>, cell: (u16, u16)) -> bool {
    let page = pages[cell.0 as int];
    let x = cell_x(cell.1 as int, page.cols as int, page.width);
    let y = cell_y(cell.1 as int, page.cols as int, page.height);
    &&& cell.0 < pages.len()
    &&& page.cols > 0
    &&& x + page.width <= pictures[cell.0 as int].width
    &&& y + page.height <= pictures[cell.0 as int].height
}

/// The picture of a frame.
pub open spec fn frame_of(
    pages: Seq<PageView>,
    pictures: Seq<Raster>,
    cell: (u16, u16),
) -> Raster {
    let page = pages[cell.0 as int];
    pictures[cell.0 as int].cropped(
        cell_x(cell.1 as int, page.cols as int, page.width),
        cell_y(cell.1 as int, page.cols as int, page.height),
        page.width,
        page.height,
    )
}

/// The number of frames, from `from` on, up to the first that is not placed inside its page.
pub open spec fn placed_count(
    pages: Seq<PageView>,
    pictures: Seq<Raster>,
    map: Seq<(u16, u16)>,
    from: int,
) -> int
    decreases map.len() - from,
{
    if from < 0 || from >= map.len() || !is_placed(pages, pictures, map[from]) {
        from
    } else {
        placed_count(pages, pictures, map, from + 1)
    }
}

/// The name of the file of a frame.
pub open spec fn frame_name(index: int) -> Seq<char> {
    "frame_"@ + padded(index as nat, 5) + ".png"@
}

/// What saving the frames from `from` up to `to` writes, and what stops it: a frame without
/// pixels leaves an empty file.
pub open spec fn saving(
    pages: Seq<PageView>,
    pictures: Seq<Raster>,
    map: Seq<(u16, u16)>,
    from: int,
    to: int,
) -> (Seq<Deed>, Option<Fault>)
    decreases to - from,
{
    if from >= to {
        (Seq::empty(), None)
    } else {
        let frame = frame_of(pages, pictures, map[from]);
        if frame.width == 0 || frame.height == 0 {
            (
                seq![Deed::WriteFile { name: frame_name(from), contents: Seq::empty() }],
                Some(Fault::Save(from)),
            )
        } else {
            let rest = saving(pages, pictures, map, from + 1, to);
            (
                seq![Deed::WriteFile { name: frame_name(from), contents: file_of(frame) }]
                    + rest.0,
                rest.1,
            )
        }
    }
}

/// Whether the frames that are saved survive it: all before the first without pixels.
pub open spec fn saved_faithfully(
    pages: Seq<PageView>,
    pictures: Seq<Raster>,
    map: Seq<(u16, u16)>,
    count: int,
) -> bool {
    forall|i: int|
        0 <= i < count && (forall|k: int|
            0 <= k <= i ==> has_pixels(frame_of(pages, pictures, #[trigger] map[k])))
            ==> stored_faithfully(
            frame_of(pages, pictures, #[trigger] map[i]),
            file_of(frame_of(pages, pictures, map[i])),
        )
}

/// Whether a picture has pixels.
pub open spec fn has_pixels(picture: Raster) -> bool {
    picture.width > 0 && picture.height > 0
}

/// What exporting the frames comes to once the pages are decoded: each frame is saved, up to the
/// first that lies outside its page.
pub open spec fn exporting(
    pages: Seq<PageView>,
    pictures: Seq<Raster>,
    map: Seq<(u16, u16)>,
    fps: u32,
) -> Unpacking<u32> {
    let placed = placed_count(pages, pictures, map, 0);
    let saved = saving(pages, pictures, map, 0, placed);
    Unpacking {
        deeds: seq![Deed::CreateFolder] + saved.0,
        outcome: match saved.1 {
            Some(fault) => Err(fault),
            None => if placed < map.len() {
                Err(Fault::Flawed(Flaw::CellOutside { index: placed as usize }))
            } else {
                Ok(fps)
            },
        },
    }
}

/// What unpacking comes to, the pages having decoded so.
pub open spec fn unpacking(data: Seq<u8>, decoded: Result<Seq<Raster>, int>) -> Unpacking<u32> {
    match header_flaw(data) {
        Some(flaw) => Unpacking { deeds: Seq::empty(), outcome: Err(Fault::Flawed(flaw)) },
        None => match decoded {
            Err(failed) => Unpacking {
                deeds: seq![Deed::CreateFolder],
                outcome: Err(Fault::Decode(failed)),
            },
            Ok(pictures) => match stored_pages(data).1 {
                Some(flaw) => Unpacking {
                    deeds: seq![Deed::CreateFolder],
                    outcome: Err(Fault::Flawed(flaw)),
                },
                None => match stored_map(data) {
                    None => Unpacking {
                        deeds: seq![Deed::CreateFolder],
                        outcome: Err(Fault::Flawed(Flaw::FrameMapCutShort)),
                    },
                    Some(map) => exporting(
                        stored_pages(data).0,
                        pictures,
                        map,
                        stored_fps(data),
                    ),
                },
            },
        },
    }
}

/// Whether the frames that unpacking saves survive it.
pub open spec fn unpacked_faithfully(data: Seq<u8>) -> bool {
    let pages = stored_pages(data);
    match (decoded_pages(pages.0), stored_map(data)) {
        (Ok(pictures), Some(map)) => header_flaw(data) is None && pages.1 is None
            ==> saved_faithfully(
            pages.0,
            pictures,
            map,
            placed_count(pages.0, pictures, map, 0),
        ),
        _ => true,
    }
}

/// A blob taken apart: the pages up to the first that is wrong, what is wrong with it, the frame
/// map where it is all there, and the bits of the frame rate.
pub struct Parsed {
    pub pages: Vec<Page>,
    pub flaw: Option<Flaw>,
    pub map: Option<Vec<(u16, u16)>>,
    pub fps: u32,
}

/// Reads the frame map.
fn parse_map(data: &[u8], at: usize, count: u16) -> (map: Option<Vec<(u16, u16)>>)
    ensures
        match map_at(data@, at as int, count as int) {
            None => map is None,
            Some(cells) => map matches Some(found) && found@ == cells,
        },
{
    let mut map: Vec<(u16, u16)> = Vec::new();
    if count == 0 {
        assert(map@ =~= map_at(data@, at as int, 0)->0);
        return Some(map);
    }
    if at > data.len() || data.len() - at < 4 * (count as usize) {
        return None;
    }
    let ghost cells = map_at(data@, at as int, count as int)->0;
    let mut i: usize = 0;
    while i < count as usize
        invariant
            at + 4 * count <= data@.len(),
            data@.len() == data.len(),
            cells.len() == count,
            forall|k: int|
                0 <= k < count ==> #[trigger] cells[k] == (
                    u16_at(data@, at + 4 * k),
                    u16_at(data@, at + 4 * k + 2),
                ),
            i <= count,
            map@ == cells.take(i as int),
        decreases count - i,
    {
        let page: u16 = read_u16(data, at + 4 * i);
        let cell: u16 = read_u16(data, at + 4 * i + 2);
        map.push((page, cell));
        i = i + 1;
        assert(map@ =~= cells.take(i as int));
    }
    assert(cells.take(i as int) =~= cells);
    Some(map)
}

/// Reads the pages up to the first that is wrong.
fn parse_pages(data: &[u8], start: usize, count: u16) -> (parsed: (Vec<Page>, Option<Flaw>))
    ensures
        page_views(parsed.0@) == pages_at(data@, start as int, count as nat).0,
        parsed.1 == pages_at(data@, start as int, count as nat).1,
{
    let ghost all = pages_at(data@, start as int, count as nat);
    let mut pages: Vec<Page> = Vec::new();
    let mut at: usize = start;
    let mut left: u16 = count;
    assert(page_views(pages@) + all.0 =~= all.0);
    while left > 0
        invariant
            all == pages_at(data@, start as int, count as nat),
            ({
                let rest = pages_at(data@, at as int, left as nat);
                &&& page_views(pages@) + rest.0 == all.0
                &&& rest.1 == all.1
            }),
        decreases left,
    {
        let ghost rest = pages_at(data@, at as int, left as nat);
        assert(data@.len() == data.len());
        if at > data.len() || data.len() - at < 20 {
            assert(page_views(pages@) =~= all.0);
            return (pages, Some(Flaw::PagesCutShort));
        }
        if !holds_at(data, at, CXAP_MAGIC.as_slice()) {
            assert(page_views(pages@) =~= all.0);
            return (pages, Some(Flaw::BadPageMagic));
        }
        let cols: u16 = read_u16(data, at + 4);
        let rows: u16 = read_u16(data, at + 6);
        let width: u32 = read_u32(data, at + 8);
        let height: u32 = read_u32(data, at + 12);
        let size: u32 = read_u32(data, at + 16);
        let from: usize = at + 20;
        if ((data.len() - from) as u64) < size as u64 {
            assert(page_views(pages@) =~= all.0);
            return (pages, Some(Flaw::PngCutShort));
        }
        let to: usize = from + size as usize;
        let png = copy_range(data, from, to);
        let ghost before = page_views(pages@);
        pages.push(Page { cols, rows, width, height, png });
        proof {
            let next = pages_at(data@, to as int, (left - 1) as nat);
            assert(page_views(pages@) =~= before.push(rest.0[0]));
            assert(rest.0 == seq![rest.0[0]] + next.0);
            assert(page_views(pages@) + next.0 =~= before + rest.0);
        }
        at = to;
        left = left - 1;
    }
    assert(page_views(pages@) =~= all.0);
    (pages, None)
}

/// What decoding came to.
pub open spec fn decoding(outcome: Result<Vec<Image>, (usize, image::ImageError)>) -> Result<
    Seq<Raster>,
    int,
> {
    match outcome {
        Ok(images) => Ok(rasters(images@)),
        Err((index, _)) => Err(index as int),
    }
}

/// Decodes the pages one after the other, up to the first that does not decode.
fn decode_pages(pages: &Vec<Page>) -> (outcome: Result<Vec<Image>, (usize, image::ImageError)>)
    requires
        covers_pages(page_views(pages@)),
    ensures
        decoding(outcome) == decoded_pages(page_views(pages@)),
        outcome matches Ok(images) ==> images@.len() == pages@.len() && forall|i: int|
            0 <= i < images@.len() ==> (#[trigger] images@[i])@.wf(),
        outcome matches Err((index, _)) ==> index < pages@.len(),
{
    let ghost views = page_views(pages@);
    let mut images: Vec<Image> = Vec::new();
    let mut i: usize = 0;
    while i < pages.len()
        invariant
            views == page_views(pages@),
            covers_pages(views),
            i <= pages@.len(),
            images@.len() == i,
            first_undecoded(views, 0) == first_undecoded(views, i as int),
            forall|k: int|
                0 <= k < i ==> payload_picture(views[k].png) == Some((#[trigger] images@[k])@)
                    && images@[k]@.wf(),
        decreases pages@.len() - i,
    {
        assert(views[i as int].png == pages@[i as int].png@);
        match decode_guessed(pages[i].png.as_slice()) {
            Ok(image) => images.push(image),
            Err(error) => return Err((i, error)),
        }
        i = i + 1;
    }
    proof {
        assert(rasters(images@) =~= decoded_pages(views)->Ok_0);
    }
    Ok(images)
}

impl CxanDriver {
    /// Takes a blob apart.
    pub fn parse(&self, data: &[u8]) -> (outcome: Result<Parsed, Flaw>)
        ensures
            match header_flaw(data@) {
                Some(flaw) => outcome == Err::<Parsed, Flaw>(flaw),
                None => outcome matches Ok(parsed) && {
                    &&& page_views(parsed.pages@) == stored_pages(data@).0
                    &&& parsed.flaw == stored_pages(data@).1
                    &&& parsed.fps == stored_fps(data@)
                    &&& match stored_map(data@) {
                        None => parsed.map is None,
                        Some(map) => parsed.map matches Some(found) && found@ == map,
                    }
                },
            },
    {
        if data.len() < 24 {
            return Err(Flaw::TooShort);
        }
        if !holds_at(data, 0, CXAN_MAGIC.as_slice()) {
            return Err(Flaw::BadMagic);
        }
        let page_count: u16 = read_u16(data, 4);
        let frame_count: u16 = read_u16(data, 6);
        let fps: u32 = read_u32(data, 8);
        let pages_offset: u32 = read_u32(data, 12);
        let map_offset: u32 = read_u32(data, 16);
        let (pages, flaw) = parse_pages(data, pages_offset as usize, page_count);
        let map = parse_map(data, map_offset as usize, frame_count);
        Ok(Parsed { pages, flaw, map, fps })
    }

    /// Says which files to write for the first `count` frames, whose cells lie inside their pages.
    pub fn save_frames(
        &self,
        pages: &Vec<Page>,
        pictures: &Vec<Image>,
        map: &Vec<(u16, u16)>,
        count: usize,
    ) -> (saved: (Vec<Effect>, Option<AssetError>))
        requires
            pictures@.len() == pages@.len(),
            forall|i: int| 0 <= i < pictures@.len() ==> (#[trigger] pictures@[i])@.wf(),
            count <= map@.len(),
            forall|i: int|
                0 <= i < count ==> is_placed(
                    page_views(pages@),
                    rasters(pictures@),
                    #[trigger] map@[i],
                ),
        ensures
            deeds(saved.0@) == saving(
                page_views(pages@),
                rasters(pictures@),
                map@,
                0,
                count as int,
            ).0,
            match saving(page_views(pages@), rasters(pictures@), map@, 0, count as int).1 {
                Some(fault) => saved.1 matches Some(error) && error.fault() == fault,
                None => saved.1 is None,
            },
            saved_faithfully(page_views(pages@), rasters(pictures@), map@, count as int),
    {
        let ghost sheets = page_views(pages@);
        let ghost shots = rasters(pictures@);
        let ghost all = saving(sheets, shots, map@, 0, count as int);
        let mut effects: Vec<Effect> = Vec::new();
        let mut i: usize = 0;
        assert(deeds(effects@) + all.0 =~= all.0);
        while i < count
            invariant
                sheets == page_views(pages@),
                shots == rasters(pictures@),
                pictures@.len() == pages@.len(),
                forall|k: int| 0 <= k < pictures@.len() ==> (#[trigger] pictures@[k])@.wf(),
                i <= count <= map@.len(),
                forall|k: int|
                    0 <= k < count ==> is_placed(sheets, shots, #[trigger] map@[k]),
                all == saving(sheets, shots, map@, 0, count as int),
                ({
                    let rest = saving(sheets, shots, map@, i as int, count as int);
                    &&& deeds(effects@) + rest.0 == all.0
                    &&& rest.1 == all.1
                }),
                forall|k: int|
                    0 <= k < i ==> stored_faithfully(
                        frame_of(sheets, shots, #[trigger] map@[k]),
                        file_of(frame_of(sheets, shots, map@[k])),
                    ),
            decreases count - i,
        {
            let ghost rest = saving(sheets, shots, map@, i as int, count as int);
            let (p, c) = map[i];
            assert(is_placed(sheets, shots, map@[i as int]));
            let page: &Page = &pages[p as usize];
            assert(sheets[p as int] == page@);
            assert(shots[p as int] == pictures@[p as int]@);
            let col: u32 = (c % page.cols) as u32;
            let row: u32 = (c / page.cols) as u32;
            let x: u32 = col * page.width;
            let y: u32 = row * page.height;
            let frame = pictures[p as usize].crop(x, y, page.width, page.height);
            let mut name: String = "frame_".to_owned();
            name.append(padded_text(i as u64, 5).as_str());
            name.append(".png");
            assert(name@ == frame_name(i as int));
            let ghost before = deeds(effects@);
            match encode_file(&frame) {
                Ok(contents) => {
                    let effect = Effect::WriteFile { name, contents };
                    proof {
                        lemma_deeds_push(effects@, effect);
                        let next = saving(sheets, shots, map@, i + 1, count as int);
                        assert(rest.0 == seq![effect@] + next.0);
                        assert(before.push(effect@) + next.0 =~= before + rest.0);
                    }
                    effects.push(effect);
                },
                Err(error) => {
                    let contents: Vec<u8> = Vec::new();
                    let effect = Effect::WriteFile { name, contents };
                    proof {
                        lemma_deeds_push(effects@, effect);
                        assert(contents@ =~= Seq::<u8>::empty());
                        assert(rest.0 =~= seq![effect@]);
                        assert(before.push(effect@) =~= before + rest.0);
                        assert(!has_pixels(frame_of(sheets, shots, map@[i as int])));
                    }
                    effects.push(effect);
                    return (effects, Some(AssetError::Save(i, error)));
                },
            }
            i = i + 1;
        }
        assert(deeds(effects@) =~= all.0);
        (effects, None)
    }

    /// Whether the cell of a frame lies inside the picture of its page.
    pub fn placed(&self, pages: &Vec<Page>, pictures: &Vec<Image>, cell: (u16, u16)) -> (placed:
        bool)
        requires
            pictures@.len() == pages@.len(),
        ensures
            placed == is_placed(page_views(pages@), rasters(pictures@), cell),
    {
        let (p, c) = cell;
        if p as usize >= pages.len() {
            return false;
        }
        let page: &Page = &pages[p as usize];
        assert(page_views(pages@)[p as int] == page@);
        assert(rasters(pictures@)[p as int] == pictures@[p as int]@);
        if page.cols == 0 {
            return false;
        }
        let picture: &Image = &pictures[p as usize];
        let col: u64 = (c % page.cols) as u64;
        let row: u64 = (c / page.cols) as u64;
        assert(0 <= col * page.width <= 65535 * u32::MAX && 0 <= row * page.height <= 65535
            * u32::MAX) by (nonlinear_arith)
            requires
                0 <= col <= 65535,
                0 <= row <= 65535,
                0 <= page.width <= u32::MAX,
                0 <= page.height <= u32::MAX,
        ;
        let right: u64 = col * (page.width as u64) + page.width as u64;
        let bottom: u64 = row * (page.height as u64) + page.height as u64;
        right <= picture.width as u64 && bottom <= picture.height as u64
    }

    /// Says what to do with a blob that was taken apart, the pages having decoded so.
    pub fn export(
        &self,
        parsed: &Parsed,
        decoded: Result<Vec<Image>, (usize, image::ImageError)>,
    ) -> (unpacked: Unpacked<u32>)
        requires
            match decoded {
                Ok(pictures) => {
                    &&& pictures@.len() == parsed.pages@.len()
                    &&& forall|i: int| 0 <= i < pictures@.len() ==> (#[trigger] pictures@[i])@.wf()
                },
                Err((index, _)) => index < parsed.pages@.len(),
            },
        ensures
            match decoded {
                Err((index, _)) => unpacked.says(
                    (Unpacking {
                        deeds: seq![Deed::CreateFolder],
                        outcome: Err(Fault::Decode(index as int)),
                    }),
                ),
                Ok(pictures) => match (parsed.flaw, parsed.map) {
                    (Some(flaw), _) => unpacked.says(
                        (Unpacking {
                            deeds: seq![Deed::CreateFolder],
                            outcome: Err(Fault::Flawed(flaw)),
                        }),
                    ),
                    (None, None) => unpacked.says(
                        (Unpacking {
                            deeds: seq![Deed::CreateFolder],
                            outcome: Err(Fault::Flawed(Flaw::FrameMapCutShort)),
                        }),
                    ),
                    (None, Some(map)) => unpacked.says(
                        exporting(
                            page_views(parsed.pages@),
                            rasters(pictures@),
                            map@,
                            parsed.fps,
                        ),
                    ) && saved_faithfully(
                        page_views(parsed.pages@),
                        rasters(pictures@),
                        map@,
                        placed_count(page_views(parsed.pages@), rasters(pictures@), map@, 0),
                    ),
                },
            },
    {
        let mut effects: Vec<Effect> = Vec::new();
        effects.push(Effect::CreateFolder);
        assert(deeds(effects@) =~= seq![Deed::CreateFolder]);
        let pictures: Vec<Image> = match decoded {
            Ok(pictures) => pictures,
            Err((index, error)) => {
                return Unpacked { effects, outcome: Err(AssetError::Decode(index, error)) };
            },
        };
        if let Some(flaw) = parsed.flaw {
            return Unpacked { effects, outcome: Err(AssetError::Flawed(flaw)) };
        }
        let map: &Vec<(u16, u16)> = match &parsed.map {
            Some(map) => map,
            None => {
                return Unpacked {
                    effects,
                    outcome: Err(AssetError::Flawed(Flaw::FrameMapCutShort)),
                };
            },
        };
        let ghost sheets = page_views(parsed.pages@);
        let ghost shots = rasters(pictures@);
        let mut count: usize = 0;
        while count < map.len() && self.placed(&parsed.pages, &pictures, map[count])
            invariant
                pictures@.len() == parsed.pages@.len(),
                sheets == page_views(parsed.pages@),
                shots == rasters(pictures@),
                count <= map@.len(),
                forall|k: int| 0 <= k < count ==> is_placed(sheets, shots, #[trigger] map@[k]),
                placed_count(sheets, shots, map@, 0) == placed_count(
                    sheets,
                    shots,
                    map@,
                    count as int,
                ),
            decreases map@.len() - count,
        {
            count = count + 1;
        }
        let (mut saved, failure) = self.save_frames(&parsed.pages, &pictures, map, count);
        let ghost first = deeds(effects@);
        let ghost second = deeds(saved@);
        effects.append(&mut saved);
        assert(deeds(effects@) =~= first + second);
        match failure {
            Some(error) => Unpacked { effects, outcome: Err(error) },
            None => if count < map.len() {
                Unpacked {
                    effects,
                    outcome: Err(AssetError::Flawed(Flaw::CellOutside { index: count })),
                }
            } else {
                Unpacked { effects, outcome: Ok(parsed.fps) }
            },
        }
    }

    /// Whether [`CxanDriver::unpack`] takes this blob: its pages are decoded here.
    pub fn can_unpack(&self, data: &[u8]) -> (can: bool)
        ensures
            can == unpackable(data@),
    {
        let parsed = match self.parse(data) {
            Ok(parsed) => parsed,
            Err(_) => return true,
        };
        let ghost stored = stored_pages(data@).0;
        let mut i: usize = 0;
        while i < parsed.pages.len()
            invariant
                header_flaw(data@) is None,
                stored == stored_pages(data@).0,
                stored == page_views(parsed.pages@),
                i <= parsed.pages@.len(),
                forall|k: int| 0 <= k < i ==> covers_bytes((#[trigger] stored[k]).png),
            decreases parsed.pages@.len() - i,
        {
            assert(stored[i as int].png == parsed.pages@[i as int].png@);
            if !can_decode_bytes(parsed.pages[i].png.as_slice()) {
                return false;
            }
            i = i + 1;
        }
        true
    }

    /// Unpacks a blob: every frame is cut out of its page and saved as a PNG file. The outcome is
    /// the bits of the frame rate, for the description.
    pub fn unpack(&self, data: &[u8]) -> (unpacked: Unpacked<u32>)
        requires
            unpackable(data@),
        ensures
            unpacked.says(unpacking(data@, decoded_pages(stored_pages(data@).0))),
            unpacked_faithfully(data@),
    {
        let parsed = match self.parse(data) {
            Ok(parsed) => parsed,
            Err(flaw) => {
                let effects: Vec<Effect> = Vec::new();
                assert(deeds(effects@) =~= Seq::<Deed>::empty());
                return Unpacked { effects, outcome: Err(AssetError::Flawed(flaw)) };
            },
        };
        let decoded = decode_pages(&parsed.pages);
        self.export(&parsed, decoded)
    }
}

/// Whether the parts of a blob keep to what its count, length and offset fields can say.
pub open spec fn storable(pages: Seq<PageView>, map: Seq<(u16, u16)>) -> bool {
    &&& pages.len() <= u16::MAX
    &&& 0 < map.len() <= u16::MAX
    &&& forall|p: int| 0 <= p < pages.len() ==> (#[trigger] pages[p]).png.len() <= u32::MAX
    &&& 20 + joined(page_parts(pages)).len() <= u32::MAX
}

/// A stored page reads back.
pub proof fn lemma_page_reads_back(data: Seq<u8>, at: int, page: PageView)
    requires
        has_at(data, at, page_bytes(page)),
        page.png.len() <= u32::MAX,
    ensures
        0 <= at,
        at + 20 + page.png.len() <= data.len(),
        has_at(data, at, CXAP_MAGIC@),
        u16_at(data, at + 4) == page.cols,
        u16_at(data, at + 6) == page.rows,
        u32_at(data, at + 8) == page.width,
        u32_at(data, at + 12) == page.height,
        u32_at(data, at + 16) == page.png.len(),
        data.subrange(at + 20, at + 20 + page.png.len()) == page.png,
{
    let size = page.png.len() as u32;
    let p1 = CXAP_MAGIC@ + le16(page.cols);
    let p2 = p1 + le16(page.rows);
    let p3 = p2 + le32(page.width);
    let p4 = p3 + le32(page.height);
    lemma_has_at_parts(data, at, p4 + le32(size), page.png);
    lemma_has_at_parts(data, at, p4, le32(size));
    lemma_has_at_parts(data, at, p3, le32(page.height));
    lemma_has_at_parts(data, at, p2, le32(page.width));
    lemma_has_at_parts(data, at, p1, le16(page.rows));
    lemma_has_at_parts(data, at, CXAP_MAGIC@, le16(page.cols));
    lemma_u16_at(data, at + 4, page.cols);
    lemma_u16_at(data, at + 6, page.rows);
    lemma_u32_at(data, at + 8, page.width);
    lemma_u32_at(data, at + 12, page.height);
    lemma_u32_at(data, at + 16, size);
}

/// The rest of the pages of a blob read back.
proof fn lemma_rest_reads_back(data: Seq<u8>, pages: Seq<PageView>, done: int)
    requires
        forall|p: int| 0 <= p < pages.len() ==> (#[trigger] pages[p]).png.len() <= u32::MAX,
        0 <= done <= pages.len(),
        has_at(data, 20, joined(page_parts(pages))),
    ensures
        pages_at(
            data,
            20 + joined(page_parts(pages).take(done)).len() as int,
            (pages.len() - done) as nat,
        ) == (pages.skip(done), None::<Flaw>),
    decreases pages.len() - done,
{
    let parts = page_parts(pages);
    if done == pages.len() {
        assert(pages.skip(done) =~= Seq::<PageView>::empty());
    } else {
        let before = joined(parts.take(done)).len() as int;
        let page = pages[done];
        lemma_rest_reads_back(data, pages, done + 1);
        lemma_joined_at(parts, done);
        lemma_has_at_nested(data, 20, joined(parts), before, parts[done]);
        assert(parts[done] == page_bytes(page));
        lemma_page_reads_back(data, 20 + before, page);
        assert(joined(parts.take(done + 1)).len() == before + 20 + page.png.len());
        assert(pages.skip(done) =~= seq![page] + pages.skip(done + 1));
    }
}

/// A stored frame map reads back.
pub proof fn lemma_map_reads_back(data: Seq<u8>, at: int, map: Seq<(u16, u16)>)
    requires
        has_at(data, at, joined(map_parts(map))),
    ensures
        map_at(data, at, map.len() as int) == Some(map),
        joined(map_parts(map)).len() == 4 * map.len(),
{
    let parts = map_parts(map);
    lemma_joined_len(parts, 4);
    assert(map_at(data, at, map.len() as int) is Some);
    let cells = map_at(data, at, map.len() as int)->0;
    assert forall|i: int| 0 <= i < map.len() implies #[trigger] cells[i] == map[i] by {
        lemma_joined_at(parts, i);
        lemma_joined_len(parts.take(i), 4);
        lemma_has_at_nested(data, at, joined(parts), 4 * i, parts[i]);
        lemma_has_at_parts(data, at + 4 * i, le16(map[i].0), le16(map[i].1));
        lemma_u16_at(data, at + 4 * i, map[i].0);
        lemma_u16_at(data, at + 4 * i + 2, map[i].1);
    }
    assert(cells =~= map);
}

/// A stored header reads back.
pub proof fn lemma_header_reads_back(data: Seq<u8>, pages: u16, frames: u16, fps: u32, offset: u32)
    requires
        has_at(data, 0, header_bytes(pages, frames, fps, offset)),
    ensures
        header_bytes(pages, frames, fps, offset).len() == 20,
        has_at(data, 0, CXAN_MAGIC@),
        u16_at(data, 4) == pages,
        u16_at(data, 6) == frames,
        u32_at(data, 8) == fps,
        u32_at(data, 12) == 20,
        u32_at(data, 16) == offset,
{
    let h1 = CXAN_MAGIC@ + le16(pages);
    let h2 = h1 + le16(frames);
    let h3 = h2 + le32(fps);
    let h4 = h3 + le32(20);
    lemma_has_at_parts(data, 0, h4, le32(offset));
    lemma_has_at_parts(data, 0, h3, le32(20));
    lemma_has_at_parts(data, 0, h2, le32(fps));
    lemma_has_at_parts(data, 0, h1, le16(frames));
    lemma_has_at_parts(data, 0, CXAN_MAGIC@, le16(pages));
    lemma_u16_at(data, 4, pages);
    lemma_u16_at(data, 6, frames);
    lemma_u32_at(data, 8, fps);
    lemma_u32_at(data, 12, 20);
    lemma_u32_at(data, 16, offset);
}

/// Three parts stand where they should.
pub proof fn lemma_three_stand(head: Seq<u8>, body: Seq<u8>, tail: Seq<u8>)
    ensures
        has_at(head + body + tail, 0, head),
        has_at(head + body + tail, head.len() as int, body),
        has_at(head + body + tail, (head + body).len() as int, tail),
{
    let all = head + body + tail;
    lemma_has_at_within(Seq::empty(), head, body + tail);
    assert(Seq::<u8>::empty() + head + (body + tail) =~= all);
    lemma_has_at_within(head, body, tail);
    lemma_has_at_within(head + body, tail, Seq::empty());
    assert(all + Seq::<u8>::empty() =~= all);
}

/// Reading a blob gives back the frame rate, the pages and the frame map that were put into it.
pub proof fn blob_reads_back(fps: u32, pages: Seq<PageView>, map: Seq<(u16, u16)>)
    requires
        storable(pages, map),
    ensures
        header_flaw(cxan_blob(fps, pages, map)) is None,
        stored_fps(cxan_blob(fps, pages, map)) == fps,
        stored_pages(cxan_blob(fps, pages, map)) == (pages, None::<Flaw>),
        stored_map(cxan_blob(fps, pages, map)) == Some(map),
{
    let blob = cxan_blob(fps, pages, map);
    let body = joined(page_parts(pages));
    let tail = joined(map_parts(map));
    let offset = (20 + body.len()) as u32;
    let head = header_bytes(pages.len() as u16, map.len() as u16, fps, offset);
    lemma_three_stand(head, body, tail);
    lemma_header_reads_back(blob, pages.len() as u16, map.len() as u16, fps, offset);
    lemma_map_reads_back(blob, offset as int, map);
    lemma_rest_reads_back(blob, pages, 0);
    assert(page_parts(pages).take(0) =~= Seq::<Seq<u8>>::empty());
    assert(pages.skip(0) =~= pages);
}

/// Where a frame stands: on which page, and in which cell of it.
pub proof fn lemma_frame_place(frames: Seq<Raster>, cells: int, i: int)
    requires
        0 < cells,
        0 <= i < frames.len(),
    ensures
        0 <= i / cells < chunk_count(frames.len() as int, cells),
        0 <= i % cells < chunk(frames, cells, i / cells).len(),
        chunk(frames, cells, i / cells)[i % cells] == frames[i],
        chunk(frames, cells, i / cells).len() <= cells,
        i / cells <= i,
        i % cells <= i,
{
    let p = i / cells;
    let c = i % cells;
    let n = frames.len() as int;
    let pages = chunk_count(n, cells);
    lemma_fundamental_div_mod(i, cells);
    vstd::arithmetic::div_mod::lemma_mod_bound(i, cells);
    lemma_fundamental_div_mod(n + cells - 1, cells);
    vstd::arithmetic::div_mod::lemma_mod_bound(n + cells - 1, cells);
    let left = (n + cells - 1) % cells;
    assert(0 <= p && p <= i) by (nonlinear_arith)
        requires
            i == cells * p + c,
            0 <= c < cells,
            0 <= i,
    ;
    assert(p < pages) by (nonlinear_arith)
        requires
            i == cells * p + c,
            0 <= c,
            i < n,
            n + cells - 1 == cells * pages + left,
            0 <= left < cells,
            0 < cells,
    ;
    assert(p * cells == cells * p && (p + 1) * cells == p * cells + cells && 0 <= p * cells)
        by (nonlinear_arith)
        requires
            0 <= p,
            0 < cells,
    ;
}

/// The frames of a page of an animation: some, and no more than fit.
pub proof fn lemma_chunk(frames: Seq<Raster>, cells: int, p: int)
    requires
        0 < cells,
        0 <= p < chunk_count(frames.len() as int, cells),
    ensures
        0 <= p * cells < frames.len(),
        0 < chunk(frames, cells, p).len() <= cells,
        p * cells + chunk(frames, cells, p).len() <= frames.len(),
        forall|k: int|
            0 <= k < chunk(frames, cells, p).len() ==> #[trigger] chunk(frames, cells, p)[k]
                == frames[p * cells + k],
{
    let n = frames.len() as int;
    let pages = chunk_count(n, cells);
    lemma_fundamental_div_mod(n + cells - 1, cells);
    vstd::arithmetic::div_mod::lemma_mod_bound(n + cells - 1, cells);
    let left = (n + cells - 1) % cells;
    assert(0 <= p * cells < n) by (nonlinear_arith)
        requires
            0 <= p < pages,
            n + cells - 1 == cells * pages + left,
            0 <= left < cells,
            0 < cells,
    ;
    assert((p + 1) * cells == p * cells + cells) by (nonlinear_arith);
}

/// Whether every page keeps to the limit of the decoder.
pub open spec fn within_limit(frames: Seq<Raster>) -> bool {
    let width = frames[0].width;
    let height = frames[0].height;
    let cells = cells_per_page(width, height);
    forall|p: int|
        0 <= p < chunk_count(frames.len() as int, cells) ==> page_sheet(
            #[trigger] chunk(frames, cells, p),
            width,
            height,
        ).size() <= DECODE_LIMIT
}

/// Whether the frames were packed into a blob whose offsets can be said in their fields.
pub open spec fn is_packed(fps: u32, frames: Seq<Raster>) -> bool {
    &&& packable(frames)
    &&& packing(fps, frames) is Ok
    &&& pages_faithful(frames, frames[0].width, frames[0].height)
    &&& animation_blob(fps, frames).len() <= u32::MAX
}

/// The frames and pages that unpacking gives back.
spec fn restorable(frames: Seq<Raster>) -> bool {
    &&& packable(frames)
    &&& frames.len() <= u16::MAX
    &&& frames[0].width <= MAX_TEX
    &&& frames[0].height <= MAX_TEX
    &&& pages_faithful(frames, frames[0].width, frames[0].height)
    &&& within_limit(frames)
}

/// The parts of a packed blob keep to what its fields can say.
pub proof fn lemma_packed_is_storable(fps: u32, frames: Seq<Raster>)
    requires
        packable(frames),
        packing(fps, frames) is Ok,
        animation_blob(fps, frames).len() <= u32::MAX,
    ensures
        storable(
            all_pages(frames, frames[0].width, frames[0].height),
            map_of(
                frames.len() as int,
                cells_per_page(frames[0].width, frames[0].height),
            ),
        ),
        all_pages(frames, frames[0].width, frames[0].height).len() == chunk_count(
            frames.len() as int,
            cells_per_page(frames[0].width, frames[0].height),
        ),
{
    let width = frames[0].width;
    let height = frames[0].height;
    let cells = cells_per_page(width, height);
    let n = frames.len() as int;
    let count = chunk_count(n, cells);
    lemma_cells(width, height);
    lemma_fundamental_div_mod(n + cells - 1, cells);
    vstd::arithmetic::div_mod::lemma_mod_bound(n + cells - 1, cells);
    let left = (n + cells - 1) % cells;
    assert(0 <= count <= n) by (nonlinear_arith)
        requires
            n + cells - 1 == cells * count + left,
            0 <= left < cells,
            1 <= n,
            1 <= cells,
    ;
    lemma_pages_are_short(fps, all_pages(frames, width, height), map_of(n, cells));
}

/// The pages of a blob are shorter than the blob.
proof fn lemma_pages_are_short(fps: u32, pages: Seq<PageView>, map: Seq<(u16, u16)>)
    ensures
        20 + joined(page_parts(pages)).len() <= cxan_blob(fps, pages, map).len(),
        forall|p: int|
            0 <= p < pages.len() ==> (#[trigger] pages[p]).png.len() <= cxan_blob(
                fps,
                pages,
                map,
            ).len(),
{
    let parts = page_parts(pages);
    assert forall|p: int| 0 <= p < pages.len() implies (#[trigger] pages[p]).png.len()
        <= joined(parts).len() by {
        lemma_joined_at(parts, p);
        assert(parts[p] == page_bytes(pages[p]));
    }
}

/// A frame is cut out of its page as it was put there.
proof fn lemma_frame_restored(frames: Seq<Raster>, pictures: Seq<Raster>, i: int)
    requires
        restorable(frames),
        decoded_pages(all_pages(frames, frames[0].width, frames[0].height)) == Ok::<
            Seq<Raster>,
            int,
        >(pictures),
        0 <= i < frames.len(),
    ensures
        ({
            let pages = all_pages(frames, frames[0].width, frames[0].height);
            let map = map_of(
                frames.len() as int,
                cells_per_page(frames[0].width, frames[0].height),
            );
            &&& is_placed(pages, pictures, map[i])
            &&& frame_of(pages, pictures, map[i]) == frames[i]
            &&& has_pixels(frames[i])
            &&& frames[i].size() <= DECODE_LIMIT
        }),
{
    let width = frames[0].width;
    let height = frames[0].height;
    let cells = cells_per_page(width, height);
    let pages = all_pages(frames, width, height);
    lemma_cells(width, height);
    lemma_frame_place(frames, cells, i);
    let p = i / cells;
    let c = i % cells;
    let part = chunk(frames, cells, p);
    let count = part.len() as int;
    let cols = page_cols(count, width);
    let rows = page_rows(count, width);
    lemma_chunk(frames, cells, p);
    lemma_page_shape(count, width, height);
    assert(of_size(part, width, height)) by {
        assert forall|k: int| 0 <= k < part.len() implies (#[trigger] part[k]).wf()
            && part[k].width == width && part[k].height == height by {
            assert(part[k] == frames[p * cells + k]);
        }
    }
    lemma_sheet_cell(part, cols, rows, width, height, c);
    lemma_cell_inside(c, cols, rows, width, height);
    let whole = page_sheet(part, width, height);
    assert(page_faithful(part, width, height));
    assert(whole.size() <= DECODE_LIMIT);
    assert(pages[p] == page_of(part, width, height));
    assert(pictures[p] == payload_picture(pages[p].png)->0);
    assert(pictures[p] == whole);
    assert(4 * (width * height) <= 4 * ((cols * width) * (rows * height))) by (nonlinear_arith)
        requires
            1 <= cols,
            1 <= rows,
            0 < width,
            0 < height,
    ;
}

/// What saving the frames comes to where each is in its place.
proof fn lemma_saving_all(
    frames: Seq<Raster>,
    pages: Seq<PageView>,
    pictures: Seq<Raster>,
    map: Seq<(u16, u16)>,
    from: int,
)
    requires
        map.len() == frames.len(),
        0 <= from <= frames.len(),
        forall|i: int|
            0 <= i < frames.len() ==> is_placed(pages, pictures, #[trigger] map[i]) && frame_of(
                pages,
                pictures,
                map[i],
            ) == frames[i] && frames[i].width > 0 && frames[i].height > 0,
    ensures
        placed_count(pages, pictures, map, from) == map.len(),
        saving(pages, pictures, map, from, map.len() as int) == (
            frame_files(frames).skip(from),
            None::<Fault>,
        ),
    decreases frames.len() - from,
{
    if from < frames.len() {
        lemma_saving_all(frames, pages, pictures, map, from + 1);
        assert(is_placed(pages, pictures, map[from]));
        assert(frame_files(frames).skip(from) =~= seq![frame_files(frames)[from]] + frame_files(
            frames,
        ).skip(from + 1));
    } else {
        assert(frame_files(frames).skip(from) =~= Seq::<Deed>::empty());
    }
}

/// The files of the frames of an animation.
pub open spec fn frame_files(frames: Seq<Raster>) -> Seq<Deed> {
    Seq::new(
        frames.len(),
        |i: int| Deed::WriteFile { name: frame_name(i), contents: file_of(frames[i]) },
    )
}

/// Every page of a packed animation decodes.
proof fn lemma_pages_decode(frames: Seq<Raster>, from: int)
    requires
        restorable(frames),
        0 <= from,
    ensures
        first_undecoded(all_pages(frames, frames[0].width, frames[0].height), from) is None,
    decreases all_pages(frames, frames[0].width, frames[0].height).len() - from,
{
    let width = frames[0].width;
    let height = frames[0].height;
    let cells = cells_per_page(width, height);
    let pages = all_pages(frames, width, height);
    if from < pages.len() {
        lemma_cells(width, height);
        let part = chunk(frames, cells, from);
        assert(page_faithful(part, width, height));
        assert(page_sheet(part, width, height).size() <= DECODE_LIMIT);
        assert(pages[from] == page_of(part, width, height));
        lemma_pages_decode(frames, from + 1);
    }
}

/// A page that does not decode is found.
proof fn lemma_undecoded(pages: Seq<PageView>, from: int, at: int)
    requires
        0 <= from <= at < pages.len(),
        payload_picture(pages[at].png) is None,
    ensures
        first_undecoded(pages, from) is Some,
    decreases at - from,
{
    if from < at {
        lemma_undecoded(pages, from + 1, at);
    }
}

/// A packed animation can be unpacked, if its pages keep to the limit of the decoder.
pub proof fn packed_is_unpackable(fps: u32, frames: Seq<Raster>)
    requires
        is_packed(fps, frames),
        within_limit(frames),
    ensures
        unpackable(animation_blob(fps, frames)),
{
    let width = frames[0].width;
    let height = frames[0].height;
    let cells = cells_per_page(width, height);
    let pages = all_pages(frames, width, height);
    lemma_packed_is_storable(fps, frames);
    assert forall|p: int| 0 <= p < pages.len() implies covers_bytes((#[trigger] pages[p]).png) by {
        let part = chunk(frames, cells, p);
        assert(page_faithful(part, width, height));
        assert(page_sheet(part, width, height).size() <= DECODE_LIMIT);
        lemma_png_is_covered(stream_of(page_sheet(part, width, height)));
    }
    blob_reads_back(fps, pages, map_of(frames.len() as int, cells));
}

/// What unpacking the blob of an animation comes to.
pub open spec fn unpacking_packed(fps: u32, frames: Seq<Raster>) -> Unpacking<u32> {
    let blob = animation_blob(fps, frames);
    unpacking(blob, decoded_pages(stored_pages(blob).0))
}

/// If unpacking a packed animation succeeds, it gives the frame rate and writes every frame in
/// order, each as a file that decodes to it. It succeeds where every page keeps to the limit of the
/// decoder.
pub proof fn unpacking_undoes_packing(fps: u32, frames: Seq<Raster>)
    requires
        is_packed(fps, frames),
        unpacked_faithfully(animation_blob(fps, frames)),
    ensures
        unpacking_packed(fps, frames).outcome is Ok == within_limit(frames),
        unpacking_packed(fps, frames).outcome is Ok ==> {
            &&& unpacking_packed(fps, frames) == (Unpacking {
                deeds: seq![Deed::CreateFolder] + frame_files(frames),
                outcome: Ok::<u32, Fault>(fps),
            })
            &&& forall|i: int|
                0 <= i < frames.len() ==> decoded_png(file_of(#[trigger] frames[i])) == Some(
                    frames[i],
                )
        },
{
    let width = frames[0].width;
    let height = frames[0].height;
    let cells = cells_per_page(width, height);
    let pages = all_pages(frames, width, height);
    let map = map_of(frames.len() as int, cells);
    lemma_packed_is_storable(fps, frames);
    blob_reads_back(fps, pages, map);
    if within_limit(frames) {
        lemma_frames_restored(fps, frames);
    } else {
        let p = choose|p: int|
            0 <= p < chunk_count(frames.len() as int, cells) && page_sheet(
                #[trigger] chunk(frames, cells, p),
                width,
                height,
            ).size() > DECODE_LIMIT;
        let part = chunk(frames, cells, p);
        assert(page_faithful(part, width, height));
        assert(pages[p] == page_of(part, width, height));
        lemma_undecoded(pages, 0, p);
    }
}

/// The frames of a packed animation whose pages keep to the limit are given back.
proof fn lemma_frames_restored(fps: u32, frames: Seq<Raster>)
    requires
        restorable(frames),
        ({
            let blob = animation_blob(fps, frames);
            let width = frames[0].width;
            let height = frames[0].height;
            &&& header_flaw(blob) is None
            &&& stored_fps(blob) == fps
            &&& stored_pages(blob) == (all_pages(frames, width, height), None::<Flaw>)
            &&& stored_map(blob) == Some(
                map_of(frames.len() as int, cells_per_page(width, height)),
            )
        }),
        unpacked_faithfully(animation_blob(fps, frames)),
    ensures
        unpacking_packed(fps, frames) == (Unpacking {
            deeds: seq![Deed::CreateFolder] + frame_files(frames),
            outcome: Ok::<u32, Fault>(fps),
        }),
        forall|i: int|
            0 <= i < frames.len() ==> decoded_png(file_of(#[trigger] frames[i])) == Some(frames[i]),
{
    let width = frames[0].width;
    let height = frames[0].height;
    let pages = all_pages(frames, width, height);
    let map = map_of(frames.len() as int, cells_per_page(width, height));
    lemma_pages_decode(frames, 0);
    let pictures = decoded_pages(pages)->Ok_0;
    assert forall|i: int| 0 <= i < frames.len() implies is_placed(
        pages,
        pictures,
        #[trigger] map[i],
    ) && frame_of(pages, pictures, map[i]) == frames[i] && frames[i].width > 0
        && frames[i].height > 0 && frames[i].size() <= DECODE_LIMIT by {
        lemma_frame_restored(frames, pictures, i);
    }
    lemma_saving_all(frames, pages, pictures, map, 0);
    assert(frame_files(frames).skip(0) =~= frame_files(frames));
    assert forall|i: int| 0 <= i < frames.len() implies decoded_png(file_of(#[trigger] frames[i]))
        == Some(frames[i]) by {
        assert(is_placed(pages, pictures, map[i]));
        assert(stored_faithfully(
            frame_of(pages, pictures, map[i]),
            file_of(frame_of(pages, pictures, map[i])),
        ));
    }
}

/// The names of the files of the frames are in the order of the frames, for as many frames as an
/// animation has.
pub proof fn frame_names_ascend(low: int, high: int)
    requires
        0 <= low < high <= u16::MAX,
    ensures
        name_before(Some(frame_name(low)), Some(frame_name(high))),
{
    reveal_strlit("frame_");
    reveal_strlit(".png");
    reveal_with_fuel(ten_to, 6);
    let a = frame_name(low);
    let b = frame_name(high);
    let at = lemma_padded_order(low as nat, high as nat, 5);
    lemma_padded_digits(low as nat, 5);
    lemma_padded_digits(high as nat, 5);
    lemma_frame_name_ascii(low);
    lemma_frame_name_ascii(high);
    is_ascii_chars_encode_utf8(a);
    is_ascii_chars_encode_utf8(b);
    assert forall|i: int| 0 <= i < 6 + at implies encode_utf8(a)[i] == encode_utf8(b)[i] by {
        if i >= 6 {
            assert(padded(low as nat, 5).take(at)[i - 6] == padded(high as nat, 5).take(at)[i - 6]);
        }
        assert(a[i] == b[i]);
    }
    assert(a[6 + at] == padded(low as nat, 5)[at]);
    assert(b[6 + at] == padded(high as nat, 5)[at]);
    lemma_bytes_differ(encode_utf8(a), encode_utf8(b), 6 + at);
}

proof fn lemma_frame_name_ascii(index: int)
    ensures
        is_ascii_chars(frame_name(index)),
{
    reveal_strlit("frame_");
    reveal_strlit(".png");
    lemma_padded_digits(index as nat, 5);
    let name = frame_name(index);
    let digits = padded(index as nat, 5);
    assert forall|i: int| 0 <= i < name.len() implies '\0' <= #[trigger] name[i] <= '\u{7f}' by {
        if 6 <= i < 6 + digits.len() {
            assert(name[i] == digits[i - 6]);
        }
    }
}

/// Whether the frames among the files are those that unpacking writes: one file for each frame,
/// under its name and with its contents.
pub open spec fn holds_frames(
    entries: Seq<FolderEntry>,
    contents: Seq<Seq<u8>>,
    frames: Seq<Raster>,
) -> bool {
    &&& distinct_frames(entries)
    &&& contents.len() == entries.len()
    &&& forall|i: int|
        0 <= i < frames.len() ==> has_frame(entries, Some(#[trigger] frame_name(i)))
    &&& forall|e: int|
        #![trigger entries[e]]
        0 <= e < entries.len() && is_frame(entries[e]) ==> exists|i: int|
            0 <= i < frames.len() && file_names(entries)[e] == Some(#[trigger] frame_name(i))
                && contents[e] == file_of(frames[i])
}

/// Loading the files that unpacking wrote gives the frames back: as many, in the same order, with
/// the same pixels, in whatever order the folder lists its files.
pub proof fn loading_undoes_unpacking(
    frames: Seq<Raster>,
    entries: Seq<FolderEntry>,
    contents: Seq<Seq<u8>>,
    selected: Seq<usize>,
)
    requires
        packable(frames),
        frames.len() <= u16::MAX,
        forall|i: int|
            0 <= i < frames.len() ==> decoded_png(file_of(#[trigger] frames[i])) == Some(frames[i]),
        holds_frames(entries, contents, frames),
        selects_frames(entries, selected),
    ensures
        selected_pictures(entries, contents, selected) == Seq::new(
            frames.len(),
            |i: int| Some(frames[i]),
        ),
        frames_flaw(selected_pictures(entries, contents, selected)) is None,
{
    let names = selected_names(entries, selected);
    let wanted = Seq::new(frames.len(), |i: int| Some(frame_name(i)));
    let same = |name: Option<Seq<char>>| name;
    lemma_selected_names(entries, selected);
    assert forall|a: int, b: int| 0 <= a < b < wanted.len() implies name_before(
        same(#[trigger] wanted[a]),
        same(#[trigger] wanted[b]),
    ) by {
        frame_names_ascend(a, b);
    }
    assert forall|i: int| 0 <= i < wanted.len() implies names.contains(#[trigger] wanted[i]) by {
        assert(has_frame(entries, Some(frame_name(i))));
    }
    assert forall|a: int| 0 <= a < names.len() implies wanted.contains(#[trigger] names[a]) by {
        let e = selected[a] as int;
        assert(is_frame(entries[e]));
        let i = choose|i: int|
            0 <= i < frames.len() && file_names(entries)[e] == Some(#[trigger] frame_name(i))
                && contents[e] == file_of(frames[i]);
        assert(wanted[i] == names[a]);
    }
    lemma_one_order(names, wanted, same);
    let pictures = selected_pictures(entries, contents, selected);
    assert forall|k: int| 0 <= k < frames.len() implies #[trigger] pictures[k] == Some(
        frames[k],
    ) by {
        let e = selected[k] as int;
        assert(is_frame(entries[e]));
        let i = choose|i: int|
            0 <= i < frames.len() && file_names(entries)[e] == Some(#[trigger] frame_name(i))
                && contents[e] == file_of(frames[i]);
        assert(names[k] == wanted[k]);
        if i < k {
            frame_names_ascend(i, k);
            lemma_name_irreflexive(wanted[k]);
        }
        if k < i {
            frame_names_ascend(k, i);
            lemma_name_irreflexive(wanted[k]);
        }
        lemma_frame_is_png(i);
        assert(decoded_png(file_of(frames[i])) == Some(frames[i]));
    }
    assert(pictures =~= Seq::new(frames.len(), |i: int| Some(frames[i])));
    lemma_loads(frames, pictures, 0);
    lemma_loads(frames, pictures, 1);
}

/// Packing what was unpacked gives the same blob: the frames loaded from the files that unpacking
/// wrote, packed with the same frame rate, come to the blob that they were unpacked from.
pub proof fn packing_undoes_unpacking(
    fps: u32,
    frames: Seq<Raster>,
    entries: Seq<FolderEntry>,
    contents: Seq<Seq<u8>>,
    selected: Seq<usize>,
)
    requires
        is_packed(fps, frames),
        unpacked_faithfully(animation_blob(fps, frames)),
        unpacking_packed(fps, frames).outcome is Ok,
        holds_frames(entries, contents, frames),
        selects_frames(entries, selected),
    ensures
        ({
            let pictures = selected_pictures(entries, contents, selected);
            &&& frames_flaw(pictures) is None
            &&& packing(fps, Seq::new(pictures.len(), |k: int| pictures[k]->0)) == Ok::<
                Seq<u8>,
                Fault,
            >(animation_blob(fps, frames))
        }),
{
    unpacking_undoes_packing(fps, frames);
    loading_undoes_unpacking(frames, entries, contents, selected);
    let pictures = selected_pictures(entries, contents, selected);
    assert(Seq::new(pictures.len(), |k: int| pictures[k]->0) =~= frames);
}

proof fn lemma_frame_is_png(index: int)
    ensures
        png_named(frame_name(index)),
{
    reveal_strlit("frame_");
    reveal_strlit(".png");
    lemma_padded_digits(index as nat, 5);
    let name = frame_name(index);
    let n = name.len() as int;
    assert(name[n - 5] == padded(index as nat, 5).last());
}

proof fn lemma_loads(frames: Seq<Raster>, pictures: Seq<Option<Raster>>, from: int)
    requires
        packable(frames),
        pictures.len() == frames.len(),
        forall|k: int| 0 <= k < frames.len() ==> #[trigger] pictures[k] == Some(frames[k]),
        0 <= from,
    ensures
        first_missing(pictures, from) is None,
        first_of_other_size(pictures, from) is None,
    decreases frames.len() - from,
{
    if from < frames.len() {
        assert(pictures[from] == Some(frames[from]) && pictures[0] == Some(frames[0]));
        assert(frames[from].width == frames[0].width && frames[from].height == frames[0].height);
        lemma_loads(frames, pictures, from + 1);
    }
}

} // verus!
