//! CXTA: images of one size laid out on an atlas, found by the hashes of their names.
//!
//! A blob is the magic, the number of items and the length of the PNG of the atlas in four bytes
//! each, and the PNG; then for each item the hash of its name in eight bytes, and the left and top
//! edge, the width and the height of its image in two bytes each.
use vstd::arithmetic::div_mod::{lemma_fundamental_div_mod, lemma_mod_bound};
use vstd::prelude::*;
use vstd::string::*;
use vstd::utf8::encode_utf8;

use crate::bytes::{
    copy_range, has_at, holds_at, joined, le16, le32, le64, lemma_has_at_nested,
    lemma_has_at_parts, lemma_has_at_within, lemma_joined_at, lemma_joined_len, lemma_joined_push,
    lemma_u16_at, lemma_u32_at, lemma_u64_at, push_bytes, push_u16, push_u32, push_u64, read_u16,
    read_u32, read_u64, u16_at, u32_at, u64_at,
};
use crate::codec::{
    can_decode_bytes, covers_bytes, decode_guessed, decoded_png, encode_file, encode_png, file_of,
    is_png, is_tame, lemma_png_is_covered, payload_picture, picture_of, stored_faithfully, stream_of,
    DECODE_LIMIT,
};
use crate::driver::{deeds, lemma_deeds_push, AssetDriver, Deed, Effect, Unpacked, Unpacking};
use crate::fault::{packed_as, AssetError, Fault, Flaw};
use crate::raster::{first_missing, loaded, Image, Raster};
use crate::sheet::{
    cell_x, cell_y, compose, lemma_cell_inside, lemma_sheet_cell, of_size, sheet, shown,
};
use crate::sort::{
    goes_before, has_place, is_order, lemma_name_irreflexive, lemma_name_transitive,
    lemma_one_order, name_before, name_views, order_by_name, order_lists_everything_once,
    strictly_named,
};
use crate::text::{
    hexadecimal, hexadecimal_text, list_text, listed, same_text, text_bytes, texts,
};

verus! {

/// What a blob begins with: "CXTA".
pub const CXTA_MAGIC: [u8; 4] = [67u8, 88, 84, 65];

/// The most pixels that an atlas has in a row or a column.
pub const MAX_ATLAS_DIM: u32 = 4096;

/// The driver of atlases.
pub struct CxtaDriver;

impl AssetDriver for CxtaDriver {
    open spec fn magic_bytes(&self) -> Seq<u8> {
        CXTA_MAGIC@
    }

    open spec fn extension_text(&self) -> Seq<char> {
        ".cxta"@
    }

    open spec fn entry_text(&self) -> Seq<char> {
        "atlas.entry"@
    }

    fn magic(&self) -> &[u8; 4] {
        &CXTA_MAGIC
    }

    fn extension(&self) -> &str {
        ".cxta"
    }

    fn entry_file(&self) -> &str {
        "atlas.entry"
    }
}

/// The 64-bit xxHash of bytes under a seed.
pub uninterp spec fn xxh64_of(bytes: Seq<u8>, seed: u64) -> u64;

/// Hashes bytes with `xxhash_rust::xxh64::xxh64`: the same bytes and seed give the same hash.
#[verifier::external_body]
fn hash_bytes(bytes: &[u8], seed: u64) -> (hash: u64)
    ensures
        hash == xxh64_of(bytes@, seed),
{
    xxhash_rust::xxh64::xxh64(bytes, seed)
}

/// The hash under which the image of this name is found.
pub open spec fn name_hash(name: Seq<char>) -> u64 {
    xxh64_of(encode_utf8(name), 0)
}

/// An item of an atlas: the hash of its name, and where its image stands.
#[derive(Clone, Copy, Debug, PartialEq, Eq, Structural)]
pub struct Item {
    pub hash: u64,
    pub x: u16,
    pub y: u16,
    pub width: u16,
    pub height: u16,
}

/// An item as bytes.
pub open spec fn item_bytes(item: Item) -> Seq<u8> {
    le64(item.hash) + le16(item.x) + le16(item.y) + le16(item.width) + le16(item.height)
}

/// The bytes of each item.
pub open spec fn item_parts(items: Seq<Item>) -> Seq<Seq<u8>> {
    Seq::new(items.len(), |i: int| item_bytes(items[i]))
}

/// The blob of an atlas and its items.
pub open spec fn cxta_blob(png: Seq<u8>, items: Seq<Item>) -> Seq<u8> {
    CXTA_MAGIC@ + le32(items.len() as u32) + le32(png.len() as u32) + png + joined(
        item_parts(items),
    )
}

/// The characters of the names, each of them there.
pub open spec fn keys(names: Seq<String>) -> Seq<Option<Seq<char>>> {
    Seq::new(names.len(), |i: int| Some(names[i]@))
}

/// The names in order.
pub open spec fn sorted_names(names: Seq<String>, order: Seq<usize>) -> Seq<Seq<char>> {
    Seq::new(order.len(), |k: int| names[order[k] as int]@)
}

/// The pictures in order.
pub open spec fn sorted_pictures(
    pictures: Seq<Option<Raster>>,
    order: Seq<usize>,
) -> Seq<Raster> {
    Seq::new(order.len(), |k: int| pictures[order[k] as int]->0)
}

/// The columns of the atlas of this many images.
pub open spec fn atlas_cols(count: int, width: u32) -> int {
    if MAX_ATLAS_DIM as int / width as int <= count {
        MAX_ATLAS_DIM as int / width as int
    } else {
        count
    }
}

/// The rows of the atlas of this many images.
pub open spec fn atlas_rows(count: int, width: u32) -> int {
    (count + atlas_cols(count, width) - 1) / atlas_cols(count, width)
}

/// Whether the layout of this many images can be computed in 32 bits: an image is no wider than an
/// atlas and not empty, and the height of the atlas can be said.
pub open spec fn layout_fits(count: int, width: u32, height: u32) -> bool {
    &&& 0 < width <= MAX_ATLAS_DIM
    &&& count + atlas_cols(count, width) <= u32::MAX
    &&& atlas_rows(count, width) * height <= u32::MAX
}

/// The atlas of the pictures.
pub open spec fn atlas_of(pictures: Seq<Raster>, width: u32, height: u32) -> Raster {
    sheet(
        pictures,
        atlas_cols(pictures.len() as int, width),
        atlas_rows(pictures.len() as int, width),
        width,
        height,
    )
}

/// Whether no later image has the same name.
pub open spec fn is_last(names: Seq<Seq<char>>, k: int) -> bool {
    forall|j: int| k < j < names.len() ==> #[trigger] names[j] != names[k]
}

/// The item of the image in this cell.
pub open spec fn item_of(name: Seq<char>, cell: int, cols: int, width: u32, height: u32) -> Item {
    Item {
        hash: name_hash(name),
        x: cell_x(cell, cols, width) as u16,
        y: cell_y(cell, cols, height) as u16,
        width: width as u16,
        height: height as u16,
    }
}

/// The first `count` cells that hold the last image of their name.
pub open spec fn kept(names: Seq<Seq<char>>, count: int) -> Seq<int>
    decreases count,
{
    if count <= 0 {
        Seq::empty()
    } else if is_last(names, count - 1) {
        kept(names, count - 1).push(count - 1)
    } else {
        kept(names, count - 1)
    }
}

/// The items of the cells.
pub open spec fn items_of(
    names: Seq<Seq<char>>,
    cells: Seq<int>,
    cols: int,
    width: u32,
    height: u32,
) -> Seq<Item> {
    Seq::new(cells.len(), |i: int| item_of(names[cells[i]], cells[i], cols, width, height))
}

/// The blob of images in order.
pub open spec fn atlas_blob(names: Seq<Seq<char>>, pictures: Seq<Raster>) -> Seq<u8> {
    let width = pictures[0].width;
    let height = pictures[0].height;
    let count = pictures.len() as int;
    cxta_blob(
        stream_of(atlas_of(pictures, width, height)),
        items_of(names, kept(names, count), atlas_cols(count, width), width, height),
    )
}

/// The first picture from `from` on that has other dimensions than the first of all.
pub open spec fn first_of_other_size(pictures: Seq<Raster>, from: int) -> Option<int>
    decreases pictures.len() - from,
{
    if from < 0 || from >= pictures.len() {
        None
    } else if pictures[from].width != pictures[0].width || pictures[from].height
        != pictures[0].height {
        Some(from)
    } else {
        first_of_other_size(pictures, from + 1)
    }
}

/// What packing comes to, the images being taken in this order.
pub open spec fn packing(
    names: Seq<String>,
    images: Seq<Option<Raster>>,
    order: Seq<usize>,
) -> Result<Seq<u8>, Fault> {
    let pictures = sorted_pictures(images, order);
    let width = pictures[0].width;
    let height = pictures[0].height;
    match first_missing(images, 0) {
        Some(index) => Err(Fault::Flawed(Flaw::Unreadable { index: index as usize })),
        None => if images.len() == 0 {
            Err(Fault::Flawed(Flaw::NoImages))
        } else {
            match first_of_other_size(pictures, 0) {
                Some(k) => Err(
                    Fault::Flawed(
                        Flaw::ImageSizeDiffers {
                            index: order[k],
                            width: pictures[k].width,
                            height: pictures[k].height,
                            first_width: width,
                            first_height: height,
                        },
                    ),
                ),
                None => if atlas_rows(pictures.len() as int, width) * height > MAX_ATLAS_DIM {
                    Err(Fault::Flawed(Flaw::AtlasTooLarge))
                } else if height == 0 {
                    Err(Fault::Encode(0))
                } else {
                    Ok(atlas_blob(sorted_names(names, order), pictures))
                },
            }
        },
    }
}

/// Whether all the images are there and have the dimensions of the first one.
pub open spec fn uniform(images: Seq<Option<Raster>>) -> bool {
    forall|i: int|
        0 <= i < images.len() ==> (#[trigger] images[i]) is Some && images[i]->0.width
            == images[0]->0.width && images[i]->0.height == images[0]->0.height
}

/// Whether the images can be packed: they are well formed, and where they are all there and of one
/// size, their layout can be computed.
pub open spec fn packable(images: Seq<Option<Raster>>) -> bool {
    &&& forall|i: int|
        0 <= i < images.len() && (#[trigger] images[i]) is Some ==> images[i]->0.wf()
    &&& images.len() > 0 && uniform(images) ==> layout_fits(
        images.len() as int,
        images[0]->0.width,
        images[0]->0.height,
    )
}

/// The columns of an atlas are some, and as many as fit.
pub proof fn lemma_cols(count: int, width: u32)
    requires
        0 < count,
        0 < width <= MAX_ATLAS_DIM,
    ensures
        1 <= atlas_cols(count, width) <= MAX_ATLAS_DIM,
        atlas_cols(count, width) <= count,
        0 < atlas_cols(count, width) * width <= MAX_ATLAS_DIM,
        1 <= atlas_rows(count, width),
        count <= atlas_cols(count, width) * atlas_rows(count, width),
        (atlas_rows(count, width) - 1) * atlas_cols(count, width) < count,
{
    let most = MAX_ATLAS_DIM as int / width as int;
    let cols = atlas_cols(count, width);
    let rows = atlas_rows(count, width);
    assert(1 <= most <= 4096 && most * width <= 4096) by (nonlinear_arith)
        requires
            0 < width <= 4096,
            most == 4096int / width as int,
    ;
    assert(0 < cols * width && cols * width <= most * width) by (nonlinear_arith)
        requires
            1 <= cols <= most,
            0 < width,
    ;
    lemma_fundamental_div_mod(count + cols - 1, cols);
    lemma_mod_bound(count + cols - 1, cols);
    let left = (count + cols - 1) % cols;
    assert(count <= cols * rows && 1 <= rows && (rows - 1) * cols < count) by (nonlinear_arith)
        requires
            count + cols - 1 == cols * rows + left,
            0 <= left < cols,
            1 <= count,
            1 <= cols,
    ;
}

/// In an order, an image is the last of its name if the next one has another name.
proof fn lemma_is_last(names: Seq<String>, order: Seq<usize>, k: int)
    requires
        is_order(keys(names), order),
        0 <= k < order.len(),
    ensures
        is_last(sorted_names(names, order), k) == (k + 1 == order.len() || sorted_names(
            names,
            order,
        )[k] != sorted_names(names, order)[k + 1]),
{
    let all = keys(names);
    let sorted = sorted_names(names, order);
    if k + 1 < order.len() && sorted[k] != sorted[k + 1] {
        assert forall|j: int| k < j < sorted.len() implies #[trigger] sorted[j] != sorted[k] by {
            if j > k + 1 && sorted[j] == sorted[k] {
                let a = Some(sorted[k]);
                let b = Some(sorted[k + 1]);
                assert(goes_before(all, order[k] as int, order[k + 1] as int));
                assert(goes_before(all, order[k + 1] as int, order[j] as int));
                assert(all[order[k] as int] == a);
                assert(all[order[k + 1] as int] == b);
                assert(all[order[j] as int] == a);
                lemma_name_transitive(a, b, a);
                lemma_name_irreflexive(a);
            }
        }
    } else if k + 1 < order.len() {
        assert(sorted[k + 1] == sorted[k]);
    }
}

impl CxtaDriver {
    /// Whether the images can be packed.
    pub fn packable(&self, images: &Vec<Option<Image>>) -> (can: bool)
        requires
            forall|i: int|
                0 <= i < images@.len() && (#[trigger] images@[i]) is Some ==> images@[i]->0@.wf(),
        ensures
            can == packable(loaded(images@)),
    {
        let ghost views = loaded(images@);
        assert forall|i: int| 0 <= i < views.len() && (#[trigger] views[i]) is Some implies views[
            i]->0.wf() by {
            assert(images@[i] is Some);
        }
        if images.len() == 0 {
            return true;
        }
        let (width, height): (u32, u32) = match &images[0] {
            Some(image) => (image.width, image.height),
            None => {
                assert(views[0] is None);
                return true;
            },
        };
        assert(views[0] == Some(images@[0]->0@));
        let mut i: usize = 0;
        while i < images.len()
            invariant
                views == loaded(images@),
                0 < images@.len(),
                views[0] is Some,
                width == views[0]->0.width,
                height == views[0]->0.height,
                i <= images@.len(),
                forall|k: int|
                    0 <= k < images@.len() && (#[trigger] views[k]) is Some ==> views[k]->0.wf(),
                forall|k: int|
                    0 <= k < i ==> (#[trigger] views[k]) is Some && views[k]->0.width == width
                        && views[k]->0.height == height,
            decreases images@.len() - i,
        {
            match &images[i] {
                Some(image) => {
                    assert(views[i as int] == Some(image@));
                    if image.width != width || image.height != height {
                        return true;
                    }
                },
                None => {
                    assert(views[i as int] is None);
                    return true;
                },
            }
            i = i + 1;
        }
        assert(uniform(views));
        if width == 0 || width > MAX_ATLAS_DIM {
            return false;
        }
        let count: u128 = images.len() as u128;
        let most: u128 = (MAX_ATLAS_DIM / width) as u128;
        let cols: u128 = if most <= count {
            most
        } else {
            count
        };
        proof {
            lemma_cols(images@.len() as int, width);
        }
        assert(cols == atlas_cols(count as int, width));
        if count + cols > u32::MAX as u128 {
            return false;
        }
        let rows: u128 = (count + cols - 1) / cols;
        assert(rows <= u32::MAX) by (nonlinear_arith)
            requires
                rows == (count + cols - 1) / cols as int,
                1 <= cols,
                count + cols - 1 <= u32::MAX,
        ;
        assert(0 <= rows * height <= u32::MAX * u32::MAX) by (nonlinear_arith)
            requires
                0 <= rows <= u32::MAX,
                0 <= height <= u32::MAX,
        ;
        rows * (height as u128) <= u32::MAX as u128
    }

    /// Packs images under their names; `None` stands for an image that could not be read or
    /// decoded. Of images with the same name the last one counts.
    pub fn pack(&self, names: &Vec<String>, images: &Vec<Option<Image>>) -> (outcome: Result<
        Vec<u8>,
        AssetError,
    >)
        requires
            names@.len() == images@.len(),
            packable(loaded(images@)),
        ensures
            exists|order: Seq<usize>|
                {
                    &&& #[trigger] is_order(keys(names@), order)
                    &&& packed_as(outcome, packing(names@, loaded(images@), order))
                    &&& outcome is Ok ==> atlas_faithful(sorted_pictures(loaded(images@), order))
                },
    {
        let ghost views = loaded(images@);
        let mut named: Vec<Option<String>> = Vec::new();
        let mut i: usize = 0;
        while i < names.len()
            invariant
                i <= names@.len(),
                named@.len() == i,
                forall|k: int| 0 <= k < i ==> #[trigger] name_views(named@)[k] == keys(names@)[k],
            decreases names@.len() - i,
        {
            let ghost before = named@;
            named.push(Some(names[i].clone()));
            proof {
                assert forall|k: int| 0 <= k < i + 1 implies #[trigger] name_views(named@)[k]
                    == keys(names@)[k] by {
                    if k < i {
                        assert(named@[k] == before[k]);
                        assert(name_views(before)[k] == keys(names@)[k]);
                    }
                }
            }
            i = i + 1;
        }
        assert(name_views(named@) =~= keys(names@));
        let order = order_by_name(&named);
        let outcome = pack_in_order(names, images, &order);
        assert(is_order(keys(names@), order@));
        outcome
    }
}

/// Whether the picture of the atlas decodes to itself.
pub open spec fn atlas_faithful(pictures: Seq<Raster>) -> bool {
    let atlas = atlas_of(pictures, pictures[0].width, pictures[0].height);
    stored_faithfully(atlas, stream_of(atlas))
}

/// Gathers the images in order.
fn gather<'a>(images: &'a Vec<Option<Image>>, order: &Vec<usize>) -> (gathered: Result<
    Vec<&'a Image>,
    usize,
>)
    requires
        order@.len() == images@.len(),
        forall|k: int| 0 <= k < order@.len() ==> (#[trigger] order@[k]) < images@.len(),
    ensures
        match first_missing(loaded(images@), 0) {
            Some(index) => gathered == Err::<Vec<&'a Image>, usize>(index as usize),
            None => gathered matches Ok(found) && shown(found@) == sorted_pictures(
                loaded(images@),
                order@,
            ) && forall|i: int| 0 <= i < images@.len() ==> (#[trigger] images@[i]) is Some,
        },
{
    let ghost views = loaded(images@);
    let mut i: usize = 0;
    while i < images.len()
        invariant
            views == loaded(images@),
            i <= images@.len(),
            forall|k: int| 0 <= k < i ==> (#[trigger] images@[k]) is Some,
            first_missing(views, 0) == first_missing(views, i as int),
        decreases images@.len() - i,
    {
        if images[i].is_none() {
            assert(views[i as int] is None);
            return Err(i);
        }
        assert(views[i as int] is Some);
        i = i + 1;
    }
    let mut found: Vec<&'a Image> = Vec::new();
    let mut k: usize = 0;
    while k < order.len()
        invariant
            order@.len() == images@.len(),
            forall|j: int| 0 <= j < order@.len() ==> (#[trigger] order@[j]) < images@.len(),
            forall|j: int| 0 <= j < images@.len() ==> (#[trigger] images@[j]) is Some,
            k <= order@.len(),
            found@.len() == k,
            forall|j: int|
                0 <= j < k ==> Some(*(#[trigger] found@[j])) == images@[order@[j] as int],
        decreases order@.len() - k,
    {
        if let Some(image) = &images[order[k]] {
            found.push(image);
        }
        k = k + 1;
    }
    proof {
        let sorted = sorted_pictures(views, order@);
        assert forall|j: int| 0 <= j < sorted.len() implies shown(found@)[j] == #[trigger] sorted[
            j] by {
            assert(Some(*found@[j]) == images@[order@[j] as int]);
        }
        assert(shown(found@) =~= sorted);
    }
    Ok(found)
}

/// Where the pictures in order are of one size, the images are.
pub proof fn lemma_uniform(images: Seq<Option<Raster>>, all: Seq<Option<Seq<char>>>, order: Seq<usize>)
    requires
        all.len() == images.len(),
        is_order(all, order),
        images.len() > 0,
        forall|i: int| 0 <= i < images.len() ==> (#[trigger] images[i]) is Some,
        forall|k: int|
            0 <= k < order.len() ==> (#[trigger] sorted_pictures(images, order)[k]).width
                == sorted_pictures(images, order)[0].width && sorted_pictures(
                images,
                order,
            )[k].height == sorted_pictures(images, order)[0].height,
    ensures
        uniform(images),
        images[0]->0.width == sorted_pictures(images, order)[0].width,
        images[0]->0.height == sorted_pictures(images, order)[0].height,
{
    let sorted = sorted_pictures(images, order);
    order_lists_everything_once(all, order);
    assert forall|i: int| 0 <= i < images.len() implies (#[trigger] images[i]) is Some
        && images[i]->0.width == sorted[0].width && images[i]->0.height == sorted[0].height by {
        assert(has_place(order, i));
        let k = choose|k: int| 0 <= k < order.len() && #[trigger] order[k] == i;
        assert(sorted[k] == images[i]->0);
    }
    assert(images[0] is Some);
}

/// Stores the items of the images in order.
fn pack_items(
    names: &Vec<String>,
    order: &Vec<usize>,
    cols: u32,
    width: u32,
    height: u32,
) -> (packed: (u32, Vec<u8>))
    requires
        is_order(keys(names@), order@),
        order@.len() <= u32::MAX,
        0 < cols,
        cols * width <= MAX_ATLAS_DIM,
        forall|k: int| 0 <= k < order@.len() ==> #[trigger] cell_y(k, cols as int, height) <= u32::MAX,
    ensures
        ({
            let sorted = sorted_names(names@, order@);
            let items = items_of(
                sorted,
                kept(sorted, sorted.len() as int),
                cols as int,
                width,
                height,
            );
            &&& packed.0 == items.len()
            &&& packed.1@ == joined(item_parts(items))
        }),
{
    let ghost sorted = sorted_names(names@, order@);
    let ghost across = cols as int;
    let mut count: u32 = 0;
    let mut out: Vec<u8> = Vec::new();
    let mut k: usize = 0;
    assert(item_parts(items_of(sorted, kept(sorted, 0), across, width, height)) =~= Seq::<
        Seq<u8>,
    >::empty());
    while k < order.len()
        invariant
            is_order(keys(names@), order@),
            order@.len() <= u32::MAX,
            0 < cols,
            cols * width <= MAX_ATLAS_DIM,
            forall|j: int|
                0 <= j < order@.len() ==> #[trigger] cell_y(j, cols as int, height) <= u32::MAX,
            sorted == sorted_names(names@, order@),
            across == cols,
            k <= order@.len(),
            count <= k,
            count == kept(sorted, k as int).len(),
            out@ == joined(
                item_parts(items_of(sorted, kept(sorted, k as int), across, width, height)),
            ),
        decreases order@.len() - k,
    {
        let name: &String = &names[order[k]];
        assert(sorted[k as int] == name@);
        let last: bool = if k + 1 < order.len() {
            assert(sorted[k + 1] == names@[order@[k + 1] as int]@);
            !same_text(name.as_str(), names[order[k + 1]].as_str())
        } else {
            true
        };
        proof {
            lemma_is_last(names@, order@, k as int);
        }
        if last {
            proof {
                assert(cell_y(k as int, across, height) <= u32::MAX);
                assert((k as int / across) * height >= 0) by (nonlinear_arith)
                    requires
                        0 <= k,
                        0 < across,
                        0 <= height,
                ;
                assert(0 <= (k as int % across) * width <= cols * width) by (nonlinear_arith)
                    requires
                        0 <= k as int % across < cols,
                        0 <= width,
                ;
            }
            let col: u32 = (k as u32) % cols;
            let row: u32 = (k as u32) / cols;
            let x: u32 = col * width;
            let y: u32 = row * height;
            let hash: u64 = hash_bytes(name.as_str().as_bytes(), 0);
            push_u64(&mut out, hash);
            push_u16(&mut out, x as u16);
            push_u16(&mut out, y as u16);
            push_u16(&mut out, width as u16);
            push_u16(&mut out, height as u16);
            proof {
                let cells = kept(sorted, k as int);
                let item = item_of(sorted[k as int], k as int, across, width, height);
                let parts = item_parts(items_of(sorted, cells, across, width, height));
                let next = item_parts(
                    items_of(sorted, cells.push(k as int), across, width, height),
                );
                assert(next =~= parts.push(item_bytes(item)));
                lemma_joined_push(parts, item_bytes(item));
                assert(out@ =~= joined(parts) + item_bytes(item));
            }
            count = count + 1;
        }
        k = k + 1;
    }
    (count, out)
}

/// Packs the images in this order.
fn pack_in_order(names: &Vec<String>, images: &Vec<Option<Image>>, order: &Vec<usize>) -> (outcome:
    Result<Vec<u8>, AssetError>)
    requires
        names@.len() == images@.len(),
        packable(loaded(images@)),
        is_order(keys(names@), order@),
    ensures
        packed_as(outcome, packing(names@, loaded(images@), order@)),
        outcome is Ok ==> atlas_faithful(sorted_pictures(loaded(images@), order@)),
{
    let ghost views = loaded(images@);
    let ghost pictures = sorted_pictures(views, order@);
    let gathered: Vec<&Image> = match gather(images, order) {
        Ok(gathered) => gathered,
        Err(index) => return Err(AssetError::Flawed(Flaw::Unreadable { index })),
    };
    if gathered.len() == 0 {
        return Err(AssetError::Flawed(Flaw::NoImages));
    }
    let width: u32 = gathered[0].width;
    let height: u32 = gathered[0].height;
    assert(shown(gathered@)[0] == gathered@[0]@);
    let mut k: usize = 0;
    while k < gathered.len()
        invariant
            shown(gathered@) == pictures,
            gathered@.len() == order@.len(),
            k <= gathered@.len(),
            pictures[0].width == width,
            pictures[0].height == height,
            forall|j: int|
                0 <= j < k ==> (#[trigger] pictures[j]).width == width && pictures[j].height
                    == height,
            first_of_other_size(pictures, 0) == first_of_other_size(pictures, k as int),
            pictures == sorted_pictures(views, order@),
            views == loaded(images@),
            first_missing(views, 0) is None,
            images@.len() > 0,
        decreases gathered@.len() - k,
    {
        assert(pictures[k as int] == gathered@[k as int]@);
        if gathered[k].width != width || gathered[k].height != height {
            return Err(
                AssetError::Flawed(
                    Flaw::ImageSizeDiffers {
                        index: order[k],
                        width: gathered[k].width,
                        height: gathered[k].height,
                        first_width: width,
                        first_height: height,
                    },
                ),
            );
        }
        k = k + 1;
    }
    let ghost count = pictures.len() as int;
    proof {
        assert forall|i: int| 0 <= i < views.len() implies (#[trigger] views[i]) is Some by {
            assert(images@[i] is Some);
        }
        lemma_uniform(views, keys(names@), order@);
        lemma_cols(count, width);
        assert forall|j: int| 0 <= j < pictures.len() implies (#[trigger] pictures[j]).wf()
            && pictures[j].width == width && pictures[j].height == height by {
            assert(views[order@[j] as int] is Some);
        }
        assert(of_size(pictures, width, height));
    }
    let most: u32 = MAX_ATLAS_DIM / width;
    let total: u32 = gathered.len() as u32;
    let cols: u32 = if most <= total {
        most
    } else {
        total
    };
    assert(cols == atlas_cols(count, width));
    let rows: u32 = (total + cols - 1) / cols;
    assert(rows == atlas_rows(count, width));
    assert(0 <= rows * height) by (nonlinear_arith);
    let atlas_height: u32 = rows * height;
    if atlas_height > MAX_ATLAS_DIM {
        return Err(AssetError::Flawed(Flaw::AtlasTooLarge));
    }
    let atlas = compose(&gathered, cols, rows, width, height);
    assert(atlas@ == atlas_of(pictures, width, height));
    proof {
        assert((height == 0) == (rows * height == 0)) by (nonlinear_arith)
            requires
                1 <= rows,
                0 <= height,
        ;
    }
    let png: Vec<u8> = match encode_png(&atlas) {
        Ok(png) => png,
        Err(error) => return Err(AssetError::Encode(0, error)),
    };
    proof {
        assert forall|j: int| 0 <= j < order@.len() implies #[trigger] cell_y(
            j,
            cols as int,
            height,
        ) <= u32::MAX by {
            lemma_cell_inside(j, cols as int, rows as int, width, height);
        }
    }
    let (item_count, items) = pack_items(names, order, cols, width, height);
    let mut blob: Vec<u8> = Vec::new();
    push_bytes(&mut blob, CXTA_MAGIC.as_slice());
    push_u32(&mut blob, item_count);
    push_u32(&mut blob, png.len() as u32);
    push_bytes(&mut blob, png.as_slice());
    push_bytes(&mut blob, items.as_slice());
    assert(blob@ =~= atlas_blob(sorted_names(names@, order@), pictures));
    Ok(blob)
}

/// What is wrong with the header of a blob or the length of its PNG.
pub open spec fn header_flaw(data: Seq<u8>) -> Option<Flaw> {
    if data.len() < 12 {
        Some(Flaw::TooShort)
    } else if !has_at(data, 0, CXTA_MAGIC@) {
        Some(Flaw::BadMagic)
    } else if 12 + u32_at(data, 8) > data.len() {
        Some(Flaw::PngCutShort)
    } else {
        None
    }
}

/// The PNG of a blob whose header is right.
pub open spec fn stored_png(data: Seq<u8>) -> Seq<u8> {
    data.subrange(12, 12 + u32_at(data, 8))
}

/// The item stored at `at`.
pub open spec fn item_at(data: Seq<u8>, at: int) -> Item {
    Item {
        hash: u64_at(data, at),
        x: u16_at(data, at + 8),
        y: u16_at(data, at + 10),
        width: u16_at(data, at + 12),
        height: u16_at(data, at + 14),
    }
}

/// The items of a blob whose header is right, as many as are there.
pub open spec fn stored_items(data: Seq<u8>) -> Seq<Item> {
    let start = 12 + u32_at(data, 8);
    let room = (data.len() - start) / 16;
    let count = u32_at(data, 4) as int;
    Seq::new(
        if count <= room {
            count as nat
        } else {
            room as nat
        },
        |i: int| item_at(data, start + 16 * i),
    )
}

/// Whether the items of a blob whose header is right end early.
pub open spec fn items_cut(data: Seq<u8>) -> bool {
    12 + u32_at(data, 8) + 16 * u32_at(data, 4) > data.len()
}

/// Whether the image of an item lies inside the atlas.
pub open spec fn is_placed(atlas: Raster, item: Item) -> bool {
    &&& item.x + item.width <= atlas.width
    &&& item.y + item.height <= atlas.height
}

/// The image of an item.
pub open spec fn picture_at(atlas: Raster, item: Item) -> Raster {
    atlas.cropped(item.x as int, item.y as int, item.width as u32, item.height as u32)
}

/// The number of items, from `from` on, up to the first that is not placed inside the atlas.
pub open spec fn placed_count(atlas: Raster, items: Seq<Item>, from: int) -> int
    decreases items.len() - from,
{
    if from < 0 || from >= items.len() || !is_placed(atlas, items[from]) {
        from
    } else {
        placed_count(atlas, items, from + 1)
    }
}

/// The name that stands for a hash.
pub open spec fn hash_name(hash: u64) -> Seq<char> {
    hexadecimal(hash as nat, 16)
}

/// What saving the items from `from` up to `to` writes, and what stops it: an image without pixels
/// leaves an empty file.
pub open spec fn saving(atlas: Raster, items: Seq<Item>, from: int, to: int) -> (
    Seq<Deed>,
    Option<Fault>,
)
    decreases to - from,
{
    if from >= to {
        (Seq::empty(), None)
    } else {
        let name = hash_name(items[from].hash) + ".png"@;
        if items[from].width == 0 || items[from].height == 0 {
            (
                seq![Deed::WriteFile { name, contents: Seq::empty() }],
                Some(Fault::Save(from)),
            )
        } else {
            let rest = saving(atlas, items, from + 1, to);
            (
                seq![
                    Deed::WriteFile { name, contents: file_of(picture_at(atlas, items[from])) },
                ] + rest.0,
                rest.1,
            )
        }
    }
}

/// Whether the images that are saved survive it: all before the first without pixels.
pub open spec fn saved_faithfully(atlas: Raster, items: Seq<Item>, count: int) -> bool {
    forall|i: int|
        0 <= i < count && (forall|k: int|
            0 <= k <= i ==> (#[trigger] items[k]).width > 0 && items[k].height > 0)
            ==> stored_faithfully(
            picture_at(atlas, #[trigger] items[i]),
            file_of(picture_at(atlas, items[i])),
        )
}

/// The lines of a description that name the items.
pub open spec fn item_lines(items: Seq<Item>) -> Seq<Seq<char>> {
    Seq::new(
        items.len(),
        |i: int|
            "{ name = \""@ + hash_name(items[i].hash) + "\", file = \""@ + hash_name(items[i].hash)
                + ".png\" }"@,
    )
}

/// The description of the items.
pub open spec fn description(items: Seq<Item>) -> Seq<char> {
    "[[images]]\n"@ + listed(item_lines(items), "\n[[images]]\n"@)
}

/// What exporting the items comes to once the atlas is decoded: each image is saved, up to the
/// first that lies outside the atlas, and a description is written at the end. `cut` says that
/// there are fewer items than announced.
pub open spec fn exporting(atlas: Raster, items: Seq<Item>, cut: bool) -> Unpacking<()> {
    let placed = placed_count(atlas, items, 0);
    let saved = saving(atlas, items, 0, placed);
    let written = seq![Deed::CreateFolder] + saved.0;
    if let Some(fault) = saved.1 {
        Unpacking { deeds: written, outcome: Err(fault) }
    } else if placed < items.len() {
        Unpacking {
            deeds: written,
            outcome: Err(Fault::Flawed(Flaw::CellOutside { index: placed as usize })),
        }
    } else if cut {
        Unpacking { deeds: written, outcome: Err(Fault::Flawed(Flaw::ItemsCutShort)) }
    } else {
        Unpacking {
            deeds: written.push(
                Deed::WriteFile {
                    name: "atlas.entry"@,
                    contents: encode_utf8(description(items)),
                },
            ),
            outcome: Ok(()),
        }
    }
}

/// What unpacking comes to, the atlas having decoded so.
pub open spec fn unpacking(data: Seq<u8>, decoded: Option<Raster>) -> Unpacking<()> {
    match header_flaw(data) {
        Some(flaw) => Unpacking { deeds: Seq::empty(), outcome: Err(Fault::Flawed(flaw)) },
        None => match decoded {
            None => Unpacking { deeds: Seq::empty(), outcome: Err(Fault::Decode(0)) },
            Some(atlas) => exporting(atlas, stored_items(data), items_cut(data)),
        },
    }
}

/// Whether the atlas of a blob is decoded here.
pub open spec fn unpackable(data: Seq<u8>) -> bool {
    header_flaw(data) is None ==> covers_bytes(stored_png(data))
}

/// Whether the images that unpacking saves survive it.
pub open spec fn unpacked_faithfully(data: Seq<u8>) -> bool {
    match payload_picture(stored_png(data)) {
        Some(atlas) => header_flaw(data) is None ==> saved_faithfully(
            atlas,
            stored_items(data),
            placed_count(atlas, stored_items(data), 0),
        ),
        None => true,
    }
}

/// A blob taken apart: the PNG, the items that are there, and whether there are fewer than
/// announced.
pub struct Parsed {
    pub png: Vec<u8>,
    pub items: Vec<Item>,
    pub cut: bool,
}

impl CxtaDriver {
    /// Takes a blob apart.
    pub fn parse(&self, data: &[u8]) -> (outcome: Result<Parsed, Flaw>)
        ensures
            match header_flaw(data@) {
                Some(flaw) => outcome == Err::<Parsed, Flaw>(flaw),
                None => outcome matches Ok(parsed) && {
                    &&& parsed.png@ == stored_png(data@)
                    &&& parsed.items@ == stored_items(data@)
                    &&& parsed.cut == items_cut(data@)
                },
            },
    {
        assert(data@.len() == data.len());
        if data.len() < 12 {
            return Err(Flaw::TooShort);
        }
        if !holds_at(data, 0, CXTA_MAGIC.as_slice()) {
            return Err(Flaw::BadMagic);
        }
        let count: u32 = read_u32(data, 4);
        let size: u32 = read_u32(data, 8);
        if ((data.len() - 12) as u64) < size as u64 {
            return Err(Flaw::PngCutShort);
        }
        let start: usize = 12 + size as usize;
        let png = copy_range(data, 12, start);
        let room: usize = (data.len() - start) / 16;
        let cut: bool = (room as u64) < count as u64;
        let present: usize = if cut {
            room
        } else {
            count as usize
        };
        let ghost all = stored_items(data@);
        let mut items: Vec<Item> = Vec::new();
        let mut i: usize = 0;
        while i < present
            invariant
                data@.len() == data.len(),
                start + 16 * present <= data@.len(),
                all.len() == present,
                forall|k: int|
                    0 <= k < present ==> #[trigger] all[k] == item_at(data@, start + 16 * k),
                i <= present,
                items@ == all.take(i as int),
            decreases present - i,
        {
            let at: usize = start + 16 * i;
            let item = Item {
                hash: read_u64(data, at),
                x: read_u16(data, at + 8),
                y: read_u16(data, at + 10),
                width: read_u16(data, at + 12),
                height: read_u16(data, at + 14),
            };
            items.push(item);
            i = i + 1;
            assert(items@ =~= all.take(i as int));
        }
        assert(all.take(i as int) =~= all);
        Ok(Parsed { png, items, cut })
    }

    /// Says which files to write for the first `count` items, whose images lie inside the atlas.
    pub fn save_items(&self, atlas: &Image, items: &Vec<Item>, count: usize) -> (saved: (
        Vec<Effect>,
        Option<AssetError>,
    ))
        requires
            atlas@.wf(),
            count <= items@.len(),
            forall|i: int| 0 <= i < count ==> is_placed(atlas@, #[trigger] items@[i]),
        ensures
            deeds(saved.0@) == saving(atlas@, items@, 0, count as int).0,
            match saving(atlas@, items@, 0, count as int).1 {
                Some(fault) => saved.1 matches Some(error) && error.fault() == fault,
                None => saved.1 is None,
            },
            saved_faithfully(atlas@, items@, count as int),
    {
        let ghost all = saving(atlas@, items@, 0, count as int);
        let mut effects: Vec<Effect> = Vec::new();
        let mut i: usize = 0;
        assert(deeds(effects@) + all.0 =~= all.0);
        while i < count
            invariant
                atlas@.wf(),
                i <= count <= items@.len(),
                forall|k: int| 0 <= k < count ==> is_placed(atlas@, #[trigger] items@[k]),
                all == saving(atlas@, items@, 0, count as int),
                ({
                    let rest = saving(atlas@, items@, i as int, count as int);
                    &&& deeds(effects@) + rest.0 == all.0
                    &&& rest.1 == all.1
                }),
                forall|k: int|
                    0 <= k < i ==> stored_faithfully(
                        picture_at(atlas@, #[trigger] items@[k]),
                        file_of(picture_at(atlas@, items@[k])),
                    ),
            decreases count - i,
        {
            let ghost rest = saving(atlas@, items@, i as int, count as int);
            let item: Item = items[i];
            assert(is_placed(atlas@, items@[i as int]));
            let picture = atlas.crop(
                item.x as u32,
                item.y as u32,
                item.width as u32,
                item.height as u32,
            );
            let mut name: String = hexadecimal_text(item.hash, 16);
            name.append(".png");
            assert(name@ == hash_name(item.hash) + ".png"@);
            let ghost before = deeds(effects@);
            match encode_file(&picture) {
                Ok(contents) => {
                    let effect = Effect::WriteFile { name, contents };
                    proof {
                        lemma_deeds_push(effects@, effect);
                        let next = saving(atlas@, items@, i + 1, count as int);
                        assert(rest.0 == seq![effect@] + next.0);
                        assert(before.push(effect@) + next.0 =~= before + rest.0);
                    }
                    effects.push(effect);
                },
                Err(error) => {
                    let contents: Vec<u8> = Vec::new();
                    let effect = Effect::WriteFile { name, contents };
                    proof {
                        lemma_deeds_push(effects@, effect);
                        assert(contents@ =~= Seq::<u8>::empty());
                        assert(rest.0 =~= seq![effect@]);
                        assert(before.push(effect@) =~= before + rest.0);
                    }
                    effects.push(effect);
                    return (effects, Some(AssetError::Save(i, error)));
                },
            }
            i = i + 1;
        }
        assert(deeds(effects@) =~= all.0);
        (effects, None)
    }

    /// Writes the description of the items.
    pub fn describe(&self, items: &Vec<Item>) -> (text: String)
        ensures
            text@ == description(items@),
    {
        let mut lines: Vec<String> = Vec::new();
        let mut i: usize = 0;
        assert(texts(lines@) =~= item_lines(items@).take(0));
        while i < items.len()
            invariant
                i <= items@.len(),
                texts(lines@) == item_lines(items@).take(i as int),
            decreases items@.len() - i,
        {
            let ghost before = texts(lines@);
            let name: String = hexadecimal_text(items[i].hash, 16);
            let mut line: String = "{ name = \"".to_owned();
            line.append(name.as_str());
            line.append("\", file = \"");
            line.append(name.as_str());
            line.append(".png\" }");
            assert(line@ == item_lines(items@)[i as int]);
            lines.push(line);
            i = i + 1;
            assert(texts(lines@) =~= before.push(item_lines(items@)[i - 1]));
            assert(item_lines(items@).take(i as int) =~= item_lines(items@).take(i - 1).push(
                item_lines(items@)[i - 1],
            ));
        }
        assert(item_lines(items@).take(i as int) =~= item_lines(items@));
        let mut text: String = "[[images]]\n".to_owned();
        text.append(list_text(&lines, "\n[[images]]\n").as_str());
        text
    }

    /// Says what to do with a blob that was taken apart, the atlas having decoded so.
    pub fn export(&self, parsed: &Parsed, decoded: Result<Image, image::ImageError>) -> (unpacked:
        Unpacked<()>)
        requires
            decoded matches Ok(atlas) ==> atlas@.wf(),
        ensures
            match decoded {
                Err(_) => unpacked.says(
                    (Unpacking { deeds: Seq::empty(), outcome: Err(Fault::Decode(0)) }),
                ),
                Ok(atlas) => unpacked.says(exporting(atlas@, parsed.items@, parsed.cut))
                    && saved_faithfully(
                    atlas@,
                    parsed.items@,
                    placed_count(atlas@, parsed.items@, 0),
                ),
            },
    {
        let mut effects: Vec<Effect> = Vec::new();
        assert(deeds(effects@) =~= Seq::<Deed>::empty());
        let atlas: Image = match decoded {
            Ok(atlas) => atlas,
            Err(error) => return Unpacked { effects, outcome: Err(AssetError::Decode(0, error)) },
        };
        let items: &Vec<Item> = &parsed.items;
        effects.push(Effect::CreateFolder);
        assert(deeds(effects@) =~= seq![Deed::CreateFolder]);
        let mut count: usize = 0;
        while count < items.len() && items[count].x as u32 + items[count].width as u32
            <= atlas.width && items[count].y as u32 + items[count].height as u32 <= atlas.height
            invariant
                count <= items@.len(),
                forall|k: int| 0 <= k < count ==> is_placed(atlas@, #[trigger] items@[k]),
                placed_count(atlas@, items@, 0) == placed_count(atlas@, items@, count as int),
            decreases items@.len() - count,
        {
            count = count + 1;
        }
        let (mut saved, failure) = self.save_items(&atlas, items, count);
        let ghost first = deeds(effects@);
        let ghost second = deeds(saved@);
        effects.append(&mut saved);
        assert(deeds(effects@) =~= first + second);
        if let Some(error) = failure {
            return Unpacked { effects, outcome: Err(error) };
        }
        if count < items.len() {
            return Unpacked {
                effects,
                outcome: Err(AssetError::Flawed(Flaw::CellOutside { index: count })),
            };
        }
        if parsed.cut {
            return Unpacked { effects, outcome: Err(AssetError::Flawed(Flaw::ItemsCutShort)) };
        }
        let text = self.describe(items);
        let effect = Effect::WriteFile {
            name: "atlas.entry".to_owned(),
            contents: text_bytes(text.as_str()),
        };
        proof {
            lemma_deeds_push(effects@, effect);
        }
        effects.push(effect);
        Unpacked { effects, outcome: Ok(()) }
    }

    /// Whether [`CxtaDriver::unpack`] takes this blob: its atlas is decoded here.
    pub fn can_unpack(&self, data: &[u8]) -> (can: bool)
        ensures
            can == unpackable(data@),
    {
        match self.parse(data) {
            Ok(parsed) => can_decode_bytes(parsed.png.as_slice()),
            Err(_) => true,
        }
    }

    /// Unpacks a blob: the image of every item is cut out of the atlas and saved as a PNG file
    /// named by its hash, and a description is written at the end.
    pub fn unpack(&self, data: &[u8]) -> (unpacked: Unpacked<()>)
        requires
            unpackable(data@),
        ensures
            unpacked.says(unpacking(data@, payload_picture(stored_png(data@)))),
            unpacked_faithfully(data@),
    {
        let parsed = match self.parse(data) {
            Ok(parsed) => parsed,
            Err(flaw) => {
                let effects: Vec<Effect> = Vec::new();
                assert(deeds(effects@) =~= Seq::<Deed>::empty());
                return Unpacked { effects, outcome: Err(AssetError::Flawed(flaw)) };
            },
        };
        let decoded = decode_guessed(parsed.png.as_slice());
        assert(picture_of(decoded) == payload_picture(stored_png(data@)));
        self.export(&parsed, decoded)
    }
}

/// A stored item reads back.
proof fn lemma_item_reads_back(data: Seq<u8>, at: int, item: Item)
    requires
        has_at(data, at, item_bytes(item)),
    ensures
        item_at(data, at) == item,
{
    let p1 = le64(item.hash) + le16(item.x);
    let p2 = p1 + le16(item.y);
    let p3 = p2 + le16(item.width);
    lemma_has_at_parts(data, at, p3, le16(item.height));
    lemma_has_at_parts(data, at, p2, le16(item.width));
    lemma_has_at_parts(data, at, p1, le16(item.y));
    lemma_has_at_parts(data, at, le64(item.hash), le16(item.x));
    lemma_u64_at(data, at, item.hash);
    lemma_u16_at(data, at + 8, item.x);
    lemma_u16_at(data, at + 10, item.y);
    lemma_u16_at(data, at + 12, item.width);
    lemma_u16_at(data, at + 14, item.height);
}

/// Stored items read back.
pub proof fn lemma_items_read_back(data: Seq<u8>, start: int, items: Seq<Item>)
    requires
        has_at(data, start, joined(item_parts(items))),
    ensures
        joined(item_parts(items)).len() == 16 * items.len(),
        forall|i: int|
            0 <= i < items.len() ==> #[trigger] item_at(data, start + 16 * i) == items[i],
{
    let parts = item_parts(items);
    lemma_joined_len(parts, 16);
    assert forall|i: int| 0 <= i < items.len() implies #[trigger] item_at(data, start + 16 * i)
        == items[i] by {
        lemma_joined_at(parts, i);
        lemma_joined_len(parts.take(i), 16);
        lemma_has_at_nested(data, start, joined(parts), 16 * i, parts[i]);
        lemma_item_reads_back(data, start + 16 * i, items[i]);
    }
}

/// Reading a blob gives back the PNG and the items that were put into it.
pub proof fn blob_reads_back(png: Seq<u8>, items: Seq<Item>)
    requires
        png.len() <= u32::MAX,
        items.len() <= u32::MAX,
    ensures
        header_flaw(cxta_blob(png, items)) is None,
        stored_png(cxta_blob(png, items)) == png,
        stored_items(cxta_blob(png, items)) == items,
        !items_cut(cxta_blob(png, items)),
{
    let blob = cxta_blob(png, items);
    let parts = item_parts(items);
    let tail = joined(parts);
    let h1 = CXTA_MAGIC@ + le32(items.len() as u32);
    let head = h1 + le32(png.len() as u32);
    lemma_has_at_within(Seq::empty(), head, png + tail);
    assert(Seq::<u8>::empty() + head + (png + tail) =~= blob);
    lemma_has_at_parts(blob, 0, h1, le32(png.len() as u32));
    lemma_has_at_parts(blob, 0, CXTA_MAGIC@, le32(items.len() as u32));
    lemma_u32_at(blob, 4, items.len() as u32);
    lemma_u32_at(blob, 8, png.len() as u32);
    lemma_has_at_within(head, png, tail);
    lemma_has_at_within(head + png, tail, Seq::empty());
    assert(head + png + tail + Seq::<u8>::empty() =~= blob);
    let start = 12 + png.len() as int;
    lemma_items_read_back(blob, start, items);
    assert(stored_items(blob) =~= items);
}

/// Of every name that occurs, the cell of its last image is kept, and no other cell: those kept
/// are the cells without a later image of the same name, in ascending order.
pub proof fn last_of_each_name_is_kept(names: Seq<Seq<char>>, count: int)
    requires
        0 <= count <= names.len(),
    ensures
        kept(names, count).len() <= count,
        forall|i: int|
            0 <= i < kept(names, count).len() ==> 0 <= (#[trigger] kept(names, count)[i]) < count
                && is_last(names, kept(names, count)[i]),
        forall|i: int, j: int|
            0 <= i < j < kept(names, count).len() ==> #[trigger] kept(names, count)[i]
                < #[trigger] kept(names, count)[j],
        forall|k: int|
            0 <= k < count && #[trigger] is_last(names, k) ==> kept(names, count).contains(k),
    decreases count,
{
    if count > 0 {
        last_of_each_name_is_kept(names, count - 1);
        let fewer = kept(names, count - 1);
        let all = kept(names, count);
        assert forall|k: int| 0 <= k < count && #[trigger] is_last(
            names,
            k,
        ) implies all.contains(k) by {
            if k < count - 1 {
                assert(fewer.contains(k));
                let i = choose|i: int| 0 <= i < fewer.len() && fewer[i] == k;
                assert(all[i] == k);
            } else {
                assert(all[all.len() - 1] == k);
            }
        }
    }
}

/// The files of the images in these cells.
pub open spec fn image_files(
    names: Seq<Seq<char>>,
    pictures: Seq<Raster>,
    cells: Seq<int>,
) -> Seq<Deed> {
    Seq::new(
        cells.len(),
        |i: int|
            Deed::WriteFile {
                name: hash_name(name_hash(names[cells[i]])) + ".png"@,
                contents: file_of(pictures[cells[i]]),
            },
    )
}

/// What saving the items comes to where each is in its place.
proof fn lemma_saving_all(atlas: Raster, items: Seq<Item>, files: Seq<Deed>, from: int)
    requires
        items.len() == files.len(),
        0 <= from <= items.len(),
        forall|i: int|
            0 <= i < items.len() ==> is_placed(atlas, #[trigger] items[i]) && items[i].width > 0
                && items[i].height > 0 && files[i] == (Deed::WriteFile {
                name: hash_name(items[i].hash) + ".png"@,
                contents: file_of(picture_at(atlas, items[i])),
            }),
    ensures
        placed_count(atlas, items, from) == items.len(),
        saving(atlas, items, from, items.len() as int) == (files.skip(from), None::<Fault>),
    decreases items.len() - from,
{
    if from < items.len() {
        lemma_saving_all(atlas, items, files, from + 1);
        assert(is_placed(atlas, items[from]));
        assert(files.skip(from) =~= seq![files[from]] + files.skip(from + 1));
    } else {
        assert(files.skip(from) =~= Seq::<Deed>::empty());
    }
}

/// Whether unpacking gives the images back: there is one, and they fit on one atlas.
pub open spec fn restorable(pictures: Seq<Raster>) -> bool {
    let width = pictures[0].width;
    let height = pictures[0].height;
    &&& pictures.len() > 0
    &&& of_size(pictures, width, height)
    &&& 0 < width <= MAX_ATLAS_DIM
    &&& 0 < height
    &&& atlas_rows(pictures.len() as int, width) * height <= MAX_ATLAS_DIM
    &&& atlas_faithful(pictures)
}

/// What was packed can be given back.
pub proof fn packed_is_restorable(
    names: Seq<String>,
    images: Seq<Option<Raster>>,
    order: Seq<usize>,
)
    requires
        names.len() == images.len(),
        packable(images),
        is_order(keys(names), order),
        packing(names, images, order) is Ok,
        atlas_faithful(sorted_pictures(images, order)),
    ensures
        restorable(sorted_pictures(images, order)),
        packing(names, images, order) == Ok::<Seq<u8>, Fault>(
            atlas_blob(sorted_names(names, order), sorted_pictures(images, order)),
        ),
{
    let pictures = sorted_pictures(images, order);
    lemma_none_missing(images, 0);
    lemma_none_differs(pictures, 0);
    lemma_uniform(images, keys(names), order);
    assert forall|k: int| 0 <= k < pictures.len() implies (#[trigger] pictures[k]).wf()
        && pictures[k].width == pictures[0].width && pictures[k].height == pictures[0].height by {
        assert(images[order[k] as int] is Some);
    }
}

/// Where no picture is found to differ, all have the dimensions of the first.
proof fn lemma_none_differs(pictures: Seq<Raster>, from: int)
    requires
        0 <= from,
        first_of_other_size(pictures, from) is None,
    ensures
        forall|k: int|
            from <= k < pictures.len() ==> (#[trigger] pictures[k]).width == pictures[0].width
                && pictures[k].height == pictures[0].height,
    decreases pictures.len() - from,
{
    if from < pictures.len() {
        lemma_none_differs(pictures, from + 1);
    }
}

/// An image is cut out of the atlas as it was put there.
proof fn lemma_image_restored(names: Seq<Seq<char>>, pictures: Seq<Raster>, cell: int)
    requires
        restorable(pictures),
        0 <= cell < pictures.len(),
    ensures
        ({
            let width = pictures[0].width;
            let height = pictures[0].height;
            let cols = atlas_cols(pictures.len() as int, width);
            let atlas = atlas_of(pictures, width, height);
            let item = item_of(names[cell], cell, cols, width, height);
            &&& is_placed(atlas, item)
            &&& item.width > 0
            &&& item.height > 0
            &&& picture_at(atlas, item) == pictures[cell]
            &&& pictures[cell].size() <= DECODE_LIMIT
        }),
{
    let width = pictures[0].width;
    let height = pictures[0].height;
    let count = pictures.len() as int;
    let cols = atlas_cols(count, width);
    let rows = atlas_rows(count, width);
    lemma_cols(count, width);
    lemma_cell_inside(cell, cols, rows, width, height);
    lemma_sheet_cell(pictures, cols, rows, width, height, cell);
    assert(height <= rows * height) by (nonlinear_arith)
        requires
            1 <= rows,
            0 <= height,
    ;
    assert(0 <= width * height <= 4096 * 4096) by (nonlinear_arith)
        requires
            0 <= width <= 4096,
            0 <= height <= 4096,
    ;
}

/// The atlas of images that can be given back decodes.
proof fn lemma_atlas_restored(names: Seq<Seq<char>>, pictures: Seq<Raster>)
    requires
        names.len() == pictures.len(),
        restorable(pictures),
    ensures
        ({
            let width = pictures[0].width;
            let height = pictures[0].height;
            let count = pictures.len() as int;
            let atlas = atlas_of(pictures, width, height);
            let items = items_of(
                names,
                kept(names, count),
                atlas_cols(count, width),
                width,
                height,
            );
            let blob = atlas_blob(names, pictures);
            &&& header_flaw(blob) is None
            &&& is_png(stored_png(blob))
            &&& is_tame(stored_png(blob))
            &&& decoded_png(stored_png(blob)) == Some(atlas)
            &&& stored_items(blob) == items
            &&& !items_cut(blob)
        }),
{
    let width = pictures[0].width;
    let height = pictures[0].height;
    let count = pictures.len() as int;
    let cols = atlas_cols(count, width);
    let rows = atlas_rows(count, width);
    let atlas = atlas_of(pictures, width, height);
    let items = items_of(names, kept(names, count), cols, width, height);
    lemma_cols(count, width);
    last_of_each_name_is_kept(names, count);
    assert(count <= 4096 * 4096) by (nonlinear_arith)
        requires
            count <= cols * rows,
            0 <= cols <= 4096,
            0 <= rows,
            rows * height <= 4096,
            1 <= height,
    ;
    let across = cols * width;
    let down = rows * height;
    assert(0 <= down) by (nonlinear_arith)
        requires
            down == rows * height,
            1 <= rows,
            0 < height,
    ;
    assert(0 <= across * down <= 4096 * 4096) by (nonlinear_arith)
        requires
            0 <= across <= 4096,
            0 <= down <= 4096,
    ;
    assert(atlas.width == across && atlas.height == down);
    assert(atlas.size() <= DECODE_LIMIT);
    blob_reads_back(stream_of(atlas), items);
}

/// A packed atlas can be unpacked.
pub proof fn packed_is_unpackable(names: Seq<Seq<char>>, pictures: Seq<Raster>)
    requires
        names.len() == pictures.len(),
        restorable(pictures),
    ensures
        unpackable(atlas_blob(names, pictures)),
{
    lemma_atlas_restored(names, pictures);
    lemma_png_is_covered(stored_png(atlas_blob(names, pictures)));
}

/// Unpacking a packed atlas succeeds and writes the last image of every name under the hash of the
/// name, as a file that decodes to it, and a description of them.
pub proof fn unpacking_undoes_packing(names: Seq<Seq<char>>, pictures: Seq<Raster>)
    requires
        names.len() == pictures.len(),
        restorable(pictures),
        unpacked_faithfully(atlas_blob(names, pictures)),
    ensures
        ({
            let blob = atlas_blob(names, pictures);
            let cells = kept(names, pictures.len() as int);
            let cols = atlas_cols(pictures.len() as int, pictures[0].width);
            unpacking(blob, payload_picture(stored_png(blob))) == (Unpacking {
                deeds: (seq![Deed::CreateFolder] + image_files(names, pictures, cells)).push(
                    Deed::WriteFile {
                        name: "atlas.entry"@,
                        contents: encode_utf8(
                            description(
                                items_of(
                                    names,
                                    cells,
                                    cols,
                                    pictures[0].width,
                                    pictures[0].height,
                                ),
                            ),
                        ),
                    },
                ),
                outcome: Ok::<(), Fault>(()),
            })
        }),
        forall|k: int|
            0 <= k < pictures.len() && is_last(names, k) ==> decoded_png(
                file_of(#[trigger] pictures[k]),
            ) == Some(pictures[k]),
{
    let width = pictures[0].width;
    let height = pictures[0].height;
    let count = pictures.len() as int;
    let cols = atlas_cols(count, width);
    let atlas = atlas_of(pictures, width, height);
    let cells = kept(names, count);
    let items = items_of(names, cells, cols, width, height);
    let files = image_files(names, pictures, cells);
    last_of_each_name_is_kept(names, count);
    lemma_atlas_restored(names, pictures);
    assert forall|i: int| 0 <= i < items.len() implies is_placed(atlas, #[trigger] items[i])
        && items[i].width > 0 && items[i].height > 0 && files[i] == (Deed::WriteFile {
        name: hash_name(items[i].hash) + ".png"@,
        contents: file_of(picture_at(atlas, items[i])),
    }) by {
        assert(0 <= cells[i] < count);
        lemma_image_restored(names, pictures, cells[i]);
    }
    lemma_saving_all(atlas, items, files, 0);
    assert(files.skip(0) =~= files);
    assert forall|k: int| 0 <= k < pictures.len() && is_last(names, k) implies decoded_png(
        file_of(#[trigger] pictures[k]),
    ) == Some(pictures[k]) by {
        assert(cells.contains(k));
        let i = choose|i: int| 0 <= i < cells.len() && cells[i] == k;
        lemma_image_restored(names, pictures, k);
        assert(stored_faithfully(
            picture_at(atlas, items[i]),
            file_of(picture_at(atlas, items[i])),
        ));
    }
}

/// Whether an image of this name is among those given.
pub open spec fn lists_image(
    names: Seq<String>,
    images: Seq<Option<Raster>>,
    entry: (Seq<char>, Option<Raster>),
) -> bool {
    exists|i: int| 0 <= i < names.len() && #[trigger] names[i]@ == entry.0 && images[i] == entry.1
}

/// Whether no two names are the same.
pub open spec fn distinct_names(names: Seq<String>) -> bool {
    forall|i: int, j: int|
        0 <= i < j < names.len() ==> (#[trigger] names[i])@ != (#[trigger] names[j])@
}

/// The images in order, with their names.
spec fn sorted_entries(
    names: Seq<String>,
    images: Seq<Option<Raster>>,
    order: Seq<usize>,
) -> Seq<(Seq<char>, Option<Raster>)> {
    Seq::new(order.len(), |k: int| (names[order[k] as int]@, images[order[k] as int]))
}

proof fn lemma_sorted_entries(
    names: Seq<String>,
    images: Seq<Option<Raster>>,
    order: Seq<usize>,
)
    requires
        names.len() == images.len(),
        distinct_names(names),
        is_order(keys(names), order),
    ensures
        strictly_named(
            sorted_entries(names, images, order),
            |entry: (Seq<char>, Option<Raster>)| Some(entry.0),
        ),
        forall|entry: (Seq<char>, Option<Raster>)| #[trigger]
            lists_image(names, images, entry) == sorted_entries(names, images, order).contains(
                entry,
            ),
{
    let all = keys(names);
    let sorted = sorted_entries(names, images, order);
    order_lists_everything_once(all, order);
    assert forall|a: int, b: int| 0 <= a < b < sorted.len() implies name_before(
        Some((#[trigger] sorted[a]).0),
        Some((#[trigger] sorted[b]).0),
    ) by {
        let i = order[a] as int;
        let j = order[b] as int;
        assert(goes_before(all, i, j));
        assert(all[i] == Some(names[i]@) && all[j] == Some(names[j]@));
    }
    assert forall|entry: (Seq<char>, Option<Raster>)| #[trigger]
        lists_image(names, images, entry) == sorted.contains(entry) by {
        if lists_image(names, images, entry) {
            let i = choose|i: int|
                0 <= i < names.len() && #[trigger] names[i]@ == entry.0 && images[i] == entry.1;
            assert(has_place(order, i));
            let k = choose|k: int| 0 <= k < order.len() && #[trigger] order[k] == i;
            assert(sorted[k] == entry);
        }
        if sorted.contains(entry) {
            let k = choose|k: int| 0 <= k < sorted.len() && sorted[k] == entry;
            assert(names[order[k] as int]@ == entry.0);
        }
    }
}

proof fn lemma_none_missing(images: Seq<Option<Raster>>, from: int)
    requires
        0 <= from,
    ensures
        first_missing(images, from) is None == (forall|i: int|
            from <= i < images.len() ==> (#[trigger] images[i]) is Some),
    decreases images.len() - from,
{
    if from < images.len() {
        lemma_none_missing(images, from + 1);
        if first_missing(images, from) is None {
            assert forall|i: int| from <= i < images.len() implies (#[trigger] images[i])
                is Some by {}
        }
    }
}

/// Packing the same images under the same names, listed in another order, gives the same blob.
pub proof fn packing_ignores_the_listing(
    names: Seq<String>,
    images: Seq<Option<Raster>>,
    order: Seq<usize>,
    other_names: Seq<String>,
    other_images: Seq<Option<Raster>>,
    other_order: Seq<usize>,
)
    requires
        names.len() == images.len(),
        other_names.len() == other_images.len(),
        distinct_names(names),
        distinct_names(other_names),
        forall|entry: (Seq<char>, Option<Raster>)| #[trigger]
            lists_image(names, images, entry) == lists_image(other_names, other_images, entry),
        is_order(keys(names), order),
        is_order(keys(other_names), other_order),
        packing(names, images, order) is Ok,
    ensures
        packing(other_names, other_images, other_order) == packing(names, images, order),
{
    let first = sorted_entries(names, images, order);
    let second = sorted_entries(other_names, other_images, other_order);
    lemma_sorted_entries(names, images, order);
    lemma_sorted_entries(other_names, other_images, other_order);
    assert forall|a: int| 0 <= a < first.len() implies second.contains(#[trigger] first[a]) by {
        assert(first.contains(first[a]));
        assert(lists_image(names, images, first[a]) == lists_image(
            other_names,
            other_images,
            first[a],
        ));
    }
    assert forall|a: int| 0 <= a < second.len() implies first.contains(#[trigger] second[a]) by {
        assert(second.contains(second[a]));
        assert(lists_image(names, images, second[a]) == lists_image(
            other_names,
            other_images,
            second[a],
        ));
    }
    lemma_one_order(first, second, |entry: (Seq<char>, Option<Raster>)| Some(entry.0));
    assert(first.len() == order.len() && second.len() == other_order.len());
    assert(sorted_names(names, order) =~= sorted_names(other_names, other_order)) by {
        assert forall|k: int| 0 <= k < order.len() implies sorted_names(names, order)[k]
            == sorted_names(other_names, other_order)[k] by {
            assert(first[k] == second[k]);
        }
    }
    assert(sorted_pictures(images, order) =~= sorted_pictures(other_images, other_order)) by {
        assert forall|k: int| 0 <= k < order.len() implies sorted_pictures(images, order)[k]
            == sorted_pictures(other_images, other_order)[k] by {
            assert(first[k] == second[k]);
        }
    }
    lemma_none_missing(images, 0);
    lemma_none_missing(other_images, 0);
    order_lists_everything_once(keys(other_names), other_order);
    assert forall|i: int| 0 <= i < other_images.len() implies (#[trigger] other_images[i])
        is Some by {
        assert(has_place(other_order, i));
        let k = choose|k: int| 0 <= k < other_order.len() && #[trigger] other_order[k] == i;
        assert(first[k] == second[k]);
        assert(images[order[k] as int] is Some);
    }
}

} // verus!
