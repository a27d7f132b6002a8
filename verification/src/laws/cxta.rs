//! Atlases.
use vstd::prelude::*;
use vstd::utf8::encode_utf8;

use crate::bytes::{has_at, joined, lemma_has_at_parts};
use crate::codec::{png_file, png_stream};
use crate::cxta::{
    atlas_blob, atlas_cols, atlas_of, atlas_rows, cxta_blob, description, exporting,
    first_of_other_size, hash_name, header_flaw, is_last, item_at, item_lines, item_of,
    item_parts, items_cut, items_of, kept, keys, last_of_each_name_is_kept, lemma_cols,
    lemma_items_read_back, packable, packing, picture_at, placed_count, saving, sorted_names,
    sorted_pictures, stored_items, stored_png, unpacking, Item, CXTA_MAGIC, xxh64_of,
};
use crate::driver::{deeds, Deed, Unpacked};
use crate::fault::{Fault, Flaw};
use crate::laws::bytes::{number, numbers_are_read_low_byte_first, parts_stand_byte_by_byte};
use crate::laws::container::{begins_with, lemma_begins};
use crate::laws::cxsi::writes;
use crate::laws::packer::comes_first;
use crate::laws::pictures::{
    cutting_keeps_the_pixels, pixel, sheets_show_their_pictures,
    the_first_missing_picture_is_found,
};
use crate::laws::sort::bytes_are_in_dictionary_order;
use crate::laws::text::{
    hexadecimals_write_their_number, is_number, lists_grow_at_the_end, sixteen_digits_are_enough,
    value,
};
use crate::raster::{first_missing, Raster};
use crate::sort::{
    goes_before, is_order, lemma_name_irreflexive, lemma_name_transitive, name_before,
    order_lists_everything_once,
};
use crate::text::listed;

verus! {

/// The columns of images on an atlas of 4096 pixels: as many as fit, or as there are images.
pub open spec fn across(count: int, width: u32) -> int {
    if 4096int / width as int <= count {
        4096int / width as int
    } else {
        count
    }
}

/// Whether images fill that many rows: all have room, and not in one row less.
pub open spec fn fill_rows(count: int, cols: int, rows: int) -> bool {
    (rows - 1) * cols < count <= rows * cols
}

proof fn lemma_rows(count: int, width: u32)
    requires
        0 < count,
        0 < width <= 4096,
    ensures
        atlas_cols(count, width) == across(count, width),
        0 < across(count, width) <= 4096,
        across(count, width) <= count,
        across(count, width) * width <= 4096,
        1 <= atlas_rows(count, width),
        fill_rows(count, across(count, width), atlas_rows(count, width)),
{
    lemma_cols(count, width);
    let cols = atlas_cols(count, width);
    let rows = atlas_rows(count, width);
    assert(cols * rows == rows * cols) by (nonlinear_arith);
}

/// Packing takes the images in the order of their names, images of one name in the order they came
/// in.
pub proof fn images_are_taken_by_name(names: Seq<String>, order: Seq<usize>, a: int, b: int)
    requires
        is_order(keys(names), order),
        0 <= a < b < order.len(),
    ensures
        order.len() == names.len(),
        order.no_duplicates(),
        order[a] < names.len(),
        order[b] < names.len(),
        ({
            let first = names[order[a] as int]@;
            let second = names[order[b] as int]@;
            &&& !comes_first(second, first)
            &&& first == second ==> order[a] < order[b]
        }),
{
    let all = keys(names);
    order_lists_everything_once(all, order);
    let i = order[a] as int;
    let j = order[b] as int;
    assert(goes_before(all, i, j));
    assert(all[i] == Some(names[i]@) && all[j] == Some(names[j]@));
    bytes_are_in_dictionary_order(encode_utf8(names[j]@), encode_utf8(names[i]@));
    lemma_name_irreflexive(all[i]);
    if name_before(all[j], all[i]) && name_before(all[i], all[j]) {
        lemma_name_transitive(all[i], all[j], all[i]);
    }
}

/// The picture that is taken at place `k` of the order.
pub open spec fn taken(images: Seq<Option<Raster>>, order: Seq<usize>, k: int) -> Raster {
    images[order[k] as int]->0
}

/// Whether the images were all read and have the dimensions of the first by name.
pub open spec fn agree(images: Seq<Option<Raster>>, order: Seq<usize>) -> bool {
    &&& forall|i: int| 0 <= i < images.len() ==> (#[trigger] images[i]) is Some
    &&& forall|k: int|
        0 <= k < images.len() ==> images[(#[trigger] order[k]) as int]->0.width == taken(
            images,
            order,
            0,
        ).width && images[order[k] as int]->0.height == taken(images, order, 0).height
}

/// Images are packed if there is one, all were read, all have the dimensions of the first by name,
/// and the atlas is no higher than 4096 pixels and not empty. Else the first that could not be read
/// is named, or the first by name that differs.
#[verifier::rlimit(60)]
pub proof fn images_are_packed_if_they_fit(
    names: Seq<String>,
    images: Seq<Option<Raster>>,
    order: Seq<usize>,
)
    requires
        names.len() == images.len(),
        images.len() <= usize::MAX,
        is_order(keys(names), order),
        packable(images),
    ensures
        ({
            let n = images.len() as int;
            let first = taken(images, order, 0);
            let cols = across(n, first.width);
            match packing(names, images, order) {
                Ok(_) => n > 0 && agree(images, order) && first.height > 0 && exists|rows: int| #[trigger]
                    fill_rows(n, cols, rows) && rows * first.height <= 4096,
                Err(Fault::Flawed(Flaw::Unreadable { index })) => index < n && images[index as int]
                    is None && forall|i: int| 0 <= i < index ==> (#[trigger] images[i]) is Some,
                Err(Fault::Flawed(Flaw::NoImages)) => n == 0,
                Err(
                    Fault::Flawed(
                        Flaw::ImageSizeDiffers { index, width, height, first_width, first_height },
                    ),
                ) => n > 0 && (forall|i: int| 0 <= i < n ==> (#[trigger] images[i]) is Some)
                    && first.width == first_width && first.height == first_height && (width
                    != first_width || height != first_height) && exists|k: int|
                    {
                        &&& 0 <= k < n
                        &&& #[trigger] order[k] == index
                        &&& taken(images, order, k).width == width
                        &&& taken(images, order, k).height == height
                        &&& forall|j: int|
                            0 <= j < k ==> images[(#[trigger] order[j]) as int]->0.width
                                == first_width && images[order[j] as int]->0.height == first_height
                    },
                Err(Fault::Flawed(Flaw::AtlasTooLarge)) => n > 0 && agree(images, order) && exists|
                    rows: int,
                | #[trigger]
                    fill_rows(n, cols, rows) && rows * first.height > 4096,
                Err(Fault::Encode(index)) => index == 0 && n > 0 && agree(images, order) && first.height
                    == 0,
                Err(_) => false,
            }
        }),
{
    let n = images.len() as int;
    let pictures = sorted_pictures(images, order);
    the_first_missing_picture_is_found(images, 0);
    assert(keys(names).len() == n);
    assert(order.len() == n);
    assert forall|k: int| 0 <= k < n implies (#[trigger] order[k]) < n && pictures[k]
        == images[order[k] as int]->0 by {}
    if n > 0 && first_missing(images, 0) is None {
        lemma_differs(pictures, 0);
        match first_of_other_size(pictures, 0) {
            Some(k) => {
                assert(order[k] < n);
                assert forall|j: int|
                    0 <= j < k implies images[(#[trigger] order[j]) as int]->0.width
                    == pictures[0].width && images[order[j] as int]->0.height
                    == pictures[0].height by {
                    assert(pictures[j].width == pictures[0].width);
                }
            },
            None => {
                assert forall|k: int|
                    0 <= k < images.len() implies images[(#[trigger] order[k]) as int]->0.width
                    == pictures[0].width && images[order[k] as int]->0.height
                    == pictures[0].height by {
                    assert(pictures[k].width == pictures[0].width);
                }
                assert(agree(images, order));
                crate::cxta::lemma_uniform(images, keys(names), order);
                lemma_rows(n, pictures[0].width);
                let rows = atlas_rows(n, pictures[0].width);
                assert(fill_rows(n, across(n, pictures[0].width), rows));
            },
        }
    }
}

proof fn lemma_differs(pictures: Seq<Raster>, from: int)
    requires
        0 <= from,
    ensures
        match first_of_other_size(pictures, from) {
            Some(at) => from <= at < pictures.len() && (pictures[at].width != pictures[0].width
                || pictures[at].height != pictures[0].height) && forall|i: int|
                from <= i < at ==> (#[trigger] pictures[i]).width == pictures[0].width
                    && pictures[i].height == pictures[0].height,
            None => forall|i: int|
                from <= i < pictures.len() ==> (#[trigger] pictures[i]).width == pictures[0].width
                    && pictures[i].height == pictures[0].height,
        },
    decreases pictures.len() - from,
{
    if from < pictures.len() {
        lemma_differs(pictures, from + 1);
    }
}

/// A packed atlas is that of the images in the order of their names, each under its name.
pub proof fn images_are_packed_in_order(
    names: Seq<String>,
    images: Seq<Option<Raster>>,
    order: Seq<usize>,
    blob: Seq<u8>,
)
    requires
        packing(names, images, order) == Ok::<Seq<u8>, Fault>(blob),
    ensures
        blob == atlas_blob(
            Seq::new(order.len(), |k: int| names[order[k] as int]@),
            Seq::new(order.len(), |k: int| taken(images, order, k)),
        ),
{
    let pictures = Seq::new(order.len(), |k: int| taken(images, order, k));
    assert(sorted_names(names, order) =~= Seq::new(order.len(), |k: int| names[order[k] as int]@));
    assert(sorted_pictures(images, order) =~= pictures);
}

/// Images can be packed where they are not all of one size or not all there, and where they are, if
/// they are no wider than an atlas and not empty across, and there are not too many of them. Images
/// that are empty across or wider than an atlas cannot.
pub proof fn ordinary_images_can_be_packed(images: Seq<Option<Raster>>, width: u32, height: u32)
    requires
        images.len() > 0,
        forall|i: int|
            0 <= i < images.len() ==> (#[trigger] images[i]) is Some && images[i]->0.width == width
                && images[i]->0.height == height && images[i]->0.pixels.len() == 4 * (width
                * height),
    ensures
        width == 0 || width > 4096 ==> !packable(images),
        0 < width <= 4096 && images.len() < 0x8000_0000 && images.len() * height < 0x1_0000_0000
            ==> packable(images),
{
    let n = images.len() as int;
    assert(images[0] is Some);
    if 0 < width <= 4096 && images.len() < 0x8000_0000 && images.len() * height < 0x1_0000_0000 {
        lemma_rows(n, width);
        let cols = across(n, width);
        let rows = atlas_rows(n, width);
        assert(rows <= n && rows * height <= n * height) by (nonlinear_arith)
            requires
                (rows - 1) * cols < n,
                1 <= cols <= n,
                1 <= rows,
                1 <= n,
                0 <= height,
        ;
        assert forall|i: int| 0 <= i < images.len() && (#[trigger] images[i])
            is Some implies images[i]->0.wf() by {}
    }
}

/// Images that are not all there can be handed to packing, which names the first that is missing.
pub proof fn missing_images_can_be_packed(images: Seq<Option<Raster>>, at: int)
    requires
        0 <= at < images.len(),
        images[at] is None,
        forall|i: int|
            0 <= i < images.len() && (#[trigger] images[i]) is Some ==> images[i]->0.pixels.len()
                == 4 * (images[i]->0.width * images[i]->0.height),
    ensures
        packable(images),
{
}

/// An atlas shows every image in its cell, row by row, and transparent black in the cells behind
/// the last.
pub proof fn atlases_show_their_images(
    pictures: Seq<Raster>,
    cell: int,
    rows: int,
    x: int,
    y: int,
    c: int,
)
    requires
        pictures.len() > 0,
        forall|i: int|
            0 <= i < pictures.len() ==> (#[trigger] pictures[i]).width == pictures[0].width
                && pictures[i].height == pictures[0].height,
        0 < pictures[0].width <= 4096,
        fill_rows(pictures.len() as int, across(pictures.len() as int, pictures[0].width), rows),
        rows * pictures[0].height <= 4096,
        0 <= cell < across(pictures.len() as int, pictures[0].width) * rows,
        0 <= x < pictures[0].width,
        0 <= y < pictures[0].height,
        0 <= c < 4,
    ensures
        ({
            let width = pictures[0].width;
            let height = pictures[0].height;
            let cols = across(pictures.len() as int, width);
            let atlas = atlas_of(pictures, width, height);
            &&& atlas.width == cols * width
            &&& atlas.height == rows * height
            &&& pixel(atlas, (cell % cols) * width + x, (cell / cols) * height + y, c) == (if cell
                < pictures.len() {
                pixel(pictures[cell], x, y, c)
            } else {
                0u8
            })
        }),
{
    let width = pictures[0].width;
    let height = pictures[0].height;
    let n = pictures.len() as int;
    let cols = across(n, width);
    lemma_rows(n, width);
    let own = atlas_rows(n, width);
    assert(rows == own) by (nonlinear_arith)
        requires
            (rows - 1) * cols < n,
            n <= rows * cols,
            (own - 1) * cols < n,
            n <= own * cols,
            1 <= cols,
    ;
    sheets_show_their_pictures(pictures, cols, rows, width, height, cell, x, y, c);
}

/// Whether cells are those that hold the last image of their name: ascending, one for each name.
pub open spec fn are_last_cells(names: Seq<Seq<char>>, cells: Seq<int>) -> bool {
    &&& forall|a: int, b: int| 0 <= a < b < cells.len() ==> #[trigger] cells[a] < #[trigger] cells[b]
    &&& forall|a: int| 0 <= a < cells.len() ==> 0 <= (#[trigger] cells[a]) < names.len()
    &&& forall|k: int|
        0 <= k < names.len() ==> ((forall|j: int|
            k < j < names.len() ==> #[trigger] names[j] != names[k])
            == #[trigger] cells.contains(k))
}

/// The item that a blob holds at `at`: the hash of a name in eight bytes, and the left and top
/// edge, the width and the height in two bytes each.
pub open spec fn holds_item(data: Seq<u8>, at: int, item: Item) -> bool {
    &&& 0 <= at && at + 16 <= data.len()
    &&& number(data, at, 8) == item.hash
    &&& number(data, at + 8, 2) == item.x
    &&& number(data, at + 10, 2) == item.y
    &&& number(data, at + 12, 2) == item.width
    &&& number(data, at + 14, 2) == item.height
}

proof fn lemma_item_holds(data: Seq<u8>, at: int)
    requires
        0 <= at,
        at + 16 <= data.len(),
    ensures
        holds_item(data, at, item_at(data, at)),
{
    numbers_are_read_low_byte_first(data, at);
    numbers_are_read_low_byte_first(data, at + 8);
    numbers_are_read_low_byte_first(data, at + 10);
    numbers_are_read_low_byte_first(data, at + 12);
    numbers_are_read_low_byte_first(data, at + 14);
}

/// A packed atlas is its magic, the number of items, the length of the PNG and the PNG of the
/// atlas; then an item for each name, in order, with the hash of the name under the seed zero and
/// the place and dimensions of the last image of that name.
#[verifier::rlimit(60)]
pub proof fn atlases_are_laid_out_so(names: Seq<Seq<char>>, pictures: Seq<Raster>) -> (cells: Seq<
    int,
>)
    requires
        names.len() == pictures.len(),
        pictures.len() > 0,
        pictures.len() < 0x1_0000_0000,
        0 < pictures[0].width <= 4096,
        pictures[0].height <= 4096,
        atlas_rows(pictures.len() as int, pictures[0].width) * pictures[0].height <= 4096,
        ({
            let atlas = atlas_of(pictures, pictures[0].width, pictures[0].height);
            png_stream(atlas.width, atlas.height, atlas.pixels).len() < 0x1_0000_0000
        }),
    ensures
        are_last_cells(names, cells),
        ({
            let blob = atlas_blob(names, pictures);
            let width = pictures[0].width;
            let height = pictures[0].height;
            let cols = across(pictures.len() as int, width);
            let atlas = atlas_of(pictures, width, height);
            let png = png_stream(atlas.width, atlas.height, atlas.pixels);
            &&& begins_with(blob, seq![67u8, 88, 84, 65])
            &&& number(blob, 4, 4) == cells.len()
            &&& number(blob, 8, 4) == png.len()
            &&& blob.len() == 12 + png.len() + 16 * cells.len()
            &&& forall|k: int| 0 <= k < png.len() ==> blob[12 + k] == #[trigger] png[k]
            &&& forall|i: int|
                0 <= i < cells.len() ==> {
                    let at = 12 + png.len() + 16 * i;
                    &&& number(blob, at, 8) == xxh64_of(encode_utf8(names[#[trigger] cells[i]]), 0)
                    &&& number(blob, at + 8, 2) == (cells[i] % cols) * width
                    &&& number(blob, at + 10, 2) == (cells[i] / cols) * height
                    &&& number(blob, at + 12, 2) == width
                    &&& number(blob, at + 14, 2) == height
                }
        }),
{
    let width = pictures[0].width;
    let height = pictures[0].height;
    let n = pictures.len() as int;
    let cols = across(n, width);
    let rows = atlas_rows(n, width);
    let cells = kept(names, n);
    let items = items_of(names, cells, atlas_cols(n, width), width, height);
    let atlas = atlas_of(pictures, width, height);
    let png = png_stream(atlas.width, atlas.height, atlas.pixels);
    let blob = atlas_blob(names, pictures);
    lemma_rows(n, width);
    last_of_each_name_is_kept(names, n);
    assert forall|k: int| 0 <= k < names.len() implies ((forall|j: int|
        k < j < names.len() ==> #[trigger] names[j] != names[k]) == #[trigger] cells.contains(
        k,
    )) by {
        if cells.contains(k) {
            let a = choose|a: int| 0 <= a < cells.len() && cells[a] == k;
            assert(is_last(names, cells[a]));
        }
        if forall|j: int| k < j < names.len() ==> #[trigger] names[j] != names[k] {
            assert(is_last(names, k));
        }
    }
    lemma_blob(png, items);
    assert(blob == cxta_blob(png, items));
    assert(rows * cols == cols * rows) by (nonlinear_arith);
    assert forall|i: int| 0 <= i < cells.len() implies {
        let at = 12 + png.len() + 16 * i;
        &&& number(blob, at, 8) == xxh64_of(encode_utf8(names[#[trigger] cells[i]]), 0)
        &&& number(blob, at + 8, 2) == (cells[i] % cols) * width
        &&& number(blob, at + 10, 2) == (cells[i] / cols) * height
        &&& number(blob, at + 12, 2) == width
        &&& number(blob, at + 14, 2) == height
    } by {
        assert(holds_item(blob, 12 + png.len() + 16 * i, items[i]));
        assert(0 <= cells[i] < n);
        lemma_item(names[cells[i]], cells[i], cols, rows, width, height);
    }
    cells
}

/// The item of a cell says its hash, its place and its dimensions.
proof fn lemma_item(name: Seq<char>, cell: int, cols: int, rows: int, width: u32, height: u32)
    requires
        0 < cols,
        0 <= cell < cols * rows,
        width <= 4096,
        height <= 4096,
        cols * width <= 4096,
        rows * height <= 4096,
    ensures
        ({
            let item = item_of(name, cell, cols, width, height);
            &&& item.hash == xxh64_of(encode_utf8(name), 0)
            &&& item.x == (cell % cols) * width
            &&& item.y == (cell / cols) * height
            &&& item.width == width
            &&& item.height == height
        }),
{
    crate::sheet::lemma_cell_inside(cell, cols, rows, width, height);
}

/// The parts of a blob stand in a row.
#[verifier::rlimit(60)]
proof fn lemma_blob(png: Seq<u8>, items: Seq<Item>)
    requires
        png.len() < 0x1_0000_0000,
        items.len() < 0x1_0000_0000,
    ensures
        ({
            let blob = cxta_blob(png, items);
            &&& begins_with(blob, seq![67u8, 88, 84, 65])
            &&& number(blob, 4, 4) == items.len()
            &&& number(blob, 8, 4) == png.len()
            &&& blob.len() == 12 + png.len() + 16 * items.len()
            &&& forall|k: int| 0 <= k < png.len() ==> blob[12 + k] == #[trigger] png[k]
            &&& forall|i: int|
                0 <= i < items.len() ==> holds_item(
                    blob,
                    12 + png.len() + 16 * i,
                    #[trigger] items[i],
                )
        }),
{
    let blob = cxta_blob(png, items);
    let start = 12 + png.len() as int;
    lemma_head(png, items);
    parts_stand_byte_by_byte(blob, 12, png);
    lemma_items_read_back(blob, start, items);
    assert forall|i: int| 0 <= i < items.len() implies holds_item(
        blob,
        12 + png.len() + 16 * i,
        #[trigger] items[i],
    ) by {
        assert(item_at(blob, start + 16 * i) == items[i]);
        lemma_item_holds(blob, start + 16 * i);
    }
}

/// The header of a blob says the numbers of items and of bytes, and the parts stand behind it.
proof fn lemma_head(png: Seq<u8>, items: Seq<Item>)
    requires
        png.len() < 0x1_0000_0000,
        items.len() < 0x1_0000_0000,
    ensures
        ({
            let blob = cxta_blob(png, items);
            let tail = joined(item_parts(items));
            &&& begins_with(blob, seq![67u8, 88, 84, 65])
            &&& number(blob, 4, 4) == items.len()
            &&& number(blob, 8, 4) == png.len()
            &&& blob.len() == 12 + png.len() + tail.len()
            &&& has_at(blob, 12, png)
            &&& has_at(blob, 12 + png.len() as int, tail)
        }),
{
    let blob = cxta_blob(png, items);
    let tail = joined(item_parts(items));
    let count = crate::bytes::le32(items.len() as u32);
    let size = crate::bytes::le32(png.len() as u32);
    let head = CXTA_MAGIC@ + count + size;
    assert(head.len() == 12);
    crate::cxan::lemma_three_stand(head, png, tail);
    lemma_head_numbers(blob, items.len() as u32, png.len() as u32);
}

proof fn lemma_head_numbers(data: Seq<u8>, count: u32, size: u32)
    requires
        has_at(
            data,
            0,
            CXTA_MAGIC@ + crate::bytes::le32(count) + crate::bytes::le32(size),
        ),
    ensures
        begins_with(data, seq![67u8, 88, 84, 65]),
        number(data, 4, 4) == count,
        number(data, 8, 4) == size,
{
    let front = CXTA_MAGIC@ + crate::bytes::le32(count);
    lemma_has_at_parts(data, 0, front, crate::bytes::le32(size));
    lemma_has_at_parts(data, 0, CXTA_MAGIC@, crate::bytes::le32(count));
    crate::bytes::lemma_u32_at(data, 4, count);
    crate::bytes::lemma_u32_at(data, 8, size);
    numbers_are_read_low_byte_first(data, 4);
    numbers_are_read_low_byte_first(data, 8);
    assert(CXTA_MAGIC@ =~= seq![67u8, 88, 84, 65]);
    lemma_begins(data, CXTA_MAGIC@);
}

/// A blob is refused if it is shorter than its header, does not begin with the magic, or ends
/// within its PNG. The PNG and the items are read where they stand, as many items as are announced
/// and there.
#[verifier::rlimit(60)]
pub proof fn atlases_are_read_so(data: Seq<u8>)
    ensures
        ({
            let size = number(data, 8, 4);
            let count = number(data, 4, 4);
            let start = 12 + size;
            match header_flaw(data) {
                Some(Flaw::TooShort) => data.len() < 12,
                Some(Flaw::BadMagic) => data.len() >= 12 && !begins_with(
                    data,
                    seq![67u8, 88, 84, 65],
                ),
                Some(Flaw::PngCutShort) => data.len() >= 12 && begins_with(
                    data,
                    seq![67u8, 88, 84, 65],
                ) && start > data.len(),
                Some(_) => false,
                None => {
                    &&& data.len() >= 12
                    &&& begins_with(data, seq![67u8, 88, 84, 65])
                    &&& start <= data.len()
                    &&& stored_png(data).len() == size
                    &&& forall|k: int|
                        0 <= k < size ==> #[trigger] stored_png(data)[k] == data[12 + k]
                    &&& items_cut(data) == (start + 16 * count > data.len())
                    &&& !items_cut(data) ==> stored_items(data).len() == count
                    &&& items_cut(data) ==> start + 16 * stored_items(data).len() <= data.len()
                        < start + 16 * (stored_items(data).len() + 1)
                    &&& forall|i: int|
                        0 <= i < stored_items(data).len() ==> holds_item(
                            data,
                            start + 16 * i,
                            #[trigger] stored_items(data)[i],
                        )
                },
            }
        }),
{
    assert(CXTA_MAGIC@ =~= seq![67u8, 88, 84, 65]);
    lemma_begins(data, CXTA_MAGIC@);
    numbers_are_read_low_byte_first(data, 4);
    numbers_are_read_low_byte_first(data, 8);
    if header_flaw(data) is None {
        let start = 12 + number(data, 8, 4);
        assert forall|i: int| 0 <= i < stored_items(data).len() implies holds_item(
            data,
            start + 16 * i,
            #[trigger] stored_items(data)[i],
        ) by {
            lemma_item_holds(data, start + 16 * i);
        }
    }
}

/// Whether the image of an item lies on the atlas.
pub open spec fn lies_on_atlas(atlas: Raster, item: Item) -> bool {
    item.x + item.width <= atlas.width && item.y + item.height <= atlas.height
}

/// The image of an item is the part of the atlas that it names, pixel by pixel.
pub proof fn images_are_cut_from_the_atlas(atlas: Raster, item: Item, x: int, y: int, c: int)
    requires
        0 <= x < item.width,
        0 <= y < item.height,
        0 <= c < 4,
    ensures
        ({
            let image = picture_at(atlas, item);
            &&& image.width == item.width
            &&& image.height == item.height
            &&& pixel(image, x, y, c) == pixel(atlas, item.x + x, item.y + y, c)
        }),
{
    cutting_keeps_the_pixels(
        atlas,
        item.x as int,
        item.y as int,
        item.width as u32,
        item.height as u32,
        x,
        y,
        c,
    );
}

/// A hash is shown as the sixteen hexadecimal digits that write it.
pub proof fn hashes_are_shown_in_full(hash: u64)
    ensures
        hash_name(hash).len() == 16,
        is_number(hash_name(hash), 16),
        value(hash_name(hash), 16) == hash,
{
    sixteen_digits_are_enough(hash);
    hexadecimals_write_their_number(hash as nat, 16);
}

/// The first `count` items as a description lists them, each with the name and the file of its
/// hash.
pub open spec fn listing(items: Seq<Item>, count: int) -> Seq<char>
    decreases count,
{
    if count <= 0 {
        Seq::empty()
    } else {
        let name = hash_name(items[count - 1].hash);
        let line = "{ name = \""@ + name + "\", file = \""@ + name + ".png\" }"@;
        if count == 1 {
            line
        } else {
            listing(items, count - 1) + "\n[[images]]\n"@ + line
        }
    }
}

/// The description names the items in order.
pub proof fn descriptions_name_the_items(items: Seq<Item>)
    ensures
        description(items) == "[[images]]\n"@ + listing(items, items.len() as int),
{
    lemma_listing(items, items.len() as int);
    assert(item_lines(items).take(items.len() as int) =~= item_lines(items));
}

proof fn lemma_listing(items: Seq<Item>, count: int)
    requires
        0 <= count <= items.len(),
    ensures
        listed(item_lines(items).take(count), "\n[[images]]\n"@) == listing(items, count),
    decreases count,
{
    let lines = item_lines(items).take(count);
    if count > 0 {
        lemma_listing(items, count - 1);
        let fewer = item_lines(items).take(count - 1);
        assert(lines =~= fewer.push(lines[count - 1]));
        lists_grow_at_the_end(fewer, lines[count - 1], "\n[[images]]\n"@);
        if count == 1 {
            assert(lines =~= seq![lines[0]]);
        }
    } else {
        assert(lines =~= Seq::<Seq<char>>::empty());
    }
}

/// Whether the image of an item lies on the atlas and has pixels.
pub open spec fn can_be_saved(atlas: Raster, item: Item) -> bool {
    lies_on_atlas(atlas, item) && item.width > 0 && item.height > 0
}

/// Unpacking creates the folder and saves the images of the items in order, each under the digits
/// of its hash and `.png`, up to the first that does not lie on the atlas or has no pixels, of
/// which an empty file is left; where all are saved and none is cut off, the description at the
/// end.
pub proof fn images_are_saved_in_order(
    atlas: Raster,
    items: Seq<Item>,
    cut: bool,
    saved: int,
    unpacked: Unpacked<()>,
)
    requires
        unpacked.says(exporting(atlas, items, cut)),
        items.len() <= usize::MAX,
        0 <= saved <= items.len(),
        forall|i: int| 0 <= i < saved ==> can_be_saved(atlas, #[trigger] items[i]),
        saved < items.len() ==> !can_be_saved(atlas, items[saved]),
    ensures
        ({
            let effects = unpacked.effects@;
            let bare = saved < items.len() && lies_on_atlas(atlas, items[saved]);
            let whole = saved == items.len() && !cut;
            &&& effects.len() == 1 + saved + (if bare || whole {
                1int
            } else {
                0
            })
            &&& effects[0] is CreateFolder
            &&& forall|i: int|
                0 <= i < saved ==> {
                    let image = picture_at(atlas, items[i]);
                    writes(
                        #[trigger] effects[1 + i],
                        hash_name(items[i].hash) + ".png"@,
                        png_file(image.width, image.height, image.pixels),
                    )
                }
            &&& bare ==> writes(
                effects[1 + saved],
                hash_name(items[saved].hash) + ".png"@,
                Seq::empty(),
            )
            &&& whole ==> writes(
                effects[1 + saved],
                "atlas.entry"@,
                encode_utf8("[[images]]\n"@ + listing(items, items.len() as int)),
            )
            &&& match unpacked.outcome {
                Ok(_) => whole,
                Err(error) => !whole && error.fault() == if bare {
                    Fault::Save(saved)
                } else if saved < items.len() {
                    Fault::Flawed(Flaw::CellOutside { index: saved as usize })
                } else {
                    Fault::Flawed(Flaw::ItemsCutShort)
                },
            }
        }),
{
    let effects = unpacked.effects@;
    let all = deeds(effects);
    let placed = placed_count(atlas, items, 0);
    lemma_placed_count(atlas, items, 0, saved);
    lemma_saving(atlas, items, 0, saved, placed);
    descriptions_name_the_items(items);
    assert(all.len() == effects.len());
    assert(all[0] == effects[0]@);
    let written = saving(atlas, items, 0, placed).0;
    assert forall|i: int| 0 <= i < saved implies {
        let image = picture_at(atlas, items[i]);
        writes(
            #[trigger] effects[1 + i],
            hash_name(items[i].hash) + ".png"@,
            png_file(image.width, image.height, image.pixels),
        )
    } by {
        assert(all[1 + i] == effects[1 + i]@);
        assert(all[1 + i] == written[i]);
    }
    if effects.len() > 1 + saved {
        assert(all[1 + saved] == effects[1 + saved]@);
        if saved < items.len() {
            assert(all[1 + saved] == written[saved]);
        }
    }
}

proof fn lemma_placed_count(atlas: Raster, items: Seq<Item>, from: int, saved: int)
    requires
        0 <= from <= saved <= items.len(),
        forall|i: int| from <= i < saved ==> can_be_saved(atlas, #[trigger] items[i]),
    ensures
        saved <= placed_count(atlas, items, from) <= items.len(),
        saved < items.len() && !lies_on_atlas(atlas, items[saved]) ==> placed_count(
            atlas,
            items,
            from,
        ) == saved,
        saved < items.len() && lies_on_atlas(atlas, items[saved]) ==> placed_count(
            atlas,
            items,
            from,
        ) > saved,
    decreases items.len() - from,
{
    if from < saved {
        assert(can_be_saved(atlas, items[from]));
        lemma_placed_count(atlas, items, from + 1, saved);
    } else if from < items.len() && lies_on_atlas(atlas, items[from]) {
        lemma_count_bounds(atlas, items, from + 1);
    }
}

proof fn lemma_count_bounds(atlas: Raster, items: Seq<Item>, from: int)
    requires
        0 <= from <= items.len(),
    ensures
        from <= placed_count(atlas, items, from) <= items.len(),
    decreases items.len() - from,
{
    if from < items.len() && crate::cxta::is_placed(atlas, items[from]) {
        lemma_count_bounds(atlas, items, from + 1);
    }
}

proof fn lemma_saving(atlas: Raster, items: Seq<Item>, from: int, saved: int, to: int)
    requires
        0 <= from <= saved <= to <= items.len(),
        forall|i: int| from <= i < saved ==> can_be_saved(atlas, #[trigger] items[i]),
        saved < to ==> items[saved].width == 0 || items[saved].height == 0,
    ensures
        ({
            let all = saving(atlas, items, from, to);
            &&& all.0.len() == saved - from + (if saved < to {
                1int
            } else {
                0
            })
            &&& forall|i: int|
                0 <= i < saved - from ==> #[trigger] all.0[i] == (Deed::WriteFile {
                    name: hash_name(items[from + i].hash) + ".png"@,
                    contents: crate::codec::file_of(picture_at(atlas, items[from + i])),
                })
            &&& saved < to ==> all.0[saved - from] == (Deed::WriteFile {
                name: hash_name(items[saved].hash) + ".png"@,
                contents: Seq::empty(),
            }) && all.1 == Some(Fault::Save(saved))
            &&& saved == to ==> all.1 is None
        }),
    decreases saved - from,
{
    let all = saving(atlas, items, from, to);
    if from < saved {
        assert(can_be_saved(atlas, items[from]));
        lemma_saving(atlas, items, from + 1, saved, to);
        let rest = saving(atlas, items, from + 1, to);
        assert forall|i: int| 0 <= i < saved - from implies #[trigger] all.0[i] == (
        Deed::WriteFile {
            name: hash_name(items[from + i].hash) + ".png"@,
            contents: crate::codec::file_of(picture_at(atlas, items[from + i])),
        }) by {
            if i > 0 {
                assert(all.0[i] == rest.0[i - 1]);
            }
        }
        if saved < to {
            assert(all.0[saved - from] == rest.0[saved - from - 1]);
        }
    }
}

/// Nothing is done with a blob whose header is broken or whose atlas does not decode; else its
/// images are saved from the atlas that its PNG decodes to.
pub proof fn atlases_are_decoded_first(
    data: Seq<u8>,
    decoded: Option<Raster>,
    unpacked: Unpacked<()>,
)
    requires
        unpacked.says(unpacking(data, decoded)),
    ensures
        match header_flaw(data) {
            Some(flaw) => unpacked.effects@.len() == 0 && unpacked.outcome is Err
                && unpacked.outcome->Err_0.fault() == Fault::Flawed(flaw),
            None => match decoded {
                None => unpacked.effects@.len() == 0 && unpacked.outcome is Err
                    && unpacked.outcome->Err_0.fault() == Fault::Decode(0),
                Some(atlas) => unpacked.says(
                    exporting(atlas, stored_items(data), items_cut(data)),
                ),
            },
        },
{
    assert(deeds(unpacked.effects@).len() == unpacked.effects@.len());
}

} // verus!
