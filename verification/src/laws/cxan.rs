//! Animations.
use vstd::arithmetic::div_mod::{lemma_fundamental_div_mod, lemma_mod_bound};
use vstd::prelude::*;

use crate::bytes::{has_at, joined, lemma_has_at_nested, lemma_joined_at};
use crate::codec::{decoded_png, is_png, png_file, png_stream};
use crate::cxan::{
    all_pages, animation_blob, cells_per_page, chunk, chunk_count, decoded_pages, described_fps,
    exporting, first_of_other_size, first_undecoded, fps_in, frame_name, frame_of, frames_flaw,
    header_flaw, is_frame, is_placed, lemma_cells, lemma_chunk, lemma_frame_place,
    lemma_packed_is_storable, lemma_page_reads_back, lemma_page_shape, map_of, packable, packing,
    page_bytes, page_cols, page_parts, page_rows, page_sheet, pages_at, placed_count, saving,
    selects_frames, stored_fps, stored_map, stored_pages, unpacking, FolderEntry, PageView,
    CXAN_MAGIC, CXAP_MAGIC,
};
use crate::driver::{deeds, Deed, Unpacked};
use crate::fault::{Fault, Flaw};
use crate::laws::bytes::{number, numbers_are_read_low_byte_first, parts_stand_byte_by_byte};
use crate::laws::container::{begins_with, lemma_begins};
use crate::laws::cxsi::writes;
use crate::laws::pictures::{
    cutting_keeps_the_pixels, pixel, sheets_show_their_pictures,
    the_first_missing_picture_is_found,
};
use crate::laws::sort::{bytes_are_in_dictionary_order, precedes};
use crate::laws::text::{case_is_that_of_ascii_letters, is_numbered, lemma_numbered, same_letter};
use crate::raster::{first_missing, Raster};
use crate::sort::{goes_before, has_place};
use crate::tree::{toml_tree, Tree};

verus! {

/// Frames are packed unless there are more than two bytes can count, or they are wider or higher
/// than a page of 16384 by 16384 pixels.
pub proof fn frames_are_packed_unless_too_many_or_too_large(fps: u32, frames: Seq<Raster>)
    requires
        frames.len() > 0,
    ensures
        match packing(fps, frames) {
            Err(Fault::Flawed(Flaw::TooManyFrames)) => frames.len() > 65535,
            Err(Fault::Flawed(Flaw::FrameTooLarge)) => frames.len() <= 65535 && (frames[0].width
                > 16384 || frames[0].height > 16384),
            Err(_) => false,
            Ok(_) => frames.len() <= 65535 && frames[0].width <= 16384 && frames[0].height <= 16384,
        },
{
}

/// The most frames that stand on a page of 16384 by 16384 pixels.
pub open spec fn per_page(width: u32, height: u32) -> int {
    (16384int / width as int) * (16384int / height as int)
}

/// The frames on the page `p` of `count` frames.
pub open spec fn on_page(count: int, per: int, p: int) -> int {
    if (p + 1) * per <= count {
        per
    } else {
        count - p * per
    }
}

/// The columns of frames on a page: as many as fit, or as there are frames.
pub open spec fn across(count: int, width: u32) -> int {
    if 16384int / width as int <= count {
        16384int / width as int
    } else {
        count
    }
}

/// Where the page `p` stands, each page being as long as it says itself.
pub open spec fn place_of(data: Seq<u8>, start: int, p: int) -> int
    decreases p,
{
    if p <= 0 {
        start
    } else {
        let before = place_of(data, start, p - 1);
        before + 20 + number(data, before + 16, 4)
    }
}

/// Whether a page stands at `at`: its magic, its columns and rows in two bytes each, the dimensions
/// of a frame and the length of its PNG in four bytes each, and the PNG.
pub open spec fn holds_page(data: Seq<u8>, at: int, page: PageView) -> bool {
    &&& 0 <= at
    &&& at + 20 + page.png.len() <= data.len()
    &&& data[at] == 67 && data[at + 1] == 88 && data[at + 2] == 65 && data[at + 3] == 80
    &&& number(data, at + 4, 2) == page.cols
    &&& number(data, at + 6, 2) == page.rows
    &&& number(data, at + 8, 4) == page.width
    &&& number(data, at + 12, 4) == page.height
    &&& number(data, at + 16, 4) == page.png.len()
    &&& forall|k: int| 0 <= k < page.png.len() ==> data[at + 20 + k] == #[trigger] page.png[k]
}

/// The picture of the page `p` of an animation.
pub open spec fn page_picture(frames: Seq<Raster>, p: int) -> Raster {
    let width = frames[0].width;
    let height = frames[0].height;
    page_sheet(chunk(frames, cells_per_page(width, height), p), width, height)
}

proof fn lemma_page_holds(data: Seq<u8>, at: int, page: PageView)
    requires
        has_at(data, at, page_bytes(page)),
        page.png.len() <= u32::MAX,
    ensures
        holds_page(data, at, page),
{
    lemma_page_reads_back(data, at, page);
    numbers_are_read_low_byte_first(data, at + 4);
    numbers_are_read_low_byte_first(data, at + 6);
    numbers_are_read_low_byte_first(data, at + 8);
    numbers_are_read_low_byte_first(data, at + 12);
    numbers_are_read_low_byte_first(data, at + 16);
    parts_stand_byte_by_byte(data, at, CXAP_MAGIC@);
    assert(data[at + 0] == CXAP_MAGIC@[0] && data[at + 1] == CXAP_MAGIC@[1]);
    assert(data[at + 2] == CXAP_MAGIC@[2] && data[at + 3] == CXAP_MAGIC@[3]);
    let png = data.subrange(at + 20, at + 20 + page.png.len());
    assert forall|k: int| 0 <= k < page.png.len() implies data[at + 20 + k]
        == #[trigger] page.png[k] by {
        assert(png[k] == data[at + 20 + k]);
    }
}

/// The pages of a packed animation stand in a row.
#[verifier::rlimit(60)]
proof fn lemma_pages_stand(data: Seq<u8>, pages: Seq<PageView>, p: int)
    requires
        has_at(data, 20, joined(page_parts(pages))),
        forall|k: int| 0 <= k < pages.len() ==> (#[trigger] pages[k]).png.len() <= u32::MAX,
        0 <= p <= pages.len(),
    ensures
        place_of(data, 20, p) == 20 + joined(page_parts(pages).take(p)).len(),
        p < pages.len() ==> holds_page(data, place_of(data, 20, p), pages[p]),
    decreases p,
{
    let parts = page_parts(pages);
    if p > 0 {
        lemma_pages_stand(data, pages, p - 1);
        lemma_joined_at(parts, p - 1);
        assert(parts[p - 1] == page_bytes(pages[p - 1]));
        assert(page_bytes(pages[p - 1]).len() == 20 + pages[p - 1].png.len());
    } else {
        assert(parts.take(0) =~= Seq::<Seq<u8>>::empty());
    }
    if p < pages.len() {
        lemma_joined_at(parts, p);
        let before = joined(parts.take(p)).len() as int;
        lemma_has_at_nested(data, 20, joined(parts), before, parts[p]);
        assert(parts[p] == page_bytes(pages[p]));
        lemma_page_holds(data, 20 + before, pages[p]);
    }
}

/// A packed animation is its magic, the number of pages and of frames, the bits of the frame rate,
/// the offsets of the pages and of the frame map; then the pages one after the other; and for each
/// frame its page and its cell, frames filling the cells of a page before the next page begins.
#[verifier::rlimit(60)]
pub proof fn animations_are_laid_out_so(fps: u32, frames: Seq<Raster>, p: int, i: int)
    requires
        packable(frames),
        packing(fps, frames) is Ok,
        animation_blob(fps, frames).len() < 0x1_0000_0000,
        0 <= p,
        p * per_page(frames[0].width, frames[0].height) < frames.len(),
        0 <= i < frames.len(),
    ensures
        ({
            let blob = animation_blob(fps, frames);
            let width = frames[0].width;
            let height = frames[0].height;
            let n = frames.len() as int;
            let per = per_page(width, height);
            let pages = number(blob, 4, 2);
            let map = place_of(blob, 20, pages);
            let count = on_page(n, per, p);
            let cols = across(count, width);
            let picture = page_picture(frames, p);
            let at = place_of(blob, 20, p);
            &&& begins_with(blob, seq![67u8, 88, 65, 78])
            &&& (pages - 1) * per < n <= pages * per
            &&& p < pages
            &&& number(blob, 6, 2) == n
            &&& number(blob, 8, 4) == fps
            &&& number(blob, 12, 4) == 20
            &&& number(blob, 16, 4) == map
            &&& blob.len() == map + 4 * n
            &&& number(blob, map + 4 * i, 2) == i / per
            &&& number(blob, map + 4 * i + 2, 2) == i % per
            &&& number(blob, at + 4, 2) == cols
            &&& (number(blob, at + 6, 2) - 1) * cols < count <= number(blob, at + 6, 2) * cols
            &&& holds_page(
                blob,
                at,
                PageView {
                    cols: cols as u16,
                    rows: number(blob, at + 6, 2) as u16,
                    width,
                    height,
                    png: png_stream(picture.width, picture.height, picture.pixels),
                },
            )
        }),
{
    let blob = animation_blob(fps, frames);
    let width = frames[0].width;
    let height = frames[0].height;
    let n = frames.len() as int;
    let per = per_page(width, height);
    let pages = all_pages(frames, width, height);
    let total = pages.len() as int;
    let map = map_of(n, per);
    let body = joined(page_parts(pages));
    let tail = joined(crate::cxan::map_parts(map));
    let offset = (20 + body.len()) as u32;
    let head = crate::cxan::header_bytes(total as u16, n as u16, fps, offset);
    lemma_cells(width, height);
    lemma_packed_is_storable(fps, frames);
    assert(per == cells_per_page(width, height));
    assert(blob == head + body + tail);
    crate::cxan::lemma_three_stand(head, body, tail);
    crate::cxan::lemma_header_reads_back(blob, total as u16, n as u16, fps, offset);
    assert(CXAN_MAGIC@ =~= seq![67u8, 88, 65, 78]);
    lemma_begins(blob, CXAN_MAGIC@);
    numbers_are_read_low_byte_first(blob, 4);
    numbers_are_read_low_byte_first(blob, 6);
    numbers_are_read_low_byte_first(blob, 8);
    numbers_are_read_low_byte_first(blob, 12);
    numbers_are_read_low_byte_first(blob, 16);
    lemma_count(n, per, total, p);
    lemma_pages_stand(blob, pages, total);
    lemma_pages_stand(blob, pages, p);
    assert(page_parts(pages).take(total) =~= page_parts(pages));
    crate::cxan::lemma_map_reads_back(blob, offset as int, map);
    let m = 20 + body.len() as int;
    let cells = crate::cxan::map_at(blob, m, n)->0;
    assert(cells[i] == map[i]);
    numbers_are_read_low_byte_first(blob, m + 4 * i);
    numbers_are_read_low_byte_first(blob, m + 4 * i + 2);
    lemma_frame_place(frames, per, i);
    lemma_shape(frames, p);
}

/// The number of pages is the least that holds all the frames.
proof fn lemma_count(n: int, per: int, total: int, p: int)
    requires
        0 < per,
        0 < n,
        total == chunk_count(n, per),
        0 <= p,
        p * per < n,
    ensures
        (total - 1) * per < n <= total * per,
        p < total,
{
    lemma_fundamental_div_mod(n + per - 1, per);
    lemma_mod_bound(n + per - 1, per);
    let left = (n + per - 1) % per;
    assert((total - 1) * per < n && n <= total * per && p < total) by (nonlinear_arith)
        requires
            n + per - 1 == per * total + left,
            0 <= left < per,
            p * per < n,
            0 < per,
    ;
}

/// The shape of a page.
proof fn lemma_shape(frames: Seq<Raster>, p: int)
    requires
        packable(frames),
        frames.len() <= 65535,
        frames[0].width <= 16384,
        frames[0].height <= 16384,
        0 <= p,
        p * per_page(frames[0].width, frames[0].height) < frames.len(),
    ensures
        ({
            let width = frames[0].width;
            let height = frames[0].height;
            let per = per_page(width, height);
            let part = chunk(frames, per, p);
            let count = on_page(frames.len() as int, per, p);
            let cols = across(count, width);
            let rows = page_rows(count, width);
            &&& part.len() == count
            &&& 0 < count
            &&& page_cols(count, width) == cols
            &&& 0 < cols <= 16384
            &&& 0 < rows <= 16384
            &&& (rows - 1) * cols < count <= rows * cols
        }),
{
    let width = frames[0].width;
    let height = frames[0].height;
    let per = per_page(width, height);
    let n = frames.len() as int;
    lemma_cells(width, height);
    lemma_count(n, per, chunk_count(n, per), p);
    lemma_chunk(frames, per, p);
    assert((p + 1) * per == p * per + per) by (nonlinear_arith);
    let count = on_page(n, per, p);
    assert(chunk(frames, per, p).len() == count);
    lemma_page_shape(count, width, height);
    let cols = page_cols(count, width);
    let rows = page_rows(count, width);
    lemma_fundamental_div_mod(count + cols - 1, cols);
    lemma_mod_bound(count + cols - 1, cols);
    let left = (count + cols - 1) % cols;
    assert((rows - 1) * cols < count && count <= rows * cols) by (nonlinear_arith)
        requires
            count + cols - 1 == cols * rows + left,
            0 <= left < cols,
            1 <= cols,
    ;
}

/// A page shows its frames in cells, row by row, and transparent black in the cells behind the last
/// frame.
#[verifier::rlimit(60)]
pub proof fn pages_show_their_frames(
    frames: Seq<Raster>,
    p: int,
    cell: int,
    x: int,
    y: int,
    c: int,
)
    requires
        packable(frames),
        frames.len() <= 65535,
        frames[0].width <= 16384,
        frames[0].height <= 16384,
        0 <= p,
        p * per_page(frames[0].width, frames[0].height) < frames.len(),
        0 <= cell,
        0 <= x < frames[0].width,
        0 <= y < frames[0].height,
        0 <= c < 4,
    ensures
        ({
            let width = frames[0].width;
            let height = frames[0].height;
            let per = per_page(width, height);
            let count = on_page(frames.len() as int, per, p);
            let cols = across(count, width);
            let page = page_picture(frames, p);
            &&& page.width == cols * width
            &&& page.height % (height as u32) == 0
            &&& (page.height as int / height as int - 1) * cols < count <= (page.height as int
                / height as int) * cols
            &&& cell < cols * (page.height as int / height as int) ==> pixel(
                page,
                (cell % cols) * width + x,
                (cell / cols) * height + y,
                c,
            ) == (if cell < count {
                pixel(frames[p * per + cell], x, y, c)
            } else {
                0u8
            })
        }),
{
    let width = frames[0].width;
    let height = frames[0].height;
    let per = per_page(width, height);
    let n = frames.len() as int;
    let count = on_page(n, per, p);
    let part = chunk(frames, per, p);
    lemma_cells(width, height);
    lemma_count(n, per, chunk_count(n, per), p);
    lemma_chunk(frames, per, p);
    lemma_shape(frames, p);
    lemma_page_shape(count, width, height);
    let cols = page_cols(count, width);
    let rows = page_rows(count, width);
    assert((rows * height) / (height as int) == rows && (rows * height) % (height as int) == 0)
        by {
        vstd::arithmetic::div_mod::lemma_fundamental_div_mod_converse(
            rows * height,
            height as int,
            rows,
            0,
        );
    }
    if cell < part.len() {
        assert(part[cell] == frames[p * per + cell]);
    }
    if cell < cols * rows {
        sheets_show_their_pictures(part, cols, rows, width, height, cell, x, y, c);
    }
}

/// Pages that stand in a row are read, as many as the header counts.
#[verifier::rlimit(60)]
proof fn lemma_read(
    data: Seq<u8>,
    pages: Seq<PageView>,
    start: int,
    done: int,
    whole: int,
    count: nat,
)
    requires
        0 <= start,
        0 <= done <= whole <= pages.len(),
        done + count >= whole,
        forall|k: int|
            done <= k < whole ==> holds_page(data, place_of(data, start, k), #[trigger] pages[k]),
    ensures
        ({
            let at = place_of(data, start, done);
            let next = place_of(data, start, whole);
            let rest = pages_at(data, next, (done + count - whole) as nat);
            let all = pages_at(data, at, count);
            &&& all.0 == pages.subrange(done, whole) + rest.0
            &&& all.1 == rest.1
        }),
    decreases whole - done,
{
    let at = place_of(data, start, done);
    if done == whole {
        assert(pages.subrange(done, whole) =~= Seq::<PageView>::empty());
        let rest = pages_at(data, at, count);
        assert(pages.subrange(done, whole) + rest.0 =~= rest.0);
    } else {
        let page = pages[done];
        assert(holds_page(data, place_of(data, start, done), pages[done]));
        parts_stand_byte_by_byte(data, at, CXAP_MAGIC@);
        assert forall|i: int| 0 <= i < 4 implies data[at + i] == #[trigger] CXAP_MAGIC@[i] by {
            assert(i == 0 || i == 1 || i == 2 || i == 3);
        }
        numbers_are_read_low_byte_first(data, at + 4);
        numbers_are_read_low_byte_first(data, at + 6);
        numbers_are_read_low_byte_first(data, at + 8);
        numbers_are_read_low_byte_first(data, at + 12);
        numbers_are_read_low_byte_first(data, at + 16);
        let size = page.png.len() as int;
        assert(data.subrange(at + 20, at + 20 + size) =~= page.png);
        assert(place_of(data, start, done + 1) == at + 20 + size);
        lemma_read(data, pages, start, done + 1, whole, (count - 1) as nat);
        let rest = pages_at(
            data,
            place_of(data, start, whole),
            (done + count - whole) as nat,
        );
        assert(pages.subrange(done, whole) + rest.0 =~= seq![page] + (pages.subrange(
            done + 1,
            whole,
        ) + rest.0));
    }
}

/// The pages of a blob are read one after the other from the offset that its header gives, as many
/// as it counts. Where a page is not all there, those before it are given, and what is wrong with
/// it: it has no room for its 20 leading bytes, these do not begin with its magic, or its PNG is
/// cut off.
#[verifier::rlimit(60)]
pub proof fn pages_are_read_from_their_offset(data: Seq<u8>, pages: Seq<PageView>)
    requires
        header_flaw(data) is None,
        pages.len() <= number(data, 4, 2),
        forall|k: int|
            0 <= k < pages.len() ==> holds_page(
                data,
                place_of(data, number(data, 12, 4), k),
                #[trigger] pages[k],
            ),
        pages.len() < number(data, 4, 2) ==> forall|page: PageView|
            !#[trigger] holds_page(
                data,
                place_of(data, number(data, 12, 4), pages.len() as int),
                page,
            ),
    ensures
        stored_pages(data).0 == pages,
        ({
            let next = place_of(data, number(data, 12, 4), pages.len() as int);
            match stored_pages(data).1 {
                None => pages.len() == number(data, 4, 2),
                Some(Flaw::PagesCutShort) => pages.len() < number(data, 4, 2) && next + 20
                    > data.len(),
                Some(Flaw::BadPageMagic) => pages.len() < number(data, 4, 2) && next + 20
                    <= data.len() && !(data[next] == 67 && data[next + 1] == 88 && data[next + 2]
                    == 65 && data[next + 3] == 80),
                Some(Flaw::PngCutShort) => pages.len() < number(data, 4, 2) && next + 20
                    <= data.len() && data[next] == 67 && data[next + 1] == 88 && data[next + 2]
                    == 65 && data[next + 3] == 80 && next + 20 + number(data, next + 16, 4)
                    > data.len(),
                Some(_) => false,
            }
        }),
{
    let n = number(data, 4, 2);
    let start = number(data, 12, 4);
    let count = pages.len() as int;
    numbers_are_read_low_byte_first(data, 4);
    numbers_are_read_low_byte_first(data, 12);
    lemma_read(data, pages, start, 0, count, n as nat);
    assert(pages.subrange(0, count) =~= pages);
    let next = place_of(data, start, count);
    let rest = pages_at(data, next, (n - count) as nat);
    lemma_place_grows(data, start, count);
    if count < n {
        numbers_are_read_low_byte_first(data, next + 4);
        numbers_are_read_low_byte_first(data, next + 6);
        numbers_are_read_low_byte_first(data, next + 8);
        numbers_are_read_low_byte_first(data, next + 12);
        numbers_are_read_low_byte_first(data, next + 16);
        parts_stand_byte_by_byte(data, next, CXAP_MAGIC@);
        let magic = data[next] == 67 && data[next + 1] == 88 && data[next + 2] == 65 && data[next
            + 3] == 80;
        if next + 20 <= data.len() {
            if has_at(data, next, CXAP_MAGIC@) {
                assert(data[next + 0] == CXAP_MAGIC@[0] && data[next + 1] == CXAP_MAGIC@[1]);
                assert(data[next + 2] == CXAP_MAGIC@[2] && data[next + 3] == CXAP_MAGIC@[3]);
            } else if magic {
                assert forall|i: int| 0 <= i < 4 implies data[next + i]
                    == #[trigger] CXAP_MAGIC@[i] by {
                    assert(i == 0 || i == 1 || i == 2 || i == 3);
                }
            }
            let size = number(data, next + 16, 4);
            if magic && next + 20 + size <= data.len() {
                let page = PageView {
                    cols: number(data, next + 4, 2) as u16,
                    rows: number(data, next + 6, 2) as u16,
                    width: number(data, next + 8, 4) as u32,
                    height: number(data, next + 12, 4) as u32,
                    png: data.subrange(next + 20, next + 20 + size),
                };
                assert(holds_page(data, next, page));
            }
        }
    }
    assert(pages + rest.0 =~= pages);
}

proof fn lemma_place_grows(data: Seq<u8>, start: int, p: int)
    requires
        0 <= start,
    ensures
        start <= place_of(data, start, p),
    decreases p,
{
    if p > 0 {
        lemma_place_grows(data, start, p - 1);
        numbers_are_read_low_byte_first(data, place_of(data, start, p - 1) + 16);
    }
}

/// A blob of fewer than 24 bytes is refused, and so is one that does not begin with the magic. The
/// frame rate and the frame map are read where the header says; a map that is not all there is
/// none.
pub proof fn headers_are_read_so(data: Seq<u8>)
    ensures
        header_flaw(data) == (if data.len() < 24 {
            Some(Flaw::TooShort)
        } else if !begins_with(data, seq![67u8, 88, 65, 78]) {
            Some(Flaw::BadMagic)
        } else {
            None
        }),
        stored_fps(data) == number(data, 8, 4),
        match stored_map(data) {
            Some(map) => {
                &&& map.len() == number(data, 6, 2)
                &&& map.len() > 0 ==> number(data, 16, 4) + 4 * map.len() <= data.len()
                &&& forall|i: int|
                    0 <= i < map.len() ==> (#[trigger] map[i]).0 == number(
                        data,
                        number(data, 16, 4) + 4 * i,
                        2,
                    ) && map[i].1 == number(data, number(data, 16, 4) + 4 * i + 2, 2)
            },
            None => number(data, 6, 2) > 0 && number(data, 16, 4) + 4 * number(data, 6, 2)
                > data.len(),
        },
{
    assert(CXAN_MAGIC@ =~= seq![67u8, 88, 65, 78]);
    lemma_begins(data, CXAN_MAGIC@);
    numbers_are_read_low_byte_first(data, 6);
    numbers_are_read_low_byte_first(data, 8);
    numbers_are_read_low_byte_first(data, 16);
    if let Some(map) = stored_map(data) {
        assert forall|i: int| 0 <= i < map.len() implies (#[trigger] map[i]).0 == number(
            data,
            number(data, 16, 4) + 4 * i,
            2,
        ) && map[i].1 == number(data, number(data, 16, 4) + 4 * i + 2, 2) by {
            numbers_are_read_low_byte_first(data, number(data, 16, 4) + 4 * i);
            numbers_are_read_low_byte_first(data, number(data, 16, 4) + 4 * i + 2);
        }
    }
}

/// Whether a frame lies on its page: the page is there and has columns, and the cell lies within
/// its picture.
pub open spec fn lies_on_page(
    pages: Seq<PageView>,
    pictures: Seq<Raster>,
    place: (u16, u16),
) -> bool {
    let page = pages[place.0 as int];
    let picture = pictures[place.0 as int];
    &&& place.0 < pages.len()
    &&& page.cols > 0
    &&& (place.1 as int % page.cols as int + 1) * page.width <= picture.width
    &&& (place.1 as int / page.cols as int + 1) * page.height <= picture.height
}

/// A frame is placed if it lies on its page, and only then.
pub proof fn lemma_placed(pages: Seq<PageView>, pictures: Seq<Raster>, place: (u16, u16))
    ensures
        is_placed(pages, pictures, place) == lies_on_page(pages, pictures, place),
{
    let page = pages[place.0 as int];
    let col = place.1 as int % page.cols as int;
    let row = place.1 as int / page.cols as int;
    assert((col + 1) * page.width == col * page.width + page.width && (row + 1) * page.height == row
        * page.height + page.height) by (nonlinear_arith);
}

/// Whether a picture is the cell of a page, pixel by pixel.
pub open spec fn is_cell(
    pages: Seq<PageView>,
    pictures: Seq<Raster>,
    place: (u16, u16),
    frame: Raster,
) -> bool {
    let page = pages[place.0 as int];
    let left = (place.1 as int % page.cols as int) * page.width;
    let top = (place.1 as int / page.cols as int) * page.height;
    &&& frame.width == page.width
    &&& frame.height == page.height
    &&& forall|x: int, y: int, c: int|
        0 <= x < frame.width && 0 <= y < frame.height && 0 <= c < 4 ==> #[trigger] pixel(
            frame,
            x,
            y,
            c,
        ) == pixel(pictures[place.0 as int], left + x, top + y, c)
}

/// The frame of a place is the cell of its page.
pub proof fn frames_are_cut_from_their_cells(
    pages: Seq<PageView>,
    pictures: Seq<Raster>,
    place: (u16, u16),
)
    requires
        lies_on_page(pages, pictures, place),
    ensures
        is_cell(pages, pictures, place, frame_of(pages, pictures, place)),
{
    let page = pages[place.0 as int];
    let frame = frame_of(pages, pictures, place);
    let left = (place.1 as int % page.cols as int) * page.width;
    let top = (place.1 as int / page.cols as int) * page.height;
    assert forall|x: int, y: int, c: int|
        0 <= x < frame.width && 0 <= y < frame.height && 0 <= c < 4 implies #[trigger] pixel(
        frame,
        x,
        y,
        c,
    ) == pixel(pictures[place.0 as int], left + x, top + y, c) by {
        cutting_keeps_the_pixels(
            pictures[place.0 as int],
            left,
            top,
            page.width,
            page.height,
            x,
            y,
            c,
        );
    }
}

/// Whether a frame lies on its page and has pixels.
pub open spec fn can_be_saved(
    pages: Seq<PageView>,
    pictures: Seq<Raster>,
    place: (u16, u16),
) -> bool {
    &&& lies_on_page(pages, pictures, place)
    &&& pages[place.0 as int].width > 0
    &&& pages[place.0 as int].height > 0
}

/// Unpacking creates the folder and saves the frames in order under their numbers, each as the file
/// of its cell, up to the first that does not lie on its page or has no pixels; of the latter an
/// empty file is left.
#[verifier::rlimit(60)]
pub proof fn frames_are_saved_in_order(
    pages: Seq<PageView>,
    pictures: Seq<Raster>,
    map: Seq<(u16, u16)>,
    fps: u32,
    saved: int,
    unpacked: Unpacked<u32>,
)
    requires
        unpacked.says(exporting(pages, pictures, map, fps)),
        map.len() <= usize::MAX,
        0 <= saved <= map.len(),
        forall|i: int| 0 <= i < saved ==> can_be_saved(pages, pictures, #[trigger] map[i]),
        saved < map.len() ==> !can_be_saved(pages, pictures, map[saved]),
    ensures
        ({
            let effects = unpacked.effects@;
            let bare = saved < map.len() && lies_on_page(pages, pictures, map[saved]);
            &&& effects.len() == 1 + saved + (if bare {
                1int
            } else {
                0
            })
            &&& effects[0] is CreateFolder
            &&& forall|i: int|
                0 <= i < saved ==> {
                    let frame = frame_of(pages, pictures, map[i]);
                    writes(
                        #[trigger] effects[1 + i],
                        frame_name(i),
                        png_file(frame.width, frame.height, frame.pixels),
                    )
                }
            &&& bare ==> writes(effects[1 + saved], frame_name(saved), Seq::empty())
            &&& match unpacked.outcome {
                Ok(rate) => saved == map.len() && rate == fps,
                Err(error) => saved < map.len() && error.fault() == if bare {
                    Fault::Save(saved)
                } else {
                    Fault::Flawed(Flaw::CellOutside { index: saved as usize })
                },
            }
        }),
{
    let effects = unpacked.effects@;
    let all = deeds(effects);
    let placed = placed_count(pages, pictures, map, 0);
    lemma_placed_count(pages, pictures, map, 0, saved);
    lemma_saving(pages, pictures, map, 0, saved, placed);
    assert(all.len() == effects.len());
    assert(all[0] == effects[0]@);
    let bare = saved < map.len() && lies_on_page(pages, pictures, map[saved]);
    if saved < map.len() {
        lemma_placed(pages, pictures, map[saved]);
    }
    let written = saving(pages, pictures, map, 0, placed).0;
    assert forall|i: int| 0 <= i < saved implies {
        let frame = frame_of(pages, pictures, map[i]);
        writes(
            #[trigger] effects[1 + i],
            frame_name(i),
            png_file(frame.width, frame.height, frame.pixels),
        )
    } by {
        assert(all[1 + i] == effects[1 + i]@);
        assert(all[1 + i] == written[i]);
    }
    if bare {
        assert(all[1 + saved] == effects[1 + saved]@);
        assert(all[1 + saved] == written[saved]);
    }
}

proof fn lemma_placed_count(
    pages: Seq<PageView>,
    pictures: Seq<Raster>,
    map: Seq<(u16, u16)>,
    from: int,
    saved: int,
)
    requires
        0 <= from <= saved <= map.len(),
        forall|i: int| from <= i < saved ==> can_be_saved(pages, pictures, #[trigger] map[i]),
    ensures
        saved <= placed_count(pages, pictures, map, from) <= map.len(),
        saved < map.len() && !lies_on_page(pages, pictures, map[saved]) ==> placed_count(
            pages,
            pictures,
            map,
            from,
        ) == saved,
        saved < map.len() && lies_on_page(pages, pictures, map[saved]) ==> placed_count(
            pages,
            pictures,
            map,
            from,
        ) > saved,
    decreases map.len() - from,
{
    if from < saved {
        lemma_placed(pages, pictures, map[from]);
        lemma_placed_count(pages, pictures, map, from + 1, saved);
    } else if from < map.len() {
        lemma_placed(pages, pictures, map[from]);
        if is_placed(pages, pictures, map[from]) {
            lemma_count_bounds(pages, pictures, map, from + 1);
        }
    }
}

proof fn lemma_count_bounds(
    pages: Seq<PageView>,
    pictures: Seq<Raster>,
    map: Seq<(u16, u16)>,
    from: int,
)
    requires
        0 <= from <= map.len(),
    ensures
        from <= placed_count(pages, pictures, map, from) <= map.len(),
    decreases map.len() - from,
{
    if from < map.len() && is_placed(pages, pictures, map[from]) {
        lemma_count_bounds(pages, pictures, map, from + 1);
    }
}

proof fn lemma_saving(
    pages: Seq<PageView>,
    pictures: Seq<Raster>,
    map: Seq<(u16, u16)>,
    from: int,
    saved: int,
    to: int,
)
    requires
        0 <= from <= saved <= to <= map.len(),
        forall|i: int| from <= i < saved ==> can_be_saved(pages, pictures, #[trigger] map[i]),
        saved < to ==> lies_on_page(pages, pictures, map[saved]) && !can_be_saved(
            pages,
            pictures,
            map[saved],
        ),
    ensures
        ({
            let all = saving(pages, pictures, map, from, to);
            &&& all.0.len() == saved - from + (if saved < to {
                1int
            } else {
                0
            })
            &&& forall|i: int|
                0 <= i < saved - from ==> #[trigger] all.0[i] == (Deed::WriteFile {
                    name: frame_name(from + i),
                    contents: crate::codec::file_of(frame_of(pages, pictures, map[from + i])),
                })
            &&& saved < to ==> all.0[saved - from] == (Deed::WriteFile {
                name: frame_name(saved),
                contents: Seq::empty(),
            }) && all.1 == Some(Fault::Save(saved))
            &&& saved == to ==> all.1 is None
        }),
    decreases saved - from,
{
    let all = saving(pages, pictures, map, from, to);
    if from < saved {
        assert(can_be_saved(pages, pictures, map[from]));
        lemma_saving(pages, pictures, map, from + 1, saved, to);
        let rest = saving(pages, pictures, map, from + 1, to);
        assert forall|i: int| 0 <= i < saved - from implies #[trigger] all.0[i] == (
        Deed::WriteFile {
            name: frame_name(from + i),
            contents: crate::codec::file_of(frame_of(pages, pictures, map[from + i])),
        }) by {
            if i > 0 {
                assert(all.0[i] == rest.0[i - 1]);
            }
        }
        if saved < to {
            assert(all.0[saved - from] == rest.0[saved - from - 1]);
        }
    }
}

/// The file of a frame is named by its number, of five digits at least.
pub proof fn frame_files_are_numbered(index: nat)
    ensures
        is_numbered(frame_name(index as int), "frame_"@, index as int, 5, ".png"@),
{
    lemma_numbered("frame_"@, index, 5, ".png"@);
}

/// The picture that a page decodes to.
pub open spec fn decodes_to(page: PageView) -> Option<Raster> {
    if is_png(page.png) {
        decoded_png(page.png)
    } else {
        None
    }
}

/// Unpacking decodes the pages in order; by the first that does not decode it fails, with nothing
/// but the folder created. Where all decode, what is wrong with the pages behind them comes first,
/// then a frame map that is not all there.
pub proof fn pages_are_decoded_in_order(
    data: Seq<u8>,
    pages: Seq<PageView>,
    flaw: Option<Flaw>,
    decoded: int,
    unpacked: Unpacked<u32>,
)
    requires
        header_flaw(data) is None,
        stored_pages(data) == (pages, flaw),
        unpacked.says(unpacking(data, decoded_pages(pages))),
        0 <= decoded <= pages.len(),
        forall|p: int| 0 <= p < decoded ==> decodes_to(#[trigger] pages[p]) is Some,
        decoded < pages.len() ==> decodes_to(pages[decoded]) is None,
    ensures
        ({
            let bare = unpacked.effects@.len() == 1 && unpacked.effects@[0] is CreateFolder;
            let pictures = Seq::new(pages.len(), |p: int| decodes_to(pages[p])->0);
            if decoded < pages.len() {
                bare && unpacked.outcome is Err && unpacked.outcome->Err_0.fault() == Fault::Decode(
                    decoded,
                )
            } else if flaw is Some {
                bare && unpacked.outcome is Err && unpacked.outcome->Err_0.fault() == Fault::Flawed(
                    flaw->0,
                )
            } else if stored_map(data) is None {
                bare && unpacked.outcome is Err && unpacked.outcome->Err_0.fault() == Fault::Flawed(
                    Flaw::FrameMapCutShort,
                )
            } else {
                unpacked.says(
                    exporting(pages, pictures, stored_map(data)->0, number(data, 8, 4) as u32),
                )
            }
        }),
{
    lemma_undecoded(pages, 0, decoded);
    let all = deeds(unpacked.effects@);
    assert(all.len() == unpacked.effects@.len());
    if all.len() > 0 {
        assert(all[0] == unpacked.effects@[0]@);
    }
    headers_are_read_so(data);
    if decoded == pages.len() {
        let pictures = Seq::new(pages.len(), |p: int| decodes_to(pages[p])->0);
        assert(decoded_pages(pages)->Ok_0 =~= pictures);
    }
}

proof fn lemma_undecoded(pages: Seq<PageView>, from: int, decoded: int)
    requires
        0 <= from <= decoded <= pages.len(),
        forall|p: int| from <= p < decoded ==> decodes_to(#[trigger] pages[p]) is Some,
        decoded < pages.len() ==> decodes_to(pages[decoded]) is None,
    ensures
        first_undecoded(pages, from) == (if decoded < pages.len() {
            Some(decoded)
        } else {
            None
        }),
    decreases decoded - from,
{
    if from < decoded {
        lemma_undecoded(pages, from + 1, decoded);
    }
}

/// Nothing is done with a blob whose header is broken.
pub proof fn broken_blobs_do_nothing(
    data: Seq<u8>,
    decoded: Result<Seq<Raster>, int>,
    flaw: Flaw,
    unpacked: Unpacked<u32>,
)
    requires
        unpacked.says(unpacking(data, decoded)),
        header_flaw(data) == Some(flaw),
    ensures
        unpacked.effects@.len() == 0,
        unpacked.outcome matches Err(error) && error.fault() == Fault::Flawed(flaw),
{
    assert(deeds(unpacked.effects@).len() == unpacked.effects@.len());
}

/// Whether a file has the extension `png`, in whatever case.
pub open spec fn has_png_extension(entry: FolderEntry) -> bool {
    entry.extension matches Some(extension) && extension@.len() == 3 && same_letter(
        extension@[0],
        'p',
    ) && same_letter(extension@[1], 'n') && same_letter(extension@[2], 'g')
}

proof fn lemma_is_frame(entry: FolderEntry)
    ensures
        is_frame(entry) == has_png_extension(entry),
{
    reveal_strlit("png");
    let png = seq!['p', 'n', 'g'];
    assert("png"@ =~= png);
    if let Some(extension) = entry.extension {
        case_is_that_of_ascii_letters(extension@, png);
        if extension@.len() == 3 && same_letter(extension@[0], 'p') && same_letter(
            extension@[1],
            'n',
        ) && same_letter(extension@[2], 'g') {
            assert forall|i: int| 0 <= i < extension@.len() implies same_letter(
                #[trigger] extension@[i],
                png[i],
            ) by {
                assert(i == 0 || i == 1 || i == 2);
            }
        }
        if crate::text::same_but_for_case(extension@, png) {
            assert(same_letter(extension@[0], png[0]));
            assert(same_letter(extension@[1], png[1]));
            assert(same_letter(extension@[2], png[2]));
        }
    }
}

/// The frames of a folder are its files with the extension `png`, in whatever case: all of them,
/// each once, in the order of their names.
pub proof fn frames_are_the_png_files_in_order(entries: Seq<FolderEntry>, selected: Seq<usize>)
    requires
        selects_frames(entries, selected),
    ensures
        forall|a: int|
            0 <= a < selected.len() ==> (#[trigger] selected[a]) < entries.len()
                && has_png_extension(entries[selected[a] as int]),
        forall|i: int|
            0 <= i < entries.len() && has_png_extension(#[trigger] entries[i]) ==> exists|a: int|
                0 <= a < selected.len() && #[trigger] selected[a] == i,
        forall|a: int, b: int|
            0 <= a < b < selected.len() ==> {
                let first = entries[#[trigger] selected[a] as int].file_name;
                let second = entries[#[trigger] selected[b] as int].file_name;
                !precedes(second, first) && (precedes(first, second) || selected[a] < selected[b])
            },
{
    let names = crate::cxan::file_names(entries);
    assert forall|a: int| 0 <= a < selected.len() implies (#[trigger] selected[a]) < entries.len()
        && has_png_extension(entries[selected[a] as int]) by {
        lemma_is_frame(entries[selected[a] as int]);
    }
    assert forall|i: int|
        0 <= i < entries.len() && has_png_extension(#[trigger] entries[i]) implies exists|a: int|
        0 <= a < selected.len() && #[trigger] selected[a] == i by {
        lemma_is_frame(entries[i]);
        assert(has_place(selected, i));
    }
    assert forall|a: int, b: int| 0 <= a < b < selected.len() implies {
        let first = entries[#[trigger] selected[a] as int].file_name;
        let second = entries[#[trigger] selected[b] as int].file_name;
        !precedes(second, first) && (precedes(first, second) || selected[a] < selected[b])
    } by {
        let i = selected[a] as int;
        let j = selected[b] as int;
        assert(is_frame(entries[i]) && is_frame(entries[j]));
        assert(goes_before(names, i, j));
        lemma_file_precedes(entries, i, j);
        lemma_file_precedes(entries, j, i);
        crate::sort::lemma_name_irreflexive(names[i]);
        if crate::sort::name_before(names[j], names[i]) && crate::sort::name_before(
            names[i],
            names[j],
        ) {
            crate::sort::lemma_name_transitive(names[i], names[j], names[i]);
        }
    }
}

proof fn lemma_file_precedes(entries: Seq<FolderEntry>, i: int, j: int)
    requires
        0 <= i < entries.len(),
        0 <= j < entries.len(),
    ensures
        crate::sort::name_before(
            crate::cxan::file_names(entries)[i],
            crate::cxan::file_names(entries)[j],
        ) == precedes(entries[i].file_name, entries[j].file_name),
{
    if entries[i].file_name is Some && entries[j].file_name is Some {
        bytes_are_in_dictionary_order(
            vstd::utf8::encode_utf8(entries[i].file_name->0@),
            vstd::utf8::encode_utf8(entries[j].file_name->0@),
        );
    }
}

/// Frames are taken if there is one, all were read, and all have the dimensions of the first. Else
/// the first that could not be read is named, or, where all were, the first of other dimensions.
pub proof fn the_first_bad_frame_is_reported(frames: Seq<Option<Raster>>)
    requires
        frames.len() <= usize::MAX,
    ensures
        match frames_flaw(frames) {
            None => frames.len() > 0 && forall|i: int|
                0 <= i < frames.len() ==> (#[trigger] frames[i]) is Some && frames[i]->0.width
                    == frames[0]->0.width && frames[i]->0.height == frames[0]->0.height,
            Some(Flaw::NoFrames) => frames.len() == 0,
            Some(Flaw::Unreadable { index }) => {
                &&& index < frames.len()
                &&& frames[index as int] is None
                &&& forall|i: int| 0 <= i < index ==> (#[trigger] frames[i]) is Some
            },
            Some(
                Flaw::FrameSizeDiffers { index, width, height, first_width, first_height },
            ) => {
                &&& index < frames.len()
                &&& forall|i: int| 0 <= i < frames.len() ==> (#[trigger] frames[i]) is Some
                &&& frames[0]->0.width == first_width && frames[0]->0.height == first_height
                &&& frames[index as int]->0.width == width && frames[index as int]->0.height
                    == height
                &&& width != first_width || height != first_height
                &&& forall|i: int|
                    0 <= i < index ==> (#[trigger] frames[i])->0.width == first_width
                        && frames[i]->0.height == first_height
            },
            Some(_) => false,
        },
{
    the_first_missing_picture_is_found(frames, 0);
    if frames.len() > 0 && first_missing(frames, 0) is None {
        lemma_other_size(frames, 1);
        assert(frames[0] is Some);
    }
}

proof fn lemma_other_size(frames: Seq<Option<Raster>>, from: int)
    requires
        0 <= from,
    ensures
        match first_of_other_size(frames, from) {
            Some(at) => from <= at < frames.len() && (frames[at]->0.width != frames[0]->0.width
                || frames[at]->0.height != frames[0]->0.height) && forall|i: int|
                from <= i < at ==> (#[trigger] frames[i])->0.width == frames[0]->0.width
                    && frames[i]->0.height == frames[0]->0.height,
            None => forall|i: int|
                from <= i < frames.len() ==> (#[trigger] frames[i])->0.width == frames[0]->0.width
                    && frames[i]->0.height == frames[0]->0.height,
        },
    decreases frames.len() - from,
{
    if from < frames.len() {
        lemma_other_size(frames, from + 1);
    }
}

/// The frame rate is the number under `fps`, and the double 24.0 where there is none: 1.5 times two
/// to the fourth.
pub proof fn the_frame_rate_is_that_of_the_description(tree: Tree)
    ensures
        match tree.named("fps"@) {
            Some(Tree::Number(Some(bits))) => fps_in(tree) == bits,
            _ => fps_in(tree) == (1023 + 4) * 0x10_0000_0000_0000 + 0x8_0000_0000_0000,
        },
{
}

/// A description that is no TOML is refused; else the frame rate is that of its document.
pub proof fn descriptions_are_toml(text: Seq<char>)
    ensures
        described_fps(text) == (match toml_tree(text) {
            Some(tree) => Ok::<u64, Fault>(fps_in(tree)),
            None => Err::<u64, Fault>(Fault::Toml),
        }),
{
}

/// A packed animation holds the blob of its frames.
pub proof fn packed_animations_are_their_blob(fps: u32, frames: Seq<Raster>)
    requires
        packing(fps, frames) is Ok,
    ensures
        packing(fps, frames)->Ok_0 == animation_blob(fps, frames),
{
}

} // verus!
