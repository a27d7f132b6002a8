//! Pictures, sheets and tiles, pixel by pixel.
use vstd::arithmetic::div_mod::{
    lemma_fundamental_div_mod, lemma_fundamental_div_mod_converse, lemma_mod_bound,
};
use vstd::prelude::*;

use crate::hitbox::{larger, smaller};
use crate::raster::{first_missing, lemma_drawn_at, loaded, Image, Raster};
use crate::sheet::{lemma_cell_inside, sheet, sheet_shade};
use crate::tiles::{joined_shade, joined_texture, tile_of, tile_shade, tiles_along};

verus! {

/// The byte of channel `c` of the pixel in column `x` of row `y`: pixels have four bytes each and
/// stand row by row.
pub open spec fn pixel(picture: Raster, x: int, y: int, c: int) -> u8 {
    picture.pixels[4 * (y * picture.width + x) + c]
}

/// A picture has as many bytes as its dimensions ask for, four to a pixel.
pub open spec fn is_full(picture: Raster) -> bool {
    picture.pixels.len() == 4 * (picture.width * picture.height)
}

/// A rectangle cut out of a picture has its dimensions and the pixels that stand there.
pub proof fn cutting_keeps_the_pixels(
    picture: Raster,
    left: int,
    top: int,
    width: u32,
    height: u32,
    x: int,
    y: int,
    c: int,
)
    ensures
        ({
            let part = picture.cropped(left, top, width, height);
            &&& part.width == width
            &&& part.height == height
            &&& is_full(part)
            &&& 0 <= x < width && 0 <= y < height && 0 <= c < 4 ==> pixel(part, x, y, c) == pixel(
                picture,
                left + x,
                top + y,
                c,
            )
        }),
{
    let shade = |px: int, py: int, d: int| picture.at(left + px, top + py, d);
    crate::raster::lemma_drawn_wf(width, height, shade);
    if 0 <= x < width && 0 <= y < height && 0 <= c < 4 {
        lemma_drawn_at(width, height, shade, x, y, c);
    }
}

/// A sheet shows every picture in its cell, counted row by row: the picture of cell `cell` begins
/// in column `cell % cols` and row `cell / cols` of the cells.
pub proof fn sheets_show_their_pictures(
    pictures: Seq<Raster>,
    cols: int,
    rows: int,
    width: u32,
    height: u32,
    cell: int,
    x: int,
    y: int,
    c: int,
)
    requires
        0 < cols,
        0 <= cell < cols * rows,
        cols * width <= u32::MAX,
        rows * height <= u32::MAX,
        0 <= x < width,
        0 <= y < height,
        0 <= c < 4,
        cell < pictures.len() ==> pictures[cell].width == width,
    ensures
        ({
            let page = sheet(pictures, cols, rows, width, height);
            let left = (cell % cols) * width;
            let top = (cell / cols) * height;
            &&& page.width == cols * width
            &&& page.height == rows * height
            &&& is_full(page)
            &&& pixel(page, left + x, top + y, c) == (if cell < pictures.len() {
                pixel(pictures[cell], x, y, c)
            } else {
                0u8
            })
        }),
{
    let left = (cell % cols) * width;
    let top = (cell / cols) * height;
    lemma_cell_inside(cell, cols, rows, width, height);
    assert(0 <= cols * width && 0 <= rows * height) by {
        assert(0 <= left && 0 <= top);
    }
    lemma_drawn_at(
        (cols * width) as u32,
        (rows * height) as u32,
        sheet_shade(pictures, cols, width, height),
        left + x,
        top + y,
        c,
    );
    lemma_fundamental_div_mod_converse(left + x, width as int, cell % cols, x);
    lemma_fundamental_div_mod_converse(top + y, height as int, cell / cols, y);
}

/// A side takes the fewest tiles that cover it.
pub proof fn tiles_cover_a_side(side: int, size: int)
    requires
        0 <= side,
        0 < size,
    ensures
        side <= tiles_along(side, size) * size,
        (tiles_along(side, size) - 1) * size < side,
{
    let count = tiles_along(side, size);
    lemma_fundamental_div_mod(side + size - 1, size);
    lemma_mod_bound(side + size - 1, size);
    let left = (side + size - 1) % size;
    assert(side <= count * size && (count - 1) * size < side) by (nonlinear_arith)
        requires
            side + size - 1 == size * count + left,
            0 <= left < size,
    ;
}

/// A tile shows the part of the texture that it covers, and transparent black beyond the edge.
pub proof fn tiles_show_their_part(
    texture: Raster,
    size: u32,
    tx: int,
    ty: int,
    x: int,
    y: int,
    c: int,
)
    requires
        0 <= x < size,
        0 <= y < size,
        0 <= c < 4,
    ensures
        ({
            let tile = tile_of(texture, size, tx, ty);
            let left = tx * size;
            let top = ty * size;
            &&& tile.pixels.len() == 4 * (size * size)
            &&& tile.pixels[4 * (y * size + x) + c] == (if left + x < texture.width && top + y
                < texture.height {
                pixel(texture, left + x, top + y, c)
            } else {
                0u8
            })
        }),
{
    lemma_drawn_at(size, size, tile_shade(texture, size, tx, ty), x, y, c);
}

/// A texture that is put together shows in each pixel the one of the tile that covers it, tiles
/// standing row by row, and transparent black where there is no tile.
pub proof fn textures_show_their_tiles(
    pixels: Seq<u8>,
    width: u32,
    height: u32,
    size: int,
    cols: int,
    rows: int,
    x: int,
    y: int,
    c: int,
)
    requires
        0 <= x < width,
        0 <= y < height,
        0 <= c < 4,
        0 <= cols,
        0 <= rows,
        0 <= size,
    ensures
        ({
            let texture = joined_texture(pixels, width, height, size, cols, rows);
            let tile = (y / size) * cols + x / size;
            &&& texture.width == width
            &&& texture.height == height
            &&& is_full(texture)
            &&& size > 0 && x / size < cols && y / size < rows ==> pixel(texture, x, y, c)
                == pixels[tile * (4 * (size * size)) + 4 * ((y % size) * size + x % size) + c]
            &&& size == 0 || cols == 0 || rows == 0 ==> pixel(texture, x, y, c) == 0
            &&& size > 0 && (x >= cols * size || y >= rows * size) ==> pixel(texture, x, y, c) == 0
        }),
{
    lemma_drawn_at(width, height, joined_shade(pixels, size, cols, rows), x, y, c);
    if size > 0 {
        lemma_fundamental_div_mod(x, size);
        lemma_fundamental_div_mod(y, size);
        lemma_mod_bound(x, size);
        lemma_mod_bound(y, size);
        let tx = x / size;
        let ty = y / size;
        if x >= cols * size {
            assert(tx >= cols) by (nonlinear_arith)
                requires
                    x == size * tx + x % size,
                    x % size < size,
                    x >= cols * size,
                    size > 0,
            ;
        }
        if y >= rows * size {
            assert(ty >= rows) by (nonlinear_arith)
                requires
                    y == size * ty + y % size,
                    y % size < size,
                    y >= rows * size,
                    size > 0,
            ;
        }
        assert(0 <= tx && 0 <= ty) by (nonlinear_arith)
            requires
                x == size * tx + x % size,
                y == size * ty + y % size,
                x % size < size,
                y % size < size,
                0 <= x,
                0 <= y,
                size > 0,
        ;
    }
}

/// The first missing picture is missing, and none before it is; without one none is missing.
pub proof fn the_first_missing_picture_is_found(pictures: Seq<Option<Raster>>, from: int)
    requires
        0 <= from,
    ensures
        match first_missing(pictures, from) {
            Some(at) => from <= at < pictures.len() && pictures[at] is None && forall|i: int|
                from <= i < at ==> (#[trigger] pictures[i]) is Some,
            None => forall|i: int| from <= i < pictures.len() ==> (#[trigger] pictures[i]) is Some,
        },
    decreases pictures.len() - from,
{
    if from < pictures.len() {
        the_first_missing_picture_is_found(pictures, from + 1);
    }
}

/// What was loaded is what each image shows, in order.
pub proof fn loaded_images_show_themselves(images: Seq<Option<Image>>, i: int)
    requires
        0 <= i < images.len(),
    ensures
        loaded(images).len() == images.len(),
        match images[i] {
            Some(image) => loaded(images)[i] is Some && loaded(images)[i]->0.width == image.width
                && loaded(images)[i]->0.height == image.height && loaded(images)[i]->0.pixels
                == image.pixels@,
            None => loaded(images)[i] is None,
        },
{
}

/// A sheet has the dimensions of its cells together, and all the bytes that these ask for.
pub proof fn sheets_have_room_for_their_cells(
    pictures: Seq<Raster>,
    cols: int,
    rows: int,
    width: u32,
    height: u32,
)
    requires
        0 <= cols * width <= u32::MAX,
        0 <= rows * height <= u32::MAX,
    ensures
        sheet(pictures, cols, rows, width, height).width == cols * width,
        sheet(pictures, cols, rows, width, height).height == rows * height,
        is_full(sheet(pictures, cols, rows, width, height)),
{
    crate::raster::lemma_drawn_wf(
        (cols * width) as u32,
        (rows * height) as u32,
        sheet_shade(pictures, cols, width, height),
    );
}

/// A texture that is put together has the dimensions that are asked for, and all their bytes.
pub proof fn textures_have_their_dimensions(
    pixels: Seq<u8>,
    width: u32,
    height: u32,
    size: int,
    cols: int,
    rows: int,
)
    ensures
        joined_texture(pixels, width, height, size, cols, rows).width == width,
        joined_texture(pixels, width, height, size, cols, rows).height == height,
        is_full(joined_texture(pixels, width, height, size, cols, rows)),
{
    crate::raster::lemma_drawn_wf(width, height, joined_shade(pixels, size, cols, rows));
}

/// The smaller of two numbers is the one that is not larger, and the larger the other.
pub proof fn smaller_and_larger(a: int, b: int)
    ensures
        smaller(a, b) <= a && smaller(a, b) <= b && (smaller(a, b) == a || smaller(a, b) == b),
        larger(a, b) >= a && larger(a, b) >= b && (larger(a, b) == a || larger(a, b) == b),
{
}

} // verus!
