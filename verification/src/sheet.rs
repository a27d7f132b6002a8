//! Sheets: pictures of one size laid out as the cells of a grid.
use vstd::arithmetic::div_mod::lemma_fundamental_div_mod_converse;
use vstd::prelude::*;
use vstd::slice::*;

use crate::bytes::push_bytes;
use crate::raster::{
    begins, byte_count, drawn, lemma_begins_all, lemma_begins_run, lemma_drawn_at, lemma_drawn_wf,
    lemma_same_picture, push_zeros, Image, Raster,
};

verus! {

/// What the images show.
pub open spec fn shown(images: Seq<&Image>) -> Seq<Raster> {
    Seq::new(images.len(), |i: int| images[i]@)
}

/// Whether all the pictures are well formed and have these dimensions.
pub open spec fn of_size(pictures: Seq<Raster>, width: u32, height: u32) -> bool {
    forall|i: int|
        0 <= i < pictures.len() ==> (#[trigger] pictures[i]).wf() && pictures[i].width == width
            && pictures[i].height == height
}

/// The pixels of a sheet: those of the cell's picture, and transparent black in a cell
/// without one. Cells are counted row by row.
pub open spec fn sheet_shade(
    pictures: Seq<Raster>,
    cols: int,
    width: u32,
    height: u32,
) -> spec_fn(int, int, int) -> u8 {
    |x: int, y: int, c: int|
        {
            let cell = (y / (height as int)) * cols + x / (width as int);
            if cell < pictures.len() {
                pictures[cell].at(x % (width as int), y % (height as int), c)
            } else {
                0u8
            }
        }
}

/// The sheet of `cols` by `rows` cells of the given dimensions.
pub open spec fn sheet(
    pictures: Seq<Raster>,
    cols: int,
    rows: int,
    width: u32,
    height: u32,
) -> Raster {
    drawn(
        (cols * width) as u32,
        (rows * height) as u32,
        sheet_shade(pictures, cols, width, height),
    )
}

/// The column of pixels at which a cell begins.
pub open spec fn cell_x(cell: int, cols: int, width: u32) -> int {
    (cell % cols) * width
}

/// The row of pixels at which a cell begins.
pub open spec fn cell_y(cell: int, cols: int, height: u32) -> int {
    (cell / cols) * height
}

/// A cell of the sheet lies inside it.
pub proof fn lemma_cell_inside(cell: int, cols: int, rows: int, width: u32, height: u32)
    requires
        0 < cols,
        0 <= cell < cols * rows,
    ensures
        0 <= cell % cols < cols,
        0 <= cell / cols < rows,
        0 <= cell_x(cell, cols, width),
        0 <= cell_y(cell, cols, height),
        cell_x(cell, cols, width) + width <= cols * width,
        cell_y(cell, cols, height) + height <= rows * height,
        (cell / cols) * cols + cell % cols == cell,
{
    let col = cell % cols;
    let row = cell / cols;
    vstd::arithmetic::div_mod::lemma_fundamental_div_mod(cell, cols);
    vstd::arithmetic::div_mod::lemma_mod_bound(cell, cols);
    assert(row * cols + col == cell) by (nonlinear_arith)
        requires
            cell == cols * row + col,
    ;
    assert(0 <= row < rows) by (nonlinear_arith)
        requires
            0 < cols,
            0 <= cell < cols * rows,
            row * cols + col == cell,
            0 <= col < cols,
    ;
    assert(0 <= col * width && col * width + width <= cols * width) by (nonlinear_arith)
        requires
            0 <= col < cols,
            0 <= width,
    ;
    assert(0 <= row * height && row * height + height <= rows * height) by (nonlinear_arith)
        requires
            0 <= row < rows,
            0 <= height,
    ;
}

/// Cutting a cell out of a sheet gives back the picture that was put there.
pub proof fn lemma_sheet_cell(
    pictures: Seq<Raster>,
    cols: int,
    rows: int,
    width: u32,
    height: u32,
    cell: int,
)
    requires
        of_size(pictures, width, height),
        0 < cols,
        0 <= cell < pictures.len(),
        pictures.len() <= cols * rows,
        cols * width <= u32::MAX,
        rows * height <= u32::MAX,
    ensures
        sheet(pictures, cols, rows, width, height).cropped(
            cell_x(cell, cols, width),
            cell_y(cell, cols, height),
            width,
            height,
        ) == pictures[cell],
{
    let whole = sheet(pictures, cols, rows, width, height);
    let x0 = cell_x(cell, cols, width);
    let y0 = cell_y(cell, cols, height);
    let cut = |px: int, py: int, c: int| whole.at(x0 + px, y0 + py, c);
    let part = whole.cropped(x0, y0, width, height);
    assert(pictures[cell].wf());
    lemma_cell_inside(cell, cols, rows, width, height);
    lemma_drawn_wf(width, height, cut);
    assert forall|x: int, y: int, c: int|
        0 <= x < part.width && 0 <= y < part.height && 0 <= c < 4 implies #[trigger] part.at(
        x,
        y,
        c,
    ) == pictures[cell].at(x, y, c) by {
        lemma_drawn_at(width, height, cut, x, y, c);
        lemma_drawn_at(
            (cols * width) as u32,
            (rows * height) as u32,
            sheet_shade(pictures, cols, width, height),
            x0 + x,
            y0 + y,
            c,
        );
        lemma_fundamental_div_mod_converse(x0 + x, width as int, cell % cols, x);
        lemma_fundamental_div_mod_converse(y0 + y, height as int, cell / cols, y);
    }
    lemma_same_picture(part, pictures[cell]);
}

/// Lays the images out as a sheet.
pub fn compose(images: &Vec<&Image>, cols: u32, rows: u32, width: u32, height: u32) -> (page: Image)
    requires
        of_size(shown(images@), width, height),
        0 < cols,
        0 < width,
        cols * width <= u32::MAX,
        rows * height <= u32::MAX,
    ensures
        page@ == sheet(shown(images@), cols as int, rows as int, width, height),
        page@.wf(),
{
    assert(0 <= cols * width && 0 <= rows * height) by (nonlinear_arith);
    let page_width: u32 = cols * width;
    let page_height: u32 = rows * height;
    let ghost shade = sheet_shade(shown(images@), cols as int, width, height);
    let ghost picture = drawn(page_width, page_height, shade);
    let mut pixels: Vec<u8> = Vec::new();
    let mut y: u32 = 0;
    assert(4 * (0 * page_width + 0) == 0) by (nonlinear_arith);
    while y < page_height
        invariant
            of_size(shown(images@), width, height),
            0 < cols,
            0 < width,
            page_width == cols * width,
            page_height == rows * height,
            y <= page_height,
            shade == sheet_shade(shown(images@), cols as int, width, height),
            picture == drawn(page_width, page_height, shade),
            begins(pixels@, picture),
            pixels@.len() == 4 * (y * page_width + 0),
        decreases page_height - y,
    {
        assert(height > 0) by (nonlinear_arith)
            requires
                0 <= y < rows * height,
                0 <= height,
        ;
        let cell_row: u32 = y / height;
        let inner: u32 = y % height;
        assert(cell_row < rows) by (nonlinear_arith)
            requires
                y < rows * height,
                cell_row == y / height,
                height > 0,
        ;
        let mut col: u32 = 0;
        assert(0 * width == 0) by (nonlinear_arith);
        while col < cols
            invariant
                of_size(shown(images@), width, height),
                0 < cols,
                0 < width,
                0 < height,
                page_width == cols * width,
                page_height == rows * height,
                y < page_height,
                cell_row == y / height,
                inner == y % height,
                cell_row < rows,
                col <= cols,
                shade == sheet_shade(shown(images@), cols as int, width, height),
                picture == drawn(page_width, page_height, shade),
                begins(pixels@, picture),
                pixels@.len() == 4 * (y * page_width + col * width),
            decreases cols - col,
        {
            assert(cell_row * cols + col <= u64::MAX && cell_row * cols <= u64::MAX)
                by (nonlinear_arith)
                requires
                    cell_row <= u32::MAX,
                    cols <= u32::MAX,
                    col <= u32::MAX,
            ;
            let cell: u64 = (cell_row as u64) * (cols as u64) + col as u64;
            assert(col * width + width <= page_width) by (nonlinear_arith)
                requires
                    col < cols,
                    page_width == cols * width,
                    0 < width,
            ;
            assert(0 <= col * width) by (nonlinear_arith);
            assert(col * width + width == (col + 1) * width) by (nonlinear_arith);
            let ghost before = pixels@;
            if cell < images.len() as u64 {
                let image: &Image = images[cell as usize];
                proof {
                    assert(shown(images@)[cell as int].wf());
                    lemma_row_inside(width as int, height as int, inner as int);
                    assert(image.pixels@.len() == image.pixels.len());
                }
                let from: usize = 4 * (inner as usize * (width as usize));
                let to: usize = from + 4 * (width as usize);
                let run = slice_subrange(image.pixels.as_slice(), from, to);
                proof {
                    assert forall|k: int, c: int|
                        0 <= k < width && 0 <= c < 4 implies #[trigger] run@[4 * k + c] == shade(
                        col * width + k,
                        y as int,
                        c,
                    ) by {
                        lemma_fundamental_div_mod_converse(
                            col * width + k,
                            width as int,
                            col as int,
                            k,
                        );
                        assert(run@[4 * k + c] == image.pixels@[from + 4 * k + c]);
                        assert(image@.at(k, inner as int, c) == image.pixels@[from + 4 * k + c]);
                    }
                    lemma_begins_run(
                        before,
                        run@,
                        page_width,
                        page_height,
                        shade,
                        col * width,
                        y as int,
                        width as int,
                    );
                }
                push_bytes(&mut pixels, run);
            } else {
                push_zeros(&mut pixels, 4 * (width as u64));
                proof {
                    let run = Seq::new((4 * width) as nat, |i: int| 0u8);
                    assert forall|k: int, c: int|
                        0 <= k < width && 0 <= c < 4 implies #[trigger] run[4 * k + c] == shade(
                        col * width + k,
                        y as int,
                        c,
                    ) by {
                        lemma_fundamental_div_mod_converse(
                            col * width + k,
                            width as int,
                            col as int,
                            k,
                        );
                    }
                    lemma_begins_run(
                        before,
                        run,
                        page_width,
                        page_height,
                        shade,
                        col * width,
                        y as int,
                        width as int,
                    );
                }
            }
            col = col + 1;
        }
        assert(y * page_width + cols * width == (y + 1) * page_width + 0) by (nonlinear_arith)
            requires
                page_width == cols * width,
        ;
        y = y + 1;
    }
    proof {
        lemma_drawn_wf(page_width, page_height, shade);
        assert(page_height * page_width + 0 == page_width * page_height) by (nonlinear_arith);
        lemma_begins_all(pixels@, picture);
    }
    Image { width: page_width, height: page_height, pixels }
}

/// A row of pixels lies inside its picture.
proof fn lemma_row_inside(width: int, height: int, row: int)
    requires
        0 <= width,
        0 <= row < height,
    ensures
        0 <= 4 * (row * width),
        4 * (row * width) + 4 * width <= byte_count(width, height),
{
    assert(0 <= row * width && row * width + width <= width * height) by (nonlinear_arith)
        requires
            0 <= width,
            0 <= row < height,
    ;
}

} // verus!
