//! Textures cut into square tiles and put together again.
use vstd::arithmetic::div_mod::{
    lemma_fundamental_div_mod, lemma_fundamental_div_mod_converse, lemma_mod_bound,
};
use vstd::prelude::*;
use vstd::slice::*;

use crate::bytes::{has_at, joined, lemma_joined_at, lemma_joined_len, push_bytes};
use crate::raster::{
    begins, byte_count, drawn, lemma_begins_all, lemma_begins_run, lemma_drawn_at, lemma_drawn_wf,
    lemma_place, lemma_same_picture, place, push_zeros, Image, Raster,
};

verus! {

/// The number of tiles of this size that a side takes.
pub open spec fn tiles_along(side: int, size: int) -> int {
    (side + size - 1) / size
}

/// The pixels of the tile in column `tx` and row `ty`: those of the texture, and transparent black
/// beyond its edge.
pub open spec fn tile_shade(texture: Raster, size: u32, tx: int, ty: int) -> spec_fn(
    int,
    int,
    int,
) -> u8 {
    |x: int, y: int, c: int|
        if tx * size + x < texture.width && ty * size + y < texture.height {
            texture.at(tx * size + x, ty * size + y, c)
        } else {
            0u8
        }
}

/// The tile in column `tx` and row `ty`.
pub open spec fn tile_of(texture: Raster, size: u32, tx: int, ty: int) -> Raster {
    drawn(size, size, tile_shade(texture, size, tx, ty))
}

/// The pixel bytes of the first `count` tiles, row by row.
pub open spec fn tile_parts(texture: Raster, size: u32, count: int) -> Seq<Seq<u8>> {
    let cols = tiles_along(texture.width as int, size as int);
    Seq::new(count as nat, |t: int| tile_of(texture, size, t % cols, t / cols).pixels)
}

/// The tiles that a side takes reach just over its end.
pub proof fn lemma_tiles_along(side: int, size: int)
    requires
        0 <= side,
        0 < size,
    ensures
        0 <= tiles_along(side, size) <= side,
        side <= tiles_along(side, size) * size < side + size,
        (tiles_along(side, size) == 0) == (side == 0),
{
    let count = tiles_along(side, size);
    let left = (side + size - 1) % size;
    lemma_fundamental_div_mod(side + size - 1, size);
    lemma_mod_bound(side + size - 1, size);
    assert(side <= count * size < side + size && 0 <= count <= side) by (nonlinear_arith)
        requires
            side + size - 1 == size * count + left,
            0 <= left < size,
            0 <= side,
            0 < size,
    ;
    if side == 0 {
        assert(count == 0) by (nonlinear_arith)
            requires
                0 <= count * size < size,
                0 < size,
        ;
    } else {
        assert(count != 0) by (nonlinear_arith)
            requires
                0 < side <= count * size,
        ;
    }
}

/// A tile inside the grid begins inside the side.
pub proof fn lemma_tile_begins(side: int, size: int, t: int)
    requires
        0 <= side,
        0 < size,
        0 <= t < tiles_along(side, size),
    ensures
        0 <= t * size < side,
        t * size + size < side + size,
        (t + 1) * size == t * size + size,
{
    lemma_tiles_along(side, size);
    let count = tiles_along(side, size);
    assert(0 <= t * size && t * size + size <= count * size) by (nonlinear_arith)
        requires
            0 <= t < count,
            0 < size,
    ;
    assert((t + 1) * size == t * size + size) by (nonlinear_arith);
}

/// Cuts the tile in column `tx` and row `ty` out of a texture.
pub fn cut_tile(texture: &Image, size: u32, tx: u32, ty: u32) -> (pixels: Vec<u8>)
    requires
        texture@.wf(),
        0 < size,
        texture.width + size <= u32::MAX,
        texture.height + size <= u32::MAX,
        tx < tiles_along(texture.width as int, size as int),
        ty < tiles_along(texture.height as int, size as int),
    ensures
        pixels@ == tile_of(texture@, size, tx as int, ty as int).pixels,
{
    let ghost shade = tile_shade(texture@, size, tx as int, ty as int);
    let ghost picture = drawn(size, size, shade);
    proof {
        lemma_tile_begins(texture.width as int, size as int, tx as int);
        lemma_tile_begins(texture.height as int, size as int, ty as int);
        assert(4 * (0 * size + 0) == 0) by (nonlinear_arith);
    }
    let left: u32 = tx * size;
    let top: u32 = ty * size;
    let across: u32 = if texture.width - left < size {
        texture.width - left
    } else {
        size
    };
    let mut pixels: Vec<u8> = Vec::new();
    let mut y: u32 = 0;
    while y < size
        invariant
            texture@.wf(),
            0 < size,
            texture.width + size <= u32::MAX,
            texture.height + size <= u32::MAX,
            left == tx * size,
            top == ty * size,
            left < texture.width,
            top < texture.height,
            across == (if texture.width - left < size {
                texture.width - left
            } else {
                size as int
            }),
            y <= size,
            shade == tile_shade(texture@, size, tx as int, ty as int),
            picture == drawn(size, size, shade),
            begins(pixels@, picture),
            pixels@.len() == 4 * (y * size + 0),
        decreases size - y,
    {
        let ghost before = pixels@;
        if top + y < texture.height {
            proof {
                assert(0 <= (top + y) * texture.width + left && (top + y) * texture.width + left
                    + across <= texture.width * texture.height) by (nonlinear_arith)
                    requires
                        0 <= top + y < texture.height,
                        0 <= left,
                        left + across <= texture.width,
                        0 <= across,
                ;
                assert(0 <= (top + y) * texture.width) by (nonlinear_arith);
                assert(texture.pixels@.len() == texture.pixels.len());
            }
            let from: usize = 4 * ((top + y) as usize * (texture.width as usize) + left as usize);
            let to: usize = from + 4 * (across as usize);
            let run = slice_subrange(texture.pixels.as_slice(), from, to);
            proof {
                assert forall|k: int, c: int|
                    0 <= k < across && 0 <= c < 4 implies #[trigger] run@[4 * k + c] == shade(
                    0 + k,
                    y as int,
                    c,
                ) by {
                    assert(run@[4 * k + c] == texture.pixels@[from + 4 * k + c]);
                }
                lemma_begins_run(before, run@, size, size, shade, 0, y as int, across as int);
            }
            push_bytes(&mut pixels, run);
            let ghost middle = pixels@;
            push_zeros(&mut pixels, 4 * ((size - across) as u64));
            proof {
                let rest = Seq::new((4 * (size - across)) as nat, |i: int| 0u8);
                assert forall|k: int, c: int|
                    0 <= k < size - across && 0 <= c < 4 implies #[trigger] rest[4 * k + c]
                    == shade(across + k, y as int, c) by {}
                lemma_begins_run(
                    middle,
                    rest,
                    size,
                    size,
                    shade,
                    across as int,
                    y as int,
                    size - across,
                );
            }
        } else {
            push_zeros(&mut pixels, 4 * (size as u64));
            proof {
                let rest = Seq::new((4 * size) as nat, |i: int| 0u8);
                assert forall|k: int, c: int|
                    0 <= k < size && 0 <= c < 4 implies #[trigger] rest[4 * k + c] == shade(
                    0 + k,
                    y as int,
                    c,
                ) by {}
                lemma_begins_run(before, rest, size, size, shade, 0, y as int, size as int);
            }
        }
        assert(y * size + size == (y + 1) * size + 0) by (nonlinear_arith);
        y = y + 1;
    }
    proof {
        lemma_drawn_wf(size, size, shade);
        lemma_begins_all(pixels@, picture);
    }
    pixels
}

/// The tile of a grid of `cols` columns that a pixel lies in.
pub open spec fn tile_at(x: int, y: int, size: int, cols: int) -> int {
    (y / size) * cols + x / size
}

/// Where channel `c` of a pixel is stored among the pixel bytes of tiles in a row.
pub open spec fn tile_place(x: int, y: int, c: int, size: int, cols: int) -> int {
    tile_at(x, y, size, cols) * byte_count(size, size) + place(size, x % size, y % size, c)
}

/// The pixels of a texture that is put together from the pixel bytes of `cols` by `rows` tiles, and
/// transparent black where there is no tile.
pub open spec fn joined_shade(
    pixels: Seq<u8>,
    size: int,
    cols: int,
    rows: int,
) -> spec_fn(int, int, int) -> u8 {
    |x: int, y: int, c: int|
        if size > 0 && x / size < cols && y / size < rows {
            pixels[tile_place(x, y, c, size, cols)]
        } else {
            0u8
        }
}

/// The texture that is put together from the pixel bytes of tiles.
pub open spec fn joined_texture(
    pixels: Seq<u8>,
    width: u32,
    height: u32,
    size: int,
    cols: int,
    rows: int,
) -> Raster {
    drawn(width, height, joined_shade(pixels, size, cols, rows))
}

/// Whether the pixel bytes are those of `cols` by `rows` tiles at least.
pub open spec fn enough_pixels(length: int, size: int, cols: int, rows: int) -> bool {
    (cols * rows) * byte_count(size, size) <= length
}

/// A row of a tile stands among the pixel bytes.
proof fn lemma_tile_row(length: int, size: int, cols: int, rows: int, tx: int, ty: int, row: int)
    requires
        enough_pixels(length, size, cols, rows),
        0 < size,
        0 <= tx < cols,
        0 <= ty < rows,
        0 <= row < size,
    ensures
        0 <= ty * cols,
        0 <= ty * cols + tx <= length,
        0 <= size * size <= byte_count(size, size) <= length,
        0 <= (ty * cols + tx) * byte_count(size, size),
        0 <= row * size,
        (ty * cols + tx) * byte_count(size, size) + 4 * (row * size) + 4 * size <= length,
{
    let tile = ty * cols + tx;
    let bytes = byte_count(size, size);
    assert(0 <= ty * cols && tile + 1 <= cols * rows) by (nonlinear_arith)
        requires
            0 <= tx < cols,
            0 <= ty < rows,
            tile == ty * cols + tx,
    ;
    assert(0 <= row * size && row * size + size <= size * size && 1 <= size * size)
        by (nonlinear_arith)
        requires
            0 <= row < size,
            0 < size,
    ;
    assert(0 <= tile * bytes && tile <= tile * bytes && tile * bytes + bytes <= (cols * rows)
        * bytes) by (nonlinear_arith)
        requires
            0 <= tile,
            tile + 1 <= cols * rows,
            1 <= bytes,
    ;
}

/// Puts a texture together from the pixel bytes of tiles.
pub fn join_texture(
    pixels: &[u8],
    width: u32,
    height: u32,
    size: u16,
    cols: u32,
    rows: u32,
) -> (texture: Image)
    requires
        enough_pixels(pixels@.len() as int, size as int, cols as int, rows as int),
    ensures
        texture@ == joined_texture(
            pixels@,
            width,
            height,
            size as int,
            cols as int,
            rows as int,
        ),
        texture@.wf(),
{
    let ghost shade = joined_shade(pixels@, size as int, cols as int, rows as int);
    let ghost picture = drawn(width, height, shade);
    let mut out: Vec<u8> = Vec::new();
    let mut y: u32 = 0;
    assert(pixels@.len() == pixels.len());
    assert(4 * (0 * width + 0) == 0) by (nonlinear_arith);
    while y < height
        invariant
            pixels@.len() == pixels.len(),
            enough_pixels(pixels@.len() as int, size as int, cols as int, rows as int),
            y <= height,
            shade == joined_shade(pixels@, size as int, cols as int, rows as int),
            picture == drawn(width, height, shade),
            begins(out@, picture),
            out@.len() == 4 * (y * width + 0),
        decreases height - y,
    {
        let mut x: u32 = 0;
        if size > 0 && y / (size as u32) < rows {
            let ty: u32 = y / (size as u32);
            let row: u32 = y % (size as u32);
            let mut tx: u32 = 0;
            assert(0 * size == 0) by (nonlinear_arith);
            while tx < cols && x < width
                invariant
                    pixels@.len() == pixels.len(),
                    enough_pixels(pixels@.len() as int, size as int, cols as int, rows as int),
                    0 < size,
                    y < height,
                    ty == y as int / size as int,
                    row == y as int % size as int,
                    ty < rows,
                    tx <= cols,
                    x <= width,
                    x == tx * size || x == width,
                    x <= tx * size,
                    shade == joined_shade(pixels@, size as int, cols as int, rows as int),
                    picture == drawn(width, height, shade),
                    begins(out@, picture),
                    out@.len() == 4 * (y * width + x),
                decreases cols - tx,
            {
                let count: u32 = if width - x < size as u32 {
                    width - x
                } else {
                    size as u32
                };
                proof {
                    lemma_tile_row(
                        pixels@.len() as int,
                        size as int,
                        cols as int,
                        rows as int,
                        tx as int,
                        ty as int,
                        row as int,
                    );
                }
                let tile: usize = (ty as usize) * (cols as usize) + tx as usize;
                let bytes: usize = 4 * ((size as usize) * (size as usize));
                let from: usize = tile * bytes + 4 * ((row as usize) * (size as usize));
                let to: usize = from + 4 * (count as usize);
                let run = slice_subrange(pixels, from, to);
                let ghost before = out@;
                proof {
                    assert forall|k: int, c: int|
                        0 <= k < count && 0 <= c < 4 implies #[trigger] run@[4 * k + c] == shade(
                        x + k,
                        y as int,
                        c,
                    ) by {
                        lemma_fundamental_div_mod_converse(x + k, size as int, tx as int, k);
                        assert(run@[4 * k + c] == pixels@[from + 4 * k + c]);
                    }
                    lemma_begins_run(
                        before,
                        run@,
                        width,
                        height,
                        shade,
                        x as int,
                        y as int,
                        count as int,
                    );
                    assert((tx + 1) * size == tx * size + size) by (nonlinear_arith);
                }
                push_bytes(&mut out, run);
                x = x + count;
                tx = tx + 1;
            }
            proof {
                if x < width {
                    assert(tx == cols);
                    assert forall|k: int| 0 <= k < width - x implies #[trigger] ((x + k)
                        / size as int) >= cols by {
                        vstd::arithmetic::div_mod::lemma_div_is_ordered(
                            cols * size,
                            x + k,
                            size as int,
                        );
                        vstd::arithmetic::div_mod::lemma_div_multiples_vanish(
                            cols as int,
                            size as int,
                        );
                        assert(cols * size == size * cols) by (nonlinear_arith);
                    }
                }
            }
        }
        let ghost before = out@;
        push_zeros(&mut out, 4 * ((width - x) as u64));
        proof {
            let rest = Seq::new((4 * (width - x)) as nat, |i: int| 0u8);
            assert forall|k: int, c: int|
                0 <= k < width - x && 0 <= c < 4 implies #[trigger] rest[4 * k + c] == shade(
                x + k,
                y as int,
                c,
            ) by {
                if size > 0 && y as int / (size as int) < rows {
                    assert((x + k) / size as int >= cols);
                }
            }
            lemma_begins_run(
                before,
                rest,
                width,
                height,
                shade,
                x as int,
                y as int,
                width - x,
            );
            assert(y * width + x + (width - x) == (y + 1) * width + 0) by (nonlinear_arith);
        }
        y = y + 1;
    }
    proof {
        lemma_drawn_wf(width, height, shade);
        assert(height * width + 0 == width * height) by (nonlinear_arith);
        lemma_begins_all(out@, picture);
    }
    Image { width, height, pixels: out }
}

/// A byte of a tile stands in its place among the pixel bytes of all the tiles.
pub proof fn lemma_tile_byte(texture: Raster, size: u32, count: int, t: int, i: int)
    requires
        0 <= t < count,
        0 <= i < byte_count(size as int, size as int),
    ensures
        0 <= t * byte_count(size as int, size as int) + i < joined(
            tile_parts(texture, size, count),
        ).len(),
        joined(tile_parts(texture, size, count))[t * byte_count(size as int, size as int) + i]
            == tile_parts(texture, size, count)[t][i],
{
    let parts = tile_parts(texture, size, count);
    let bytes = byte_count(size as int, size as int);
    assert(0 <= size * size) by (nonlinear_arith);
    assert forall|k: int| 0 <= k < parts.len() implies (#[trigger] parts[k]).len() == bytes by {}
    lemma_joined_at(parts, t);
    lemma_joined_len(parts.take(t), bytes as nat);
    let start = t * bytes;
    assert(has_at(joined(parts), start, parts[t]));
    assert(joined(parts).subrange(start, start + parts[t].len())[i] == joined(parts)[start + i]);
}

/// Putting the tiles of a texture together gives back the texture, whatever follows their pixels.
pub proof fn joining_undoes_cutting(texture: Raster, size: u32, rest: Seq<u8>)
    requires
        texture.wf(),
        0 < size,
    ensures
        ({
            let cols = tiles_along(texture.width as int, size as int);
            let rows = tiles_along(texture.height as int, size as int);
            &&& joined(tile_parts(texture, size, cols * rows)).len() == (cols * rows) * byte_count(
                size as int,
                size as int,
            )
            &&& joined_texture(
                joined(tile_parts(texture, size, cols * rows)) + rest,
                texture.width,
                texture.height,
                size as int,
                cols,
                rows,
            ) == texture
        }),
{
    let s = size as int;
    let cols = tiles_along(texture.width as int, s);
    let rows = tiles_along(texture.height as int, s);
    let count = cols * rows;
    let parts = tile_parts(texture, size, count);
    let bytes = byte_count(s, s);
    let pixels = joined(parts) + rest;
    let shade = joined_shade(pixels, s, cols, rows);
    let whole = joined_texture(pixels, texture.width, texture.height, s, cols, rows);
    lemma_tiles_along(texture.width as int, s);
    lemma_tiles_along(texture.height as int, s);
    assert(0 <= count) by (nonlinear_arith)
        requires
            0 <= cols,
            0 <= rows,
            count == cols * rows,
    ;
    assert(0 <= size * size) by (nonlinear_arith);
    assert forall|k: int| 0 <= k < parts.len() implies (#[trigger] parts[k]).len() == bytes by {}
    lemma_joined_len(parts, bytes as nat);
    lemma_drawn_wf(texture.width, texture.height, shade);
    assert forall|x: int, y: int, c: int|
        0 <= x < whole.width && 0 <= y < whole.height && 0 <= c < 4 implies #[trigger] whole.at(
        x,
        y,
        c,
    ) == texture.at(x, y, c) by {
        lemma_drawn_at(texture.width, texture.height, shade, x, y, c);
        let tx = x / s;
        let ty = y / s;
        let t = tile_at(x, y, s, cols);
        lemma_fundamental_div_mod(x, s);
        lemma_fundamental_div_mod(y, s);
        lemma_mod_bound(x, s);
        lemma_mod_bound(y, s);
        assert(0 <= tx < cols && 0 <= ty < rows && x == tx * s + x % s && y == ty * s + y % s)
            by (nonlinear_arith)
            requires
                x == s * tx + x % s,
                y == s * ty + y % s,
                0 <= x % s < s,
                0 <= y % s < s,
                0 <= x < cols * s,
                0 <= y < rows * s,
                0 < s,
        ;
        assert(0 <= t < count) by (nonlinear_arith)
            requires
                t == ty * cols + tx,
                0 <= tx < cols,
                0 <= ty < rows,
                count == cols * rows,
        ;
        lemma_fundamental_div_mod_converse(t, cols, ty, tx);
        lemma_place(s, s, x % s, y % s, c);
        lemma_tile_byte(texture, size, count, t, place(s, x % s, y % s, c));
        lemma_drawn_at(size, size, tile_shade(texture, size, tx, ty), x % s, y % s, c);
        assert(parts[t] == tile_of(texture, size, tx, ty).pixels);
    }
    lemma_same_picture(whole, texture);
}

} // verus!
