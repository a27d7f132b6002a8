//! Maps.
use vstd::arithmetic::div_mod::lemma_fundamental_div_mod_converse;
use vstd::prelude::*;

use crate::bytes::{
    has_at, joined, lemma_even_parts, lemma_has_at_parts, lemma_has_at_within, lemma_joined_len,
};
use crate::codec::png_file;
use crate::cxmp::{
    description, flat_hitboxes, grid_of, header_bytes, header_flaw, header_of, hitbox_at,
    hitbox_parts, hitboxes_fit, entry_parts, lemma_entry_reads_back, lemma_flat,
    lemma_hitbox_reads_back, lemma_sections_stand, map_blob, map_header, packing, sections_of,
    stands, stored_header, stored_placements, stored_texture, tile_placements, tiling_fits,
    unpackable, unpacking, uv_bytes, uv_parts, Grid, MapHeader, Sections, TileUv, CXMP_MAGIC,
};
use crate::driver::{deeds, Unpacked};
use crate::fault::{Fault, Flaw};
use crate::hitbox::{bucket, is_positioned, Hitbox, PlacedView};
use crate::laws::bytes::{lemma_low_bytes, number, numbers_are_read_low_byte_first};
use crate::laws::container::{begins_with, lemma_begins};
use crate::laws::cxsi::writes;
use crate::laws::pictures::{
    pixel, textures_show_their_tiles, tiles_cover_a_side, tiles_show_their_part,
};
use crate::laws::text::{decimals_write_their_number, is_number, value};
use crate::raster::Raster;
use crate::text::decimal;
use crate::tiles::{lemma_tile_byte, lemma_tiles_along, tile_of, tile_parts, tiles_along};

verus! {

/// A tile size of zero is refused; every other map is packed.
pub proof fn only_a_zero_tile_size_is_refused(
    version: u32,
    size: u32,
    texture: Raster,
    uvs: Seq<TileUv>,
    placed: Seq<PlacedView>,
)
    ensures
        match packing(version, size, texture, uvs, placed) {
            Ok(blob) => size > 0 && blob == map_blob(version, size, texture, uvs, placed),
            Err(fault) => size == 0 && fault == Fault::Flawed(Flaw::ZeroTileSize),
        },
{
}

/// Whether that many tiles along a side are the fewest that cover it.
pub open spec fn cover(count: int, side: int, size: int) -> bool {
    (count - 1) * size < side <= count * size
}

proof fn lemma_grid(size: u32, width: u32, height: u32)
    requires
        size > 0,
        tiling_fits(size, width, height),
    ensures
        ({
            let cols = tiles_along(width as int, size as int);
            let rows = tiles_along(height as int, size as int);
            &&& cover(cols, width as int, size as int)
            &&& cover(rows, height as int, size as int)
            &&& 0 <= cols <= width
            &&& 0 <= rows <= height
            &&& 0 <= cols * rows <= u32::MAX
        }),
{
    tiles_cover_a_side(width as int, size as int);
    tiles_cover_a_side(height as int, size as int);
    lemma_tiles_along(width as int, size as int);
    lemma_tiles_along(height as int, size as int);
    let cols = tiles_along(width as int, size as int);
    let rows = tiles_along(height as int, size as int);
    assert(0 <= cols * rows) by (nonlinear_arith)
        requires
            0 <= cols,
            0 <= rows,
    ;
}

/// Whether the parts of a map can be said in the fields of its header: the texture can be cut into
/// tiles, and its offsets and numbers are below 2^32.
pub open spec fn can_be_said(
    size: u32,
    texture: Raster,
    uvs: Seq<TileUv>,
    placed: Seq<PlacedView>,
) -> bool {
    let cols = tiles_along(texture.width as int, size as int);
    let rows = tiles_along(texture.height as int, size as int);
    let tiles = cols * rows;
    &&& size > 0
    &&& texture.pixels.len() == 4 * (texture.width * texture.height)
    &&& tiling_fits(size, texture.width, texture.height)
    &&& flat_hitboxes(placed, cols, rows, tiles).len() < 0x1_0000_0000
    &&& 48 + 16 * uvs.len() + tiles * (4 * (size * size)) + 8 * tiles < 0x1_0000_0000
}

/// The texture coordinates stand behind the header.
proof fn lemma_uvs_stand(
    version: u32,
    size: u32,
    texture: Raster,
    uvs: Seq<TileUv>,
    placed: Seq<PlacedView>,
    t: int,
)
    requires
        0 <= t < uvs.len(),
    ensures
        joined(uv_parts(uvs)).len() == 16 * uvs.len(),
        has_at(
            map_blob(version, size, texture, uvs, placed),
            48 + 16 * t,
            uv_bytes(uvs[t]),
        ),
{
    let blob = map_blob(version, size, texture, uvs, placed);
    let sections = sections_of(size, texture, uvs, placed);
    let head = header_bytes(map_header(version, size, texture, uvs, placed));
    let parts = uv_parts(uvs);
    let rest = sections.pixels + joined(entry_parts(sections.table)) + joined(
        hitbox_parts(sections.hitboxes),
    );
    assert(head.len() == 48);
    lemma_has_at_within(head, joined(parts), rest);
    assert(head + joined(parts) + rest =~= blob);
    assert forall|k: int| 0 <= k < parts.len() implies (#[trigger] parts[k]).len() == 16 by {}
    lemma_joined_len(parts, 16);
    lemma_even_parts(blob, 48, parts, 16, t);
}

#[verifier::rlimit(60)]
proof fn lemma_uv_reads_back(data: Seq<u8>, at: int, uv: TileUv)
    requires
        has_at(data, at, uv_bytes(uv)),
    ensures
        number(data, at, 4) == uv.u0,
        number(data, at + 4, 4) == uv.v0,
        number(data, at + 8, 4) == uv.u1,
        number(data, at + 12, 4) == uv.v1,
{
    let a = crate::bytes::le32(uv.u0);
    let b = crate::bytes::le32(uv.v0);
    let c = crate::bytes::le32(uv.u1);
    let d = crate::bytes::le32(uv.v1);
    lemma_has_at_parts(data, at, a + b + c, d);
    lemma_has_at_parts(data, at, a + b, c);
    lemma_has_at_parts(data, at, a, b);
    crate::bytes::lemma_u32_at(data, at, uv.u0);
    crate::bytes::lemma_u32_at(data, at + 4, uv.v0);
    crate::bytes::lemma_u32_at(data, at + 8, uv.u1);
    crate::bytes::lemma_u32_at(data, at + 12, uv.v1);
    numbers_are_read_low_byte_first(data, at);
    numbers_are_read_low_byte_first(data, at + 4);
    numbers_are_read_low_byte_first(data, at + 8);
    numbers_are_read_low_byte_first(data, at + 12);
}

/// The bytes that the parts of a map take.
#[verifier::rlimit(60)]
proof fn lemma_part_sizes(size: u32, texture: Raster, uvs: Seq<TileUv>, placed: Seq<PlacedView>)
    requires
        size > 0,
        texture.wf(),
        tiling_fits(size, texture.width, texture.height),
    ensures
        ({
            let sections = sections_of(size, texture, uvs, placed);
            let cols = tiles_along(texture.width as int, size as int);
            let rows = tiles_along(texture.height as int, size as int);
            &&& joined(uv_parts(sections.uvs)).len() == 16 * uvs.len()
            &&& sections.pixels.len() == (cols * rows) * (4 * (size * size))
            &&& sections.table.len() == cols * rows
            &&& joined(entry_parts(sections.table)).len() == 8 * (cols * rows)
            &&& joined(hitbox_parts(sections.hitboxes)).len() == 20 * sections.hitboxes.len()
        }),
{
    let sections = sections_of(size, texture, uvs, placed);
    lemma_grid(size, texture.width, texture.height);
    crate::tiles::joining_undoes_cutting(texture, size, Seq::empty());
    let a = uv_parts(sections.uvs);
    let b = entry_parts(sections.table);
    let c = hitbox_parts(sections.hitboxes);
    assert forall|k: int| 0 <= k < a.len() implies (#[trigger] a[k]).len() == 16 by {}
    assert forall|k: int| 0 <= k < b.len() implies (#[trigger] b[k]).len() == 8 by {}
    assert forall|k: int| 0 <= k < c.len() implies (#[trigger] c[k]).len() == 20 by {}
    lemma_joined_len(a, 16);
    lemma_joined_len(b, 8);
    lemma_joined_len(c, 20);
}

/// The header of a packed map.
#[verifier::rlimit(60)]
proof fn lemma_header_of_map(
    version: u32,
    size: u32,
    texture: Raster,
    uvs: Seq<TileUv>,
    placed: Seq<PlacedView>,
)
    requires
        can_be_said(size, texture, uvs, placed),
    ensures
        ({
            let header = map_header(version, size, texture, uvs, placed);
            let cols = tiles_along(texture.width as int, size as int);
            let rows = tiles_along(texture.height as int, size as int);
            let tiles = cols * rows;
            let pixels = tiles * (4 * (size * size));
            &&& header.version == version % 0x1_0000
            &&& header.tile_size == size % 0x1_0000
            &&& header.map_width == texture.width
            &&& header.map_height == texture.height
            &&& header.tiles_x == cols
            &&& header.tiles_y == rows
            &&& header.tile_count == tiles
            &&& header.hitbox_count == sections_of(size, texture, uvs, placed).hitboxes.len()
            &&& header.uv_offset == 48
            &&& header.pixel_offset == 48 + 16 * uvs.len()
            &&& header.tile_table_offset == 48 + 16 * uvs.len() + pixels
            &&& header.hitbox_offset == 48 + 16 * uvs.len() + pixels + 8 * tiles
        }),
{
    let cols = tiles_along(texture.width as int, size as int);
    let rows = tiles_along(texture.height as int, size as int);
    let sections = sections_of(size, texture, uvs, placed);
    lemma_grid(size, texture.width, texture.height);
    lemma_part_sizes(size, texture, uvs, placed);
    lemma_low_bytes(version);
    lemma_low_bytes(size);
    lemma_header_sums(
        version as u16,
        size as u16,
        texture,
        grid_of(size, texture.width, texture.height),
        sections,
        16 * uvs.len() as int,
        (cols * rows) * (4 * (size * size)),
        8 * (cols * rows),
    );
}

/// The offsets of a header are sums of the bytes of the parts before.
proof fn lemma_header_sums(
    version: u16,
    tile_size: u16,
    texture: Raster,
    grid: Grid,
    sections: Sections,
    a: int,
    b: int,
    c: int,
)
    requires
        joined(uv_parts(sections.uvs)).len() == a,
        sections.pixels.len() == b,
        joined(entry_parts(sections.table)).len() == c,
        48 + a + b + c <= u32::MAX,
        sections.table.len() <= u32::MAX,
        sections.hitboxes.len() <= u32::MAX,
    ensures
        ({
            let header = header_of(
                version,
                tile_size,
                texture.width,
                texture.height,
                grid,
                sections,
            );
            &&& header.version == version
            &&& header.tile_size == tile_size
            &&& header.map_width == texture.width
            &&& header.map_height == texture.height
            &&& header.tiles_x == grid.cols
            &&& header.tiles_y == grid.rows
            &&& header.tile_count == sections.table.len()
            &&& header.hitbox_count == sections.hitboxes.len()
            &&& header.uv_offset == 48
            &&& header.pixel_offset == 48 + a
            &&& header.tile_table_offset == 48 + a + b
            &&& header.hitbox_offset == 48 + a + b + c
        }),
{
}

/// A packed map is a header of 48 bytes, the texture coordinates of each tile, the pixels of each
/// tile, eight bytes for each tile and twenty for each hitbox. The header says the version and the
/// tile size, the dimensions of the texture, the grid of the fewest tiles that cover it, the
/// numbers of tiles and hitboxes, and where each part begins.
#[verifier::rlimit(60)]
pub proof fn maps_are_laid_out_so(
    version: u32,
    size: u32,
    texture: Raster,
    uvs: Seq<TileUv>,
    placed: Seq<PlacedView>,
)
    requires
        can_be_said(size, texture, uvs, placed),
    ensures
        ({
            let blob = map_blob(version, size, texture, uvs, placed);
            let tiles = number(blob, 24, 4);
            let boxes = number(blob, 28, 4);
            &&& begins_with(blob, seq![67u8, 88, 77, 80])
            &&& number(blob, 4, 2) == version % 0x1_0000
            &&& number(blob, 6, 2) == size % 0x1_0000
            &&& number(blob, 8, 4) == texture.width
            &&& number(blob, 12, 4) == texture.height
            &&& cover(number(blob, 16, 4), texture.width as int, size as int)
            &&& cover(number(blob, 20, 4), texture.height as int, size as int)
            &&& tiles == number(blob, 16, 4) * number(blob, 20, 4)
            &&& number(blob, 32, 4) == 48
            &&& number(blob, 36, 4) == 48 + 16 * uvs.len()
            &&& number(blob, 40, 4) == number(blob, 36, 4) + tiles * (4 * (size * size))
            &&& number(blob, 44, 4) == number(blob, 40, 4) + 8 * tiles
            &&& blob.len() == number(blob, 44, 4) + 20 * boxes
        }),
{
    let blob = map_blob(version, size, texture, uvs, placed);
    let sections = sections_of(size, texture, uvs, placed);
    let header = map_header(version, size, texture, uvs, placed);
    lemma_sections_stand(header, sections);
    lemma_stands_so(blob, header, sections);
    lemma_grid(size, texture.width, texture.height);
    lemma_header_of_map(version, size, texture, uvs, placed);
    lemma_part_sizes(size, texture, uvs, placed);
}

/// What a blob whose parts stand where they should begins with, says and measures.
proof fn lemma_stands_so(blob: Seq<u8>, header: MapHeader, sections: Sections)
    requires
        stands(blob, header, sections),
    ensures
        begins_with(blob, seq![67u8, 88, 77, 80]),
        header.version == number(blob, 4, 2),
        header.tile_size == number(blob, 6, 2),
        header.map_width == number(blob, 8, 4),
        header.map_height == number(blob, 12, 4),
        header.tiles_x == number(blob, 16, 4),
        header.tiles_y == number(blob, 20, 4),
        header.tile_count == number(blob, 24, 4),
        header.hitbox_count == number(blob, 28, 4),
        header.uv_offset == number(blob, 32, 4),
        header.pixel_offset == number(blob, 36, 4),
        header.tile_table_offset == number(blob, 40, 4),
        header.hitbox_offset == number(blob, 44, 4),
        blob.len() == 48 + joined(uv_parts(sections.uvs)).len() + sections.pixels.len() + joined(
            entry_parts(sections.table),
        ).len() + joined(hitbox_parts(sections.hitboxes)).len(),
{
    lemma_header_numbers(blob);
    assert(CXMP_MAGIC@ =~= seq![67u8, 88, 77, 80]);
    lemma_begins(blob, CXMP_MAGIC@);
}

/// What the header of a blob says, as numbers.
proof fn lemma_header_numbers(data: Seq<u8>)
    ensures
        ({
            let header = stored_header(data);
            &&& header.version == number(data, 4, 2)
            &&& header.tile_size == number(data, 6, 2)
            &&& header.map_width == number(data, 8, 4)
            &&& header.map_height == number(data, 12, 4)
            &&& header.tiles_x == number(data, 16, 4)
            &&& header.tiles_y == number(data, 20, 4)
            &&& header.tile_count == number(data, 24, 4)
            &&& header.hitbox_count == number(data, 28, 4)
            &&& header.uv_offset == number(data, 32, 4)
            &&& header.pixel_offset == number(data, 36, 4)
            &&& header.tile_table_offset == number(data, 40, 4)
            &&& header.hitbox_offset == number(data, 44, 4)
        }),
{
    numbers_are_read_low_byte_first(data, 4);
    numbers_are_read_low_byte_first(data, 6);
    numbers_are_read_low_byte_first(data, 8);
    numbers_are_read_low_byte_first(data, 12);
    numbers_are_read_low_byte_first(data, 16);
    numbers_are_read_low_byte_first(data, 20);
    numbers_are_read_low_byte_first(data, 24);
    numbers_are_read_low_byte_first(data, 28);
    numbers_are_read_low_byte_first(data, 32);
    numbers_are_read_low_byte_first(data, 36);
    numbers_are_read_low_byte_first(data, 40);
    numbers_are_read_low_byte_first(data, 44);
}

/// The texture coordinates of a tile are stored in 16 bytes, behind those of the tiles before it.
pub proof fn coordinates_are_stored_in_order(
    version: u32,
    size: u32,
    texture: Raster,
    uvs: Seq<TileUv>,
    placed: Seq<PlacedView>,
    t: int,
)
    requires
        0 <= t < uvs.len(),
    ensures
        ({
            let blob = map_blob(version, size, texture, uvs, placed);
            let at = 48 + 16 * t;
            &&& number(blob, at, 4) == uvs[t].u0
            &&& number(blob, at + 4, 4) == uvs[t].v0
            &&& number(blob, at + 8, 4) == uvs[t].u1
            &&& number(blob, at + 12, 4) == uvs[t].v1
        }),
{
    lemma_uvs_stand(version, size, texture, uvs, placed, t);
    lemma_uv_reads_back(map_blob(version, size, texture, uvs, placed), 48 + 16 * t, uvs[t]);
}

/// The pixels of the tile in column `tx` and row `ty` are stored row by row behind those of the
/// tiles before it: those of the texture that the tile covers, and transparent black beyond the
/// edge.
#[verifier::rlimit(60)]
pub proof fn tiles_are_stored_in_order(
    version: u32,
    size: u32,
    texture: Raster,
    uvs: Seq<TileUv>,
    placed: Seq<PlacedView>,
    tx: int,
    ty: int,
    x: int,
    y: int,
    c: int,
)
    requires
        can_be_said(size, texture, uvs, placed),
        0 <= tx,
        tx * size < texture.width,
        0 <= ty,
        ty * size < texture.height,
        0 <= x < size,
        0 <= y < size,
        0 <= c < 4,
    ensures
        ({
            let blob = map_blob(version, size, texture, uvs, placed);
            let tile = ty * number(blob, 16, 4) + tx;
            blob[number(blob, 36, 4) + tile * (4 * (size * size)) + 4 * (y * size + x) + c] == (
            if tx * size + x < texture.width && ty * size + y < texture.height {
                pixel(texture, tx * size + x, ty * size + y, c)
            } else {
                0u8
            })
        }),
{
    let blob = map_blob(version, size, texture, uvs, placed);
    let sections = sections_of(size, texture, uvs, placed);
    let header = map_header(version, size, texture, uvs, placed);
    let s = size as int;
    let cols = tiles_along(texture.width as int, s);
    let rows = tiles_along(texture.height as int, s);
    let tiles = cols * rows;
    lemma_grid(size, texture.width, texture.height);
    lemma_sections_stand(header, sections);
    lemma_part_sizes(size, texture, uvs, placed);
    lemma_header_numbers(blob);
    lemma_header_of_map(version, size, texture, uvs, placed);
    assert(tx < cols && ty < rows) by (nonlinear_arith)
        requires
            tx * s < texture.width,
            texture.width <= cols * s,
            ty * s < texture.height,
            texture.height <= rows * s,
            0 < s,
    ;
    let tile = ty * cols + tx;
    assert(0 <= tile < tiles) by (nonlinear_arith)
        requires
            tile == ty * cols + tx,
            0 <= tx < cols,
            0 <= ty < rows,
            tiles == cols * rows,
    ;
    lemma_fundamental_div_mod_converse(tile, cols, ty, tx);
    tiles_show_their_part(texture, size, tx, ty, x, y, c);
    crate::raster::lemma_place(s, s, x, y, c);
    let i = 4 * (y * s + x) + c;
    lemma_tile_byte(texture, size, tiles, tile, i);
    let pixel_at = 48 + joined(uv_parts(uvs)).len() as int;
    let bytes = 4 * (s * s);
    let behind = blob.skip(pixel_at);
    assert(behind[tile * bytes + i] == sections.pixels[tile * bytes + i]);
    assert(behind[tile * bytes + i] == blob[pixel_at + tile * bytes + i]);
    assert(tile_parts(texture, size, tiles)[tile] == tile_of(texture, size, tx, ty).pixels);
}

/// Whether a hitbox stands at `at`: position, size and rotation in four bytes each.
pub open spec fn holds_hitbox(data: Seq<u8>, at: int, hitbox: Hitbox) -> bool {
    &&& number(data, at, 4) == hitbox.x
    &&& number(data, at + 4, 4) == hitbox.y
    &&& number(data, at + 8, 4) == hitbox.w
    &&& number(data, at + 12, 4) == hitbox.h
    &&& number(data, at + 16, 4) == hitbox.rotation
}

proof fn lemma_hitbox_holds(data: Seq<u8>, at: int)
    ensures
        holds_hitbox(data, at, hitbox_at(data, at)),
{
    numbers_are_read_low_byte_first(data, at);
    numbers_are_read_low_byte_first(data, at + 4);
    numbers_are_read_low_byte_first(data, at + 8);
    numbers_are_read_low_byte_first(data, at + 12);
    numbers_are_read_low_byte_first(data, at + 16);
}

/// The entry of a tile says where its hitboxes begin, behind those of the tiles before it, and how
/// many they are; there they stand in their order.
#[verifier::rlimit(60)]
pub proof fn hitboxes_are_stored_with_their_tile(
    version: u32,
    size: u32,
    texture: Raster,
    uvs: Seq<TileUv>,
    placed: Seq<PlacedView>,
    t: int,
)
    requires
        can_be_said(size, texture, uvs, placed),
        0 <= t < tiles_along(texture.width as int, size as int) * tiles_along(
            texture.height as int,
            size as int,
        ),
    ensures
        ({
            let blob = map_blob(version, size, texture, uvs, placed);
            let entry = number(blob, 40, 4) + 8 * t;
            let first = number(blob, entry, 4);
            let mine = bucket(
                placed,
                number(blob, 16, 4),
                number(blob, 20, 4),
                t,
                placed.len() as int,
            );
            &&& t < number(blob, 24, 4)
            &&& t == 0 ==> first == 0
            &&& t + 1 < number(blob, 24, 4) ==> number(blob, entry + 8, 4) == first + mine.len()
            &&& t + 1 == number(blob, 24, 4) ==> number(blob, 28, 4) == first + mine.len()
            &&& number(blob, entry + 4, 4) == mine.len()
            &&& forall|i: int|
                0 <= i < mine.len() ==> holds_hitbox(
                    blob,
                    number(blob, 44, 4) + 20 * (first + i),
                    #[trigger] mine[i],
                )
        }),
{
    let blob = map_blob(version, size, texture, uvs, placed);
    let sections = sections_of(size, texture, uvs, placed);
    let header = map_header(version, size, texture, uvs, placed);
    let cols = tiles_along(texture.width as int, size as int);
    let rows = tiles_along(texture.height as int, size as int);
    let tiles = cols * rows;
    lemma_grid(size, texture.width, texture.height);
    lemma_sections_stand(header, sections);
    lemma_header_numbers(blob);
    lemma_header_of_map(version, size, texture, uvs, placed);
    lemma_part_sizes(size, texture, uvs, placed);
    let table = sections.table;
    let flat = sections.hitboxes;
    let mine = bucket(placed, cols, rows, t, placed.len() as int);
    let first = flat_hitboxes(placed, cols, rows, t).len() as int;
    let at = header.tile_table_offset as int;
    lemma_flat(placed, cols, rows, tiles, t);
    lemma_entry_reads_back(blob, at, table, t);
    numbers_are_read_low_byte_first(blob, at + 8 * t);
    numbers_are_read_low_byte_first(blob, at + 8 * t + 4);
    assert(flat_hitboxes(placed, cols, rows, t + 1).len() == first + mine.len());
    if t + 1 < tiles {
        lemma_flat(placed, cols, rows, tiles, t + 1);
        lemma_entry_reads_back(blob, at, table, t + 1);
        numbers_are_read_low_byte_first(blob, at + 8 * (t + 1));
    }
    assert forall|i: int| 0 <= i < mine.len() implies holds_hitbox(
        blob,
        number(blob, 44, 4) + 20 * (first + i),
        #[trigger] mine[i],
    ) by {
        lemma_hitbox_reads_back(blob, header.hitbox_offset as int, flat, first + i);
        lemma_hitbox_holds(blob, header.hitbox_offset + 20 * (first + i));
        assert(flat[first + i] == mine[i]);
    }
}

/// A blob of fewer than 48 bytes is refused, and so is one that does not begin with the magic:
/// nothing is done with them. Else the folder is created and the texture saved, and the outcome is
/// the version and the tile size; of a map without pixels an empty file is left.
pub proof fn maps_are_unpacked_so(data: Seq<u8>, unpacked: Unpacked<(u16, u16)>)
    requires
        unpacked.says(unpacking(data)),
    ensures
        ({
            let effects = unpacked.effects@;
            let fault = unpacked.outcome->Err_0.fault();
            if data.len() < 48 {
                effects.len() == 0 && unpacked.outcome is Err && fault == Fault::Flawed(
                    Flaw::TooShort,
                )
            } else if !begins_with(data, seq![67u8, 88, 77, 80]) {
                effects.len() == 0 && unpacked.outcome is Err && fault == Fault::Flawed(
                    Flaw::BadMagic,
                )
            } else if number(data, 8, 4) == 0 || number(data, 12, 4) == 0 {
                &&& effects.len() == 2
                &&& effects[0] is CreateFolder
                &&& writes(effects[1], "texture.png"@, Seq::empty())
                &&& unpacked.outcome is Err && fault == Fault::Save(0)
            } else {
                let texture = stored_texture(data);
                &&& effects.len() == 2
                &&& effects[0] is CreateFolder
                &&& writes(
                    effects[1],
                    "texture.png"@,
                    png_file(texture.width, texture.height, texture.pixels),
                )
                &&& unpacked.outcome matches Ok(said) && said.0 == number(data, 4, 2) && said.1
                    == number(data, 6, 2)
            }
        }),
{
    let effects = unpacked.effects@;
    let all = deeds(effects);
    assert(CXMP_MAGIC@ =~= seq![67u8, 88, 77, 80]);
    lemma_begins(data, CXMP_MAGIC@);
    lemma_header_numbers(data);
    assert(all.len() == effects.len());
    if all.len() == 2 {
        assert(all[0] == effects[0]@);
        assert(all[1] == effects[1]@);
    }
}

/// The texture of a blob has the dimensions that the header says, and shows in each pixel the one
/// of the tile that covers it, tiles standing row by row; transparent black where there is no tile.
pub proof fn textures_are_read_from_their_tiles(data: Seq<u8>, x: int, y: int, c: int)
    requires
        number(data, 36, 4) <= data.len(),
        0 <= x < number(data, 8, 4),
        0 <= y < number(data, 12, 4),
        0 <= c < 4,
    ensures
        ({
            let texture = stored_texture(data);
            let size = number(data, 6, 2);
            let cols = number(data, 16, 4);
            let rows = number(data, 20, 4);
            let tile = (y / size) * cols + x / size;
            let at = tile * (4 * (size * size)) + 4 * ((y % size) * size + x % size) + c;
            &&& texture.width == number(data, 8, 4)
            &&& texture.height == number(data, 12, 4)
            &&& size > 0 && x / size < cols && y / size < rows && 0 <= at < data.len() - number(
                data,
                36,
                4,
            ) ==> pixel(texture, x, y, c) == data[number(data, 36, 4) + at]
            &&& size == 0 || cols == 0 || rows == 0 ==> pixel(texture, x, y, c) == 0
            &&& size > 0 && (x >= cols * size || y >= rows * size) ==> pixel(texture, x, y, c) == 0
        }),
{
    lemma_header_numbers(data);
    let header = stored_header(data);
    textures_show_their_tiles(
        data.skip(header.pixel_offset as int),
        header.map_width,
        header.map_height,
        header.tile_size as int,
        header.tiles_x as int,
        header.tiles_y as int,
        x,
        y,
        c,
    );
}

/// The hitboxes of the tiles before `t`.
pub open spec fn before(data: Seq<u8>, t: int) -> int
    decreases t,
{
    if t <= 0 {
        0
    } else {
        before(data, t - 1) + number(data, number(data, 40, 4) + 8 * (t - 1) + 4, 4)
    }
}

/// The hitboxes of a blob are listed tile by tile, each with the column and the row of its tile: of
/// each tile as many as its entry says, from where its entry says.
pub proof fn hitboxes_are_listed_tile_by_tile(data: Seq<u8>, tiles: int, t: int, i: int)
    requires
        0 <= t < tiles <= number(data, 24, 4),
        number(data, 16, 4) > 0,
        0 <= i < number(data, number(data, 40, 4) + 8 * t + 4, 4),
    ensures
        ({
            let found = stored_placements(data, tiles);
            let cols = number(data, 16, 4);
            let first = number(data, number(data, 40, 4) + 8 * t, 4);
            let mine = found[before(data, t) + i];
            &&& found.len() == before(data, tiles)
            &&& 0 <= before(data, t) + i < found.len()
            &&& mine.column == t % cols
            &&& mine.row == t / cols
            &&& holds_hitbox(data, number(data, 44, 4) + 20 * (first + i), mine.hitbox)
        }),
    decreases tiles,
{
    lemma_header_numbers(data);
    let header = stored_header(data);
    let cols = number(data, 16, 4);
    lemma_listed(data, tiles);
    lemma_listed(data, tiles - 1);
    let last = tiles - 1;
    let entry = number(data, 40, 4) + 8 * t;
    numbers_are_read_low_byte_first(data, entry);
    numbers_are_read_low_byte_first(data, entry + 4);
    vstd::arithmetic::div_mod::lemma_mod_bound(t, cols);
    assert(0 <= t / cols <= t) by (nonlinear_arith)
        requires
            0 <= t,
            0 < cols,
    ;
    if t == last {
        lemma_hitbox_holds(
            data,
            header.hitbox_offset + 20 * (crate::cxmp::stored_entry(data, t).first_hitbox + i),
        );
        let fewer = stored_placements(data, last);
        assert(stored_placements(data, tiles)[fewer.len() + i] == tile_placements(data, t)[i]);
    } else {
        hitboxes_are_listed_tile_by_tile(data, last, t, i);
    }
}

proof fn lemma_listed(data: Seq<u8>, tiles: int)
    ensures
        stored_placements(data, tiles).len() == before(data, tiles),
        tiles <= 0 ==> stored_placements(data, tiles).len() == 0,
    decreases tiles,
{
    if tiles > 0 {
        lemma_listed(data, tiles - 1);
        lemma_header_numbers(data);
        numbers_are_read_low_byte_first(data, number(data, 40, 4) + 8 * (tiles - 1) + 4);
    }
}

/// The description says the version and the tile size, and names the files of texture and hitboxes.
pub proof fn descriptions_say_version_and_tile_size(version: u16, tile_size: u16) -> (digits: (
    Seq<char>,
    Seq<char>,
))
    ensures
        description(version, tile_size) == "version = "@ + digits.0 + "\ntile_size = "@ + digits.1
            + "\ntexture = \"texture.png\"\nhitboxes = \"hitboxes.json\"\n"@,
        is_number(digits.0, 10) && value(digits.0, 10) == version,
        is_number(digits.1, 10) && value(digits.1, 10) == tile_size,
        digits.0.len() > 0 && (digits.0.len() > 1 ==> digits.0[0] != '0'),
        digits.1.len() > 0 && (digits.1.len() > 1 ==> digits.1[0] != '0'),
{
    decimals_write_their_number(version as nat);
    decimals_write_their_number(tile_size as nat);
    (decimal(version as nat), decimal(tile_size as nat))
}

/// A texture can be cut into tiles if its sides and one more tile can be said in 32 bits, it has
/// 2^30 pixels at most, and the place of the last pixel of the texture on the first tile can be
/// said in 32 bits; as it always can for tiles of up to 32768 pixels a side.
pub proof fn ordinary_textures_can_be_tiled(size: u32, width: u32, height: u32)
    requires
        size > 0,
    ensures
        ({
            let down = if height < size {
                height as int
            } else {
                size as int
            };
            let side = if width < size {
                width as int
            } else {
                size as int
            };
            let small = width + size < 0x1_0000_0000 && height + size < 0x1_0000_0000 && width
                * height <= 0x4000_0000;
            &&& tiling_fits(size, width, height) == (small && (width == 0 || height == 0 || 4 * ((
            down - 1) * size + side - 1) < 0x1_0000_0000))
            &&& small && size <= 32768 ==> tiling_fits(size, width, height)
        }),
{
    let small = width + size < 0x1_0000_0000 && height + size < 0x1_0000_0000 && width * height
        <= 0x4000_0000;
    if small {
        let cols = tiles_along(width as int, size as int);
        let rows = tiles_along(height as int, size as int);
        lemma_tiles_along(width as int, size as int);
        lemma_tiles_along(height as int, size as int);
        assert(cols * rows <= width * height) by (nonlinear_arith)
            requires
                0 <= cols <= width,
                0 <= rows <= height,
        ;
        if width > 0 && height > 0 && size <= 32768 {
            let down = crate::hitbox::smaller(size as int, height as int);
            assert((down - 1) * size <= 32767 * 32768) by (nonlinear_arith)
                requires
                    1 <= down <= size,
                    0 < size <= 32768,
            ;
        }
    }
}

/// A hitbox is placed if it lists a position for each column and each row of the map that it takes,
/// and always where it takes no tile of the map.
pub proof fn hitboxes_list_their_positions(placed: PlacedView, cols: int, rows: int)
    requires
        ({
            let left = if placed.range.min_x > 0 {
                placed.range.min_x as int
            } else {
                0
            };
            let top = if placed.range.min_y > 0 {
                placed.range.min_y as int
            } else {
                0
            };
            let right = if placed.range.max_x < cols {
                placed.range.max_x as int
            } else {
                cols - 1
            };
            let bottom = if placed.range.max_y < rows {
                placed.range.max_y as int
            } else {
                rows - 1
            };
            left > right || top > bottom || (placed.xs.len() == right - left + 1 && placed.ys.len()
                == bottom - top + 1)
        }),
    ensures
        is_positioned(placed, cols, rows),
{
}

/// A blob whose header is broken can be handed to unpacking, which refuses it. Else the pixels of
/// all its tiles must be there, and, where it has pixels at all, the entries of its tiles and its
/// hitboxes.
pub proof fn maps_must_be_all_there(data: Seq<u8>, t: int)
    ensures
        data.len() < 48 || !begins_with(data, seq![67u8, 88, 77, 80]) ==> unpackable(data),
        data.len() >= 48 && begins_with(data, seq![67u8, 88, 77, 80]) ==> {
            let size = number(data, 6, 2);
            let pixels = (number(data, 16, 4) * number(data, 20, 4)) * (4 * (size * size));
            &&& number(data, 36, 4) + pixels > data.len() ==> !unpackable(data)
            &&& number(data, 8, 4) > 0 && number(data, 12, 4) > 0 && unpackable(data) ==> {
                let at = number(data, 40, 4) + 8 * t;
                &&& number(data, 44, 4) + 20 * number(data, 28, 4) <= data.len()
                &&& number(data, 40, 4) + 8 * number(data, 24, 4) <= data.len()
                &&& 0 <= t < number(data, 24, 4) && number(data, at + 4, 4) > 0 ==> number(
                    data,
                    at,
                    4,
                ) + number(data, at + 4, 4) <= number(data, 28, 4)
            }
        },
{
    assert(CXMP_MAGIC@ =~= seq![67u8, 88, 77, 80]);
    lemma_begins(data, CXMP_MAGIC@);
    lemma_header_numbers(data);
    let at = number(data, 40, 4) + 8 * t;
    numbers_are_read_low_byte_first(data, at);
    numbers_are_read_low_byte_first(data, at + 4);
    if header_flaw(data) is None && hitboxes_fit(data) && 0 <= t < number(data, 24, 4) {
        assert(crate::cxmp::entry_fits(data, t));
    }
}

/// A blob of ordinary size whose parts are all there can be unpacked: of up to 2^28 pixels, with up
/// to 65535 tiles along each side, none larger than 32767 pixels a side.
pub proof fn ordinary_maps_can_be_unpacked(data: Seq<u8>)
    requires
        data.len() >= 48,
        begins_with(data, seq![67u8, 88, 77, 80]),
        number(data, 8, 4) * number(data, 12, 4) <= 0x0fff_ffff,
        number(data, 6, 2) < 32768,
        number(data, 16, 4) < 65536,
        number(data, 20, 4) < 65536,
        number(data, 36, 4) + (number(data, 16, 4) * number(data, 20, 4)) * (4 * (number(data, 6, 2)
            * number(data, 6, 2))) <= data.len(),
        number(data, 44, 4) + 20 * number(data, 28, 4) <= data.len(),
        number(data, 40, 4) + 8 * number(data, 24, 4) <= data.len(),
        number(data, 24, 4) > 0 ==> number(data, 16, 4) > 0,
        forall|t: int|
            0 <= t < number(data, 24, 4) ==> #[trigger] number(
                data,
                number(data, 40, 4) + 8 * t,
                4,
            ) + number(data, number(data, 40, 4) + 8 * t + 4, 4) <= number(data, 28, 4),
    ensures
        unpackable(data),
{
    assert(CXMP_MAGIC@ =~= seq![67u8, 88, 77, 80]);
    lemma_begins(data, CXMP_MAGIC@);
    lemma_header_numbers(data);
    let header = stored_header(data);
    let size = header.tile_size as int;
    let cols = header.tiles_x as int;
    let rows = header.tiles_y as int;
    assert(0 <= (cols * rows) * (4 * (size * size))) by (nonlinear_arith)
        requires
            0 <= cols,
            0 <= rows,
            0 <= size,
    ;
    assert(cols * size <= 0x1_0000_0000 && rows * size <= 0x1_0000_0000) by (nonlinear_arith)
        requires
            0 <= cols < 65536,
            0 <= rows < 65536,
            0 <= size < 32768,
    ;
    if header.map_width > 0 && header.map_height > 0 && size > 0 {
        let down = crate::hitbox::smaller(size, header.map_height as int);
        let side = crate::hitbox::smaller(size, header.map_width as int);
        assert(0 <= (down - 1) * size <= 32767 * 32767) by (nonlinear_arith)
            requires
                1 <= down <= size,
                0 < size < 32768,
        ;
    }
    assert forall|t: int| 0 <= t < header.tile_count implies #[trigger] crate::cxmp::entry_fits(
        data,
        t,
    ) by {
        let at = number(data, 40, 4) + 8 * t;
        numbers_are_read_low_byte_first(data, at);
        numbers_are_read_low_byte_first(data, at + 4);
        assert(number(data, number(data, 40, 4) + 8 * t, 4) + number(
            data,
            number(data, 40, 4) + 8 * t + 4,
            4,
        ) <= number(data, 28, 4));
    }
}

} // verus!
