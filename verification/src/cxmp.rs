//! CXMP: a map, its texture cut into tiles, with the hitboxes of each tile.
//!
//! A blob is a header of 48 bytes, the texture coordinates of each tile, the pixels of each tile,
//! for each tile its first hitbox and their number, and the hitboxes. Floats are kept as their
//! bits, on which nothing here depends.
use vstd::prelude::*;
use vstd::string::*;

use crate::bytes::{
    has_at, holds_at, joined, le16, le32, lemma_has_at_nested, lemma_has_at_parts,
    lemma_has_at_within, lemma_joined_at, lemma_joined_len, lemma_joined_push, lemma_u16_at,
    lemma_u32_at, push_bytes, push_u16, push_u32, read_u16, read_u32, u16_at, u32_at,
};
use crate::codec::{decoded_png, encode_file, file_of, stored_faithfully, DECODE_LIMIT};
use crate::driver::{deeds, AssetDriver, Deed, Effect, Unpacked, Unpacking};
use crate::fault::{packed_as, AssetError, Fault, Flaw};
use crate::hitbox::{
    all_positioned, assign_hitboxes, bucket, placed_views, smaller, Hitbox, PlacedHitbox, PlacedView,
};
use crate::raster::{byte_count, Image, Raster};
use crate::text::{decimal, decimal_text};
use crate::tiles::{
    cut_tile, enough_pixels, join_texture, joined_texture, joining_undoes_cutting,
    lemma_tile_begins, lemma_tiles_along, tile_parts, tiles_along,
};

verus! {

/// What a blob begins with: "CXMP".
pub const CXMP_MAGIC: [u8; 4] = [67u8, 88, 77, 80];

/// The driver of maps.
pub struct CxmpDriver;

impl AssetDriver for CxmpDriver {
    open spec fn magic_bytes(&self) -> Seq<u8> {
        CXMP_MAGIC@
    }

    open spec fn extension_text(&self) -> Seq<char> {
        ".cxmp"@
    }

    open spec fn entry_text(&self) -> Seq<char> {
        "map.entry"@
    }

    fn magic(&self) -> &[u8; 4] {
        &CXMP_MAGIC
    }

    fn extension(&self) -> &str {
        ".cxmp"
    }

    fn entry_file(&self) -> &str {
        "map.entry"
    }
}

/// The version of a description that names none.
pub fn default_version() -> (version: u32)
    ensures
        version == 1,
{
    1
}

/// The columns and rows of tiles that a map has.
#[derive(Clone, Copy, Debug, PartialEq, Eq, Structural)]
pub struct Grid {
    pub cols: u32,
    pub rows: u32,
}

/// The edges of a tile on its texture, in pixels.
#[derive(Clone, Copy, Debug, PartialEq, Eq, Structural)]
pub struct TileEdges {
    pub left: u32,
    pub top: u32,
    pub right: u32,
    pub bottom: u32,
}

/// The texture coordinates of a tile: the bits of single floats.
#[derive(Clone, Copy, Debug, PartialEq, Eq, Structural)]
pub struct TileUv {
    pub u0: u32,
    pub v0: u32,
    pub u1: u32,
    pub v1: u32,
}

/// The hitboxes of a tile: where they begin among all of them, and how many they are.
#[derive(Clone, Copy, Debug, PartialEq, Eq, Structural)]
pub struct TileEntry {
    pub first_hitbox: u32,
    pub hitbox_count: u32,
}

/// The header of a blob behind the magic.
#[derive(Clone, Copy, Debug, PartialEq, Eq, Structural)]
pub struct MapHeader {
    pub version: u16,
    pub tile_size: u16,
    pub map_width: u32,
    pub map_height: u32,
    pub tiles_x: u32,
    pub tiles_y: u32,
    pub tile_count: u32,
    pub hitbox_count: u32,
    pub uv_offset: u32,
    pub pixel_offset: u32,
    pub tile_table_offset: u32,
    pub hitbox_offset: u32,
}

/// Whether the place of every pixel of a tile that lies on the map can be said in 32 bits.
pub open spec fn tile_offsets_fit(size: int, width: int, height: int) -> bool {
    width > 0 && height > 0 && size > 0 ==> 4 * ((smaller(size, height) - 1) * size + smaller(
        size,
        width,
    ) - 1) <= u32::MAX
}

/// Whether the tiles of a texture can be computed in 32 bits: their number, the edges of each, and
/// the place of each pixel on the texture and on its tile.
pub open spec fn tiling_fits(size: u32, width: u32, height: u32) -> bool {
    &&& width + size <= u32::MAX
    &&& height + size <= u32::MAX
    &&& tiles_along(width as int, size as int) * tiles_along(height as int, size as int)
        <= u32::MAX
    &&& width * height <= 0x4000_0000
    &&& tile_offsets_fit(size as int, width as int, height as int)
}

/// Whether the tiles of a texture can be computed in 32 bits.
pub fn can_tile(size: u32, width: u32, height: u32) -> (can: bool)
    requires
        size > 0,
    ensures
        can == tiling_fits(size, width, height),
{
    if width as u64 + size as u64 > u32::MAX as u64 || height as u64 + size as u64 > u32::MAX as u64 {
        return false;
    }
    proof {
        lemma_tiles_along(width as int, size as int);
        lemma_tiles_along(height as int, size as int);
        assert(0 <= width * height <= u32::MAX * u32::MAX) by (nonlinear_arith)
            requires
                0 <= width <= u32::MAX,
                0 <= height <= u32::MAX,
        ;
    }
    let cols: u64 = ((width + size - 1) / size) as u64;
    let rows: u64 = ((height + size - 1) / size) as u64;
    assert(0 <= cols * rows <= u32::MAX * u32::MAX) by (nonlinear_arith)
        requires
            0 <= cols <= u32::MAX,
            0 <= rows <= u32::MAX,
    ;
    if cols * rows > u32::MAX as u64 || (width as u64) * (height as u64) > 0x4000_0000 {
        return false;
    }
    if width == 0 || height == 0 {
        return true;
    }
    let down: u128 = (if height < size {
        height
    } else {
        size
    }) as u128;
    let across: u128 = (if width < size {
        width
    } else {
        size
    }) as u128;
    assert(0 <= (down - 1) * size <= u32::MAX * u32::MAX) by (nonlinear_arith)
        requires
            1 <= down <= u32::MAX,
            0 <= size <= u32::MAX,
    ;
    4 * ((down - 1) * (size as u128) + across - 1) <= u32::MAX as u128
}

/// The columns and rows of tiles of a map; a tile size of zero is refused.
pub fn map_grid(size: u32, width: u32, height: u32) -> (outcome: Result<Grid, Flaw>)
    requires
        size > 0 ==> tiling_fits(size, width, height),
    ensures
        size == 0 ==> outcome == Err::<Grid, Flaw>(Flaw::ZeroTileSize),
        size > 0 ==> (outcome matches Ok(grid) && grid.cols == tiles_along(
            width as int,
            size as int,
        ) && grid.rows == tiles_along(height as int, size as int)),
{
    if size == 0 {
        return Err(Flaw::ZeroTileSize);
    }
    Ok(Grid { cols: (width + size - 1) / size, rows: (height + size - 1) / size })
}

/// The edges of the tile in column `tx` and row `ty`, the last ones ending with the texture.
pub fn tile_edges(size: u32, width: u32, height: u32, tx: u32, ty: u32) -> (edges: TileEdges)
    requires
        size > 0,
        tiling_fits(size, width, height),
        tx < tiles_along(width as int, size as int),
        ty < tiles_along(height as int, size as int),
    ensures
        edges.left == tx * size,
        edges.top == ty * size,
        edges.right == smaller((tx + 1) * size, width as int),
        edges.bottom == smaller((ty + 1) * size, height as int),
{
    proof {
        lemma_tile_begins(width as int, size as int, tx as int);
        lemma_tile_begins(height as int, size as int, ty as int);
    }
    let left: u32 = tx * size;
    let top: u32 = ty * size;
    TileEdges {
        left,
        top,
        right: if width < left + size {
            width
        } else {
            left + size
        },
        bottom: if height < top + size {
            height
        } else {
            top + size
        },
    }
}

/// The texture coordinates of a tile as bytes.
pub open spec fn uv_bytes(uv: TileUv) -> Seq<u8> {
    le32(uv.u0) + le32(uv.v0) + le32(uv.u1) + le32(uv.v1)
}

/// The texture coordinates of each tile as bytes.
pub open spec fn uv_parts(uvs: Seq<TileUv>) -> Seq<Seq<u8>> {
    Seq::new(uvs.len(), |i: int| uv_bytes(uvs[i]))
}

/// An entry of the tile table as bytes.
pub open spec fn entry_bytes(entry: TileEntry) -> Seq<u8> {
    le32(entry.first_hitbox) + le32(entry.hitbox_count)
}

/// The entries of the tile table as bytes.
pub open spec fn entry_parts(table: Seq<TileEntry>) -> Seq<Seq<u8>> {
    Seq::new(table.len(), |i: int| entry_bytes(table[i]))
}

/// A hitbox as bytes.
pub open spec fn hitbox_bytes(hitbox: Hitbox) -> Seq<u8> {
    le32(hitbox.x) + le32(hitbox.y) + le32(hitbox.w) + le32(hitbox.h) + le32(hitbox.rotation)
}

/// The hitboxes as bytes.
pub open spec fn hitbox_parts(hitboxes: Seq<Hitbox>) -> Seq<Seq<u8>> {
    Seq::new(hitboxes.len(), |i: int| hitbox_bytes(hitboxes[i]))
}

/// The header as bytes.
pub open spec fn header_bytes(header: MapHeader) -> Seq<u8> {
    CXMP_MAGIC@ + le16(header.version) + le16(header.tile_size) + le32(header.map_width) + le32(
        header.map_height,
    ) + le32(header.tiles_x) + le32(header.tiles_y) + le32(header.tile_count) + le32(
        header.hitbox_count,
    ) + le32(header.uv_offset) + le32(header.pixel_offset) + le32(header.tile_table_offset) + le32(
        header.hitbox_offset,
    )
}

/// What a blob holds behind its header.
pub struct Sections {
    pub uvs: Seq<TileUv>,
    pub pixels: Seq<u8>,
    pub table: Seq<TileEntry>,
    pub hitboxes: Seq<Hitbox>,
}

/// The header of a map with these sections.
pub open spec fn header_of(
    version: u16,
    tile_size: u16,
    width: u32,
    height: u32,
    grid: Grid,
    sections: Sections,
) -> MapHeader {
    let pixel_offset = 48 + joined(uv_parts(sections.uvs)).len();
    let table_offset = pixel_offset + sections.pixels.len();
    let hitbox_offset = table_offset + joined(entry_parts(sections.table)).len();
    MapHeader {
        version,
        tile_size,
        map_width: width,
        map_height: height,
        tiles_x: grid.cols,
        tiles_y: grid.rows,
        tile_count: sections.table.len() as u32,
        hitbox_count: sections.hitboxes.len() as u32,
        uv_offset: 48,
        pixel_offset: pixel_offset as u32,
        tile_table_offset: table_offset as u32,
        hitbox_offset: hitbox_offset as u32,
    }
}

/// The blob of a header and the sections behind it.
pub open spec fn cxmp_blob(header: MapHeader, sections: Sections) -> Seq<u8> {
    header_bytes(header) + joined(uv_parts(sections.uvs)) + sections.pixels + joined(
        entry_parts(sections.table),
    ) + joined(hitbox_parts(sections.hitboxes))
}

/// The hitboxes of the first `tiles` tiles, tile by tile.
pub open spec fn flat_hitboxes(
    placed: Seq<PlacedView>,
    cols: int,
    rows: int,
    tiles: int,
) -> Seq<Hitbox>
    decreases tiles,
{
    if tiles <= 0 {
        Seq::empty()
    } else {
        flat_hitboxes(placed, cols, rows, tiles - 1) + bucket(
            placed,
            cols,
            rows,
            tiles - 1,
            placed.len() as int,
        )
    }
}

/// The tile table of the first `tiles` tiles.
pub open spec fn tile_table(
    placed: Seq<PlacedView>,
    cols: int,
    rows: int,
    tiles: int,
) -> Seq<TileEntry> {
    Seq::new(
        tiles as nat,
        |t: int|
            TileEntry {
                first_hitbox: flat_hitboxes(placed, cols, rows, t).len() as u32,
                hitbox_count: bucket(placed, cols, rows, t, placed.len() as int).len() as u32,
            },
    )
}

/// The grid of a texture.
pub open spec fn grid_of(size: u32, width: u32, height: u32) -> Grid {
    Grid {
        cols: tiles_along(width as int, size as int) as u32,
        rows: tiles_along(height as int, size as int) as u32,
    }
}

/// The sections of a map.
pub open spec fn sections_of(
    size: u32,
    texture: Raster,
    uvs: Seq<TileUv>,
    placed: Seq<PlacedView>,
) -> Sections {
    let cols = tiles_along(texture.width as int, size as int);
    let rows = tiles_along(texture.height as int, size as int);
    Sections {
        uvs,
        pixels: joined(tile_parts(texture, size, cols * rows)),
        table: tile_table(placed, cols, rows, cols * rows),
        hitboxes: flat_hitboxes(placed, cols, rows, cols * rows),
    }
}

/// The blob of a map.
pub open spec fn map_blob(
    version: u32,
    size: u32,
    texture: Raster,
    uvs: Seq<TileUv>,
    placed: Seq<PlacedView>,
) -> Seq<u8> {
    let sections = sections_of(size, texture, uvs, placed);
    cxmp_blob(
        header_of(
            version as u16,
            size as u16,
            texture.width,
            texture.height,
            grid_of(size, texture.width, texture.height),
            sections,
        ),
        sections,
    )
}

/// What packing a map comes to.
pub open spec fn packing(
    version: u32,
    size: u32,
    texture: Raster,
    uvs: Seq<TileUv>,
    placed: Seq<PlacedView>,
) -> Result<Seq<u8>, Fault> {
    if size == 0 {
        Err(Fault::Flawed(Flaw::ZeroTileSize))
    } else {
        Ok(map_blob(version, size, texture, uvs, placed))
    }
}

/// Stores the texture coordinates.
fn pack_uvs(uvs: &Vec<TileUv>) -> (out: Vec<u8>)
    ensures
        out@ == joined(uv_parts(uvs@)),
{
    let ghost parts = uv_parts(uvs@);
    let mut out: Vec<u8> = Vec::new();
    let mut i: usize = 0;
    assert(parts.take(0) =~= Seq::<Seq<u8>>::empty());
    assert(out@ =~= joined(parts.take(0)));
    while i < uvs.len()
        invariant
            parts == uv_parts(uvs@),
            i <= uvs@.len(),
            out@ == joined(parts.take(i as int)),
        decreases uvs@.len() - i,
    {
        let uv: TileUv = uvs[i];
        push_u32(&mut out, uv.u0);
        push_u32(&mut out, uv.v0);
        push_u32(&mut out, uv.u1);
        push_u32(&mut out, uv.v1);
        proof {
            lemma_joined_push(parts.take(i as int), parts[i as int]);
            assert(parts.take(i + 1) =~= parts.take(i as int).push(parts[i as int]));
            assert(out@ =~= joined(parts.take(i as int)) + uv_bytes(uv));
        }
        i = i + 1;
    }
    assert(parts.take(i as int) =~= parts);
    out
}

/// Stores the hitboxes.
fn pack_hitboxes(hitboxes: &Vec<Hitbox>) -> (out: Vec<u8>)
    ensures
        out@ == joined(hitbox_parts(hitboxes@)),
{
    let ghost parts = hitbox_parts(hitboxes@);
    let mut out: Vec<u8> = Vec::new();
    let mut i: usize = 0;
    assert(parts.take(0) =~= Seq::<Seq<u8>>::empty());
    assert(out@ =~= joined(parts.take(0)));
    while i < hitboxes.len()
        invariant
            parts == hitbox_parts(hitboxes@),
            i <= hitboxes@.len(),
            out@ == joined(parts.take(i as int)),
        decreases hitboxes@.len() - i,
    {
        let hitbox: Hitbox = hitboxes[i];
        push_u32(&mut out, hitbox.x);
        push_u32(&mut out, hitbox.y);
        push_u32(&mut out, hitbox.w);
        push_u32(&mut out, hitbox.h);
        push_u32(&mut out, hitbox.rotation);
        proof {
            lemma_joined_push(parts.take(i as int), parts[i as int]);
            assert(parts.take(i + 1) =~= parts.take(i as int).push(parts[i as int]));
            assert(out@ =~= joined(parts.take(i as int)) + hitbox_bytes(hitbox));
        }
        i = i + 1;
    }
    assert(parts.take(i as int) =~= parts);
    out
}

/// Stores the pixels of the tiles.
fn pack_tiles(texture: &Image, size: u32, grid: Grid) -> (out: Vec<u8>)
    requires
        texture@.wf(),
        size > 0,
        tiling_fits(size, texture.width, texture.height),
        grid == grid_of(size, texture.width, texture.height),
    ensures
        out@ == joined(tile_parts(texture@, size, grid.cols * grid.rows)),
{
    let ghost cols = grid.cols as int;
    let ghost rows = grid.rows as int;
    proof {
        lemma_tiles_along(texture.width as int, size as int);
        lemma_tiles_along(texture.height as int, size as int);
        assert(0 <= cols * rows) by (nonlinear_arith)
            requires
                0 <= cols,
                0 <= rows,
        ;
        assert(0 * cols == 0) by (nonlinear_arith);
    }
    let mut out: Vec<u8> = Vec::new();
    let mut ty: u32 = 0;
    assert(tile_parts(texture@, size, 0) =~= Seq::<Seq<u8>>::empty());
    assert(out@ =~= joined(tile_parts(texture@, size, 0)));
    while ty < grid.rows
        invariant
            texture@.wf(),
            size > 0,
            tiling_fits(size, texture.width, texture.height),
            cols == grid.cols,
            rows == grid.rows,
            cols == tiles_along(texture.width as int, size as int),
            rows == tiles_along(texture.height as int, size as int),
            ty <= grid.rows,
            out@ == joined(tile_parts(texture@, size, ty * cols)),
        decreases grid.rows - ty,
    {
        let mut tx: u32 = 0;
        while tx < grid.cols
            invariant
                texture@.wf(),
                size > 0,
                tiling_fits(size, texture.width, texture.height),
                cols == grid.cols,
                rows == grid.rows,
                cols == tiles_along(texture.width as int, size as int),
                rows == tiles_along(texture.height as int, size as int),
                ty < grid.rows,
                tx <= grid.cols,
                out@ == joined(tile_parts(texture@, size, ty * cols + tx)),
            decreases grid.cols - tx,
        {
            let tile = cut_tile(texture, size, tx, ty);
            proof {
                let t = ty * cols + tx;
                assert(0 <= ty * cols) by (nonlinear_arith)
                    requires
                        0 <= cols,
                        0 <= ty,
                ;
                vstd::arithmetic::div_mod::lemma_fundamental_div_mod_converse(
                    t,
                    cols,
                    ty as int,
                    tx as int,
                );
                let parts = tile_parts(texture@, size, t);
                assert(tile_parts(texture@, size, t + 1) =~= parts.push(tile@));
                lemma_joined_push(parts, tile@);
            }
            push_bytes(&mut out, tile.as_slice());
            tx = tx + 1;
        }
        assert(ty * cols + cols == (ty + 1) * cols) by (nonlinear_arith);
        ty = ty + 1;
    }
    assert(rows * cols == cols * rows) by (nonlinear_arith);
    out
}

/// Puts the hitboxes of the tiles in a row, and stores the tile table.
fn flatten(
    buckets: &Vec<Vec<Hitbox>>,
    Ghost(placed): Ghost<Seq<PlacedView>>,
    Ghost(cols): Ghost<int>,
    Ghost(rows): Ghost<int>,
) -> (flat: (Vec<u8>, Vec<Hitbox>))
    requires
        forall|t: int|
            0 <= t < buckets@.len() ==> (#[trigger] buckets@[t])@ == bucket(
                placed,
                cols,
                rows,
                t,
                placed.len() as int,
            ),
    ensures
        flat.0@ == joined(entry_parts(tile_table(placed, cols, rows, buckets@.len() as int))),
        flat.1@ == flat_hitboxes(placed, cols, rows, buckets@.len() as int),
{
    let mut table: Vec<u8> = Vec::new();
    let mut hitboxes: Vec<Hitbox> = Vec::new();
    let mut t: usize = 0;
    assert(entry_parts(tile_table(placed, cols, rows, 0)) =~= Seq::<Seq<u8>>::empty());
    assert(table@ =~= Seq::<u8>::empty());
    assert(hitboxes@ =~= Seq::<Hitbox>::empty());
    while t < buckets.len()
        invariant
            forall|k: int|
                0 <= k < buckets@.len() ==> (#[trigger] buckets@[k])@ == bucket(
                    placed,
                    cols,
                    rows,
                    k,
                    placed.len() as int,
                ),
            t <= buckets@.len(),
            table@ == joined(entry_parts(tile_table(placed, cols, rows, t as int))),
            hitboxes@ == flat_hitboxes(placed, cols, rows, t as int),
        decreases buckets@.len() - t,
    {
        let ghost mine = buckets@[t as int]@;
        let ghost before = hitboxes@;
        let entry = TileEntry {
            first_hitbox: hitboxes.len() as u32,
            hitbox_count: buckets[t].len() as u32,
        };
        push_u32(&mut table, entry.first_hitbox);
        push_u32(&mut table, entry.hitbox_count);
        let mut i: usize = 0;
        while i < buckets[t].len()
            invariant
                t < buckets@.len(),
                mine == buckets@[t as int]@,
                i <= mine.len(),
                hitboxes@ == before + mine.take(i as int),
            decreases mine.len() - i,
        {
            hitboxes.push(buckets[t][i]);
            i = i + 1;
            assert(hitboxes@ =~= before + mine.take(i as int));
        }
        proof {
            assert(mine.take(i as int) =~= mine);
            let parts = entry_parts(tile_table(placed, cols, rows, t as int));
            assert(entry_parts(tile_table(placed, cols, rows, t + 1)) =~= parts.push(
                entry_bytes(entry),
            ));
            lemma_joined_push(parts, entry_bytes(entry));
            assert(table@ =~= joined(parts) + entry_bytes(entry));
        }
        t = t + 1;
    }
    (table, hitboxes)
}

/// Packs a map: the texture cut into tiles, the texture coordinates of each tile, row by row, and
/// the hitboxes dealt out to the tiles that they take.
pub fn pack_map_cxmp(
    version: u32,
    size: u32,
    texture: &Image,
    uvs: &Vec<TileUv>,
    placed: &Vec<PlacedHitbox>,
) -> (outcome: Result<Vec<u8>, AssetError>)
    requires
        texture@.wf(),
        size > 0 ==> tiling_fits(size, texture.width, texture.height),
        size > 0 ==> uvs@.len() == tiles_along(texture.width as int, size as int) * tiles_along(
            texture.height as int,
            size as int,
        ),
        size > 0 ==> all_positioned(
            placed_views(placed@),
            tiles_along(texture.width as int, size as int),
            tiles_along(texture.height as int, size as int),
        ),
    ensures
        packed_as(outcome, packing(version, size, texture@, uvs@, placed_views(placed@))),
{
    let grid: Grid = match map_grid(size, texture.width, texture.height) {
        Ok(grid) => grid,
        Err(flaw) => return Err(AssetError::Flawed(flaw)),
    };
    let ghost cols = grid.cols as int;
    let ghost rows = grid.rows as int;
    let ghost views = placed_views(placed@);
    let coordinates = pack_uvs(uvs);
    let pixels = pack_tiles(texture, size, grid);
    let buckets = assign_hitboxes(placed, grid.cols, grid.rows);
    let (table, hitboxes) = flatten(&buckets, Ghost(views), Ghost(cols), Ghost(rows));
    let stored = pack_hitboxes(&hitboxes);
    let pixel_offset: u128 = 48 + coordinates.len() as u128;
    let table_offset: u128 = pixel_offset + pixels.len() as u128;
    let hitbox_offset: u128 = table_offset + table.len() as u128;
    let mut blob: Vec<u8> = Vec::new();
    push_bytes(&mut blob, CXMP_MAGIC.as_slice());
    push_u16(&mut blob, version as u16);
    push_u16(&mut blob, size as u16);
    push_u32(&mut blob, texture.width);
    push_u32(&mut blob, texture.height);
    push_u32(&mut blob, grid.cols);
    push_u32(&mut blob, grid.rows);
    push_u32(&mut blob, buckets.len() as u32);
    push_u32(&mut blob, hitboxes.len() as u32);
    push_u32(&mut blob, 48);
    push_u32(&mut blob, pixel_offset as u32);
    push_u32(&mut blob, table_offset as u32);
    push_u32(&mut blob, hitbox_offset as u32);
    push_bytes(&mut blob, coordinates.as_slice());
    push_bytes(&mut blob, pixels.as_slice());
    push_bytes(&mut blob, table.as_slice());
    push_bytes(&mut blob, stored.as_slice());
    assert(blob@ == map_blob(version, size, texture@, uvs@, views));
    Ok(blob)
}

/// What is wrong with the header of a blob.
pub open spec fn header_flaw(data: Seq<u8>) -> Option<Flaw> {
    if data.len() < 48 {
        Some(Flaw::TooShort)
    } else if !has_at(data, 0, CXMP_MAGIC@) {
        Some(Flaw::BadMagic)
    } else {
        None
    }
}

/// The header that a blob begins with.
pub open spec fn stored_header(data: Seq<u8>) -> MapHeader {
    MapHeader {
        version: u16_at(data, 4),
        tile_size: u16_at(data, 6),
        map_width: u32_at(data, 8),
        map_height: u32_at(data, 12),
        tiles_x: u32_at(data, 16),
        tiles_y: u32_at(data, 20),
        tile_count: u32_at(data, 24),
        hitbox_count: u32_at(data, 28),
        uv_offset: u32_at(data, 32),
        pixel_offset: u32_at(data, 36),
        tile_table_offset: u32_at(data, 40),
        hitbox_offset: u32_at(data, 44),
    }
}

/// The hitbox stored at `at`.
pub open spec fn hitbox_at(data: Seq<u8>, at: int) -> Hitbox {
    Hitbox {
        x: u32_at(data, at),
        y: u32_at(data, at + 4),
        w: u32_at(data, at + 8),
        h: u32_at(data, at + 12),
        rotation: u32_at(data, at + 16),
    }
}

/// The hitboxes of a tile.
pub open spec fn stored_entry(data: Seq<u8>, tile: int) -> TileEntry {
    let at = stored_header(data).tile_table_offset + 8 * tile;
    TileEntry { first_hitbox: u32_at(data, at), hitbox_count: u32_at(data, at + 4) }
}

/// Whether the tiles of a blob are all there, the texture can be held in memory, and the edges of
/// each tile and the place of each of its pixels can be said in 32 bits.
pub open spec fn texture_fits(data: Seq<u8>) -> bool {
    let header = stored_header(data);
    let size = header.tile_size as int;
    &&& byte_count(header.map_width as int, header.map_height as int) <= usize::MAX
    &&& header.pixel_offset <= data.len()
    &&& enough_pixels(
        data.len() - header.pixel_offset,
        size,
        header.tiles_x as int,
        header.tiles_y as int,
    )
    &&& header.tiles_x > 0 && header.tiles_y > 0 && size > 0 ==> {
        &&& header.tiles_x * size <= 0x1_0000_0000
        &&& header.tiles_y * size <= 0x1_0000_0000
        &&& tile_offsets_fit(size, header.map_width as int, header.map_height as int)
    }
}

/// Whether the hitboxes of a tile are among those that are stored.
pub open spec fn entry_fits(data: Seq<u8>, tile: int) -> bool {
    let entry = stored_entry(data, tile);
    entry.hitbox_count > 0 ==> entry.first_hitbox + entry.hitbox_count <= stored_header(
        data,
    ).hitbox_count
}

/// Whether the tile table and the hitboxes of a blob are all there, and the hitboxes of each tile
/// among them.
pub open spec fn hitboxes_fit(data: Seq<u8>) -> bool {
    let header = stored_header(data);
    &&& header.hitbox_offset + 20 * header.hitbox_count <= data.len()
    &&& header.tile_table_offset + 8 * header.tile_count <= data.len()
    &&& header.tile_count > 0 ==> header.tiles_x > 0
    &&& forall|t: int| 0 <= t < header.tile_count ==> #[trigger] entry_fits(data, t)
}

/// Whether everything that the header of a blob speaks of is there. Of a map without pixels only
/// the tiles are looked at.
pub open spec fn unpackable(data: Seq<u8>) -> bool {
    header_flaw(data) is None ==> {
        let header = stored_header(data);
        &&& texture_fits(data)
        &&& header.map_width > 0 && header.map_height > 0 ==> hitboxes_fit(data)
    }
}

/// The texture that a blob stores.
pub open spec fn stored_texture(data: Seq<u8>) -> Raster {
    let header = stored_header(data);
    joined_texture(
        data.skip(header.pixel_offset as int),
        header.map_width,
        header.map_height,
        header.tile_size as int,
        header.tiles_x as int,
        header.tiles_y as int,
    )
}

/// A hitbox of a tile, with the column and row of the tile.
#[derive(Clone, Copy, Debug, PartialEq, Eq, Structural)]
pub struct Placement {
    pub column: u32,
    pub row: u32,
    pub hitbox: Hitbox,
}

/// The hitboxes of one tile.
pub open spec fn tile_placements(data: Seq<u8>, tile: int) -> Seq<Placement> {
    let header = stored_header(data);
    let entry = stored_entry(data, tile);
    Seq::new(
        entry.hitbox_count as nat,
        |i: int|
            Placement {
                column: (tile % header.tiles_x as int) as u32,
                row: (tile / header.tiles_x as int) as u32,
                hitbox: hitbox_at(data, header.hitbox_offset + 20 * (entry.first_hitbox + i)),
            },
    )
}

/// The hitboxes of the first `tiles` tiles, tile by tile.
pub open spec fn stored_placements(data: Seq<u8>, tiles: int) -> Seq<Placement>
    decreases tiles,
{
    if tiles <= 0 {
        Seq::empty()
    } else {
        stored_placements(data, tiles - 1) + tile_placements(data, tiles - 1)
    }
}

/// What unpacking comes to: the texture is saved, and the outcome is the version and the tile size.
pub open spec fn unpacking(data: Seq<u8>) -> Unpacking<(u16, u16)> {
    let header = stored_header(data);
    match header_flaw(data) {
        Some(flaw) => Unpacking { deeds: Seq::empty(), outcome: Err(Fault::Flawed(flaw)) },
        None => if header.map_width == 0 || header.map_height == 0 {
            Unpacking {
                deeds: seq![
                    Deed::CreateFolder,
                    Deed::WriteFile { name: "texture.png"@, contents: Seq::empty() },
                ],
                outcome: Err(Fault::Save(0)),
            }
        } else {
            Unpacking {
                deeds: seq![
                    Deed::CreateFolder,
                    Deed::WriteFile {
                        name: "texture.png"@,
                        contents: file_of(stored_texture(data)),
                    },
                ],
                outcome: Ok((header.version, header.tile_size)),
            }
        },
    }
}

/// Whether the texture that unpacking saves survives it.
pub open spec fn unpacked_faithfully(data: Seq<u8>) -> bool {
    let header = stored_header(data);
    header_flaw(data) is None && header.map_width > 0 && header.map_height > 0
        ==> stored_faithfully(stored_texture(data), file_of(stored_texture(data)))
}

/// The description of a map.
pub open spec fn description(version: u16, tile_size: u16) -> Seq<char> {
    "version = "@ + decimal(version as nat) + "\ntile_size = "@ + decimal(tile_size as nat)
        + "\ntexture = \"texture.png\"\nhitboxes = \"hitboxes.json\"\n"@
}

/// Reads the header.
fn read_header(data: &[u8]) -> (header: MapHeader)
    requires
        data@.len() >= 48,
    ensures
        header == stored_header(data@),
{
    MapHeader {
        version: read_u16(data, 4),
        tile_size: read_u16(data, 6),
        map_width: read_u32(data, 8),
        map_height: read_u32(data, 12),
        tiles_x: read_u32(data, 16),
        tiles_y: read_u32(data, 20),
        tile_count: read_u32(data, 24),
        hitbox_count: read_u32(data, 28),
        uv_offset: read_u32(data, 32),
        pixel_offset: read_u32(data, 36),
        tile_table_offset: read_u32(data, 40),
        hitbox_offset: read_u32(data, 44),
    }
}

/// Whether the tiles of a blob are all there and can be computed with.
fn check_texture(data: &[u8], header: MapHeader) -> (fits: bool)
    requires
        data@.len() >= 48,
        header == stored_header(data@),
    ensures
        fits == texture_fits(data@),
{
    assert(data@.len() == data.len());
    let width: u128 = header.map_width as u128;
    let height: u128 = header.map_height as u128;
    let size: u128 = header.tile_size as u128;
    let cols: u128 = header.tiles_x as u128;
    let rows: u128 = header.tiles_y as u128;
    let length: u128 = data.len() as u128;
    let offset: u128 = header.pixel_offset as u128;
    let ghost most: int = u32::MAX as int;
    assert(0 <= width * height <= most * most && 0 <= cols * rows <= most * most && 0 <= size
        * size <= 0xffff * 0xffff) by (nonlinear_arith)
        requires
            0 <= width <= most,
            0 <= height <= most,
            0 <= cols <= most,
            0 <= rows <= most,
            0 <= size <= 0xffff,
            most == 0xffff_ffff,
    ;
    if 4 * (width * height) > usize::MAX as u128 {
        return false;
    }
    if offset > length {
        return false;
    }
    let bytes: u128 = 4 * (size * size);
    assert(0 <= (cols * rows) * bytes <= (most * most) * (4 * (0xffff * 0xffff)))
        by (nonlinear_arith)
        requires
            0 <= cols * rows <= most * most,
            0 <= bytes <= 4 * (0xffff * 0xffff),
    ;
    assert((most * most) * (4 * (0xffff * 0xffff)) <= u128::MAX) by (nonlinear_arith)
        requires
            most == 0xffff_ffff,
    ;
    if (cols * rows) * bytes > length - offset {
        return false;
    }
    if cols == 0 || rows == 0 || size == 0 {
        return true;
    }
    assert(0 <= cols * size <= most * 0xffff && 0 <= rows * size <= most * 0xffff)
        by (nonlinear_arith)
        requires
            0 <= cols <= most,
            0 <= rows <= most,
            0 <= size <= 0xffff,
    ;
    if cols * size > 0x1_0000_0000 || rows * size > 0x1_0000_0000 {
        return false;
    }
    if width == 0 || height == 0 {
        return true;
    }
    let down: u128 = if height < size {
        height
    } else {
        size
    };
    let across: u128 = if width < size {
        width
    } else {
        size
    };
    assert(0 <= (down - 1) * size <= 0xffff * 0xffff) by (nonlinear_arith)
        requires
            1 <= down <= 0xffff,
            0 <= size <= 0xffff,
    ;
    4 * ((down - 1) * size + across - 1) <= u32::MAX as u128
}

/// Whether the tile table and the hitboxes of a blob are all there.
fn check_hitboxes(data: &[u8], header: MapHeader) -> (fits: bool)
    requires
        data@.len() >= 48,
        header == stored_header(data@),
    ensures
        fits == hitboxes_fit(data@),
{
    assert(data@.len() == data.len());
    let length: u128 = data.len() as u128;
    if header.hitbox_offset as u128 + 20 * header.hitbox_count as u128 > length {
        return false;
    }
    if header.tile_table_offset as u128 + 8 * header.tile_count as u128 > length {
        return false;
    }
    if header.tile_count > 0 && header.tiles_x == 0 {
        return false;
    }
    let mut t: u32 = 0;
    while t < header.tile_count
        invariant
            data@.len() == data.len(),
            header == stored_header(data@),
            header.tile_table_offset + 8 * header.tile_count <= data@.len(),
            t <= header.tile_count,
            forall|k: int| 0 <= k < t ==> #[trigger] entry_fits(data@, k),
        decreases header.tile_count - t,
    {
        let at: usize = header.tile_table_offset as usize + 8 * (t as usize);
        let first: u32 = read_u32(data, at);
        let count: u32 = read_u32(data, at + 4);
        if count > 0 && first as u64 + count as u64 > header.hitbox_count as u64 {
            assert(!entry_fits(data@, t as int));
            return false;
        }
        t = t + 1;
    }
    true
}

impl CxmpDriver {
    /// Whether everything that the header of a blob speaks of is there.
    pub fn can_unpack(&self, data: &[u8]) -> (can: bool)
        ensures
            can == unpackable(data@),
    {
        if data.len() < 48 || !holds_at(data, 0, CXMP_MAGIC.as_slice()) {
            return true;
        }
        let header = read_header(data);
        check_texture(data, header) && (header.map_width == 0 || header.map_height == 0
            || check_hitboxes(data, header))
    }

    /// Unpacks the texture of a blob. The outcome is the version and the tile size, for the
    /// description.
    pub fn unpack(&self, data: &[u8]) -> (unpacked: Unpacked<(u16, u16)>)
        requires
            unpackable(data@),
        ensures
            unpacked.says(unpacking(data@)),
            unpacked_faithfully(data@),
    {
        let mut effects: Vec<Effect> = Vec::new();
        assert(deeds(effects@) =~= Seq::<Deed>::empty());
        if data.len() < 48 {
            return Unpacked { effects, outcome: Err(AssetError::Flawed(Flaw::TooShort)) };
        }
        if !holds_at(data, 0, CXMP_MAGIC.as_slice()) {
            return Unpacked { effects, outcome: Err(AssetError::Flawed(Flaw::BadMagic)) };
        }
        let header = read_header(data);
        let pixels = vstd::slice::slice_subrange(data, header.pixel_offset as usize, data.len());
        assert(pixels@ =~= data@.skip(header.pixel_offset as int));
        let texture = join_texture(
            pixels,
            header.map_width,
            header.map_height,
            header.tile_size,
            header.tiles_x,
            header.tiles_y,
        );
        effects.push(Effect::CreateFolder);
        let name: String = "texture.png".to_owned();
        match encode_file(&texture) {
            Ok(contents) => {
                effects.push(Effect::WriteFile { name, contents });
                assert(deeds(effects@) =~= unpacking(data@).deeds);
                Unpacked { effects, outcome: Ok((header.version, header.tile_size)) }
            },
            Err(error) => {
                let contents: Vec<u8> = Vec::new();
                assert(contents@ =~= Seq::<u8>::empty());
                effects.push(Effect::WriteFile { name, contents });
                assert(deeds(effects@) =~= unpacking(data@).deeds);
                Unpacked { effects, outcome: Err(AssetError::Save(0, error)) }
            },
        }
    }

    /// Lists the hitboxes of a blob, tile by tile.
    pub fn placements(&self, data: &[u8]) -> (found: Vec<Placement>)
        requires
            header_flaw(data@) is None,
            hitboxes_fit(data@),
        ensures
            found@ == stored_placements(data@, stored_header(data@).tile_count as int),
    {
        assert(data@.len() == data.len());
        let header = read_header(data);
        let mut found: Vec<Placement> = Vec::new();
        let mut t: u32 = 0;
        assert(found@ =~= Seq::<Placement>::empty());
        while t < header.tile_count
            invariant
                data@.len() == data.len(),
                header == stored_header(data@),
                hitboxes_fit(data@),
                t <= header.tile_count,
                found@ == stored_placements(data@, t as int),
            decreases header.tile_count - t,
        {
            let at: usize = header.tile_table_offset as usize + 8 * (t as usize);
            let first: u32 = read_u32(data, at);
            let count: u32 = read_u32(data, at + 4);
            let column: u32 = t % header.tiles_x;
            let row: u32 = t / header.tiles_x;
            let ghost before = found@;
            let ghost mine = tile_placements(data@, t as int);
            assert(entry_fits(data@, t as int));
            let mut i: u32 = 0;
            while i < count
                invariant
                    data@.len() == data.len(),
                    header == stored_header(data@),
                    header.hitbox_offset + 20 * header.hitbox_count <= data@.len(),
                    count > 0 ==> first + count <= header.hitbox_count,
                    mine == tile_placements(data@, t as int),
                    mine.len() == count,
                    stored_entry(data@, t as int) == (TileEntry {
                        first_hitbox: first,
                        hitbox_count: count,
                    }),
                    column == t as int % header.tiles_x as int,
                    row == t as int / header.tiles_x as int,
                    i <= count,
                    found@ == before + mine.take(i as int),
                decreases count - i,
            {
                let from: usize = header.hitbox_offset as usize + 20 * ((first + i) as usize);
                let hitbox = Hitbox {
                    x: read_u32(data, from),
                    y: read_u32(data, from + 4),
                    w: read_u32(data, from + 8),
                    h: read_u32(data, from + 12),
                    rotation: read_u32(data, from + 16),
                };
                found.push(Placement { column, row, hitbox });
                assert(mine[i as int] == (Placement { column, row, hitbox }));
                i = i + 1;
                assert(found@ =~= before + mine.take(i as int));
            }
            assert(mine.take(i as int) =~= mine);
            t = t + 1;
        }
        found
    }

    /// Writes the description of a map.
    pub fn describe(&self, version: u16, tile_size: u16) -> (text: String)
        ensures
            text@ == description(version, tile_size),
    {
        let mut text: String = "version = ".to_owned();
        text.append(decimal_text(version as u64).as_str());
        text.append("\ntile_size = ");
        text.append(decimal_text(tile_size as u64).as_str());
        text.append("\ntexture = \"texture.png\"\nhitboxes = \"hitboxes.json\"\n");
        text
    }
}

/// A stored header reads back.
pub proof fn lemma_header_reads_back(data: Seq<u8>, header: MapHeader)
    requires
        has_at(data, 0, header_bytes(header)),
    ensures
        header_bytes(header).len() == 48,
        header_flaw(data) is None,
        stored_header(data) == header,
{
    let p0 = CXMP_MAGIC@;
    let p1 = p0 + le16(header.version);
    let p2 = p1 + le16(header.tile_size);
    let p3 = p2 + le32(header.map_width);
    let p4 = p3 + le32(header.map_height);
    let p5 = p4 + le32(header.tiles_x);
    let p6 = p5 + le32(header.tiles_y);
    let p7 = p6 + le32(header.tile_count);
    let p8 = p7 + le32(header.hitbox_count);
    let p9 = p8 + le32(header.uv_offset);
    let p10 = p9 + le32(header.pixel_offset);
    let p11 = p10 + le32(header.tile_table_offset);
    lemma_has_at_parts(data, 0, p11, le32(header.hitbox_offset));
    lemma_u32_at(data, 44, header.hitbox_offset);
    lemma_has_at_parts(data, 0, p10, le32(header.tile_table_offset));
    lemma_u32_at(data, 40, header.tile_table_offset);
    lemma_has_at_parts(data, 0, p9, le32(header.pixel_offset));
    lemma_u32_at(data, 36, header.pixel_offset);
    lemma_has_at_parts(data, 0, p8, le32(header.uv_offset));
    lemma_u32_at(data, 32, header.uv_offset);
    lemma_has_at_parts(data, 0, p7, le32(header.hitbox_count));
    lemma_u32_at(data, 28, header.hitbox_count);
    lemma_has_at_parts(data, 0, p6, le32(header.tile_count));
    lemma_u32_at(data, 24, header.tile_count);
    lemma_has_at_parts(data, 0, p5, le32(header.tiles_y));
    lemma_u32_at(data, 20, header.tiles_y);
    lemma_has_at_parts(data, 0, p4, le32(header.tiles_x));
    lemma_u32_at(data, 16, header.tiles_x);
    lemma_has_at_parts(data, 0, p3, le32(header.map_height));
    lemma_u32_at(data, 12, header.map_height);
    lemma_has_at_parts(data, 0, p2, le32(header.map_width));
    lemma_u32_at(data, 8, header.map_width);
    lemma_has_at_parts(data, 0, p1, le16(header.tile_size));
    lemma_u16_at(data, 6, header.tile_size);
    lemma_has_at_parts(data, 0, p0, le16(header.version));
    lemma_u16_at(data, 4, header.version);
}

/// A stored entry of the tile table reads back.
pub proof fn lemma_entry_reads_back(data: Seq<u8>, start: int, table: Seq<TileEntry>, t: int)
    requires
        has_at(data, start, joined(entry_parts(table))),
        0 <= t < table.len(),
    ensures
        joined(entry_parts(table)).len() == 8 * table.len(),
        u32_at(data, start + 8 * t) == table[t].first_hitbox,
        u32_at(data, start + 8 * t + 4) == table[t].hitbox_count,
{
    let parts = entry_parts(table);
    lemma_joined_len(parts, 8);
    lemma_joined_at(parts, t);
    lemma_joined_len(parts.take(t), 8);
    lemma_has_at_nested(data, start, joined(parts), 8 * t, parts[t]);
    lemma_has_at_parts(
        data,
        start + 8 * t,
        le32(table[t].first_hitbox),
        le32(table[t].hitbox_count),
    );
    lemma_u32_at(data, start + 8 * t, table[t].first_hitbox);
    lemma_u32_at(data, start + 8 * t + 4, table[t].hitbox_count);
}

/// A stored hitbox reads back.
pub proof fn lemma_hitbox_reads_back(data: Seq<u8>, start: int, hitboxes: Seq<Hitbox>, i: int)
    requires
        has_at(data, start, joined(hitbox_parts(hitboxes))),
        0 <= i < hitboxes.len(),
    ensures
        hitbox_at(data, start + 20 * i) == hitboxes[i],
{
    let parts = hitbox_parts(hitboxes);
    let hitbox = hitboxes[i];
    let at = start + 20 * i;
    lemma_joined_at(parts, i);
    lemma_joined_len(parts.take(i), 20);
    lemma_has_at_nested(data, start, joined(parts), 20 * i, parts[i]);
    let p1 = le32(hitbox.x) + le32(hitbox.y);
    let p2 = p1 + le32(hitbox.w);
    let p3 = p2 + le32(hitbox.h);
    lemma_has_at_parts(data, at, p3, le32(hitbox.rotation));
    lemma_has_at_parts(data, at, p2, le32(hitbox.h));
    lemma_has_at_parts(data, at, p1, le32(hitbox.w));
    lemma_has_at_parts(data, at, le32(hitbox.x), le32(hitbox.y));
    lemma_u32_at(data, at, hitbox.x);
    lemma_u32_at(data, at + 4, hitbox.y);
    lemma_u32_at(data, at + 8, hitbox.w);
    lemma_u32_at(data, at + 12, hitbox.h);
    lemma_u32_at(data, at + 16, hitbox.rotation);
}

/// Where the sections of a blob stand.
pub open spec fn stands(blob: Seq<u8>, header: MapHeader, sections: Sections) -> bool {
    let uvs = joined(uv_parts(sections.uvs));
    let table = joined(entry_parts(sections.table));
    let hitboxes = joined(hitbox_parts(sections.hitboxes));
    let pixel_at = 48 + uvs.len() as int;
    let table_at = pixel_at + sections.pixels.len();
    let hitbox_at = table_at + table.len();
    &&& header_flaw(blob) is None
    &&& stored_header(blob) == header
    &&& blob.len() == hitbox_at + hitboxes.len()
    &&& blob.skip(pixel_at) == sections.pixels + (table + hitboxes)
    &&& has_at(blob, table_at, table)
    &&& has_at(blob, hitbox_at, hitboxes)
}

/// The header and the sections of a blob stand where they should.
pub proof fn lemma_sections_stand(header: MapHeader, sections: Sections)
    ensures
        stands(cxmp_blob(header, sections), header, sections),
{
    let blob = cxmp_blob(header, sections);
    let head = header_bytes(header);
    let uvs = joined(uv_parts(sections.uvs));
    let pixels = sections.pixels;
    let table = joined(entry_parts(sections.table));
    let hitboxes = joined(hitbox_parts(sections.hitboxes));
    assert(head.len() == 48);
    lemma_has_at_within(Seq::empty(), head, uvs + pixels + table + hitboxes);
    assert(Seq::<u8>::empty() + head + (uvs + pixels + table + hitboxes) =~= blob);
    assert(blob.skip(48 + uvs.len() as int) =~= pixels + (table + hitboxes));
    lemma_has_at_within(head + uvs + pixels, table, hitboxes);
    lemma_has_at_within(head + uvs + pixels + table, hitboxes, Seq::empty());
    assert(head + uvs + pixels + table + hitboxes + Seq::<u8>::empty() =~= blob);
    lemma_header_reads_back(blob, header);
}

/// The hitboxes of a tile stand in a row among all of them.
pub proof fn lemma_flat(placed: Seq<PlacedView>, cols: int, rows: int, tiles: int, t: int)
    requires
        0 <= t < tiles,
    ensures
        ({
            let flat = flat_hitboxes(placed, cols, rows, tiles);
            let first = flat_hitboxes(placed, cols, rows, t).len();
            let mine = bucket(placed, cols, rows, t, placed.len() as int);
            &&& first + mine.len() <= flat.len()
            &&& forall|i: int| 0 <= i < mine.len() ==> flat[first + i] == #[trigger] mine[i]
        }),
    decreases tiles,
{
    if t < tiles - 1 {
        lemma_flat(placed, cols, rows, tiles - 1, t);
        let fewer = flat_hitboxes(placed, cols, rows, tiles - 1);
        let flat = flat_hitboxes(placed, cols, rows, tiles);
        let first = flat_hitboxes(placed, cols, rows, t).len();
        let mine = bucket(placed, cols, rows, t, placed.len() as int);
        assert forall|i: int| 0 <= i < mine.len() implies flat[first + i] == #[trigger] mine[
            i] by {
            assert(fewer[first + i] == mine[i]);
        }
    }
}

/// The hitboxes of the first `tiles` tiles with their columns and rows, tile by tile.
pub open spec fn placements_of(
    placed: Seq<PlacedView>,
    cols: int,
    rows: int,
    tiles: int,
) -> Seq<Placement>
    decreases tiles,
{
    if tiles <= 0 {
        Seq::empty()
    } else {
        let mine = bucket(placed, cols, rows, tiles - 1, placed.len() as int);
        placements_of(placed, cols, rows, tiles - 1) + Seq::new(
            mine.len(),
            |i: int|
                Placement {
                    column: ((tiles - 1) % cols) as u32,
                    row: ((tiles - 1) / cols) as u32,
                    hitbox: mine[i],
                },
        )
    }
}

/// Whether unpacking gives the map back: it has pixels, its tile size can be said in its field, and
/// the offsets and the number of hitboxes in theirs.
pub open spec fn restorable(
    size: u32,
    texture: Raster,
    uvs: Seq<TileUv>,
    placed: Seq<PlacedView>,
) -> bool {
    let sections = sections_of(size, texture, uvs, placed);
    &&& texture.wf()
    &&& texture.width > 0
    &&& texture.height > 0
    &&& texture.size() <= usize::MAX
    &&& 0 < size <= u16::MAX
    &&& tiling_fits(size, texture.width, texture.height)
    &&& sections.hitboxes.len() <= u32::MAX
    &&& 48 + joined(uv_parts(sections.uvs)).len() + sections.pixels.len() + joined(
        entry_parts(sections.table),
    ).len() <= u32::MAX
}

/// The stored hitboxes read back tile by tile.
proof fn lemma_placements_read_back(
    data: Seq<u8>,
    placed: Seq<PlacedView>,
    cols: int,
    rows: int,
    tiles: int,
    count: int,
)
    requires
        0 <= count <= tiles,
        0 < cols,
        stored_header(data).tiles_x == cols,
        has_at(
            data,
            stored_header(data).tile_table_offset as int,
            joined(entry_parts(tile_table(placed, cols, rows, tiles))),
        ),
        has_at(
            data,
            stored_header(data).hitbox_offset as int,
            joined(hitbox_parts(flat_hitboxes(placed, cols, rows, tiles))),
        ),
        flat_hitboxes(placed, cols, rows, tiles).len() == stored_header(data).hitbox_count,
    ensures
        stored_placements(data, count) == placements_of(placed, cols, rows, count),
        forall|t: int| 0 <= t < count ==> #[trigger] entry_fits(data, t),
    decreases count,
{
    if count > 0 {
        lemma_placements_read_back(data, placed, cols, rows, tiles, count - 1);
        let header = stored_header(data);
        let t = count - 1;
        let table = tile_table(placed, cols, rows, tiles);
        let flat = flat_hitboxes(placed, cols, rows, tiles);
        let first = flat_hitboxes(placed, cols, rows, t).len() as int;
        let mine = bucket(placed, cols, rows, t, placed.len() as int);
        lemma_flat(placed, cols, rows, tiles, t);
        lemma_entry_reads_back(data, header.tile_table_offset as int, table, t);
        let entry = stored_entry(data, t);
        assert(entry.first_hitbox == first && entry.hitbox_count == mine.len());
        let found = tile_placements(data, t);
        let expected = Seq::new(
            mine.len(),
            |i: int|
                Placement {
                    column: (t % cols) as u32,
                    row: (t / cols) as u32,
                    hitbox: mine[i],
                },
        );
        assert forall|i: int| 0 <= i < mine.len() implies #[trigger] found[i] == expected[i] by {
            lemma_hitbox_reads_back(data, header.hitbox_offset as int, flat, first + i);
            assert(flat[first + i] == mine[i]);
        }
        assert(found =~= expected);
    }
}

/// The header of a packed map.
pub open spec fn map_header(
    version: u32,
    size: u32,
    texture: Raster,
    uvs: Seq<TileUv>,
    placed: Seq<PlacedView>,
) -> MapHeader {
    header_of(
        version as u16,
        size as u16,
        texture.width,
        texture.height,
        grid_of(size, texture.width, texture.height),
        sections_of(size, texture, uvs, placed),
    )
}

/// The texture of a packed map reads back.
proof fn lemma_texture_restored(
    blob: Seq<u8>,
    version: u32,
    size: u32,
    texture: Raster,
    uvs: Seq<TileUv>,
    placed: Seq<PlacedView>,
)
    requires
        restorable(size, texture, uvs, placed),
        stands(
            blob,
            map_header(version, size, texture, uvs, placed),
            sections_of(size, texture, uvs, placed),
        ),
    ensures
        texture_fits(blob),
        stored_texture(blob) == texture,
{
    let sections = sections_of(size, texture, uvs, placed);
    let header = map_header(version, size, texture, uvs, placed);
    lemma_tiles_along(texture.width as int, size as int);
    lemma_tiles_along(texture.height as int, size as int);
    let rest = joined(entry_parts(sections.table)) + joined(hitbox_parts(sections.hitboxes));
    joining_undoes_cutting(texture, size, rest);
}

/// Hitboxes that stand where the header says read back.
proof fn lemma_hitboxes_stand(
    blob: Seq<u8>,
    placed: Seq<PlacedView>,
    cols: int,
    rows: int,
    tiles: int,
)
    requires
        1 <= tiles,
        0 < cols,
        stored_header(blob).tiles_x == cols,
        stored_header(blob).tile_count == tiles,
        stored_header(blob).hitbox_count == flat_hitboxes(placed, cols, rows, tiles).len(),
        has_at(
            blob,
            stored_header(blob).tile_table_offset as int,
            joined(entry_parts(tile_table(placed, cols, rows, tiles))),
        ),
        has_at(
            blob,
            stored_header(blob).hitbox_offset as int,
            joined(hitbox_parts(flat_hitboxes(placed, cols, rows, tiles))),
        ),
    ensures
        hitboxes_fit(blob),
        stored_placements(blob, tiles) == placements_of(placed, cols, rows, tiles),
{
    let header = stored_header(blob);
    let table = tile_table(placed, cols, rows, tiles);
    lemma_entry_reads_back(blob, header.tile_table_offset as int, table, 0);
    lemma_joined_len(hitbox_parts(flat_hitboxes(placed, cols, rows, tiles)), 20);
    lemma_placements_read_back(blob, placed, cols, rows, tiles, tiles);
}

/// The hitboxes of a packed map read back.
proof fn lemma_hitboxes_restored(
    blob: Seq<u8>,
    version: u32,
    size: u32,
    texture: Raster,
    uvs: Seq<TileUv>,
    placed: Seq<PlacedView>,
)
    requires
        restorable(size, texture, uvs, placed),
        stands(
            blob,
            map_header(version, size, texture, uvs, placed),
            sections_of(size, texture, uvs, placed),
        ),
    ensures
        ({
            let cols = tiles_along(texture.width as int, size as int);
            let rows = tiles_along(texture.height as int, size as int);
            &&& hitboxes_fit(blob)
            &&& stored_header(blob).tile_count == cols * rows
            &&& stored_placements(blob, cols * rows) == placements_of(
                placed,
                cols,
                rows,
                cols * rows,
            )
        }),
{
    let cols = tiles_along(texture.width as int, size as int);
    let rows = tiles_along(texture.height as int, size as int);
    let tiles = cols * rows;
    let sections = sections_of(size, texture, uvs, placed);
    let header = map_header(version, size, texture, uvs, placed);
    lemma_tiles_along(texture.width as int, size as int);
    lemma_tiles_along(texture.height as int, size as int);
    assert(1 <= tiles) by (nonlinear_arith)
        requires
            1 <= cols,
            1 <= rows,
            tiles == cols * rows,
    ;
    lemma_hitboxes_stand(blob, placed, cols, rows, tiles);
}

/// Unpacking a packed map succeeds: the texture is written as a file that decodes to it, if it keeps
/// to the limit of the decoder, the outcome is the version and the tile size that were stored, and
/// the hitboxes are those of each tile, tile by tile.
pub proof fn unpacking_undoes_packing(
    version: u32,
    size: u32,
    texture: Raster,
    uvs: Seq<TileUv>,
    placed: Seq<PlacedView>,
)
    requires
        restorable(size, texture, uvs, placed),
    ensures
        ({
            let blob = map_blob(version, size, texture, uvs, placed);
            let cols = tiles_along(texture.width as int, size as int);
            let rows = tiles_along(texture.height as int, size as int);
            &&& unpackable(blob)
            &&& unpacking(blob) == (Unpacking {
                deeds: seq![
                    Deed::CreateFolder,
                    Deed::WriteFile { name: "texture.png"@, contents: file_of(texture) },
                ],
                outcome: Ok::<(u16, u16), Fault>((version as u16, size as u16)),
            })
            &&& unpacked_faithfully(blob) ==> decoded_png(file_of(texture)) == (if texture.size()
                <= DECODE_LIMIT {
                Some(texture)
            } else {
                None
            })
            &&& stored_header(blob).tile_count == cols * rows
            &&& stored_placements(blob, cols * rows) == placements_of(
                placed,
                cols,
                rows,
                cols * rows,
            )
        }),
{
    let blob = map_blob(version, size, texture, uvs, placed);
    lemma_sections_stand(
        map_header(version, size, texture, uvs, placed),
        sections_of(size, texture, uvs, placed),
    );
    lemma_texture_restored(blob, version, size, texture, uvs, placed);
    lemma_hitboxes_restored(blob, version, size, texture, uvs, placed);
}

/// A map whose tiles have no hitboxes is stored as one without hitboxes.
proof fn lemma_no_hitboxes(placed: Seq<PlacedView>, cols: int, rows: int, tiles: int)
    requires
        0 <= tiles,
        flat_hitboxes(placed, cols, rows, tiles).len() == 0,
    ensures
        flat_hitboxes(placed, cols, rows, tiles) == flat_hitboxes(
            Seq::empty(),
            cols,
            rows,
            tiles,
        ),
        tile_table(placed, cols, rows, tiles) == tile_table(Seq::empty(), cols, rows, tiles),
{
    let none = Seq::<PlacedView>::empty();
    lemma_flat_of_none(cols, rows, tiles);
    assert(flat_hitboxes(placed, cols, rows, tiles) =~= flat_hitboxes(none, cols, rows, tiles));
    let table = tile_table(placed, cols, rows, tiles);
    let bare = tile_table(none, cols, rows, tiles);
    assert forall|t: int| 0 <= t < tiles implies #[trigger] table[t] == bare[t] by {
        lemma_flat(placed, cols, rows, tiles, t);
        lemma_flat_of_none(cols, rows, t);
    }
    assert(table =~= bare);
}

proof fn lemma_flat_of_none(cols: int, rows: int, tiles: int)
    requires
        0 <= tiles,
    ensures
        flat_hitboxes(Seq::empty(), cols, rows, tiles).len() == 0,
    decreases tiles,
{
    if tiles > 0 {
        lemma_flat_of_none(cols, rows, tiles - 1);
    }
}

/// Packing what was unpacked gives the same blob, for a map whose tiles have no hitboxes: the
/// version, the tile size and the decoded texture, with the same texture coordinates and no
/// hitboxes, come to the blob that they were unpacked from. The texture decodes where it keeps to the
/// limit of the decoder.
pub proof fn packing_undoes_unpacking(
    version: u16,
    size: u16,
    texture: Raster,
    uvs: Seq<TileUv>,
    placed: Seq<PlacedView>,
)
    requires
        restorable(size as u32, texture, uvs, placed),
        sections_of(size as u32, texture, uvs, placed).hitboxes.len() == 0,
        unpacked_faithfully(map_blob(version as u32, size as u32, texture, uvs, placed)),
    ensures
        ({
            let blob = map_blob(version as u32, size as u32, texture, uvs, placed);
            let (stored_version, stored_size) = unpacking(blob).outcome->Ok_0;
            let decoded = decoded_png(file_of(stored_texture(blob)));
            &&& unpacking(blob).outcome is Ok
            &&& decoded is Some == (texture.size() <= DECODE_LIMIT)
            &&& decoded is Some ==> packing(
                stored_version as u32,
                stored_size as u32,
                decoded->0,
                uvs,
                Seq::empty(),
            ) == Ok::<Seq<u8>, Fault>(blob)
        }),
{
    let cols = tiles_along(texture.width as int, size as int);
    let rows = tiles_along(texture.height as int, size as int);
    unpacking_undoes_packing(version as u32, size as u32, texture, uvs, placed);
    lemma_sections_stand(
        map_header(version as u32, size as u32, texture, uvs, placed),
        sections_of(size as u32, texture, uvs, placed),
    );
    lemma_texture_restored(
        map_blob(version as u32, size as u32, texture, uvs, placed),
        version as u32,
        size as u32,
        texture,
        uvs,
        placed,
    );
    lemma_tiles_along(texture.width as int, size as int);
    lemma_tiles_along(texture.height as int, size as int);
    assert(0 <= cols * rows) by (nonlinear_arith)
        requires
            0 <= cols,
            0 <= rows,
    ;
    lemma_no_hitboxes(placed, cols, rows, cols * rows);
}

} // verus!
