//! Hitboxes: read from a map of the Tiled editor, and dealt out to the tiles that they touch.
//!
//! Coordinates are floats. They are kept as their bits, on which nothing here depends.
use vstd::arithmetic::div_mod::{
    lemma_fundamental_div_mod, lemma_fundamental_div_mod_converse, lemma_mod_bound,
};
use vstd::prelude::*;

use crate::text::{same_but_for_case, same_text_but_for_case};
use crate::tree::{json_tree, read_json, trees, Node, Tree};

verus! {

/// A hitbox of a map as it is read: the bits of doubles.
#[derive(Clone, Copy, Debug, PartialEq, Eq, Structural)]
pub struct MapObject {
    pub x: u64,
    pub y: u64,
    pub width: u64,
    pub height: u64,
    pub rotation: u64,
}

/// A hitbox as it is stored with a tile: the bits of single floats, the position relative to the
/// tile.
#[derive(Clone, Copy, Debug, PartialEq, Eq, Structural)]
pub struct Hitbox {
    pub x: u32,
    pub y: u32,
    pub w: u32,
    pub h: u32,
    pub rotation: u32,
}

/// A number of a table, zero where there is none.
pub open spec fn number_or_zero(tree: Tree, name: Seq<char>) -> u64 {
    match tree.named_number(name) {
        Some(bits) => bits,
        None => 0,
    }
}

/// The hitbox that an object describes.
pub open spec fn object_of(tree: Tree) -> MapObject {
    MapObject {
        x: number_or_zero(tree, "x"@),
        y: number_or_zero(tree, "y"@),
        width: number_or_zero(tree, "width"@),
        height: number_or_zero(tree, "height"@),
        rotation: number_or_zero(tree, "rotation"@),
    }
}

/// Whether a layer is the one of the hitboxes.
pub open spec fn is_hitbox_layer(layer: Tree) -> bool {
    layer.named_text("name"@) matches Some(name) && same_but_for_case(name, "Hitboxes"@)
}

/// The objects of the first hitbox layer from `from` on.
pub open spec fn layer_objects(layers: Seq<Tree>, from: int) -> Seq<MapObject>
    decreases layers.len() - from,
{
    if from < 0 || from >= layers.len() {
        Seq::empty()
    } else if is_hitbox_layer(layers[from]) {
        match layers[from].named_list("objects"@) {
            Some(objects) => Seq::new(objects.len(), |i: int| object_of(objects[i])),
            None => Seq::empty(),
        }
    } else {
        layer_objects(layers, from + 1)
    }
}

/// The hitboxes of a map.
pub open spec fn map_objects(tree: Tree) -> Seq<MapObject> {
    match tree.named_list("layers"@) {
        Some(layers) => layer_objects(layers, 0),
        None => Seq::empty(),
    }
}

/// The hitboxes that a text describes, none where it is no JSON.
pub open spec fn described_objects(text: Seq<char>) -> Seq<MapObject> {
    match json_tree(text) {
        Some(tree) => map_objects(tree),
        None => Seq::empty(),
    }
}

/// Only the first hitbox layer counts: a map has the same hitboxes without all its other layers.
pub proof fn other_layers_count_for_nothing(map: Tree, bare: Tree, layers: Seq<Tree>, at: int)
    requires
        map.named_list("layers"@) == Some(layers),
        0 <= at < layers.len(),
        is_hitbox_layer(layers[at]),
        forall|k: int| 0 <= k < at ==> !is_hitbox_layer(#[trigger] layers[k]),
        bare.named_list("layers"@) == Some(seq![layers[at]]),
    ensures
        map_objects(map) == map_objects(bare),
{
    lemma_layers_before(layers, 0, at);
}

/// A map without a hitbox layer has no hitboxes.
pub proof fn without_hitbox_layer_there_are_none(map: Tree, layers: Seq<Tree>)
    requires
        map.named_list("layers"@) == Some(layers),
        forall|k: int| 0 <= k < layers.len() ==> !is_hitbox_layer(#[trigger] layers[k]),
    ensures
        map_objects(map) == Seq::<MapObject>::empty(),
{
    lemma_layers_before(layers, 0, layers.len() as int);
}

/// A map whose first hitbox layer has no list of objects has no hitboxes.
pub proof fn without_objects_there_are_none(map: Tree, layers: Seq<Tree>, at: int)
    requires
        map.named_list("layers"@) == Some(layers),
        0 <= at < layers.len(),
        is_hitbox_layer(layers[at]),
        forall|k: int| 0 <= k < at ==> !is_hitbox_layer(#[trigger] layers[k]),
        layers[at].named_list("objects"@) is None,
    ensures
        map_objects(map) == Seq::<MapObject>::empty(),
{
    lemma_layers_before(layers, 0, at);
}

/// A field of an object that is missing, or is no number, counts as zero.
pub proof fn missing_fields_are_zero(object: Tree)
    ensures
        object.named_number("x"@) is None ==> object_of(object).x == 0,
        object.named_number("y"@) is None ==> object_of(object).y == 0,
        object.named_number("width"@) is None ==> object_of(object).width == 0,
        object.named_number("height"@) is None ==> object_of(object).height == 0,
        object.named_number("rotation"@) is None ==> object_of(object).rotation == 0,
{
}

proof fn lemma_layers_before(layers: Seq<Tree>, from: int, at: int)
    requires
        0 <= from <= at <= layers.len(),
        forall|k: int| from <= k < at ==> !is_hitbox_layer(#[trigger] layers[k]),
    ensures
        layer_objects(layers, from) == layer_objects(layers, at),
    decreases at - from,
{
    if from < at {
        lemma_layers_before(layers, from + 1, at);
    }
}

/// Reads a number of a table, zero where there is none.
fn read_number(node: &Node, name: &str) -> (bits: u64)
    ensures
        bits == number_or_zero(node.tree(), name@),
{
    match node.get_number(name) {
        Some(bits) => bits,
        None => 0,
    }
}

/// Reads the objects of a layer.
fn read_objects(objects: &Vec<Node>) -> (found: Vec<MapObject>)
    ensures
        found@ == Seq::new(objects@.len(), |i: int| object_of(trees(objects@)[i])),
{
    let mut found: Vec<MapObject> = Vec::new();
    let mut i: usize = 0;
    while i < objects.len()
        invariant
            i <= objects@.len(),
            found@ == Seq::new(i as nat, |k: int| object_of(trees(objects@)[k])),
        decreases objects@.len() - i,
    {
        let node: &Node = &objects[i];
        found.push(
            MapObject {
                x: read_number(node, "x"),
                y: read_number(node, "y"),
                width: read_number(node, "width"),
                height: read_number(node, "height"),
                rotation: read_number(node, "rotation"),
            },
        );
        i = i + 1;
        assert(found@ =~= Seq::new(i as nat, |k: int| object_of(trees(objects@)[k])));
    }
    found
}

/// Reads the objects of the first hitbox layer of a map. A text that is no JSON has none.
pub fn hitbox_objects(text: &str) -> (found: Vec<MapObject>)
    ensures
        found@ == described_objects(text@),
{
    match read_json(text) {
        Some(document) => objects_in(&document),
        None => {
            let none: Vec<MapObject> = Vec::new();
            assert(none@ =~= Seq::<MapObject>::empty());
            none
        },
    }
}

/// The objects of the first hitbox layer of a map that was read.
pub fn objects_in(document: &Node) -> (found: Vec<MapObject>)
    ensures
        found@ == map_objects(document.tree()),
{
    let none: Vec<MapObject> = Vec::new();
    assert(none@ =~= Seq::<MapObject>::empty());
    let layers: &Vec<Node> = match document.get_list("layers") {
        Some(layers) => layers,
        None => return none,
    };
    let ghost views = trees(layers@);
    let mut i: usize = 0;
    while i < layers.len()
        invariant
            none@ == Seq::<MapObject>::empty(),
            views == trees(layers@),
            map_objects(document.tree()) == layer_objects(views, 0),
            i <= layers@.len(),
            layer_objects(views, 0) == layer_objects(views, i as int),
        decreases layers@.len() - i,
    {
        assert(views[i as int] == layers@[i as int].tree());
        let wanted: bool = match layers[i].get_text("name") {
            Some(name) => same_text_but_for_case(name.as_str(), "Hitboxes"),
            None => false,
        };
        if wanted {
            return match layers[i].get_list("objects") {
                Some(objects) => {
                    let found = read_objects(objects);
                    assert(found@ =~= layer_objects(views, i as int));
                    found
                },
                None => none,
            };
        }
        i = i + 1;
    }
    none
}

/// The tiles that a hitbox spans, before they are held against the map.
#[derive(Clone, Copy, Debug, PartialEq, Eq, Structural)]
pub struct TileRange {
    pub min_x: i32,
    pub min_y: i32,
    pub max_x: i32,
    pub max_y: i32,
}

/// Tiles of the map: the columns from `min_x` to `max_x` of the rows from `min_y` to `max_y`.
#[derive(Clone, Copy, Debug, PartialEq, Eq, Structural)]
pub struct TileSpan {
    pub min_x: u32,
    pub min_y: u32,
    pub max_x: u32,
    pub max_y: u32,
}

/// The larger of two numbers.
pub open spec fn larger(a: int, b: int) -> int {
    if a < b {
        b
    } else {
        a
    }
}

/// The smaller of two numbers.
pub open spec fn smaller(a: int, b: int) -> int {
    if b < a {
        b
    } else {
        a
    }
}

/// Whether the range takes the tile in column `tx` and row `ty` of a map of `cols` by `rows` tiles.
pub open spec fn takes(range: TileRange, cols: int, rows: int, tx: int, ty: int) -> bool {
    &&& larger(range.min_x as int, 0) <= tx <= smaller(range.max_x as int, cols - 1)
    &&& larger(range.min_y as int, 0) <= ty <= smaller(range.max_y as int, rows - 1)
}

/// Whether the range takes no tile of the map.
pub open spec fn takes_none(range: TileRange, cols: int, rows: int) -> bool {
    ||| larger(range.min_x as int, 0) > smaller(range.max_x as int, cols - 1)
    ||| larger(range.min_y as int, 0) > smaller(range.max_y as int, rows - 1)
}

/// Holds a range of tiles against a map of `cols` by `rows` tiles.
pub fn clamp_range(range: TileRange, cols: u32, rows: u32) -> (span: Option<TileSpan>)
    ensures
        span is None == takes_none(range, cols as int, rows as int),
        span matches Some(tiles) ==> {
            &&& tiles.min_x == larger(range.min_x as int, 0)
            &&& tiles.min_y == larger(range.min_y as int, 0)
            &&& tiles.max_x == smaller(range.max_x as int, cols - 1)
            &&& tiles.max_y == smaller(range.max_y as int, rows - 1)
        },
{
    let min_x: i64 = if range.min_x < 0 {
        0
    } else {
        range.min_x as i64
    };
    let min_y: i64 = if range.min_y < 0 {
        0
    } else {
        range.min_y as i64
    };
    let max_x: i64 = if cols as i64 - 1 < range.max_x as i64 {
        cols as i64 - 1
    } else {
        range.max_x as i64
    };
    let max_y: i64 = if rows as i64 - 1 < range.max_y as i64 {
        rows as i64 - 1
    } else {
        range.max_y as i64
    };
    if min_x > max_x || min_y > max_y {
        return None;
    }
    Some(
        TileSpan {
            min_x: min_x as u32,
            min_y: min_y as u32,
            max_x: max_x as u32,
            max_y: max_y as u32,
        },
    )
}

/// A hitbox with the tiles it spans: its position relative to each column and each row of tiles of
/// the map that it takes, from the first one on.
pub struct PlacedHitbox {
    pub range: TileRange,
    pub xs: Vec<u32>,
    pub ys: Vec<u32>,
    pub w: u32,
    pub h: u32,
    pub rotation: u32,
}

/// What a [`PlacedHitbox`] says.
pub struct PlacedView {
    pub range: TileRange,
    pub xs: Seq<u32>,
    pub ys: Seq<u32>,
    pub w: u32,
    pub h: u32,
    pub rotation: u32,
}

impl View for PlacedHitbox {
    type V = PlacedView;

    open spec fn view(&self) -> PlacedView {
        PlacedView {
            range: self.range,
            xs: self.xs@,
            ys: self.ys@,
            w: self.w,
            h: self.h,
            rotation: self.rotation,
        }
    }
}

/// What the hitboxes say.
pub open spec fn placed_views(placed: Seq<PlacedHitbox>) -> Seq<PlacedView> {
    Seq::new(placed.len(), |i: int| placed[i]@)
}

/// Whether there is a position for each column and each row that the hitbox takes.
pub open spec fn is_positioned(placed: PlacedView, cols: int, rows: int) -> bool {
    let range = placed.range;
    takes_none(range, cols, rows) || {
        &&& placed.xs.len() == smaller(range.max_x as int, cols - 1) - larger(
            range.min_x as int,
            0,
        ) + 1
        &&& placed.ys.len() == smaller(range.max_y as int, rows - 1) - larger(
            range.min_y as int,
            0,
        ) + 1
    }
}

/// Whether there is a position for each column and each row that each hitbox takes.
pub open spec fn all_positioned(placed: Seq<PlacedView>, cols: int, rows: int) -> bool {
    forall|i: int| 0 <= i < placed.len() ==> is_positioned(#[trigger] placed[i], cols, rows)
}

/// The hitbox relative to the tile in column `tx` and row `ty`.
pub open spec fn local_hitbox(placed: PlacedView, tx: int, ty: int) -> Hitbox {
    Hitbox {
        x: placed.xs[tx - larger(placed.range.min_x as int, 0)],
        y: placed.ys[ty - larger(placed.range.min_y as int, 0)],
        w: placed.w,
        h: placed.h,
        rotation: placed.rotation,
    }
}

/// What a tile has of the first `count` hitboxes: those that take it, in their order.
pub open spec fn bucket(
    placed: Seq<PlacedView>,
    cols: int,
    rows: int,
    tile: int,
    count: int,
) -> Seq<Hitbox>
    decreases count,
{
    if count <= 0 {
        Seq::empty()
    } else {
        let fewer = bucket(placed, cols, rows, tile, count - 1);
        if takes(placed[count - 1].range, cols, rows, tile % cols, tile / cols) {
            fewer.push(local_hitbox(placed[count - 1], tile % cols, tile / cols))
        } else {
            fewer
        }
    }
}

/// Every tile that a hitbox takes has the hitbox, relative to the tile; and a tile has nothing but
/// hitboxes that take it.
pub proof fn tiles_have_the_hitboxes_that_take_them(
    placed: Seq<PlacedView>,
    cols: int,
    rows: int,
    tile: int,
    count: int,
)
    requires
        0 <= count <= placed.len(),
    ensures
        forall|i: int|
            0 <= i < count && takes((#[trigger] placed[i]).range, cols, rows, tile % cols, tile
                / cols) ==> bucket(placed, cols, rows, tile, count).contains(
                local_hitbox(placed[i], tile % cols, tile / cols),
            ),
        forall|k: int|
            0 <= k < bucket(placed, cols, rows, tile, count).len() ==> comes_from(
                placed,
                cols,
                rows,
                tile,
                count,
                #[trigger] bucket(placed, cols, rows, tile, count)[k],
            ),
    decreases count,
{
    if count > 0 {
        tiles_have_the_hitboxes_that_take_them(placed, cols, rows, tile, count - 1);
        let fewer = bucket(placed, cols, rows, tile, count - 1);
        let all = bucket(placed, cols, rows, tile, count);
        let last = local_hitbox(placed[count - 1], tile % cols, tile / cols);
        assert forall|i: int|
            0 <= i < count && takes((#[trigger] placed[i]).range, cols, rows, tile % cols, tile
                / cols) implies all.contains(
            local_hitbox(placed[i], tile % cols, tile / cols),
        ) by {
            if i < count - 1 {
                let wanted = local_hitbox(placed[i], tile % cols, tile / cols);
                let k = choose|k: int| 0 <= k < fewer.len() && fewer[k] == wanted;
                assert(all[k] == wanted);
            } else {
                assert(all[all.len() - 1] == last);
            }
        }
        assert forall|k: int| 0 <= k < all.len() implies comes_from(
            placed,
            cols,
            rows,
            tile,
            count,
            #[trigger] all[k],
        ) by {
            if k < fewer.len() {
                assert(comes_from(placed, cols, rows, tile, count - 1, fewer[k]));
                let i = choose|i: int|
                    0 <= i < count - 1 && takes(
                        (#[trigger] placed[i]).range,
                        cols,
                        rows,
                        tile % cols,
                        tile / cols,
                    ) && fewer[k] == local_hitbox(placed[i], tile % cols, tile / cols);
                assert(takes(placed[i].range, cols, rows, tile % cols, tile / cols));
            } else {
                assert(takes(placed[count - 1].range, cols, rows, tile % cols, tile / cols));
            }
        }
    }
}

/// Whether a hitbox of a tile is one of the first `count` hitboxes that take the tile.
pub open spec fn comes_from(
    placed: Seq<PlacedView>,
    cols: int,
    rows: int,
    tile: int,
    count: int,
    hitbox: Hitbox,
) -> bool {
    exists|i: int|
        0 <= i < count && takes((#[trigger] placed[i]).range, cols, rows, tile % cols, tile / cols)
            && hitbox == local_hitbox(placed[i], tile % cols, tile / cols)
}

/// Whether a tile has had its part of a hitbox, the columns and rows being gone through one by one.
spec fn had_its_turn(
    placed: PlacedView,
    cols: int,
    rows: int,
    tile: int,
    tx: int,
    ty: int,
) -> bool {
    &&& takes(placed.range, cols, rows, tile % cols, tile / cols)
    &&& tile / cols < ty || (tile / cols == ty && tile % cols < tx)
}

/// What a tile has while a hitbox is being dealt out.
spec fn bucket_so_far(
    placed: Seq<PlacedView>,
    cols: int,
    rows: int,
    tile: int,
    done: int,
    tx: int,
    ty: int,
) -> Seq<Hitbox> {
    let fewer = bucket(placed, cols, rows, tile, done);
    if had_its_turn(placed[done], cols, rows, tile, tx, ty) {
        fewer.push(local_hitbox(placed[done], tile % cols, tile / cols))
    } else {
        fewer
    }
}

/// A tile is found again from its column and row.
proof fn lemma_tile_index(cols: int, rows: int, tx: int, ty: int)
    requires
        0 <= tx < cols,
        0 <= ty < rows,
    ensures
        0 <= ty * cols,
        0 <= ty * cols + tx < cols * rows,
        (ty * cols + tx) % cols == tx,
        (ty * cols + tx) / cols == ty,
{
    assert(0 <= ty * cols && ty * cols + tx < cols * rows) by (nonlinear_arith)
        requires
            0 <= tx < cols,
            0 <= ty < rows,
    ;
    lemma_fundamental_div_mod_converse(ty * cols + tx, cols, ty, tx);
}

/// Deals one hitbox out to the tiles that it takes.
fn deal_out(
    buckets: &mut Vec<Vec<Hitbox>>,
    placed: &Vec<PlacedHitbox>,
    done: usize,
    span: TileSpan,
    cols: u32,
    rows: u32,
)
    requires
        done < placed@.len(),
        is_positioned(placed_views(placed@)[done as int], cols as int, rows as int),
        !takes_none(placed@[done as int].range, cols as int, rows as int),
        span.min_x == larger(placed@[done as int].range.min_x as int, 0),
        span.min_y == larger(placed@[done as int].range.min_y as int, 0),
        span.max_x == smaller(placed@[done as int].range.max_x as int, cols - 1),
        span.max_y == smaller(placed@[done as int].range.max_y as int, rows - 1),
        cols * rows <= u32::MAX,
        old(buckets)@.len() == cols * rows,
        forall|t: int|
            0 <= t < cols * rows ==> (#[trigger] old(buckets)@[t])@ == bucket(
                placed_views(placed@),
                cols as int,
                rows as int,
                t,
                done as int,
            ),
    ensures
        final(buckets)@.len() == cols * rows,
        forall|t: int|
            0 <= t < cols * rows ==> (#[trigger] final(buckets)@[t])@ == bucket(
                placed_views(placed@),
                cols as int,
                rows as int,
                t,
                done + 1,
            ),
{
    let ghost views = placed_views(placed@);
    let ghost across = cols as int;
    let ghost down = rows as int;
    let mine: &PlacedHitbox = &placed[done];
    assert(views[done as int] == mine@);
    let mut ty: u32 = span.min_y;
    while ty <= span.max_y
        invariant
            views == placed_views(placed@),
            across == cols,
            down == rows,
            done < placed@.len(),
            views[done as int] == mine@,
            is_positioned(mine@, across, down),
            !takes_none(mine.range, across, down),
            span.min_x == larger(mine.range.min_x as int, 0),
            span.min_y == larger(mine.range.min_y as int, 0),
            span.max_x == smaller(mine.range.max_x as int, cols - 1),
            span.max_y == smaller(mine.range.max_y as int, rows - 1),
            cols * rows <= u32::MAX,
            span.min_y <= ty <= span.max_y + 1,
            buckets@.len() == cols * rows,
            forall|t: int|
                0 <= t < cols * rows ==> (#[trigger] buckets@[t])@ == bucket_so_far(
                    views,
                    across,
                    down,
                    t,
                    done as int,
                    0,
                    ty as int,
                ),
        decreases span.max_y + 1 - ty,
    {
        let mut tx: u32 = span.min_x;
        assert forall|t: int| 0 <= t < cols * rows implies (#[trigger] buckets@[t])@
            == bucket_so_far(views, across, down, t, done as int, tx as int, ty as int) by {
            lemma_mod_bound(t, across);
        }
        while tx <= span.max_x
            invariant
                views == placed_views(placed@),
                across == cols,
                down == rows,
                done < placed@.len(),
                views[done as int] == mine@,
                is_positioned(mine@, across, down),
                !takes_none(mine.range, across, down),
                span.min_x == larger(mine.range.min_x as int, 0),
                span.min_y == larger(mine.range.min_y as int, 0),
                span.max_x == smaller(mine.range.max_x as int, cols - 1),
                span.max_y == smaller(mine.range.max_y as int, rows - 1),
                cols * rows <= u32::MAX,
                span.min_y <= ty <= span.max_y,
                span.min_x <= tx <= span.max_x + 1,
                buckets@.len() == cols * rows,
                forall|t: int|
                    0 <= t < cols * rows ==> (#[trigger] buckets@[t])@ == bucket_so_far(
                        views,
                        across,
                        down,
                        t,
                        done as int,
                        tx as int,
                        ty as int,
                    ),
            decreases span.max_x + 1 - tx,
        {
            proof {
                lemma_tile_index(across, down, tx as int, ty as int);
            }
            let tile: u32 = ty * cols + tx;
            let local = Hitbox {
                x: mine.xs[(tx - span.min_x) as usize],
                y: mine.ys[(ty - span.min_y) as usize],
                w: mine.w,
                h: mine.h,
                rotation: mine.rotation,
            };
            let ghost before = buckets@;
            buckets[tile as usize].push(local);
            proof {
                assert forall|t: int| 0 <= t < cols * rows implies (#[trigger] buckets@[t])@
                    == bucket_so_far(
                    views,
                    across,
                    down,
                    t,
                    done as int,
                    tx + 1,
                    ty as int,
                ) by {
                    assert(before[t]@ == bucket_so_far(
                        views,
                        across,
                        down,
                        t,
                        done as int,
                        tx as int,
                        ty as int,
                    ));
                    if t != tile {
                        assert(buckets@[t] == before[t]);
                        lemma_fundamental_div_mod(t, across);
                        if t / across == ty && t % across == tx {
                            assert(across * (t / across) == ty * cols) by (nonlinear_arith)
                                requires
                                    t / across == ty,
                                    across == cols,
                            ;
                        }
                    }
                }
            }
            tx = tx + 1;
        }
        assert forall|t: int| 0 <= t < cols * rows implies (#[trigger] buckets@[t])@
            == bucket_so_far(views, across, down, t, done as int, 0, ty + 1) by {
            lemma_mod_bound(t, across);
        }
        ty = ty + 1;
    }
    assert forall|t: int| 0 <= t < cols * rows implies (#[trigger] buckets@[t])@ == bucket(
        views,
        across,
        down,
        t,
        done + 1,
    ) by {
        assert(buckets@[t]@ == bucket_so_far(
            views,
            across,
            down,
            t,
            done as int,
            0,
            ty as int,
        ));
    }
}

/// Deals the hitboxes out to the tiles that they take.
pub fn assign_hitboxes(placed: &Vec<PlacedHitbox>, cols: u32, rows: u32) -> (buckets: Vec<
    Vec<Hitbox>,
>)
    requires
        cols * rows <= u32::MAX,
        all_positioned(placed_views(placed@), cols as int, rows as int),
    ensures
        buckets@.len() == cols * rows,
        forall|t: int|
            0 <= t < cols * rows ==> (#[trigger] buckets@[t])@ == bucket(
                placed_views(placed@),
                cols as int,
                rows as int,
                t,
                placed@.len() as int,
            ),
{
    let ghost views = placed_views(placed@);
    assert(0 <= cols * rows) by (nonlinear_arith);
    let tiles: u32 = cols * rows;
    let mut buckets: Vec<Vec<Hitbox>> = Vec::new();
    let mut t: u32 = 0;
    while t < tiles
        invariant
            t <= tiles,
            buckets@.len() == t,
            forall|k: int| 0 <= k < t ==> (#[trigger] buckets@[k])@ == Seq::<Hitbox>::empty(),
        decreases tiles - t,
    {
        let empty: Vec<Hitbox> = Vec::new();
        assert(empty@ =~= Seq::<Hitbox>::empty());
        buckets.push(empty);
        t = t + 1;
    }
    let mut i: usize = 0;
    while i < placed.len()
        invariant
            views == placed_views(placed@),
            cols * rows <= u32::MAX,
            all_positioned(views, cols as int, rows as int),
            i <= placed@.len(),
            buckets@.len() == cols * rows,
            forall|k: int|
                0 <= k < cols * rows ==> (#[trigger] buckets@[k])@ == bucket(
                    views,
                    cols as int,
                    rows as int,
                    k,
                    i as int,
                ),
        decreases placed@.len() - i,
    {
        assert(is_positioned(views[i as int], cols as int, rows as int));
        match clamp_range(placed[i].range, cols, rows) {
            Some(span) => {
                deal_out(&mut buckets, placed, i, span, cols, rows);
            },
            None => {
                assert forall|k: int| 0 <= k < cols * rows implies (#[trigger] buckets@[k])@
                    == bucket(views, cols as int, rows as int, k, i + 1) by {
                    assert(buckets@[k]@ == bucket(views, cols as int, rows as int, k, i as int));
                }
            },
        }
        i = i + 1;
    }
    buckets
}

/// The first of each group of equal keys, among the first `count` ones.
pub open spec fn firsts<K>(keys: Seq<K>, count: int) -> Seq<usize>
    decreases count,
{
    if count <= 0 {
        Seq::empty()
    } else if occurs_before(keys, count - 1) {
        firsts(keys, count - 1)
    } else {
        firsts(keys, count - 1).push((count - 1) as usize)
    }
}

/// Whether a key has occurred before.
pub open spec fn occurs_before<K>(keys: Seq<K>, at: int) -> bool {
    exists|j: int| 0 <= j < at && #[trigger] keys[j] == keys[at]
}

/// Whether one of the positions has the key.
pub open spec fn stands_for<K>(keys: Seq<K>, positions: Seq<usize>, i: int) -> bool {
    exists|a: int|
        0 <= a < positions.len() && keys[#[trigger] positions[a] as int] == keys[i]
}

/// Of each key that occurs, its first occurrence is kept and no other one, in order.
pub proof fn first_of_each_key_is_kept<K>(keys: Seq<K>, count: int)
    requires
        0 <= count <= keys.len() <= usize::MAX,
    ensures
        firsts(keys, count).len() <= count,
        forall|a: int|
            0 <= a < firsts(keys, count).len() ==> (#[trigger] firsts(keys, count)[a]) < count
                && !occurs_before(keys, firsts(keys, count)[a] as int),
        forall|a: int, b: int|
            0 <= a < b < firsts(keys, count).len() ==> #[trigger] firsts(keys, count)[a]
                < #[trigger] firsts(keys, count)[b],
        forall|i: int|
            0 <= i < count ==> #[trigger] stands_for(keys, firsts(keys, count), i),
    decreases count,
{
    if count > 0 {
        first_of_each_key_is_kept(keys, count - 1);
        let fewer = firsts(keys, count - 1);
        let all = firsts(keys, count);
        assert forall|i: int| 0 <= i < count implies #[trigger] stands_for(keys, all, i) by {
            if i < count - 1 {
                assert(stands_for(keys, fewer, i));
                let a = choose|a: int|
                    0 <= a < fewer.len() && keys[#[trigger] fewer[a] as int] == keys[i];
                assert(all[a] == fewer[a]);
            } else if occurs_before(keys, count - 1) {
                let j = choose|j: int| 0 <= j < count - 1 && #[trigger] keys[j] == keys[count - 1];
                assert(stands_for(keys, fewer, j));
                let a = choose|a: int|
                    0 <= a < fewer.len() && keys[#[trigger] fewer[a] as int] == keys[j];
                assert(all[a] == fewer[a]);
            } else {
                assert(all[all.len() - 1] == count - 1);
            }
        }
    }
}

/// What tells two hitboxes apart: position, size and rotation in hundredths.
pub type HitboxKey = (i32, i32, i32, i32, i32);

/// The positions of the first of each group of equal keys.
pub fn first_occurrences(keys: &Vec<HitboxKey>) -> (kept: Vec<usize>)
    ensures
        kept@ == firsts(keys@, keys@.len() as int),
{
    let mut kept: Vec<usize> = Vec::new();
    let mut i: usize = 0;
    while i < keys.len()
        invariant
            i <= keys@.len(),
            keys@.len() == keys.len(),
            kept@ == firsts(keys@, i as int),
        decreases keys@.len() - i,
    {
        proof {
            first_of_each_key_is_kept(keys@, i as int);
        }
        let key: HitboxKey = keys[i];
        let mut seen: bool = false;
        let mut a: usize = 0;
        while a < kept.len() && !seen
            invariant
                i < keys@.len(),
                key == keys@[i as int],
                a <= kept@.len(),
                forall|b: int| 0 <= b < kept@.len() ==> (#[trigger] kept@[b]) < i,
                seen ==> occurs_before(keys@, i as int),
                !seen ==> forall|b: int| 0 <= b < a ==> keys@[#[trigger] kept@[b] as int] != key,
            decreases kept@.len() - a,
        {
            let other: HitboxKey = keys[kept[a]];
            if other.0 == key.0 && other.1 == key.1 && other.2 == key.2 && other.3 == key.3
                && other.4 == key.4 {
                seen = true;
                assert(keys@[kept@[a as int] as int] == key);
            }
            a = a + 1;
        }
        assert(seen == occurs_before(keys@, i as int)) by {
            if occurs_before(keys@, i as int) && !seen {
                let j = choose|j: int| 0 <= j < i && #[trigger] keys@[j] == keys@[i as int];
                assert(stands_for(keys@, kept@, j));
                let b = choose|b: int|
                    0 <= b < kept@.len() && keys@[#[trigger] kept@[b] as int] == keys@[j];
                assert(keys@[kept@[b] as int] != key);
            }
        }
        if !seen {
            kept.push(i);
        }
        i = i + 1;
    }
    kept
}

} // verus!
