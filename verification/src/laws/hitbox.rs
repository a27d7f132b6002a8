//! Hitboxes.
use vstd::prelude::*;

use crate::hitbox::{
    bucket, described_objects, firsts, first_of_each_key_is_kept, layer_objects, map_objects,
    occurs_before, takes, takes_none, Hitbox, MapObject, PlacedView, TileRange, TileSpan,
};
use crate::laws::text::{case_is_that_of_ascii_letters, same_letter};
use crate::tree::{json_tree, Tree};

verus! {

/// Whether a name is "Hitboxes", in whatever case its letters are.
pub open spec fn is_hitboxes(name: Seq<char>) -> bool {
    let wanted = seq!['H', 'i', 't', 'b', 'o', 'x', 'e', 's'];
    name.len() == 8 && forall|i: int| 0 <= i < 8 ==> same_letter(#[trigger] name[i], wanted[i])
}

proof fn lemma_hitboxes(name: Seq<char>)
    ensures
        crate::text::same_but_for_case(name, "Hitboxes"@) == is_hitboxes(name),
{
    reveal_strlit("Hitboxes");
    assert("Hitboxes"@ =~= seq!['H', 'i', 't', 'b', 'o', 'x', 'e', 's']);
    case_is_that_of_ascii_letters(name, "Hitboxes"@);
}

/// The very name "Hitboxes" is one of them.
pub proof fn the_name_itself_counts()
    ensures
        is_hitboxes(seq!['H', 'i', 't', 'b', 'o', 'x', 'e', 's']),
{
}

/// The bits of the number that goes by a name in an object, zero where there is none.
pub open spec fn bits_of(object: Tree, name: Seq<char>) -> u64 {
    match object.named(name) {
        Some(Tree::Number(Some(bits))) => bits,
        _ => 0,
    }
}

/// Whether a hitbox has the position, size and rotation that an object gives.
pub open spec fn describes(object: Tree, hitbox: MapObject) -> bool {
    &&& hitbox.x == bits_of(object, seq!['x'])
    &&& hitbox.y == bits_of(object, seq!['y'])
    &&& hitbox.width == bits_of(object, seq!['w', 'i', 'd', 't', 'h'])
    &&& hitbox.height == bits_of(object, seq!['h', 'e', 'i', 'g', 'h', 't'])
    &&& hitbox.rotation == bits_of(object, seq!['r', 'o', 't', 'a', 't', 'i', 'o', 'n'])
}

/// Whether a layer goes by the name of the hitboxes.
pub open spec fn named_hitboxes(layer: Tree) -> bool {
    layer.named(seq!['n', 'a', 'm', 'e']) matches Some(Tree::Text(name)) && is_hitboxes(name)
}

proof fn lemma_words()
    ensures
        "x"@ == seq!['x'],
        "y"@ == seq!['y'],
        "width"@ == seq!['w', 'i', 'd', 't', 'h'],
        "height"@ == seq!['h', 'e', 'i', 'g', 'h', 't'],
        "rotation"@ == seq!['r', 'o', 't', 'a', 't', 'i', 'o', 'n'],
        "name"@ == seq!['n', 'a', 'm', 'e'],
        "layers"@ == seq!['l', 'a', 'y', 'e', 'r', 's'],
        "objects"@ == seq!['o', 'b', 'j', 'e', 'c', 't', 's'],
{
    reveal_strlit("x");
    reveal_strlit("y");
    reveal_strlit("width");
    reveal_strlit("height");
    reveal_strlit("rotation");
    reveal_strlit("name");
    reveal_strlit("layers");
    reveal_strlit("objects");
    assert("x"@ =~= seq!['x']);
    assert("y"@ =~= seq!['y']);
    assert("width"@ =~= seq!['w', 'i', 'd', 't', 'h']);
    assert("height"@ =~= seq!['h', 'e', 'i', 'g', 'h', 't']);
    assert("rotation"@ =~= seq!['r', 'o', 't', 'a', 't', 'i', 'o', 'n']);
    assert("name"@ =~= seq!['n', 'a', 'm', 'e']);
    assert("layers"@ =~= seq!['l', 'a', 'y', 'e', 'r', 's']);
    assert("objects"@ =~= seq!['o', 'b', 'j', 'e', 'c', 't', 's']);
}

/// A map has the hitboxes of its first layer whose name is "Hitboxes" in whatever case: one for
/// each object, in order, with the position, size and rotation that the object gives.
pub proof fn hitboxes_are_the_objects_of_their_layer(
    map: Tree,
    layers: Seq<Tree>,
    at: int,
    objects: Seq<Tree>,
)
    requires
        map.named(seq!['l', 'a', 'y', 'e', 'r', 's']) == Some(Tree::List(layers)),
        0 <= at < layers.len(),
        named_hitboxes(layers[at]),
        forall|k: int| 0 <= k < at ==> !named_hitboxes(#[trigger] layers[k]),
        layers[at].named(seq!['o', 'b', 'j', 'e', 'c', 't', 's']) == Some(Tree::List(objects)),
    ensures
        map_objects(map).len() == objects.len(),
        forall|i: int|
            0 <= i < objects.len() ==> describes(objects[i], #[trigger] map_objects(map)[i]),
{
    lemma_words();
    lemma_first_layer(layers, 0, at);
    let name = layers[at].named("name"@)->0->Text_0;
    lemma_hitboxes(name);
}

proof fn lemma_first_layer(layers: Seq<Tree>, from: int, at: int)
    requires
        0 <= from <= at <= layers.len(),
        forall|k: int| from <= k < at ==> !named_hitboxes(#[trigger] layers[k]),
    ensures
        layer_objects(layers, from) == layer_objects(layers, at),
    decreases at - from,
{
    if from < at {
        lemma_words();
        assert(!named_hitboxes(layers[from]));
        if let Some(Tree::Text(name)) = layers[from].named("name"@) {
            lemma_hitboxes(name);
        }
        lemma_first_layer(layers, from + 1, at);
    }
}

/// A map without a list of layers has no hitboxes, nor has one without a layer of their name, or
/// whose first such layer has no list of objects.
pub proof fn other_maps_have_no_hitboxes(map: Tree, layers: Seq<Tree>, at: int)
    requires
        match map.named(seq!['l', 'a', 'y', 'e', 'r', 's']) {
            Some(Tree::List(found)) => {
                &&& found == layers
                &&& 0 <= at <= layers.len()
                &&& forall|k: int| 0 <= k < at ==> !named_hitboxes(#[trigger] layers[k])
                &&& at < layers.len() ==> named_hitboxes(layers[at]) && !(layers[at].named(
                    seq!['o', 'b', 'j', 'e', 'c', 't', 's'],
                ) matches Some(Tree::List(_)))
            },
            _ => true,
        },
    ensures
        map_objects(map).len() == 0,
{
    lemma_words();
    if let Some(Tree::List(found)) = map.named("layers"@) {
        lemma_first_layer(layers, 0, at);
        if at < layers.len() {
            lemma_hitboxes(layers[at].named("name"@)->0->Text_0);
        }
    }
}

/// A range takes a tile of the map if the tile lies between its ends, and only then.
pub proof fn ranges_take_the_tiles_between_their_ends(
    range: TileRange,
    cols: int,
    rows: int,
    tx: int,
    ty: int,
)
    requires
        0 <= tx < cols,
        0 <= ty < rows,
    ensures
        takes(range, cols, rows, tx, ty) == (range.min_x <= tx <= range.max_x && range.min_y <= ty
            <= range.max_y),
        takes(range, cols, rows, tx, ty) ==> !takes_none(range, cols, rows),
{
}

/// Held against a map, a range spans the tiles of the map that it takes, and none where it takes
/// none.
pub proof fn spans_are_what_is_on_the_map(
    range: TileRange,
    cols: u32,
    rows: u32,
    span: Option<TileSpan>,
    tx: int,
    ty: int,
)
    requires
        span is None == takes_none(range, cols as int, rows as int),
        span matches Some(tiles) ==> {
            &&& tiles.min_x == crate::hitbox::larger(range.min_x as int, 0)
            &&& tiles.min_y == crate::hitbox::larger(range.min_y as int, 0)
            &&& tiles.max_x == crate::hitbox::smaller(range.max_x as int, cols - 1)
            &&& tiles.max_y == crate::hitbox::smaller(range.max_y as int, rows - 1)
        },
        0 <= tx < cols,
        0 <= ty < rows,
    ensures
        (range.min_x <= tx <= range.max_x && range.min_y <= ty <= range.max_y) == (
        span matches Some(tiles) && tiles.min_x <= tx <= tiles.max_x && tiles.min_y <= ty
            <= tiles.max_y),
        span matches Some(tiles) ==> tiles.max_x < cols && tiles.max_y < rows && tiles.min_x
            <= tiles.max_x && tiles.min_y <= tiles.max_y,
{
}

/// Whether a hitbox takes the tile in column `tx` and row `ty`.
pub open spec fn touches(placed: PlacedView, tx: int, ty: int) -> bool {
    placed.range.min_x <= tx <= placed.range.max_x && placed.range.min_y <= ty
        <= placed.range.max_y
}

/// Whether `local` is the hitbox with its position relative to the tile in column `tx` and row
/// `ty`: the positions are listed from the first column and row of the map that the hitbox takes.
pub open spec fn is_local(placed: PlacedView, tx: int, ty: int, local: Hitbox) -> bool {
    let first_x = if placed.range.min_x > 0 {
        placed.range.min_x as int
    } else {
        0
    };
    let first_y = if placed.range.min_y > 0 {
        placed.range.min_y as int
    } else {
        0
    };
    &&& local.x == placed.xs[tx - first_x]
    &&& local.y == placed.ys[ty - first_y]
    &&& local.w == placed.w
    &&& local.h == placed.h
    &&& local.rotation == placed.rotation
}

/// Whether the positions are those of all the hitboxes that take a tile, in order.
pub open spec fn are_takers(
    placed: Seq<PlacedView>,
    tx: int,
    ty: int,
    from: Seq<int>,
    count: int,
) -> bool {
    &&& forall|a: int, b: int| 0 <= a < b < from.len() ==> #[trigger] from[a] < #[trigger] from[b]
    &&& forall|a: int|
        0 <= a < from.len() ==> 0 <= (#[trigger] from[a]) < count && touches(placed[from[a]], tx, ty)
    &&& forall|i: int|
        0 <= i < count && touches(#[trigger] placed[i], tx, ty) ==> from.contains(i)
}

/// A tile has, in their order and once each, the hitboxes that take it and no others, each with its
/// position relative to the tile. The tile in column `tx` and row `ty` is number `ty * cols + tx`.
pub proof fn tiles_have_their_hitboxes_in_order(
    placed: Seq<PlacedView>,
    cols: int,
    rows: int,
    tx: int,
    ty: int,
    count: int,
) -> (from: Seq<int>)
    requires
        0 <= tx < cols,
        0 <= ty < rows,
        0 <= count <= placed.len(),
    ensures
        are_takers(placed, tx, ty, from, count),
        bucket(placed, cols, rows, ty * cols + tx, count).len() == from.len(),
        forall|a: int|
            0 <= a < from.len() ==> is_local(
                placed[from[a]],
                tx,
                ty,
                #[trigger] bucket(placed, cols, rows, ty * cols + tx, count)[a],
            ),
    decreases count,
{
    let tile = ty * cols + tx;
    vstd::arithmetic::div_mod::lemma_fundamental_div_mod_converse(tile, cols, ty, tx);
    if count == 0 {
        Seq::empty()
    } else {
        let before = tiles_have_their_hitboxes_in_order(placed, cols, rows, tx, ty, count - 1);
        let fewer = bucket(placed, cols, rows, tile, count - 1);
        let all = bucket(placed, cols, rows, tile, count);
        if touches(placed[count - 1], tx, ty) {
            let from = before.push(count - 1);
            assert forall|i: int| 0 <= i < count && touches(
                #[trigger] placed[i],
                tx,
                ty,
            ) implies from.contains(i) by {
                if i < count - 1 {
                    assert(before.contains(i));
                    let a = choose|a: int| 0 <= a < before.len() && before[a] == i;
                    assert(from[a] == i);
                } else {
                    assert(from[from.len() - 1] == i);
                }
            }
            assert forall|a: int| 0 <= a < from.len() implies is_local(
                placed[from[a]],
                tx,
                ty,
                #[trigger] all[a],
            ) by {
                if a < before.len() {
                    assert(all[a] == fewer[a]);
                }
            }
            from
        } else {
            before
        }
    }
}

/// Of each group of equal keys exactly one position is kept, its first, in ascending order.
pub proof fn each_key_is_kept_once<K>(keys: Seq<K>, i: int)
    requires
        0 <= i < keys.len() <= usize::MAX,
    ensures
        ({
            let kept = firsts(keys, keys.len() as int);
            &&& forall|a: int, b: int|
                0 <= a < b < kept.len() ==> #[trigger] kept[a] < #[trigger] kept[b]
                    && keys[kept[a] as int] != keys[kept[b] as int]
            &&& forall|a: int| 0 <= a < kept.len() ==> (#[trigger] kept[a]) < keys.len()
            &&& exists|a: int|
                0 <= a < kept.len() && (#[trigger] kept[a]) <= i && keys[kept[a] as int] == keys[i]
        }),
{
    let kept = firsts(keys, keys.len() as int);
    first_of_each_key_is_kept(keys, keys.len() as int);
    assert forall|a: int, b: int| 0 <= a < b < kept.len() implies #[trigger] kept[a]
        < #[trigger] kept[b] && keys[kept[a] as int] != keys[kept[b] as int] by {
        assert(!occurs_before(keys, kept[b] as int));
    }
    assert(crate::hitbox::stands_for(keys, kept, i));
    let a = choose|a: int| 0 <= a < kept.len() && keys[#[trigger] kept[a] as int] == keys[i];
    assert(!occurs_before(keys, kept[a] as int));
    if kept[a] > i {
        assert(keys[i] == keys[kept[a] as int]);
    }
}

/// A text that is no JSON has no hitboxes; else it has those of its document.
pub proof fn maps_are_json(text: Seq<char>)
    ensures
        match json_tree(text) {
            Some(tree) => described_objects(text) == map_objects(tree),
            None => described_objects(text).len() == 0,
        },
{
}

} // verus!
