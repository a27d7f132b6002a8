//! Putting things in order by their names, equal names keeping the order they came in.
use vstd::prelude::*;
use vstd::utf8::*;

verus! {

/// Whether a byte string comes before another one in the order of dictionaries.
pub open spec fn bytes_before(a: Seq<u8>, b: Seq<u8>) -> bool
    decreases a.len(),
{
    if b.len() == 0 {
        false
    } else if a.len() == 0 {
        true
    } else if a[0] != b[0] {
        a[0] < b[0]
    } else {
        bytes_before(a.drop_first(), b.drop_first())
    }
}

/// Whether a name comes before another one: by the bytes of UTF-8, a missing name first.
pub open spec fn name_before(a: Option<Seq<char>>, b: Option<Seq<char>>) -> bool {
    match b {
        None => false,
        Some(second) => match a {
            None => true,
            Some(first) => bytes_before(encode_utf8(first), encode_utf8(second)),
        },
    }
}

/// Whether the thing `i` goes before the thing `j`: by name, then by the order they came in.
pub open spec fn goes_before(names: Seq<Option<Seq<char>>>, i: int, j: int) -> bool {
    name_before(names[i], names[j]) || (names[i] == names[j] && i < j)
}

/// Whether the positions are strictly ascending.
pub open spec fn ascending(names: Seq<Option<Seq<char>>>, order: Seq<usize>) -> bool {
    forall|a: int, b: int|
        0 <= a < b < order.len() ==> goes_before(
            names,
            #[trigger] order[a] as int,
            #[trigger] order[b] as int,
        )
}

/// Whether `order` lists the positions of all the names in ascending order.
pub open spec fn is_order(names: Seq<Option<Seq<char>>>, order: Seq<usize>) -> bool {
    &&& order.len() == names.len()
    &&& forall|a: int| 0 <= a < order.len() ==> (#[trigger] order[a]) < names.len()
    &&& ascending(names, order)
}

/// Whether the order has a place for the position.
pub open spec fn has_place(order: Seq<usize>, position: int) -> bool {
    exists|a: int| 0 <= a < order.len() && #[trigger] order[a] == position
}

/// The characters of each name.
pub open spec fn name_views(names: Seq<Option<String>>) -> Seq<Option<Seq<char>>> {
    Seq::new(
        names.len(),
        |i: int|
            match names[i] {
                Some(name) => Some(name@),
                None => None,
            },
    )
}

proof fn lemma_bytes_irreflexive(a: Seq<u8>)
    ensures
        !bytes_before(a, a),
    decreases a.len(),
{
    if a.len() > 0 {
        lemma_bytes_irreflexive(a.drop_first());
    }
}

proof fn lemma_bytes_transitive(a: Seq<u8>, b: Seq<u8>, c: Seq<u8>)
    requires
        bytes_before(a, b),
        bytes_before(b, c),
    ensures
        bytes_before(a, c),
    decreases a.len(),
{
    if a.len() > 0 && b.len() > 0 && c.len() > 0 && a[0] == b[0] && b[0] == c[0] {
        lemma_bytes_transitive(a.drop_first(), b.drop_first(), c.drop_first());
    }
}

proof fn lemma_bytes_total(a: Seq<u8>, b: Seq<u8>)
    ensures
        bytes_before(a, b) || bytes_before(b, a) || a == b,
    decreases a.len(),
{
    if a.len() > 0 && b.len() > 0 && a[0] == b[0] {
        lemma_bytes_total(a.drop_first(), b.drop_first());
        if a.drop_first() == b.drop_first() {
            assert(a =~= seq![a[0]] + a.drop_first());
            assert(b =~= seq![b[0]] + b.drop_first());
        }
    } else if a.len() == 0 && b.len() == 0 {
        assert(a =~= b);
    }
}

/// Of two byte strings that begin alike the one with the lower next byte comes first.
pub proof fn lemma_bytes_differ(a: Seq<u8>, b: Seq<u8>, at: int)
    requires
        0 <= at < a.len(),
        at < b.len(),
        forall|i: int| 0 <= i < at ==> a[i] == b[i],
        a[at] < b[at],
    ensures
        bytes_before(a, b),
    decreases at,
{
    if at > 0 {
        lemma_bytes_differ(a.drop_first(), b.drop_first(), at - 1);
    }
}

/// The order of names is strict: nothing goes before itself.
pub proof fn lemma_name_irreflexive(a: Option<Seq<char>>)
    ensures
        !name_before(a, a),
{
    if let Some(name) = a {
        lemma_bytes_irreflexive(encode_utf8(name));
    }
}

/// The order of names is transitive.
pub proof fn lemma_name_transitive(
    a: Option<Seq<char>>,
    b: Option<Seq<char>>,
    c: Option<Seq<char>>,
)
    requires
        name_before(a, b),
        name_before(b, c),
    ensures
        name_before(a, c),
{
    if a is Some && b is Some && c is Some {
        lemma_bytes_transitive(encode_utf8(a->0), encode_utf8(b->0), encode_utf8(c->0));
    }
}

/// Of two different names one goes before the other.
pub proof fn lemma_name_total(a: Option<Seq<char>>, b: Option<Seq<char>>)
    ensures
        name_before(a, b) || name_before(b, a) || a == b,
{
    if a is Some && b is Some {
        lemma_bytes_total(encode_utf8(a->0), encode_utf8(b->0));
        encode_utf8_decode_utf8(a->0);
        encode_utf8_decode_utf8(b->0);
    }
}

proof fn lemma_before_transitive(names: Seq<Option<Seq<char>>>, i: int, j: int, k: int)
    requires
        goes_before(names, i, j),
        goes_before(names, j, k),
    ensures
        goes_before(names, i, k),
{
    if name_before(names[i], names[j]) && name_before(names[j], names[k]) {
        lemma_name_transitive(names[i], names[j], names[k]);
    }
}

/// An order lists every position once: no two places hold the same position, and every
/// position has its place.
pub proof fn order_lists_everything_once(names: Seq<Option<Seq<char>>>, order: Seq<usize>)
    requires
        is_order(names, order),
    ensures
        order.no_duplicates(),
        forall|i: int|
            0 <= i < names.len() ==> #[trigger] has_place(order, i),
{
    assert forall|a: int, b: int| 0 <= a < order.len() && 0 <= b < order.len() && a != b implies order[a]
        != order[b] by {
        let low = if a < b { a } else { b };
        let high = if a < b { b } else { a };
        assert(goes_before(names, order[low] as int, order[high] as int));
        lemma_name_irreflexive(names[order[low] as int]);
    }
    let places = Seq::new(order.len(), |a: int| order[a] as int);
    let all = vstd::set_lib::set_int_range(0, names.len() as int);
    vstd::set_lib::lemma_int_range(0, names.len() as int);
    assert(places.no_duplicates());
    places.unique_seq_to_set();
    assert(places.to_set().subset_of(all)) by {
        assert forall|p: int| places.to_set().contains(p) implies all.contains(p) by {
            let a = choose|a: int| 0 <= a < places.len() && places[a] == p;
            assert(order[a] < names.len());
        }
    }
    vstd::set_lib::lemma_subset_equality(places.to_set(), all);
    assert forall|i: int| 0 <= i < names.len() implies #[trigger] has_place(order, i) by {
        assert(all.contains(i));
        assert(places.to_set().contains(i));
        let a = choose|a: int| 0 <= a < places.len() && places[a] == i;
        assert(order[a] == i);
    }
}

/// There is one order only.
pub proof fn order_is_unique(
    names: Seq<Option<Seq<char>>>,
    first: Seq<usize>,
    second: Seq<usize>,
)
    requires
        is_order(names, first),
        is_order(names, second),
    ensures
        first == second,
{
    order_lists_everything_once(names, first);
    order_lists_everything_once(names, second);
    lemma_same_prefix(names, first, second, first.len() as int);
    assert(first =~= second);
}

proof fn lemma_same_prefix(
    names: Seq<Option<Seq<char>>>,
    first: Seq<usize>,
    second: Seq<usize>,
    count: int,
)
    requires
        is_order(names, first),
        is_order(names, second),
        0 <= count <= first.len(),
        forall|i: int|
            0 <= i < names.len() ==> #[trigger] has_place(first, i),
        forall|i: int|
            0 <= i < names.len() ==> #[trigger] has_place(second, i),
    ensures
        forall|a: int| 0 <= a < count ==> #[trigger] first[a] == second[a],
    decreases count,
{
    if count > 0 {
        lemma_same_prefix(names, first, second, count - 1);
        let at = count - 1;
        if first[at] != second[at] {
            let p = first[at] as int;
            let q = second[at] as int;
            assert(has_place(second, p) && has_place(first, q));
            let b = choose|b: int| 0 <= b < second.len() && #[trigger] second[b] == p;
            let a = choose|a: int| 0 <= a < first.len() && #[trigger] first[a] == q;
            if b < at {
                assert(first[b] == second[b]);
                assert(goes_before(names, first[b] as int, first[at] as int));
                lemma_name_irreflexive(names[p]);
                assert(false);
            }
            if a < at {
                assert(first[a] == second[a]);
                assert(goes_before(names, second[a] as int, second[at] as int));
                lemma_name_irreflexive(names[q]);
                assert(false);
            }
            assert(goes_before(names, second[at] as int, second[b] as int));
            assert(goes_before(names, first[at] as int, first[a] as int));
            lemma_before_transitive(names, p, q, p);
            lemma_name_irreflexive(names[p]);
            assert(false);
        }
    }
}

/// Whether a byte string comes before another one.
fn is_before(a: &[u8], b: &[u8]) -> (before: bool)
    ensures
        before == bytes_before(a@, b@),
{
    let mut i: usize = 0;
    assert(a@.subrange(0, a@.len() as int) =~= a@);
    assert(b@.subrange(0, b@.len() as int) =~= b@);
    while i < a.len() && i < b.len() && a[i] == b[i]
        invariant
            i <= a@.len(),
            i <= b@.len(),
            bytes_before(a@, b@) == bytes_before(
                a@.subrange(i as int, a@.len() as int),
                b@.subrange(i as int, b@.len() as int),
            ),
        decreases a@.len() - i,
    {
        assert(a@.subrange(i as int, a@.len() as int).drop_first() =~= a@.subrange(
            i + 1,
            a@.len() as int,
        ));
        assert(b@.subrange(i as int, b@.len() as int).drop_first() =~= b@.subrange(
            i + 1,
            b@.len() as int,
        ));
        i = i + 1;
    }
    if i >= b.len() {
        false
    } else if i >= a.len() {
        true
    } else {
        a[i] < b[i]
    }
}

/// Whether a name comes before another one.
fn is_name_before(a: &Option<String>, b: &Option<String>) -> (before: bool)
    ensures
        before == name_before(name_views(seq![*a])[0], name_views(seq![*b])[0]),
{
    match b {
        None => false,
        Some(second) => match a {
            None => true,
            Some(first) => is_before(first.as_str().as_bytes(), second.as_str().as_bytes()),
        },
    }
}

/// Merges two ascending lists, all positions of the first being lower.
fn merge(names: &Vec<Option<String>>, left: &Vec<usize>, right: &Vec<usize>, middle: usize) -> (all:
    Vec<usize>)
    requires
        forall|a: int| 0 <= a < left@.len() ==> (#[trigger] left@[a]) < middle,
        forall|b: int|
            0 <= b < right@.len() ==> middle <= (#[trigger] right@[b]) && right@[b]
                < names@.len(),
        middle <= names@.len(),
        ascending(name_views(names@), left@),
        ascending(name_views(names@), right@),
        left@.len() + right@.len() <= names@.len(),
    ensures
        all@.len() == left@.len() + right@.len(),
        ascending(name_views(names@), all@),
        forall|k: int|
            0 <= k < all@.len() ==> left@.contains(#[trigger] all@[k]) || right@.contains(all@[k]),
{
    let ghost views = name_views(names@);
    let mut all: Vec<usize> = Vec::new();
    let mut a: usize = 0;
    let mut b: usize = 0;
    while a < left.len() || b < right.len()
        invariant
            views == name_views(names@),
            forall|i: int| 0 <= i < left@.len() ==> (#[trigger] left@[i]) < middle,
            forall|i: int|
                0 <= i < right@.len() ==> middle <= (#[trigger] right@[i]) && right@[i]
                    < names@.len(),
            middle <= names@.len(),
            ascending(views, left@),
            ascending(views, right@),
            left@.len() + right@.len() <= names@.len(),
            a <= left@.len(),
            b <= right@.len(),
            all@.len() == a + b,
            ascending(views, all@),
            forall|k: int|
                0 <= k < all@.len() ==> left@.contains(#[trigger] all@[k]) || right@.contains(
                    all@[k],
                ),
            forall|k: int, i: int|
                0 <= k < all@.len() && a <= i < left@.len() ==> goes_before(
                    views,
                    #[trigger] all@[k] as int,
                    #[trigger] left@[i] as int,
                ),
            forall|k: int, i: int|
                0 <= k < all@.len() && b <= i < right@.len() ==> goes_before(
                    views,
                    #[trigger] all@[k] as int,
                    #[trigger] right@[i] as int,
                ),
        decreases left@.len() - a + right@.len() - b,
    {
        let take_left: bool = if a >= left.len() {
            false
        } else if b >= right.len() {
            true
        } else {
            let l: usize = left[a];
            let r: usize = right[b];
            let after = is_name_before(&names[r], &names[l]);
            proof {
                assert(name_views(seq![names@[r as int]])[0] == views[r as int]);
                assert(name_views(seq![names@[l as int]])[0] == views[l as int]);
                lemma_name_total(views[r as int], views[l as int]);
            }
            !after
        };
        if take_left {
            let l: usize = left[a];
            proof {
                let old_all = all@;
                let new_all = all@.push(l);
                assert forall|i: int| b <= i < right@.len() implies goes_before(
                    views,
                    l as int,
                    #[trigger] right@[i] as int,
                ) by {
                    let r = right@[b as int];
                    assert(goes_before(views, l as int, r as int));
                    if i > b {
                        assert(goes_before(views, r as int, right@[i] as int));
                        lemma_before_transitive(views, l as int, r as int, right@[i] as int);
                    }
                }
                assert(left@.contains(l));
            }
            all.push(l);
            a = a + 1;
        } else {
            let r: usize = right[b];
            proof {
                assert forall|i: int| a <= i < left@.len() implies goes_before(
                    views,
                    r as int,
                    #[trigger] left@[i] as int,
                ) by {
                    let l = left@[a as int];
                    assert(goes_before(views, r as int, l as int));
                    if i > a {
                        assert(goes_before(views, l as int, left@[i] as int));
                        lemma_before_transitive(views, r as int, l as int, left@[i] as int);
                    }
                }
                assert(right@.contains(r));
            }
            all.push(r);
            b = b + 1;
        }
    }
    all
}

/// The positions from `from` up to `to` in ascending order of their names.
fn order_range(names: &Vec<Option<String>>, from: usize, to: usize) -> (order: Vec<usize>)
    requires
        from <= to <= names@.len(),
    ensures
        order@.len() == to - from,
        forall|a: int| 0 <= a < order@.len() ==> from <= (#[trigger] order@[a]) && order@[a] < to,
        ascending(name_views(names@), order@),
    decreases to - from,
{
    if to - from <= 1 {
        let mut order: Vec<usize> = Vec::new();
        if from < to {
            order.push(from);
        }
        return order;
    }
    let middle: usize = from + (to - from) / 2;
    let left = order_range(names, from, middle);
    let right = order_range(names, middle, to);
    let all = merge(names, &left, &right, middle);
    proof {
        assert forall|k: int| 0 <= k < all@.len() implies from <= (#[trigger] all@[k]) && all@[k]
            < to by {
            if left@.contains(all@[k]) {
                let i = choose|i: int| 0 <= i < left@.len() && left@[i] == all@[k];
                assert(from <= left@[i] < middle);
            } else {
                let i = choose|i: int| 0 <= i < right@.len() && right@[i] == all@[k];
                assert(middle <= right@[i] < to);
            }
        }
    }
    all
}

/// The positions of the names in ascending order, equal names in the order they came in.
pub fn order_by_name(names: &Vec<Option<String>>) -> (order: Vec<usize>)
    ensures
        is_order(name_views(names@), order@),
{
    order_range(names, 0, names.len())
}

/// Whether the things are in strictly ascending order of their names.
pub open spec fn strictly_named<T>(things: Seq<T>, name: spec_fn(T) -> Option<Seq<char>>) -> bool {
    forall|a: int, b: int|
        0 <= a < b < things.len() ==> name_before(
            name(#[trigger] things[a]),
            name(#[trigger] things[b]),
        )
}

/// The same things can be put in strictly ascending order in one way only.
pub proof fn lemma_one_order<T>(
    first: Seq<T>,
    second: Seq<T>,
    name: spec_fn(T) -> Option<Seq<char>>,
)
    requires
        strictly_named(first, name),
        strictly_named(second, name),
        forall|a: int| 0 <= a < first.len() ==> second.contains(#[trigger] first[a]),
        forall|b: int| 0 <= b < second.len() ==> first.contains(#[trigger] second[b]),
    ensures
        first == second,
{
    let shorter = if first.len() < second.len() {
        first.len() as int
    } else {
        second.len() as int
    };
    lemma_same_start(first, second, name, shorter);
    if first.len() < second.len() {
        let a = choose|a: int| 0 <= a < first.len() && first[a] == second[shorter];
        lemma_name_irreflexive(name(second[shorter]));
        assert(name_before(name(second[a]), name(second[shorter])));
    } else if second.len() < first.len() {
        let b = choose|b: int| 0 <= b < second.len() && second[b] == first[shorter];
        lemma_name_irreflexive(name(first[shorter]));
        assert(name_before(name(first[b]), name(first[shorter])));
    }
    assert(first =~= second);
}

proof fn lemma_same_start<T>(
    first: Seq<T>,
    second: Seq<T>,
    name: spec_fn(T) -> Option<Seq<char>>,
    count: int,
)
    requires
        strictly_named(first, name),
        strictly_named(second, name),
        forall|a: int| 0 <= a < first.len() ==> second.contains(#[trigger] first[a]),
        forall|b: int| 0 <= b < second.len() ==> first.contains(#[trigger] second[b]),
        0 <= count <= first.len(),
        count <= second.len(),
    ensures
        forall|a: int| 0 <= a < count ==> #[trigger] first[a] == second[a],
    decreases count,
{
    if count > 0 {
        lemma_same_start(first, second, name, count - 1);
        let at = count - 1;
        let b = choose|b: int| 0 <= b < second.len() && second[b] == first[at];
        let a = choose|a: int| 0 <= a < first.len() && first[a] == second[at];
        lemma_name_irreflexive(name(first[at]));
        lemma_name_irreflexive(name(second[at]));
        if b < at {
            assert(first[b] == second[b]);
            assert(name_before(name(first[b]), name(first[at])));
        }
        if a < at {
            assert(first[a] == second[a]);
            assert(name_before(name(second[a]), name(second[at])));
        }
        if b > at && a > at {
            assert(name_before(name(second[at]), name(second[b])));
            assert(name_before(name(first[at]), name(first[a])));
            lemma_name_transitive(name(first[at]), name(second[at]), name(first[at]));
        }
    }
}

} // verus!
