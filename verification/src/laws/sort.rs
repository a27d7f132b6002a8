//! Orders by name.
use vstd::prelude::*;
use vstd::utf8::encode_utf8;

use crate::sort::{
    bytes_before, goes_before, is_order, lemma_name_irreflexive, lemma_name_transitive,
    name_before, name_views, order_lists_everything_once,
};

verus! {

/// Whether two byte strings agree before `at`, where the first ends or has the lower byte.
pub open spec fn differ_at(a: Seq<u8>, b: Seq<u8>, at: int) -> bool {
    &&& 0 <= at <= a.len()
    &&& at < b.len()
    &&& forall|i: int| 0 <= i < at ==> a[i] == b[i]
    &&& at == a.len() || a[at] < b[at]
}

/// A byte string comes before another if it ends first or has the lower byte where they first
/// differ, and only then.
pub proof fn bytes_are_in_dictionary_order(a: Seq<u8>, b: Seq<u8>)
    ensures
        bytes_before(a, b) == exists|at: int| #[trigger] differ_at(a, b, at),
    decreases a.len(),
{
    if b.len() == 0 {
    } else if a.len() == 0 {
        assert(differ_at(a, b, 0));
    } else if a[0] != b[0] {
        if a[0] < b[0] {
            assert(differ_at(a, b, 0));
        }
    } else {
        let c = a.drop_first();
        let d = b.drop_first();
        bytes_are_in_dictionary_order(c, d);
        if exists|at: int| #[trigger] differ_at(c, d, at) {
            let at = choose|at: int| #[trigger] differ_at(c, d, at);
            assert forall|i: int| 0 <= i < at + 1 implies a[i] == b[i] by {
                if i > 0 {
                    assert(c[i - 1] == d[i - 1]);
                }
            }
            assert(differ_at(a, b, at + 1));
        }
        if exists|at: int| #[trigger] differ_at(a, b, at) {
            let at = choose|at: int| #[trigger] differ_at(a, b, at);
            assert forall|i: int| 0 <= i < at - 1 implies c[i] == d[i] by {
                assert(a[i + 1] == b[i + 1]);
            }
            assert(differ_at(c, d, at - 1));
        }
    }
}

/// Whether a name comes before another: a missing one before every other, and names in the order of
/// their UTF-8 bytes.
pub open spec fn precedes(a: Option<String>, b: Option<String>) -> bool {
    match (a, b) {
        (None, Some(_)) => true,
        (Some(first), Some(second)) => exists|at: int| #[trigger]
            differ_at(encode_utf8(first@), encode_utf8(second@), at),
        _ => false,
    }
}

/// Putting names in order lists each position once; no name comes behind one that it precedes, and
/// of equal names the one that came first stays first.
pub proof fn names_are_put_in_order(names: Seq<Option<String>>, order: Seq<usize>)
    requires
        is_order(name_views(names), order),
    ensures
        order.len() == names.len(),
        order.no_duplicates(),
        forall|a: int| 0 <= a < order.len() ==> (#[trigger] order[a]) < names.len(),
        forall|a: int, b: int|
            0 <= a < b < order.len() ==> {
                let first = names[#[trigger] order[a] as int];
                let second = names[#[trigger] order[b] as int];
                !precedes(second, first) && (precedes(first, second) || order[a] < order[b])
            },
{
    let views = name_views(names);
    order_lists_everything_once(views, order);
    assert forall|a: int, b: int| 0 <= a < b < order.len() implies {
        let first = names[#[trigger] order[a] as int];
        let second = names[#[trigger] order[b] as int];
        !precedes(second, first) && (precedes(first, second) || order[a] < order[b])
    } by {
        let i = order[a] as int;
        let j = order[b] as int;
        assert(goes_before(views, i, j));
        lemma_precedes(names, i, j);
        lemma_precedes(names, j, i);
        lemma_name_irreflexive(views[i]);
        if name_before(views[j], views[i]) && name_before(views[i], views[j]) {
            lemma_name_transitive(views[i], views[j], views[i]);
        }
    }
}

proof fn lemma_precedes(names: Seq<Option<String>>, i: int, j: int)
    requires
        0 <= i < names.len(),
        0 <= j < names.len(),
    ensures
        name_before(name_views(names)[i], name_views(names)[j]) == precedes(names[i], names[j]),
{
    if names[i] is Some && names[j] is Some {
        bytes_are_in_dictionary_order(encode_utf8(names[i]->0@), encode_utf8(names[j]->0@));
    }
}

} // verus!
