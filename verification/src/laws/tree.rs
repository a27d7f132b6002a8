//! Documents.
use vstd::prelude::*;

use crate::tree::{named_from, Node, Tree};

verus! {

/// Whether the entry `at` of a table is the first with the name.
pub open spec fn is_first_entry(entries: Seq<(String, Node)>, name: Seq<char>, at: int) -> bool {
    &&& 0 <= at < entries.len()
    &&& entries[at].0@ == name
    &&& forall|k: int| 0 <= k < at ==> (#[trigger] entries[k]).0@ != name
}

/// A table gives under a name the value of its first entry with the name.
pub proof fn tables_give_the_first_entry(node: Node, name: Seq<char>, at: int)
    requires
        node is Table,
        is_first_entry(node->Table_0@, name, at),
    ensures
        node.tree().named(name) == Some(node->Table_0@[at].1.tree()),
{
    lemma_named(node, name, 0, at);
}

proof fn lemma_named(node: Node, name: Seq<char>, from: int, at: int)
    requires
        node is Table,
        0 <= from <= at,
        is_first_entry(node->Table_0@, name, at),
    ensures
        named_from(node.tree()->Table_0, name, from) == Some(node->Table_0@[at].1.tree()),
    decreases at - from,
{
    let views = node.tree()->Table_0;
    let entries = node->Table_0@;
    assert(views[from] == (entries[from].0@, entries[from].1.tree()));
    if from < at {
        assert(entries[from].0@ != name);
        lemma_named(node, name, from + 1, at);
    }
}

/// A table without an entry of the name gives nothing under it, and neither does what is no table.
pub proof fn other_values_give_nothing(node: Node, name: Seq<char>)
    requires
        node is Table ==> forall|k: int|
            0 <= k < node->Table_0@.len() ==> (#[trigger] node->Table_0@[k]).0@ != name,
    ensures
        node.tree().named(name) is None,
{
    if node is Table {
        lemma_unnamed(node, name, 0);
    }
}

proof fn lemma_unnamed(node: Node, name: Seq<char>, from: int)
    requires
        node is Table,
        0 <= from,
        forall|k: int|
            0 <= k < node->Table_0@.len() ==> (#[trigger] node->Table_0@[k]).0@ != name,
    ensures
        named_from(node.tree()->Table_0, name, from) is None,
    decreases node->Table_0@.len() - from,
{
    let views = node.tree()->Table_0;
    let entries = node->Table_0@;
    if from < entries.len() {
        assert(views[from] == (entries[from].0@, entries[from].1.tree()));
        assert(entries[from].0@ != name);
        lemma_unnamed(node, name, from + 1);
    }
}

/// A list, a text or a number is found under a name only where the value is of that kind.
pub proof fn values_are_found_by_their_kind(tree: Tree, name: Seq<char>)
    ensures
        match tree.named(name) {
            Some(Tree::List(items)) => tree.named_list(name) == Some(items) && tree.named_text(name)
                is None && tree.named_number(name) is None,
            Some(Tree::Text(text)) => tree.named_text(name) == Some(text) && tree.named_list(name)
                is None && tree.named_number(name) is None,
            Some(Tree::Number(bits)) => tree.named_number(name) == bits && tree.named_list(name)
                is None && tree.named_text(name) is None,
            _ => tree.named_number(name) is None && tree.named_list(name) is None
                && tree.named_text(name) is None,
        },
{
}

/// A node says what it holds: the characters of its text, the bits of its number, and what each of
/// its items says.
pub proof fn nodes_say_what_they_hold(node: Node)
    ensures
        match node {
            Node::Text(text) => node.tree() == Tree::Text(text@),
            Node::Number(bits) => node.tree() == Tree::Number(bits),
            Node::List(items) => node.tree() is List && node.tree()->List_0.len() == items@.len()
                && forall|i: int|
                0 <= i < items@.len() ==> #[trigger] node.tree()->List_0[i] == items@[i].tree(),
            Node::Table(_) => node.tree() is Table,
            _ => !(node.tree() is Text) && !(node.tree() is Number) && !(node.tree() is List)
                && !(node.tree() is Table),
        },
{
}

} // verus!
