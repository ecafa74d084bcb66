//! What holds of the tree model whatever is done with it.
use crate::element::{attributes_text, lines_of, rendered, tabs, tag_head, Element};
use crate::xml_dom::Reader;
use crate::xml_item::{
    added, can_attach, cleared, is_above, lemma_chain_ends, lemma_start_in_table, links_agree,
    nth_ancestor, parent_of, ItemView, XmlDom, XmlItemRc,
};
use vstd::prelude::*;

verus! {

/// An element without children is written as one self-closing tag: the
/// tabs, the beginning of the tag, and `/>`.
pub proof fn lemma_childless_is_self_closing(e: Element, depth: nat)
    requires
        e.children.len() == 0,
    ensures
        lines_of(e, depth).len() == 1,
        rendered(e, depth) == tabs(depth) + tag_head(e) + seq!['/', '>'],
{
}

/// An item without children is written as one self-closing tag, however the
/// document came to be as it is.
pub proof fn lemma_item_without_children(dom: XmlDom, at: usize, depth: nat)
    requires
        dom.wf(),
        at < dom@.len(),
        dom@[at as int].nodes.len() == 0,
    ensures
        rendered(dom.element(at), depth) == tabs(depth) + seq!['<'] + dom@[at as int].name
            + attributes_text(dom@[at as int].attributes) + seq!['/', '>'],
{
    lemma_childless_is_self_closing(dom.element(at), depth);
}

/// After everything below an item was cut off, the item has no children, and
/// none of its former descendants can be reached: such an item has no
/// parent, so that nothing but itself is above it, and no item lists it as a
/// child.
pub proof fn lemma_cleared_is_cut_off(dom: XmlDom, at: usize, below: usize)
    requires
        dom.wf(),
        at < dom@.len(),
        is_above(dom@, at, below),
        below != at,
    ensures
        cleared(dom@, at)[at as int].nodes.len() == 0,
        parent_of(cleared(dom@, at), Some(below)) is None,
        forall|from: usize| from != below ==> !is_above(cleared(dom@, at), from, below),
        forall|i: int|
            0 <= i < dom@.len() ==> !(#[trigger] cleared(dom@, at)[i]).nodes.contains(below),
{
    let v = dom@;
    let w = cleared(v, at);
    let n = choose|n: nat| nth_ancestor(v, below, n) == Some(at);
    lemma_start_in_table(v, below, n);
    assert(w[below as int].parent is None);
    assert forall|from: usize| from != below implies !is_above(w, from, below) by {
        assert forall|m: nat| nth_ancestor(w, below, m) != Some(from) by {
            if m > 0 {
                lemma_chain_ends(w, below, 0, m);
            }
        }
    }
    dom.lemma_cleared_agrees(at);
    assert forall|i: int| 0 <= i < v.len() implies !(#[trigger] w[i]).nodes.contains(below) by {
        if w[i].nodes.contains(below) {
            let k = choose|k: int| 0 <= k < w[i].nodes.len() && w[i].nodes[k] == below;
            assert(w[w[i].nodes[k] as int].parent == Some(i as usize));
        }
    }
}

/// An item that was put under a parent names that parent, and is the last
/// of the parent's children.
pub proof fn lemma_added_knows_parent(v: Seq<ItemView>, parent: XmlItemRc, node: XmlItemRc)
    requires
        links_agree(v),
        can_attach(v, parent, node),
    ensures
        parent_of(added(v, parent, node), node) == parent,
        added(v, parent, node)[parent->0 as int].nodes.last() == node->0,
{
    assert(nth_ancestor(v, parent->0, 0) == parent);
    if v[node->0 as int].parent == node {
        assert(nth_ancestor(v, node->0, 0) == node);
        assert(nth_ancestor(v, node->0, 1) == node);
        assert(v[node->0 as int].nodes.contains(node->0));
    }
}

/// Along a chain from a root over `a` and `b` to `c`, the parent of the
/// parent of `c` is `a`, and the root has no parent.
pub proof fn lemma_ancestor_chain(v: Seq<ItemView>, root: usize, a: usize, b: usize, c: usize)
    requires
        links_agree(v),
        root < v.len(),
        v[root as int].parent is None,
        v[root as int].nodes.contains(a),
        v[a as int].nodes.contains(b),
        v[b as int].nodes.contains(c),
    ensures
        parent_of(v, Some(c)) == Some(b),
        parent_of(v, parent_of(v, Some(c))) == Some(a),
        parent_of(v, parent_of(v, parent_of(v, Some(c)))) == Some(root),
        parent_of(v, Some(root)) is None,
{
    let ka = choose|k: int| 0 <= k < v[root as int].nodes.len() && v[root as int].nodes[k] == a;
    assert(v[root as int].nodes[ka] < v.len());
    assert(v[v[root as int].nodes[ka] as int].parent == Some(root));
    let kb = choose|k: int| 0 <= k < v[a as int].nodes.len() && v[a as int].nodes[k] == b;
    assert(v[a as int].nodes[kb] < v.len());
    assert(v[v[a as int].nodes[kb] as int].parent == Some(a));
    let kc = choose|k: int| 0 <= k < v[b as int].nodes.len() && v[b as int].nodes[k] == c;
    assert(v[b as int].nodes[kc] < v.len());
    assert(v[v[b as int].nodes[kc] as int].parent == Some(b));
}

/// What stands inside a comment makes no item and counts for no tag: a line
/// that is read while the reader is inside a comment changes nothing but,
/// where it ends the comment, that the reader is inside one.
pub proof fn lemma_comment_is_skipped(reader: Reader, line: Seq<char>)
    requires
        reader.in_comment,
    ensures
        reader.fed(line) is Ok,
        reader.fed(line)->Ok_0 == (Reader {
            in_comment: reader.fed(line)->Ok_0.in_comment,
            ..reader
        }),
{
}

} // verus!
