//! The tree model: a table of items, each knowing its children and its parent.
//!
//! A document keeps all its items in one table. An item is named by its place
//! in that table; a parent lists the places of its children, and a child holds
//! the place of its parent. Only the first of the two directions owns: a child
//! never keeps a parent alive.
use crate::element::{
    attribute_text, attributes_text, count, count_all, escaped, escaped_at, joined,
    lemma_joined_concat, lines_of, lines_of_all, rendered, tabs, tag_head, Element,
};
use vstd::set_lib::{lemma_int_range, lemma_len_subset, lemma_set_disjoint_lens, set_int_range};
use crate::error::XmlError;
use crate::text::to_chars;
use vstd::prelude::*;

verus! {

/// A reference to an item of a document, or to no item at all.
pub type XmlItemRc = Option<usize>;

/// One element of a document.
pub struct XmlItem {
    /// The element's name.
    pub name: String,
    /// The attributes, in the order in which their names first arrived. No
    /// name occurs twice.
    pub attributes: Vec<(String, String)>,
    /// The places of the children, in the order in which they were attached.
    pub nodes: Vec<usize>,
    /// The place of the parent; `None` for an item that has none.
    pub parent: Option<usize>,
}

/// What an item holds, as mathematics.
pub struct ItemView {
    /// The characters of the name.
    pub name: Seq<char>,
    /// The attributes in their order, each a name and a value.
    pub attributes: Seq<(Seq<char>, Seq<char>)>,
    /// The places of the children, in their order.
    pub nodes: Seq<usize>,
    /// The place of the parent, if there is one.
    pub parent: Option<usize>,
}

impl View for XmlItem {
    type V = ItemView;

    open spec fn view(&self) -> ItemView {
        ItemView {
            name: self.name@,
            attributes: self.attributes@.map_values(|p: (String, String)| (p.0@, p.1@)),
            nodes: self.nodes@,
            parent: self.parent,
        }
    }
}

/// The items of one document.
///
/// The document's view is the table of what its items hold. Items are never
/// taken out of the table: an item that was cut off stays where it is,
/// without parent and without children.
pub struct XmlDom {
    /// The items, each at its place.
    items: Vec<XmlItem>,
    /// For each item a number that is larger than that of each of its
    /// children.
    heights: Ghost<Seq<nat>>,
    /// A number that none of `heights` exceeds.
    ceiling: Ghost<nat>,
}

impl View for XmlDom {
    type V = Seq<ItemView>;

    closed spec fn view(&self) -> Seq<ItemView> {
        self.items@.map_values(|item: XmlItem| item@)
    }
}

/// `rc` names an item of the table `v`.
pub open spec fn holds(v: Seq<ItemView>, rc: XmlItemRc) -> bool {
    rc matches Some(i) && i < v.len()
}

/// An item as `XmlItem::new` makes it: no parent, no children, no attributes.
pub open spec fn fresh(name: Seq<char>) -> ItemView {
    ItemView { name, attributes: Seq::empty(), nodes: Seq::empty(), parent: None }
}

/// The place of the attribute named `key` at or after `from`; `attrs.len()`
/// where there is none.
pub open spec fn key_index(attrs: Seq<(Seq<char>, Seq<char>)>, key: Seq<char>, from: int) -> int
    decreases attrs.len() - from,
{
    if from < 0 || from >= attrs.len() {
        attrs.len() as int
    } else if attrs[from].0 == key {
        from
    } else {
        key_index(attrs, key, from + 1)
    }
}

/// No attribute name occurs twice.
pub open spec fn keys_unique(attrs: Seq<(Seq<char>, Seq<char>)>) -> bool {
    forall|a: int, b: int|
        0 <= a < b < attrs.len() ==> (#[trigger] attrs[a]).0 != (#[trigger] attrs[b]).0
}

/// The attributes after `key` was given `value`: an attribute with that name
/// takes the new value where it stands, a new one goes to the end.
pub open spec fn assigned(
    attrs: Seq<(Seq<char>, Seq<char>)>,
    key: Seq<char>,
    value: Seq<char>,
) -> Seq<(Seq<char>, Seq<char>)> {
    let at = key_index(attrs, key, 0);
    if at < attrs.len() {
        attrs.update(at, (key, value))
    } else {
        attrs.push((key, value))
    }
}

/// The table `v` after the item at `at` was given the attribute.
pub open spec fn with_attribute(
    v: Seq<ItemView>,
    at: int,
    key: Seq<char>,
    value: Seq<char>,
) -> Seq<ItemView> {
    v.update(at, ItemView { attributes: assigned(v[at].attributes, key, value), ..v[at] })
}

/// The item reached from `i` by going to the parent `n` times.
pub open spec fn nth_ancestor(v: Seq<ItemView>, i: usize, n: nat) -> XmlItemRc
    decreases n,
{
    if n == 0 {
        if i < v.len() {
            Some(i)
        } else {
            None
        }
    } else {
        match nth_ancestor(v, i, (n - 1) as nat) {
            Some(a) => v[a as int].parent,
            None => None,
        }
    }
}

/// `a` is `i` itself or one of its ancestors.
pub open spec fn is_above(v: Seq<ItemView>, a: usize, i: usize) -> bool {
    exists|n: nat| nth_ancestor(v, i, n) == Some(a)
}

/// `node` may go under `parent`: both are items, and `node` is neither `parent`
/// itself nor one of its ancestors, so that no cycle can come of it.
pub open spec fn can_attach(v: Seq<ItemView>, parent: XmlItemRc, node: XmlItemRc) -> bool {
    holds(v, parent) && holds(v, node) && !is_above(v, node->0, parent->0)
}

/// The table `v` after the item at `c` left its parent, if it had one.
pub open spec fn detached(v: Seq<ItemView>, c: usize) -> Seq<ItemView> {
    match v[c as int].parent {
        None => v,
        Some(p) => {
            let nodes = v[p as int].nodes;
            let w = v.update(
                p as int,
                ItemView { nodes: nodes.remove(nodes.index_of(c)), ..v[p as int] },
            );
            w.update(c as int, ItemView { parent: None, ..w[c as int] })
        },
    }
}

/// The table `v` after the item at `c` became the last child of the item at
/// `p`.
pub open spec fn linked(v: Seq<ItemView>, p: usize, c: usize) -> Seq<ItemView> {
    let w = v.update(p as int, ItemView { nodes: v[p as int].nodes.push(c), ..v[p as int] });
    w.update(c as int, ItemView { parent: Some(p), ..w[c as int] })
}

/// The table `v` after the item at `c` left its parent, if it had one, and
/// became the last child of the item at `p`.
pub open spec fn attached(v: Seq<ItemView>, p: usize, c: usize) -> Seq<ItemView> {
    linked(detached(v, c), p, c)
}

/// The table `v` after `XmlItem::add_node` was asked to put `node` under
/// `parent`: as `attached` says where `node` may go there, else unchanged.
pub open spec fn added(v: Seq<ItemView>, parent: XmlItemRc, node: XmlItemRc) -> Seq<ItemView> {
    if can_attach(v, parent, node) {
        attached(v, parent->0, node->0)
    } else {
        v
    }
}

/// The parent of the item that `rc` names; no item where it has none, or
/// where `rc` names no item.
pub open spec fn parent_of(v: Seq<ItemView>, rc: XmlItemRc) -> XmlItemRc {
    if holds(v, rc) {
        v[rc->0 as int].parent
    } else {
        None
    }
}

/// The item `x` cut off from the tree: no parent and no children.
pub open spec fn orphan(x: ItemView) -> ItemView {
    ItemView { nodes: Seq::empty(), parent: None, ..x }
}

/// The table `v` after everything below the item at `at` was cut off: the
/// item has no children left, and each of its former descendants has neither
/// parent nor children. Whatever is not below `at` is as it was.
pub open spec fn cleared(v: Seq<ItemView>, at: usize) -> Seq<ItemView> {
    Seq::new(
        v.len(),
        |j: int|
            if j == at {
                ItemView { nodes: Seq::empty(), ..v[j] }
            } else if is_above(v, at, j as usize) {
                orphan(v[j])
            } else {
                v[j]
            },
    )
}

/// `j` is one of the first `k` children of the item at `at`, or lies below one
/// of them.
spec fn under_first(v: Seq<ItemView>, at: usize, k: int, j: usize) -> bool {
    exists|m: int|
        0 <= m < k && m < v[at as int].nodes.len() && is_above(
            v,
            #[trigger] v[at as int].nodes[m],
            j,
        )
}

/// The table `v` after everything below the first `k` children of the item at
/// `at` was cut off, the children themselves being still in their place.
spec fn cleared_some(v: Seq<ItemView>, at: usize, k: int) -> Seq<ItemView> {
    Seq::new(
        v.len(),
        |j: int|
            if under_first(v, at, k, j as usize) {
                if v[j].parent == Some(at) {
                    ItemView { nodes: Seq::empty(), ..v[j] }
                } else {
                    orphan(v[j])
                }
            } else {
                v[j]
            },
    )
}

/// The two directions of the tree agree: every child names as its parent the
/// item that lists it, every parent lists the item that names it, and no list
/// holds an item twice. Names are not empty and attribute names are unique.
pub open spec fn links_agree(v: Seq<ItemView>) -> bool {
    &&& v.len() <= usize::MAX
    &&& forall|i: int| 0 <= i < v.len() ==> (#[trigger] v[i]).name.len() > 0
    &&& forall|i: int| 0 <= i < v.len() ==> keys_unique((#[trigger] v[i]).attributes)
    &&& forall|i: int| 0 <= i < v.len() ==> (#[trigger] v[i]).nodes.no_duplicates()
    &&& forall|i: int, k: int|
        0 <= i < v.len() && 0 <= k < v[i].nodes.len() ==> {
            &&& (#[trigger] v[i].nodes[k]) < v.len()
            &&& v[v[i].nodes[k] as int].parent == Some(i as usize)
        }
    &&& forall|i: int|
        0 <= i < v.len() && (#[trigger] v[i]).parent is Some ==> {
            &&& v[i].parent->0 < v.len()
            &&& v[v[i].parent->0 as int].nodes.contains(i as usize)
        }
}

/// Where `key_index` points, and that nothing before that place has the name.
proof fn lemma_key_index(attrs: Seq<(Seq<char>, Seq<char>)>, key: Seq<char>, from: int)
    requires
        0 <= from <= attrs.len(),
    ensures
        from <= key_index(attrs, key, from) <= attrs.len(),
        key_index(attrs, key, from) < attrs.len() ==> attrs[key_index(attrs, key, from)].0 == key,
        forall|k: int| from <= k < key_index(attrs, key, from) ==> (#[trigger] attrs[k]).0 != key,
    decreases attrs.len() - from,
{
    if from < attrs.len() && attrs[from].0 != key {
        lemma_key_index(attrs, key, from + 1);
    }
}

/// A table keeps its agreement when nothing but attributes change in it and
/// their names stay unique.
proof fn lemma_same_shape(v: Seq<ItemView>, w: Seq<ItemView>)
    requires
        links_agree(v),
        v.len() == w.len(),
        forall|i: int|
            0 <= i < v.len() ==> {
                &&& (#[trigger] w[i]).name == v[i].name
                &&& w[i].nodes == v[i].nodes
                &&& w[i].parent == v[i].parent
                &&& keys_unique(w[i].attributes)
            },
    ensures
        links_agree(w),
{
    assert forall|i: int| 0 <= i < w.len() implies (#[trigger] w[i]).name.len() > 0 by {
        assert(v[i].name.len() > 0);
    }
    assert forall|i: int| 0 <= i < w.len() implies (#[trigger] w[i]).nodes.no_duplicates() by {
        assert(v[i].nodes.no_duplicates());
    }
    assert forall|i: int, k: int| 0 <= i < w.len() && 0 <= k < w[i].nodes.len() implies {
        &&& (#[trigger] w[i].nodes[k]) < w.len()
        &&& w[w[i].nodes[k] as int].parent == Some(i as usize)
    } by {
        assert(v[i].nodes[k] < v.len());
    }
    assert forall|i: int| 0 <= i < w.len() && (#[trigger] w[i]).parent is Some implies {
        &&& w[i].parent->0 < w.len()
        &&& w[w[i].parent->0 as int].nodes.contains(i as usize)
    } by {
        assert(v[i].parent is Some);
        assert(v[v[i].parent->0 as int].nodes.contains(i as usize));
    }
}

/// Going up `n` times and then `m` times is going up `n + m` times.
proof fn lemma_ancestor_sum(v: Seq<ItemView>, i: usize, n: nat, m: nat)
    requires
        links_agree(v),
        nth_ancestor(v, i, n) is Some,
    ensures
        nth_ancestor(v, i, n + m) == nth_ancestor(v, nth_ancestor(v, i, n)->0, m),
    decreases m,
{
    if m > 0 {
        lemma_ancestor_sum(v, i, n, (m - 1) as nat);
    } else {
        lemma_ancestor_in_table(v, i, n);
    }
}

/// Whatever is reached by going up lies in the table.
proof fn lemma_ancestor_in_table(v: Seq<ItemView>, i: usize, n: nat)
    requires
        links_agree(v),
        nth_ancestor(v, i, n) is Some,
    ensures
        nth_ancestor(v, i, n)->0 < v.len(),
        n > 0 ==> nth_ancestor(v, i, (n - 1) as nat) is Some,
    decreases n,
{
    if n > 0 {
        let below = nth_ancestor(v, i, (n - 1) as nat);
        lemma_ancestor_in_table(v, i, (n - 1) as nat);
        assert(v[below->0 as int].parent is Some);
    }
}

/// Only from an item of the table does going up lead anywhere.
pub(crate) proof fn lemma_start_in_table(v: Seq<ItemView>, i: usize, n: nat)
    requires
        nth_ancestor(v, i, n) is Some,
    ensures
        i < v.len(),
    decreases n,
{
    if n > 0 {
        lemma_start_in_table(v, i, (n - 1) as nat);
    }
}

/// A walk up a table is a walk up any table that has the same links and more.
proof fn lemma_fewer_links(v: Seq<ItemView>, w: Seq<ItemView>, j: usize, n: nat)
    requires
        links_agree(w),
        w.len() == v.len(),
        forall|x: int|
            0 <= x < w.len() ==> (#[trigger] w[x]).parent is None || w[x].parent == v[x].parent,
        nth_ancestor(w, j, n) is Some,
    ensures
        nth_ancestor(v, j, n) == nth_ancestor(w, j, n),
    decreases n,
{
    if n > 0 {
        lemma_ancestor_in_table(w, j, n);
        lemma_fewer_links(v, w, j, (n - 1) as nat);
        lemma_ancestor_in_table(w, j, (n - 1) as nat);
        let a = nth_ancestor(w, j, (n - 1) as nat)->0;
        assert(w[a as int].parent is Some);
    }
}

/// A walk up to `c` is the same, step by step, in any table that has the same
/// links at `c` and below it.
proof fn lemma_same_walk(
    v: Seq<ItemView>,
    w: Seq<ItemView>,
    c: usize,
    j: usize,
    n: nat,
    t: nat,
)
    requires
        links_agree(v),
        w.len() == v.len(),
        nth_ancestor(v, j, n) == Some(c),
        forall|x: usize|
            is_above(v, c, x) ==> (#[trigger] w[x as int]).parent == v[x as int].parent,
        t <= n,
    ensures
        nth_ancestor(w, j, t) == nth_ancestor(v, j, t),
    decreases t,
{
    if t > 0 {
        lemma_same_walk(v, w, c, j, n, (t - 1) as nat);
        lemma_prefix_is_some(v, j, n, (t - 1) as nat);
        let x = nth_ancestor(v, j, (t - 1) as nat)->0;
        lemma_ancestor_sum(v, j, (t - 1) as nat, (n - t + 1) as nat);
        assert(is_above(v, c, x));
    } else {
        lemma_start_in_table(v, j, n);
    }
}

/// A walk that leads somewhere leads somewhere at each step before.
proof fn lemma_prefix_is_some(v: Seq<ItemView>, j: usize, n: nat, t: nat)
    requires
        nth_ancestor(v, j, n) is Some,
        t <= n,
    ensures
        nth_ancestor(v, j, t) is Some,
    decreases n - t,
{
    if t < n {
        lemma_prefix_is_some(v, j, n, t + 1);
    }
}

/// Above an item without a parent there is nothing.
pub(crate) proof fn lemma_chain_ends(v: Seq<ItemView>, i: usize, n: nat, m: nat)
    requires
        n < m,
        nth_ancestor(v, i, n) matches Some(a) ==> v[a as int].parent is None,
    ensures
        nth_ancestor(v, i, m) is None,
    decreases m,
{
    if m > n + 1 {
        lemma_chain_ends(v, i, n, (m - 1) as nat);
    }
}

/// The parent of an item that is `i` or above `i` is above `i` too.
proof fn lemma_step_up(v: Seq<ItemView>, a: usize, i: usize)
    requires
        is_above(v, a, i),
        v[a as int].parent is Some,
    ensures
        is_above(v, v[a as int].parent->0, i),
{
    let n = choose|n: nat| nth_ancestor(v, i, n) == Some(a);
    assert(nth_ancestor(v, i, n + 1) == v[a as int].parent);
}

/// What is left of a list when one place is taken out of it.
proof fn lemma_remove_keeps(s: Seq<usize>, at: int)
    requires
        0 <= at < s.len(),
        s.no_duplicates(),
    ensures
        s.remove(at).len() == s.len() - 1,
        s.remove(at).no_duplicates(),
        !s.remove(at).contains(s[at]),
        forall|k: int| 0 <= k < s.remove(at).len() ==> s.contains(#[trigger] s.remove(at)[k]),
        forall|x: usize| s.contains(x) && x != s[at] ==> s.remove(at).contains(x),
{
    let r = s.remove(at);
    assert forall|k: int| 0 <= k < r.len() implies s.contains(#[trigger] r[k]) && r[k] != s[at] by {
        if k < at {
            assert(r[k] == s[k]);
        } else {
            assert(r[k] == s[k + 1]);
        }
    }
    assert forall|a: int, b: int| 0 <= a < r.len() && 0 <= b < r.len() && a != b implies r[a]
        != r[b] by {
        let a0 = if a < at { a } else { a + 1 };
        let b0 = if b < at { b } else { b + 1 };
        assert(r[a] == s[a0] && r[b] == s[b0]);
    }
    assert forall|x: usize| s.contains(x) && x != s[at] implies r.contains(x) by {
        let j = choose|j: int| 0 <= j < s.len() && s[j] == x;
        if j < at {
            assert(r[j] == x);
        } else {
            assert(r[j - 1] == x);
        }
    }
}

/// An item that leaves its parent leaves the table in agreement.
proof fn lemma_detached_agrees(v: Seq<ItemView>, c: usize)
    requires
        links_agree(v),
        c < v.len(),
        v[c as int].parent != Some(c),
    ensures
        links_agree(detached(v, c)),
        detached(v, c).len() == v.len(),
        detached(v, c)[c as int].parent is None,
        detached(v, c)[c as int].nodes == v[c as int].nodes,
        forall|i: int, k: int|
            0 <= i < v.len() && 0 <= k < detached(v, c)[i].nodes.len() ==> v[i].nodes.contains(
                #[trigger] detached(v, c)[i].nodes[k],
            ),
        forall|i: int| 0 <= i < v.len() ==> !(#[trigger] detached(v, c)[i]).nodes.contains(c),
{
    let w = detached(v, c);
    match v[c as int].parent {
        None => {
            assert forall|i: int| 0 <= i < v.len() implies !(#[trigger] w[i]).nodes.contains(c) by {
                if v[i].nodes.contains(c) {
                    let k = choose|k: int| 0 <= k < v[i].nodes.len() && v[i].nodes[k] == c;
                    assert(v[v[i].nodes[k] as int].parent == Some(i as usize));
                }
            }
        },
        Some(p) => {
            let nodes = v[p as int].nodes;
            assert(nodes.contains(c));
            let at = nodes.index_of(c);
            lemma_remove_keeps(nodes, at);
            assert(w[p as int].nodes == nodes.remove(at));
            assert forall|i: int| 0 <= i < w.len() implies (#[trigger] w[i]).name.len() > 0 by {
                assert(v[i].name.len() > 0);
            }
            assert forall|i: int| 0 <= i < w.len() implies keys_unique(
                (#[trigger] w[i]).attributes,
            ) by {
                assert(keys_unique(v[i].attributes));
            }
            assert forall|i: int| 0 <= i < w.len() implies (
            #[trigger] w[i]).nodes.no_duplicates() by {
                assert(v[i].nodes.no_duplicates());
            }
            assert forall|i: int, k: int|
                0 <= i < v.len() && 0 <= k < w[i].nodes.len() implies v[i].nodes.contains(
                #[trigger] w[i].nodes[k],
            ) by {
                if i != p {
                    assert(w[i].nodes == v[i].nodes);
                }
            }
            assert forall|i: int| 0 <= i < v.len() implies !(#[trigger] w[i]).nodes.contains(c) by {
                if i != p && v[i].nodes.contains(c) {
                    let k = choose|k: int| 0 <= k < v[i].nodes.len() && v[i].nodes[k] == c;
                    assert(v[v[i].nodes[k] as int].parent == Some(i as usize));
                }
            }
            assert forall|i: int, k: int| 0 <= i < w.len() && 0 <= k < w[i].nodes.len() implies {
                &&& (#[trigger] w[i].nodes[k]) < w.len()
                &&& w[w[i].nodes[k] as int].parent == Some(i as usize)
            } by {
                let y = w[i].nodes[k];
                assert(v[i].nodes.contains(y));
                let k0 = choose|k0: int| 0 <= k0 < v[i].nodes.len() && v[i].nodes[k0] == y;
                assert(v[i].nodes[k0] < v.len());
                assert(v[v[i].nodes[k0] as int].parent == Some(i as usize));
                assert(w[i].nodes.contains(y));
            }
            assert forall|i: int| 0 <= i < w.len() && (#[trigger] w[i]).parent is Some implies {
                &&& w[i].parent->0 < w.len()
                &&& w[w[i].parent->0 as int].nodes.contains(i as usize)
            } by {
                assert(i != c);
                assert(v[i].parent is Some);
                let q = v[i].parent->0;
                assert(v[q as int].nodes.contains(i as usize));
                if q == p {
                    assert(nodes[at] == c);
                }
            }
        },
    }
}

/// An item without a parent that goes under another leaves the table in
/// agreement.
proof fn lemma_linked_agrees(v: Seq<ItemView>, p: usize, c: usize)
    requires
        links_agree(v),
        p < v.len(),
        c < v.len(),
        p != c,
        v[c as int].parent is None,
    ensures
        links_agree(linked(v, p, c)),
{
    let w = linked(v, p, c);
    let pi = p as int;
    assert(!v[pi].nodes.contains(c)) by {
        if v[pi].nodes.contains(c) {
            let k = choose|k: int| 0 <= k < v[pi].nodes.len() && v[pi].nodes[k] == c;
            assert(v[v[pi].nodes[k] as int].parent == Some(p));
        }
    }
    assert forall|i: int| 0 <= i < w.len() implies (#[trigger] w[i]).name.len() > 0 by {
        assert(v[i].name.len() > 0);
    }
    assert forall|i: int| 0 <= i < w.len() implies keys_unique((#[trigger] w[i]).attributes) by {
        assert(keys_unique(v[i].attributes));
    }
    assert forall|i: int| 0 <= i < w.len() implies (#[trigger] w[i]).nodes.no_duplicates() by {
        assert(v[i].nodes.no_duplicates());
    }
    assert forall|i: int, k: int| 0 <= i < w.len() && 0 <= k < w[i].nodes.len() implies {
        &&& (#[trigger] w[i].nodes[k]) < w.len()
        &&& w[w[i].nodes[k] as int].parent == Some(i as usize)
    } by {
        if i == pi && k == v[pi].nodes.len() {
        } else {
            assert(v[i].nodes[k] < v.len());
            assert(v[v[i].nodes[k] as int].parent == Some(i as usize));
        }
    }
    assert forall|i: int| 0 <= i < w.len() && (#[trigger] w[i]).parent is Some implies {
        &&& w[i].parent->0 < w.len()
        &&& w[w[i].parent->0 as int].nodes.contains(i as usize)
    } by {
        if i == c {
            assert(w[pi].nodes[v[pi].nodes.len() as int] == c);
        } else {
            assert(v[i].parent is Some);
            let q = v[i].parent->0;
            assert(v[q as int].nodes.contains(i as usize));
            let k = choose|k: int|
                0 <= k < v[q as int].nodes.len() && v[q as int].nodes[k] == i as usize;
            assert(w[q as int].nodes[k] == i as usize);
        }
    }
}

/// The text of the attributes grows by the text of each new attribute.
proof fn lemma_attributes_text_push(
    attrs: Seq<(Seq<char>, Seq<char>)>,
    key: Seq<char>,
    value: Seq<char>,
)
    ensures
        attributes_text(attrs.push((key, value))) == attributes_text(attrs) + attribute_text(
            key,
            value,
        ),
    decreases attrs.len(),
{
    let more = attrs.push((key, value));
    if attrs.len() == 0 {
        reveal_with_fuel(attributes_text, 2);
        assert(more.drop_first() =~= Seq::empty());
        assert(attributes_text(more) =~= attribute_text(key, value));
    } else {
        lemma_attributes_text_push(attrs.drop_first(), key, value);
        assert(more.drop_first() =~= attrs.drop_first().push((key, value)));
        assert(attributes_text(more) =~= attributes_text(attrs) + attribute_text(key, value));
    }
}

/// Appends the characters of `s` to `out`.
fn push_chars(out: &mut String, s: &[char])
    ensures
        final(out)@ == old(out)@ + s@,
{
    let ghost start = out@;
    let mut i: usize = 0;
    while i < s.len()
        invariant
            i <= s.len(),
            out@ == start + s@.take(i as int),
        decreases s.len() - i,
    {
        out.push(s[i]);
        assert(s@.take(i as int).push(s@[i as int]) =~= s@.take(i + 1));
        assert(out@ =~= start + s@.take(i + 1));
        i += 1;
    }
    assert(s@.take(i as int) =~= s@);
}

/// Appends an attribute's value to `out` as it is written between its
/// quotes.
fn push_escaped(out: &mut String, value: &[char])
    ensures
        final(out)@ == old(out)@ + escaped(value@),
{
    let ghost start = out@;
    let mut i: usize = 0;
    while i < value.len()
        invariant
            i <= value.len(),
            out@ == start + escaped(value@.take(i as int)),
        decreases value.len() - i,
    {
        let ghost seen = out@;
        if value[i] == '"' && (i == 0 || value[i - 1] != '\\') {
            out.push('\\');
            out.push('"');
        } else {
            out.push(value[i]);
        }
        proof {
            let next = value@.take(i + 1);
            assert(next.drop_last() =~= value@.take(i as int));
            assert(escaped_at(next, i as int) == escaped_at(value@, i as int));
            assert(out@ =~= seen + escaped_at(value@, i as int));
            assert(out@ =~= start + escaped(next));
        }
        i += 1;
    }
    assert(value@.take(i as int) =~= value@);
}

impl XmlDom {
    /// A number that is larger at every parent than at each of its children.
    /// Nothing else is known of it: it only shows that the tree has no cycle.
    pub closed spec fn height_of(&self, i: int) -> nat {
        if 0 <= i < self.heights@.len() {
            self.heights@[i]
        } else {
            0
        }
    }

    /// A number that no height exceeds.
    pub closed spec fn ceiling(&self) -> nat {
        self.ceiling@
    }

    /// The table is a forest: the links agree and there is no cycle.
    pub open spec fn wf(&self) -> bool {
        &&& links_agree(self@)
        &&& forall|i: int| 0 <= i < self@.len() ==> #[trigger] self.height_of(i) <= self.ceiling()
        &&& forall|i: int, k: int|
            0 <= i < self@.len() && 0 <= k < self@[i].nodes.len() ==> self.height_of(
                #[trigger] self@[i].nodes[k] as int,
            ) < self.height_of(i)
    }

    /// The item at `at` with everything below it, as a value.
    pub open spec fn element(&self, at: usize) -> Element
        decreases self.height_of(at as int),
    {
        let item = self@[at as int];
        Element {
            name: item.name,
            attributes: item.attributes,
            children: Seq::new(
                item.nodes.len(),
                |k: int|
                    if self.wf() && at < self@.len() && 0 <= k < item.nodes.len() {
                        self.element(item.nodes[k])
                    } else {
                        Element {
                            name: Seq::empty(),
                            attributes: Seq::empty(),
                            children: Seq::empty(),
                        }
                    },
            ),
        }
    }

    /// Going up never goes down: each step reaches a greater height.
    proof fn lemma_height_rises(&self, i: usize, n: nat)
        requires
            self.wf(),
            nth_ancestor(self@, i, n) is Some,
        ensures
            self.height_of(nth_ancestor(self@, i, n)->0 as int) >= self.height_of(i as int) + n,
        decreases n,
    {
        let v = self@;
        if n > 0 {
            lemma_ancestor_in_table(v, i, n);
            let below = nth_ancestor(v, i, (n - 1) as nat)->0;
            let a = nth_ancestor(v, i, n)->0;
            self.lemma_height_rises(i, (n - 1) as nat);
            lemma_ancestor_in_table(v, i, (n - 1) as nat);
            assert(v[below as int].parent == Some(a));
            assert(v[a as int].nodes.contains(below));
            let k = choose|k: int|
                0 <= k < v[a as int].nodes.len() && v[a as int].nodes[k] == below;
            assert(self.height_of(v[a as int].nodes[k] as int) < self.height_of(a as int));
        }
    }

    /// No item lies below two children of one parent.
    proof fn lemma_branches_apart(&self, at: usize, m1: int, m2: int, j: usize)
        requires
            self.wf(),
            at < self@.len(),
            0 <= m1 < self@[at as int].nodes.len(),
            0 <= m2 < self@[at as int].nodes.len(),
            is_above(self@, self@[at as int].nodes[m1], j),
            is_above(self@, self@[at as int].nodes[m2], j),
        ensures
            m1 == m2,
    {
        let v = self@;
        let c1 = v[at as int].nodes[m1];
        let c2 = v[at as int].nodes[m2];
        let n1 = choose|n: nat| nth_ancestor(v, j, n) == Some(c1);
        let n2 = choose|n: nat| nth_ancestor(v, j, n) == Some(c2);
        assert(v[c1 as int].parent == Some(at));
        assert(v[c2 as int].parent == Some(at));
        assert(self.height_of(v[at as int].nodes[m1] as int) < self.height_of(at as int));
        assert(self.height_of(v[at as int].nodes[m2] as int) < self.height_of(at as int));
        if n1 < n2 {
            assert(nth_ancestor(v, j, n1 + 1) == Some(at));
            lemma_ancestor_sum(v, j, n1 + 1, (n2 - n1 - 1) as nat);
            self.lemma_height_rises(at, (n2 - n1 - 1) as nat);
        } else if n2 < n1 {
            assert(nth_ancestor(v, j, n2 + 1) == Some(at));
            lemma_ancestor_sum(v, j, n2 + 1, (n1 - n2 - 1) as nat);
            self.lemma_height_rises(at, (n1 - n2 - 1) as nat);
        }
    }

    /// What lies below an item lies below one of its children.
    proof fn lemma_below_a_child(&self, at: usize, j: usize)
        requires
            self.wf(),
            at < self@.len(),
            is_above(self@, at, j),
            j != at,
        ensures
            under_first(self@, at, self@[at as int].nodes.len() as int, j),
    {
        let v = self@;
        let n = choose|n: nat| nth_ancestor(v, j, n) == Some(at);
        lemma_ancestor_in_table(v, j, n);
        let below = nth_ancestor(v, j, (n - 1) as nat)->0;
        lemma_ancestor_in_table(v, j, (n - 1) as nat);
        assert(v[below as int].parent == Some(at));
        assert(v[at as int].nodes.contains(below));
        let m = choose|m: int| 0 <= m < v[at as int].nodes.len() && v[at as int].nodes[m] == below;
        assert(is_above(v, v[at as int].nodes[m], j));
    }

    /// What lies below a child of an item lies below the item, and is not the
    /// item.
    proof fn lemma_child_is_below(&self, at: usize, m: int, j: usize)
        requires
            self.wf(),
            at < self@.len(),
            0 <= m < self@[at as int].nodes.len(),
            is_above(self@, self@[at as int].nodes[m], j),
        ensures
            is_above(self@, at, j),
            j != at,
            j < self@.len(),
    {
        let v = self@;
        let c = v[at as int].nodes[m];
        assert(v[c as int].parent == Some(at));
        lemma_step_up(v, c, j);
        let n = choose|n: nat| nth_ancestor(v, j, n) == Some(c);
        self.lemma_height_rises(j, n);
        assert(self.height_of(v[at as int].nodes[m] as int) < self.height_of(at as int));
        lemma_start_in_table(v, j, n);
    }

    /// Cutting off what is below one more child takes the table from the
    /// state after `k` children to the state after `k + 1`.
    proof fn lemma_clear_step(&self, at: usize, k: int)
        requires
            self.wf(),
            at < self@.len(),
            0 <= k < self@[at as int].nodes.len(),
            links_agree(cleared_some(self@, at, k)),
        ensures
            cleared(cleared_some(self@, at, k), self@[at as int].nodes[k]) == cleared_some(
                self@,
                at,
                k + 1,
            ),
    {
        let v = self@;
        let s = cleared_some(v, at, k);
        let c = v[at as int].nodes[k];
        let t = cleared(s, c);
        let u = cleared_some(v, at, k + 1);
        assert(c < v.len());
        assert(v[c as int].parent == Some(at));
        assert forall|x: usize| is_above(v, c, x) implies (#[trigger] s[x as int])
            == v[x as int] by {
            let n = choose|n: nat| nth_ancestor(v, x, n) == Some(c);
            lemma_start_in_table(v, x, n);
            if under_first(v, at, k, x) {
                let m = choose|m: int|
                    0 <= m < k && m < v[at as int].nodes.len() && is_above(
                        v,
                        #[trigger] v[at as int].nodes[m],
                        x,
                    );
                self.lemma_branches_apart(at, m, k, x);
            }
        }
        assert forall|j: int| 0 <= j < v.len() implies #[trigger] t[j] == u[j] by {
            let ju = j as usize;
            if is_above(s, c, ju) {
                let n = choose|n: nat| nth_ancestor(s, ju, n) == Some(c);
                lemma_fewer_links(v, s, ju, n);
                assert(is_above(v, c, ju));
            }
            if is_above(v, c, ju) {
                let n = choose|n: nat| nth_ancestor(v, ju, n) == Some(c);
                lemma_same_walk(v, s, c, ju, n, n);
                assert(is_above(s, c, ju));
                assert(under_first(v, at, k + 1, ju));
                assert(s[j] == v[j]);
                if ju != c && v[j].parent == Some(at) {
                    assert(v[at as int].nodes.contains(ju));
                    let m = choose|m: int|
                        0 <= m < v[at as int].nodes.len() && v[at as int].nodes[m] == ju;
                    assert(nth_ancestor(v, ju, 0) == Some(ju));
                    assert(is_above(v, v[at as int].nodes[m], ju));
                    self.lemma_branches_apart(at, m, k, ju);
                }
            } else {
                assert(nth_ancestor(v, c, 0) == Some(c));
                if under_first(v, at, k + 1, ju) {
                    let m = choose|m: int|
                        0 <= m < k + 1 && m < v[at as int].nodes.len() && is_above(
                            v,
                            #[trigger] v[at as int].nodes[m],
                            ju,
                        );
                    assert(m < k);
                    assert(under_first(v, at, k, ju));
                }
                if under_first(v, at, k, ju) {
                    let m = choose|m: int|
                        0 <= m < k && m < v[at as int].nodes.len() && is_above(
                            v,
                            #[trigger] v[at as int].nodes[m],
                            ju,
                        );
                    assert(under_first(v, at, k + 1, ju));
                }
            }
        }
        assert(t =~= u);
    }

    /// An item that lies below `at`, and the item that it names as its parent.
    proof fn lemma_parent_between(&self, at: usize, y: usize)
        requires
            self.wf(),
            is_above(self@, at, y),
            y != at,
        ensures
            self@[y as int].parent is Some,
            is_above(self@, at, self@[y as int].parent->0),
    {
        let v = self@;
        let n = choose|n: nat| nth_ancestor(v, y, n) == Some(at);
        lemma_start_in_table(v, y, n);
        assert(nth_ancestor(v, y, 0) == Some(y));
        lemma_prefix_is_some(v, y, n, 1);
        assert(nth_ancestor(v, y, 1) == v[y as int].parent);
        lemma_ancestor_sum(v, y, 1, (n - 1) as nat);
    }

    /// The child of an item that is `at` or lies below it lies below `at`.
    proof fn lemma_child_below(&self, at: usize, q: usize, i: usize)
        requires
            self.wf(),
            i < self@.len(),
            is_above(self@, at, q),
            self@[i as int].parent == Some(q),
        ensures
            is_above(self@, at, i),
            i != at,
    {
        let v = self@;
        let n = choose|n: nat| nth_ancestor(v, q, n) == Some(at);
        assert(nth_ancestor(v, i, 0) == Some(i));
        assert(nth_ancestor(v, i, 1) == Some(q));
        lemma_ancestor_sum(v, i, 1, n);
        assert(nth_ancestor(v, i, 1 + n) == Some(at));
        self.lemma_height_rises(i, 1 + n);
    }

    /// A table in which everything below one item was cut off is in agreement.
    pub(crate) proof fn lemma_cleared_agrees(&self, at: usize)
        requires
            self.wf(),
            at < self@.len(),
        ensures
            links_agree(cleared(self@, at)),
            forall|i: int, k: int|
                0 <= i < self@.len() && 0 <= k < cleared(self@, at)[i].nodes.len() ==> self.height_of(
                    #[trigger] cleared(self@, at)[i].nodes[k] as int,
                ) < self.height_of(i),
    {
        let v = self@;
        let w = cleared(v, at);
        assert forall|i: int| 0 <= i < w.len() implies (#[trigger] w[i]).name.len() > 0 by {
            assert(v[i].name.len() > 0);
        }
        assert forall|i: int| 0 <= i < w.len() implies keys_unique(
            (#[trigger] w[i]).attributes,
        ) by {
            assert(keys_unique(v[i].attributes));
        }
        assert forall|i: int| 0 <= i < w.len() implies (#[trigger] w[i]).nodes.no_duplicates() by {
            assert(v[i].nodes.no_duplicates());
        }
        assert forall|i: int, k: int| 0 <= i < w.len() && 0 <= k < w[i].nodes.len() implies {
            &&& (#[trigger] w[i].nodes[k]) < w.len()
            &&& w[w[i].nodes[k] as int].parent == Some(i as usize)
            &&& self.height_of(w[i].nodes[k] as int) < self.height_of(i)
        } by {
            assert(w[i] == v[i]);
            let y = v[i].nodes[k];
            assert(y < v.len());
            assert(v[y as int].parent == Some(i as usize));
            assert(self.height_of(v[i].nodes[k] as int) < self.height_of(i));
            if y != at && is_above(v, at, y) {
                self.lemma_parent_between(at, y);
            }
        }
        assert forall|i: int| 0 <= i < w.len() && (#[trigger] w[i]).parent is Some implies {
            &&& w[i].parent->0 < w.len()
            &&& w[w[i].parent->0 as int].nodes.contains(i as usize)
        } by {
            assert(nth_ancestor(v, at, 0) == Some(at));
            assert(is_above(v, at, at));
            assert(w[i].parent == v[i].parent);
            let q = v[i].parent->0;
            assert(q < v.len());
            assert(v[q as int].nodes.contains(i as usize));
            if is_above(v, at, q) {
                self.lemma_child_below(at, q, i as usize);
                assert(false);
            }
            assert(q != at);
            assert(w[q as int] == v[q as int]);
        }
    }

    /// The places of the item at `at` and of everything below it.
    spec fn below(&self, at: usize) -> Set<int> {
        Set::new(|j: int| 0 <= j < self@.len() && is_above(self@, at, j as usize))
    }

    /// The places of the item at `at`, of its first `k` children and of
    /// everything below these.
    spec fn below_first(&self, at: usize, k: int) -> Set<int> {
        Set::new(
            |j: int| 0 <= j < self@.len() && (j == at || under_first(self@, at, k, j as usize)),
        )
    }

    /// The item at `at` and its first `k` children stand, with everything
    /// below these, at as many places as the trees of those children hold
    /// elements, and one more.
    proof fn lemma_count_some(&self, at: usize, k: int)
        requires
            self.wf(),
            at < self@.len(),
            0 <= k <= self@[at as int].nodes.len(),
        ensures
            self.below_first(at, k).finite(),
            self.below_first(at, k).len() == 1 + count_all(self.element(at).children.take(k)),
        decreases self.height_of(at as int), k,
    {
        let v = self@;
        let now = self.below_first(at, k);
        let kids = self.element(at).children;
        if k == 0 {
            assert(now =~= set![at as int]);
            assert(kids.take(0) =~= Seq::<Element>::empty());
        } else {
            let c = v[at as int].nodes[k - 1];
            let before = self.below_first(at, k - 1);
            assert(c < v.len());
            assert(self.height_of(v[at as int].nodes[k - 1] as int) < self.height_of(at as int));
            self.lemma_count_some(at, k - 1);
            self.lemma_count(c);
            let under = self.below(c);
            assert forall|j: int| now.contains(j) <==> before.contains(j) || under.contains(j) by {
                let ju = j as usize;
                if under.contains(j) {
                    assert(is_above(v, v[at as int].nodes[k - 1], ju));
                }
                if now.contains(j) && j != at {
                    let m = choose|m: int|
                        0 <= m < k && m < v[at as int].nodes.len() && is_above(
                            v,
                            #[trigger] v[at as int].nodes[m],
                            ju,
                        );
                    if m < k - 1 {
                        assert(under_first(v, at, k - 1, ju));
                    }
                }
                if before.contains(j) && j != at {
                    let m = choose|m: int|
                        0 <= m < k - 1 && m < v[at as int].nodes.len() && is_above(
                            v,
                            #[trigger] v[at as int].nodes[m],
                            ju,
                        );
                    assert(under_first(v, at, k, ju));
                }
            }
            assert(now =~= before + under);
            assert(before.disjoint(under)) by {
                assert forall|j: int| before.contains(j) implies !under.contains(j) by {
                    let ju = j as usize;
                    if under.contains(j) {
                        self.lemma_child_is_below(at, k - 1, ju);
                        let m = choose|m: int|
                            0 <= m < k - 1 && m < v[at as int].nodes.len() && is_above(
                                v,
                                #[trigger] v[at as int].nodes[m],
                                ju,
                            );
                        self.lemma_branches_apart(at, m, k - 1, ju);
                    }
                }
            }
            lemma_set_disjoint_lens(before, under);
            assert(kids.take(k).drop_last() =~= kids.take(k - 1));
            assert(kids.take(k).last() == self.element(c));
        }
    }

    /// The item at `at` stands, with everything below it, at as many places
    /// as its tree holds elements.
    proof fn lemma_count(&self, at: usize)
        requires
            self.wf(),
            at < self@.len(),
        ensures
            self.below(at).finite(),
            self.below(at).len() == count(self.element(at)),
        decreases self.height_of(at as int), self@[at as int].nodes.len() + 1,
    {
        let v = self@;
        let n = v[at as int].nodes.len() as int;
        self.lemma_count_some(at, n);
        let kids = self.element(at).children;
        assert(kids.take(n) =~= kids);
        assert forall|j: int| self.below(at).contains(j) <==> self.below_first(at, n).contains(
            j,
        ) by {
            let ju = j as usize;
            assert(nth_ancestor(v, at, 0) == Some(at));
            if self.below(at).contains(j) && j != at {
                self.lemma_below_a_child(at, ju);
            }
            if self.below_first(at, n).contains(j) && j != at {
                let m = choose|m: int|
                    0 <= m < n && m < v[at as int].nodes.len() && is_above(
                        v,
                        #[trigger] v[at as int].nodes[m],
                        ju,
                    );
                self.lemma_child_is_below(at, m, ju);
            }
        }
        assert(self.below(at) =~= self.below_first(at, n));
    }

    /// The tree below an item holds no more elements than the document holds
    /// items.
    pub proof fn lemma_count_fits(&self, at: usize)
        requires
            self.wf(),
            at < self@.len(),
        ensures
            count(self.element(at)) <= self@.len() <= usize::MAX,
    {
        self.lemma_count(at);
        let all = set_int_range(0, self@.len() as int);
        lemma_int_range(0, self@.len() as int);
        assert(self.below(at).subset_of(all));
        lemma_len_subset(self.below(at), all);
    }

    /// A document without items.
    pub fn empty() -> (dom: XmlDom)
        ensures
            dom.wf(),
            dom@.len() == 0,
    {
        XmlDom { items: Vec::new(), heights: Ghost(Seq::empty()), ceiling: Ghost(0) }
    }

    /// The number of items that the document holds, attached or not.
    pub fn len(&self) -> (n: usize)
        ensures
            n == self@.len(),
    {
        self.items.len()
    }
}

impl XmlItem {
    /// Puts a new item into the document: no parent, no children, no
    /// attributes. An empty name is refused, and the document stays as it was.
    pub fn new(dom: &mut XmlDom, name: String) -> (r: Result<XmlItemRc, XmlError>)
        requires
            old(dom).wf(),
        ensures
            final(dom).wf(),
            name@.len() == 0 ==> r == Err::<XmlItemRc, XmlError>(XmlError::InvalidName),
            name@.len() == 0 ==> final(dom)@ == old(dom)@,
            name@.len() > 0 ==> r == Ok::<XmlItemRc, XmlError>(Some(old(dom)@.len() as usize)),
            name@.len() > 0 ==> final(dom)@ == old(dom)@.push(fresh(name@)),
    {
        if name.as_str().unicode_len() == 0 {
            return Err(XmlError::InvalidName);
        }
        let at = dom.items.len();
        let ghost before = *dom;
        dom.items.push(XmlItem { name, attributes: Vec::new(), nodes: Vec::new(), parent: None });
        proof {
            dom.heights@ = Seq::new(
                dom.items@.len(),
                |j: int|
                    if j < before@.len() {
                        before.height_of(j)
                    } else {
                        0
                    },
            );
            let item = dom.items@[at as int];
            assert(item@.attributes =~= Seq::empty());
            assert(dom@ =~= before@.push(fresh(name@)));
            assert forall|i: int| 0 <= i < dom@.len() implies #[trigger] dom.height_of(i)
                <= dom.ceiling() by {
                if i < before@.len() {
                    assert(before.height_of(i) <= before.ceiling());
                }
            }
            assert forall|i: int, k: int|
                0 <= i < dom@.len() && 0 <= k < dom@[i].nodes.len() implies dom.height_of(
                #[trigger] dom@[i].nodes[k] as int,
            ) < dom.height_of(i) by {
                assert(before@[i].nodes[k] < before@.len());
            }
            assert(links_agree(dom@)) by {
                assert(dom.items@.len() == dom.items.len());
                assert forall|i: int|
                    0 <= i < dom@.len() && (#[trigger] dom@[i]).parent is Some implies {
                    &&& dom@[i].parent->0 < dom@.len()
                    &&& dom@[dom@[i].parent->0 as int].nodes.contains(i as usize)
                } by {
                    assert(before@[i].parent->0 < before@.len());
                }
                assert forall|i: int, k: int|
                    0 <= i < dom@.len() && 0 <= k < dom@[i].nodes.len() implies {
                    &&& (#[trigger] dom@[i].nodes[k]) < dom@.len()
                    &&& dom@[dom@[i].nodes[k] as int].parent == Some(i as usize)
                } by {
                    assert(before@[i].nodes[k] < before@.len());
                }
            }
        }
        Ok(Some(at))
    }

    /// Makes `node` the last child of `parent` and `parent` the parent of
    /// `node`, so that both know each other, and hands `node` back. A node
    /// that had another parent leaves it first. Nothing happens where either
    /// names no item, or where `node` is `parent` itself or one of its
    /// ancestors.
    pub fn add_node(dom: &mut XmlDom, parent: XmlItemRc, node: XmlItemRc) -> (r: XmlItemRc)
        requires
            old(dom).wf(),
        ensures
            r == node,
            final(dom).wf(),
            final(dom)@ == added(old(dom)@, parent, node),
    {
        let (p, c) = match (parent, node) {
            (Some(p), Some(c)) => (p, c),
            _ => { return node; },
        };
        if p >= dom.items.len() || c >= dom.items.len() {
            return node;
        }
        let ghost before = *dom;
        let ghost v = before@;
        let mut cur = p;
        let ghost mut steps: nat = 0;
        while cur != c && dom.items[cur].parent.is_some()
            invariant
                *dom == before,
                before.wf(),
                v == before@,
                cur < v.len(),
                c < v.len(),
                nth_ancestor(v, p, steps) == Some(cur),
                forall|m: nat| m < steps ==> nth_ancestor(v, p, m) != Some(c),
            decreases before.ceiling() - before.height_of(cur as int),
        {
            let up = dom.items[cur].parent.unwrap();
            proof {
                assert(v[cur as int].parent == Some(up));
                assert(v[up as int].nodes.contains(cur));
                let k = choose|k: int|
                    0 <= k < v[up as int].nodes.len() && v[up as int].nodes[k] == cur;
                assert(before.height_of(v[up as int].nodes[k] as int) < before.height_of(
                    up as int,
                ));
                assert(before.height_of(up as int) <= before.ceiling());
                steps = steps + 1;
            }
            cur = up;
        }
        if cur == c {
            assert(is_above(v, c, p));
            return node;
        }
        proof {
            assert forall|m: nat| nth_ancestor(v, p, m) != Some(c) by {
                if m > steps {
                    lemma_chain_ends(v, p, steps, m);
                }
            }
            assert(!is_above(v, c, p));
            assert(nth_ancestor(v, p, 0) == Some(p));
            lemma_detached_agrees(v, c);
            lemma_linked_agrees(detached(v, c), p, c);
        }
        if let Some(from) = dom.items[c].parent {
            let ghost list = v[from as int].nodes;
            assert(list.contains(c));
            let n = dom.items[from].nodes.len();
            let mut k: usize = 0;
            while dom.items[from].nodes[k] != c
                invariant
                    *dom == before,
                    n == list.len(),
                    v == before@,
                    from < v.len(),
                    list == v[from as int].nodes,
                    list.contains(c),
                    k < list.len(),
                    forall|j: int| 0 <= j < k ==> list[j] != c,
                decreases list.len() - k,
            {
                proof {
                    let at = choose|j: int| 0 <= j < list.len() && list[j] == c;
                    assert(k < at);
                }
                k += 1;
            }
            assert(list.index_of(c) == k);
            dom.items[from].nodes.remove(k);
            dom.items[c].parent = None;
        }
        assert(dom@ =~= detached(v, c));
        dom.items[p].nodes.push(c);
        dom.items[c].parent = Some(p);
        proof {
            let w = attached(v, p, c);
            assert(dom@ =~= w);
            let lift = before.height_of(c as int) + 1;
            dom.heights@ = Seq::new(
                v.len(),
                |j: int|
                    if is_above(v, j as usize, p) {
                        before.height_of(j) + lift
                    } else {
                        before.height_of(j)
                    },
            );
            dom.ceiling@ = before.ceiling() + lift;
            assert forall|i: int| 0 <= i < w.len() implies #[trigger] dom.height_of(i)
                <= dom.ceiling() by {
                assert(before.height_of(i) <= before.ceiling());
            }
            assert forall|i: int, k: int| 0 <= i < w.len() && 0 <= k < w[i].nodes.len() implies dom.height_of(
                #[trigger] w[i].nodes[k] as int,
            ) < dom.height_of(i) by {
                let y = w[i].nodes[k];
                if i == p && k == w[i].nodes.len() - 1 {
                    assert(y == c);
                } else {
                    let d = detached(v, c);
                    assert(d[i].nodes[k] == y);
                    assert(v[i].nodes.contains(y));
                    let k0 = choose|k0: int| 0 <= k0 < v[i].nodes.len() && v[i].nodes[k0] == y;
                    assert(before.height_of(v[i].nodes[k0] as int) < before.height_of(i));
                    assert(v[v[i].nodes[k0] as int].parent == Some(i as usize));
                    if is_above(v, y, p) {
                        lemma_step_up(v, y, p);
                    }
                }
            }
        }
        node
    }

    /// Cuts off everything below the item at `at`: the item is left without
    /// children, and each of its former descendants without parent and
    /// without children.
    fn delete_nodes(dom: &mut XmlDom, at: usize)
        requires
            old(dom).wf(),
            at < old(dom)@.len(),
        ensures
            final(dom).wf(),
            final(dom)@ == cleared(old(dom)@, at),
            final(dom).ceiling() == old(dom).ceiling(),
            forall|j: int| final(dom).height_of(j) == old(dom).height_of(j),
        decreases old(dom).height_of(at as int),
    {
        let ghost before = *dom;
        let ghost v = before@;
        let ghost list = v[at as int].nodes;
        let n = dom.items[at].nodes.len();
        assert(cleared_some(v, at, 0) =~= v);
        let mut k: usize = 0;
        while k < n
            invariant
                before == *old(dom),
                before.wf(),
                v == before@,
                list == v[at as int].nodes,
                at < v.len(),
                n == list.len(),
                k <= n,
                dom.wf(),
                dom@ == cleared_some(v, at, k as int),
                dom.ceiling() == before.ceiling(),
                forall|j: int| dom.height_of(j) == before.height_of(j),
            decreases n - k,
        {
            proof {
                if under_first(v, at, k as int, at) {
                    let m = choose|m: int|
                        0 <= m < k && m < list.len() && is_above(v, #[trigger] list[m], at);
                    before.lemma_child_is_below(at, m, at);
                }
                assert(dom@[at as int] == v[at as int]);
                assert(list[k as int] < v.len());
                assert(before.height_of(list[k as int] as int) < before.height_of(at as int));
            }
            let c = dom.items[at].nodes[k];
            assert(c == list[k as int]);
            assert(dom.height_of(c as int) < before.height_of(at as int));
            Self::delete_nodes(dom, c);
            proof {
                before.lemma_clear_step(at, k as int);
            }
            k += 1;
        }
        let ghost middle = dom@;
        proof {
            if under_first(v, at, n as int, at) {
                let m = choose|m: int|
                    0 <= m < n && m < list.len() && is_above(v, #[trigger] list[m], at);
                before.lemma_child_is_below(at, m, at);
            }
            assert(middle[at as int] == v[at as int]);
        }
        k = 0;
        while k < n
            invariant
                before.wf(),
                v == before@,
                list == v[at as int].nodes,
                middle == cleared_some(v, at, n as int),
                middle[at as int] == v[at as int],
                at < v.len(),
                n == list.len(),
                k <= n,
                dom@.len() == v.len(),
                dom.ceiling() == before.ceiling(),
                forall|j: int| dom.height_of(j) == before.height_of(j),
                forall|j: int|
                    0 <= j < v.len() ==> #[trigger] dom@[j] == (if exists|m: int|
                        0 <= m < k && list[m] == j {
                        ItemView { parent: None, ..middle[j] }
                    } else {
                        middle[j]
                    }),
            decreases n - k,
        {
            let ghost now = dom@;
            proof {
                assert(list[k as int] < v.len());
                if exists|m: int| 0 <= m < k && list[m] == at {
                    let m = choose|m: int| 0 <= m < k && list[m] == at;
                    assert(nth_ancestor(v, at, 0) == Some(at));
                    before.lemma_child_is_below(at, m, at);
                }
                assert(now[at as int] == v[at as int]);
            }
            let c = dom.items[at].nodes[k];
            assert(c == list[k as int]);
            dom.items[c].parent = None;
            proof {
                assert(dom@[c as int] == ItemView { parent: None, ..now[c as int] });
                assert forall|j: int| 0 <= j < v.len() && j != c implies #[trigger] dom@[j]
                    == now[j] by {
                }
                assert forall|j: int| 0 <= j < v.len() implies #[trigger] dom@[j] == (if exists|
                    m: int,
                | 0 <= m < k + 1 && list[m] == j {
                    ItemView { parent: None, ..middle[j] }
                } else {
                    middle[j]
                }) by {
                    if j == c {
                        assert(list[k as int] == j);
                    } else {
                        assert(dom@[j] == now[j]);
                        if exists|m: int| 0 <= m < k + 1 && list[m] == j {
                            let m = choose|m: int| 0 <= m < k + 1 && list[m] == j;
                            assert(m < k);
                        }
                    }
                }
            }
            k += 1;
        }
        let ghost late = dom@;
        dom.items[at].nodes.clear();
        proof {
            let w = cleared(v, at);
            assert(dom@[at as int] == ItemView { nodes: Seq::empty(), ..late[at as int] });
            assert forall|j: int| 0 <= j < v.len() && j != at implies #[trigger] dom@[j]
                == late[j] by {}
            assert forall|j: int| 0 <= j < v.len() implies #[trigger] dom@[j] == w[j] by {
                let ju = j as usize;
                let child = exists|m: int| 0 <= m < n && list[m] == j;
                if child {
                    let m = choose|m: int| 0 <= m < n && list[m] == j;
                    assert(nth_ancestor(v, ju, 0) == Some(ju));
                    assert(is_above(v, list[m], ju));
                    before.lemma_child_is_below(at, m, ju);
                    assert(under_first(v, at, n as int, ju));
                    assert(late[j] == ItemView { parent: None, ..middle[j] });
                    assert(w[j] == orphan(v[j]));
                } else if j != at && is_above(v, at, ju) {
                    before.lemma_below_a_child(at, ju);
                    if v[j].parent == Some(at) {
                        assert(list.contains(ju));
                        let m = choose|m: int| 0 <= m < list.len() && list[m] == ju;
                        assert(0 <= m < n && list[m] == j);
                    }
                    assert(late[j] == middle[j]);
                    assert(middle[j] == orphan(v[j]));
                } else if j != at {
                    if under_first(v, at, n as int, ju) {
                        let m = choose|m: int|
                            0 <= m < n && m < list.len() && is_above(v, #[trigger] list[m], ju);
                        before.lemma_child_is_below(at, m, ju);
                    }
                    assert(late[j] == middle[j]);
                    assert(middle[j] == v[j]);
                } else {
                    assert(late[j] == middle[j]);
                }
            }
            assert(dom@ =~= w);
            before.lemma_cleared_agrees(at);
            assert forall|i: int| 0 <= i < w.len() implies #[trigger] dom.height_of(i)
                <= dom.ceiling() by {
                assert(before.height_of(i) <= before.ceiling());
            }
        }
    }

    /// Deletes everything below the item: it is left without children, and
    /// each of its former descendants without parent and without children,
    /// so that none of them can be reached from anywhere. Where `rc` names no
    /// item nothing happens.
    pub fn clean(dom: &mut XmlDom, rc: XmlItemRc)
        requires
            old(dom).wf(),
        ensures
            final(dom).wf(),
            final(dom)@ == (if holds(old(dom)@, rc) {
                cleared(old(dom)@, rc->0)
            } else {
                old(dom)@
            }),
    {
        if let Some(at) = rc {
            if at < dom.items.len() {
                Self::delete_nodes(dom, at);
            }
        }
    }

    /// `offset` tabs.
    pub fn get_tabs(offset: &usize) -> (r: String)
        ensures
            r@ == tabs(*offset as nat),
    {
        let mut r = String::new();
        let mut i: usize = 0;
        while i < *offset
            invariant
                i <= *offset,
                r@ == tabs(i as nat),
            decreases *offset - i,
        {
            r.push('\t');
            assert(r@ =~= tabs((i + 1) as nat));
            i += 1;
        }
        r
    }

    /// Appends to `out` the text of the item at `at`, each line behind the
    /// tabs in `indent`.
    fn write_item(dom: &XmlDom, at: usize, indent: &mut Vec<char>, out: &mut String)
        requires
            dom.wf(),
            at < dom@.len(),
            old(indent)@ == tabs(old(indent)@.len()),
        ensures
            final(indent)@ == old(indent)@,
            final(out)@ == old(out)@ + rendered(dom.element(at), old(indent)@.len()),
        decreases dom.height_of(at as int),
    {
        let ghost start = out@;
        let ghost depth = indent@.len();
        let ghost e = dom.element(at);
        let ghost margin = indent@;
        let item = &dom.items[at];
        assert(item@ == dom@[at as int]);
        push_chars(out, indent.as_slice());
        out.push('<');
        out.append(item.name.as_str());
        let count = item.attributes.len();
        let mut k: usize = 0;
        while k < count
            invariant
                k <= count,
                count == item.attributes@.len(),
                item@.attributes == e.attributes,
                out@ == start + margin + seq!['<'] + e.name + attributes_text(
                    e.attributes.take(k as int),
                ),
            decreases count - k,
        {
            let ghost seen = out@;
            let key = &item.attributes[k].0;
            let value = to_chars(item.attributes[k].1.as_str());
            assert(e.attributes[k as int] == (key@, value@));
            out.push(' ');
            out.append(key.as_str());
            out.push('=');
            out.push('"');
            push_escaped(out, value.as_slice());
            out.push('"');
            proof {
                assert(out@ =~= seen + attribute_text(key@, value@));
                lemma_attributes_text_push(e.attributes.take(k as int), key@, value@);
                assert(e.attributes.take(k as int).push((key@, value@)) =~= e.attributes.take(
                    k + 1,
                ));
            }
            k += 1;
        }
        assert(e.attributes.take(k as int) =~= e.attributes);
        let ghost head = margin + tag_head(e);
        assert(out@ =~= start + head);
        let many = item.nodes.len();
        if many == 0 {
            out.push('/');
            out.push('>');
            assert(lines_of(e, depth) =~= seq![head + seq!['/', '>']]);
            assert(out@ =~= start + rendered(e, depth));
            return ;
        }
        out.push('>');
        indent.push('\t');
        assert(indent@ =~= tabs(depth + 1));
        let ghost first = seq![head + seq!['>']];
        assert(e.children.take(0) =~= Seq::empty());
        let mut m: usize = 0;
        while m < many
            invariant
                dom.wf(),
                at < dom@.len(),
                e == dom.element(at),
                item@ == dom@[at as int],
                many == item.nodes@.len(),
                many == e.children.len(),
                m <= many,
                first.len() == 1,
                indent@ == tabs(depth + 1),
                indent@.len() == depth + 1,
                out@ == start + joined(first + lines_of_all(e.children.take(m as int), depth + 1)),
            decreases many - m,
        {
            let ghost seen = out@;
            let child = item.nodes[m];
            proof {
                assert(dom@[at as int].nodes[m as int] < dom@.len());
                assert(dom.height_of(dom@[at as int].nodes[m as int] as int) < dom.height_of(
                    at as int,
                ));
                assert(e.children[m as int] == dom.element(child));
            }
            out.push('\n');
            Self::write_item(dom, child, indent, out);
            proof {
                let before = e.children.take(m as int);
                let after = e.children.take(m + 1);
                assert(after.drop_last() =~= before);
                assert(after.last() == e.children[m as int]);
                let c = lines_of(e.children[m as int], depth + 1);
                assert(lines_of_all(after, depth + 1) == lines_of_all(before, depth + 1) + c);
                lemma_joined_concat(first + lines_of_all(before, depth + 1), c);
                assert(first + lines_of_all(after, depth + 1) =~= (first + lines_of_all(
                    before,
                    depth + 1,
                )) + c);
                assert(out@ =~= seen + seq!['\n'] + joined(c));
            }
            m += 1;
        }
        indent.pop();
        assert(indent@ =~= margin);
        let ghost seen = out@;
        out.push('\n');
        push_chars(out, indent.as_slice());
        out.push('<');
        out.push('/');
        out.append(item.name.as_str());
        out.push('>');
        proof {
            assert(e.children.take(m as int) =~= e.children);
            let last = margin + seq!['<', '/'] + e.name + seq!['>'];
            let body = first + lines_of_all(e.children, depth + 1);
            assert(lines_of(e, depth) =~= body + seq![last]);
            lemma_joined_concat(body, seq![last]);
            assert(out@ =~= seen + seq!['\n'] + last);
        }
    }

    /// The text of the item and of everything below it, the item's own lines
    /// behind `offset` tabs and each level below one tab deeper. An item
    /// without children is written as a self-closing tag. Empty where `rc`
    /// names no item.
    pub fn to_string(dom: &XmlDom, rc: XmlItemRc, offset: usize) -> (r: String)
        requires
            dom.wf(),
        ensures
            r@ == (if holds(dom@, rc) {
                rendered(dom.element(rc->0), offset as nat)
            } else {
                Seq::<char>::empty()
            }),
    {
        let mut out = String::new();
        if let Some(at) = rc {
            if at < dom.items.len() {
                let mut indent: Vec<char> = Vec::new();
                let mut i: usize = 0;
                while i < offset
                    invariant
                        i <= offset,
                        indent@ == tabs(i as nat),
                    decreases offset - i,
                {
                    indent.push('\t');
                    assert(indent@ =~= tabs((i + 1) as nat));
                    i += 1;
                }
                Self::write_item(dom, at, &mut indent, &mut out);
            }
        }
        out
    }

    /// The text of the item and of everything below it, in a form that
    /// people can read: one tag on each line, one tab for each level. Empty
    /// where `rc` names no item.
    pub fn as_string(dom: &XmlDom, rc: XmlItemRc) -> (r: String)
        requires
            dom.wf(),
        ensures
            r@ == (if holds(dom@, rc) {
                rendered(dom.element(rc->0), 0)
            } else {
                Seq::<char>::empty()
            }),
    {
        Self::to_string(dom, rc, 0)
    }

    /// Gives the item the attribute `attribute` with `value`. An attribute of
    /// that name takes the new value where it stands; a new one goes to the
    /// end. The value is kept as it is. Where `rc` names no item nothing
    /// happens.
    pub fn set_attribute(dom: &mut XmlDom, rc: XmlItemRc, attribute: String, value: String)
        requires
            old(dom).wf(),
        ensures
            final(dom).wf(),
            final(dom)@ == (if holds(old(dom)@, rc) {
                with_attribute(old(dom)@, rc->0 as int, attribute@, value@)
            } else {
                old(dom)@
            }),
    {
        let at = match rc {
            Some(i) => i,
            None => { return ; },
        };
        if at >= dom.items.len() {
            return ;
        }
        let ghost before = *dom;
        let ghost attrs = before@[at as int].attributes;
        let n = dom.items[at].attributes.len();
        let mut k: usize = 0;
        while k < n && !(dom.items[at].attributes[k].0 == attribute)
            invariant
                *dom == before,
                at < dom.items@.len(),
                n == attrs.len(),
                attrs == dom.items@[at as int]@.attributes,
                k <= n,
                key_index(attrs, attribute@, 0) == key_index(attrs, attribute@, k as int),
            decreases n - k,
        {
            k += 1;
        }
        if k < n {
            dom.items[at].attributes[k] = (attribute, value);
        } else {
            dom.items[at].attributes.push((attribute, value));
        }
        proof {
            let after = assigned(attrs, attribute@, value@);
            assert(dom.items@[at as int]@.attributes =~= after);
            assert(dom@ =~= with_attribute(before@, at as int, attribute@, value@));
            lemma_key_index(attrs, attribute@, 0);
            assert(keys_unique(after)) by {
                assert(keys_unique(before@[at as int].attributes));
                assert forall|a: int, b: int| 0 <= a < b < after.len() implies (#[trigger] after[a]).0
                    != (#[trigger] after[b]).0 by {
                    if k < n {
                        assert(attrs[a].0 != attrs[b].0);
                    } else if b < n {
                        assert(attrs[a].0 != attrs[b].0);
                    }
                }
            }
            lemma_same_shape(before@, dom@);
            assert forall|i: int| 0 <= i < dom@.len() implies #[trigger] dom.height_of(i)
                <= dom.ceiling() by {
                assert(before.height_of(i) <= before.ceiling());
            }
        }
    }

    /// The value of the item's attribute `attribute`; `None` where the item
    /// has no such attribute, or where `rc` names no item.
    pub fn get_attribute(dom: &XmlDom, rc: XmlItemRc, attribute: &String) -> (r: Option<String>)
        ensures
            match r {
                Some(value) => {
                    &&& holds(dom@, rc)
                    &&& key_index(dom@[rc->0 as int].attributes, attribute@, 0)
                        < dom@[rc->0 as int].attributes.len()
                    &&& value@ == dom@[rc->0 as int].attributes[key_index(
                        dom@[rc->0 as int].attributes,
                        attribute@,
                        0,
                    )].1
                },
                None => !holds(dom@, rc) || key_index(dom@[rc->0 as int].attributes, attribute@, 0)
                    == dom@[rc->0 as int].attributes.len(),
            },
    {
        let at = match rc {
            Some(i) => i,
            None => { return None; },
        };
        if at >= dom.items.len() {
            return None;
        }
        let ghost attrs = dom@[at as int].attributes;
        let n = dom.items[at].attributes.len();
        let mut k: usize = 0;
        while k < n && !(dom.items[at].attributes[k].0 == *attribute)
            invariant
                at < dom.items@.len(),
                n == attrs.len(),
                attrs == dom.items@[at as int]@.attributes,
                k <= n,
                key_index(attrs, attribute@, 0) == key_index(attrs, attribute@, k as int),
            decreases n - k,
        {
            k += 1;
        }
        if k < n {
            Some(dom.items[at].attributes[k].1.clone())
        } else {
            None
        }
    }

    /// The item's attributes, each a name and a value, in the order in which
    /// their names first arrived, as a list of its own. Empty where `rc`
    /// names no item.
    pub fn get_attributes(dom: &XmlDom, rc: XmlItemRc) -> (r: Vec<(String, String)>)
        ensures
            r@.map_values(|p: (String, String)| (p.0@, p.1@)) == (if holds(dom@, rc) {
                dom@[rc->0 as int].attributes
            } else {
                Seq::<(Seq<char>, Seq<char>)>::empty()
            }),
    {
        let mut r: Vec<(String, String)> = Vec::new();
        if let Some(at) = rc {
            if at < dom.items.len() {
                let attrs = &dom.items[at].attributes;
                let mut k: usize = 0;
                while k < attrs.len()
                    invariant
                        k <= attrs@.len(),
                        r@.map_values(|p: (String, String)| (p.0@, p.1@)) == attrs@.map_values(
                            |p: (String, String)| (p.0@, p.1@),
                        ).take(k as int),
                    decreases attrs.len() - k,
                {
                    let ghost seen = r@.map_values(|p: (String, String)| (p.0@, p.1@));
                    r.push((attrs[k].0.clone(), attrs[k].1.clone()));
                    assert(r@.map_values(|p: (String, String)| (p.0@, p.1@)) =~= seen.push(
                        (attrs@[k as int].0@, attrs@[k as int].1@),
                    ));
                    assert(seen.push((attrs@[k as int].0@, attrs@[k as int].1@))
                        =~= attrs@.map_values(|p: (String, String)| (p.0@, p.1@)).take(k + 1));
                    k += 1;
                }
                assert(attrs@.map_values(|p: (String, String)| (p.0@, p.1@)).take(k as int)
                    =~= attrs@.map_values(|p: (String, String)| (p.0@, p.1@)));
                return r;
            }
        }
        assert(r@.map_values(|p: (String, String)| (p.0@, p.1@)) =~= Seq::<
            (Seq<char>, Seq<char>),
        >::empty());
        r
    }

    /// The reference to no item.
    pub fn get_empty_item() -> (r: XmlItemRc)
        ensures
            r is None,
    {
        None
    }

    /// The item's name; empty where `rc` names no item.
    pub fn get_name(dom: &XmlDom, rc: XmlItemRc) -> (r: String)
        ensures
            r@ == (if holds(dom@, rc) {
                dom@[rc->0 as int].name
            } else {
                Seq::<char>::empty()
            }),
    {
        match rc {
            Some(i) => {
                if i < dom.items.len() {
                    dom.items[i].name.clone()
                } else {
                    String::new()
                }
            },
            None => String::new(),
        }
    }

    /// The item's children, in order, as a list of its own: changing it
    /// changes nothing in the document. Empty where `rc` names no item.
    pub fn get_nodes(dom: &XmlDom, rc: XmlItemRc) -> (r: Vec<XmlItemRc>)
        ensures
            r@ == (if holds(dom@, rc) {
                dom@[rc->0 as int].nodes.map_values(|c: usize| Some(c))
            } else {
                Seq::<XmlItemRc>::empty()
            }),
    {
        let mut r: Vec<XmlItemRc> = Vec::new();
        if let Some(i) = rc {
            if i < dom.items.len() {
                let nodes = &dom.items[i].nodes;
                let mut k: usize = 0;
                while k < nodes.len()
                    invariant
                        k <= nodes@.len(),
                        r@ == nodes@.take(k as int).map_values(|c: usize| Some(c)),
                    decreases nodes.len() - k,
                {
                    r.push(Some(nodes[k]));
                    assert(r@ =~= nodes@.take(k + 1).map_values(|c: usize| Some(c)));
                    k += 1;
                }
                assert(nodes@.take(k as int) =~= nodes@);
            }
        }
        r
    }

    /// The item's parent; no item where it has none, or where `rc` names no
    /// item.
    pub fn get_parent(dom: &XmlDom, rc: XmlItemRc) -> (r: XmlItemRc)
        ensures
            r == parent_of(dom@, rc),
    {
        match rc {
            Some(i) => {
                if i < dom.items.len() {
                    dom.items[i].parent
                } else {
                    None
                }
            },
            None => None,
        }
    }
}

} // verus!
