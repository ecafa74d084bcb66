//! An element as a value: its name, its attributes and its children, each of
//! them an element again; and the text that stands for it.
use vstd::prelude::*;

verus! {

/// An element with everything below it.
pub struct Element {
    /// The characters of the name.
    pub name: Seq<char>,
    /// The attributes in their order, each a name and a value.
    pub attributes: Seq<(Seq<char>, Seq<char>)>,
    /// The children in their order.
    pub children: Seq<Element>,
}

/// The number of elements in a tree.
pub open spec fn count(e: Element) -> nat
    decreases e, 1nat,
{
    1 + count_all(e.children)
}

/// The number of elements in several trees.
pub open spec fn count_all(es: Seq<Element>) -> nat
    decreases es, 0nat,
{
    if es.len() == 0 {
        0
    } else {
        count_all(es.drop_last()) + count(es.last())
    }
}

/// `n` tabs.
pub open spec fn tabs(n: nat) -> Seq<char> {
    Seq::new(n, |i: int| '\t')
}

/// What is written for the character at `at` of an attribute's value: a
/// double quote gets a backslash in front of it, unless one stands there
/// already; every other character is written as it is.
pub open spec fn escaped_at(value: Seq<char>, at: int) -> Seq<char> {
    if value[at] == '"' && (at == 0 || value[at - 1] != '\\') {
        seq!['\\', '"']
    } else {
        seq![value[at]]
    }
}

/// An attribute's value as it is written between its quotes.
pub open spec fn escaped(value: Seq<char>) -> Seq<char>
    decreases value.len(),
{
    if value.len() == 0 {
        Seq::empty()
    } else {
        escaped(value.drop_last()) + escaped_at(value, value.len() - 1)
    }
}

/// One attribute as it is written in a tag: a blank, the name, `="`, the
/// value and `"`.
pub open spec fn attribute_text(key: Seq<char>, value: Seq<char>) -> Seq<char> {
    seq![' '] + key + seq!['=', '"'] + escaped(value) + seq!['"']
}

/// The attributes as they are written in a tag, one behind the other.
pub open spec fn attributes_text(attrs: Seq<(Seq<char>, Seq<char>)>) -> Seq<char>
    decreases attrs.len(),
{
    if attrs.len() == 0 {
        Seq::empty()
    } else {
        attribute_text(attrs[0].0, attrs[0].1) + attributes_text(attrs.drop_first())
    }
}

/// The beginning of an element's tag: `<`, the name and the attributes.
pub open spec fn tag_head(e: Element) -> Seq<char> {
    seq!['<'] + e.name + attributes_text(e.attributes)
}

/// The lines that stand for an element at a given depth, each indented by
/// one tab for each level. An element without children is one self-closing
/// tag; any other is its opening tag, the lines of its children one level
/// deeper, and its closing tag.
pub open spec fn lines_of(e: Element, depth: nat) -> Seq<Seq<char>>
    decreases e, 1nat,
{
    if e.children.len() == 0 {
        seq![tabs(depth) + tag_head(e) + seq!['/', '>']]
    } else {
        seq![tabs(depth) + tag_head(e) + seq!['>']] + lines_of_all(e.children, depth + 1)
            + seq![tabs(depth) + seq!['<', '/'] + e.name + seq!['>']]
    }
}

/// The lines of several elements, one element after the other.
pub open spec fn lines_of_all(es: Seq<Element>, depth: nat) -> Seq<Seq<char>>
    decreases es, 0nat,
{
    if es.len() == 0 {
        Seq::empty()
    } else {
        lines_of_all(es.drop_last(), depth) + lines_of(es.last(), depth)
    }
}

/// Lines put together into one text, with a line feed between each two.
pub open spec fn joined(lines: Seq<Seq<char>>) -> Seq<char>
    decreases lines.len(),
{
    if lines.len() == 0 {
        Seq::empty()
    } else if lines.len() == 1 {
        lines[0]
    } else {
        joined(lines.drop_last()) + seq!['\n'] + lines.last()
    }
}

/// The text that stands for an element at a given depth.
pub open spec fn rendered(e: Element, depth: nat) -> Seq<char> {
    joined(lines_of(e, depth))
}

/// Joining two lists of lines joins the two texts with a line feed.
pub proof fn lemma_joined_concat(a: Seq<Seq<char>>, b: Seq<Seq<char>>)
    requires
        a.len() > 0,
        b.len() > 0,
    ensures
        joined(a + b) == joined(a) + seq!['\n'] + joined(b),
    decreases b.len(),
{
    if b.len() == 1 {
        assert((a + b).drop_last() =~= a);
        assert((a + b).last() == b[0]);
    } else {
        lemma_joined_concat(a, b.drop_last());
        assert((a + b).drop_last() =~= a + b.drop_last());
        assert((a + b).last() == b.last());
        assert(joined(a) + seq!['\n'] + joined(b.drop_last()) + seq!['\n'] + b.last() =~= joined(a)
            + seq!['\n'] + (joined(b.drop_last()) + seq!['\n'] + b.last()));
    }
}

} // verus!
