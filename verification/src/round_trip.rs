//! Reading what was written: the text of a tree is read back as that tree.
//!
//! This holds of plain trees: trees whose names, attribute names and values
//! hold nothing that the reader takes for markup. `lemma_round_trip` states
//! it of documents, `lemma_written_is_read` of elements.
use crate::element::{
    attribute_text, attributes_text, count, count_all, escaped, escaped_at, joined,
    lemma_joined_concat, lines_of, lines_of_all, rendered, tabs, tag_head, Element,
};
use crate::error::XmlError;
use crate::text::{
    first_index, has_pair, is_space, lemma_first_index, lemma_first_index_is,
    lemma_first_space_is, lemma_last_index_is, lemma_spaces, lemma_trimmed, lemma_trimmed_is,
    trimmed, unfolded,
};
use crate::xml_dom::{
    assigned_all, attributes_in, closes_comment, closing_quote, item_of_tag, kind_of,
    document_of, lines_in, opens_comment, tag_attribute_text, tag_inside, tag_name, Reader,
    TagKind,
};
use crate::xml_item::{
    added, assigned, can_attach, detached, fresh, holds, is_above, key_index, keys_unique, linked,
    nth_ancestor, parent_of, ItemView, XmlDom, XmlItemRc,
};
use vstd::prelude::*;

verus! {

/// A name that is read back as it was written: not empty, without white space,
/// brackets or slashes, not beginning with `!--` and not ending with `--`.
pub open spec fn plain_name(name: Seq<char>) -> bool {
    &&& name.len() > 0
    &&& forall|i: int|
        0 <= i < name.len() ==> !is_space(#[trigger] name[i]) && name[i] != '<' && name[i] != '>'
            && name[i] != '/'
    &&& !(name.len() >= 3 && name[0] == '!' && name[1] == '-' && name[2] == '-')
    &&& !(name.len() >= 2 && name[name.len() - 1] == '-' && name[name.len() - 2] == '-')
}

/// `-->` stands nowhere in `s`.
#[verifier::opaque]
pub open spec fn no_arrow(s: Seq<char>) -> bool {
    forall|i: int|
        0 <= i && i + 2 < s.len() ==> !(#[trigger] s[i] == '-' && s[i + 1] == '-' && s[i + 2]
            == '>')
}

/// None of `</`, `/>` and `-->` stands anywhere in `s`.
#[verifier::opaque]
pub open spec fn quiet(s: Seq<char>) -> bool {
    !has_pair(s, '<', '/') && !has_pair(s, '/', '>') && no_arrow(s)
}

/// An attribute's name that is read back as it was written: not empty, with
/// no white space at its ends, without `=` and line feeds, and with none of
/// `</`, `/>` and `-->` in it.
pub open spec fn plain_key(key: Seq<char>) -> bool {
    &&& key.len() > 0
    &&& !is_space(key[0])
    &&& !is_space(key.last())
    &&& forall|i: int| 0 <= i < key.len() ==> (#[trigger] key[i]) != '=' && key[i] != '\n'
    &&& quiet(key)
}

/// An attribute's value that is read back as it was written: without double
/// quotes and line feeds, with no backslash at its end, and with none of
/// `</`, `/>` and `-->` in it.
pub open spec fn plain_value(value: Seq<char>) -> bool {
    &&& forall|i: int| 0 <= i < value.len() ==> (#[trigger] value[i]) != '"' && value[i] != '\n'
    &&& value.len() > 0 ==> value.last() != '\\'
    &&& quiet(value)
}

/// Attributes that are read back as they were written: no name twice, and
/// every name and value plain.
pub open spec fn plain_attributes(attrs: Seq<(Seq<char>, Seq<char>)>) -> bool {
    &&& keys_unique(attrs)
    &&& forall|i: int|
        0 <= i < attrs.len() ==> plain_key((#[trigger] attrs[i]).0) && plain_value(attrs[i].1)
}

/// A tree in which every name and every attribute is plain.
pub open spec fn plain_tree(e: Element) -> bool
    decreases e,
{
    &&& plain_name(e.name)
    &&& plain_attributes(e.attributes)
    &&& forall|k: int| 0 <= k < e.children.len() ==> plain_tree(#[trigger] e.children[k])
}

/// `c` stands nowhere in `s`.
spec fn free_of(s: Seq<char>, c: char) -> bool {
    forall|i: int| 0 <= i < s.len() ==> s[i] != c
}

/// A plain value is written as it is.
proof fn lemma_plain_value_written(value: Seq<char>)
    requires
        forall|i: int| 0 <= i < value.len() ==> (#[trigger] value[i]) != '"',
    ensures
        escaped(value) == value,
    decreases value.len(),
{
    if value.len() > 0 {
        lemma_plain_value_written(value.drop_last());
        assert(escaped_at(value, value.len() - 1) == seq![value.last()]);
        assert(value.drop_last() + seq![value.last()] =~= value);
    }
}

/// Two texts may stand side by side without `</`, `/>` or `-->` arising
/// where they meet.
spec fn meet_quietly(x: Seq<char>, y: Seq<char>) -> bool {
    x.len() == 0 || y.len() == 0 || {
        &&& !(x.last() == '<' && y[0] == '/')
        &&& !(x.last() == '/' && y[0] == '>')
        &&& !(x.last() == '-' && y[0] == '-' && y.len() >= 2 && y[1] == '>')
        &&& !(x.len() >= 2 && x[x.len() - 2] == '-' && x.last() == '-' && y[0] == '>')
    }
}

/// A pair that stands in neither of two texts, and does not arise where they
/// meet, does not stand in the two together.
proof fn lemma_no_pair_concat(x: Seq<char>, y: Seq<char>, a: char, b: char)
    requires
        !has_pair(x, a, b),
        !has_pair(y, a, b),
        !(x.len() > 0 && y.len() > 0 && x.last() == a && y[0] == b),
    ensures
        !has_pair(x + y, a, b),
{
    let s = x + y;
    assert forall|i: int| 0 <= i && i + 1 < s.len() implies !(#[trigger] s[i] == a && s[i + 1]
        == b) by {
        if i + 1 < x.len() {
            assert(s[i] == x[i] && s[i + 1] == x[i + 1]);
        } else if i >= x.len() {
            assert(s[i] == y[i - x.len()] && s[i + 1] == y[i - x.len() + 1]);
        } else {
            assert(s[i] == x.last() && s[i + 1] == y[0]);
        }
    }
}

/// Two texts without `-->` that meet quietly hold no `-->` together.
proof fn lemma_no_arrow_concat(x: Seq<char>, y: Seq<char>)
    requires
        no_arrow(x),
        no_arrow(y),
        meet_quietly(x, y),
    ensures
        no_arrow(x + y),
{
    reveal(no_arrow);
    let s = x + y;
    let n = x.len() as int;
    assert forall|i: int| 0 <= i && i + 2 < s.len() implies !(#[trigger] s[i] == '-' && s[i + 1]
        == '-' && s[i + 2] == '>') by {
        if i + 2 < n {
            assert(s[i] == x[i] && s[i + 1] == x[i + 1] && s[i + 2] == x[i + 2]);
        } else if i >= n {
            assert(s[i] == y[i - n] && s[i + 1] == y[i - n + 1] && s[i + 2] == y[i - n + 2]);
        } else if i + 1 < n {
            assert(s[i] == x[n - 2] && s[i + 1] == x.last() && s[i + 2] == y[0]);
        } else {
            assert(s[i] == x.last() && s[i + 1] == y[0] && s[i + 2] == y[1]);
        }
    }
}

/// Two quiet texts that meet quietly are quiet together.
proof fn lemma_quiet_concat(x: Seq<char>, y: Seq<char>)
    requires
        quiet(x),
        quiet(y),
        meet_quietly(x, y),
    ensures
        quiet(x + y),
{
    reveal(quiet);
    lemma_no_arrow_concat(x, y);
    lemma_no_pair_concat(x, y, '<', '/');
    lemma_no_pair_concat(x, y, '/', '>');
}

/// What it is to be quiet.
proof fn lemma_quiet(s: Seq<char>)
    ensures
        quiet(s) <==> !has_pair(s, '<', '/') && !has_pair(s, '/', '>') && no_arrow(s),
        s.len() < 3 ==> no_arrow(s),
        s.len() < 2 ==> quiet(s),
{
    reveal(quiet);
    reveal(no_arrow);
}

/// A text without either bracket and without slashes is quiet.
proof fn lemma_quiet_without(s: Seq<char>)
    requires
        forall|i: int| 0 <= i < s.len() ==> (#[trigger] s[i]) != '<' && s[i] != '>' && s[i] != '/',
    ensures
        quiet(s),
        no_arrow(s),
{
    reveal(no_arrow);
    reveal(quiet);
    assert forall|i: int| 0 <= i && i + 1 < s.len() implies !(#[trigger] s[i] == '<' && s[i + 1]
        == '/') by {}
    assert forall|i: int| 0 <= i && i + 1 < s.len() implies !(#[trigger] s[i] == '/' && s[i + 1]
        == '>') by {}
    assert forall|i: int| 0 <= i && i + 2 < s.len() implies !(#[trigger] s[i] == '-' && s[i + 1]
        == '-' && s[i + 2] == '>') by {
        assert(s[i + 2] != '>');
    }
}

/// What a plain attribute is written as, character by character.
proof fn lemma_attribute_text(key: Seq<char>, value: Seq<char>)
    requires
        plain_key(key),
        plain_value(value),
    ensures
        attribute_text(key, value) == seq![' '] + key + seq!['=', '"'] + value + seq!['"'],
        attribute_text(key, value).len() == key.len() + value.len() + 4,
        attribute_text(key, value)[0] == ' ',
        attribute_text(key, value)[1] == key[0],
        attribute_text(key, value).last() == '"',
        free_of(attribute_text(key, value), '\n'),
        quiet(attribute_text(key, value)),
{
    lemma_plain_value_written(value);
    let t = seq![' '] + key + seq!['=', '"'] + value + seq!['"'];
    assert forall|i: int| 0 <= i < t.len() implies t[i] != '\n' by {
        if i == 0 {
        } else if i < 1 + key.len() {
            assert(t[i] == key[i - 1]);
        } else if i < 3 + key.len() {
        } else if i < 3 + key.len() + value.len() {
            assert(t[i] == value[i - 3 - key.len()]);
        } else {
        }
    }
    let a = seq![' '];
    let b = seq!['=', '"'];
    let c = seq!['"'];
    lemma_quiet_without(a);
    lemma_quiet_without(b);
    lemma_quiet_without(c);
    lemma_quiet_concat(a, key);
    assert((a + key).last() == key.last());
    if key.len() >= 2 {
        assert((a + key)[(a + key).len() - 2] == key[key.len() - 2]);
    }
    lemma_quiet_concat(a + key, b);
    assert((a + key + b).last() == '"');
    lemma_quiet_concat(a + key + b, value);
    lemma_quiet_concat(a + key + b + value, c);
    assert(t[1] == key[0]);
}

/// What plain attributes are written as: nothing, or a quiet text that
/// begins with a blank, ends with a double quote and holds no line feed.
proof fn lemma_attributes_text(attrs: Seq<(Seq<char>, Seq<char>)>)
    requires
        plain_attributes(attrs),
    ensures
        free_of(attributes_text(attrs), '\n'),
        quiet(attributes_text(attrs)),
        attrs.len() == 0 ==> attributes_text(attrs).len() == 0,
        attrs.len() > 0 ==> attributes_text(attrs).len() >= 5 && attributes_text(attrs)[0] == ' '
            && attributes_text(attrs)[1] == attrs[0].0[0] && attributes_text(attrs).last() == '"',
    decreases attrs.len(),
{
    if attrs.len() > 0 {
        let rest = attrs.drop_first();
        lemma_plain_rest(attrs);
        lemma_attributes_text(rest);
        lemma_attribute_text(attrs[0].0, attrs[0].1);
        let head = attribute_text(attrs[0].0, attrs[0].1);
        let tail = attributes_text(rest);
        let all = attributes_text(attrs);
        assert(all == head + tail);
        assert forall|i: int| 0 <= i < all.len() implies all[i] != '\n' by {
            if i < head.len() {
                assert(all[i] == head[i]);
            } else {
                assert(all[i] == tail[i - head.len()]);
            }
        }
        lemma_quiet_concat(head, tail);
        assert(all[0] == head[0]);
        assert(all[1] == head[1]);
        if rest.len() == 0 {
            assert(all.last() == head.last());
        } else {
            assert(all.last() == tail.last());
        }
    } else {
        lemma_quiet_without(attributes_text(attrs));
    }
}

/// Plain attributes without the first of them are plain.
proof fn lemma_plain_rest(attrs: Seq<(Seq<char>, Seq<char>)>)
    requires
        plain_attributes(attrs),
        attrs.len() > 0,
    ensures
        plain_attributes(attrs.drop_first()),
{
    let rest = attrs.drop_first();
    assert forall|i: int| 0 <= i < rest.len() implies plain_key((#[trigger] rest[i]).0)
        && plain_value(rest[i].1) by {
        assert(rest[i] == attrs[i + 1]);
    }
    assert forall|a: int, b: int| 0 <= a < b < rest.len() implies (#[trigger] rest[a]).0 != (
    #[trigger] rest[b]).0 by {
        assert(rest[a] == attrs[a + 1] && rest[b] == attrs[b + 1]);
    }
}

/// The closing quote at or after `from` stands at `at`, where no quote
/// before `at` could close and `at` holds one that can, or is the end.
proof fn lemma_closing_quote_is(s: Seq<char>, from: int, at: int)
    requires
        1 <= from <= at <= s.len(),
        forall|k: int| from <= k < at ==> s[k] != '"',
        at < s.len() ==> s[at] == '"' && s[at - 1] != '\\',
    ensures
        closing_quote(s, from) == at,
    decreases at - from,
{
    if from < at {
        lemma_closing_quote_is(s, from + 1, at);
    }
}

/// The first attribute of a text that begins with a plain attribute, and what
/// the text holds behind it.
proof fn lemma_first_attribute(text: Seq<char>, key: Seq<char>, value: Seq<char>, tail: Seq<char>)
    requires
        plain_key(key),
        plain_value(value),
        trimmed(text) == key + seq!['=', '"'] + value + seq!['"'] + tail,
    ensures
        tail.len() < text.len(),
        attributes_in(text) == seq![(key, value)] + attributes_in(tail),
{
    let t = trimmed(text);
    lemma_trimmed(text);
    let eq = key.len() as int;
    let open = eq + 1;
    let close = eq + 2 + value.len();
    assert(t.len() == close + 1 + tail.len());
    assert forall|k: int| 0 <= k < eq implies t[k] != '=' by {
        assert(t[k] == key[k]);
    }
    assert(t[eq] == '=');
    assert(t[open] == '"');
    lemma_first_index_is(t, '=', 0, eq);
    lemma_first_index_is(t, '"', eq + 1, open);
    assert forall|k: int| open + 1 <= k < close implies t[k] != '"' by {
        assert(t[k] == value[k - open - 1]);
    }
    assert(t[close] == '"');
    assert(t[close - 1] != '\\') by {
        if value.len() > 0 {
            assert(t[close - 1] == value.last());
        } else {
            assert(t[close - 1] == '"');
        }
    }
    lemma_closing_quote_is(t, open + 1, close);
    assert(t.subrange(0, eq) =~= key);
    lemma_trimmed_is(key, 0, key.len() as int);
    assert(key.subrange(0, key.len() as int) =~= key);
    assert(t.subrange(open + 1, close) =~= value);
    assert(t.subrange(close + 1, t.len() as int) =~= tail);
}

/// The text of plain attributes is read back as those attributes, whatever
/// white space stands around it.
pub proof fn lemma_attributes_read_back(attrs: Seq<(Seq<char>, Seq<char>)>, text: Seq<char>)
    requires
        plain_attributes(attrs),
        attrs.len() == 0 ==> trimmed(text).len() == 0,
        attrs.len() > 0 ==> trimmed(text) == attributes_text(attrs).drop_first(),
    ensures
        attributes_in(text) == attrs,
    decreases attrs.len(),
{
    if attrs.len() == 0 {
        lemma_none_in_blank(text);
    } else {
        let key = attrs[0].0;
        let value = attrs[0].1;
        let rest = attrs.drop_first();
        let tail = attributes_text(rest);
        lemma_plain_rest(attrs);
        lemma_attribute_text(key, value);
        lemma_attributes_text(rest);
        assert(trimmed(text) =~= key + seq!['=', '"'] + value + seq!['"'] + tail);
        lemma_first_attribute(text, key, value, tail);
        if rest.len() > 0 {
            lemma_spaces();
            lemma_trimmed_is(tail, 1, tail.len() as int);
            assert(tail.subrange(1, tail.len() as int) =~= tail.drop_first());
        } else {
            lemma_trimmed(tail);
        }
        lemma_attributes_read_back(rest, tail);
        assert(seq![(key, value)] + rest =~= attrs);
    }
}

/// A text of nothing but white space holds no attributes.
proof fn lemma_none_in_blank(text: Seq<char>)
    requires
        trimmed(text).len() == 0,
    ensures
        attributes_in(text) == Seq::<(Seq<char>, Seq<char>)>::empty(),
{
}

/// Giving attributes with new names, one by one, appends them.
proof fn lemma_assigned_all_appends(
    attrs: Seq<(Seq<char>, Seq<char>)>,
    pairs: Seq<(Seq<char>, Seq<char>)>,
)
    requires
        keys_unique(attrs + pairs),
    ensures
        assigned_all(attrs, pairs) == attrs + pairs,
    decreases pairs.len(),
{
    if pairs.len() == 0 {
        assert(attrs + pairs =~= attrs);
    } else {
        let all = attrs + pairs;
        let first = pairs[0];
        assert forall|k: int| 0 <= k < attrs.len() implies (#[trigger] attrs[k]).0 != first.0 by {
            assert(all[k] == attrs[k]);
            assert(all[attrs.len() as int] == first);
        }
        lemma_key_absent(attrs, first.0, 0);
        let next = attrs.push(first);
        assert(assigned(attrs, first.0, first.1) == next);
        assert(next + pairs.drop_first() =~= all);
        lemma_assigned_all_appends(next, pairs.drop_first());
    }
}

/// A name that no attribute has is found nowhere.
proof fn lemma_key_absent(attrs: Seq<(Seq<char>, Seq<char>)>, key: Seq<char>, from: int)
    requires
        0 <= from <= attrs.len(),
        forall|k: int| 0 <= k < attrs.len() ==> (#[trigger] attrs[k]).0 != key,
    ensures
        key_index(attrs, key, from) == attrs.len(),
    decreases attrs.len() - from,
{
    if from < attrs.len() {
        lemma_key_absent(attrs, key, from + 1);
    }
}

/// What stands between the brackets of an element's tag: the name and the
/// attributes.
pub open spec fn tag_body(name: Seq<char>, attrs: Seq<(Seq<char>, Seq<char>)>) -> Seq<char> {
    name + attributes_text(attrs)
}

/// How a tag ends: `/>` where it closes itself, else `>`.
pub open spec fn tag_end(closed: bool) -> Seq<char> {
    if closed {
        seq!['/', '>']
    } else {
        seq!['>']
    }
}

/// An element's tag as the reader collects it: behind a line feed.
pub open spec fn pending_tag(
    name: Seq<char>,
    attrs: Seq<(Seq<char>, Seq<char>)>,
    closed: bool,
) -> Seq<char> {
    seq!['\n', '<'] + tag_body(name, attrs) + tag_end(closed)
}

/// What the body of a plain tag looks like.
proof fn lemma_tag_body(name: Seq<char>, attrs: Seq<(Seq<char>, Seq<char>)>)
    requires
        plain_name(name),
        plain_attributes(attrs),
    ensures
        tag_body(name, attrs).len() >= name.len(),
        tag_body(name, attrs).subrange(0, name.len() as int) == name,
        attrs.len() == 0 ==> tag_body(name, attrs) == name,
        attrs.len() > 0 ==> tag_body(name, attrs).len() > name.len() + 1 && tag_body(
            name,
            attrs,
        )[name.len() as int] == ' ' && tag_body(name, attrs).subrange(
            name.len() as int + 1,
            tag_body(name, attrs).len() as int,
        ) == attributes_text(attrs).drop_first(),
        free_of(tag_body(name, attrs), '\n'),
        quiet(tag_body(name, attrs)),
        !is_space(tag_body(name, attrs)[0]),
        tag_body(name, attrs)[0] != '/',
        !is_space(tag_body(name, attrs).last()),
        tag_body(name, attrs).last() != '/',
        tag_body(name, attrs).last() != '<',
        !(tag_body(name, attrs).len() >= 2 && tag_body(name, attrs).last() == '-' && tag_body(
            name,
            attrs,
        )[tag_body(name, attrs).len() - 2] == '-'),
        !(tag_body(name, attrs).len() >= 3 && tag_body(name, attrs)[0] == '!' && tag_body(
            name,
            attrs,
        )[1] == '-' && tag_body(name, attrs)[2] == '-'),
{
    let text = attributes_text(attrs);
    let b = tag_body(name, attrs);
    lemma_attributes_text(attrs);
    lemma_spaces();
    assert(b.subrange(0, name.len() as int) =~= name);
    assert(b[0] == name[0]);
    assert forall|i: int| 0 <= i < b.len() implies b[i] != '\n' by {
        if i < name.len() {
            assert(b[i] == name[i]);
        } else {
            assert(b[i] == text[i - name.len()]);
        }
    }
    lemma_quiet_without(name);
    lemma_quiet_concat(name, text);
    if attrs.len() == 0 {
        assert(b =~= name);
    } else {
        assert(b[name.len() as int] == text[0]);
        assert(b.subrange(name.len() as int + 1, b.len() as int) =~= text.drop_first());
        assert(b.last() == text.last());
        if name.len() == 1 {
            assert(b[1] == ' ');
        } else if name.len() == 2 {
            assert(b[2] == ' ');
            assert(b[1] == name[1]);
        } else {
            assert(b[1] == name[1]);
            assert(b[2] == name[2]);
        }
    }
}

/// Which of `</` and `/>` stand in the tag of a plain element: never the
/// first, and the second where the tag closes itself.
proof fn lemma_tag_pairs(name: Seq<char>, attrs: Seq<(Seq<char>, Seq<char>)>, closed: bool)
    requires
        plain_name(name),
        plain_attributes(attrs),
    ensures
        !has_pair(seq!['<'] + tag_body(name, attrs) + tag_end(closed), '<', '/'),
        has_pair(seq!['<'] + tag_body(name, attrs) + tag_end(closed), '/', '>') == closed,
        !has_pair(pending_tag(name, attrs, closed), '<', '/'),
        has_pair(pending_tag(name, attrs, closed), '/', '>') == closed,
        no_arrow(seq!['<'] + tag_body(name, attrs) + tag_end(closed)),
{
    let b = tag_body(name, attrs);
    let end = tag_end(closed);
    let head = seq!['<'] + b;
    let tag = head + end;
    let text = pending_tag(name, attrs, closed);
    let n = b.len() as int;
    lemma_tag_body(name, attrs);
    lemma_quiet(b);
    lemma_quiet(seq!['<']);
    lemma_quiet(seq!['\n']);
    lemma_quiet(end);
    assert(head.last() == b.last());
    if n >= 2 {
        assert(head[head.len() - 2] == b[n - 2]);
    }
    lemma_no_pair_concat(seq!['<'], b, '<', '/');
    lemma_no_pair_concat(seq!['<'], b, '/', '>');
    lemma_no_arrow_concat(seq!['<'], b);
    assert(!has_pair(end, '<', '/')) by {
        if closed {
            assert(end[0] == '/' && end[1] == '>');
        }
    }
    lemma_no_pair_concat(head, end, '<', '/');
    lemma_no_arrow_concat(head, end);
    if closed {
        assert(tag[n + 1] == '/' && tag[n + 1 + 1] == '>');
        assert(text[n + 2] == '/' && text[n + 2 + 1] == '>');
    } else {
        lemma_no_pair_concat(head, end, '/', '>');
        lemma_no_pair_concat(seq!['\n'], tag, '/', '>');
    }
    lemma_no_pair_concat(seq!['\n'], tag, '<', '/');
    assert(text =~= seq!['\n'] + tag);
}

/// What stands between the brackets of a plain tag that the reader has
/// collected is the name and the attributes.
proof fn lemma_tag_inside(name: Seq<char>, attrs: Seq<(Seq<char>, Seq<char>)>, closed: bool)
    requires
        plain_name(name),
        plain_attributes(attrs),
    ensures
        tag_inside(pending_tag(name, attrs, closed)) == Some(tag_body(name, attrs)),
        kind_of(pending_tag(name, attrs, closed)) == (if closed {
            TagKind::SelfClosing
        } else {
            TagKind::Opening
        }),
{
    let b = tag_body(name, attrs);
    let text = pending_tag(name, attrs, closed);
    let tag = seq!['<'] + b + tag_end(closed);
    lemma_tag_body(name, attrs);
    lemma_tag_pairs(name, attrs, closed);
    let n = b.len() as int;
    assert(text =~= seq!['\n'] + tag);
    assert(tag[0] == '<');
    assert(tag.last() == '>');
    let u = unfolded(text);
    assert(u =~= seq![' '] + tag) by {
        assert(u.len() == tag.len() + 1);
        assert forall|i: int| 0 <= i < u.len() implies u[i] == (seq![' '] + tag)[i] by {
            if i == 0 {
            } else {
                assert(text[i] == tag[i - 1]);
                if 2 <= i <= n + 1 {
                    assert(tag[i - 1] == b[i - 2]);
                }
            }
        }
    }
    lemma_spaces();
    lemma_trimmed_is(u, 1, u.len() as int);
    assert(u.subrange(1, u.len() as int) =~= tag);
    let t = trimmed(u);
    assert(t == tag);
    lemma_first_index_is(t, '<', 0, 0);
    lemma_last_index_is(t, '>', t.len() as int, t.len() - 1);
    let end = t.len() - 1 - (if closed {
        1int
    } else {
        0int
    });
    assert(end == n + 1);
    assert(t.subrange(1, end) =~= b);
    lemma_trimmed_is(b, 0, n);
    assert(b.subrange(0, n) =~= b);
}

/// A plain tag that the reader has collected is read as the item with the
/// tag's name and attributes.
pub proof fn lemma_item_of_tag(name: Seq<char>, attrs: Seq<(Seq<char>, Seq<char>)>, closed: bool)
    requires
        plain_name(name),
        plain_attributes(attrs),
    ensures
        item_of_tag(pending_tag(name, attrs, closed)) == Some(
            ItemView { attributes: attrs, ..fresh(name) },
        ),
{
    let b = tag_body(name, attrs);
    let text = pending_tag(name, attrs, closed);
    lemma_tag_inside(name, attrs, closed);
    lemma_tag_body(name, attrs);
    lemma_attributes_text(attrs);
    assert forall|k: int| 0 <= k < name.len() implies !is_space(b[k]) by {
        assert(b[k] == name[k]);
    }
    lemma_spaces();
    lemma_first_space_is(b, 0, name.len() as int);
    assert(tag_name(text) == Some(name));
    let given = tag_attribute_text(text);
    if attrs.len() == 0 {
        assert(given =~= Seq::<char>::empty());
        lemma_trimmed(given);
    } else {
        assert(given == attributes_text(attrs).drop_first());
        assert(given[0] == attrs[0].0[0]);
        assert(given.last() == '"');
        lemma_trimmed_is(given, 0, given.len() as int);
        assert(given.subrange(0, given.len() as int) =~= given);
    }
    lemma_attributes_read_back(attrs, given);
    assert(Seq::<(Seq<char>, Seq<char>)>::empty() + attrs =~= attrs);
    lemma_assigned_all_appends(Seq::empty(), attrs);
}

/// A tag as it stands on a line of its own: from `<` to `>`, with nothing in
/// it that could be taken for the beginning or the end of a comment.
#[verifier::opaque]
spec fn tag_shaped(t: Seq<char>) -> bool {
    &&& t.len() >= 2
    &&& t[0] == '<'
    &&& t.last() == '>'
    &&& no_arrow(t)
    &&& !(t.len() >= 4 && t[1] == '!' && t[2] == '-' && t[3] == '-')
}

/// A reader that has nothing pending and is in no comment.
spec fn resting(table: Seq<ItemView>, current: XmlItemRc, root: XmlItemRc) -> Reader {
    Reader {
        table,
        pending_tag_text: Seq::empty(),
        tag_open_seen: false,
        tag_close_seen: false,
        in_comment: false,
        current_parent: current,
        root,
    }
}

/// A line that holds one tag behind its tabs is taken as that tag.
proof fn lemma_fed_tag(st: Reader, depth: nat, t: Seq<char>)
    requires
        tag_shaped(t),
        st == resting(st.table, st.current_parent, st.root),
    ensures
        st.fed(tabs(depth) + t) == st.completed(seq!['\n'] + t),
{
    reveal(tag_shaped);
    let line = tabs(depth) + t;
    let d = depth as int;
    let n = line.len() as int;
    lemma_spaces();
    assert forall|k: int| 0 <= k < d implies line[k] == '\t' by {}
    assert forall|k: int| d <= k < n implies #[trigger] line[k] == t[k - d] by {}
    assert(line[n - 1] == t[t.len() - 1]);
    lemma_first_index(line, '>', 0);
    let gt = first_index(line, '>', 0);
    assert(gt < n);
    assert(!closes_comment(line)) by {
        if 2 <= gt && line[gt - 2] == '-' && line[gt - 1] == '-' {
            assert(gt - 2 >= d);
            reveal(no_arrow);
            let i = gt - 2 - d;
            assert(line[gt - 2] == t[i]);
            assert(line[gt - 1] == t[i + 1]);
            assert(line[gt] == t[i + 2]);
            assert(t[i] == '-' && t[i + 1] == '-' && t[i + 2] == '>');
        }
    }
    assert(line[d] == t[0]);
    lemma_first_index_is(line, '<', 0, d);
    assert(!opens_comment(line)) by {
        if d + 3 < n {
            assert(line[d + 1] == t[1]);
            assert(line[d + 2] == t[2]);
            assert(line[d + 3] == t[3]);
        }
    }
    lemma_trimmed_is(line, d, n);
    assert(line.subrange(d, n) =~= t);
    assert(st.pending_tag_text + seq!['\n'] + t =~= seq!['\n'] + t);
}

/// The opening and the self-closing tag of a plain element are tags as
/// `tag_shaped` asks.
proof fn lemma_tag_is_shaped(name: Seq<char>, attrs: Seq<(Seq<char>, Seq<char>)>, closed: bool)
    requires
        plain_name(name),
        plain_attributes(attrs),
    ensures
        tag_shaped(seq!['<'] + tag_body(name, attrs) + tag_end(closed)),
        seq!['\n'] + (seq!['<'] + tag_body(name, attrs) + tag_end(closed)) == pending_tag(
            name,
            attrs,
            closed,
        ),
{
    reveal(tag_shaped);
    let b = tag_body(name, attrs);
    let t = seq!['<'] + b + tag_end(closed);
    let n = b.len() as int;
    lemma_tag_body(name, attrs);
    lemma_tag_pairs(name, attrs, closed);
    assert forall|k: int| 1 <= k <= n implies #[trigger] t[k] == b[k - 1] by {}
    assert(seq!['\n'] + t =~= pending_tag(name, attrs, closed));
    assert(t[1] == b[0]);
    if n >= 2 {
        assert(t[2] == b[1]);
    }
    if n >= 3 {
        assert(t[3] == b[2]);
    }
}

/// The closing tag of a plain element is a tag as `tag_shaped` asks, and is
/// taken for a closing tag.
proof fn lemma_closing_tag(name: Seq<char>)
    requires
        plain_name(name),
    ensures
        tag_shaped(seq!['<', '/'] + name + seq!['>']),
        kind_of(seq!['\n'] + (seq!['<', '/'] + name + seq!['>'])) == TagKind::Closing,
{
    reveal(tag_shaped);
    let head = seq!['<', '/'] + name;
    let t = head + seq!['>'];
    let n = name.len() as int;
    lemma_quiet_without(name);
    lemma_quiet(seq!['<', '/']);
    lemma_quiet(seq!['>']);
    assert(head.last() == name.last());
    assert(head[head.len() - 2] == (if n >= 2 {
        name[n - 2]
    } else {
        '/'
    }));
    lemma_no_arrow_concat(seq!['<', '/'], name);
    lemma_no_arrow_concat(head, seq!['>']);
    let text = seq!['\n'] + t;
    assert(text[1int] == '<' && text[1int + 1] == '/');
}

/// The item that a tag makes of an element: the element's name and
/// attributes, and neither parent nor children.
pub open spec fn bare(e: Element) -> ItemView {
    ItemView { attributes: e.attributes, ..fresh(e.name) }
}

/// The table `v` after the tree `e` was put under the item at `p`: the
/// items of `e` follow those of `v`, each parent before its children and each
/// child before the next.
pub open spec fn grafted(v: Seq<ItemView>, p: usize, e: Element) -> Seq<ItemView>
    decreases e, 1nat,
{
    grafted_all(linked(v.push(bare(e)), p, v.len() as usize), v.len() as usize, e.children)
}

/// The table `v` after the trees `es` were put under the item at `p`, one
/// after the other.
pub open spec fn grafted_all(v: Seq<ItemView>, p: usize, es: Seq<Element>) -> Seq<ItemView>
    decreases es, 0nat,
{
    if es.len() == 0 {
        v
    } else {
        grafted(grafted_all(v, p, es.drop_last()), p, es.last())
    }
}

/// The table that holds the tree `e` and nothing else, the root first.
pub open spec fn planted(e: Element) -> Seq<ItemView> {
    grafted_all(seq![bare(e)], 0, e.children)
}

/// Every parent that an item names lies in the table.
spec fn parents_inside(v: Seq<ItemView>) -> bool {
    forall|j: int|
        0 <= j < v.len() && (#[trigger] v[j]).parent is Some ==> v[j].parent->0 < v.len()
}

/// The item at `at` of the table `v` is the root of the tree `e`: name,
/// attributes and children agree, and so on below; and every item of that
/// tree stands at a place from `lo` up to, but not including, `hi`.
spec fn shown_in(v: Seq<ItemView>, at: usize, e: Element, lo: int, hi: int) -> bool
    decreases e,
{
    &&& lo <= at < hi <= v.len()
    &&& v[at as int].name == e.name
    &&& v[at as int].attributes == e.attributes
    &&& v[at as int].nodes.len() == e.children.len()
    &&& forall|k: int|
        0 <= k < e.children.len() ==> shown_in(
            v,
            v[at as int].nodes[k],
            #[trigger] e.children[k],
            lo,
            hi,
        )
}

/// A tree that a table shows is shown by every table that holds the same
/// items at the same places, and within every wider stretch.
proof fn lemma_shown_kept(
    v: Seq<ItemView>,
    w: Seq<ItemView>,
    at: usize,
    e: Element,
    lo: int,
    hi: int,
    lo2: int,
    hi2: int,
)
    requires
        shown_in(v, at, e, lo, hi),
        forall|j: int| lo <= j < hi ==> #[trigger] w[j] == v[j],
        lo2 <= lo,
        hi <= hi2 <= w.len(),
    ensures
        shown_in(w, at, e, lo2, hi2),
    decreases e,
{
    assert(w[at as int] == v[at as int]);
    assert forall|k: int| 0 <= k < e.children.len() implies shown_in(
        w,
        w[at as int].nodes[k],
        #[trigger] e.children[k],
        lo2,
        hi2,
    ) by {
        lemma_shown_kept(v, w, v[at as int].nodes[k], e.children[k], lo, hi, lo2, hi2);
    }
}

/// What putting a tree under an item does to a table.
proof fn lemma_grafted(v: Seq<ItemView>, p: usize, e: Element)
    requires
        p < v.len(),
        v.len() + count(e) <= usize::MAX,
    ensures
        grafted(v, p, e).len() == v.len() + count(e),
        forall|j: int| 0 <= j < v.len() && j != p ==> #[trigger] grafted(v, p, e)[j] == v[j],
        grafted(v, p, e)[p as int] == (ItemView {
            nodes: v[p as int].nodes.push(v.len() as usize),
            ..v[p as int]
        }),
        grafted(v, p, e)[v.len() as int].parent == Some(p),
        shown_in(
            grafted(v, p, e),
            v.len() as usize,
            e,
            v.len() as int,
            grafted(v, p, e).len() as int,
        ),
        parents_inside(v) ==> parents_inside(grafted(v, p, e)),
    decreases e, 1nat,
{
    let base = v.len() as usize;
    let first = linked(v.push(bare(e)), p, base);
    let w = grafted(v, p, e);
    lemma_grafted_all(first, base, e.children);
    assert(first[base as int].nodes =~= Seq::<usize>::empty());
    assert(w[base as int].nodes =~= Seq::<usize>::empty() + w[base as int].nodes);
    assert forall|k: int| 0 <= k < e.children.len() implies shown_in(
        w,
        w[base as int].nodes[k],
        #[trigger] e.children[k],
        base as int,
        w.len() as int,
    ) by {
        lemma_shown_kept(
            w,
            w,
            w[base as int].nodes[k],
            e.children[k],
            base + 1,
            w.len() as int,
            base as int,
            w.len() as int,
        );
    }
    if parents_inside(v) {
        assert(parents_inside(first)) by {
            assert forall|j: int|
                0 <= j < first.len() && (#[trigger] first[j]).parent is Some implies first[j].parent->0
                < first.len() by {
                if j < v.len() {
                    assert(first[j].parent == v[j].parent);
                }
            }
        }
    }
}

/// What putting trees under an item does to a table.
proof fn lemma_grafted_all(v: Seq<ItemView>, p: usize, es: Seq<Element>)
    requires
        p < v.len(),
        v.len() + count_all(es) <= usize::MAX,
    ensures
        grafted_all(v, p, es).len() == v.len() + count_all(es),
        forall|j: int| 0 <= j < v.len() && j != p ==> #[trigger] grafted_all(v, p, es)[j] == v[j],
        grafted_all(v, p, es)[p as int].name == v[p as int].name,
        grafted_all(v, p, es)[p as int].attributes == v[p as int].attributes,
        grafted_all(v, p, es)[p as int].parent == v[p as int].parent,
        grafted_all(v, p, es)[p as int].nodes.len() == v[p as int].nodes.len() + es.len(),
        grafted_all(v, p, es)[p as int].nodes.take(v[p as int].nodes.len() as int)
            == v[p as int].nodes,
        forall|k: int|
            0 <= k < es.len() ==> shown_in(
                grafted_all(v, p, es),
                grafted_all(v, p, es)[p as int].nodes[v[p as int].nodes.len() + k],
                #[trigger] es[k],
                v.len() as int,
                grafted_all(v, p, es).len() as int,
            ),
        parents_inside(v) ==> parents_inside(grafted_all(v, p, es)),
    decreases es, 0nat,
{
    let w = grafted_all(v, p, es);
    let old = v[p as int].nodes.len() as int;
    if es.len() == 0 {
        assert(w[p as int].nodes.take(old) =~= v[p as int].nodes);
    } else {
        let u = grafted_all(v, p, es.drop_last());
        let last = es.last();
        lemma_grafted_all(v, p, es.drop_last());
        lemma_grafted(u, p, last);
        assert(w[p as int].nodes.take(old) =~= u[p as int].nodes.take(old));
        assert forall|k: int| 0 <= k < es.len() implies shown_in(
            w,
            w[p as int].nodes[old + k],
            #[trigger] es[k],
            v.len() as int,
            w.len() as int,
        ) by {
            if k < es.len() - 1 {
                assert(es.drop_last()[k] == es[k]);
                assert(w[p as int].nodes[old + k] == u[p as int].nodes[old + k]);
                lemma_shown_kept(
                    u,
                    w,
                    u[p as int].nodes[old + k],
                    es[k],
                    v.len() as int,
                    u.len() as int,
                    v.len() as int,
                    w.len() as int,
                );
            } else {
                assert(w[p as int].nodes[old + k] == u.len() as usize);
                lemma_shown_kept(
                    w,
                    w,
                    u.len() as usize,
                    last,
                    u.len() as int,
                    w.len() as int,
                    v.len() as int,
                    w.len() as int,
                );
            }
        }
    }
}

/// Reading two lists of lines, one after the other, is reading the first
/// and then the second.
proof fn lemma_fed_all_concat(st: Reader, a: Seq<Seq<char>>, b: Seq<Seq<char>>)
    ensures
        st.fed_all(a + b) == (match st.fed_all(a) {
            Err(e) => Err(e),
            Ok(next) => next.fed_all(b),
        }),
    decreases a.len(),
{
    if a.len() == 0 {
        assert(a + b =~= b);
    } else {
        assert((a + b)[0] == a[0]);
        assert((a + b).drop_first() =~= a.drop_first() + b);
        match st.fed(a[0]) {
            Ok(next) => {
                lemma_fed_all_concat(next, a.drop_first(), b);
            },
            Err(_) => {},
        }
    }
}

/// Reading a list of one line is reading that line.
proof fn lemma_fed_one(st: Reader, line: Seq<char>)
    ensures
        st.fed_all(seq![line]) == st.fed(line),
{
    let lines = seq![line];
    assert(lines[0] == line);
    assert(lines.drop_first() =~= Seq::<Seq<char>>::empty());
    reveal_with_fuel(Reader::fed_all, 2);
}

/// Going up from an item never leads to an item that was put into the table
/// after it.
proof fn lemma_new_item_not_above(v: Seq<ItemView>, item: ItemView, p: usize, n: nat)
    requires
        parents_inside(v),
        p < v.len(),
    ensures
        nth_ancestor(v.push(item), p, n) matches Some(a) ==> a < v.len(),
    decreases n,
{
    if n > 0 {
        lemma_new_item_not_above(v, item, p, (n - 1) as nat);
        match nth_ancestor(v.push(item), p, (n - 1) as nat) {
            Some(a) => {
                assert(v.push(item)[a as int] == v[a as int]);
            },
            None => {},
        }
    }
}

/// A new item goes under any item of the table.
proof fn lemma_put_under(v: Seq<ItemView>, item: ItemView, p: usize)
    requires
        parents_inside(v),
        p < v.len(),
        v.len() < usize::MAX,
        item.parent is None,
    ensures
        added(v.push(item), Some(p), Some(v.len() as usize)) == linked(
            v.push(item),
            p,
            v.len() as usize,
        ),
        parents_inside(linked(v.push(item), p, v.len() as usize)),
{
    let w = v.push(item);
    let at = v.len() as usize;
    assert forall|n: nat| nth_ancestor(w, p, n) != Some(at) by {
        lemma_new_item_not_above(v, item, p, n);
    }
    assert(!is_above(w, at, p));
    assert(can_attach(w, Some(p), Some(at)));
    assert(detached(w, at) == w);
    let l = linked(w, p, at);
    assert forall|j: int|
        0 <= j < l.len() && (#[trigger] l[j]).parent is Some implies l[j].parent->0 < l.len() by {
        if j < v.len() {
            assert(l[j].parent == v[j].parent);
        }
    }
}

/// The lines of a plain tree, read while the item at `p` is the current
/// parent, put the tree under that item and leave the reader where it was.
proof fn lemma_reads_element(
    v: Seq<ItemView>,
    p: usize,
    root: XmlItemRc,
    e: Element,
    depth: nat,
)
    requires
        plain_tree(e),
        parents_inside(v),
        p < v.len(),
        v.len() + count(e) <= usize::MAX,
        root is Some,
    ensures
        resting(v, Some(p), root).fed_all(lines_of(e, depth)) == Ok::<Reader, XmlError>(
            resting(grafted(v, p, e), Some(p), root),
        ),
    decreases e, 1nat,
{
    let st = resting(v, Some(p), root);
    let base = v.len() as usize;
    let first = linked(v.push(bare(e)), p, base);
    let w = grafted(v, p, e);
    let closed = e.children.len() == 0;
    let tag = seq!['<'] + tag_body(e.name, e.attributes) + tag_end(closed);
    lemma_put_under(v, bare(e), p);
    lemma_tag_is_shaped(e.name, e.attributes, closed);
    lemma_tag_inside(e.name, e.attributes, closed);
    lemma_item_of_tag(e.name, e.attributes, closed);
    lemma_fed_tag(st, depth, tag);
    let line = tabs(depth) + tag;
    assert(tabs(depth) + tag_head(e) + tag_end(closed) =~= line);
    if closed {
        assert(lines_of(e, depth) =~= seq![line]);
        lemma_fed_one(st, line);
        assert(st.fed(line) == Ok::<Reader, XmlError>(resting(first, Some(p), root)));
    } else {
        let s1 = resting(first, Some(base), root);
        assert(st.fed(line) == Ok::<Reader, XmlError>(s1));
        lemma_reads_elements(first, base, root, e.children, depth + 1);
        let s2 = resting(w, Some(base), root);
        lemma_grafted(v, p, e);
        let close = seq!['<', '/'] + e.name + seq!['>'];
        lemma_closing_tag(e.name);
        lemma_fed_tag(s2, depth, close);
        assert(parent_of(w, Some(base)) == Some(p));
        assert(s2.fed(tabs(depth) + close) == Ok::<Reader, XmlError>(resting(w, Some(p), root)));
        let a = seq![line];
        let b = lines_of_all(e.children, depth + 1);
        let c = seq![tabs(depth) + close];
        assert(tabs(depth) + seq!['<', '/'] + e.name + seq!['>'] =~= tabs(depth) + close);
        assert(lines_of(e, depth) =~= (a + b) + c);
        lemma_fed_one(st, line);
        lemma_fed_all_concat(st, a, b);
        lemma_fed_one(s2, tabs(depth) + close);
        lemma_fed_all_concat(st, a + b, c);
    }
}

/// The lines of plain trees, read while the item at `p` is the current
/// parent, put the trees under that item, one after the other, and leave the
/// reader where it was.
proof fn lemma_reads_elements(
    v: Seq<ItemView>,
    p: usize,
    root: XmlItemRc,
    es: Seq<Element>,
    depth: nat,
)
    requires
        forall|k: int| 0 <= k < es.len() ==> plain_tree(#[trigger] es[k]),
        parents_inside(v),
        p < v.len(),
        v.len() + count_all(es) <= usize::MAX,
        root is Some,
    ensures
        resting(v, Some(p), root).fed_all(lines_of_all(es, depth)) == Ok::<Reader, XmlError>(
            resting(grafted_all(v, p, es), Some(p), root),
        ),
    decreases es, 0nat,
{
    let st = resting(v, Some(p), root);
    if es.len() > 0 {
        let u = grafted_all(v, p, es.drop_last());
        assert forall|k: int| 0 <= k < es.drop_last().len() implies plain_tree(
            #[trigger] es.drop_last()[k],
        ) by {
            assert(es.drop_last()[k] == es[k]);
        }
        lemma_reads_elements(v, p, root, es.drop_last(), depth);
        lemma_grafted_all(v, p, es.drop_last());
        lemma_reads_element(u, p, root, es.last(), depth);
        lemma_fed_all_concat(st, lines_of_all(es.drop_last(), depth), lines_of(es.last(), depth));
    }
}

/// The lines of a plain tree whose root has a child are read as the table
/// that holds that tree, the root first.
pub proof fn lemma_reads_document(e: Element)
    requires
        plain_tree(e),
        e.children.len() > 0,
        count(e) <= usize::MAX,
    ensures
        document_of(lines_of(e, 0)) == Ok::<(Seq<ItemView>, XmlItemRc), XmlError>(
            (planted(e), Some(0usize)),
        ),
{
    let st = Reader::start();
    assert(st == resting(Seq::empty(), None, None));
    let tag = seq!['<'] + tag_body(e.name, e.attributes) + tag_end(false);
    lemma_tag_is_shaped(e.name, e.attributes, false);
    lemma_tag_inside(e.name, e.attributes, false);
    lemma_item_of_tag(e.name, e.attributes, false);
    lemma_fed_tag(st, 0, tag);
    let line = tabs(0) + tag;
    assert(tabs(0) + tag_head(e) + tag_end(false) =~= line);
    let first = seq![bare(e)];
    assert(Seq::<ItemView>::empty().push(bare(e)) =~= first);
    let top = Some(0usize);
    let s1 = resting(first, top, top);
    assert(st.fed(line) == Ok::<Reader, XmlError>(s1));
    lemma_reads_elements(first, 0, top, e.children, 1);
    let w = planted(e);
    let s2 = resting(w, top, top);
    lemma_grafted_all(first, 0, e.children);
    let close = seq!['<', '/'] + e.name + seq!['>'];
    lemma_closing_tag(e.name);
    lemma_fed_tag(s2, 0, close);
    assert(parent_of(w, top) is None);
    let s3 = resting(w, None, top);
    assert(s2.fed(tabs(0) + close) == Ok::<Reader, XmlError>(s3));
    let a = seq![line];
    let b = lines_of_all(e.children, 1);
    let c = seq![tabs(0) + close];
    assert(tabs(0) + seq!['<', '/'] + e.name + seq!['>'] =~= tabs(0) + close);
    assert(lines_of(e, 0) =~= (a + b) + c);
    lemma_fed_one(st, line);
    lemma_fed_all_concat(st, a, b);
    lemma_fed_one(s2, tabs(0) + close);
    lemma_fed_all_concat(st, a + b, c);
}

/// A tree that a document shows at an item is the tree below that item.
proof fn lemma_shown_is_element(dom: XmlDom, at: usize, e: Element, lo: int, hi: int)
    requires
        dom.wf(),
        shown_in(dom@, at, e, lo, hi),
    ensures
        dom.element(at) == e,
    decreases e,
{
    let v = dom@;
    let found = dom.element(at);
    assert(found.children.len() == e.children.len());
    assert forall|k: int| 0 <= k < e.children.len() implies found.children[k] == e.children[k] by {
        lemma_shown_is_element(dom, v[at as int].nodes[k], e.children[k], lo, hi);
    }
    assert(found.children =~= e.children);
}

/// A document whose table is that of a tree alone holds that tree at its
/// first place.
pub proof fn lemma_planted_is_element(dom: XmlDom, e: Element)
    requires
        dom.wf(),
        dom@ == planted(e),
        count(e) <= usize::MAX,
    ensures
        dom.element(0) == e,
{
    let first = seq![bare(e)];
    let w = planted(e);
    lemma_grafted_all(first, 0, e.children);
    assert(first[0].nodes =~= Seq::<usize>::empty());
    assert forall|k: int| 0 <= k < e.children.len() implies shown_in(
        w,
        w[0].nodes[k],
        #[trigger] e.children[k],
        0,
        w.len() as int,
    ) by {
        lemma_shown_kept(w, w, w[0].nodes[k], e.children[k], 1, w.len() as int, 0, w.len() as int);
    }
    lemma_shown_is_element(dom, 0, e, 0, w.len() as int);
}

/// No line of a plain tree holds a line feed.
proof fn lemma_lines_are_lines(e: Element, depth: nat)
    requires
        plain_tree(e),
    ensures
        lines_of(e, depth).len() > 0,
        forall|i: int| 0 <= i < lines_of(e, depth).len() ==> free_of(
            #[trigger] lines_of(e, depth)[i],
            '\n',
        ),
    decreases e, 1nat,
{
    let lines = lines_of(e, depth);
    let closed = e.children.len() == 0;
    let body = tag_body(e.name, e.attributes);
    lemma_tag_body(e.name, e.attributes);
    let first = tabs(depth) + tag_head(e) + tag_end(closed);
    assert(free_of(first, '\n')) by {
        assert(first =~= tabs(depth) + seq!['<'] + body + tag_end(closed));
        assert forall|i: int| 0 <= i < first.len() implies first[i] != '\n' by {
            if i < depth {
            } else if i == depth {
            } else if i < depth + 1 + body.len() {
                assert(first[i] == body[i - depth - 1]);
            } else {
            }
        }
    }
    if !closed {
        let last = tabs(depth) + seq!['<', '/'] + e.name + seq!['>'];
        assert(free_of(last, '\n')) by {
            lemma_spaces();
            assert forall|i: int| 0 <= i < last.len() implies last[i] != '\n' by {
                if depth + 2 <= i < depth + 2 + e.name.len() {
                    assert(last[i] == e.name[i - depth - 2]);
                }
            }
        }
        let inner = lines_of_all(e.children, depth + 1);
        lemma_all_lines_are_lines(e.children, depth + 1);
        assert(lines =~= seq![first] + inner + seq![last]);
        assert forall|i: int| 0 <= i < lines.len() implies free_of(#[trigger] lines[i], '\n') by {
            if i == 0 {
            } else if i <= inner.len() {
                assert(lines[i] == inner[i - 1]);
            } else {
            }
        }
    }
}

/// No line of plain trees holds a line feed.
proof fn lemma_all_lines_are_lines(es: Seq<Element>, depth: nat)
    requires
        forall|k: int| 0 <= k < es.len() ==> plain_tree(#[trigger] es[k]),
    ensures
        forall|i: int| 0 <= i < lines_of_all(es, depth).len() ==> free_of(
            #[trigger] lines_of_all(es, depth)[i],
            '\n',
        ),
    decreases es, 0nat,
{
    if es.len() > 0 {
        assert forall|k: int| 0 <= k < es.drop_last().len() implies plain_tree(
            #[trigger] es.drop_last()[k],
        ) by {
            assert(es.drop_last()[k] == es[k]);
        }
        lemma_all_lines_are_lines(es.drop_last(), depth);
        lemma_lines_are_lines(es.last(), depth);
        let a = lines_of_all(es.drop_last(), depth);
        let b = lines_of(es.last(), depth);
        let all = lines_of_all(es, depth);
        assert forall|i: int| 0 <= i < all.len() implies free_of(#[trigger] all[i], '\n') by {
            if i < a.len() {
                assert(all[i] == a[i]);
            } else {
                assert(all[i] == b[i - a.len()]);
            }
        }
    }
}

/// Lines that hold no line feed are the lines of the text that joins them.
proof fn lemma_lines_in_joined(lines: Seq<Seq<char>>)
    requires
        lines.len() > 0,
        forall|i: int| 0 <= i < lines.len() ==> free_of(#[trigger] lines[i], '\n'),
    ensures
        lines_in(joined(lines)) == lines,
    decreases lines.len(),
{
    let first = lines[0];
    let text = joined(lines);
    assert(free_of(first, '\n'));
    if lines.len() == 1 {
        lemma_first_index_is(text, '\n', 0, text.len() as int);
        assert(lines =~= seq![text]);
    } else {
        let rest = lines.drop_first();
        assert(lines =~= seq![first] + rest);
        lemma_joined_concat(seq![first], rest);
        let after = joined(rest);
        assert(text == first + seq!['\n'] + after);
        let at = first.len() as int;
        assert forall|k: int| 0 <= k < at implies text[k] != '\n' by {
            assert(text[k] == first[k]);
        }
        assert(text[at] == '\n');
        lemma_first_index_is(text, '\n', 0, at);
        assert(text.subrange(0, at) =~= first);
        assert(text.subrange(at + 1, text.len() as int) =~= after);
        assert forall|i: int| 0 <= i < rest.len() implies free_of(#[trigger] rest[i], '\n') by {
            assert(rest[i] == lines[i + 1]);
        }
        lemma_lines_in_joined(rest);
    }
}

/// The text of a plain tree whose root has a child is read as the table that
/// holds that tree, the root first.
pub proof fn lemma_written_is_read(e: Element)
    requires
        plain_tree(e),
        e.children.len() > 0,
        count(e) <= usize::MAX,
    ensures
        lines_in(rendered(e, 0)) == lines_of(e, 0),
        document_of(lines_in(rendered(e, 0))) == Ok::<(Seq<ItemView>, XmlItemRc), XmlError>(
            (planted(e), Some(0usize)),
        ),
{
    lemma_lines_are_lines(e, 0);
    lemma_lines_in_joined(lines_of(e, 0));
    lemma_reads_document(e);
}

/// Reading what was written gives the same tree: where a document reads the
/// text of a plain tree whose root has a child, its root stands for a tree
/// with the same names, the same attributes and the same children in the
/// same order.
pub proof fn lemma_round_trip(dom: XmlDom, at: usize, again: XmlDom, top: XmlItemRc)
    requires
        dom.wf(),
        at < dom@.len(),
        dom@[at as int].nodes.len() > 0,
        plain_tree(dom.element(at)),
        again.wf(),
        document_of(lines_in(rendered(dom.element(at), 0))) == Ok::<
            (Seq<ItemView>, XmlItemRc),
            XmlError,
        >((again@, top)),
    ensures
        top == Some(0usize),
        again.element(0) == dom.element(at),
{
    let e = dom.element(at);
    dom.lemma_count_fits(at);
    lemma_written_is_read(e);
    lemma_planted_is_element(again, e);
}

} // verus!
