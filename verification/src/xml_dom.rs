//! Reading a document: from lines of text to a tree of items.
//!
//! A document is read line by line. A tag may be spread over several lines,
//! so the reader collects lines until a `<` and a `>` have both been seen; it
//! then reads the tag and changes the tree. Comments are skipped.
use crate::error::XmlError;
use crate::text::{
    contains_pair, find_char, find_space, first_index, first_space, has_pair, last_index,
    lemma_trimmed, rfind_char, to_chars, to_text, trim_chars, trimmed, unfold_lines, unfolded,
};
use crate::xml_item::{
    added, assigned, fresh, holds, parent_of, ItemView, XmlDom, XmlItem, XmlItemRc,
};
use vstd::prelude::*;
use vstd::slice::slice_subrange;

verus! {

/// What a tag does to the tree.
#[derive(Clone, Copy, Debug, PartialEq, Eq, Structural)]
pub enum TagKind {
    /// `</name>`: the item that is open is done.
    Closing,
    /// `<name .../>`: an item without children.
    SelfClosing,
    /// `<name ...>`: an item whose children follow.
    Opening,
}

/// The kind of a tag: closing where `</` stands anywhere in it, else
/// self-closing where `/>` does, else opening.
pub open spec fn kind_of(tag: Seq<char>) -> TagKind {
    if has_pair(tag, '<', '/') {
        TagKind::Closing
    } else if has_pair(tag, '/', '>') {
        TagKind::SelfClosing
    } else {
        TagKind::Opening
    }
}

/// What stands between the brackets of a tag, without the white space at its
/// ends: the text behind the first `<` (and behind the `/` of `</`) and before
/// the last `>` (and before the `/` of `/>`), line feeds taken as blanks.
/// `None` where one of the brackets is missing.
pub open spec fn tag_inside(tag: Seq<char>) -> Option<Seq<char>> {
    let t = trimmed(unfolded(tag));
    let lt = first_index(t, '<', 0);
    let gt = last_index(t, '>', t.len() as int);
    if lt >= t.len() || gt < 0 {
        None
    } else {
        let begin = lt + 1 + (if has_pair(t, '<', '/') {
            1int
        } else {
            0int
        });
        let end = gt - (if has_pair(t, '/', '>') {
            1int
        } else {
            0int
        });
        Some(
            if begin < end {
                trimmed(t.subrange(begin, end))
            } else {
                Seq::empty()
            },
        )
    }
}

/// The name in a tag: what stands between the brackets up to the first white
/// space. `None` where a bracket is missing or nothing is left for the name.
pub open spec fn tag_name(tag: Seq<char>) -> Option<Seq<char>> {
    match tag_inside(tag) {
        None => None,
        Some(inside) => {
            let name = inside.subrange(0, first_space(inside, 0));
            if name.len() == 0 {
                None
            } else {
                Some(name)
            }
        },
    }
}

/// The text of the attributes in a tag: what stands between the brackets
/// behind the first white space.
pub open spec fn tag_attribute_text(tag: Seq<char>) -> Seq<char> {
    match tag_inside(tag) {
        None => Seq::empty(),
        Some(inside) => {
            let at = first_space(inside, 0);
            if at < inside.len() {
                inside.subrange(at + 1, inside.len() as int)
            } else {
                Seq::empty()
            }
        },
    }
}

/// The first double quote at or after `from` that has no backslash directly
/// before it; `s.len()` where there is none.
pub open spec fn closing_quote(s: Seq<char>, from: int) -> int
    decreases s.len() - from,
{
    if from < 1 || from >= s.len() {
        s.len() as int
    } else if s[from] == '"' && s[from - 1] != '\\' {
        from
    } else {
        closing_quote(s, from + 1)
    }
}

/// The attributes that a text holds, in order. The text is read from the
/// left: a name up to the first `=`, then a value between the next `"` and
/// the first `"` behind it that has no backslash before it, taken as it
/// stands; then the same again on what follows. Reading stops without
/// complaint where there is no `=`, or nothing before it, or no opening or
/// closing quote.
pub open spec fn attributes_in(text: Seq<char>) -> Seq<(Seq<char>, Seq<char>)>
    decreases text.len(),
{
    let t = trimmed(text);
    let eq = first_index(t, '=', 0);
    let open = first_index(t, '"', eq + 1);
    let close = closing_quote(t, open + 1);
    if 0 < eq < t.len() && open < t.len() && close < t.len() {
        let rest = t.subrange(close + 1, t.len() as int);
        seq![(trimmed(t.subrange(0, eq)), t.subrange(open + 1, close))] + (if rest.len()
            < text.len() {
            attributes_in(rest)
        } else {
            Seq::empty()
        })
    } else {
        Seq::empty()
    }
}

/// The attributes `attrs` after each of `pairs` was given to them in turn.
pub open spec fn assigned_all(
    attrs: Seq<(Seq<char>, Seq<char>)>,
    pairs: Seq<(Seq<char>, Seq<char>)>,
) -> Seq<(Seq<char>, Seq<char>)>
    decreases pairs.len(),
{
    if pairs.len() == 0 {
        attrs
    } else {
        assigned_all(assigned(attrs, pairs[0].0, pairs[0].1), pairs.drop_first())
    }
}

/// The item that a tag describes: its name and its attributes, no parent and
/// no children. `None` where the tag has no name.
pub open spec fn item_of_tag(tag: Seq<char>) -> Option<ItemView> {
    match tag_name(tag) {
        None => None,
        Some(name) => Some(
            ItemView {
                attributes: assigned_all(Seq::empty(), attributes_in(tag_attribute_text(tag))),
                ..fresh(name)
            },
        ),
    }
}

/// How far a document has been read.
pub struct Reader {
    /// The items made so far.
    pub table: Seq<ItemView>,
    /// The lines of the tag that is being collected, each trimmed and with a
    /// line feed before it.
    pub pending_tag_text: Seq<char>,
    /// A `<` has been seen since the last tag was done.
    pub tag_open_seen: bool,
    /// A `>` has been seen since the last tag was done.
    pub tag_close_seen: bool,
    /// The reader is inside a comment.
    pub in_comment: bool,
    /// The item under which the next one goes.
    pub current_parent: XmlItemRc,
    /// The document's root, once there is one.
    pub root: XmlItemRc,
}

/// The line ends a comment: the first `>` in it stands behind `--`.
pub open spec fn closes_comment(line: Seq<char>) -> bool {
    let gt = first_index(line, '>', 0);
    2 <= gt < line.len() && line[gt - 2] == '-' && line[gt - 1] == '-'
}

/// The line begins a comment: the first `<` in it stands before `!--`.
pub open spec fn opens_comment(line: Seq<char>) -> bool {
    let lt = first_index(line, '<', 0);
    lt + 3 < line.len() && line[lt + 1] == '!' && line[lt + 2] == '-' && line[lt + 3] == '-'
}

impl Reader {
    /// The reader before the first line.
    pub open spec fn start() -> Reader {
        Reader {
            table: Seq::empty(),
            pending_tag_text: Seq::empty(),
            tag_open_seen: false,
            tag_close_seen: false,
            in_comment: false,
            current_parent: None,
            root: None,
        }
    }

    /// The reader after a tag was done: nothing is pending.
    pub open spec fn rested(self) -> Reader {
        Reader {
            pending_tag_text: Seq::empty(),
            tag_open_seen: false,
            tag_close_seen: false,
            ..self
        }
    }

    /// The reader after the complete tag `tag`.
    ///
    /// A closing tag moves the current parent one level up, to its own
    /// parent; where no item is open it changes nothing. A self-closing tag
    /// makes an item under the current parent. An opening tag makes an item,
    /// puts it under the current parent where there is one, and makes it the
    /// current parent; the first such item is the root.
    pub open spec fn completed(self, tag: Seq<char>) -> Result<Reader, XmlError> {
        match kind_of(tag) {
            TagKind::Closing => Ok(
                Reader {
                    current_parent: parent_of(self.table, self.current_parent),
                    ..self.rested()
                },
            ),
            TagKind::SelfClosing => match item_of_tag(tag) {
                None => Err(XmlError::MalformedTag),
                Some(item) => {
                    let node = Some(self.table.len() as usize);
                    Ok(
                        Reader {
                            table: added(self.table.push(item), self.current_parent, node),
                            ..self.rested()
                        },
                    )
                },
            },
            TagKind::Opening => match item_of_tag(tag) {
                None => Err(XmlError::MalformedTag),
                Some(item) => {
                    let node = Some(self.table.len() as usize);
                    Ok(
                        Reader {
                            table: added(self.table.push(item), self.current_parent, node),
                            current_parent: node,
                            root: if self.root is None {
                                node
                            } else {
                                self.root
                            },
                            ..self.rested()
                        },
                    )
                },
            },
        }
    }

    /// The reader after one more line.
    ///
    /// A line that ends a comment, a line that begins one and every line
    /// inside one are skipped: they change nothing but whether the reader is
    /// inside a comment. Any other line counts for the tag that is being
    /// collected, and goes to its text unless it is blank. The tag is
    /// complete once a `>` has been seen; a `>` with no `<` before it in the
    /// same tag is refused.
    pub open spec fn fed(self, line: Seq<char>) -> Result<Reader, XmlError> {
        if closes_comment(line) {
            Ok(Reader { in_comment: false, ..self })
        } else if opens_comment(line) {
            Ok(Reader { in_comment: true, ..self })
        } else if self.in_comment {
            Ok(self)
        } else {
            let close = self.tag_close_seen || first_index(line, '>', 0) < line.len();
            let open = self.tag_open_seen || first_index(line, '<', 0) < line.len();
            let text = if trimmed(line).len() > 0 {
                self.pending_tag_text + seq!['\n'] + trimmed(line)
            } else {
                self.pending_tag_text
            };
            if !close {
                Ok(Reader { pending_tag_text: text, tag_open_seen: open, ..self })
            } else if !open {
                Err(XmlError::UnmatchedClose)
            } else {
                self.completed(text)
            }
        }
    }

    /// The reader after the lines `lines`, or the reason for which one of
    /// them was refused.
    pub open spec fn fed_all(self, lines: Seq<Seq<char>>) -> Result<Reader, XmlError>
        decreases lines.len(),
    {
        if lines.len() == 0 {
            Ok(self)
        } else {
            match self.fed(lines[0]) {
                Err(e) => Err(e),
                Ok(next) => next.fed_all(lines.drop_first()),
            }
        }
    }

    /// What reading ends with: the table and the root, or `CannotOpen` where
    /// no root was set up.
    pub open spec fn outcome(self) -> Result<(Seq<ItemView>, XmlItemRc), XmlError> {
        if self.root is None {
            Err(XmlError::CannotOpen)
        } else {
            Ok((self.table, self.root))
        }
    }
}

/// What a list of lines is read as: the table of the document and its root,
/// or the reason for which the lines are refused.
pub open spec fn document_of(lines: Seq<Seq<char>>) -> Result<
    (Seq<ItemView>, XmlItemRc),
    XmlError,
> {
    match Reader::start().fed_all(lines) {
        Err(e) => Err(e),
        Ok(reader) => reader.outcome(),
    }
}

/// The lines of a text: what stands between its line feeds.
pub open spec fn lines_in(text: Seq<char>) -> Seq<Seq<char>>
    decreases text.len(),
{
    let at = first_index(text, '\n', 0);
    if 0 <= at < text.len() {
        seq![text.subrange(0, at)] + lines_in(text.subrange(at + 1, text.len() as int))
    } else {
        seq![text]
    }
}

/// Finds the first double quote at or after `from` that has no backslash
/// directly before it; gives `s.len()` where there is none.
fn find_closing_quote(s: &[char], from: usize) -> (r: usize)
    ensures
        r == closing_quote(s@, from as int),
        r <= s@.len(),
        r < s@.len() ==> from <= r,
{
    if from < 1 || from >= s.len() {
        return s.len();
    }
    let mut i: usize = from;
    while i < s.len() && !(s[i] == '"' && s[i - 1] != '\\')
        invariant
            1 <= from <= i <= s.len(),
            closing_quote(s@, from as int) == closing_quote(s@, i as int),
        decreases s.len() - i,
    {
        i += 1;
    }
    i
}

/// Gives the item at `at` the attributes that `text` holds, in order.
fn read_attributes(dom: &mut XmlDom, at: usize, text: &[char])
    requires
        old(dom).wf(),
        at < old(dom)@.len(),
    ensures
        final(dom).wf(),
        final(dom)@ == old(dom)@.update(
            at as int,
            ItemView {
                attributes: assigned_all(old(dom)@[at as int].attributes, attributes_in(text@)),
                ..old(dom)@[at as int]
            },
        ),
{
    let ghost v = dom@;
    let ghost goal = assigned_all(v[at as int].attributes, attributes_in(text@));
    let mut rest: &[char] = text;
    assert(dom@ =~= v.update(
        at as int,
        ItemView { attributes: v[at as int].attributes, ..v[at as int] },
    ));
    loop
        invariant
            dom.wf(),
            v == old(dom)@,
            goal == assigned_all(v[at as int].attributes, attributes_in(text@)),
            at < v.len(),
            dom@ == v.update(
                at as int,
                ItemView { attributes: dom@[at as int].attributes, ..v[at as int] },
            ),
            assigned_all(dom@[at as int].attributes, attributes_in(rest@)) == goal,
        decreases rest@.len(),
    {
        let t = trim_chars(rest);
        proof {
            lemma_trimmed(rest@);
        }
        let eq = find_char(t, '=', 0);
        if eq == 0 || eq >= t.len() {
            return ;
        }
        let open = find_char(t, '"', eq + 1);
        if open >= t.len() {
            return ;
        }
        let close = find_closing_quote(t, open + 1);
        if close >= t.len() {
            return ;
        }
        let name = to_text(trim_chars(slice_subrange(t, 0, eq)));
        let value = to_text(slice_subrange(t, open + 1, close));
        let ghost now = dom@;
        let ghost pair = (name@, value@);
        let ghost all = attributes_in(rest@);
        XmlItem::set_attribute(dom, Some(at), name, value);
        rest = slice_subrange(t, close + 1, t.len());
        proof {
            assert(all == seq![pair] + attributes_in(rest@));
            assert(all[0] == pair);
            assert(all.drop_first() =~= attributes_in(rest@));
            assert(dom@[at as int].attributes == assigned(
                now[at as int].attributes,
                pair.0,
                pair.1,
            ));
            assert(dom@ =~= v.update(
                at as int,
                ItemView { attributes: dom@[at as int].attributes, ..v[at as int] },
            ));
        }
    }
}

impl XmlDom {
    /// Gives the item the attributes that the text `attributes` holds, in the
    /// order in which they stand there. Where `rc` names no item nothing
    /// happens.
    pub fn parse_attributes(&mut self, rc: XmlItemRc, attributes: String)
        requires
            old(self).wf(),
        ensures
            final(self).wf(),
            final(self)@ == (if holds(old(self)@, rc) {
                old(self)@.update(
                    rc->0 as int,
                    ItemView {
                        attributes: assigned_all(
                            old(self)@[rc->0 as int].attributes,
                            attributes_in(attributes@),
                        ),
                        ..old(self)@[rc->0 as int]
                    },
                )
            } else {
                old(self)@
            }),
    {
        if let Some(at) = rc {
            if at < self.len() {
                let text = to_chars(attributes.as_str());
                read_attributes(self, at, text.as_slice());
            }
        }
    }

    /// Reads a tag and puts the item that it describes into the document,
    /// with the tag's name and attributes and with neither parent nor
    /// children. A tag without brackets or without a name is refused, and the
    /// document stays as it was.
    pub fn parse_tag(&mut self, tag: String) -> (r: Result<XmlItemRc, XmlError>)
        requires
            old(self).wf(),
        ensures
            final(self).wf(),
            item_of_tag(tag@) is None ==> r == Err::<XmlItemRc, XmlError>(XmlError::MalformedTag),
            item_of_tag(tag@) is None ==> final(self)@ == old(self)@,
            item_of_tag(tag@) is Some ==> r == Ok::<XmlItemRc, XmlError>(
                Some(old(self)@.len() as usize),
            ),
            item_of_tag(tag@) is Some ==> final(self)@ == old(self)@.push(item_of_tag(tag@)->0),
    {
        let raw = to_chars(tag.as_str());
        read_tag(self, raw.as_slice())
    }
}

/// Reads a tag as `XmlDom::parse_tag` does, from its characters.
fn read_tag(dom: &mut XmlDom, tag: &[char]) -> (r: Result<XmlItemRc, XmlError>)
    requires
        old(dom).wf(),
    ensures
        final(dom).wf(),
        item_of_tag(tag@) is None ==> r == Err::<XmlItemRc, XmlError>(XmlError::MalformedTag),
        item_of_tag(tag@) is None ==> final(dom)@ == old(dom)@,
        item_of_tag(tag@) is Some ==> r == Ok::<XmlItemRc, XmlError>(
            Some(old(dom)@.len() as usize),
        ),
        item_of_tag(tag@) is Some ==> final(dom)@ == old(dom)@.push(item_of_tag(tag@)->0),
{
    let flat = unfold_lines(tag);
    let t = trim_chars(flat.as_slice());
    let lt = find_char(t, '<', 0);
    let gt = match rfind_char(t, '>') {
        Some(gt) => gt,
        None => { return Err(XmlError::MalformedTag); },
    };
    if lt >= t.len() {
        return Err(XmlError::MalformedTag);
    }
    let mut begin = lt + 1;
    if contains_pair(t, '<', '/') && begin < t.len() {
        begin += 1;
    }
    let mut end = gt;
    if contains_pair(t, '/', '>') && end > 0 {
        end -= 1;
    }
    let inside = if begin < end {
        trim_chars(slice_subrange(t, begin, end))
    } else {
        slice_subrange(t, 0, 0)
    };
    assert(tag_inside(tag@) == Some(inside@));
    let at = find_space(inside, 0);
    if at == 0 {
        return Err(XmlError::MalformedTag);
    }
    let name = to_text(slice_subrange(inside, 0, at));
    let rc = match XmlItem::new(dom, name) {
        Ok(rc) => rc,
        Err(_) => { return Err(XmlError::MalformedTag); },
    };
    let text = if at < inside.len() {
        slice_subrange(inside, at + 1, inside.len())
    } else {
        slice_subrange(inside, 0, 0)
    };
    read_attributes(dom, rc.unwrap(), text);
    assert(dom@ =~= old(dom)@.push(item_of_tag(tag@)->0));
    Ok(rc)
}

/// How far a document has been read, but for the items, which the document
/// holds.
struct Progress {
    pending_tag_text: Vec<char>,
    tag_open_seen: bool,
    tag_close_seen: bool,
    in_comment: bool,
    current_parent: XmlItemRc,
    root: XmlItemRc,
}

impl Progress {
    /// The reader that a document and this record stand for.
    spec fn reader(self, dom: XmlDom) -> Reader {
        Reader {
            table: dom@,
            pending_tag_text: self.pending_tag_text@,
            tag_open_seen: self.tag_open_seen,
            tag_close_seen: self.tag_close_seen,
            in_comment: self.in_comment,
            current_parent: self.current_parent,
            root: self.root,
        }
    }
}

/// Tells whether the line ends a comment.
fn is_comment_end(line: &[char]) -> (r: bool)
    ensures
        r == closes_comment(line@),
{
    let gt = find_char(line, '>', 0);
    2 <= gt && gt < line.len() && line[gt - 2] == '-' && line[gt - 1] == '-'
}

/// Tells whether the line begins a comment.
fn is_comment_start(line: &[char]) -> (r: bool)
    ensures
        r == opens_comment(line@),
{
    let lt = find_char(line, '<', 0);
    lt < line.len() && line.len() - lt > 3 && line[lt + 1] == '!' && line[lt + 2] == '-' && line[lt
        + 3] == '-'
}

/// Tells the kind of a tag.
fn classify(tag: &[char]) -> (r: TagKind)
    ensures
        r == kind_of(tag@),
{
    if contains_pair(tag, '<', '/') {
        TagKind::Closing
    } else if contains_pair(tag, '/', '>') {
        TagKind::SelfClosing
    } else {
        TagKind::Opening
    }
}

/// Reads the complete tag that is pending and changes the tree as the tag
/// says.
fn complete(dom: &mut XmlDom, st: &mut Progress) -> (r: Result<(), XmlError>)
    requires
        old(dom).wf(),
    ensures
        match old(st).reader(*old(dom)).completed(old(st).pending_tag_text@) {
            Err(e) => r == Err::<(), XmlError>(e),
            Ok(next) => r is Ok && final(dom).wf() && final(st).reader(*final(dom)) == next,
        },
{
    let ghost before = st.reader(*dom);
    let ghost tag = st.pending_tag_text@;
    match classify(st.pending_tag_text.as_slice()) {
        TagKind::Closing => {
            st.current_parent = XmlItem::get_parent(dom, st.current_parent);
        },
        TagKind::SelfClosing => {
            let node = match read_tag(dom, st.pending_tag_text.as_slice()) {
                Ok(node) => node,
                Err(e) => { return Err(e); },
            };
            XmlItem::add_node(dom, st.current_parent, node);
        },
        TagKind::Opening => {
            let node = match read_tag(dom, st.pending_tag_text.as_slice()) {
                Ok(node) => node,
                Err(e) => { return Err(e); },
            };
            XmlItem::add_node(dom, st.current_parent, node);
            st.current_parent = node;
            if st.root.is_none() {
                st.root = node;
            }
        },
    }
    st.pending_tag_text.clear();
    st.tag_open_seen = false;
    st.tag_close_seen = false;
    proof {
        let next = before.completed(tag)->Ok_0;
        assert(st.pending_tag_text@ =~= next.pending_tag_text);
    }
    Ok(())
}

/// Takes one more line.
fn feed(dom: &mut XmlDom, st: &mut Progress, line: &[char]) -> (r: Result<(), XmlError>)
    requires
        old(dom).wf(),
    ensures
        match old(st).reader(*old(dom)).fed(line@) {
            Err(e) => r == Err::<(), XmlError>(e),
            Ok(next) => r is Ok && final(dom).wf() && final(st).reader(*final(dom)) == next,
        },
{
    if is_comment_end(line) {
        st.in_comment = false;
        return Ok(());
    }
    if is_comment_start(line) {
        st.in_comment = true;
        return Ok(());
    }
    if st.in_comment {
        return Ok(());
    }
    if find_char(line, '>', 0) < line.len() {
        st.tag_close_seen = true;
    }
    let open = st.tag_open_seen || find_char(line, '<', 0) < line.len();
    let content = trim_chars(line);
    if content.len() > 0 {
        let ghost held = st.pending_tag_text@;
        st.pending_tag_text.push('\n');
        let mut i: usize = 0;
        while i < content.len()
            invariant
                i <= content.len(),
                st.pending_tag_text@ == held + seq!['\n'] + content@.take(i as int),
                st.tag_open_seen == old(st).tag_open_seen,
                st.tag_close_seen == (old(st).tag_close_seen || first_index(line@, '>', 0)
                    < line@.len()),
                st.in_comment == old(st).in_comment,
                st.current_parent == old(st).current_parent,
                st.root == old(st).root,
            decreases content.len() - i,
        {
            st.pending_tag_text.push(content[i]);
            assert(content@.take(i as int).push(content@[i as int]) =~= content@.take(i + 1));
            assert(st.pending_tag_text@ =~= held + seq!['\n'] + content@.take(i + 1));
            i += 1;
        }
        assert(content@.take(i as int) =~= content@);
    }
    if !st.tag_close_seen {
        st.tag_open_seen = open;
        return Ok(());
    }
    if !open {
        return Err(XmlError::UnmatchedClose);
    }
    complete(dom, st)
}

impl XmlDom {
    /// Reads a document from its lines and gives the document with its
    /// root.
    ///
    /// The lines are refused with the first fault met: a tag that cannot be
    /// read, a `>` with no `<` before it, or the want of any opening tag to
    /// be the root.
    pub fn open(lines: &Vec<String>) -> (r: Result<(XmlDom, XmlItemRc), XmlError>)
        ensures
            match document_of(lines@.map_values(|line: String| line@)) {
                Err(e) => r == Err::<(XmlDom, XmlItemRc), XmlError>(e),
                Ok((table, root)) => r is Ok && r->Ok_0.0.wf() && r->Ok_0.0@ == table && r->Ok_0.1
                    == root,
            },
    {
        let ghost all = lines@.map_values(|line: String| line@);
        let mut dom = XmlDom::empty();
        let mut st = Progress {
            pending_tag_text: Vec::new(),
            tag_open_seen: false,
            tag_close_seen: false,
            in_comment: false,
            current_parent: None,
            root: None,
        };
        assert(st.reader(dom) == Reader::start()) by {
            assert(dom@ =~= Seq::empty());
            assert(st.pending_tag_text@ =~= Seq::empty());
        }
        assert(all.skip(0) =~= all);
        let mut i: usize = 0;
        while i < lines.len()
            invariant
                i <= lines.len(),
                all == lines@.map_values(|line: String| line@),
                dom.wf(),
                st.reader(dom).fed_all(all.skip(i as int)) == Reader::start().fed_all(all),
            decreases lines.len() - i,
        {
            let line = to_chars(lines[i].as_str());
            proof {
                assert(all.skip(i as int)[0] == line@);
                assert(all.skip(i as int).drop_first() =~= all.skip(i + 1));
            }
            match feed(&mut dom, &mut st, line.as_slice()) {
                Ok(()) => {},
                Err(e) => { return Err(e); },
            }
            i += 1;
        }
        if st.root.is_none() {
            Err(XmlError::CannotOpen)
        } else {
            let root = st.root;
            Ok((dom, root))
        }
    }

    /// Reads a document from its text, taken line by line, and gives the
    /// document with its root; refuses the text as `open` refuses its lines.
    pub fn parse(text: &str) -> (r: Result<(XmlDom, XmlItemRc), XmlError>)
        ensures
            match document_of(lines_in(text@)) {
                Err(e) => r == Err::<(XmlDom, XmlItemRc), XmlError>(e),
                Ok((table, root)) => r is Ok && r->Ok_0.0.wf() && r->Ok_0.0@ == table && r->Ok_0.1
                    == root,
            },
    {
        let chars = to_chars(text);
        let mut dom = XmlDom::empty();
        let mut st = Progress {
            pending_tag_text: Vec::new(),
            tag_open_seen: false,
            tag_close_seen: false,
            in_comment: false,
            current_parent: None,
            root: None,
        };
        assert(st.reader(dom) == Reader::start()) by {
            assert(dom@ =~= Seq::empty());
            assert(st.pending_tag_text@ =~= Seq::empty());
        }
        let mut rest: &[char] = chars.as_slice();
        loop
            invariant
                dom.wf(),
                st.reader(dom).fed_all(lines_in(rest@)) == Reader::start().fed_all(lines_in(text@)),
            decreases rest@.len(),
        {
            let at = find_char(rest, '\n', 0);
            let ghost lines = lines_in(rest@);
            if at >= rest.len() {
                proof {
                    assert(lines == seq![rest@]);
                    assert(lines.drop_first() =~= Seq::<Seq<char>>::empty());
                    reveal_with_fuel(Reader::fed_all, 2);
                }
                match feed(&mut dom, &mut st, rest) {
                    Ok(()) => {},
                    Err(e) => { return Err(e); },
                }
                if st.root.is_none() {
                    return Err(XmlError::CannotOpen);
                } else {
                    let root = st.root;
                    return Ok((dom, root));
                }
            }
            let line = slice_subrange(rest, 0, at);
            let next = slice_subrange(rest, at + 1, rest.len());
            proof {
                assert(lines == seq![line@] + lines_in(next@));
                assert(lines[0] == line@);
                assert(lines.drop_first() =~= lines_in(next@));
            }
            match feed(&mut dom, &mut st, line) {
                Ok(()) => {},
                Err(e) => { return Err(e); },
            }
            rest = next;
        }
    }
}

} // verus!
