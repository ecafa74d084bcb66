use libsgl_xml::xml_dom::TagKind;
use libsgl_xml::{XmlDom, XmlError, XmlItem, XmlItemRc};

fn lines(text: &[&str]) -> Vec<String> {
    text.iter().map(|l| l.to_string()).collect()
}

fn attribute(dom: &XmlDom, rc: XmlItemRc, key: &str) -> Option<String> {
    XmlItem::get_attribute(dom, rc, &key.to_string())
}

fn refused(r: Result<(XmlDom, XmlItemRc), XmlError>) -> XmlError {
    match r {
        Ok(_) => panic!("the document was read"),
        Err(e) => e,
    }
}

#[test]
fn substr_any() {
    assert_eq!(
        "bcd".to_string(),
        libsgl_xml::substr_any(&"abcde".to_string(), &1, &3)
    );
    assert_eq!(
        "c".to_string(),
        libsgl_xml::substr_any(&"abcde".to_string(), &2, &2)
    );
    assert_eq!(
        "".to_string(),
        libsgl_xml::substr_any(&"abcde".to_string(), &3, &1)
    );
    assert_eq!(
        "".to_string(),
        libsgl_xml::substr_any(&"abcde".to_string(), &0, &42)
    );
    assert_eq!(
        "".to_string(),
        libsgl_xml::substr_any(&"abcde".to_string(), &42, &100)
    );
}

#[test]
fn substr_try() {
    assert_eq!(
        Ok("bcd".to_string()),
        libsgl_xml::substr_try(&"abcde".to_string(), &1, &3)
    );
    assert_eq!(
        Ok("c".to_string()),
        libsgl_xml::substr_try(&"abcde".to_string(), &2, &2)
    );
    assert_eq!(
        true,
        libsgl_xml::substr_try(&"abcde".to_string(), &3, &1).is_err()
    );
    assert_eq!(
        true,
        libsgl_xml::substr_try(&"abcde".to_string(), &0, &42).is_err()
    );
    assert_eq!(
        true,
        libsgl_xml::substr_try(&"abcde".to_string(), &42, &100).is_err()
    );
}

#[test]
fn substr_try_says_why() {
    let s = "abcde".to_string();
    assert_eq!(libsgl_xml::substr_try(&s, &3, &1), Err("invalid begin > end"));
    assert_eq!(libsgl_xml::substr_try(&s, &0, &42), Err("invalid end index"));
    assert_eq!(libsgl_xml::substr_try(&s, &42, &100), Err("invalid begin index"));
    assert_eq!(libsgl_xml::substr_try(&s, &0, &4), Ok("abcde".to_string()));
    assert_eq!(libsgl_xml::substr_try(&s, &0, &5), Err("invalid end index"));
    assert_eq!(libsgl_xml::substr_try(&s, &5, &5), Err("invalid begin index"));
}

#[test]
fn substr_counts_characters() {
    let s = "\u{e9}b\u{3b1}d".to_string();
    assert_eq!(libsgl_xml::substr_any(&s, &0, &0), "\u{e9}");
    assert_eq!(libsgl_xml::substr_any(&s, &1, &2), "b\u{3b1}");
    assert_eq!(libsgl_xml::substr_any(&s, &3, &3), "d");
    assert_eq!(libsgl_xml::substr_any(&s, &3, &4), "");
    assert_eq!(libsgl_xml::substr_try(&s, &2, &3), Ok("\u{3b1}d".to_string()));
}

fn sample() -> Vec<String> {
    lines(&[
        "<root a=\"b\" c=\"d\">",
        "\t<node_1.1>",
        "\t\t<node_2.1/>",
        "\t</node_1.1>",
        "\t<node_1.2>",
        "\t\t<node_2.2/>",
        "\t</node_1.2>",
        "</root>",
    ])
}

#[test]
fn open() {
    let mut result = XmlDom::open(&sample());
    assert_eq!(result.is_ok(), true);
    match &mut result {
        &mut Ok((ref dom, val)) => {
            assert_eq!(XmlItem::get_name(dom, val.clone()), "root".to_string());
        }
        &mut Err(_) => assert!(false),
    }
}

#[test]
fn open_builds_the_whole_tree() {
    let (dom, root) = XmlDom::open(&sample()).unwrap();
    assert_eq!(root, Some(0));
    assert_eq!(dom.len(), 5);
    assert_eq!(attribute(&dom, root, "a"), Some("b".to_string()));
    assert_eq!(attribute(&dom, root, "c"), Some("d".to_string()));
    let top = XmlItem::get_nodes(&dom, root);
    assert_eq!(top.len(), 2);
    assert_eq!(XmlItem::get_name(&dom, top[0]), "node_1.1");
    assert_eq!(XmlItem::get_name(&dom, top[1]), "node_1.2");
    let first = XmlItem::get_nodes(&dom, top[0]);
    assert_eq!(first.len(), 1);
    assert_eq!(XmlItem::get_name(&dom, first[0]), "node_2.1");
    assert_eq!(XmlItem::get_parent(&dom, first[0]), top[0]);
    assert_eq!(XmlItem::get_parent(&dom, top[0]), root);
    assert_eq!(XmlItem::get_parent(&dom, root), None);
    assert_eq!(
        XmlItem::as_string(&dom, root),
        "<root a=\"b\" c=\"d\">\n\t<node_1.1>\n\t\t<node_2.1/>\n\t</node_1.1>\n\t<node_1.2>\n\t\t<node_2.2/>\n\t</node_1.2>\n</root>"
    );
}

#[test]
fn a_node_added_after_reading_is_written() {
    let (mut dom, root) = XmlDom::open(&sample()).unwrap();
    let first = XmlItem::get_nodes(&dom, root)[0];
    let fresh = XmlItem::new(&mut dom, "YetAnotherNode".to_string()).unwrap();
    let node = XmlItem::add_node(&mut dom, first, fresh);
    XmlItem::set_attribute(&mut dom, node, "ID".to_string(), "42".to_string());
    assert_eq!(
        XmlItem::as_string(&dom, root),
        "<root a=\"b\" c=\"d\">\n\t<node_1.1>\n\t\t<node_2.1/>\n\t\t<YetAnotherNode ID=\"42\"/>\n\t</node_1.1>\n\t<node_1.2>\n\t\t<node_2.2/>\n\t</node_1.2>\n</root>"
    );
}

#[test]
fn written_text_reads_back_as_the_same_tree() {
    let mut dom = XmlDom::empty();
    let root = XmlItem::new(&mut dom, "root".to_string()).unwrap();
    let a = XmlItem::new(&mut dom, "a".to_string()).unwrap();
    let b = XmlItem::new(&mut dom, "b".to_string()).unwrap();
    let c = XmlItem::new(&mut dom, "c".to_string()).unwrap();
    XmlItem::add_node(&mut dom, root, a);
    XmlItem::add_node(&mut dom, a, b);
    XmlItem::add_node(&mut dom, root, c);
    XmlItem::set_attribute(&mut dom, root, "k".to_string(), "v w".to_string());
    XmlItem::set_attribute(&mut dom, b, "x".to_string(), "1".to_string());
    XmlItem::set_attribute(&mut dom, b, "y".to_string(), "".to_string());
    let text = XmlItem::as_string(&dom, root);
    let (again, top) = XmlDom::parse(&text).unwrap();
    assert_eq!(XmlItem::as_string(&again, top), text);
    assert_eq!(XmlItem::get_name(&again, top), "root");
    assert_eq!(attribute(&again, top, "k"), Some("v w".to_string()));
    let kids = XmlItem::get_nodes(&again, top);
    assert_eq!(kids.len(), 2);
    assert_eq!(XmlItem::get_name(&again, kids[0]), "a");
    assert_eq!(XmlItem::get_name(&again, kids[1]), "c");
    let below = XmlItem::get_nodes(&again, kids[0]);
    assert_eq!(below.len(), 1);
    assert_eq!(XmlItem::get_name(&again, below[0]), "b");
    assert_eq!(attribute(&again, below[0], "x"), Some("1".to_string()));
    assert_eq!(attribute(&again, below[0], "y"), Some("".to_string()));
    assert_eq!(XmlItem::get_nodes(&again, kids[1]).len(), 0);
}

#[test]
fn brackets_in_values_read_back() {
    let mut dom = XmlDom::empty();
    let root = XmlItem::new(&mut dom, "r--a".to_string()).unwrap();
    let a = XmlItem::new(&mut dom, "-!a=\"".to_string()).unwrap();
    XmlItem::add_node(&mut dom, root, a);
    XmlItem::set_attribute(&mut dom, root, "k".to_string(), "a > b < c".to_string());
    XmlItem::set_attribute(&mut dom, root, "a b".to_string(), "->- -> /".to_string());
    XmlItem::set_attribute(&mut dom, a, "x>y\"".to_string(), " <!-- > ".to_string());
    XmlItem::set_attribute(&mut dom, a, "/".to_string(), "\\n=".to_string());
    let text = XmlItem::as_string(&dom, root);
    let (again, top) = XmlDom::parse(&text).unwrap();
    assert_eq!(XmlItem::as_string(&again, top), text);
    assert_eq!(XmlItem::get_name(&again, top), "r--a");
    assert_eq!(attribute(&again, top, "k"), Some("a > b < c".to_string()));
    assert_eq!(attribute(&again, top, "a b"), Some("->- -> /".to_string()));
    let kid = XmlItem::get_nodes(&again, top)[0];
    assert_eq!(XmlItem::get_name(&again, kid), "-!a=\"");
    assert_eq!(attribute(&again, kid, "x>y\""), Some(" <!-- > ".to_string()));
    assert_eq!(attribute(&again, kid, "/"), Some("\\n=".to_string()));
    assert_eq!(again.len(), 2);
}

#[test]
fn what_is_not_plain_may_read_back_otherwise() {
    let mut dom = XmlDom::empty();
    let lone = XmlItem::new(&mut dom, "lone".to_string()).unwrap();
    assert_eq!(
        refused(XmlDom::parse(&XmlItem::as_string(&dom, lone))),
        XmlError::CannotOpen
    );
    let root = XmlItem::new(&mut dom, "two words".to_string()).unwrap();
    let a = XmlItem::new(&mut dom, "a".to_string()).unwrap();
    XmlItem::add_node(&mut dom, root, a);
    XmlItem::set_attribute(&mut dom, a, "k".to_string(), "say \"hi\"".to_string());
    let (again, top) = XmlDom::parse(&XmlItem::as_string(&dom, root)).unwrap();
    assert_eq!(XmlItem::get_name(&again, top), "two");
    let kid = XmlItem::get_nodes(&again, top)[0];
    assert_eq!(attribute(&again, kid, "k"), Some("say \\\"hi\\\"".to_string()));
    let text = XmlItem::as_string(&again, top);
    let (third, first) = XmlDom::parse(&text).unwrap();
    assert_eq!(XmlItem::as_string(&third, first), text);
}

#[test]
fn parse_takes_the_text_line_by_line() {
    let text = sample().join("\n");
    let (dom, root) = XmlDom::parse(&text).unwrap();
    let (same, top) = XmlDom::open(&sample()).unwrap();
    assert_eq!(root, top);
    assert_eq!(XmlItem::as_string(&dom, root), XmlItem::as_string(&same, top));
    let (dom, root) = XmlDom::parse("<a>\r\n<b/>\r\n</a>\r\n").unwrap();
    assert_eq!(XmlItem::as_string(&dom, root), "<a>\n\t<b/>\n</a>");
}

#[test]
fn a_tag_may_be_spread_over_lines() {
    let spread = lines(&["<root", "   a=\"b\"", "\tc=\"d\">", "<x/>", "</root>"]);
    let single = lines(&["<root a=\"b\" c=\"d\">", "<x/>", "</root>"]);
    let (dom, root) = XmlDom::open(&spread).unwrap();
    let (same, top) = XmlDom::open(&single).unwrap();
    assert_eq!(XmlItem::as_string(&dom, root), XmlItem::as_string(&same, top));
    assert_eq!(
        XmlItem::as_string(&dom, root),
        "<root a=\"b\" c=\"d\">\n\t<x/>\n</root>"
    );
    assert_eq!(XmlItem::get_name(&dom, root), "root");
    assert_eq!(attribute(&dom, root, "a"), Some("b".to_string()));
    assert_eq!(attribute(&dom, root, "c"), Some("d".to_string()));
    assert_eq!(dom.len(), same.len());
}

#[test]
fn a_value_may_be_spread_over_lines() {
    let (dom, root) = XmlDom::open(&lines(&["<  multi", " line=\"", "   tags\"", "", " >"])).unwrap();
    assert_eq!(XmlItem::get_name(&dom, root), "multi");
    assert_eq!(attribute(&dom, root, "line"), Some(" tags".to_string()));
}

#[test]
fn an_escaped_quote_does_not_end_the_value() {
    let mut dom = XmlDom::empty();
    let n = dom.parse_tag("<N a=\"va\\\"lue\"/>".to_string()).unwrap();
    assert_eq!(XmlItem::get_name(&dom, n), "N");
    assert_eq!(attribute(&dom, n, "a"), Some("va\\\"lue".to_string()));
    let (dom, root) = XmlDom::open(&lines(&["<r>", "<N a=\"va\\\"lue\" b=\"2\"/>", "</r>"])).unwrap();
    let n = XmlItem::get_nodes(&dom, root)[0];
    assert_eq!(attribute(&dom, n, "a"), Some("va\\\"lue".to_string()));
    assert_eq!(attribute(&dom, n, "b"), Some("2".to_string()));
}

#[test]
fn a_tag_without_a_name_is_refused() {
    let mut dom = XmlDom::empty();
    assert_eq!(dom.parse_tag("<>".to_string()), Err(XmlError::MalformedTag));
    assert_eq!(dom.parse_tag("< >".to_string()), Err(XmlError::MalformedTag));
    assert_eq!(dom.parse_tag("</>".to_string()), Err(XmlError::MalformedTag));
    assert_eq!(dom.parse_tag("<\n\t/>".to_string()), Err(XmlError::MalformedTag));
    assert_eq!(dom.parse_tag("><".to_string()), Err(XmlError::MalformedTag));
    assert_eq!(dom.parse_tag("name".to_string()), Err(XmlError::MalformedTag));
    assert_eq!(dom.parse_tag("<name".to_string()), Err(XmlError::MalformedTag));
    assert_eq!(dom.parse_tag("name>".to_string()), Err(XmlError::MalformedTag));
    assert_eq!(dom.parse_tag("".to_string()), Err(XmlError::MalformedTag));
    assert_eq!(dom.len(), 0);
    assert_eq!(refused(XmlDom::open(&lines(&["<>"]))), XmlError::MalformedTag);
    assert_eq!(refused(XmlDom::open(&lines(&["<r>", "< />"]))), XmlError::MalformedTag);
    assert_eq!(refused(XmlDom::open(&lines(&["<", ">"]))), XmlError::MalformedTag);
}

#[test]
fn a_bracket_that_closes_nothing_is_refused() {
    assert_eq!(refused(XmlDom::open(&lines(&["Root>"]))), XmlError::UnmatchedClose);
    assert_eq!(refused(XmlDom::open(&lines(&["<r>", "a=\"b\">"]))), XmlError::UnmatchedClose);
    assert_eq!(refused(XmlDom::open(&lines(&["<r>", "/>"]))), XmlError::UnmatchedClose);
    assert_eq!(refused(XmlDom::parse("<r>\n>")), XmlError::UnmatchedClose);
}

#[test]
fn a_closing_tag_with_nothing_open_changes_nothing() {
    assert_eq!(refused(XmlDom::open(&lines(&["</Root>"]))), XmlError::CannotOpen);
    assert_eq!(refused(XmlDom::parse("</Root>")), XmlError::CannotOpen);
    let (dom, root) = XmlDom::open(&lines(&["</Root>", "<Root>", "<a/>", "</Root>"])).unwrap();
    assert_eq!(XmlItem::as_string(&dom, root), "<Root>\n\t<a/>\n</Root>");
}

#[test]
fn behind_the_closed_root_nothing_is_attached() {
    let (dom, root) = XmlDom::open(&lines(&["<r>", "</r>", "</r>", "<a/>", "<b>", "<c/>"])).unwrap();
    assert_eq!(root, Some(0));
    assert_eq!(XmlItem::as_string(&dom, root), "<r/>");
    assert_eq!(dom.len(), 4);
    assert_eq!(XmlItem::get_parent(&dom, Some(1)), None);
    assert_eq!(XmlItem::as_string(&dom, Some(2)), "<b>\n\t<c/>\n</b>");
}

#[test]
fn comments_are_skipped() {
    let (dom, root) = XmlDom::open(&lines(&[
        "<root>",
        "<!--",
        " ignored <tag/> text ",
        "-->",
        "<child/>",
        "</root>",
    ]))
    .unwrap();
    assert_eq!(dom.len(), 2);
    assert_eq!(XmlItem::as_string(&dom, root), "<root>\n\t<child/>\n</root>");
    let (dom, root) = XmlDom::open(&lines(&[
        "<!-- Multi",
        "       Line",
        "         comments -->",
        "<root>",
        "  <!-- one line -->",
        "  <b/>",
        "  <!-- a > b",
        "  </root>",
        "  -->",
        "</root>",
    ]))
    .unwrap();
    assert_eq!(XmlItem::as_string(&dom, root), "<root>\n\t<b/>\n</root>");
}

#[test]
fn a_comment_is_known_by_the_first_bracket_of_its_line() {
    let (dom, root) = XmlDom::open(&lines(&[
        "<root>",
        "<a/> <!--",
        "<!-- b > c -->",
        "<d/>",
        "-->",
        "<e/>",
    ]))
    .unwrap();
    assert_eq!(XmlItem::as_string(&dom, root), "<root>\n\t<a/>\n\t<e/>\n</root>");
}

#[test]
fn a_comment_amid_a_tag_leaves_the_tag_alone() {
    let (dom, root) = XmlDom::open(&lines(&["<root", "<!-- x=\"y\" -->", "a=\"b\">"])).unwrap();
    assert_eq!(XmlItem::as_string(&dom, root), "<root a=\"b\"/>");
}

#[test]
fn without_an_opening_tag_there_is_no_document() {
    assert_eq!(refused(XmlDom::open(&lines(&[]))), XmlError::CannotOpen);
    assert_eq!(refused(XmlDom::open(&lines(&["", "   "]))), XmlError::CannotOpen);
    assert_eq!(refused(XmlDom::open(&lines(&["<a/>"]))), XmlError::CannotOpen);
    assert_eq!(refused(XmlDom::open(&lines(&["<a"]))), XmlError::CannotOpen);
    assert_eq!(refused(XmlDom::open(&lines(&["<!--", "<a>", "</a>"]))), XmlError::CannotOpen);
    assert_eq!(refused(XmlDom::parse("")), XmlError::CannotOpen);
}

#[test]
fn an_unclosed_document_is_what_was_read() {
    let (dom, root) = XmlDom::open(&lines(&["<a>", "<b>", "<c/>"])).unwrap();
    assert_eq!(XmlItem::as_string(&dom, root), "<a>\n\t<b>\n\t\t<c/>\n\t</b>\n</a>");
}

#[test]
fn an_empty_pair_is_written_self_closing() {
    let (dom, root) = XmlDom::open(&lines(&["<a>", "<b>", "</b>", "</a>"])).unwrap();
    assert_eq!(XmlItem::as_string(&dom, root), "<a>\n\t<b/>\n</a>");
}

#[test]
fn parse_tag_reads_name_and_attributes() {
    let mut dom = XmlDom::empty();
    let a = dom.parse_tag("<a>".to_string()).unwrap();
    assert_eq!(a, Some(0));
    let b = dom.parse_tag("\n  <b x=\"1\"  y = \"two words\" />  ".to_string()).unwrap();
    assert_eq!(b, Some(1));
    let c = dom.parse_tag("</c>".to_string()).unwrap();
    assert_eq!(XmlItem::get_name(&dom, a), "a");
    assert_eq!(XmlItem::get_name(&dom, b), "b");
    assert_eq!(XmlItem::get_name(&dom, c), "c");
    assert_eq!(attribute(&dom, b, "x"), Some("1".to_string()));
    assert_eq!(attribute(&dom, b, "y"), Some("two words".to_string()));
    assert_eq!(XmlItem::get_parent(&dom, b), None);
    assert_eq!(XmlItem::get_nodes(&dom, b).len(), 0);
    assert_eq!(XmlItem::as_string(&dom, b), "<b x=\"1\" y=\"two words\"/>");
    let d = dom.parse_tag("<d\tk=\"v\">".to_string()).unwrap();
    assert_eq!(XmlItem::get_name(&dom, d), "d");
    assert_eq!(attribute(&dom, d, "k"), Some("v".to_string()));
}

#[test]
fn parse_attributes_stops_quietly() {
    let mut dom = XmlDom::empty();
    let a = XmlItem::new(&mut dom, "a".to_string()).unwrap();
    dom.parse_attributes(a, "x=\"1\" y z=\"3\"".to_string());
    assert_eq!(XmlItem::as_string(&dom, a), "<a x=\"1\" y z=\"3\"/>");
    let b = XmlItem::new(&mut dom, "b".to_string()).unwrap();
    dom.parse_attributes(b, "x=\"1\" =\"2\" z=\"3\"".to_string());
    assert_eq!(XmlItem::as_string(&dom, b), "<b x=\"1\"/>");
    let c = XmlItem::new(&mut dom, "c".to_string()).unwrap();
    dom.parse_attributes(c, "x=\"1\" y=2 z=\"3".to_string());
    assert_eq!(XmlItem::as_string(&dom, c), "<c x=\"1\"/>");
    let d = XmlItem::new(&mut dom, "d".to_string()).unwrap();
    dom.parse_attributes(d, "x=\"1\" y=\"open".to_string());
    assert_eq!(XmlItem::as_string(&dom, d), "<d x=\"1\"/>");
    let e = XmlItem::new(&mut dom, "e".to_string()).unwrap();
    dom.parse_attributes(e, "no attributes here".to_string());
    dom.parse_attributes(e, "".to_string());
    dom.parse_attributes(e, "x=1".to_string());
    assert_eq!(XmlItem::as_string(&dom, e), "<e/>");
    dom.parse_attributes(None, "x=\"1\"".to_string());
    dom.parse_attributes(Some(99), "x=\"1\"".to_string());
    assert_eq!(dom.len(), 5);
}

#[test]
fn parse_attributes_keeps_the_value_as_it_stands() {
    let mut dom = XmlDom::empty();
    let a = XmlItem::new(&mut dom, "a".to_string()).unwrap();
    dom.parse_attributes(a, "  k = \"  v  \"   e=\"\"  k2=\"a=b\" ".to_string());
    assert_eq!(attribute(&dom, a, "k"), Some("  v  ".to_string()));
    assert_eq!(attribute(&dom, a, "e"), Some("".to_string()));
    assert_eq!(attribute(&dom, a, "k2"), Some("a=b".to_string()));
    dom.parse_attributes(a, "k=\"again\"".to_string());
    assert_eq!(attribute(&dom, a, "k"), Some("again".to_string()));
    assert_eq!(XmlItem::as_string(&dom, a), "<a k=\"again\" e=\"\" k2=\"a=b\"/>");
}

#[test]
fn tag_kinds_differ() {
    assert_ne!(TagKind::Closing, TagKind::Opening);
    assert_ne!(TagKind::SelfClosing, TagKind::Opening);
}
