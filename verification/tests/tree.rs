use libsgl_xml::{XmlDom, XmlError, XmlItem, XmlItemRc};

fn item(dom: &mut XmlDom, name: &str) -> XmlItemRc {
    XmlItem::new(dom, name.to_string()).unwrap()
}

#[test]
fn cascade_destruction() {
    let mut dom = XmlDom::empty();
    let root: XmlItemRc = XmlItem::new(&mut dom, "Root".to_string()).unwrap();
    {
        let one = XmlItem::new(&mut dom, "Root's One".to_string()).unwrap();
        let node_1 = XmlItem::add_node(&mut dom, root.clone(), one);
        let two = XmlItem::new(&mut dom, "One's Two".to_string()).unwrap();
        XmlItem::add_node(&mut dom, node_1.clone(), two);
    }
    XmlItem::clean(&mut dom, root.clone());

    let nodes: Vec<XmlItemRc> = XmlItem::get_nodes(&dom, root.clone());
    assert_eq!(nodes.len(), 0);
}

#[test]
fn nodes() {
    let mut dom = XmlDom::empty();
    let root: XmlItemRc = XmlItem::new(&mut dom, "Root".to_string()).unwrap();
    {
        let one = XmlItem::new(&mut dom, "Root's One".to_string()).unwrap();
        let node_1 = XmlItem::add_node(&mut dom, root.clone(), one);
        let two = XmlItem::new(&mut dom, "One's Two".to_string()).unwrap();
        XmlItem::add_node(&mut dom, node_1.clone(), two);
    }
    {
        assert_eq!(XmlItem::get_name(&dom, root.clone()), "Root".to_string());

        let roots_nodes = XmlItem::get_nodes(&dom, root.clone());
        assert_eq!(roots_nodes.len(), 1);

        assert_eq!(roots_nodes[0].is_some(), true);
        assert_eq!(
            XmlItem::get_name(&dom, roots_nodes[0].clone()),
            "Root's One".to_string()
        );

        let ones_nodes = XmlItem::get_nodes(&dom, roots_nodes[0].clone());
        assert_eq!(ones_nodes.len(), 1);
        assert_eq!(ones_nodes[0].is_some(), true);
        assert_eq!(
            XmlItem::get_name(&dom, ones_nodes[0].clone()),
            "One's Two".to_string()
        );

        let twos_nodes = XmlItem::get_nodes(&dom, ones_nodes[0].clone());
        assert_eq!(twos_nodes.len(), 0);
    }
}

#[test]
fn parents() {
    let mut dom = XmlDom::empty();
    let root: XmlItemRc = XmlItem::new(&mut dom, "Root".to_string()).unwrap();
    let one = XmlItem::new(&mut dom, "Root's One".to_string()).unwrap();
    let node_1 = XmlItem::add_node(&mut dom, root.clone(), one);
    let two = XmlItem::new(&mut dom, "One's Two".to_string()).unwrap();
    let node_2 = XmlItem::add_node(&mut dom, node_1.clone(), two);

    assert_eq!(XmlItem::get_name(&dom, node_2.clone()), "One's Two".to_string());

    let node_2_parent = XmlItem::get_parent(&dom, node_2.clone());
    assert_eq!(
        XmlItem::get_name(&dom, node_2_parent.clone()),
        "Root's One".to_string()
    );

    let node_1_parent = XmlItem::get_parent(&dom, node_2_parent.clone());
    assert_eq!(XmlItem::get_name(&dom, node_1_parent.clone()), "Root".to_string());

    let god = XmlItem::get_parent(&dom, node_1_parent.clone());
    assert_eq!(god.is_none(), true);
}

#[test]
fn ancestor_chain_of_four() {
    let mut dom = XmlDom::empty();
    let root = item(&mut dom, "root");
    let a = item(&mut dom, "A");
    let b = item(&mut dom, "B");
    let c = item(&mut dom, "C");
    XmlItem::add_node(&mut dom, root, a);
    XmlItem::add_node(&mut dom, a, b);
    XmlItem::add_node(&mut dom, b, c);
    let up = XmlItem::get_parent(&dom, c);
    assert_eq!(up, b);
    assert_eq!(XmlItem::get_parent(&dom, up), a);
    assert_eq!(XmlItem::get_parent(&dom, root), None);
    assert_eq!(XmlItem::get_parent(&dom, root), XmlItem::get_empty_item());
}

#[test]
fn new_item_is_bare() {
    let mut dom = XmlDom::empty();
    assert_eq!(dom.len(), 0);
    let a = XmlItem::new(&mut dom, "a".to_string());
    assert_eq!(a, Ok(Some(0)));
    let b = XmlItem::new(&mut dom, "b".to_string());
    assert_eq!(b, Ok(Some(1)));
    assert_eq!(dom.len(), 2);
    assert_eq!(XmlItem::get_name(&dom, Some(1)), "b");
    assert_eq!(XmlItem::get_parent(&dom, Some(1)), None);
    assert_eq!(XmlItem::get_nodes(&dom, Some(1)), Vec::<XmlItemRc>::new());
    assert_eq!(XmlItem::get_attribute(&dom, Some(1), &"x".to_string()), None);
}

#[test]
fn empty_name_is_refused() {
    let mut dom = XmlDom::empty();
    assert_eq!(XmlItem::new(&mut dom, String::new()), Err(XmlError::InvalidName));
    assert_eq!(dom.len(), 0);
}

#[test]
fn no_item_gives_empty_answers() {
    let mut dom = XmlDom::empty();
    let a = item(&mut dom, "a");
    let none = XmlItem::get_empty_item();
    assert_eq!(none, None);
    assert_eq!(XmlItem::get_name(&dom, none), "");
    assert_eq!(XmlItem::get_nodes(&dom, none).len(), 0);
    assert_eq!(XmlItem::get_parent(&dom, none), None);
    assert_eq!(XmlItem::as_string(&dom, none), "");
    assert_eq!(XmlItem::get_name(&dom, Some(7)), "");
    assert_eq!(XmlItem::get_nodes(&dom, Some(7)).len(), 0);
    assert_eq!(XmlItem::get_parent(&dom, Some(7)), None);
    assert_eq!(XmlItem::as_string(&dom, Some(7)), "");
    XmlItem::set_attribute(&mut dom, none, "k".to_string(), "v".to_string());
    XmlItem::set_attribute(&mut dom, Some(7), "k".to_string(), "v".to_string());
    XmlItem::clean(&mut dom, none);
    XmlItem::clean(&mut dom, Some(7));
    assert_eq!(XmlItem::as_string(&dom, a), "<a/>");
}

#[test]
fn add_node_under_no_item_changes_nothing() {
    let mut dom = XmlDom::empty();
    let a = item(&mut dom, "a");
    let r = XmlItem::add_node(&mut dom, XmlItem::get_empty_item(), a);
    assert_eq!(r, a);
    assert_eq!(XmlItem::get_parent(&dom, a), None);
    let r = XmlItem::add_node(&mut dom, a, None);
    assert_eq!(r, None);
    assert_eq!(XmlItem::get_nodes(&dom, a).len(), 0);
    let r = XmlItem::add_node(&mut dom, Some(5), a);
    assert_eq!(r, a);
    assert_eq!(XmlItem::get_parent(&dom, a), None);
}

#[test]
fn children_keep_their_order() {
    let mut dom = XmlDom::empty();
    let root = item(&mut dom, "root");
    let a = item(&mut dom, "a");
    let b = item(&mut dom, "b");
    let c = item(&mut dom, "c");
    XmlItem::add_node(&mut dom, root, c);
    XmlItem::add_node(&mut dom, root, a);
    XmlItem::add_node(&mut dom, root, b);
    assert_eq!(XmlItem::get_nodes(&dom, root), vec![c, a, b]);
}

#[test]
fn get_nodes_is_a_snapshot() {
    let mut dom = XmlDom::empty();
    let root = item(&mut dom, "root");
    let a = item(&mut dom, "a");
    XmlItem::add_node(&mut dom, root, a);
    let mut nodes = XmlItem::get_nodes(&dom, root);
    nodes.clear();
    nodes.push(None);
    assert_eq!(XmlItem::get_nodes(&dom, root), vec![a]);
}

#[test]
fn attached_again_leaves_the_first_parent() {
    let mut dom = XmlDom::empty();
    let p = item(&mut dom, "p");
    let q = item(&mut dom, "q");
    let a = item(&mut dom, "a");
    let b = item(&mut dom, "b");
    XmlItem::add_node(&mut dom, p, a);
    XmlItem::add_node(&mut dom, p, b);
    let r = XmlItem::add_node(&mut dom, q, a);
    assert_eq!(r, a);
    assert_eq!(XmlItem::get_nodes(&dom, p), vec![b]);
    assert_eq!(XmlItem::get_nodes(&dom, q), vec![a]);
    assert_eq!(XmlItem::get_parent(&dom, a), q);
}

#[test]
fn attached_again_to_the_same_parent_goes_last() {
    let mut dom = XmlDom::empty();
    let p = item(&mut dom, "p");
    let a = item(&mut dom, "a");
    let b = item(&mut dom, "b");
    XmlItem::add_node(&mut dom, p, a);
    XmlItem::add_node(&mut dom, p, b);
    XmlItem::add_node(&mut dom, p, a);
    assert_eq!(XmlItem::get_nodes(&dom, p), vec![b, a]);
    assert_eq!(XmlItem::get_parent(&dom, a), p);
}

#[test]
fn no_item_goes_under_itself_or_its_descendants() {
    let mut dom = XmlDom::empty();
    let root = item(&mut dom, "root");
    let a = item(&mut dom, "a");
    let b = item(&mut dom, "b");
    XmlItem::add_node(&mut dom, root, a);
    XmlItem::add_node(&mut dom, a, b);
    assert_eq!(XmlItem::add_node(&mut dom, root, root), root);
    assert_eq!(XmlItem::add_node(&mut dom, b, root), root);
    assert_eq!(XmlItem::add_node(&mut dom, b, a), a);
    assert_eq!(XmlItem::get_parent(&dom, root), None);
    assert_eq!(XmlItem::get_parent(&dom, a), root);
    assert_eq!(XmlItem::get_nodes(&dom, root), vec![a]);
    assert_eq!(XmlItem::get_nodes(&dom, a), vec![b]);
    assert_eq!(XmlItem::get_nodes(&dom, b).len(), 0);
    assert_eq!(XmlItem::as_string(&dom, root), "<root>\n\t<a>\n\t\t<b/>\n\t</a>\n</root>");
}

#[test]
fn a_subtree_moves_as_a_whole() {
    let mut dom = XmlDom::empty();
    let root = item(&mut dom, "root");
    let a = item(&mut dom, "a");
    let b = item(&mut dom, "b");
    let c = item(&mut dom, "c");
    XmlItem::add_node(&mut dom, root, a);
    XmlItem::add_node(&mut dom, a, b);
    XmlItem::add_node(&mut dom, root, c);
    XmlItem::add_node(&mut dom, c, a);
    assert_eq!(
        XmlItem::as_string(&dom, root),
        "<root>\n\t<c>\n\t\t<a>\n\t\t\t<b/>\n\t\t</a>\n\t</c>\n</root>"
    );
}

#[test]
fn set_attribute_inserts_and_overwrites() {
    let mut dom = XmlDom::empty();
    let a = item(&mut dom, "a");
    XmlItem::set_attribute(&mut dom, a, "x".to_string(), "1".to_string());
    XmlItem::set_attribute(&mut dom, a, "y".to_string(), "2".to_string());
    assert_eq!(XmlItem::get_attribute(&dom, a, &"x".to_string()), Some("1".to_string()));
    assert_eq!(XmlItem::get_attribute(&dom, a, &"y".to_string()), Some("2".to_string()));
    assert_eq!(XmlItem::get_attribute(&dom, a, &"z".to_string()), None);
    XmlItem::set_attribute(&mut dom, a, "x".to_string(), "3".to_string());
    assert_eq!(XmlItem::get_attribute(&dom, a, &"x".to_string()), Some("3".to_string()));
    assert_eq!(XmlItem::as_string(&dom, a), "<a x=\"3\" y=\"2\"/>");
}

#[test]
fn attributes_come_in_the_order_of_their_names() {
    let mut dom = XmlDom::empty();
    let a = item(&mut dom, "a");
    assert_eq!(XmlItem::get_attributes(&dom, a), Vec::<(String, String)>::new());
    XmlItem::set_attribute(&mut dom, a, "z".to_string(), "1".to_string());
    XmlItem::set_attribute(&mut dom, a, "y".to_string(), "2".to_string());
    XmlItem::set_attribute(&mut dom, a, "z".to_string(), "3".to_string());
    assert_eq!(
        XmlItem::get_attributes(&dom, a),
        vec![("z".to_string(), "3".to_string()), ("y".to_string(), "2".to_string())]
    );
    assert_eq!(XmlItem::get_attributes(&dom, None).len(), 0);
    assert_eq!(XmlItem::get_attributes(&dom, Some(3)).len(), 0);
}

#[test]
fn childless_item_is_self_closing() {
    let mut dom = XmlDom::empty();
    let a = item(&mut dom, "a");
    assert_eq!(XmlItem::as_string(&dom, a), "<a/>");
    XmlItem::set_attribute(&mut dom, a, "k".to_string(), "v".to_string());
    assert_eq!(XmlItem::as_string(&dom, a), "<a k=\"v\"/>");
    let b = item(&mut dom, "b");
    XmlItem::add_node(&mut dom, a, b);
    assert_eq!(XmlItem::as_string(&dom, a), "<a k=\"v\">\n\t<b/>\n</a>");
    XmlItem::clean(&mut dom, a);
    assert_eq!(XmlItem::as_string(&dom, a), "<a k=\"v\"/>");
}

#[test]
fn clean_cuts_off_every_descendant() {
    let mut dom = XmlDom::empty();
    let root = item(&mut dom, "root");
    let a = item(&mut dom, "a");
    let b = item(&mut dom, "b");
    let c = item(&mut dom, "c");
    let d = item(&mut dom, "d");
    XmlItem::add_node(&mut dom, root, a);
    XmlItem::add_node(&mut dom, a, b);
    XmlItem::add_node(&mut dom, b, c);
    XmlItem::add_node(&mut dom, root, d);
    XmlItem::set_attribute(&mut dom, b, "k".to_string(), "v".to_string());
    XmlItem::clean(&mut dom, a);
    assert_eq!(XmlItem::get_nodes(&dom, a).len(), 0);
    assert_eq!(XmlItem::get_parent(&dom, a), root);
    assert_eq!(XmlItem::get_parent(&dom, b), None);
    assert_eq!(XmlItem::get_parent(&dom, c), None);
    assert_eq!(XmlItem::get_nodes(&dom, b).len(), 0);
    assert_eq!(XmlItem::get_nodes(&dom, c).len(), 0);
    assert_eq!(XmlItem::get_name(&dom, b), "b");
    assert_eq!(XmlItem::get_attribute(&dom, b, &"k".to_string()), Some("v".to_string()));
    assert_eq!(XmlItem::get_nodes(&dom, root), vec![a, d]);
    assert_eq!(XmlItem::as_string(&dom, root), "<root>\n\t<a/>\n\t<d/>\n</root>");
    assert_eq!(dom.len(), 5);
}

#[test]
fn tabs_by_number() {
    assert_eq!(XmlItem::get_tabs(&0), "");
    assert_eq!(XmlItem::get_tabs(&1), "\t");
    assert_eq!(XmlItem::get_tabs(&3), "\t\t\t");
}

#[test]
fn to_string_starts_at_the_offset() {
    let mut dom = XmlDom::empty();
    let a = item(&mut dom, "a");
    let b = item(&mut dom, "b");
    XmlItem::add_node(&mut dom, a, b);
    assert_eq!(XmlItem::to_string(&dom, a, 2), "\t\t<a>\n\t\t\t<b/>\n\t\t</a>");
    assert_eq!(XmlItem::to_string(&dom, a, 0), XmlItem::as_string(&dom, a));
    assert_eq!(XmlItem::to_string(&dom, None, 2), "");
}

#[test]
fn quotes_are_escaped_when_written() {
    let mut dom = XmlDom::empty();
    let a = item(&mut dom, "a");
    XmlItem::set_attribute(&mut dom, a, "k".to_string(), "say \"hi\"".to_string());
    assert_eq!(
        XmlItem::get_attribute(&dom, a, &"k".to_string()),
        Some("say \"hi\"".to_string())
    );
    assert_eq!(XmlItem::as_string(&dom, a), "<a k=\"say \\\"hi\\\"\"/>");
    XmlItem::set_attribute(&mut dom, a, "k".to_string(), "\"".to_string());
    assert_eq!(XmlItem::as_string(&dom, a), "<a k=\"\\\"\"/>");
}

#[test]
fn escaped_quotes_are_not_escaped_again() {
    let mut dom = XmlDom::empty();
    let a = item(&mut dom, "a");
    XmlItem::set_attribute(&mut dom, a, "k".to_string(), "va\\\"lue".to_string());
    assert_eq!(XmlItem::as_string(&dom, a), "<a k=\"va\\\"lue\"/>");
}

#[test]
fn names_need_not_be_ascii() {
    let mut dom = XmlDom::empty();
    let a = item(&mut dom, "\u{e9}t\u{e9}");
    XmlItem::set_attribute(&mut dom, a, "\u{3b1}".to_string(), "\u{3b2}".to_string());
    assert_eq!(XmlItem::get_name(&dom, a), "\u{e9}t\u{e9}");
    assert_eq!(XmlItem::as_string(&dom, a), "<\u{e9}t\u{e9} \u{3b1}=\"\u{3b2}\"/>");
}

#[test]
fn messages() {
    assert_eq!(XmlError::CannotOpen.message(), "Can't open xml");
    assert_eq!(XmlError::UnmatchedClose.message(), "There is no matching '<' for '>'");
    assert_eq!(XmlError::MalformedTag.message(), "Can't parse tag");
    assert_eq!(XmlError::InvalidName.message(), "An item needs a name");
}
