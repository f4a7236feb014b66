use parsekit::dom::{BuildError, DomHandler, NodeId, NodeKind};

#[test]
fn compatibility_builds_element_with_text_child() {
    let mut handler = DomHandler::new();

    let root = handler.on_open_tag("root");
    let text = handler.on_text("hello");
    handler.on_close_tag("root").unwrap();

    assert_eq!(handler.root_children(), &[root]);
    assert_eq!(handler.node(root).parent, Some(NodeId(0)));
    assert_eq!(handler.node(root).children, vec![text]);
    assert_eq!(handler.node(text).parent, Some(root));
    assert_eq!(handler.node(text).kind, NodeKind::Text("hello".to_owned()));
}

#[test]
fn compatibility_builds_nested_elements() {
    let mut handler = DomHandler::new();

    let section = handler.on_open_tag("section");
    let item = handler.on_open_tag("item");
    handler.on_text("value");
    handler.on_close_tag("item").unwrap();
    handler.on_close_tag("section").unwrap();

    assert_eq!(handler.root_children(), &[section]);
    assert_eq!(handler.node(section).children, vec![item]);
    assert_eq!(handler.node(item).parent, Some(section));
}

#[test]
fn compatibility_rejects_extra_close_tag() {
    let mut handler = DomHandler::new();

    assert_eq!(
        handler.on_close_tag("root"),
        Err(BuildError::UnexpectedCloseTag)
    );
}

#[test]
fn dom_assigns_consecutive_ids_and_keeps_root_first() {
    let mut handler = DomHandler::new();
    let a = handler.on_open_tag("a");
    handler.on_close_tag("a").unwrap();
    let b = handler.on_text("tail");
    assert_eq!(a, NodeId(1));
    assert_eq!(b, NodeId(2));
    assert_eq!(handler.node(NodeId(0)).kind, NodeKind::Root);
    assert_eq!(handler.node(NodeId(0)).parent, None);
    assert_eq!(handler.root_children(), &[a, b]);
    assert_eq!(handler.node(a).kind, NodeKind::Element("a".to_owned()));
    assert_eq!(
        handler.on_close_tag("a"),
        Err(BuildError::UnexpectedCloseTag)
    );
}
