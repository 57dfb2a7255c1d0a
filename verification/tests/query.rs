use bracket_lut::query::{
    bytes_equal, JsonPathQuery, JsonPathQueryNode, JsonPathQueryNodeType, Label,
};

fn label(name: &str, child: Option<Box<JsonPathQueryNode>>) -> Box<JsonPathQueryNode> {
    Box::new(JsonPathQueryNode::Label(Label::new(name.as_bytes()), child))
}

fn descendant(child: Box<JsonPathQueryNode>) -> Box<JsonPathQueryNode> {
    Box::new(JsonPathQueryNode::Descendant(child))
}

#[test]
fn label_bytes_with_and_without_quotes() {
    let label = Label::new("needle".as_bytes());
    assert_eq!(label.bytes(), "needle".as_bytes());
    assert_eq!(label.bytes_with_quotes(), "\"needle\"".as_bytes());
    let empty = Label::new(b"");
    assert_eq!(empty.bytes(), b"");
    assert_eq!(empty.bytes_with_quotes(), b"\"\"");
}

#[test]
fn labels_compare_by_bytes() {
    let a = Label::new(b"abc");
    assert!(a.same_bytes(&Label::new(b"abc")));
    assert!(!a.same_bytes(&Label::new(b"abd")));
    assert!(!a.same_bytes(&Label::new(b"ab")));
    assert!(a.has_bytes(b"abc"));
    assert!(!a.has_bytes(b"abcd"));
    assert!(bytes_equal(b"", b""));
    assert!(!bytes_equal(b"x", b"y"));
}

#[test]
fn query_from_descendant_gets_a_root() {
    let query = JsonPathQuery::new(descendant(label("person", Some(descendant(label("phoneNumber", None)))))).unwrap();
    let root_node = query.root();
    let descendant_node1 = root_node.child().unwrap();
    let label_node1 = descendant_node1.child().unwrap();
    let descendant_node2 = label_node1.child().unwrap();
    let label_node2 = descendant_node2.child().unwrap();
    assert!(root_node.is_root());
    assert!(descendant_node1.is_descendant());
    assert!(label_node1.is_label());
    assert!(descendant_node2.is_descendant());
    assert!(label_node2.is_label());
    assert!(label_node2.child().is_none());
    assert_eq!(label_node1.label().unwrap().bytes(), "person".as_bytes());
    assert_eq!(label_node2.label().unwrap().bytes(), "phoneNumber".as_bytes());
    assert!(root_node.label().is_none());
}

#[test]
fn query_from_root_keeps_it() {
    let query = JsonPathQuery::new(Box::new(JsonPathQueryNode::Root(None))).unwrap();
    assert!(query.root().is_root());
    assert!(query.root().child().is_none());
}

#[test]
fn root_child_label_is_refused() {
    let r = JsonPathQuery::new(label("a", None));
    assert_eq!(r.err(), Some("Root child expressions are not supported.".to_string()));
    let r = JsonPathQuery::new(Box::new(JsonPathQueryNode::Root(Some(label("a", None)))));
    assert_eq!(r.err(), Some("Root child expressions are not supported.".to_string()));
}

#[test]
fn root_inside_is_refused() {
    let r = JsonPathQuery::new(descendant(Box::new(JsonPathQueryNode::Root(None))));
    assert_eq!(
        r.err(),
        Some("The Root expression ('$') can appear only once at the start of the query.".to_string())
    );
}

#[test]
fn double_descendant_is_refused() {
    let r = JsonPathQuery::new(descendant(descendant(label("a", None))));
    assert_eq!(
        r.err(),
        Some(
            "Descendant expression ('..') cannot immediately follow another Descendant expression."
                .to_string()
        )
    );
}

#[test]
fn label_after_label_is_refused() {
    let r = JsonPathQuery::new(descendant(label("a", Some(label("b", None)))));
    assert_eq!(r.err(), Some("Child Label expressions are not supported.".to_string()));
    let ok = JsonPathQuery::validate(&descendant(label("a", None)));
    assert_eq!(ok, Ok(()));
}

#[test]
fn optional_nodes_answer_like_nodes() {
    let some: Option<Box<JsonPathQueryNode>> = Some(label("x", None));
    assert!(some.is_label());
    assert!(!some.is_root());
    assert!(!some.is_descendant());
    assert_eq!(some.label().unwrap().bytes(), b"x");
    let none: Option<Box<JsonPathQueryNode>> = None;
    assert!(!none.is_label());
    assert!(!none.is_root());
    assert!(!none.is_descendant());
    assert!(none.label().is_none());
}
