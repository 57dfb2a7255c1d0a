use bracket_lut::query::{JsonPathQuery, JsonPathQueryNodeType};
use bracket_lut::query_parser::{is_label, link, parse_json_path_query, tokenize, QueryToken};

const SYNTAX: &str = "The query is not a sequence of '$', '..' and labels.";
const DANGLING: &str = "Descendant expression ('..') must be followed by another expression.";

fn error_of(query: &str) -> String {
    JsonPathQuery::parse(query).err().unwrap()
}

#[test]
fn descendant_label_query_parses() {
    let query = JsonPathQuery::parse("$..person..phoneNumber").unwrap();
    let root_node = query.root();
    let descendant_node1 = root_node.child().unwrap();
    let label_node1 = descendant_node1.child().unwrap();
    let descendant_node2 = label_node1.child().unwrap();
    let label_node2 = descendant_node2.child().unwrap();
    assert!(root_node.is_root());
    assert!(descendant_node1.is_descendant());
    assert!(label_node1.is_label());
    assert!(descendant_node2.is_descendant());
    assert!(label_node2.is_label());
    assert!(label_node2.child().is_none());
    assert_eq!(label_node1.label().unwrap().bytes(), "person".as_bytes());
    assert_eq!(label_node2.label().unwrap().bytes(), "phoneNumber".as_bytes());
}

#[test]
fn root_is_implicit() {
    let query = JsonPathQuery::parse("..a_1").unwrap();
    assert!(query.root().is_root());
    let label = query.root().child().unwrap().child().unwrap();
    assert_eq!(label.label().unwrap().bytes(), b"a_1");
    let empty = JsonPathQuery::parse("").unwrap();
    assert!(empty.root().is_root());
    assert!(empty.root().child().is_none());
    let only_root = parse_json_path_query("$").unwrap();
    assert!(only_root.root().child().is_none());
}

#[test]
fn explicit_label_keeps_its_bytes() {
    let query = JsonPathQuery::parse("$..['a b.$']..c").unwrap();
    let label = query.root().child().unwrap().child().unwrap();
    assert_eq!(label.label().unwrap().bytes(), b"a b.$");
    assert_eq!(label.label().unwrap().bytes_with_quotes(), b"\"a b.$\"");
    let empty = JsonPathQuery::parse("..['']").unwrap();
    assert_eq!(empty.root().child().unwrap().child().unwrap().label().unwrap().bytes(), b"");
}

#[test]
fn strings_that_are_no_queries() {
    assert_eq!(error_of("$.a"), SYNTAX);
    assert_eq!(error_of("$..a b"), SYNTAX);
    assert_eq!(error_of("..['open"), SYNTAX);
    assert_eq!(error_of("..[a]"), SYNTAX);
    assert_eq!(error_of("..a."), SYNTAX);
    assert_eq!(error_of("*"), SYNTAX);
}

#[test]
fn query_must_not_end_in_a_descendant_step() {
    assert_eq!(error_of(".."), DANGLING);
    assert_eq!(error_of("$..a.."), DANGLING);
}

#[test]
fn faults_of_the_list_are_reported() {
    assert_eq!(error_of("$a"), "Root child expressions are not supported.");
    assert_eq!(error_of("a"), "Root child expressions are not supported.");
    assert_eq!(
        error_of("$..$"),
        "The Root expression ('$') can appear only once at the start of the query."
    );
    assert_eq!(
        error_of("$....a"),
        "Descendant expression ('..') cannot immediately follow another Descendant expression."
    );
    assert_eq!(error_of("$..a['b']"), "Child Label expressions are not supported.");
}

#[test]
fn tokens_of_a_query() {
    let tokens = tokenize(b"$..ab['c']").unwrap();
    assert_eq!(tokens.len(), 4);
    assert!(matches!(tokens[0], QueryToken::Root));
    assert!(matches!(tokens[1], QueryToken::Descendant));
    assert!(matches!(&tokens[2], QueryToken::Label(bytes) if bytes == b"ab"));
    assert!(matches!(&tokens[3], QueryToken::Label(bytes) if bytes == b"c"));
    assert!(tokenize(b"$.").is_none());
    assert_eq!(tokenize(b"").unwrap().len(), 0);
}

#[test]
fn linking_tokens() {
    assert!(link(&vec![]).is_none());
    assert!(link(&vec![QueryToken::Root, QueryToken::Descendant]).is_none());
    let node = link(&vec![QueryToken::Descendant, QueryToken::Label(b"x".to_vec())]).unwrap();
    assert!(node.is_descendant());
    assert_eq!(node.child().unwrap().label().unwrap().bytes(), b"x");
}

#[test]
fn label_bytes() {
    for byte in [b'a', b'z', b'A', b'Z', b'0', b'9', b'_'] {
        assert!(is_label(byte));
    }
    for byte in [b'.', b'$', b'[', b'\'', b' ', b'-', b'@', b'`', b'{', 0x80] {
        assert!(!is_label(byte));
    }
}
