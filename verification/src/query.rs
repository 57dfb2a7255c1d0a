//! The structure of a JSONPath query: a list of nodes that starts at the root
//! `$` and goes on with descendant steps `..` and labels.

use vstd::prelude::*;
use vstd::string::StringSliceAdditionalSpecFns;
use vstd::std_specs::cmp::PartialEqSpecImpl;

verus! {

/// The bytes of `label` between two double quotes.
pub open spec fn quoted(label: Seq<u8>) -> Seq<u8> {
    seq![0x22u8] + label + seq![0x22u8]
}

/// A label to search for in a JSON document: the bytes of a key of a JSON
/// object, kept both bare and between double quotes.
#[derive(Debug)]
pub struct Label {
    label: Vec<u8>,
    label_with_quotes: Vec<u8>,
}

impl View for Label {
    type V = Seq<u8>;

    closed spec fn view(&self) -> Seq<u8> {
        self.label@
    }
}

impl Label {
    #[verifier::type_invariant]
    spec fn inv(self) -> bool {
        self.label_with_quotes@ == quoted(self.label@)
    }

    /// A label from its raw bytes.
    pub fn new(label: &[u8]) -> (r: Self)
        ensures
            r@ == label@,
    {
        let mut without_quotes: Vec<u8> = Vec::new();
        let mut with_quotes: Vec<u8> = Vec::new();
        with_quotes.push(0x22);
        let mut i: usize = 0;
        while i < label.len()
            invariant
                i <= label.len(),
                without_quotes@ == label@.take(i as int),
                with_quotes@ == seq![0x22u8] + label@.take(i as int),
            decreases label.len() - i,
        {
            without_quotes.push(label[i]);
            with_quotes.push(label[i]);
            i += 1;
            assert(without_quotes@ =~= label@.take(i as int));
            assert(with_quotes@ =~= seq![0x22u8] + label@.take(i as int));
        }
        with_quotes.push(0x22);
        assert(label@.take(i as int) == label@);
        assert(with_quotes@ =~= quoted(label@));
        Self { label: without_quotes, label_with_quotes: with_quotes }
    }

    /// The raw bytes of the label.
    pub fn bytes(&self) -> (r: &[u8])
        ensures
            r@ == self@,
    {
        self.label.as_slice()
    }

    /// The bytes of the label with a leading and a trailing double quote.
    pub fn bytes_with_quotes(&self) -> (r: &[u8])
        ensures
            r@ == quoted(self@),
    {
        proof {
            use_type_invariant(self);
        }
        self.label_with_quotes.as_slice()
    }

    /// Whether two labels have the same bytes.
    pub fn same_bytes(&self, other: &Label) -> (r: bool)
        ensures
            r == (self@ == other@),
    {
        bytes_equal(self.label.as_slice(), other.label.as_slice())
    }

    /// Whether the label's bytes are `bytes`.
    pub fn has_bytes(&self, bytes: &[u8]) -> (r: bool)
        ensures
            r == (self@ == bytes@),
    {
        bytes_equal(self.label.as_slice(), bytes)
    }
}

impl PartialEq for Label {
    fn eq(&self, other: &Label) -> (r: bool) {
        bytes_equal(self.label.as_slice(), other.label.as_slice())
    }
}

impl PartialEqSpecImpl for Label {
    open spec fn obeys_eq_spec() -> bool {
        true
    }

    open spec fn eq_spec(&self, other: &Label) -> bool {
        self@ == other@
    }
}

impl Eq for Label {

}

/// Whether two byte strings are equal.
pub fn bytes_equal(a: &[u8], b: &[u8]) -> (r: bool)
    ensures
        r == (a@ == b@),
{
    if a.len() != b.len() {
        return false;
    }
    let mut i: usize = 0;
    while i < a.len()
        invariant
            i <= a.len(),
            a.len() == b.len(),
            a@.take(i as int) == b@.take(i as int),
        decreases a.len() - i,
    {
        if a[i] != b[i] {
            return false;
        }
        i += 1;
        assert(a@.take(i as int) =~= a@.take(i - 1).push(a@[i - 1]));
        assert(b@.take(i as int) =~= b@.take(i - 1).push(b@[i - 1]));
    }
    assert(a@.take(i as int) == a@);
    assert(b@.take(i as int) == b@);
    true
}

/// One node of the linked list that a query is.
#[derive(Debug)]
pub enum JsonPathQueryNode {
    /// The first node of the list, the root `$`.
    Root(Option<Box<JsonPathQueryNode>>),
    /// Recursive descent, `..`.
    Descendant(Box<JsonPathQueryNode>),
    /// A label to match among the keys of the document.
    Label(Label, Option<Box<JsonPathQueryNode>>),
}

impl JsonPathQueryNode {
    /// The node that follows, or `None` at the end of the list.
    pub open spec fn spec_child(&self) -> Option<JsonPathQueryNode> {
        match *self {
            JsonPathQueryNode::Root(Some(node)) => Some(*node),
            JsonPathQueryNode::Root(None) => None,
            JsonPathQueryNode::Descendant(node) => Some(*node),
            JsonPathQueryNode::Label(_, Some(node)) => Some(*node),
            JsonPathQueryNode::Label(_, None) => None,
        }
    }

    /// The node that follows, or `None` at the end of the list.
    pub fn child(&self) -> (r: Option<&JsonPathQueryNode>)
        ensures
            match r {
                Some(node) => self.spec_child() == Some(*node),
                None => self.spec_child().is_none(),
            },
    {
        match self {
            JsonPathQueryNode::Root(node) => match node {
                Some(node) => Some(&**node),
                None => None,
            },
            JsonPathQueryNode::Descendant(node) => Some(&**node),
            JsonPathQueryNode::Label(_, node) => match node {
                Some(node) => Some(&**node),
                None => None,
            },
        }
    }
}

/// Tells which kind of query node a value stands for, and gives its label.
pub trait JsonPathQueryNodeType {
    /// Whether the value is a [`JsonPathQueryNode::Root`].
    fn is_root(&self) -> bool;

    /// Whether the value is a [`JsonPathQueryNode::Descendant`].
    fn is_descendant(&self) -> bool;

    /// Whether the value is a [`JsonPathQueryNode::Label`].
    fn is_label(&self) -> bool;

    /// The label of a [`JsonPathQueryNode::Label`], `None` for anything else.
    fn label(&self) -> Option<&Label>;
}

impl JsonPathQueryNodeType for JsonPathQueryNode {
    fn is_root(&self) -> (r: bool)
        ensures
            r == (*self is Root),
    {
        match self {
            JsonPathQueryNode::Root(_) => true,
            _ => false,
        }
    }

    fn is_descendant(&self) -> (r: bool)
        ensures
            r == (*self is Descendant),
    {
        match self {
            JsonPathQueryNode::Descendant(_) => true,
            _ => false,
        }
    }

    fn is_label(&self) -> (r: bool)
        ensures
            r == (*self is Label),
    {
        match self {
            JsonPathQueryNode::Label(_, _) => true,
            _ => false,
        }
    }

    fn label(&self) -> (r: Option<&Label>)
        ensures
            match r {
                Some(label) => *self is Label && *label == self->Label_0,
                None => !(*self is Label),
            },
    {
        match self {
            JsonPathQueryNode::Label(label, _) => Some(label),
            _ => None,
        }
    }
}

/// What can be wrong with a list of query nodes.
#[derive(Clone, Copy, Debug, PartialEq, Eq, Structural)]
pub enum QueryFault {
    /// A root node that is not the first node.
    RootInside,
    /// A descendant step right after another one.
    DescendantAfterDescendant,
    /// A label right after another one.
    LabelAfterLabel,
    /// A root that is followed by anything but a descendant step.
    RootChild,
}

/// The message that reports a fault.
pub open spec fn fault_message(fault: QueryFault) -> Seq<char> {
    match fault {
        QueryFault::RootInside => "The Root expression ('$') can appear only once at the start of the query."@,
        QueryFault::DescendantAfterDescendant => "Descendant expression ('..') cannot immediately follow another Descendant expression."@,
        QueryFault::LabelAfterLabel => "Child Label expressions are not supported."@,
        QueryFault::RootChild => "Root child expressions are not supported."@,
    }
}

/// What is wrong with one node that stands after the root, given the node
/// that follows it.
pub open spec fn node_fault(node: JsonPathQueryNode) -> Option<QueryFault> {
    match node {
        JsonPathQueryNode::Root(_) => Some(QueryFault::RootInside),
        JsonPathQueryNode::Descendant(next) => if *next is Descendant {
            Some(QueryFault::DescendantAfterDescendant)
        } else {
            None
        },
        JsonPathQueryNode::Label(_, Some(next)) => if *next is Label {
            Some(QueryFault::LabelAfterLabel)
        } else {
            None
        },
        JsonPathQueryNode::Label(_, None) => None,
    }
}

/// The first fault of the list that starts at `node`, a node after the root.
pub open spec fn first_fault(node: JsonPathQueryNode) -> Option<QueryFault>
    decreases node,
{
    match node_fault(node) {
        Some(fault) => Some(fault),
        None => match node {
            JsonPathQueryNode::Root(_) => None,
            JsonPathQueryNode::Descendant(next) => first_fault(*next),
            JsonPathQueryNode::Label(_, Some(next)) => first_fault(*next),
            JsonPathQueryNode::Label(_, None) => None,
        },
    }
}

/// The root that a query gets from `node`: `node` itself where it is a root,
/// else a root in front of `node`.
pub open spec fn rooted(node: JsonPathQueryNode) -> JsonPathQueryNode {
    if node is Root {
        node
    } else {
        JsonPathQueryNode::Root(Some(Box::new(node)))
    }
}

/// The first fault of a whole query, given its root.
pub open spec fn query_fault(root: JsonPathQueryNode) -> Option<QueryFault> {
    match root.spec_child() {
        None => None,
        Some(next) => if next is Descendant {
            first_fault(next)
        } else {
            Some(QueryFault::RootChild)
        },
    }
}

/// A JSONPath query: the root of a list of nodes without fault.
#[derive(Debug)]
pub struct JsonPathQuery {
    root: Box<JsonPathQueryNode>,
}

impl JsonPathQuery {
    #[verifier::type_invariant]
    spec fn inv(self) -> bool {
        &&& *self.root is Root
        &&& query_fault(*self.root).is_none()
    }

    /// The root node.
    pub closed spec fn spec_root(&self) -> JsonPathQueryNode {
        *self.root
    }

    /// The root node. It is a [`JsonPathQueryNode::Root`], and the list that
    /// it starts has no fault.
    pub fn root(&self) -> (r: &JsonPathQueryNode)
        ensures
            *r == self.spec_root(),
            *r is Root,
            query_fault(*r).is_none(),
    {
        proof {
            use_type_invariant(self);
        }
        &*self.root
    }

    /// Parses a query string into a query.
    pub fn parse(query_string: &str) -> (r: Result<JsonPathQuery, String>)
        ensures
            crate::query_parser::parse_outcome(query_string.spec_bytes(), r),
    {
        crate::query_parser::parse_json_path_query(query_string)
    }

    /// A query from its first node. A node that is no root gets a root in
    /// front of it. A list with a fault is refused with the message of its
    /// first fault.
    pub fn new(node: Box<JsonPathQueryNode>) -> (r: Result<JsonPathQuery, String>)
        ensures
            match r {
                Ok(query) => query_fault(rooted(*node)).is_none() && query.spec_root() == rooted(
                    *node,
                ),
                Err(message) => query_fault(rooted(*node)).is_some() && message@ == fault_message(
                    query_fault(rooted(*node)).unwrap(),
                ),
            },
    {
        let root = if node.is_root() {
            node
        } else {
            Box::new(JsonPathQueryNode::Root(Some(node)))
        };
        match root.child() {
            None => Ok(Self { root }),
            Some(x) => {
                if x.is_descendant() {
                    match Self::validate(x) {
                        Ok(_) => Ok(Self { root }),
                        Err(message) => Err(message),
                    }
                } else {
                    Err("Root child expressions are not supported.".to_string())
                }
            },
        }
    }

    /// Checks the list that starts at `node`, a node after the root.
    pub fn validate(node: &JsonPathQueryNode) -> (r: Result<(), String>)
        ensures
            match r {
                Ok(_) => first_fault(*node).is_none(),
                Err(message) => first_fault(*node).is_some() && message@ == fault_message(
                    first_fault(*node).unwrap(),
                ),
            },
        decreases *node,
    {
        match node {
            JsonPathQueryNode::Root(_) => {
                return Err(
                    "The Root expression ('$') can appear only once at the start of the query.".to_string(),
                );
            },
            JsonPathQueryNode::Descendant(n) => {
                if n.is_descendant() {
                    return Err(
                        "Descendant expression ('..') cannot immediately follow another Descendant expression.".to_string(),
                    );
                }
            },
            JsonPathQueryNode::Label(_, n) => {
                if n.is_label() {
                    return Err("Child Label expressions are not supported.".to_string());
                }
            },
        }
        match node.child() {
            None => Ok(()),
            Some(x) => Self::validate(x),
        }
    }
}

impl JsonPathQueryNodeType for Option<Box<JsonPathQueryNode>> {
    fn is_root(&self) -> (r: bool)
        ensures
            r == (*self matches Some(node) && *node is Root),
    {
        match self {
            Some(node) => node.is_root(),
            None => false,
        }
    }

    fn is_descendant(&self) -> (r: bool)
        ensures
            r == (*self matches Some(node) && *node is Descendant),
    {
        match self {
            Some(node) => node.is_descendant(),
            None => false,
        }
    }

    fn is_label(&self) -> (r: bool)
        ensures
            r == (*self matches Some(node) && *node is Label),
    {
        match self {
            Some(node) => node.is_label(),
            None => false,
        }
    }

    fn label(&self) -> (r: Option<&Label>)
        ensures
            match r {
                Some(label) => *self matches Some(node) && *node is Label && *label
                    == node->Label_0,
                None => !(*self matches Some(node) && *node is Label),
            },
    {
        match self {
            Some(node) => node.label(),
            None => None,
        }
    }
}

} // verus!
