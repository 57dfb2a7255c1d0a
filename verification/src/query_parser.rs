//! The parser of JSONPath queries.
//!
//! A query is a sequence of expressions: the root `$`, a descendant step
//! `..`, or a label. A label is written plainly, as letters, digits and
//! underscores, or between `['` and `']`.

use crate::query::{fault_message, query_fault, rooted, JsonPathQuery, JsonPathQueryNode, Label};
use vstd::prelude::*;
use vstd::string::StringSliceAdditionalSpecFns;

verus! {

/// One expression of a query.
pub enum Token {
    /// `$`.
    Root,
    /// `..`.
    Descendant,
    /// A label, with its bytes.
    Label(Seq<u8>),
}

/// One expression of a query, as the parser holds it.
#[derive(Debug)]
pub enum QueryToken {
    /// `$`.
    Root,
    /// `..`.
    Descendant,
    /// A label, with its bytes.
    Label(Vec<u8>),
}

impl View for QueryToken {
    type V = Token;

    open spec fn view(&self) -> Token {
        match *self {
            QueryToken::Root => Token::Root,
            QueryToken::Descendant => Token::Descendant,
            QueryToken::Label(bytes) => Token::Label(bytes@),
        }
    }
}

/// Whether a byte may stand in a plain label: a letter, a digit or an
/// underscore.
pub open spec fn is_label_byte(byte: u8) -> bool {
    ||| 0x30 <= byte <= 0x39
    ||| 0x41 <= byte <= 0x5a
    ||| 0x61 <= byte <= 0x7a
    ||| byte == 0x5f
}

/// The offset behind the plain label that starts at `at`.
pub open spec fn plain_label_end(bytes: Seq<u8>, at: int) -> int
    decreases bytes.len() - at,
{
    if 0 <= at < bytes.len() && is_label_byte(bytes[at]) {
        plain_label_end(bytes, at + 1)
    } else {
        at
    }
}

/// The offset of the first `']` at or behind `at`, if there is one.
pub open spec fn closing_quote(bytes: Seq<u8>, at: int) -> Option<int>
    decreases bytes.len() - at,
{
    if at < 0 || at + 1 >= bytes.len() {
        None
    } else if bytes[at] == 0x27 && bytes[at + 1] == 0x5d {
        Some(at)
    } else {
        closing_quote(bytes, at + 1)
    }
}

/// The expressions that the bytes from `at` on are made of, or `None` where
/// they are no sequence of expressions.
pub open spec fn tokens_from(bytes: Seq<u8>, at: int) -> Option<Seq<Token>>
    decreases bytes.len() - at, 1int,
{
    if at < 0 || at >= bytes.len() {
        Some(Seq::empty())
    } else if bytes[at] == 0x24 {
        prepend(Token::Root, tokens_from(bytes, at + 1))
    } else if bytes[at] == 0x2e {
        if at + 1 < bytes.len() && bytes[at + 1] == 0x2e {
            prepend(Token::Descendant, tokens_from(bytes, at + 2))
        } else {
            None
        }
    } else if bytes[at] == 0x5b {
        if at + 1 < bytes.len() && bytes[at + 1] == 0x27 {
            match closing_quote(bytes, at + 2) {
                Some(end) => if at + 2 <= end && end + 2 <= bytes.len() {
                    prepend(Token::Label(bytes.subrange(at + 2, end)), tokens_from(bytes, end + 2))
                } else {
                    None
                },
                None => None,
            }
        } else {
            None
        }
    } else if is_label_byte(bytes[at]) {
        if at < plain_label_end(bytes, at) <= bytes.len() {
            prepend(
                Token::Label(bytes.subrange(at, plain_label_end(bytes, at))),
                tokens_from(bytes, plain_label_end(bytes, at)),
            )
        } else {
            None
        }
    } else {
        None
    }
}

/// `token` in front of `rest`.
pub open spec fn prepend(token: Token, rest: Option<Seq<Token>>) -> Option<Seq<Token>> {
    match rest {
        Some(tokens) => Some(seq![token] + tokens),
        None => None,
    }
}

/// The expressions that a query string is made of.
pub open spec fn spec_tokenize(bytes: Seq<u8>) -> Option<Seq<Token>> {
    tokens_from(bytes, 0)
}

/// The expressions of the list that starts at `node`.
pub open spec fn node_tokens(node: JsonPathQueryNode) -> Seq<Token>
    decreases node,
{
    match node {
        JsonPathQueryNode::Root(Some(next)) => seq![Token::Root] + node_tokens(*next),
        JsonPathQueryNode::Root(None) => seq![Token::Root],
        JsonPathQueryNode::Descendant(next) => seq![Token::Descendant] + node_tokens(*next),
        JsonPathQueryNode::Label(label, Some(next)) => seq![Token::Label(label@)] + node_tokens(
            *next,
        ),
        JsonPathQueryNode::Label(label, None) => seq![Token::Label(label@)],
    }
}

/// The expressions of an optional list.
pub open spec fn list_tokens(node: Option<Box<JsonPathQueryNode>>) -> Seq<Token> {
    match node {
        Some(node) => node_tokens(*node),
        None => Seq::empty(),
    }
}

/// The expressions with the root in front, where it is not written.
pub open spec fn with_root(tokens: Seq<Token>) -> Seq<Token> {
    if tokens.len() > 0 && tokens[0] is Root {
        tokens
    } else {
        seq![Token::Root] + tokens
    }
}

/// A list of nodes has at least one expression, starts with the root exactly
/// where its first node is one, and does not end in a descendant step.
pub proof fn lemma_node_tokens(node: JsonPathQueryNode)
    ensures
        node_tokens(node).len() >= 1,
        node_tokens(node)[0] is Root <==> node is Root,
        !(node_tokens(node).last() is Descendant),
    decreases node,
{
    match node {
        JsonPathQueryNode::Root(Some(next)) => {
            lemma_node_tokens(*next);
            assert(node_tokens(node).last() == node_tokens(*next).last());
        },
        JsonPathQueryNode::Root(None) => {},
        JsonPathQueryNode::Descendant(next) => {
            lemma_node_tokens(*next);
            assert(node_tokens(node).last() == node_tokens(*next).last());
        },
        JsonPathQueryNode::Label(label, Some(next)) => {
            lemma_node_tokens(*next);
            assert(node_tokens(node).last() == node_tokens(*next).last());
        },
        JsonPathQueryNode::Label(label, None) => {},
    }
}

/// The message for a string that is no sequence of expressions.
pub open spec fn syntax_message() -> Seq<char> {
    "The query is not a sequence of '$', '..' and labels."@
}

/// The message for a query that ends in a descendant step.
pub open spec fn dangling_message() -> Seq<char> {
    "Descendant expression ('..') must be followed by another expression."@
}

/// The offset behind the plain label that starts at `at`.
fn scan_plain_label(bytes: &[u8], at: usize) -> (end: usize)
    requires
        at <= bytes.len(),
    ensures
        end == plain_label_end(bytes@, at as int),
        at <= end <= bytes.len(),
{
    let mut end: usize = at;
    while end < bytes.len() && is_label(bytes[end])
        invariant
            at <= end <= bytes.len(),
            plain_label_end(bytes@, at as int) == plain_label_end(bytes@, end as int),
        decreases bytes.len() - end,
    {
        end += 1;
    }
    end
}

/// Whether a byte may stand in a plain label.
pub fn is_label(byte: u8) -> (r: bool)
    ensures
        r == is_label_byte(byte),
{
    (0x30 <= byte && byte <= 0x39) || (0x41 <= byte && byte <= 0x5a) || (0x61 <= byte && byte
        <= 0x7a) || byte == 0x5f
}

/// The offset of the first `']` at or behind `at`.
fn scan_closing_quote(bytes: &[u8], at: usize) -> (end: Option<usize>)
    requires
        at <= bytes.len(),
    ensures
        match end {
            Some(e) => closing_quote(bytes@, at as int) == Some(e as int) && at <= e && e + 2
                <= bytes.len(),
            None => closing_quote(bytes@, at as int).is_none(),
        },
{
    let mut i: usize = at;
    while i < bytes.len() && bytes.len() - i >= 2
        invariant
            at <= i <= bytes.len(),
            closing_quote(bytes@, at as int) == closing_quote(bytes@, i as int),
        decreases bytes.len() - i,
    {
        if bytes[i] == 0x27 && bytes[i + 1] == 0x5d {
            return Some(i);
        }
        i += 1;
    }
    None
}

/// A copy of the bytes from `from` up to `to`.
fn copy_range(bytes: &[u8], from: usize, to: usize) -> (copy: Vec<u8>)
    requires
        from <= to <= bytes.len(),
    ensures
        copy@ == bytes@.subrange(from as int, to as int),
{
    let mut copy: Vec<u8> = Vec::new();
    let mut i: usize = from;
    while i < to
        invariant
            from <= i <= to,
            to <= bytes.len(),
            copy@ == bytes@.subrange(from as int, i as int),
        decreases to - i,
    {
        copy.push(bytes[i]);
        i += 1;
        assert(copy@ =~= bytes@.subrange(from as int, i as int));
    }
    copy
}

/// Cuts a query string into its expressions.
pub fn tokenize(bytes: &[u8]) -> (r: Option<Vec<QueryToken>>)
    ensures
        match r {
            Some(tokens) => spec_tokenize(bytes@) == Some(tokens@.map_values(|t: QueryToken| t@)),
            None => spec_tokenize(bytes@).is_none(),
        },
{
    let mut tokens: Vec<QueryToken> = Vec::new();
    let mut at: usize = 0;
    while at < bytes.len()
        invariant
            at <= bytes.len(),
            spec_tokenize(bytes@) == match tokens_from(bytes@, at as int) {
                Some(rest) => Some(tokens@.map_values(|t: QueryToken| t@) + rest),
                None => None,
            },
        decreases bytes.len() - at,
    {
        let ghost before = tokens@.map_values(|t: QueryToken| t@);
        let byte: u8 = bytes[at];
        let token: QueryToken;
        let next: usize;
        if byte == 0x24 {
            token = QueryToken::Root;
            next = at + 1;
        } else if byte == 0x2e {
            if bytes.len() - at >= 2 && bytes[at + 1] == 0x2e {
                token = QueryToken::Descendant;
                next = at + 2;
            } else {
                return None;
            }
        } else if byte == 0x5b {
            if bytes.len() - at >= 2 && bytes[at + 1] == 0x27 {
                match scan_closing_quote(bytes, at + 2) {
                    Some(end) => {
                        token = QueryToken::Label(copy_range(bytes, at + 2, end));
                        next = end + 2;
                    },
                    None => {
                        return None;
                    },
                }
            } else {
                return None;
            }
        } else if is_label(byte) {
            let end: usize = scan_plain_label(bytes, at + 1);
            assert(plain_label_end(bytes@, at as int) == plain_label_end(bytes@, at + 1));
            token = QueryToken::Label(copy_range(bytes, at, end));
            next = end;
        } else {
            return None;
        }
        proof {
            let rest = tokens_from(bytes@, next as int);
            assert(tokens_from(bytes@, at as int) == prepend(token@, rest));
            if rest.is_some() {
                assert(tokens@.push(token).map_values(|t: QueryToken| t@) + rest.unwrap() =~= before
                    + (seq![token@] + rest.unwrap()));
            }
        }
        tokens.push(token);
        at = next;
    }
    proof {
        assert(tokens@.map_values(|t: QueryToken| t@) + Seq::<Token>::empty()
            =~= tokens@.map_values(|t: QueryToken| t@));
    }
    Some(tokens)
}

/// Links expressions into a list of nodes, the first expression first.
/// Returns `None` for no expressions, and for expressions that end in a
/// descendant step, which has nothing to descend to.
pub fn link(tokens: &Vec<QueryToken>) -> (r: Option<Box<JsonPathQueryNode>>)
    ensures
        match r {
            Some(node) => node_tokens(*node) == tokens@.map_values(|t: QueryToken| t@),
            None => tokens@.len() == 0 || tokens@.last()@ is Descendant,
        },
{
    let ghost all = tokens@.map_values(|t: QueryToken| t@);
    let mut node: Option<Box<JsonPathQueryNode>> = None;
    let mut i: usize = tokens.len();
    while i > 0
        invariant
            i <= tokens.len(),
            all == tokens@.map_values(|t: QueryToken| t@),
            list_tokens(node) == all.subrange(i as int, all.len() as int),
            node.is_none() ==> i == tokens.len(),
        decreases i,
    {
        i -= 1;
        let ghost rest = list_tokens(node);
        match &tokens[i] {
            QueryToken::Root => {
                node = Some(Box::new(JsonPathQueryNode::Root(node)));
            },
            QueryToken::Descendant => {
                match node {
                    None => {
                        return None;
                    },
                    Some(next) => {
                        node = Some(Box::new(JsonPathQueryNode::Descendant(next)));
                    },
                }
            },
            QueryToken::Label(bytes) => {
                let label = Label::new(bytes.as_slice());
                node = Some(Box::new(JsonPathQueryNode::Label(label, node)));
            },
        }
        proof {
            assert(all[i as int] == tokens@[i as int]@);
            assert(list_tokens(node) =~= seq![all[i as int]] + rest);
            assert(all.subrange(i as int, all.len() as int) =~= seq![all[i as int]]
                + all.subrange(i + 1, all.len() as int));
        }
    }
    proof {
        assert(all.subrange(0, all.len() as int) =~= all);
    }
    node
}

/// What parsing the query string `bytes` gives: the syntax message where
/// the string is no sequence of expressions; the dangling message where it
/// ends in a descendant step; else the query whose list has those
/// expressions behind the root, or, where that list has a fault, the message
/// of its first fault.
pub open spec fn parse_outcome(bytes: Seq<u8>, r: Result<JsonPathQuery, String>) -> bool {
    match spec_tokenize(bytes) {
        None => r is Err && r->Err_0@ == syntax_message(),
        Some(tokens) => if tokens.len() > 0 && tokens.last() is Descendant {
            r is Err && r->Err_0@ == dangling_message()
        } else {
            match r {
                Ok(query) => node_tokens(query.spec_root()) == with_root(tokens) && query_fault(
                    query.spec_root(),
                ).is_none(),
                Err(message) => exists|root: JsonPathQueryNode|
                    node_tokens(root) == with_root(tokens) && #[trigger] query_fault(root).is_some()
                        && message@ == fault_message(query_fault(root).unwrap()),
            }
        },
    }
}

/// Parses a query string into a query.
pub fn parse_json_path_query(query_string: &str) -> (r: Result<JsonPathQuery, String>)
    ensures
        parse_outcome(query_string.spec_bytes(), r),
{
    let tokens = match tokenize(query_string.as_bytes()) {
        None => {
            return Err("The query is not a sequence of '$', '..' and labels.".to_string());
        },
        Some(tokens) => tokens,
    };
    let ghost all = tokens@.map_values(|t: QueryToken| t@);
    let node = match link(&tokens) {
        Some(node) => {
            proof {
                lemma_node_tokens(*node);
            }
            node
        },
        None => {
            if tokens.len() > 0 {
                assert(all.last() == tokens@.last()@);
                return Err(
                    "Descendant expression ('..') must be followed by another expression.".to_string(),
                );
            }
            Box::new(JsonPathQueryNode::Root(None))
        },
    };
    let ghost root = rooted(*node);
    proof {
        lemma_node_tokens(*node);
        if tokens.len() == 0 {
            assert(node_tokens(root) =~= seq![Token::Root]);
            assert(with_root(all) =~= seq![Token::Root]);
        } else {
            assert(node_tokens(*node) == all);
            if *node is Root {
                assert(root == *node);
            } else {
                assert(node_tokens(root) =~= seq![Token::Root] + node_tokens(*node));
            }
        }
        assert(node_tokens(root) =~= with_root(all));
    }
    JsonPathQuery::new(node)
}

} // verus!
