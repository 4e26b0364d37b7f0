use vstd::prelude::*;

verus! {

/// One line (or one logical line, for quoted values that span several
/// physical lines) of an env file.
///
/// A `KeyValue` whose `key` is empty stands for a line that could not be
/// read as an assignment; its `value` then holds the line's text as it was
/// (the text of all the lines of the assignment, when a quoted value that
/// spans lines is followed by a malformed rest).
#[derive(Debug, PartialEq, Eq)]
pub enum Node {
    KeyValue { key: String, value: String, trailing_comment: Option<String> },
    Comment(String),
    EmptyLine,
}

/// The mathematical value of a `Node`.
pub enum NodeView {
    KeyValue { key: Seq<char>, value: Seq<char>, comment: Option<Seq<char>> },
    Comment(Seq<char>),
    EmptyLine,
}

pub open spec fn opt_view(o: Option<String>) -> Option<Seq<char>> {
    match o {
        Some(s) => Some(s@),
        None => None,
    }
}

impl View for Node {
    type V = NodeView;

    open spec fn view(&self) -> NodeView {
        match self {
            Node::KeyValue { key, value, trailing_comment } => NodeView::KeyValue {
                key: key@,
                value: value@,
                comment: opt_view(*trailing_comment),
            },
            Node::Comment(t) => NodeView::Comment(t@),
            Node::EmptyLine => NodeView::EmptyLine,
        }
    }
}

pub open spec fn nodes_view(v: Seq<Node>) -> Seq<NodeView> {
    v.map_values(|n: Node| n@)
}

/// A node that assigns a value to a key (as opposed to a comment, a blank
/// line or an unreadable line).
pub open spec fn is_entry(n: NodeView) -> bool {
    n is KeyValue && n->KeyValue_key.len() > 0
}

pub open spec fn is_entry_for(n: NodeView, k: Seq<char>) -> bool {
    is_entry(n) && n->KeyValue_key == k
}

/// A node that stands for a line the grammar could not read.
pub open spec fn unparsed(raw: Seq<char>) -> NodeView {
    NodeView::KeyValue { key: Seq::empty(), value: raw, comment: None }
}

pub fn clone_opt(o: &Option<String>) -> (r: Option<String>)
    ensures
        opt_view(r) == opt_view(*o),
{
    match o {
        Some(s) => Some(s.clone()),
        None => None,
    }
}

impl Node {
    /// A copy of the node with the same view.
    pub fn duplicate(&self) -> (r: Node)
        ensures
            r@ == self@,
    {
        match self {
            Node::KeyValue { key, value, trailing_comment } => Node::KeyValue {
                key: key.clone(),
                value: value.clone(),
                trailing_comment: clone_opt(trailing_comment),
            },
            Node::Comment(t) => Node::Comment(t.clone()),
            Node::EmptyLine => Node::EmptyLine,
        }
    }
}

} // verus!
