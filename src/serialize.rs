//! The serializer: nodes back to text, and the quoting of values.
use vstd::prelude::*;
use crate::node::{Node, NodeView, nodes_view};
use crate::text::{push_char, push_slice, push_str, str_chars};

verus! {

/// A character that cannot stand in a value written without quotes:
/// blanks and control characters, non-ASCII characters, quotes, backslash,
/// `$` and `#`.
pub open spec fn needs_quote_char(c: char) -> bool {
    (c as u32) <= 32 || (c as u32) >= 127 || c == '\'' || c == '"' || c == '\\' || c == '$'
        || c == '#'
}

/// A value must be quoted when it is empty or holds such a character.
pub open spec fn needs_quotes(v: Seq<char>) -> bool {
    v.len() == 0 || exists|i: int| 0 <= i < v.len() && needs_quote_char(#[trigger] v[i])
}

pub open spec fn escape_char(c: char) -> Seq<char> {
    if c == '"' || c == '\\' {
        seq!['\\', c]
    } else if c == '\n' {
        seq!['\\', 'n']
    } else if c == '\r' {
        seq!['\\', 'r']
    } else if c == '\t' {
        seq!['\\', 't']
    } else {
        seq![c]
    }
}

/// The value with `"` and `\` escaped by a backslash, and line feeds,
/// carriage returns and tabs written as `\n`, `\r` and `\t`, so that a
/// written value never breaks its line.
pub open spec fn escaped(v: Seq<char>) -> Seq<char>
    decreases v.len(),
{
    if v.len() == 0 {
        Seq::empty()
    } else {
        escaped(v.drop_last()) + escape_char(v.last())
    }
}

/// How a value is written after `=`.
pub open spec fn quoted(v: Seq<char>) -> Seq<char> {
    if needs_quotes(v) {
        seq!['"'] + escaped(v) + seq!['"']
    } else {
        v
    }
}

/// The text of one node, without its line feed.
pub open spec fn node_line(n: NodeView) -> Seq<char> {
    match n {
        NodeView::KeyValue { key, value, comment } => {
            if key.len() == 0 {
                value
            } else {
                key + seq!['='] + quoted(value) + match comment {
                    Some(c) => seq![' '] + c,
                    None => Seq::empty(),
                }
            }
        },
        NodeView::Comment(t) => seq!['#'] + t,
        NodeView::EmptyLine => Seq::empty(),
    }
}

/// The text of a document: each node's line followed by a line feed.
pub open spec fn serialize(ns: Seq<NodeView>) -> Seq<char>
    decreases ns.len(),
{
    if ns.len() == 0 {
        Seq::empty()
    } else {
        serialize(ns.drop_last()) + node_line(ns.last()) + seq!['\n']
    }
}

fn needs_quote_char_exec(c: char) -> (r: bool)
    ensures
        r == needs_quote_char(c),
{
    (c as u32) <= 32 || (c as u32) >= 127 || c == '\'' || c == '"' || c == '\\' || c == '$'
        || c == '#'
}

/// Whether `value` has to be written between double quotes.
pub fn needs_quoting(value: &str) -> (r: bool)
    ensures
        r == needs_quotes(value@),
{
    let t = str_chars(value);
    let mut i: usize = 0;
    while i < t.len()
        invariant
            i <= t@.len(),
            t@ == value@,
            forall|j: int| 0 <= j < i ==> !needs_quote_char(#[trigger] t@[j]),
        decreases t@.len() - i,
    {
        if needs_quote_char_exec(t[i]) {
            return true;
        }
        i = i + 1;
    }
    t.len() == 0
}

/// Appends the escaped form of `t`.
fn push_escaped(s: &mut String, t: &Vec<char>)
    ensures
        final(s)@ == old(s)@ + escaped(t@),
{
    let mut i: usize = 0;
    while i < t.len()
        invariant
            i <= t@.len(),
            s@ == old(s)@ + escaped(t@.subrange(0, i as int)),
        decreases t@.len() - i,
    {
        let c = t[i];
        let ghost before = s@;
        if c == '"' || c == '\\' {
            push_char(s, '\\');
            push_char(s, c);
        } else if c == '\n' {
            push_char(s, '\\');
            push_char(s, 'n');
        } else if c == '\r' {
            push_char(s, '\\');
            push_char(s, 'r');
        } else if c == '\t' {
            push_char(s, '\\');
            push_char(s, 't');
        } else {
            push_char(s, c);
        }
        proof {
            let p = t@.subrange(0, i + 1);
            assert(p.drop_last() == t@.subrange(0, i as int));
            assert(p.last() == c);
            assert(s@ == before + escape_char(c));
            assert(old(s)@ + escaped(p) == old(s)@ + escaped(t@.subrange(0, i as int)) + escape_char(c));
        }
        i = i + 1;
    }
    assert(t@.subrange(0, t@.len() as int) == t@);
}

/// `value` as it is written after `=`: as it is when it needs no quotes,
/// else between double quotes, escaped as `escaped` says.
pub fn quote_value(value: &str) -> (r: String)
    ensures
        r@ == quoted(value@),
{
    if needs_quoting(value) {
        let t = str_chars(value);
        let mut q = String::new();
        push_char(&mut q, '"');
        push_escaped(&mut q, &t);
        push_char(&mut q, '"');
        assert(q@ == seq!['"'] + escaped(value@) + seq!['"']);
        q
    } else {
        let t = str_chars(value);
        let mut q = String::new();
        push_slice(&mut q, &t, 0, t.len());
        assert(t@.subrange(0, t@.len() as int) == t@);
        assert(q@ == value@);
        q
    }
}

/// Appends the line of one node, without its line feed.
fn push_node_line(s: &mut String, n: &Node)
    ensures
        final(s)@ == old(s)@ + node_line(n@),
{
    match n {
        Node::KeyValue { key, value, trailing_comment } => {
            if key.unicode_len() == 0 {
                push_str(s, value.as_str());
            } else {
                push_str(s, key.as_str());
                push_char(s, '=');
                let q = quote_value(value.as_str());
                push_str(s, q.as_str());
                match trailing_comment {
                    Some(c) => {
                        push_char(s, ' ');
                        push_str(s, c.as_str());
                    },
                    None => {},
                }
                assert(final(s)@ == old(s)@ + node_line(n@));
            }
        },
        Node::Comment(t) => {
            push_char(s, '#');
            push_str(s, t.as_str());
            assert(final(s)@ == old(s)@ + node_line(n@));
        },
        Node::EmptyLine => {
            assert(node_line(n@) == Seq::<char>::empty());
            assert(old(s)@ + Seq::<char>::empty() == old(s)@);
        },
    }
}

/// Writes the nodes back as text, one line each, every line ending with a
/// line feed.
pub fn print_lines(lines: &[Node]) -> (r: String)
    ensures
        r@ == serialize(nodes_view(lines@)),
{
    let mut s = String::new();
    let mut i: usize = 0;
    while i < lines.len()
        invariant
            i <= lines@.len(),
            s@ == serialize(nodes_view(lines@.subrange(0, i as int))),
        decreases lines@.len() - i,
    {
        push_node_line(&mut s, &lines[i]);
        push_char(&mut s, '\n');
        proof {
            let p = nodes_view(lines@.subrange(0, i + 1));
            assert(p.drop_last() == nodes_view(lines@.subrange(0, i as int)));
            assert(p.last() == lines@[i as int]@);
        }
        i = i + 1;
    }
    assert(lines@.subrange(0, lines@.len() as int) == lines@);
    s
}

} // verus!
