//! The parser: text to nodes.
use vstd::prelude::*;
use crate::grammar::{
    QState, ScanEnd, after, dq_escape, is_valid_key, eol_trim, export_word, is_key_char, is_key_head, is_ws, key_scan,
    key_start, line_end, parse_from, parse_text, raw_node, record, scan, skip_ws, trim_cr,
    break_cr, norm_from, normalized, run_ok,
};
use crate::node::{Node, NodeView, opt_view, nodes_view};
use crate::document::Ast;
use crate::text::{push_char, slice_string, str_chars};

verus! {

pub fn is_ws_char(c: char) -> (r: bool)
    ensures
        r == is_ws(c),
{
    c == ' ' || c == '\t' || c == '\r' || c == '\x0B' || c == '\x0C' || c == '\u{85}' || c
        == '\u{A0}' || c == '\u{1680}' || ('\u{2000}' <= c && c <= '\u{200A}') || c == '\u{2028}'
        || c == '\u{2029}' || c == '\u{202F}' || c == '\u{205F}' || c == '\u{3000}'
}

pub fn is_key_head_char(c: char) -> (r: bool)
    ensures
        r == is_key_head(c),
{
    ('A' <= c && c <= 'Z') || ('a' <= c && c <= 'z') || c == '_'
}

pub fn is_key_char_char(c: char) -> (r: bool)
    ensures
        r == is_key_char(c),
{
    is_key_head_char(c) || ('0' <= c && c <= '9') || c == '.'
}

/// Whether `key` is a key that the grammar reads: `[A-Za-z_][A-Za-z0-9_.]*`.
pub fn valid_key(key: &str) -> (r: bool)
    ensures
        r == is_valid_key(key@),
{
    let t = str_chars(key);
    if t.len() == 0 || !is_key_head_char(t[0]) {
        return false;
    }
    let mut i: usize = 0;
    while i < t.len()
        invariant
            t@ == key@,
            i <= t@.len(),
            forall|m: int| 0 <= m < i ==> is_key_char(#[trigger] t@[m]),
        decreases t@.len() - i,
    {
        if !is_key_char_char(t[i]) {
            return false;
        }
        i = i + 1;
    }
    true
}

fn find_line_end(t: &Vec<char>, i: usize) -> (r: usize)
    requires
        i <= t@.len(),
    ensures
        r == line_end(t@, i as int),
        i <= r <= t@.len(),
{
    let mut j = i;
    while j < t.len() && t[j] != '\n'
        invariant
            i <= j <= t@.len(),
            line_end(t@, i as int) == line_end(t@, j as int),
        decreases t@.len() - j,
    {
        j = j + 1;
    }
    j
}

fn find_non_ws(t: &Vec<char>, i: usize) -> (r: usize)
    requires
        i <= t@.len(),
    ensures
        r == skip_ws(t@, i as int),
        i <= r <= t@.len(),
{
    let mut j = i;
    while j < t.len() && is_ws_char(t[j])
        invariant
            i <= j <= t@.len(),
            skip_ws(t@, i as int) == skip_ws(t@, j as int),
        decreases t@.len() - j,
    {
        j = j + 1;
    }
    j
}

fn find_key_end(t: &Vec<char>, i: usize) -> (r: usize)
    requires
        i <= t@.len(),
    ensures
        r == key_scan(t@, i as int),
        i <= r <= t@.len(),
{
    let mut j = i;
    while j < t.len() && is_key_char_char(t[j])
        invariant
            i <= j <= t@.len(),
            key_scan(t@, i as int) == key_scan(t@, j as int),
        decreases t@.len() - j,
    {
        j = j + 1;
    }
    j
}

fn find_trim_cr(t: &Vec<char>, a: usize, b: usize) -> (r: usize)
    requires
        a <= b <= t@.len(),
    ensures
        r == trim_cr(t@, a as int, b as int),
        a <= r <= b,
{
    let mut j = b;
    while j > a && t[j - 1] == '\r'
        invariant
            a <= j <= b <= t@.len(),
            trim_cr(t@, a as int, b as int) == trim_cr(t@, a as int, j as int),
        decreases j,
    {
        j = j - 1;
    }
    j
}

fn find_eol_trim(t: &Vec<char>, a: usize, b: usize) -> (r: usize)
    requires
        a <= b <= t@.len(),
    ensures
        r == eol_trim(t@, a as int, b as int),
        a <= r <= b,
{
    if b > a && t[b - 1] == '\n' {
        b - 1
    } else {
        b
    }
}

fn find_key_start(t: &Vec<char>, j: usize) -> (r: usize)
    requires
        j <= t@.len(),
    ensures
        r == key_start(t@, j as int),
        j <= r <= t@.len(),
{
    if j < t.len() && t.len() - j > 6 && t[j] == 'e' && t[j + 1] == 'x' && t[j + 2] == 'p' && t[j + 3] == 'o'
        && t[j + 4] == 'r' && t[j + 5] == 't' && is_ws_char(t[j + 6]) {
        assert(t@.subrange(j as int, j + 6) == export_word());
        let k = find_non_ws(t, j + 6);
        if k < t.len() && is_key_head_char(t[k]) {
            k
        } else {
            j
        }
    } else {
        assert(j + 6 < t@.len() ==> t@.subrange(j as int, j + 6) != export_word() || !is_ws(t@[j + 6]))
            by {
            if j + 6 < t@.len() && t@.subrange(j as int, j + 6) == export_word() {
                assert(t@.subrange(j as int, j + 6)[0] == t@[j as int]);
                assert(t@.subrange(j as int, j + 6)[1] == t@[j + 1]);
                assert(t@.subrange(j as int, j + 6)[2] == t@[j + 2]);
                assert(t@.subrange(j as int, j + 6)[3] == t@[j + 3]);
                assert(t@.subrange(j as int, j + 6)[4] == t@[j + 4]);
                assert(t@.subrange(j as int, j + 6)[5] == t@[j + 5]);
            }
        }
        j
    }
}

/// How the value scanner stopped, with the value as strings.
enum Scanned {
    Done { value: String, comment: Option<String>, end: usize },
    Fail { end: usize, open: bool },
}

spec fn scanned_matches(r: Scanned, s: ScanEnd) -> bool {
    match r {
        Scanned::Done { value, comment, end } => s == ScanEnd::Done {
            value: value@,
            comment: opt_view(comment),
            end: end as int,
        },
        Scanned::Fail { end, open } => s == ScanEnd::Fail { end: end as int, open },
    }
}

fn push_all(s: &mut String, x: &String)
    ensures
        final(s)@ == old(s)@ + x@,
{
    crate::text::push_str(s, x.as_str());
}

/// Runs the value scanner from `p0`, outside quotes.
fn scan_value(t: &Vec<char>, p0: usize) -> (r: Scanned)
    requires
        p0 <= t@.len(),
    ensures
        scanned_matches(r, scan(t@, p0 as int, QState::Plain, Seq::empty(), Seq::empty())),
        match r {
            Scanned::Done { end, .. } => p0 <= end <= t@.len(),
            Scanned::Fail { end, .. } => p0 <= end <= t@.len(),
        },
{
    let mut p = p0;
    let mut st = QState::Plain;
    let mut val = String::new();
    let mut pend = String::new();
    while p < t.len()
        invariant
            p0 <= p <= t@.len(),
            scan(t@, p as int, st, val@, pend@) == scan(t@, p0 as int, QState::Plain, Seq::empty(), Seq::empty()),
            st != QState::Plain ==> pend@.len() == 0,
        decreases t@.len() - p,
    {
        let c = t[p];
        match st {
            QState::Plain => {
                if c == '\n' {
                    return Scanned::Done { value: val, comment: None, end: p };
                } else if c == '#' {
                    let e = find_line_end(t, p);
                    let te = find_trim_cr(t, p, e);
                    let comment = slice_string(t, p, te);
                    return Scanned::Done { value: val, comment: Some(comment), end: e };
                } else if is_ws_char(c) {
                    push_char(&mut pend, c);
                } else {
                    push_all(&mut val, &pend);
                    pend = String::new();
                    if c == '\'' {
                        st = QState::Single;
                    } else if c == '"' {
                        st = QState::Double;
                    } else if c == '\\' {
                        st = QState::PlainEscape;
                    } else {
                        push_char(&mut val, c);
                    }
                }
            },
            QState::Single => {
                if c == '\'' {
                    st = QState::Plain;
                } else {
                    push_char(&mut val, c);
                }
            },
            QState::Double => {
                if c == '"' {
                    st = QState::Plain;
                } else if c == '\\' {
                    st = QState::DoubleEscape;
                } else {
                    push_char(&mut val, c);
                }
            },
            QState::DoubleEscape => {
                let ghost v0 = val@;
                if c == '\\' || c == '"' || c == '$' || c == ' ' {
                    push_char(&mut val, c);
                } else if c == 'n' {
                    push_char(&mut val, '\n');
                } else if c == 'r' {
                    push_char(&mut val, '\r');
                } else if c == 't' {
                    push_char(&mut val, '\t');
                } else {
                    push_char(&mut val, '\\');
                    push_char(&mut val, c);
                }
                assert(val@ == v0 + dq_escape(c));
                st = QState::Double;
            },
            QState::PlainEscape => {
                if c == '\n' || c == '\r' {
                    let e = find_line_end(t, p);
                    return Scanned::Fail { end: e, open: false };
                } else if c == 'n' {
                    push_char(&mut val, '\n');
                } else {
                    push_char(&mut val, c);
                }
                st = QState::Plain;
            },
        }
        p = p + 1;
    }
    if st == QState::Plain {
        Scanned::Done { value: val, comment: None, end: p }
    } else {
        Scanned::Fail { end: p, open: true }
    }
}

/// The node for the unreadable text `t[i..x]`.
fn raw_record(t: &Vec<char>, i: usize, x: usize) -> (r: Node)
    requires
        i <= x <= t@.len(),
    ensures
        r@ == raw_node(t@, i as int, x as int),
{
    let te = find_eol_trim(t, i, x);
    Node::KeyValue { key: String::new(), value: slice_string(t, i, te), trailing_comment: None }
}

fn next_start(t: &Vec<char>, x: usize) -> (r: usize)
    requires
        x <= t@.len(),
    ensures
        r == after(t@, x as int),
{
    if x < t.len() {
        x + 1
    } else {
        x
    }
}

/// Reads the record that starts at `i`.
fn read_record(t: &Vec<char>, i: usize) -> (r: (Node, usize))
    requires
        i < t@.len(),
    ensures
        r.0@ == record(t@, i as int).0,
        r.1 == record(t@, i as int).1,
        i < r.1 <= t@.len(),
{
    let e = find_line_end(t, i);
    let j = find_non_ws(t, i);
    if j >= e {
        (Node::EmptyLine, next_start(t, e))
    } else if t[j] == '#' {
        let te = find_trim_cr(t, j + 1, e);
        (Node::Comment(slice_string(t, j + 1, te)), next_start(t, e))
    } else {
        let ks = find_key_start(t, j);
        let ke = find_key_end(t, ks);
        let q = find_non_ws(t, ke);
        if ks < t.len() && is_key_head_char(t[ks]) && q < t.len() && t[q] == '=' {
            let v0 = find_non_ws(t, q + 1);
            match scan_value(t, v0) {
                Scanned::Done { value, comment, end } => {
                    let key = slice_string(t, ks, ke);
                    (Node::KeyValue { key, value, trailing_comment: comment }, next_start(t, end))
                },
                Scanned::Fail { end, open } => {
                    if open {
                        (raw_record(t, i, e), next_start(t, e))
                    } else {
                        (raw_record(t, i, end), next_start(t, end))
                    }
                },
            }
        } else {
            (raw_record(t, i, e), next_start(t, e))
        }
    }
}

fn is_break_cr(t: &Vec<char>, p: usize) -> (r: bool)
    requires
        p < t@.len(),
    ensures
        r == break_cr(t@, p as int),
{
    if t[p] != '\r' {
        return false;
    }
    let n = t.len();
    let mut q = p + 1;
    while q < n && t[q] == '\r'
        invariant
            p < q <= t@.len(),
            n == t@.len(),
            run_ok(t@, p + 1) == run_ok(t@, q as int),
        decreases t@.len() - q,
    {
        q = q + 1;
    }
    !(q < t.len() && t[q] != '\n')
}

/// The text without the carriage returns that belong to line breaks.
fn normalize(t: &Vec<char>) -> (r: Vec<char>)
    ensures
        r@ == normalized(t@),
{
    let mut r: Vec<char> = Vec::new();
    let mut p: usize = 0;
    while p < t.len()
        invariant
            p <= t@.len(),
            r@ + norm_from(t@, p as int) == norm_from(t@, 0),
        decreases t@.len() - p,
    {
        if !is_break_cr(t, p) {
            let ghost before = r@;
            r.push(t[p]);
            assert(before + norm_from(t@, p as int) == r@ + norm_from(t@, p + 1)) by {
                assert(norm_from(t@, p as int) == seq![t@[p as int]] + norm_from(t@, p + 1));
                assert(before + (seq![t@[p as int]] + norm_from(t@, p + 1)) =~= before.push(t@[p as int]) + norm_from(t@, p + 1));
            }
        }
        p = p + 1;
    }
    assert(r@ + Seq::<char>::empty() == r@);
    r
}

/// Parses a whole env file.
///
/// Never fails: a line that cannot be read as an assignment becomes a
/// `KeyValue` with an empty key whose value is the line's text.
pub fn parse(input: &str) -> (r: Ast)
    ensures
        r@ == parse_text(input@),
{
    let t = normalize(&str_chars(input));
    let mut nodes: Vec<Node> = Vec::new();
    let mut i: usize = 0;
    while i < t.len()
        invariant
            i <= t@.len(),
            t@ == normalized(input@),
            nodes_view(nodes@) + parse_from(t@, i as int) == parse_from(t@, 0),
        decreases t@.len() - i,
    {
        let (n, k) = read_record(&t, i);
        proof {
            assert(nodes_view(nodes@.push(n)) == nodes_view(nodes@).push(n@));
            assert(parse_from(t@, i as int) == seq![n@] + parse_from(t@, k as int));
            assert(nodes_view(nodes@).push(n@) + parse_from(t@, k as int)
                == nodes_view(nodes@) + (seq![n@] + parse_from(t@, k as int)));
        }
        nodes.push(n);
        i = k;
    }
    proof {
        assert(parse_from(t@, i as int) == Seq::<NodeView>::empty());
        assert(nodes_view(nodes@) + Seq::<NodeView>::empty() == nodes_view(nodes@));
    }
    Ast { nodes }
}

/// Reads the first logical line of `line`. An empty string (or one made of
/// carriage returns) is an empty line.
pub fn parse_line(line: &str) -> (r: Node)
    ensures
        normalized(line@).len() == 0 ==> r@ == NodeView::EmptyLine,
        normalized(line@).len() > 0 ==> r@ == record(normalized(line@), 0).0,
{
    let t = normalize(&str_chars(line));
    if t.len() == 0 {
        Node::EmptyLine
    } else {
        read_record(&t, 0).0
    }
}

} // verus!
