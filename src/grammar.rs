//! The grammar of env files, stated over the text as a sequence of
//! characters. Positions are absolute indices into the whole text.
use vstd::prelude::*;
use crate::node::{NodeView, unparsed};

verus! {

/// Blank characters inside a line: the Unicode `White_Space` characters
/// (those that `char::is_whitespace` accepts) but the line feed, which ends
/// a line.
pub open spec fn is_ws(c: char) -> bool {
    c == ' ' || c == '\t' || c == '\r' || c == '\x0B' || c == '\x0C' || c == '\u{85}' || c
        == '\u{A0}' || c == '\u{1680}' || ('\u{2000}' <= c && c <= '\u{200A}') || c == '\u{2028}'
        || c == '\u{2029}' || c == '\u{202F}' || c == '\u{205F}' || c == '\u{3000}'
}

pub open spec fn is_key_head(c: char) -> bool {
    ('A' <= c && c <= 'Z') || ('a' <= c && c <= 'z') || c == '_'
}

pub open spec fn is_key_char(c: char) -> bool {
    is_key_head(c) || ('0' <= c && c <= '9') || c == '.'
}

/// A key as the grammar accepts it: `[A-Za-z_][A-Za-z0-9_.]*`.
pub open spec fn is_valid_key(k: Seq<char>) -> bool {
    k.len() > 0 && is_key_head(k[0]) && forall|i: int| 0 <= i < k.len() ==> is_key_char(#[trigger] k[i])
}

/// Index of the line feed that ends the line holding `i`, or the text's length.
pub open spec fn line_end(t: Seq<char>, i: int) -> int
    decreases t.len() - i,
{
    if i < 0 || i >= t.len() {
        t.len() as int
    } else if t[i] == '\n' {
        i
    } else {
        line_end(t, i + 1)
    }
}

/// First index at or after `i` that does not hold a blank.
pub open spec fn skip_ws(t: Seq<char>, i: int) -> int
    decreases t.len() - i,
{
    if i < 0 || i >= t.len() {
        t.len() as int
    } else if !is_ws(t[i]) {
        i
    } else {
        skip_ws(t, i + 1)
    }
}

/// First index at or after `i` that does not hold a key character.
pub open spec fn key_scan(t: Seq<char>, i: int) -> int
    decreases t.len() - i,
{
    if i < 0 || i >= t.len() {
        t.len() as int
    } else if !is_key_char(t[i]) {
        i
    } else {
        key_scan(t, i + 1)
    }
}

pub open spec fn export_word() -> Seq<char> {
    seq!['e', 'x', 'p', 'o', 'r', 't']
}

/// Where the key begins when the first non-blank of the line is at `j`: an
/// `export` word followed by blanks and a key is skipped.
pub open spec fn key_start(t: Seq<char>, j: int) -> int {
    if 0 <= j && j + 6 < t.len() && t.subrange(j, j + 6) == export_word() && is_ws(t[j + 6]) {
        let k = skip_ws(t, j + 6);
        if k < t.len() && is_key_head(t[k]) {
            k
        } else {
            j
        }
    } else {
        j
    }
}

/// End of `t[a..b]` once carriage returns at its end are left out.
pub open spec fn trim_cr(t: Seq<char>, a: int, b: int) -> int
    decreases b - a,
{
    if b > a && t[b - 1] == '\r' {
        trim_cr(t, a, b - 1)
    } else {
        b
    }
}

/// End of `t[a..b]` once a line feed at its end is left out.
pub open spec fn eol_trim(t: Seq<char>, a: int, b: int) -> int {
    if b > a && t[b - 1] == '\n' {
        b - 1
    } else {
        b
    }
}

/// The state of the value scanner.
#[derive(PartialEq, Eq, Structural, Clone, Copy)]
pub enum QState {
    /// Outside quotes.
    Plain,
    /// Inside single quotes: everything up to the next `'` is literal.
    Single,
    /// Inside double quotes: backslash escapes apply.
    Double,
    /// After a backslash outside quotes.
    PlainEscape,
    /// After a backslash inside double quotes.
    DoubleEscape,
}

/// What a backslash followed by `c` stands for inside double quotes.
pub open spec fn dq_escape(c: char) -> Seq<char> {
    if c == '\\' || c == '"' || c == '$' || c == ' ' {
        seq![c]
    } else if c == 'n' {
        seq!['\n']
    } else if c == 'r' {
        seq!['\r']
    } else if c == 't' {
        seq!['\t']
    } else {
        seq!['\\', c]
    }
}

/// What a backslash followed by `c` stands for outside quotes.
pub open spec fn plain_escape(c: char) -> char {
    if c == 'n' {
        '\n'
    } else {
        c
    }
}

/// How the value scanner stops.
pub enum ScanEnd {
    /// The value ended at `end`, a line feed or the end of the text.
    Done { value: Seq<char>, comment: Option<Seq<char>>, end: int },
    /// The value is malformed; the unreadable text ends at `end`. `open`
    /// tells that the text ended inside quotes or after a backslash.
    Fail { end: int, open: bool },
}

/// The value scanner, from position `p` in state `st`. `val` is the value
/// read so far and `pend` the blanks read outside quotes since the last
/// character that belongs to the value: they join the value only if more
/// of it follows.
pub open spec fn scan(t: Seq<char>, p: int, st: QState, val: Seq<char>, pend: Seq<char>) -> ScanEnd
    decreases t.len() - p,
{
    if p < 0 || p >= t.len() {
        if st == QState::Plain {
            ScanEnd::Done { value: val, comment: None, end: t.len() as int }
        } else {
            ScanEnd::Fail { end: t.len() as int, open: true }
        }
    } else {
        let c = t[p];
        match st {
            QState::Plain => {
                if c == '\n' {
                    ScanEnd::Done { value: val, comment: None, end: p }
                } else if c == '#' {
                    let e = line_end(t, p);
                    ScanEnd::Done {
                        value: val,
                        comment: Some(t.subrange(p, trim_cr(t, p, e))),
                        end: e,
                    }
                } else if is_ws(c) {
                    scan(t, p + 1, QState::Plain, val, pend.push(c))
                } else if c == '\'' {
                    scan(t, p + 1, QState::Single, val + pend, Seq::empty())
                } else if c == '"' {
                    scan(t, p + 1, QState::Double, val + pend, Seq::empty())
                } else if c == '\\' {
                    scan(t, p + 1, QState::PlainEscape, val + pend, Seq::empty())
                } else {
                    scan(t, p + 1, QState::Plain, (val + pend).push(c), Seq::empty())
                }
            },
            QState::Single => {
                if c == '\'' {
                    scan(t, p + 1, QState::Plain, val, pend)
                } else {
                    scan(t, p + 1, QState::Single, val.push(c), pend)
                }
            },
            QState::Double => {
                if c == '"' {
                    scan(t, p + 1, QState::Plain, val, pend)
                } else if c == '\\' {
                    scan(t, p + 1, QState::DoubleEscape, val, pend)
                } else {
                    scan(t, p + 1, QState::Double, val.push(c), pend)
                }
            },
            QState::DoubleEscape => scan(t, p + 1, QState::Double, val + dq_escape(c), pend),
            QState::PlainEscape => {
                if c == '\n' || c == '\r' {
                    ScanEnd::Fail { end: line_end(t, p), open: false }
                } else {
                    scan(t, p + 1, QState::Plain, val.push(plain_escape(c)), pend)
                }
            },
        }
    }
}

/// Where the record after one that ends at `x` begins.
pub open spec fn after(t: Seq<char>, x: int) -> int {
    if x < t.len() {
        x + 1
    } else {
        t.len() as int
    }
}

/// The node for an unreadable record `t[i..x]`.
pub open spec fn raw_node(t: Seq<char>, i: int, x: int) -> NodeView {
    unparsed(t.subrange(i, eol_trim(t, i, x)))
}

/// Whether the line starting at `i` opens like an assignment: a key, then
/// blanks, then `=`.
pub open spec fn has_assignment(t: Seq<char>, i: int) -> bool {
    let ks = key_start(t, skip_ws(t, i));
    let q = skip_ws(t, key_scan(t, ks));
    &&& 0 <= ks < t.len()
    &&& is_key_head(t[ks])
    &&& 0 <= q < t.len()
    &&& t[q] == '='
}

/// The record that starts at `i`: its node and where the next one begins.
pub open spec fn record(t: Seq<char>, i: int) -> (NodeView, int) {
    let e = line_end(t, i);
    let j = skip_ws(t, i);
    if j >= e {
        (NodeView::EmptyLine, after(t, e))
    } else if t[j] == '#' {
        (NodeView::Comment(t.subrange(j + 1, trim_cr(t, j + 1, e))), after(t, e))
    } else if has_assignment(t, i) {
        let ks = key_start(t, j);
        let ke = key_scan(t, ks);
        let q = skip_ws(t, ke);
        match scan(t, skip_ws(t, q + 1), QState::Plain, Seq::empty(), Seq::empty()) {
            ScanEnd::Done { value, comment, end } => (
                NodeView::KeyValue { key: t.subrange(ks, ke), value, comment },
                after(t, end),
            ),
            ScanEnd::Fail { end, open } => {
                if open {
                    (raw_node(t, i, e), after(t, e))
                } else {
                    (raw_node(t, i, end), after(t, end))
                }
            },
        }
    } else {
        (raw_node(t, i, e), after(t, e))
    }
}

/// The nodes of the records from position `i` on.
pub open spec fn parse_from(t: Seq<char>, i: int) -> Seq<NodeView>
    decreases t.len() - i,
{
    if i < 0 || i >= t.len() {
        Seq::empty()
    } else {
        let k = record(t, i).1;
        let next = if i < k && k <= t.len() {
            k
        } else {
            t.len() as int
        };
        seq![record(t, i).0] + parse_from(t, next)
    }
}

/// From `p` on, `t` holds carriage returns and then a character that is
/// neither one nor a line feed.
pub open spec fn run_ok(t: Seq<char>, p: int) -> bool
    decreases t.len() - p,
{
    if p < 0 || p >= t.len() || t[p] == '\n' {
        false
    } else if t[p] == '\r' {
        run_ok(t, p + 1)
    } else {
        true
    }
}

/// A carriage return that belongs to a line break: only carriage returns
/// stand between it and the next line feed or the end of the text.
pub open spec fn break_cr(t: Seq<char>, p: int) -> bool {
    t[p] == '\r' && !run_ok(t, p + 1)
}

/// `t[p..]` without the carriage returns that belong to line breaks.
pub open spec fn norm_from(t: Seq<char>, p: int) -> Seq<char>
    decreases t.len() - p,
{
    if p < 0 || p >= t.len() {
        Seq::empty()
    } else if break_cr(t, p) {
        norm_from(t, p + 1)
    } else {
        seq![t[p]] + norm_from(t, p + 1)
    }
}

/// The text with every line break made a single line feed (a CRLF, or
/// carriage returns before the end of the text, count as part of the break).
pub open spec fn normalized(t: Seq<char>) -> Seq<char> {
    norm_from(t, 0)
}

/// The document that a text describes.
pub open spec fn parse_text(t: Seq<char>) -> Seq<NodeView> {
    parse_from(normalized(t), 0)
}

} // verus!
