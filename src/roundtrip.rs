//! Parsing what the serializer writes gives the nodes back.
use vstd::prelude::*;
use crate::grammar::{
    QState, ScanEnd, after, break_cr, dq_escape, eol_trim, export_word, has_assignment, is_key_char,
    norm_from, normalized, run_ok,
    is_valid_key, is_ws, key_scan, key_start, line_end, parse_from, parse_text, plain_escape,
    raw_node, record, scan, skip_ws, trim_cr,
};
use crate::node::{NodeView, unparsed};
use crate::serialize::{escape_char, escaped, needs_quote_char, needs_quotes, node_line, quoted, serialize};

verus! {

/// A comment text that stays on one line and does not end in a carriage
/// return (which the parser would take for part of the line break).
pub open spec fn one_line(c: Seq<char>) -> bool {
    &&& forall|m: int| 0 <= m < c.len() ==> #[trigger] c[m] != '\n'
    &&& (c.len() > 0 ==> c.last() != '\r')
}

pub open spec fn trailing_ok(c: Option<Seq<char>>) -> bool {
    match c {
        Some(c) => c.len() > 0 && c[0] == '#' && one_line(c),
        None => true,
    }
}

/// A node whose line the parser reads back as the same node.
pub open spec fn line_ok(n: NodeView) -> bool {
    match n {
        NodeView::KeyValue { key, value, comment } => is_valid_key(key) && trailing_ok(comment),
        NodeView::Comment(c) => one_line(c),
        NodeView::EmptyLine => true,
    }
}

/// A node for a line that could not be read.
pub open spec fn is_unparsed(n: NodeView) -> bool {
    n is KeyValue && n->KeyValue_key.len() == 0
}

proof fn lemma_line_end_run(t: Seq<char>, a: int, b: int)
    requires
        0 <= a <= b <= t.len(),
        forall|m: int| a <= m < b ==> t[m] != '\n',
        b == t.len() || t[b] == '\n',
    ensures
        line_end(t, a) == b,
    decreases b - a,
{
    if a < b {
        lemma_line_end_run(t, a + 1, b);
    }
}

proof fn lemma_line_end_bounds(t: Seq<char>, a: int)
    requires
        0 <= a <= t.len(),
    ensures
        a <= line_end(t, a) <= t.len(),
        forall|m: int| a <= m < line_end(t, a) ==> t[m] != '\n',
        line_end(t, a) == t.len() || t[line_end(t, a)] == '\n',
    decreases t.len() - a,
{
    if a < t.len() && t[a] != '\n' {
        lemma_line_end_bounds(t, a + 1);
    }
}

proof fn lemma_key_scan_run(t: Seq<char>, a: int, b: int)
    requires
        0 <= a <= b < t.len(),
        forall|m: int| a <= m < b ==> is_key_char(t[m]),
        !is_key_char(t[b]),
    ensures
        key_scan(t, a) == b,
    decreases b - a,
{
    if a < b {
        lemma_key_scan_run(t, a + 1, b);
    }
}

proof fn lemma_key_scan_bounds(t: Seq<char>, a: int)
    requires
        0 <= a <= t.len(),
    ensures
        a <= key_scan(t, a) <= t.len(),
        forall|m: int| a <= m < key_scan(t, a) ==> is_key_char(t[m]),
    decreases t.len() - a,
{
    if a < t.len() && is_key_char(t[a]) {
        lemma_key_scan_bounds(t, a + 1);
    }
}

proof fn lemma_skip_ws_bounds(t: Seq<char>, a: int)
    requires
        0 <= a <= t.len(),
    ensures
        a <= skip_ws(t, a) <= t.len(),
        forall|m: int| a <= m < skip_ws(t, a) ==> is_ws(t[m]),
        skip_ws(t, a) < t.len() ==> !is_ws(t[skip_ws(t, a)]),
    decreases t.len() - a,
{
    if a < t.len() && is_ws(t[a]) {
        lemma_skip_ws_bounds(t, a + 1);
    }
}

proof fn lemma_trim_cr(t: Seq<char>, a: int, b: int)
    requires
        0 <= a <= b <= t.len(),
    ensures
        a <= trim_cr(t, a, b) <= b,
        trim_cr(t, a, b) > a ==> t[trim_cr(t, a, b) - 1] != '\r',
        a < b && t[a] != '\r' ==> trim_cr(t, a, b) > a,
        b > a && t[b - 1] != '\r' ==> trim_cr(t, a, b) == b,
        forall|m: int| trim_cr(t, a, b) <= m < b ==> t[m] == '\r',
    decreases b - a,
{
    if b > a && t[b - 1] == '\r' {
        lemma_trim_cr(t, a, b - 1);
    }
}

/// Characters of a value written without quotes are read one by one.
proof fn lemma_scan_plain_run(u: Seq<char>, p: int, v: Seq<char>, val: Seq<char>)
    requires
        0 <= p,
        p + v.len() < u.len(),
        u.subrange(p, p + v.len()) == v,
        forall|m: int| 0 <= m < v.len() ==> !needs_quote_char(#[trigger] v[m]),
    ensures
        scan(u, p, QState::Plain, val, Seq::empty()) == scan(u, p + v.len(), QState::Plain, val + v, Seq::empty()),
    decreases v.len(),
{
    if v.len() == 0 {
        assert(val + v == val);
    } else {
        let w = v.drop_last();
        assert(u.subrange(p, p + w.len()) == w) by {
            assert(u.subrange(p, p + w.len()) =~= u.subrange(p, p + v.len()).subrange(0, w.len() as int));
        }
        assert forall|m: int| 0 <= m < w.len() implies !needs_quote_char(#[trigger] w[m]) by {
            assert(w[m] == v[m]);
        }
        lemma_scan_plain_run(u, p, w, val);
        let x = p + w.len();
        let c = v.last();
        assert(u[x] == u.subrange(p, p + v.len())[w.len() as int]);
        assert(u[x] == c);
        assert(!needs_quote_char(v[v.len() - 1]));
        assert((val + w) + Seq::<char>::empty() == val + w);
        assert((val + w).push(c) == val + v);
    }
}

/// The escaped form of a value is read back, inside double quotes, as the value.
proof fn lemma_scan_escaped_run(u: Seq<char>, p: int, v: Seq<char>, val: Seq<char>)
    requires
        0 <= p,
        p + escaped(v).len() < u.len(),
        u.subrange(p, p + escaped(v).len()) == escaped(v),
    ensures
        scan(u, p, QState::Double, val, Seq::empty()) == scan(u, p + escaped(v).len(), QState::Double, val + v, Seq::empty()),
    decreases v.len(),
{
    if v.len() == 0 {
        assert(val + v == val);
    } else {
        let w = v.drop_last();
        let c = v.last();
        let ew = escaped(w);
        let ev = escaped(v);
        assert(ev == ew + escape_char(c));
        assert(u.subrange(p, p + ew.len()) == ew) by {
            assert(u.subrange(p, p + ew.len()) =~= u.subrange(p, p + ev.len()).subrange(0, ew.len() as int));
            assert(ev.subrange(0, ew.len() as int) =~= ew);
        }
        lemma_scan_escaped_run(u, p, w, val);
        let x = p + ew.len();
        assert(u[x] == ev[ew.len() as int]);
        assert(v == w.push(c));
        if c == '"' || c == '\\' || c == '\n' || c == '\r' || c == '\t' {
            let e = escape_char(c);
            assert(e.len() == 2 && e[0] == '\\');
            assert(u[x] == '\\');
            assert(u[x + 1] == ev[ew.len() + 1int]);
            assert(u[x + 1] == e[1]);
            assert(dq_escape(e[1]) == seq![c]);
            assert((val + w) + seq![c] == val + v);
            assert(scan(u, x, QState::Double, val + w, Seq::empty()) == scan(u, x + 1, QState::DoubleEscape, val + w, Seq::empty()));
            assert(scan(u, x + 1, QState::DoubleEscape, val + w, Seq::empty()) == scan(u, x + 2, QState::Double, val + v, Seq::empty()));
            assert(x + 2 == p + ev.len());
        } else {
            assert(u[x] == c);
            assert((val + w).push(c) == val + v);
            assert(scan(u, x, QState::Double, val + w, Seq::empty()) == scan(u, x + 1, QState::Double, val + v, Seq::empty()));
        }
    }
}

proof fn lemma_not_export(u: Seq<char>, i: int, key: Seq<char>)
    requires
        0 <= i,
        is_valid_key(key),
        i + key.len() < u.len(),
        u.subrange(i, i + key.len()) == key,
        u[i + key.len()] == '=',
    ensures
        key_start(u, i) == i,
{
    if i + 6 < u.len() && u.subrange(i, i + 6) == export_word() {
        if key.len() >= 7 {
            assert(u[i + 6] == key[6]);
            assert(is_key_char(key[6]));
        } else if key.len() == 6 {
            assert(u[i + 6] == '=');
        } else {
            let k = key.len() as int;
            assert(u.subrange(i, i + 6)[k] == u[i + k]);
            assert(export_word()[k] != '=');
        }
    }
}

/// The line of an entry is read back as the entry.
proof fn lemma_record_entry(u: Seq<char>, i: int, key: Seq<char>, value: Seq<char>, comment: Option<Seq<char>>)
    requires
        is_valid_key(key),
        trailing_ok(comment),
        0 <= i,
        i + node_line(NodeView::KeyValue { key, value, comment }).len() < u.len(),
        u.subrange(i, i + node_line(NodeView::KeyValue { key, value, comment }).len() + 1)
            == node_line(NodeView::KeyValue { key, value, comment }).push('\n'),
    ensures
        record(u, i) == (
            NodeView::KeyValue { key, value, comment },
            i + node_line(NodeView::KeyValue { key, value, comment }).len() + 1,
        ),
{
    let n = NodeView::KeyValue { key, value, comment };
    let l = node_line(n);
    let qv = quoted(value);
    let tail: Seq<char> = match comment {
        Some(c) => seq![' '] + c,
        None => Seq::empty(),
    };
    assert(l == key + seq!['='] + qv + tail);
    let end = i + l.len();
    assert forall|m: int| 0 <= m < l.len() implies u[i + m] == #[trigger] l[m] by {
        assert(u.subrange(i, end + 1)[m] == u[i + m]);
    }
    assert(u[end] == u.subrange(i, end + 1)[l.len() as int]);
    let kl = key.len() as int;
    let q = i + kl;
    assert forall|m: int| 0 <= m < kl implies u[i + m] == #[trigger] key[m] by {
        assert(l[m] == key[m]);
    }
    assert(u[q] == '=') by {
        assert(l[kl] == '=');
    }
    assert(u.subrange(i, q) == key);
    // The key.
    assert(u[i] == key[0]);
    lemma_line_end_bounds(u, i + 1);
    assert(line_end(u, i) == line_end(u, i + 1));
    assert(skip_ws(u, i) == i);
    lemma_not_export(u, i, key);
    assert forall|m: int| i <= m < q implies is_key_char(u[m]) by {
        assert(u[i + (m - i)] == key[m - i]);
    }
    assert(!is_key_char('='));
    lemma_key_scan_run(u, i, q);
    assert(skip_ws(u, q) == q);
    assert(has_assignment(u, i));
    // The value.
    let v0 = q + 1;
    let w = v0 + qv.len();
    assert forall|m: int| 0 <= m < qv.len() implies u[v0 + m] == #[trigger] qv[m] by {
        assert(l[kl + 1 + m] == qv[m]);
    }
    assert(u.subrange(v0, w) == qv);
    assert forall|m: int| 0 <= m < tail.len() implies u[w + m] == #[trigger] tail[m] by {
        assert(l[kl + 1 + qv.len() + m] == tail[m]);
    }
    let st0 = scan(u, v0, QState::Plain, Seq::empty(), Seq::empty());
    if needs_quotes(value) {
        let ev = escaped(value);
        assert(qv == seq!['"'] + ev + seq!['"']);
        assert(qv[0] == '"');
        assert(u[v0 + 0] == qv[0]);
        assert(u[v0] == '"');
        assert(skip_ws(u, v0) == v0);
        assert(u.subrange(v0 + 1, v0 + 1 + ev.len()) == ev) by {
            assert(u.subrange(v0 + 1, v0 + 1 + ev.len()) =~= qv.subrange(1, 1 + ev.len() as int));
        }
        assert(Seq::<char>::empty() + Seq::<char>::empty() == Seq::<char>::empty());
        assert(st0 == scan(u, v0 + 1, QState::Double, Seq::empty(), Seq::empty()));
        lemma_scan_escaped_run(u, v0 + 1, value, Seq::empty());
        assert(Seq::<char>::empty() + value == value);
        assert(u[v0 + 1 + ev.len()] == qv[1int + ev.len()]);
        assert(st0 == scan(u, w, QState::Plain, value, Seq::empty()));
    } else {
        assert(qv == value);
        assert(value.len() > 0);
        assert(!needs_quote_char(value[0]));
        assert(skip_ws(u, v0) == v0);
        assert forall|m: int| 0 <= m < value.len() implies !needs_quote_char(#[trigger] value[m]) by {}
        lemma_scan_plain_run(u, v0, value, Seq::empty());
        assert(Seq::<char>::empty() + value == value);
    }
    assert(st0 == scan(u, w, QState::Plain, value, Seq::empty()));
    match comment {
        Some(c) => {
            assert(tail == seq![' '] + c);
            assert(tail[0] == ' ' && tail[1] == c[0]);
            assert(u[w + 0] == tail[0]);
            assert(u[w + 1] == tail[1]);
            assert(u[w] == ' ');
            assert(u[w + 1] == c[0]);
            assert(u[w + 1] == '#');
            assert(st0 == scan(u, w + 1, QState::Plain, value, seq![' ']));
            assert(w + 1 + c.len() == end);
            assert forall|m: int| w + 1 <= m < end implies u[m] != '\n' by {
                assert(u[m] == tail[m - w]);
                assert(tail[m - w] == c[m - w - 1]);
            }
            lemma_line_end_run(u, w + 1, end);
            assert(u[w + c.len()] == tail[c.len() as int]);
            assert(tail[c.len() as int] == c[c.len() - 1]);
            assert(u[end - 1] == c[c.len() - 1]);
            lemma_trim_cr(u, w + 1, end);
            assert(u.subrange(w + 1, end) =~= c) by {
                assert forall|m: int| 0 <= m < c.len() implies u.subrange(w + 1, end)[m] == c[m] by {
                    assert(u[w + 1 + m] == tail[1 + m]);
                }
            }
            assert(st0 == ScanEnd::Done { value, comment: Some(c), end });
        },
        None => {
            assert(w == end);
            assert(st0 == ScanEnd::Done { value, comment: None, end });
        },
    }
}


/// The line of a comment is read back as the comment.
proof fn lemma_record_comment(u: Seq<char>, i: int, c: Seq<char>)
    requires
        one_line(c),
        0 <= i,
        i + c.len() + 1 < u.len(),
        u.subrange(i, i + c.len() + 2) == (seq!['#'] + c).push('\n'),
    ensures
        record(u, i) == (NodeView::Comment(c), i + c.len() + 2),
{
    let l = (seq!['#'] + c).push('\n');
    let end = i + c.len() + 1;
    assert forall|m: int| 0 <= m < l.len() implies u[i + m] == #[trigger] l[m] by {
        assert(u.subrange(i, i + c.len() + 2)[m] == u[i + m]);
    }
    assert(u[i] == l[0]);
    assert(u[end] == l[c.len() + 1int]);
    assert forall|m: int| i + 1 <= m < end implies u[m] != '\n' by {
        assert(u[m] == l[m - i]);
        assert(l[m - i] == c[m - i - 1]);
    }
    lemma_line_end_run(u, i + 1, end);
    assert(line_end(u, i) == end);
    assert(skip_ws(u, i) == i);
    lemma_trim_cr(u, i + 1, end);
    if c.len() > 0 {
        assert(u[end - 1] == l[c.len() as int]);
    }
    assert(u.subrange(i + 1, end) =~= c) by {
        assert forall|m: int| 0 <= m < c.len() implies u.subrange(i + 1, end)[m] == c[m] by {
            assert(u[i + 1 + m] == l[1 + m]);
        }
    }
}

/// The line of any node that `line_ok` admits is read back as the node.
pub proof fn lemma_record_line(u: Seq<char>, i: int, n: NodeView)
    requires
        line_ok(n),
        0 <= i,
        i + node_line(n).len() < u.len(),
        u.subrange(i, i + node_line(n).len() + 1) == node_line(n).push('\n'),
    ensures
        record(u, i) == (n, i + node_line(n).len() + 1),
{
    match n {
        NodeView::KeyValue { key, value, comment } => {
            lemma_record_entry(u, i, key, value, comment);
        },
        NodeView::Comment(c) => {
            lemma_record_comment(u, i, c);
        },
        NodeView::EmptyLine => {
            assert(u[i] == u.subrange(i, i + 1)[0]);
            assert(u[i] == '\n');
            assert(skip_ws(u, i) == i);
        },
    }
}

proof fn lemma_serialize_prefix(ns: Seq<NodeView>, m: int)
    requires
        0 <= m <= ns.len(),
    ensures
        serialize(ns.subrange(0, m)).len() <= serialize(ns).len(),
        serialize(ns).subrange(0, serialize(ns.subrange(0, m)).len() as int) == serialize(ns.subrange(0, m)),
    decreases ns.len(),
{
    if m == ns.len() {
        assert(ns.subrange(0, m) == ns);
    } else {
        let d = ns.drop_last();
        assert(ns.subrange(0, m) == d.subrange(0, m));
        lemma_serialize_prefix(d, m);
        let sd = serialize(d);
        let s = serialize(ns);
        assert(s == sd + node_line(ns.last()) + seq!['\n']);
        let k = serialize(ns.subrange(0, m)).len() as int;
        assert(s.subrange(0, k) =~= sd.subrange(0, k));
    }
}

proof fn lemma_parse_from_serialized(ns: Seq<NodeView>, m: int)
    requires
        0 <= m <= ns.len(),
        doc_rereads(ns),
    ensures
        parse_from(serialize(ns), serialize(ns.subrange(0, m)).len() as int) == ns.subrange(m, ns.len() as int),
    decreases ns.len() - m,
{
    let u = serialize(ns);
    let a = serialize(ns.subrange(0, m)).len() as int;
    if m == ns.len() {
        assert(ns.subrange(0, m) == ns);
        assert(ns.subrange(m, ns.len() as int) =~= Seq::<NodeView>::empty());
    } else {
        lemma_parse_from_serialized(ns, m + 1);
        lemma_serialize_prefix(ns, m + 1);
        let p = ns.subrange(0, m + 1);
        assert(p.drop_last() == ns.subrange(0, m));
        assert(p.last() == ns[m]);
        let l = node_line(ns[m]);
        let sp = serialize(p);
        assert(sp == serialize(ns.subrange(0, m)) + l + seq!['\n']);
        let b = sp.len() as int;
        assert(b == a + l.len() + 1);
        assert(u.subrange(a, a + l.len() + 1) =~= l.push('\n')) by {
            assert forall|k: int| 0 <= k < l.len() + 1 implies u.subrange(a, a + l.len() + 1)[k] == l.push('\n')[k] by {
                assert(u[a + k] == u.subrange(0, b)[a + k]);
                assert(sp[a + k] == (l + seq!['\n'])[k]);
            }
        }
        assert(written_at(u, a, ns[m]));
        if m == ns.len() - 1 {
            assert(ns.subrange(0, m + 1) == ns);
            assert(u.len() == a + l.len() + 1);
        }
        assert(rereads_at(u, a, ns[m]));
        assert(ns.subrange(m, ns.len() as int) =~= seq![ns[m]] + ns.subrange(m + 1, ns.len() as int));
    }
}

/// Parsing the text of a document whose nodes are all read back from their
/// lines gives the document back.
pub proof fn lemma_parse_serialized(ns: Seq<NodeView>)
    requires
        doc_rereads(ns),
    ensures
        parse_from(serialize(ns), 0) == ns,
{
    lemma_parse_from_serialized(ns, 0);
    assert(ns.subrange(0, 0) =~= Seq::<NodeView>::empty());
    assert(ns.subrange(0, ns.len() as int) == ns);
}

/// A comment that the value scanner reports starts with `#` and stays on
/// its line.
proof fn lemma_scan_comment(t: Seq<char>, p: int, st: QState, val: Seq<char>, pend: Seq<char>)
    ensures
        match scan(t, p, st, val, pend) {
            ScanEnd::Done { comment, .. } => trailing_ok(comment) && (clean(t) && comment is Some ==> clean(
                comment->Some_0.push('\n'),
            )),
            ScanEnd::Fail { .. } => true,
        },
    decreases t.len() - p,
{
    if 0 <= p < t.len() {
        let c = t[p];
        match st {
            QState::Plain => {
                if c == '\n' {
                } else if c == '#' {
                    let e = line_end(t, p);
                    lemma_line_end_bounds(t, p);
                    lemma_line_end_bounds(t, p + 1);
                    assert(e == line_end(t, p + 1));
                    lemma_trim_cr(t, p, e);
                    let x = trim_cr(t, p, e);
                    let cm = t.subrange(p, x);
                    if clean(t) {
                        lemma_clean_piece(t, p, x, e);
                    }
                    assert(cm[0] == '#');
                    assert forall|m: int| 0 <= m < cm.len() implies #[trigger] cm[m] != '\n' by {
                        assert(cm[m] == t[p + m]);
                    }
                    assert(cm.last() == t[x - 1]);
                } else if is_ws(c) {
                    lemma_scan_comment(t, p + 1, QState::Plain, val, pend.push(c));
                } else if c == '\'' {
                    lemma_scan_comment(t, p + 1, QState::Single, val + pend, Seq::empty());
                } else if c == '"' {
                    lemma_scan_comment(t, p + 1, QState::Double, val + pend, Seq::empty());
                } else if c == '\\' {
                    lemma_scan_comment(t, p + 1, QState::PlainEscape, val + pend, Seq::empty());
                } else {
                    lemma_scan_comment(t, p + 1, QState::Plain, (val + pend).push(c), Seq::empty());
                }
            },
            QState::Single => {
                if c == '\'' {
                    lemma_scan_comment(t, p + 1, QState::Plain, val, pend);
                } else {
                    lemma_scan_comment(t, p + 1, QState::Single, val.push(c), pend);
                }
            },
            QState::Double => {
                if c == '"' {
                    lemma_scan_comment(t, p + 1, QState::Plain, val, pend);
                } else if c == '\\' {
                    lemma_scan_comment(t, p + 1, QState::DoubleEscape, val, pend);
                } else {
                    lemma_scan_comment(t, p + 1, QState::Double, val.push(c), pend);
                }
            },
            QState::DoubleEscape => {
                lemma_scan_comment(t, p + 1, QState::Double, val + dq_escape(c), pend);
            },
            QState::PlainEscape => {
                if c == '\n' || c == '\r' {
                } else {
                    lemma_scan_comment(t, p + 1, QState::Plain, val.push(plain_escape(c)), pend);
                }
            },
        }
    }
}

/// Every node that the parser makes is either an unreadable line or one
/// whose line reads back as itself.
proof fn lemma_record_ok(t: Seq<char>, i: int)
    requires
        0 <= i < t.len(),
    ensures
        is_unparsed(record(t, i).0) || line_ok(record(t, i).0),
{
    let e = line_end(t, i);
    let j = skip_ws(t, i);
    lemma_line_end_bounds(t, i);
    lemma_skip_ws_bounds(t, i);
    if j >= e {
    } else if t[j] == '#' {
        lemma_trim_cr(t, j + 1, e);
        let x = trim_cr(t, j + 1, e);
        let cm = t.subrange(j + 1, x);
        assert forall|m: int| 0 <= m < cm.len() implies #[trigger] cm[m] != '\n' by {
            assert(cm[m] == t[j + 1 + m]);
        }
        if cm.len() > 0 {
            assert(cm.last() == t[x - 1]);
        }
    } else if has_assignment(t, i) {
        let ks = key_start(t, j);
        let ke = key_scan(t, ks);
        let q = skip_ws(t, ke);
        lemma_key_scan_bounds(t, ks + 1);
        assert(ke == key_scan(t, ks + 1));
        lemma_key_scan_bounds(t, ks);
        let key = t.subrange(ks, ke);
        assert(key[0] == t[ks]);
        assert forall|m: int| 0 <= m < key.len() implies is_key_char(#[trigger] key[m]) by {
            assert(key[m] == t[ks + m]);
        }
        assert(is_valid_key(key));
        lemma_scan_comment(t, skip_ws(t, q + 1), QState::Plain, Seq::empty(), Seq::empty());
    } else {
    }
}

proof fn lemma_parse_from_ok(t: Seq<char>, i: int)
    requires
        none_open_from(t, i),
    ensures
        doc_rereads(parse_from(t, i)),
    decreases t.len() - i,
{
    if 0 <= i < t.len() {
        let k0 = record(t, i).1;
        let next = if i < k0 && k0 <= t.len() { k0 } else { t.len() as int };
        let n0 = record(t, i).0;
        lemma_record_ok(t, i);
        if is_unparsed(n0) {
            lemma_unparsed_rereads(t, i);
        } else {
            lemma_line_ok_self_contained(n0);
        }
        lemma_parse_from_ok(t, next);
        let rest = parse_from(t, next);
        let r = parse_from(t, i);
        assert(r == seq![n0] + rest);
        assert forall|k: int| 0 <= k < r.len() implies self_contained(#[trigger] r[k]) by {
            if k > 0 {
                assert(r[k] == rest[k - 1]);
            }
        }
    }
}

/// Writing the document of a text (taken as it is) back and parsing the
/// result again gives the same document, when no value is left open at the
/// end of the text.
pub proof fn lemma_round_trip_raw(t: Seq<char>)
    requires
        none_open_from(t, 0),
    ensures
        parse_from(serialize(parse_from(t, 0)), 0) == parse_from(t, 0),
{
    lemma_parse_from_ok(t, 0);
    lemma_parse_serialized(parse_from(t, 0));
}


/// `t[i..i+n]` and `u[a..a+n]` hold the same characters, and each is
/// followed by a line feed or by the end of its text.
pub open spec fn same_window(t: Seq<char>, i: int, u: Seq<char>, a: int, n: int) -> bool {
    &&& 0 <= i && 0 <= a && 0 <= n
    &&& i + n <= t.len() && a + n <= u.len()
    &&& forall|m: int| 0 <= m < n ==> #[trigger] t[i + m] == u[a + m]
    &&& (i + n == t.len() || t[i + n] == '\n')
    &&& (a + n == u.len() || u[a + n] == '\n')
}

proof fn lemma_window_char(t: Seq<char>, i: int, u: Seq<char>, a: int, n: int, p: int)
    requires
        same_window(t, i, u, a, n),
        i <= p < i + n,
    ensures
        t[p] == u[p - i + a],
{
    assert(t[i + (p - i)] == u[a + (p - i)]);
}

proof fn lemma_window_line_end(t: Seq<char>, i: int, u: Seq<char>, a: int, n: int, p: int)
    requires
        same_window(t, i, u, a, n),
        i <= p <= i + n,
    ensures
        line_end(t, p) <= i + n,
        line_end(u, p - i + a) == line_end(t, p) - i + a,
    decreases i + n - p,
{
    if p < i + n {
        lemma_window_char(t, i, u, a, n, p);
        lemma_window_line_end(t, i, u, a, n, p + 1);
    }
}

proof fn lemma_window_skip_ws(t: Seq<char>, i: int, u: Seq<char>, a: int, n: int, p: int)
    requires
        same_window(t, i, u, a, n),
        i <= p <= i + n,
    ensures
        p <= skip_ws(t, p) <= i + n,
        skip_ws(u, p - i + a) == skip_ws(t, p) - i + a,
    decreases i + n - p,
{
    if p < i + n {
        lemma_window_char(t, i, u, a, n, p);
        lemma_window_skip_ws(t, i, u, a, n, p + 1);
    }
}

proof fn lemma_window_key_scan(t: Seq<char>, i: int, u: Seq<char>, a: int, n: int, p: int)
    requires
        same_window(t, i, u, a, n),
        i <= p <= i + n,
    ensures
        p <= key_scan(t, p) <= i + n,
        key_scan(u, p - i + a) == key_scan(t, p) - i + a,
    decreases i + n - p,
{
    if p < i + n {
        lemma_window_char(t, i, u, a, n, p);
        lemma_window_key_scan(t, i, u, a, n, p + 1);
    }
}

proof fn lemma_window_trim_cr(t: Seq<char>, i: int, u: Seq<char>, a: int, n: int, p: int, e: int)
    requires
        same_window(t, i, u, a, n),
        i <= p <= e <= i + n,
    ensures
        trim_cr(u, p - i + a, e - i + a) == trim_cr(t, p, e) - i + a,
    decreases e - p,
{
    if e > p {
        lemma_window_char(t, i, u, a, n, e - 1);
        lemma_window_trim_cr(t, i, u, a, n, p, e - 1);
    }
}

proof fn lemma_window_subrange(t: Seq<char>, i: int, u: Seq<char>, a: int, n: int, p: int, e: int)
    requires
        same_window(t, i, u, a, n),
        i <= p <= e <= i + n,
    ensures
        u.subrange(p - i + a, e - i + a) == t.subrange(p, e),
{
    assert forall|m: int| 0 <= m < e - p implies u.subrange(p - i + a, e - i + a)[m] == t.subrange(p, e)[m] by {
        lemma_window_char(t, i, u, a, n, p + m);
    }
    assert(u.subrange(p - i + a, e - i + a) =~= t.subrange(p, e));
}

/// The `export` prefix holds in `u` where it holds in `t`.
proof fn lemma_window_export(t: Seq<char>, i: int, u: Seq<char>, a: int, n: int, j: int)
    requires
        same_window(t, i, u, a, n),
        i <= j <= i + n,
        j + 6 < t.len(),
        t.subrange(j, j + 6) == export_word(),
        is_ws(t[j + 6]),
    ensures
        j + 6 < i + n,
        j - i + a + 6 < u.len(),
        u.subrange(j - i + a, j - i + a + 6) == export_word(),
        is_ws(u[j - i + a + 6]),
{
    assert forall|m: int| 0 <= m < 6 implies #[trigger] t[j + m] != '\n' && j + m < i + n by {
        assert(t[j + m] == t.subrange(j, j + 6)[m]);
        assert(export_word()[m] != '\n');
    }
    lemma_window_subrange(t, i, u, a, n, j, j + 6);
    lemma_window_char(t, i, u, a, n, j + 6);
}

proof fn lemma_window_key_start(t: Seq<char>, i: int, u: Seq<char>, a: int, n: int, j: int)
    requires
        same_window(t, i, u, a, n),
        i <= j <= i + n,
    ensures
        j <= key_start(t, j) <= i + n,
        key_start(u, j - i + a) == key_start(t, j) - i + a,
{
    let j2 = j - i + a;
    assert(same_window(u, a, t, i, n)) by {
        assert forall|m: int| 0 <= m < n implies #[trigger] u[a + m] == t[i + m] by {
            assert(t[i + m] == u[a + m]);
        }
    }
    let ct = 0 <= j && j + 6 < t.len() && t.subrange(j, j + 6) == export_word() && is_ws(t[j + 6]);
    let cu = 0 <= j2 && j2 + 6 < u.len() && u.subrange(j2, j2 + 6) == export_word() && is_ws(u[j2 + 6]);
    if ct {
        lemma_window_export(t, i, u, a, n, j);
    }
    if cu {
        lemma_window_export(u, a, t, i, n, j2);
    }
    assert(ct == cu);
    if ct {
        lemma_window_skip_ws(t, i, u, a, n, j + 6);
        let k = skip_ws(t, j + 6);
        if k < i + n {
            lemma_window_char(t, i, u, a, n, k);
        }
    }
}

proof fn lemma_window_has_assignment(t: Seq<char>, i: int, u: Seq<char>, a: int, n: int)
    requires
        same_window(t, i, u, a, n),
    ensures
        has_assignment(u, a) == has_assignment(t, i),
        has_assignment(t, i) ==> ({
            let ks = key_start(t, skip_ws(t, i));
            let q = skip_ws(t, key_scan(t, ks));
            &&& skip_ws(u, a) == skip_ws(t, i) - i + a
            &&& key_start(u, skip_ws(u, a)) == ks - i + a
            &&& key_scan(u, ks - i + a) == key_scan(t, ks) - i + a
            &&& skip_ws(u, key_scan(u, ks - i + a)) == q - i + a
            &&& q < i + n
        }),
{
    lemma_window_skip_ws(t, i, u, a, n, i);
    let j = skip_ws(t, i);
    lemma_window_key_start(t, i, u, a, n, j);
    let ks = key_start(t, j);
    lemma_window_key_scan(t, i, u, a, n, ks);
    let ke = key_scan(t, ks);
    lemma_window_skip_ws(t, i, u, a, n, ke);
    let q = skip_ws(t, ke);
    if ks < i + n {
        lemma_window_char(t, i, u, a, n, ks);
    }
    if q < i + n {
        lemma_window_char(t, i, u, a, n, q);
    }
}

pub open spec fn scan_end(r: ScanEnd) -> int {
    match r {
        ScanEnd::Done { end, .. } => end,
        ScanEnd::Fail { end, .. } => end,
    }
}

proof fn lemma_scan_end_ge(t: Seq<char>, p: int, st: QState, val: Seq<char>, pend: Seq<char>)
    requires
        0 <= p <= t.len(),
    ensures
        p <= scan_end(scan(t, p, st, val, pend)) <= t.len(),
    decreases t.len() - p,
{
    if p < t.len() {
        let c = t[p];
        lemma_line_end_bounds(t, p);
        match st {
            QState::Plain => {
                if c == '\n' || c == '#' {
                } else if is_ws(c) {
                    lemma_scan_end_ge(t, p + 1, QState::Plain, val, pend.push(c));
                } else if c == '\'' {
                    lemma_scan_end_ge(t, p + 1, QState::Single, val + pend, Seq::empty());
                } else if c == '"' {
                    lemma_scan_end_ge(t, p + 1, QState::Double, val + pend, Seq::empty());
                } else if c == '\\' {
                    lemma_scan_end_ge(t, p + 1, QState::PlainEscape, val + pend, Seq::empty());
                } else {
                    lemma_scan_end_ge(t, p + 1, QState::Plain, (val + pend).push(c), Seq::empty());
                }
            },
            QState::Single => {
                if c == '\'' {
                    lemma_scan_end_ge(t, p + 1, QState::Plain, val, pend);
                } else {
                    lemma_scan_end_ge(t, p + 1, QState::Single, val.push(c), pend);
                }
            },
            QState::Double => {
                if c == '"' {
                    lemma_scan_end_ge(t, p + 1, QState::Plain, val, pend);
                } else if c == '\\' {
                    lemma_scan_end_ge(t, p + 1, QState::DoubleEscape, val, pend);
                } else {
                    lemma_scan_end_ge(t, p + 1, QState::Double, val.push(c), pend);
                }
            },
            QState::DoubleEscape => {
                lemma_scan_end_ge(t, p + 1, QState::Double, val + dq_escape(c), pend);
            },
            QState::PlainEscape => {
                if c == '\n' || c == '\r' {
                } else {
                    lemma_scan_end_ge(t, p + 1, QState::Plain, val.push(plain_escape(c)), pend);
                }
            },
        }
    }
}

/// A malformed value that ends before the end of the text ends on a
/// character other than a line feed.
proof fn lemma_scan_fail_end(t: Seq<char>, p: int, st: QState, val: Seq<char>, pend: Seq<char>)
    requires
        0 <= p <= t.len(),
        st == QState::PlainEscape ==> 0 < p && t[p - 1] == '\\',
    ensures
        match scan(t, p, st, val, pend) {
            ScanEnd::Fail { end, open } => (open ==> end == t.len()) && (!open ==> 0 < end <= t.len() && t[end - 1]
                != '\n' && (end == t.len() || t[end] == '\n')),
            ScanEnd::Done { .. } => true,
        },
    decreases t.len() - p,
{
    if p < t.len() {
        let c = t[p];
        match st {
            QState::Plain => {
                if c == '\n' || c == '#' {
                } else if is_ws(c) {
                    lemma_scan_fail_end(t, p + 1, QState::Plain, val, pend.push(c));
                } else if c == '\'' {
                    lemma_scan_fail_end(t, p + 1, QState::Single, val + pend, Seq::empty());
                } else if c == '"' {
                    lemma_scan_fail_end(t, p + 1, QState::Double, val + pend, Seq::empty());
                } else if c == '\\' {
                    lemma_scan_fail_end(t, p + 1, QState::PlainEscape, val + pend, Seq::empty());
                } else {
                    lemma_scan_fail_end(t, p + 1, QState::Plain, (val + pend).push(c), Seq::empty());
                }
            },
            QState::Single => {
                if c == '\'' {
                    lemma_scan_fail_end(t, p + 1, QState::Plain, val, pend);
                } else {
                    lemma_scan_fail_end(t, p + 1, QState::Single, val.push(c), pend);
                }
            },
            QState::Double => {
                if c == '"' {
                    lemma_scan_fail_end(t, p + 1, QState::Plain, val, pend);
                } else if c == '\\' {
                    lemma_scan_fail_end(t, p + 1, QState::DoubleEscape, val, pend);
                } else {
                    lemma_scan_fail_end(t, p + 1, QState::Double, val.push(c), pend);
                }
            },
            QState::DoubleEscape => {
                lemma_scan_fail_end(t, p + 1, QState::Double, val + dq_escape(c), pend);
            },
            QState::PlainEscape => {
                if c == '\n' {
                } else if c == '\r' {
                    lemma_line_end_bounds(t, p + 1);
                    lemma_line_end_bounds(t, p);
                    assert(line_end(t, p) == line_end(t, p + 1));
                } else {
                    lemma_scan_fail_end(t, p + 1, QState::Plain, val.push(plain_escape(c)), pend);
                }
            },
        }
    }
}


pub open spec fn scan_open(r: ScanEnd) -> bool {
    match r {
        ScanEnd::Done { .. } => false,
        ScanEnd::Fail { open, .. } => open,
    }
}

/// The value scanner reads the same in two texts that agree on a window,
/// as long as it stops within the window.
proof fn lemma_window_scan(
    t: Seq<char>,
    i: int,
    u: Seq<char>,
    a: int,
    n: int,
    p: int,
    st: QState,
    val: Seq<char>,
    pend: Seq<char>,
)
    requires
        same_window(t, i, u, a, n),
        i <= p <= i + n,
        scan_end(scan(t, p, st, val, pend)) <= i + n,
        scan_open(scan(t, p, st, val, pend)) && a + n < u.len() ==> u.len() == a + n + 1,
    ensures
        ({
            let r = scan(t, p, st, val, pend);
            let r2 = scan(u, p - i + a, st, val, pend);
            match r {
                ScanEnd::Done { value, comment, end } => r2 == ScanEnd::Done { value, comment, end: end - i + a },
                ScanEnd::Fail { end, open } => r2 is Fail && (scan_end(r2) == end - i + a || (open
                    && scan_end(r2) == a + n + 1 && u.len() == a + n + 1)),
            }
        }),
        a + n < u.len() && !scan_open(scan(t, p, st, val, pend)) ==> !scan_open(scan(u, p - i + a, st, val, pend)),
    decreases t.len() - p,
{
    let p2 = p - i + a;
    if p == i + n {
        let r = scan(t, p, st, val, pend);
        if p == t.len() {
            if p2 < u.len() {
                assert(u[p2] == '\n');
                lemma_line_end_bounds(u, p2);
                match st {
                    QState::Plain => {},
                    QState::Single => {
                        assert(u.len() == p2 + 1);
                        assert(scan(u, p2, st, val, pend) == scan(u, p2 + 1, QState::Single, val.push('\n'), pend));
                    },
                    QState::Double => {
                        assert(u.len() == p2 + 1);
                        assert(scan(u, p2, st, val, pend) == scan(u, p2 + 1, QState::Double, val.push('\n'), pend));
                    },
                    QState::DoubleEscape => {
                        assert(u.len() == p2 + 1);
                        assert(scan(u, p2, st, val, pend) == scan(u, p2 + 1, QState::Double, val + dq_escape('\n'), pend));
                    },
                    QState::PlainEscape => {},
                }
            }
        } else {
            assert(t[p] == '\n');
            lemma_line_end_bounds(t, p);
            if p2 < u.len() {
                lemma_line_end_bounds(u, p2);
            }
            match st {
                QState::Plain => {},
                QState::Single => {
                    assert(r == scan(t, p + 1, QState::Single, val.push('\n'), pend));
                    lemma_scan_end_ge(t, p + 1, QState::Single, val.push('\n'), pend);
                },
                QState::Double => {
                    assert(r == scan(t, p + 1, QState::Double, val.push('\n'), pend));
                    lemma_scan_end_ge(t, p + 1, QState::Double, val.push('\n'), pend);
                },
                QState::DoubleEscape => {
                    assert(r == scan(t, p + 1, QState::Double, val + dq_escape('\n'), pend));
                    lemma_scan_end_ge(t, p + 1, QState::Double, val + dq_escape('\n'), pend);
                },
                QState::PlainEscape => {},
            }
        }
    } else {
        let c = t[p];
        lemma_window_char(t, i, u, a, n, p);
        assert(u[p2] == c);
        match st {
            QState::Plain => {
                if c == '\n' {
                } else if c == '#' {
                    lemma_window_line_end(t, i, u, a, n, p);
                    let e = line_end(t, p);
                    lemma_line_end_bounds(t, p);
                    lemma_trim_cr(t, p, e);
                    lemma_window_trim_cr(t, i, u, a, n, p, e);
                    lemma_window_subrange(t, i, u, a, n, p, trim_cr(t, p, e));
                } else if is_ws(c) {
                    lemma_window_scan(t, i, u, a, n, p + 1, QState::Plain, val, pend.push(c));
                } else if c == '\'' {
                    lemma_window_scan(t, i, u, a, n, p + 1, QState::Single, val + pend, Seq::empty());
                } else if c == '"' {
                    lemma_window_scan(t, i, u, a, n, p + 1, QState::Double, val + pend, Seq::empty());
                } else if c == '\\' {
                    lemma_window_scan(t, i, u, a, n, p + 1, QState::PlainEscape, val + pend, Seq::empty());
                } else {
                    lemma_window_scan(t, i, u, a, n, p + 1, QState::Plain, (val + pend).push(c), Seq::empty());
                }
            },
            QState::Single => {
                if c == '\'' {
                    lemma_window_scan(t, i, u, a, n, p + 1, QState::Plain, val, pend);
                } else {
                    lemma_window_scan(t, i, u, a, n, p + 1, QState::Single, val.push(c), pend);
                }
            },
            QState::Double => {
                if c == '"' {
                    lemma_window_scan(t, i, u, a, n, p + 1, QState::Plain, val, pend);
                } else if c == '\\' {
                    lemma_window_scan(t, i, u, a, n, p + 1, QState::DoubleEscape, val, pend);
                } else {
                    lemma_window_scan(t, i, u, a, n, p + 1, QState::Double, val.push(c), pend);
                }
            },
            QState::DoubleEscape => {
                lemma_window_scan(t, i, u, a, n, p + 1, QState::Double, val + dq_escape(c), pend);
            },
            QState::PlainEscape => {
                if c == '\n' || c == '\r' {
                    lemma_window_line_end(t, i, u, a, n, p);
                } else {
                    lemma_window_scan(t, i, u, a, n, p + 1, QState::Plain, val.push(plain_escape(c)), pend);
                }
            },
        }
    }
}


/// The line of node `n` and a line feed stand at position `a` of `u`.
pub open spec fn written_at(u: Seq<char>, a: int, n: NodeView) -> bool {
    let l = node_line(n);
    &&& 0 <= a
    &&& a + l.len() < u.len()
    &&& u.subrange(a, a + l.len() + 1) == l.push('\n')
}

/// The parser reads node `n` at position `a` of `u`, and goes on after its
/// line.
pub open spec fn rereads_at(u: Seq<char>, a: int, n: NodeView) -> bool {
    record(u, a) == (n, a + node_line(n).len() + 1)
}

/// Wherever the line of `n` is written, it is read back as `n`.
pub open spec fn self_contained(n: NodeView) -> bool {
    forall|u: Seq<char>, a: int| written_at(u, a, n) ==> #[trigger] rereads_at(u, a, n)
}

/// Every node of the document is read back from its line.
pub open spec fn doc_rereads(ns: Seq<NodeView>) -> bool {
    forall|m: int| 0 <= m < ns.len() ==> self_contained(#[trigger] ns[m])
}

proof fn lemma_line_ok_self_contained(n: NodeView)
    requires
        line_ok(n),
    ensures
        self_contained(n),
{
    assert forall|u: Seq<char>, a: int| written_at(u, a, n) implies #[trigger] rereads_at(u, a, n) by {
        lemma_record_line(u, a, n);
    }
}

proof fn lemma_written_window(t: Seq<char>, i: int, u: Seq<char>, a: int, n: int)
    requires
        0 <= i,
        0 <= n,
        i + n <= t.len(),
        i + n == t.len() || t[i + n] == '\n',
        written_at(u, a, unparsed(t.subrange(i, i + n))),
    ensures
        same_window(t, i, u, a, n),
{
    let raw = t.subrange(i, i + n);
    assert(node_line(unparsed(raw)) == raw);
    assert forall|m: int| 0 <= m < n implies #[trigger] t[i + m] == u[a + m] by {
        assert(u.subrange(a, a + n + 1)[m] == raw.push('\n')[m]);
    }
    assert(u.subrange(a, a + n + 1)[n] == raw.push('\n')[n]);
}

/// The record at `i` is an assignment whose value runs to the end of the
/// text inside quotes (or after a backslash).
pub open spec fn leaves_open(t: Seq<char>, i: int) -> bool {
    let e = line_end(t, i);
    let j = skip_ws(t, i);
    let ks = key_start(t, j);
    let q = skip_ws(t, key_scan(t, ks));
    &&& j < e
    &&& t[j] != '#'
    &&& has_assignment(t, i)
    &&& scan_open(scan(t, skip_ws(t, q + 1), QState::Plain, Seq::empty(), Seq::empty()))
}

/// No record from `i` on leaves a quote open at the end of the text.
pub open spec fn none_open_from(t: Seq<char>, i: int) -> bool
    decreases t.len() - i,
{
    if i < 0 || i >= t.len() {
        true
    } else {
        let k = record(t, i).1;
        let next = if i < k && k <= t.len() {
            k
        } else {
            t.len() as int
        };
        !leaves_open(t, i) && none_open_from(t, next)
    }
}

proof fn lemma_key_start_bounds(t: Seq<char>, j: int)
    requires
        0 <= j <= t.len(),
    ensures
        j <= key_start(t, j) <= t.len(),
{
    if j + 6 < t.len() {
        lemma_skip_ws_bounds(t, j + 6);
    }
}

/// An unreadable line is read back as the same unreadable line; when it
/// ran to the end of the text inside quotes, only where it ends the text.
proof fn lemma_unparsed_rereads(t: Seq<char>, i: int)
    requires
        0 <= i < t.len(),
        is_unparsed(record(t, i).0),
        !leaves_open(t, i),
    ensures
        self_contained(record(t, i).0),
{
    let node = record(t, i).0;
    let e = line_end(t, i);
    let j = skip_ws(t, i);
    lemma_line_end_bounds(t, i);
    lemma_skip_ws_bounds(t, i);
    assert(j < e && t[j] != '#');
    if !has_assignment(t, i) {
        let n = e - i;
        let raw = t.subrange(i, e);
        assert(eol_trim(t, i, e) == e);
        assert(node == unparsed(raw));
        assert forall|u: Seq<char>, a: int| written_at(u, a, node) implies #[trigger] rereads_at(u, a, node) by {
            lemma_written_window(t, i, u, a, n);
            lemma_window_line_end(t, i, u, a, n, i);
            lemma_window_skip_ws(t, i, u, a, n, i);
            lemma_window_char(t, i, u, a, n, j);
            lemma_window_has_assignment(t, i, u, a, n);
            lemma_window_char(t, i, u, a, n, e - 1);
            lemma_window_subrange(t, i, u, a, n, i, e);
        }
    } else {
        let ks = key_start(t, j);
        let ke = key_scan(t, ks);
        let q = skip_ws(t, ke);
        let v0 = skip_ws(t, q + 1);
        let r = scan(t, v0, QState::Plain, Seq::empty(), Seq::empty());
        lemma_key_start_bounds(t, j);
        lemma_key_scan_bounds(t, ks + 1);
        lemma_key_scan_bounds(t, ks);
        assert(ke == key_scan(t, ks + 1));
        lemma_skip_ws_bounds(t, ke);
        lemma_skip_ws_bounds(t, q + 1);
        lemma_scan_end_ge(t, v0, QState::Plain, Seq::empty(), Seq::empty());
        lemma_scan_fail_end(t, v0, QState::Plain, Seq::empty(), Seq::empty());
        assert(r is Fail);
        let end = scan_end(r);
        let open = scan_open(r);
        assert(!open);
        assert(node == raw_node(t, i, end));
        let n = end - i;
        assert(eol_trim(t, i, end) == end);
        let raw = t.subrange(i, end);
        assert(node == unparsed(raw));
        assert forall|u: Seq<char>, a: int| written_at(u, a, node) implies #[trigger] rereads_at(u, a, node) by {
            lemma_written_window(t, i, u, a, n);
            lemma_window_line_end(t, i, u, a, n, i);
            lemma_window_skip_ws(t, i, u, a, n, i);
            lemma_window_char(t, i, u, a, n, j);
            lemma_window_has_assignment(t, i, u, a, n);
            lemma_window_skip_ws(t, i, u, a, n, q + 1);
            lemma_window_scan(t, i, u, a, n, v0, QState::Plain, Seq::empty(), Seq::empty());
            lemma_window_char(t, i, u, a, n, end - 1);
            lemma_window_subrange(t, i, u, a, n, i, end);
        }
    }
}


/// No carriage return of `t` belongs to a line break.
pub open spec fn clean(t: Seq<char>) -> bool {
    forall|p: int| 0 <= p < t.len() ==> !break_cr(t, p)
}

proof fn lemma_run_ok_shift(a: Seq<char>, b: Seq<char>, k: int)
    requires
        0 <= k,
    ensures
        run_ok(a + b, a.len() + k) == run_ok(b, k),
    decreases b.len() - k,
{
    if k < b.len() {
        assert((a + b)[a.len() + k] == b[k]);
        lemma_run_ok_shift(a, b, k + 1);
    }
}

proof fn lemma_run_ok_prefix(a: Seq<char>, b: Seq<char>, q: int)
    requires
        0 <= q < a.len(),
        a.last() == '\n',
    ensures
        run_ok(a + b, q) == run_ok(a, q),
    decreases a.len() - q,
{
    assert((a + b)[q] == a[q]);
    if q < a.len() - 1 {
        lemma_run_ok_prefix(a, b, q + 1);
    }
}

proof fn lemma_clean_concat(a: Seq<char>, b: Seq<char>)
    requires
        clean(a),
        clean(b),
        a.len() == 0 || a.last() == '\n',
    ensures
        clean(a + b),
{
    assert forall|p: int| 0 <= p < (a + b).len() implies !break_cr(a + b, p) by {
        if p < a.len() {
            assert((a + b)[p] == a[p]);
            if a[p] == '\r' {
                assert(!break_cr(a, p));
                lemma_run_ok_prefix(a, b, p + 1);
            }
        } else {
            assert((a + b)[p] == b[p - a.len()]);
            assert(!break_cr(b, p - a.len()));
            lemma_run_ok_shift(a, b, p - a.len() + 1);
        }
    }
}

/// A text whose start holds no carriage return is clean when its rest is.
proof fn lemma_clean_after_plain(a: Seq<char>, b: Seq<char>)
    requires
        forall|m: int| 0 <= m < a.len() ==> a[m] != '\r',
        clean(b),
    ensures
        clean(a + b),
{
    assert forall|p: int| 0 <= p < (a + b).len() implies !break_cr(a + b, p) by {
        if p < a.len() {
            assert((a + b)[p] == a[p]);
        } else {
            assert((a + b)[p] == b[p - a.len()]);
            assert(!break_cr(b, p - a.len()));
            lemma_run_ok_shift(a, b, p - a.len() + 1);
        }
    }
}

proof fn lemma_run_window(s: Seq<char>, x: int, y: int, t: Seq<char>, b: int, q: int)
    requires
        0 <= x <= q <= y <= s.len(),
        0 <= b,
        b + (y - x) <= t.len(),
        forall|m: int| 0 <= m < y - x ==> #[trigger] s[x + m] == t[b + m],
        run_ok(s, q),
        !run_ok(s, y),
    ensures
        run_ok(t, q - x + b),
    decreases y - q,
{
    if q < y {
        assert(s[x + (q - x)] == t[b + (q - x)]);
        if s[q] == '\r' {
            lemma_run_window(s, x, y, t, b, q + 1);
        }
    }
}

/// A piece `t[x..y]` of a clean text that ends where the rest of the line
/// holds only carriage returns is clean once a line feed is put after it.
proof fn lemma_clean_piece(t: Seq<char>, x: int, y: int, e: int)
    requires
        clean(t),
        0 <= x <= y <= e <= t.len(),
        forall|m: int| y <= m < e ==> t[m] == '\r',
        e == t.len() || t[e] == '\n',
    ensures
        clean(t.subrange(x, y).push('\n')),
        !run_ok(t, y),
{
    lemma_no_run_to_break(t, y, e);
    let l = t.subrange(x, y).push('\n');
    assert forall|p: int| 0 <= p < l.len() implies !break_cr(l, p) by {
        if p < y - x {
            assert(l[p] == t[x + p]);
            if t[x + p] == '\r' {
                assert(!break_cr(t, x + p));
                assert forall|m: int| 0 <= m < y - x implies #[trigger] t[x + m] == l[0 + m] by {}
                lemma_run_window(t, x, y, l, 0, x + p + 1);
            }
        }
    }
}

proof fn lemma_no_run_to_break(t: Seq<char>, y: int, e: int)
    requires
        0 <= y <= e <= t.len(),
        forall|m: int| y <= m < e ==> t[m] == '\r',
        e == t.len() || t[e] == '\n',
    ensures
        !run_ok(t, y),
    decreases e - y,
{
    if y < e {
        lemma_no_run_to_break(t, y + 1, e);
    }
}

proof fn lemma_norm_clean(t: Seq<char>, p: int)
    requires
        0 <= p <= t.len(),
    ensures
        clean(norm_from(t, p)),
        run_ok(t, p) ==> run_ok(norm_from(t, p), 0),
    decreases t.len() - p,
{
    if p < t.len() {
        lemma_norm_clean(t, p + 1);
        let n = norm_from(t, p + 1);
        if !break_cr(t, p) {
            let c = t[p];
            let m = seq![c] + n;
            assert forall|k: int| 0 <= k < m.len() implies !break_cr(m, k) by {
                if k == 0 {
                    if c == '\r' {
                        lemma_run_ok_shift(seq![c], n, 0);
                    }
                } else {
                    assert(m[k] == n[k - 1]);
                    assert(!break_cr(n, k - 1));
                    lemma_run_ok_shift(seq![c], n, k);
                }
            }
            if run_ok(t, p) && c == '\r' {
                lemma_run_ok_shift(seq![c], n, 0);
            }
        }
    }
}

proof fn lemma_norm_of_clean(t: Seq<char>, p: int)
    requires
        clean(t),
        0 <= p <= t.len(),
    ensures
        norm_from(t, p) == t.subrange(p, t.len() as int),
    decreases t.len() - p,
{
    if p < t.len() {
        lemma_norm_of_clean(t, p + 1);
        assert(t.subrange(p, t.len() as int) =~= seq![t[p]] + t.subrange(p + 1, t.len() as int));
    } else {
        assert(t.subrange(p, t.len() as int) =~= Seq::<char>::empty());
    }
}

proof fn lemma_quoted_no_cr(v: Seq<char>)
    ensures
        forall|m: int| 0 <= m < quoted(v).len() ==> quoted(v)[m] != '\r',
{
    lemma_escaped_no_cr(v);
    if needs_quotes(v) {
        let q = quoted(v);
        assert forall|m: int| 0 <= m < q.len() implies q[m] != '\r' by {
            if 0 < m < q.len() - 1 {
                assert(q[m] == escaped(v)[m - 1]);
            }
        }
    } else {
        assert forall|m: int| 0 <= m < v.len() implies v[m] != '\r' by {
            if v[m] == '\r' {
                assert(needs_quote_char(v[m]));
            }
        }
    }
}

proof fn lemma_escaped_no_cr(v: Seq<char>)
    ensures
        forall|m: int| 0 <= m < escaped(v).len() ==> escaped(v)[m] != '\r',
    decreases v.len(),
{
    if v.len() > 0 {
        lemma_escaped_no_cr(v.drop_last());
        let a = escaped(v.drop_last());
        let e = escape_char(v.last());
        assert forall|m: int| 0 <= m < (a + e).len() implies (a + e)[m] != '\r' by {
            if m < a.len() {
                assert((a + e)[m] == a[m]);
            } else {
                assert((a + e)[m] == e[m - a.len()]);
            }
        }
    }
}

/// The line written for a node that the parser reads in a clean text is
/// clean, its line feed included.
proof fn lemma_record_clean(t: Seq<char>, i: int)
    requires
        clean(t),
        0 <= i < t.len(),
    ensures
        clean(node_line(record(t, i).0).push('\n')),
{
    let e = line_end(t, i);
    let j = skip_ws(t, i);
    let n = record(t, i).0;
    lemma_line_end_bounds(t, i);
    lemma_skip_ws_bounds(t, i);
    if j >= e {
        assert(node_line(n).push('\n') == seq!['\n']);
    } else if t[j] == '#' {
        lemma_trim_cr(t, j + 1, e);
        let y = trim_cr(t, j + 1, e);
        lemma_clean_piece(t, j + 1, y, e);
        let c = t.subrange(j + 1, y);
        lemma_clean_after_plain(seq!['#'], c.push('\n'));
        assert(node_line(n).push('\n') =~= seq!['#'] + c.push('\n'));
    } else if has_assignment(t, i) {
        let ks = key_start(t, j);
        let ke = key_scan(t, ks);
        let q = skip_ws(t, ke);
        let v0 = skip_ws(t, q + 1);
        lemma_key_start_bounds(t, j);
        lemma_key_scan_bounds(t, ks);
        lemma_skip_ws_bounds(t, ke);
        lemma_skip_ws_bounds(t, q + 1);
        lemma_scan_fail_end(t, v0, QState::Plain, Seq::empty(), Seq::empty());
        lemma_scan_comment(t, v0, QState::Plain, Seq::empty(), Seq::empty());
        match scan(t, v0, QState::Plain, Seq::empty(), Seq::empty()) {
            ScanEnd::Done { value, comment, end } => {
                let key = t.subrange(ks, ke);
                assert forall|m: int| 0 <= m < key.len() implies key[m] != '\r' by {
                    assert(key[m] == t[ks + m]);
                }
                lemma_quoted_no_cr(value);
                let head = key + seq!['='] + quoted(value);
                assert forall|m: int| 0 <= m < head.len() implies head[m] != '\r' by {
                    if m < key.len() {
                        assert(head[m] == key[m]);
                    } else if m > key.len() {
                        assert(head[m] == quoted(value)[m - key.len() - 1]);
                    }
                }
                match comment {
                    Some(c) => {
                        lemma_clean_after_plain(seq![' '], c.push('\n'));
                        lemma_clean_after_plain(head, seq![' '] + c.push('\n'));
                        assert(node_line(n).push('\n') =~= head + (seq![' '] + c.push('\n')));
                    },
                    None => {
                        assert(clean(seq!['\n']));
                        lemma_clean_after_plain(head, seq!['\n']);
                        assert(node_line(n).push('\n') =~= head + seq!['\n']);
                    },
                }
            },
            ScanEnd::Fail { end, open } => {
                if open {
                    assert(eol_trim(t, i, e) == e);
                    lemma_clean_piece(t, i, e, e);
                } else {
                    lemma_scan_end_ge(t, v0, QState::Plain, Seq::empty(), Seq::empty());
                    assert(eol_trim(t, i, end) == end);
                    lemma_clean_piece(t, i, end, end);
                }
            },
        }
    } else {
        assert(eol_trim(t, i, e) == e);
        lemma_clean_piece(t, i, e, e);
    }
}

proof fn lemma_parse_from_clean(t: Seq<char>, i: int)
    requires
        clean(t),
    ensures
        forall|k: int| 0 <= k < parse_from(t, i).len() ==> clean(#[trigger] node_line(parse_from(t, i)[k]).push('\n')),
    decreases t.len() - i,
{
    if 0 <= i < t.len() {
        let k0 = record(t, i).1;
        let next = if i < k0 && k0 <= t.len() { k0 } else { t.len() as int };
        lemma_record_clean(t, i);
        lemma_parse_from_clean(t, next);
        let r = parse_from(t, i);
        assert(r == seq![record(t, i).0] + parse_from(t, next));
        assert forall|k: int| 0 <= k < r.len() implies clean(#[trigger] node_line(r[k]).push('\n')) by {
            if k > 0 {
                assert(r[k] == parse_from(t, next)[k - 1]);
            }
        }
    }
}

proof fn lemma_serialize_clean(ns: Seq<NodeView>)
    requires
        forall|k: int| 0 <= k < ns.len() ==> clean(#[trigger] node_line(ns[k]).push('\n')),
    ensures
        clean(serialize(ns)),
        serialize(ns).len() == 0 || serialize(ns).last() == '\n',
    decreases ns.len(),
{
    if ns.len() > 0 {
        let d = ns.drop_last();
        assert forall|k: int| 0 <= k < d.len() implies clean(#[trigger] node_line(d[k]).push('\n')) by {
            assert(d[k] == ns[k]);
        }
        lemma_serialize_clean(d);
        let l = node_line(ns.last()).push('\n');
        assert(clean(node_line(ns[ns.len() - 1]).push('\n')));
        lemma_clean_concat(serialize(d), l);
        assert(serialize(ns) =~= serialize(d) + l);
    }
}

/// Writing a parsed document back and parsing the text again gives the same
/// document, when no value is left open at the end of the text.
pub proof fn lemma_round_trip(t: Seq<char>)
    requires
        none_open_from(normalized(t), 0),
    ensures
        parse_text(serialize(parse_text(t))) == parse_text(t),
{
    let s = normalized(t);
    let d = parse_from(s, 0);
    lemma_norm_clean(t, 0);
    lemma_parse_from_clean(s, 0);
    lemma_serialize_clean(d);
    lemma_norm_of_clean(serialize(d), 0);
    assert(serialize(d).subrange(0, serialize(d).len() as int) == serialize(d));
    lemma_round_trip_raw(s);
}


/// Any sequence of nodes taken from the document of a text (where no value
/// is left open at the end) is read back from its written text.
pub proof fn lemma_nodes_of_text_reread(t: Seq<char>, ns: Seq<NodeView>)
    requires
        none_open_from(normalized(t), 0),
        forall|k: int| 0 <= k < ns.len() ==> exists|j: int| 0 <= j < parse_text(t).len() && #[trigger] ns[k] == parse_text(t)[j],
    ensures
        parse_text(serialize(ns)) == ns,
{
    let s = normalized(t);
    let d = parse_from(s, 0);
    lemma_norm_clean(t, 0);
    lemma_parse_from_clean(s, 0);
    lemma_parse_from_ok(s, 0);
    assert forall|k: int| 0 <= k < ns.len() implies self_contained(#[trigger] ns[k]) && clean(node_line(ns[k]).push('\n')) by {
        let j = choose|j: int| 0 <= j < d.len() && #[trigger] ns[k] == d[j];
        assert(self_contained(d[j]));
        assert(clean(node_line(d[j]).push('\n')));
    }
    lemma_serialize_clean(ns);
    lemma_norm_of_clean(serialize(ns), 0);
    assert(serialize(ns).subrange(0, serialize(ns).len() as int) == serialize(ns));
    lemma_parse_serialized(ns);
}

} // verus!
