//! Properties that relate several operations of the library.
use vstd::prelude::*;
use crate::document::{
    deleted, last_entry, lemma_last_entry_range, lemma_last_entry_unique, lemma_to_map_push,
    lookup_spec, to_map_spec, upserted,
};
use crate::grammar::{is_valid_key, normalized, parse_text};
use crate::node::{NodeView, is_entry, is_entry_for};
use crate::format::{formatted, lemma_format_idempotent, lemma_formatted_from};
use crate::roundtrip::{lemma_nodes_of_text_reread, lemma_round_trip, none_open_from};
use crate::serialize::{node_line, serialize};

verus! {

/// The comments and blank lines of a document, in their order.
pub open spec fn layout(s: Seq<NodeView>) -> Seq<NodeView>
    decreases s.len(),
{
    if s.len() == 0 {
        s
    } else if s.last() is KeyValue {
        layout(s.drop_last())
    } else {
        layout(s.drop_last()).push(s.last())
    }
}

/// Round trip: writing a parsed document back and parsing that text again
/// gives the same document: the same value for every key, and the same
/// comments and blank lines in the same order.
///
/// This holds when no assignment of the text leaves a quote (or a
/// backslash) open at the end of the text. Such an assignment is kept as
/// its first line only, and the lines after it are read on their own; once
/// they are written back with their own quoting, the open quote can close
/// on them. For instance `K="a` followed by `B='x #y'` is written back as
/// `K="a` and `B="x #y"`, and then `K` reads `a`, a line break and `B=x`.
pub proof fn lemma_parse_serialize_round_trip(t: Seq<char>)
    requires
        none_open_from(normalized(t), 0),
    ensures
        parse_text(serialize(parse_text(t))) == parse_text(t),
        to_map_spec(parse_text(serialize(parse_text(t)))) == to_map_spec(parse_text(t)),
        layout(parse_text(serialize(parse_text(t)))) == layout(parse_text(t)),
{
    lemma_round_trip(t);
}

proof fn lemma_last_entry_agree(a: Seq<NodeView>, b: Seq<NodeView>, k: Seq<char>)
    requires
        a.len() == b.len(),
        forall|j: int| 0 <= j < a.len() ==> is_entry_for(#[trigger] a[j], k) == is_entry_for(b[j], k),
    ensures
        last_entry(a, k) == last_entry(b, k),
    decreases a.len(),
{
    if a.len() > 0 {
        assert(is_entry_for(a[a.len() - 1], k) == is_entry_for(b[b.len() - 1], k));
        assert forall|j: int| 0 <= j < a.drop_last().len() implies is_entry_for(#[trigger] a.drop_last()[j], k)
            == is_entry_for(b.drop_last()[j], k) by {
            assert(a.drop_last()[j] == a[j] && b.drop_last()[j] == b[j]);
        }
        lemma_last_entry_agree(a.drop_last(), b.drop_last(), k);
    }
}

/// Last occurrence wins: setting a key rewrites only its last entry (or
/// appends one), after which the key maps to the new value and every other
/// key keeps its value.
pub proof fn lemma_upsert_last_occurrence(d: Seq<NodeView>, k: Seq<char>, v: Seq<char>, keep_comment: bool)
    requires
        is_valid_key(k),
    ensures
        to_map_spec(upserted(d, k, v, keep_comment)) == to_map_spec(d).insert(k, v),
        lookup_spec(upserted(d, k, v, keep_comment), k) == Some(v),
        last_entry(d, k) >= 0 ==> upserted(d, k, v, keep_comment).len() == d.len() && forall|j: int|
            0 <= j < d.len() && j != last_entry(d, k) ==> #[trigger] upserted(d, k, v, keep_comment)[j] == d[j],
{
    let i = last_entry(d, k);
    let r = upserted(d, k, v, keep_comment);
    lemma_last_entry_range(d, k);
    if i >= 0 {
        assert(is_entry_for(r[i], k));
        lemma_last_entry_unique(r, k, i);
        assert forall|k2: Seq<char>| k2 != k implies #[trigger] last_entry(r, k2) == last_entry(d, k2) by {
            assert forall|j: int| 0 <= j < r.len() implies is_entry_for(#[trigger] r[j], k2) == is_entry_for(d[j], k2) by {}
            lemma_last_entry_agree(r, d, k2);
        }
        assert forall|k2: Seq<char>| k2 != k && last_entry(d, k2) >= 0 implies #[trigger] r[last_entry(d, k2)] == d[last_entry(d, k2)] by {
            lemma_last_entry_range(d, k2);
            assert(last_entry(d, k2) != i);
        }
        assert(to_map_spec(r) =~= to_map_spec(d).insert(k, v));
    } else {
        let n = NodeView::KeyValue { key: k, value: v, comment: None };
        lemma_to_map_push(d, n);
        assert(r.drop_last() == d);
    }
    assert(to_map_spec(r).contains_key(k));
}

/// Setting a key that has no entry appends one line at the end and leaves
/// the text before it unchanged.
pub proof fn lemma_upsert_new_key_appends(d: Seq<NodeView>, k: Seq<char>, v: Seq<char>, keep_comment: bool)
    requires
        is_valid_key(k),
        last_entry(d, k) == -1,
    ensures
        serialize(upserted(d, k, v, keep_comment)) == serialize(d) + node_line(
            NodeView::KeyValue { key: k, value: v, comment: None },
        ) + seq!['\n'],
{
    let r = upserted(d, k, v, keep_comment);
    assert(r.drop_last() == d);
}


/// Deleting keys keeps every comment and blank line, in order, and leaves
/// no entry for a deleted key.
pub proof fn lemma_delete_keeps_layout(d: Seq<NodeView>, keys: Seq<Seq<char>>)
    ensures
        layout(deleted(d, keys)) == layout(d),
        forall|i: int| 0 <= i < deleted(d, keys).len() ==> !(is_entry(#[trigger] deleted(d, keys)[i])
            && keys.contains(deleted(d, keys)[i]->KeyValue_key)),
    decreases d.len(),
{
    if d.len() > 0 {
        lemma_delete_keeps_layout(d.drop_last(), keys);
        let r = deleted(d.drop_last(), keys);
        let n = d.last();
        if !(is_entry(n) && keys.contains(n->KeyValue_key)) {
            assert(r.push(n).drop_last() == r);
            assert forall|i: int| 0 <= i < r.push(n).len() implies !(is_entry(#[trigger] r.push(n)[i])
                && keys.contains(r.push(n)[i]->KeyValue_key)) by {
                if i < r.len() {
                    assert(r.push(n)[i] == r[i]);
                }
            }
        }
    }
}


/// Formatting a formatted file changes nothing: the text written for a
/// formatted document formats to the same document (when no value of the
/// file is left open at its end).
pub proof fn lemma_format_text_idempotent(t: Seq<char>, prune: bool)
    requires
        none_open_from(normalized(t), 0),
    ensures
        formatted(parse_text(serialize(formatted(parse_text(t), prune))), prune) == formatted(parse_text(t), prune),
{
    let f = formatted(parse_text(t), prune);
    lemma_formatted_from(parse_text(t), prune);
    lemma_nodes_of_text_reread(t, f);
    lemma_format_idempotent(parse_text(t), prune);
}

} // verus!
