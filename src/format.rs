//! Formatting a document: dropping entries without a value (and, on
//! request, comments) and sorting the entries by key.
use vstd::prelude::*;
use crate::document::Ast;
use crate::node::{Node, NodeView, is_entry, nodes_view};
use crate::text::str_chars;

verus! {

/// Whether formatting keeps node `n`: an entry only when its value is not
/// empty, a comment only when comments are not pruned.
pub open spec fn kept_by_format(n: NodeView, prune: bool) -> bool {
    match n {
        NodeView::KeyValue { key, value, .. } => key.len() == 0 || value.len() > 0,
        NodeView::Comment(_) => !prune,
        NodeView::EmptyLine => true,
    }
}

/// The nodes that formatting keeps, in their order.
pub open spec fn pruned(s: Seq<NodeView>, prune: bool) -> Seq<NodeView>
    decreases s.len(),
{
    if s.len() == 0 {
        s
    } else {
        let r = pruned(s.drop_last(), prune);
        if kept_by_format(s.last(), prune) {
            r.push(s.last())
        } else {
            r
        }
    }
}

/// The entries of a document, in their order.
pub open spec fn entries(s: Seq<NodeView>) -> Seq<NodeView>
    decreases s.len(),
{
    if s.len() == 0 {
        s
    } else {
        let r = entries(s.drop_last());
        if is_entry(s.last()) {
            r.push(s.last())
        } else {
            r
        }
    }
}

pub open spec fn key_of(n: NodeView) -> Seq<char> {
    n->KeyValue_key
}

/// Lexicographic order on keys, character by character (which is also the
/// order of their UTF-8 bytes).
pub open spec fn key_lt(a: Seq<char>, b: Seq<char>) -> bool
    decreases a.len(),
{
    if a.len() == 0 {
        b.len() > 0
    } else if b.len() == 0 {
        false
    } else if a[0] != b[0] {
        (a[0] as u32) < (b[0] as u32)
    } else {
        key_lt(a.drop_first(), b.drop_first())
    }
}

/// Where `n` goes in `s`: after every node whose key is not greater.
pub open spec fn ins_pos(s: Seq<NodeView>, n: NodeView) -> int
    decreases s.len(),
{
    if s.len() == 0 {
        0
    } else if key_lt(key_of(n), key_of(s.last())) {
        ins_pos(s.drop_last(), n)
    } else {
        s.len() as int
    }
}

/// Stable insertion sort by key.
pub open spec fn sort_by_key(s: Seq<NodeView>) -> Seq<NodeView>
    decreases s.len(),
{
    if s.len() == 0 {
        s
    } else {
        let r = sort_by_key(s.drop_last());
        r.insert(ins_pos(r, s.last()), s.last())
    }
}

pub open spec fn sorted_by_key(s: Seq<NodeView>) -> bool {
    forall|i: int, j: int| 0 <= i < j < s.len() ==> !key_lt(key_of(#[trigger] s[j]), key_of(#[trigger] s[i]))
}

/// `s` with its entries replaced, in order, by those of `es`.
pub open spec fn place(s: Seq<NodeView>, es: Seq<NodeView>) -> Seq<NodeView>
    decreases s.len(),
{
    if s.len() == 0 {
        s
    } else if is_entry(s.last()) {
        place(s.drop_last(), es.drop_last()).push(es.last())
    } else {
        place(s.drop_last(), es).push(s.last())
    }
}

/// The formatted document: the kept nodes, with the entries sorted by key
/// into the places that entries hold. Comments, blank lines and unreadable
/// lines keep their places.
pub open spec fn formatted(s: Seq<NodeView>, prune: bool) -> Seq<NodeView> {
    let f = pruned(s, prune);
    place(f, sort_by_key(entries(f)))
}

proof fn lemma_key_lt_irreflexive(a: Seq<char>)
    ensures
        !key_lt(a, a),
    decreases a.len(),
{
    if a.len() > 0 {
        lemma_key_lt_irreflexive(a.drop_first());
    }
}

proof fn lemma_key_lt_total(a: Seq<char>, b: Seq<char>)
    ensures
        key_lt(a, b) || key_lt(b, a) || a == b,
        !(key_lt(a, b) && key_lt(b, a)),
    decreases a.len(),
{
    if a.len() > 0 && b.len() > 0 {
        vstd::utf8::char_u32_cast(a[0], a[0] as u32);
        vstd::utf8::char_u32_cast(b[0], b[0] as u32);
        lemma_key_lt_total(a.drop_first(), b.drop_first());
        if a[0] == b[0] && a.drop_first() == b.drop_first() {
            assert(a == seq![a[0]] + a.drop_first());
            assert(b == seq![b[0]] + b.drop_first());
        }
    } else if a.len() == 0 && b.len() == 0 {
        assert(a == b);
    }
}

proof fn lemma_key_lt_transitive(a: Seq<char>, b: Seq<char>, c: Seq<char>)
    requires
        key_lt(a, b),
        key_lt(b, c),
    ensures
        key_lt(a, c),
    decreases a.len(),
{
    if a.len() > 0 && b.len() > 0 && c.len() > 0 {
        if a[0] == b[0] && b[0] == c[0] {
            lemma_key_lt_transitive(a.drop_first(), b.drop_first(), c.drop_first());
        }
    }
}

/// Not greater is transitive.
proof fn lemma_key_le_transitive(a: Seq<char>, b: Seq<char>, c: Seq<char>)
    requires
        !key_lt(b, a),
        !key_lt(c, b),
    ensures
        !key_lt(c, a),
{
    lemma_key_lt_total(a, b);
    if key_lt(c, a) && key_lt(a, b) {
        lemma_key_lt_transitive(c, a, b);
    }
}

proof fn lemma_ins_pos(s: Seq<NodeView>, n: NodeView)
    requires
        sorted_by_key(s),
    ensures
        0 <= ins_pos(s, n) <= s.len(),
        forall|m: int| ins_pos(s, n) <= m < s.len() ==> key_lt(key_of(n), key_of(#[trigger] s[m])),
        forall|m: int| 0 <= m < ins_pos(s, n) ==> !key_lt(key_of(n), key_of(#[trigger] s[m])),
    decreases s.len(),
{
    if s.len() > 0 {
        let p = ins_pos(s, n);
        if key_lt(key_of(n), key_of(s.last())) {
            lemma_ins_pos(s.drop_last(), n);
            assert forall|m: int| p <= m < s.len() implies key_lt(key_of(n), key_of(#[trigger] s[m])) by {
                if m < s.len() - 1 {
                    assert(s[m] == s.drop_last()[m]);
                }
            }
            assert forall|m: int| 0 <= m < p implies !key_lt(key_of(n), key_of(#[trigger] s[m])) by {
                assert(s[m] == s.drop_last()[m]);
            }
        } else {
            assert forall|m: int| 0 <= m < p implies !key_lt(key_of(n), key_of(#[trigger] s[m])) by {
                if m < s.len() - 1 {
                    assert(!key_lt(key_of(s[s.len() - 1]), key_of(s[m])));
                    lemma_key_le_transitive(key_of(s[m]), key_of(s[s.len() - 1]), key_of(n));
                }
            }
        }
    }
}

proof fn lemma_insert_sorted(s: Seq<NodeView>, n: NodeView)
    requires
        sorted_by_key(s),
    ensures
        sorted_by_key(s.insert(ins_pos(s, n), n)),
{
    lemma_ins_pos(s, n);
    let p = ins_pos(s, n);
    let r = s.insert(p, n);
    assert forall|i: int, j: int| 0 <= i < j < r.len() implies !key_lt(key_of(#[trigger] r[j]), key_of(#[trigger] r[i])) by {
        if j < p {
            assert(r[i] == s[i] && r[j] == s[j]);
        } else if j == p {
            assert(r[i] == s[i]);
        } else if i < p {
            assert(r[i] == s[i] && r[j] == s[j - 1]);
            lemma_key_lt_total(key_of(n), key_of(s[j - 1]));
            lemma_key_le_transitive(key_of(s[i]), key_of(n), key_of(s[j - 1]));
        } else if i == p {
            assert(r[j] == s[j - 1]);
            lemma_key_lt_total(key_of(n), key_of(s[j - 1]));
        } else {
            assert(r[i] == s[i - 1] && r[j] == s[j - 1]);
        }
    }
}

proof fn lemma_sort_by_key(s: Seq<NodeView>)
    ensures
        sorted_by_key(sort_by_key(s)),
        sort_by_key(s).len() == s.len(),
        forall|i: int| 0 <= i < s.len() ==> exists|j: int| 0 <= j < s.len() && #[trigger] sort_by_key(s)[i] == s[j],
    decreases s.len(),
{
    if s.len() > 0 {
        let r = sort_by_key(s.drop_last());
        lemma_sort_by_key(s.drop_last());
        lemma_ins_pos(r, s.last());
        lemma_insert_sorted(r, s.last());
        let p = ins_pos(r, s.last());
        let t = r.insert(p, s.last());
        assert forall|i: int| 0 <= i < s.len() implies exists|j: int| 0 <= j < s.len() && #[trigger] sort_by_key(s)[i] == s[j] by {
            if i == p {
                assert(t[i] == s[s.len() - 1]);
            } else {
                let i2 = if i < p { i } else { i - 1 };
                assert(t[i] == r[i2]);
                let j = choose|j: int| 0 <= j < s.drop_last().len() && #[trigger] r[i2] == s.drop_last()[j];
                assert(t[i] == s[j]);
            }
        }
    }
}

proof fn lemma_sort_sorted_is_identity(s: Seq<NodeView>)
    requires
        sorted_by_key(s),
    ensures
        sort_by_key(s) == s,
    decreases s.len(),
{
    if s.len() > 0 {
        let d = s.drop_last();
        assert(sorted_by_key(d)) by {
            assert forall|i: int, j: int| 0 <= i < j < d.len() implies !key_lt(key_of(#[trigger] d[j]), key_of(#[trigger] d[i])) by {
                assert(d[i] == s[i] && d[j] == s[j]);
            }
        }
        lemma_sort_sorted_is_identity(d);
        if d.len() > 0 {
            assert(!key_lt(key_of(s[s.len() - 1]), key_of(s[s.len() - 2])));
            assert(d.last() == s[s.len() - 2]);
        }
        assert(ins_pos(d, s.last()) == d.len());
        assert(d.insert(d.len() as int, s.last()) =~= s);
    }
}

pub open spec fn all_kept(s: Seq<NodeView>, prune: bool) -> bool {
    forall|i: int| 0 <= i < s.len() ==> kept_by_format(#[trigger] s[i], prune)
}

pub open spec fn all_entries(s: Seq<NodeView>) -> bool {
    forall|i: int| 0 <= i < s.len() ==> is_entry(#[trigger] s[i])
}

proof fn lemma_pruned_kept(s: Seq<NodeView>, prune: bool)
    ensures
        all_kept(pruned(s, prune), prune),
        all_kept(s, prune) ==> pruned(s, prune) == s,
    decreases s.len(),
{
    if s.len() > 0 {
        lemma_pruned_kept(s.drop_last(), prune);
        if all_kept(s, prune) {
            assert(all_kept(s.drop_last(), prune)) by {
                assert forall|i: int| 0 <= i < s.drop_last().len() implies kept_by_format(#[trigger] s.drop_last()[i], prune) by {
                    assert(s.drop_last()[i] == s[i]);
                }
            }
            assert(kept_by_format(s[s.len() - 1], prune));
            assert(s.drop_last().push(s.last()) =~= s);
        }
    }
}

proof fn lemma_entries_of(s: Seq<NodeView>, prune: bool)
    ensures
        all_entries(entries(s)),
        all_kept(s, prune) ==> all_kept(entries(s), prune),
        entries(s).len() <= s.len(),
    decreases s.len(),
{
    if s.len() > 0 {
        lemma_entries_of(s.drop_last(), prune);
        if all_kept(s, prune) {
            assert(all_kept(s.drop_last(), prune)) by {
                assert forall|i: int| 0 <= i < s.drop_last().len() implies kept_by_format(#[trigger] s.drop_last()[i], prune) by {
                    assert(s.drop_last()[i] == s[i]);
                }
            }
            assert(kept_by_format(s[s.len() - 1], prune));
        }
    }
}

proof fn lemma_entries_prefix(s: Seq<NodeView>, i: int)
    requires
        0 <= i <= s.len(),
    ensures
        entries(s.subrange(0, i)).len() <= entries(s).len(),
    decreases s.len(),
{
    if i < s.len() {
        assert(s.subrange(0, i) == s.drop_last().subrange(0, i));
        lemma_entries_prefix(s.drop_last(), i);
    } else {
        assert(s.subrange(0, i) == s);
    }
}

proof fn lemma_place(s: Seq<NodeView>, es: Seq<NodeView>, prune: bool)
    requires
        es.len() == entries(s).len(),
        all_entries(es),
    ensures
        entries(place(s, es)) == es,
        place(s, es).len() == s.len(),
        all_kept(s, prune) && all_kept(es, prune) ==> all_kept(place(s, es), prune),
    decreases s.len(),
{
    if s.len() > 0 {
        let d = s.drop_last();
        if is_entry(s.last()) {
            let e2 = es.drop_last();
            assert(all_entries(e2)) by {
                assert forall|i: int| 0 <= i < e2.len() implies is_entry(#[trigger] e2[i]) by {
                    assert(e2[i] == es[i]);
                }
            }
            lemma_place(d, e2, prune);
            assert(is_entry(es[es.len() - 1]));
            assert(place(s, es).drop_last() == place(d, e2));
            assert(e2.push(es.last()) =~= es);
            if all_kept(s, prune) && all_kept(es, prune) {
                assert(all_kept(d, prune)) by {
                    assert forall|i: int| 0 <= i < d.len() implies kept_by_format(#[trigger] d[i], prune) by {
                        assert(d[i] == s[i]);
                    }
                }
                assert(all_kept(e2, prune)) by {
                    assert forall|i: int| 0 <= i < e2.len() implies kept_by_format(#[trigger] e2[i], prune) by {
                        assert(e2[i] == es[i]);
                    }
                }
                assert(kept_by_format(es[es.len() - 1], prune));
                let p = place(s, es);
                assert forall|i: int| 0 <= i < p.len() implies kept_by_format(#[trigger] p[i], prune) by {
                    if i < p.len() - 1 {
                        assert(p[i] == place(d, e2)[i]);
                    }
                }
            }
        } else {
            lemma_place(d, es, prune);
            assert(place(s, es).drop_last() == place(d, es));
            if all_kept(s, prune) && all_kept(es, prune) {
                assert(all_kept(d, prune)) by {
                    assert forall|i: int| 0 <= i < d.len() implies kept_by_format(#[trigger] d[i], prune) by {
                        assert(d[i] == s[i]);
                    }
                }
                assert(kept_by_format(s[s.len() - 1], prune));
                let p = place(s, es);
                assert forall|i: int| 0 <= i < p.len() implies kept_by_format(#[trigger] p[i], prune) by {
                    if i < p.len() - 1 {
                        assert(p[i] == place(d, es)[i]);
                    }
                }
            }
        }
    }
}

proof fn lemma_place_own_entries(s: Seq<NodeView>)
    ensures
        place(s, entries(s)) == s,
    decreases s.len(),
{
    if s.len() > 0 {
        lemma_place_own_entries(s.drop_last());
        assert(s.drop_last().push(s.last()) =~= s);
        if is_entry(s.last()) {
            assert(entries(s).drop_last() == entries(s.drop_last()));
        }
    }
}

/// Formatting twice gives what formatting once gives.
pub proof fn lemma_format_idempotent(d: Seq<NodeView>, prune: bool)
    ensures
        formatted(formatted(d, prune), prune) == formatted(d, prune),
{
    let f = pruned(d, prune);
    let es = entries(f);
    let sorted = sort_by_key(es);
    let once = place(f, sorted);
    lemma_pruned_kept(d, prune);
    lemma_entries_of(f, prune);
    lemma_sort_by_key(es);
    assert(all_entries(sorted) && all_kept(sorted, prune)) by {
        assert forall|i: int| 0 <= i < sorted.len() implies is_entry(#[trigger] sorted[i]) && kept_by_format(sorted[i], prune) by {
            let j = choose|j: int| 0 <= j < es.len() && #[trigger] sorted[i] == es[j];
            assert(is_entry(es[j]) && kept_by_format(es[j], prune));
        }
    }
    lemma_place(f, sorted, prune);
    lemma_pruned_kept(once, prune);
    assert(pruned(once, prune) == once);
    assert(entries(once) == sorted);
    lemma_sort_sorted_is_identity(sorted);
    lemma_place_own_entries(once);
}


/// Whether `key_lt(a, b)`.
pub fn key_less(a: &String, b: &String) -> (r: bool)
    ensures
        r == key_lt(a@, b@),
{
    let x = str_chars(a.as_str());
    let y = str_chars(b.as_str());
    let mut i: usize = 0;
    assert(x@.subrange(0, x@.len() as int) == x@);
    assert(y@.subrange(0, y@.len() as int) == y@);
    while i < x.len() && i < y.len() && x[i] == y[i]
        invariant
            x@ == a@,
            y@ == b@,
            i <= x@.len(),
            i <= y@.len(),
            key_lt(a@, b@) == key_lt(x@.subrange(i as int, x@.len() as int), y@.subrange(i as int, y@.len() as int)),
        decreases x@.len() - i,
    {
        proof {
            let xs = x@.subrange(i as int, x@.len() as int);
            let ys = y@.subrange(i as int, y@.len() as int);
            assert(xs.drop_first() == x@.subrange(i + 1, x@.len() as int));
            assert(ys.drop_first() == y@.subrange(i + 1, y@.len() as int));
        }
        i = i + 1;
    }
    proof {
        let xs = x@.subrange(i as int, x@.len() as int);
        let ys = y@.subrange(i as int, y@.len() as int);
        if i < x@.len() && i < y@.len() {
            assert(xs[0] == x@[i as int] && ys[0] == y@[i as int]);
        }
    }
    if i == x.len() {
        i < y.len()
    } else if i == y.len() {
        false
    } else {
        (x[i] as u32) < (y[i] as u32)
    }
}

fn entry_key(n: &Node) -> (r: &String)
    requires
        n@ is KeyValue,
    ensures
        r@ == key_of(n@),
{
    match n {
        Node::KeyValue { key, .. } => key,
        _ => vstd::pervasive::unreached(),
    }
}

fn is_entry_node(n: &Node) -> (r: bool)
    ensures
        r == is_entry(n@),
{
    match n {
        Node::KeyValue { key, .. } => key.unicode_len() > 0,
        _ => false,
    }
}

fn kept_by_format_exec(n: &Node, prune: bool) -> (r: bool)
    ensures
        r == kept_by_format(n@, prune),
{
    match n {
        Node::KeyValue { key, value, .. } => key.unicode_len() == 0 || value.unicode_len() > 0,
        Node::Comment(_) => !prune,
        Node::EmptyLine => true,
    }
}

/// The nodes that formatting keeps.
fn prune_nodes(nodes: &Vec<Node>, prune: bool) -> (r: Vec<Node>)
    ensures
        nodes_view(r@) == pruned(nodes_view(nodes@), prune),
{
    let ghost s = nodes_view(nodes@);
    let mut f: Vec<Node> = Vec::new();
    let mut i: usize = 0;
    while i < nodes.len()
        invariant
            i <= nodes@.len(),
            s == nodes_view(nodes@),
            nodes_view(f@) == pruned(s.subrange(0, i as int), prune),
        decreases nodes@.len() - i,
    {
        let n = &nodes[i];
        proof {
            let p = s.subrange(0, i + 1);
            assert(p.drop_last() == s.subrange(0, i as int));
            assert(p.last() == n@);
        }
        if kept_by_format_exec(n, prune) {
            f.push(n.duplicate());
            assert(nodes_view(f@) =~= pruned(s.subrange(0, i as int), prune).push(n@));
        }
        i = i + 1;
    }
    assert(s.subrange(0, s.len() as int) == s);
    f
}

/// The entries of `f`, sorted by key, stably.
fn sorted_entries(f: &Vec<Node>) -> (r: Vec<Node>)
    ensures
        nodes_view(r@) == sort_by_key(entries(nodes_view(f@))),
{
    let ghost fv = nodes_view(f@);
    let mut es: Vec<Node> = Vec::new();
    let mut i: usize = 0;
    while i < f.len()
        invariant
            i <= f@.len(),
            fv == nodes_view(f@),
            nodes_view(es@) == sort_by_key(entries(fv.subrange(0, i as int))),
            forall|m: int| 0 <= m < es@.len() ==> is_entry(#[trigger] nodes_view(es@)[m]),
        decreases f@.len() - i,
    {
        let n = &f[i];
        proof {
            let p = fv.subrange(0, i + 1);
            assert(p.drop_last() == fv.subrange(0, i as int));
            assert(p.last() == n@);
        }
        if is_entry_node(n) {
            let ghost ev = nodes_view(es@);
            assert(entries(fv.subrange(0, i + 1)) == entries(fv.subrange(0, i as int)).push(n@));
            assert(entries(fv.subrange(0, i as int)).push(n@).drop_last() == entries(fv.subrange(0, i as int)));
            let mut j = es.len();
            assert(ev.subrange(0, j as int) == ev);
            while j > 0 && key_less(entry_key(n), entry_key(&es[j - 1]))
                invariant
                    j <= es@.len(),
                    ev == nodes_view(es@),
                    is_entry(n@),
                    forall|m: int| 0 <= m < es@.len() ==> is_entry(#[trigger] ev[m]),
                    ins_pos(ev, n@) == ins_pos(ev.subrange(0, j as int), n@),
                decreases j,
            {
                proof {
                    let p = ev.subrange(0, j as int);
                    assert(p.drop_last() == ev.subrange(0, j - 1));
                    assert(p.last() == ev[j - 1]);
                }
                j = j - 1;
            }
            proof {
                let p = ev.subrange(0, j as int);
                if j > 0 {
                    assert(p.last() == ev[j - 1]);
                }
            }
            es.insert(j, n.duplicate());
            proof {
                assert(nodes_view(es@) =~= ev.insert(j as int, n@));
                assert forall|m: int| 0 <= m < es@.len() implies is_entry(#[trigger] nodes_view(es@)[m]) by {
                    if m < j {
                        assert(nodes_view(es@)[m] == ev[m]);
                    } else if m > j {
                        assert(nodes_view(es@)[m] == ev[m - 1]);
                    }
                }
            }
        } else {
            assert(entries(fv.subrange(0, i + 1)) == entries(fv.subrange(0, i as int)));
        }
        i = i + 1;
    }
    assert(fv.subrange(0, fv.len() as int) == fv);
    es
}

impl Ast {
    /// Formats the document: drops entries whose value is empty (and all
    /// comments when `prune` holds) and sorts the entries by key into the
    /// places that entries hold.
    pub fn format(&mut self, prune: bool)
        ensures
            final(self)@ == formatted(old(self)@, prune),
    {
        let f = prune_nodes(&self.nodes, prune);
        let es = sorted_entries(&f);
        let ghost fv = nodes_view(f@);
        let ghost ev = nodes_view(es@);
        proof {
            lemma_entries_of(fv, prune);
            lemma_sort_by_key(entries(fv));
        }
        let n_es = es.len();
        let mut out: Vec<Node> = Vec::new();
        let mut i: usize = 0;
        let mut k: usize = 0;
        while i < f.len()
            invariant
                i <= f@.len(),
                fv == nodes_view(f@),
                ev == nodes_view(es@),
                ev.len() == entries(fv).len(),
                n_es == ev.len(),
                k == entries(fv.subrange(0, i as int)).len(),
                nodes_view(out@) == place(fv.subrange(0, i as int), ev.subrange(0, k as int)),
            decreases f@.len() - i,
        {
            let n = &f[i];
            let ghost p = fv.subrange(0, i + 1);
            proof {
                assert(p.drop_last() == fv.subrange(0, i as int));
                assert(p.last() == n@);
                lemma_entries_prefix(fv, i + 1);
            }
            if is_entry_node(n) {
                assert(entries(p) == entries(fv.subrange(0, i as int)).push(n@));
                assert(entries(p).len() == k + 1);
                assert(k < ev.len());
                assert(ev.len() == es@.len());
                let k1 = k + 1;
                out.push(es[k].duplicate());
                proof {
                    let q = ev.subrange(0, k + 1);
                    assert(q.drop_last() == ev.subrange(0, k as int));
                    assert(q.last() == ev[k as int]);
                }
                k = k1;
            } else {
                out.push(n.duplicate());
            }
            assert(nodes_view(out@) =~= place(p, ev.subrange(0, k as int)));
            i = i + 1;
        }
        assert(fv.subrange(0, fv.len() as int) == fv);
        assert(ev.subrange(0, k as int) == ev);
        self.nodes = out;
    }
}


/// Sorting by key puts the nodes in key order and keeps each of them, as
/// often as it occurs.
pub proof fn lemma_sort_by_key_permutes(s: Seq<NodeView>)
    ensures
        sorted_by_key(sort_by_key(s)),
        sort_by_key(s).to_multiset() == s.to_multiset(),
    decreases s.len(),
{
    lemma_sort_by_key(s);
    if s.len() > 0 {
        let d = s.drop_last();
        lemma_sort_by_key_permutes(d);
        lemma_sort_by_key(d);
        let r = sort_by_key(d);
        lemma_ins_pos(r, s.last());
        vstd::seq_lib::to_multiset_insert(r, ins_pos(r, s.last()), s.last());
        vstd::seq_lib::to_multiset_build(d, s.last());
        assert(d.push(s.last()) == s);
    } else {
        assert(sort_by_key(s) == s);
    }
}

proof fn lemma_pruned_from(s: Seq<NodeView>, prune: bool)
    ensures
        forall|k: int| 0 <= k < pruned(s, prune).len() ==> exists|j: int| 0 <= j < s.len() && #[trigger] pruned(s, prune)[k] == s[j],
    decreases s.len(),
{
    if s.len() > 0 {
        let d = s.drop_last();
        lemma_pruned_from(d, prune);
        let r = pruned(d, prune);
        let p = pruned(s, prune);
        assert forall|k: int| 0 <= k < p.len() implies exists|j: int| 0 <= j < s.len() && #[trigger] p[k] == s[j] by {
            if k < r.len() {
                assert(p[k] == r[k]);
                let j = choose|j: int| 0 <= j < d.len() && #[trigger] r[k] == d[j];
                assert(p[k] == s[j]);
            } else {
                assert(p[k] == s[s.len() - 1]);
            }
        }
    }
}

proof fn lemma_entries_from(s: Seq<NodeView>)
    ensures
        forall|k: int| 0 <= k < entries(s).len() ==> exists|j: int| 0 <= j < s.len() && #[trigger] entries(s)[k] == s[j],
    decreases s.len(),
{
    if s.len() > 0 {
        let d = s.drop_last();
        lemma_entries_from(d);
        let r = entries(d);
        let p = entries(s);
        assert forall|k: int| 0 <= k < p.len() implies exists|j: int| 0 <= j < s.len() && #[trigger] p[k] == s[j] by {
            if k < r.len() {
                assert(p[k] == r[k]);
                let j = choose|j: int| 0 <= j < d.len() && #[trigger] r[k] == d[j];
                assert(p[k] == s[j]);
            } else {
                assert(p[k] == s[s.len() - 1]);
            }
        }
    }
}

proof fn lemma_place_from(s: Seq<NodeView>, es: Seq<NodeView>)
    requires
        es.len() == entries(s).len(),
    ensures
        forall|k: int| 0 <= k < place(s, es).len() ==> (exists|j: int| 0 <= j < s.len() && #[trigger] place(s, es)[k] == s[j])
            || (exists|j: int| 0 <= j < es.len() && place(s, es)[k] == es[j]),
    decreases s.len(),
{
    if s.len() > 0 {
        let d = s.drop_last();
        let p = place(s, es);
        if is_entry(s.last()) {
            let e2 = es.drop_last();
            lemma_place_from(d, e2);
            let r = place(d, e2);
            assert forall|k: int| 0 <= k < p.len() implies (exists|j: int| 0 <= j < s.len() && #[trigger] p[k] == s[j])
                || (exists|j: int| 0 <= j < es.len() && p[k] == es[j]) by {
                if k < r.len() {
                    assert(p[k] == r[k]);
                    if exists|j: int| 0 <= j < d.len() && #[trigger] r[k] == d[j] {
                        let j = choose|j: int| 0 <= j < d.len() && #[trigger] r[k] == d[j];
                        assert(p[k] == s[j]);
                    } else {
                        let j = choose|j: int| 0 <= j < e2.len() && r[k] == e2[j];
                        assert(p[k] == es[j]);
                    }
                } else {
                    assert(p[k] == es[es.len() - 1]);
                }
            }
        } else {
            lemma_place_from(d, es);
            let r = place(d, es);
            assert forall|k: int| 0 <= k < p.len() implies (exists|j: int| 0 <= j < s.len() && #[trigger] p[k] == s[j])
                || (exists|j: int| 0 <= j < es.len() && p[k] == es[j]) by {
                if k < r.len() {
                    assert(p[k] == r[k]);
                    if exists|j: int| 0 <= j < d.len() && #[trigger] r[k] == d[j] {
                        let j = choose|j: int| 0 <= j < d.len() && #[trigger] r[k] == d[j];
                        assert(p[k] == s[j]);
                    }
                } else {
                    assert(p[k] == s[s.len() - 1]);
                }
            }
        }
    }
}

/// Every node of a formatted document is a node of the document.
pub proof fn lemma_formatted_from(d: Seq<NodeView>, prune: bool)
    ensures
        forall|k: int| 0 <= k < formatted(d, prune).len() ==> exists|j: int| 0 <= j < d.len() && #[trigger] formatted(d, prune)[k] == d[j],
{
    let f = pruned(d, prune);
    let es = entries(f);
    let st = sort_by_key(es);
    lemma_pruned_from(d, prune);
    lemma_entries_from(f);
    lemma_sort_by_key(es);
    lemma_place_from(f, st);
    let r = formatted(d, prune);
    assert forall|k: int| 0 <= k < r.len() implies exists|j: int| 0 <= j < d.len() && #[trigger] r[k] == d[j] by {
        if exists|j: int| 0 <= j < f.len() && #[trigger] r[k] == f[j] {
            let j = choose|j: int| 0 <= j < f.len() && #[trigger] r[k] == f[j];
            let j2 = choose|j2: int| 0 <= j2 < d.len() && #[trigger] f[j] == d[j2];
            assert(r[k] == d[j2]);
        } else {
            let j = choose|j: int| 0 <= j < st.len() && r[k] == st[j];
            let j1 = choose|j1: int| 0 <= j1 < es.len() && #[trigger] st[j] == es[j1];
            let j2 = choose|j2: int| 0 <= j2 < f.len() && #[trigger] es[j1] == f[j2];
            let j3 = choose|j3: int| 0 <= j3 < d.len() && #[trigger] f[j2] == d[j3];
            assert(r[k] == d[j3]);
        }
    }
}

} // verus!
