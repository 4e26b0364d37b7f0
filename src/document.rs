//! Documents: ordered sequences of nodes, and the edits on them.
use vstd::prelude::*;
use vstd::std_specs::iter::IteratorSpec;
use crate::text::same_text;
use crate::grammar::is_valid_key;
use crate::node::{Node, NodeView, clone_opt, is_entry, is_entry_for, nodes_view};

verus! {

/// A parsed env file: its nodes in file order.
#[derive(Debug, PartialEq, Eq)]
pub struct Ast {
    pub nodes: Vec<Node>,
}

impl View for Ast {
    type V = Seq<NodeView>;

    open spec fn view(&self) -> Seq<NodeView> {
        nodes_view(self.nodes@)
    }
}


/// Index of the last entry with key `k`, or -1 when there is none.
pub open spec fn last_entry(s: Seq<NodeView>, k: Seq<char>) -> int
    decreases s.len(),
{
    if s.len() == 0 {
        -1
    } else if is_entry_for(s.last(), k) {
        s.len() - 1
    } else {
        last_entry(s.drop_last(), k)
    }
}

/// The value of `k`: that of its last entry.
pub open spec fn lookup_spec(s: Seq<NodeView>, k: Seq<char>) -> Option<Seq<char>> {
    let i = last_entry(s, k);
    if i >= 0 {
        Some(s[i]->KeyValue_value)
    } else {
        None
    }
}

/// Each key of the document with the value of its last entry.
pub open spec fn to_map_spec(s: Seq<NodeView>) -> Map<Seq<char>, Seq<char>> {
    Map::new(|k: Seq<char>| last_entry(s, k) >= 0, |k: Seq<char>| s[last_entry(s, k)]->KeyValue_value)
}

/// The document with `k` set to `v`: its last entry is rewritten in place
/// (keeping its trailing comment only when `keep_comment` holds), or a new
/// entry is appended when `k` has none.
pub open spec fn upserted(s: Seq<NodeView>, k: Seq<char>, v: Seq<char>, keep_comment: bool) -> Seq<NodeView> {
    let i = last_entry(s, k);
    if i >= 0 {
        s.update(i, NodeView::KeyValue {
            key: k,
            value: v,
            comment: if keep_comment { s[i]->KeyValue_comment } else { None },
        })
    } else {
        s.push(NodeView::KeyValue { key: k, value: v, comment: None })
    }
}

/// The updates applied one after the other, each dropping the trailing
/// comment of the entry it rewrites.
pub open spec fn applied(s: Seq<NodeView>, updates: Seq<(Seq<char>, Seq<char>)>) -> Seq<NodeView>
    decreases updates.len(),
{
    if updates.len() == 0 {
        s
    } else {
        let u = updates.last();
        upserted(applied(s, updates.drop_last()), u.0, u.1, false)
    }
}

/// The document without the entries whose key is in `keys`.
pub open spec fn deleted(s: Seq<NodeView>, keys: Seq<Seq<char>>) -> Seq<NodeView>
    decreases s.len(),
{
    if s.len() == 0 {
        s
    } else {
        let r = deleted(s.drop_last(), keys);
        let n = s.last();
        if is_entry(n) && keys.contains(n->KeyValue_key) {
            r
        } else {
            r.push(n)
        }
    }
}

/// `ps` lists the pairs of `m`, each key once.
pub open spec fn lists_map(ps: Seq<(Seq<char>, Seq<char>)>, m: Map<Seq<char>, Seq<char>>) -> bool {
    &&& forall|i: int, j: int| 0 <= i < j < ps.len() ==> ps[i].0 != ps[j].0
    &&& forall|i: int| 0 <= i < ps.len() ==> m.contains_key(#[trigger] ps[i].0) && m[ps[i].0] == ps[i].1
    &&& forall|k: Seq<char>| m.contains_key(k) ==> exists|i: int| 0 <= i < ps.len() && #[trigger] ps[i].0 == k
}

pub open spec fn pairs_view(v: Seq<(String, String)>) -> Seq<(Seq<char>, Seq<char>)> {
    v.map_values(|p: (String, String)| (p.0@, p.1@))
}

pub open spec fn strings_view(v: Seq<String>) -> Seq<Seq<char>> {
    v.map_values(|s: String| s@)
}

pub(crate) proof fn lemma_last_entry_range(s: Seq<NodeView>, k: Seq<char>)
    ensures
        -1 <= last_entry(s, k) < s.len(),
        last_entry(s, k) >= 0 ==> is_entry_for(s[last_entry(s, k)], k),
        forall|j: int| last_entry(s, k) < j < s.len() ==> !is_entry_for(#[trigger] s[j], k),
    decreases s.len(),
{
    if s.len() > 0 {
        lemma_last_entry_range(s.drop_last(), k);
        assert forall|j: int| last_entry(s, k) < j < s.len() implies !is_entry_for(#[trigger] s[j], k) by {
            if j < s.len() - 1 {
                assert(s[j] == s.drop_last()[j]);
            }
        }
    }
}

pub(crate) proof fn lemma_last_entry_unique(s: Seq<NodeView>, k: Seq<char>, i: int)
    requires
        0 <= i < s.len(),
        is_entry_for(s[i], k),
        forall|j: int| i < j < s.len() ==> !is_entry_for(#[trigger] s[j], k),
    ensures
        last_entry(s, k) == i,
    decreases s.len(),
{
    if i < s.len() - 1 {
        lemma_last_entry_unique(s.drop_last(), k, i);
    }
}

proof fn lemma_lists_map_update(ps: Seq<(Seq<char>, Seq<char>)>, m: Map<Seq<char>, Seq<char>>, j: int, v: Seq<char>)
    requires
        lists_map(ps, m),
        0 <= j < ps.len(),
    ensures
        lists_map(ps.update(j, (ps[j].0, v)), m.insert(ps[j].0, v)),
{
    let k = ps[j].0;
    let nps = ps.update(j, (k, v));
    let m2 = m.insert(k, v);
    assert forall|i: int| 0 <= i < nps.len() implies m2.contains_key(#[trigger] nps[i].0) && m2[nps[i].0] == nps[i].1 by {
        if i != j {
            assert(nps[i] == ps[i]);
            assert(ps[i].0 != k) by {
                if i < j {
                    assert(ps[i].0 != ps[j].0);
                } else {
                    assert(ps[j].0 != ps[i].0);
                }
            }
        }
    }
    assert forall|kk: Seq<char>| m2.contains_key(kk) implies exists|i: int| 0 <= i < nps.len() && #[trigger] nps[i].0 == kk by {
        if kk == k {
            assert(nps[j].0 == kk);
        } else {
            assert(m.contains_key(kk));
            let i = choose|i: int| 0 <= i < ps.len() && #[trigger] ps[i].0 == kk;
            assert(nps[i].0 == kk);
        }
    }
    assert forall|a: int, b: int| 0 <= a < b < nps.len() implies nps[a].0 != nps[b].0 by {
        assert(nps[a].0 == ps[a].0);
        assert(nps[b].0 == ps[b].0);
    }
}

proof fn lemma_lists_map_push(ps: Seq<(Seq<char>, Seq<char>)>, m: Map<Seq<char>, Seq<char>>, k: Seq<char>, v: Seq<char>)
    requires
        lists_map(ps, m),
        forall|i: int| 0 <= i < ps.len() ==> ps[i].0 != k,
    ensures
        lists_map(ps.push((k, v)), m.insert(k, v)),
{
    let nps = ps.push((k, v));
    let m2 = m.insert(k, v);
    assert forall|i: int| 0 <= i < nps.len() implies m2.contains_key(#[trigger] nps[i].0) && m2[nps[i].0] == nps[i].1 by {
        if i < ps.len() {
            assert(nps[i] == ps[i]);
        }
    }
    assert forall|kk: Seq<char>| m2.contains_key(kk) implies exists|i: int| 0 <= i < nps.len() && #[trigger] nps[i].0 == kk by {
        if kk == k {
            assert(nps[ps.len() as int].0 == kk);
        } else {
            assert(m.contains_key(kk));
            let i = choose|i: int| 0 <= i < ps.len() && #[trigger] ps[i].0 == kk;
            assert(nps[i].0 == kk);
        }
    }
    assert forall|a: int, b: int| 0 <= a < b < nps.len() implies nps[a].0 != nps[b].0 by {
        assert(nps[a].0 == ps[a].0);
        if b < ps.len() {
            assert(nps[b].0 == ps[b].0);
        }
    }
}

/// Adds `k -> v` to the listed map, replacing the pair of `k` if there is one.
pub(crate) fn map_insert(ps: &mut Vec<(String, String)>, k: String, v: String, m: Ghost<Map<Seq<char>, Seq<char>>>)
    requires
        lists_map(pairs_view(old(ps)@), m@),
    ensures
        lists_map(pairs_view(final(ps)@), m@.insert(k@, v@)),
{
    let mut j: usize = 0;
    while j < ps.len()
        invariant
            j <= ps@.len(),
            lists_map(pairs_view(ps@), m@),
            forall|i: int| 0 <= i < j ==> ps@[i].0@ != k@,
        decreases ps@.len() - j,
    {
        if ps[j].0 == k {
            let ghost old_ps = pairs_view(ps@);
            let ghost kv = k@;
            let ghost vv = v@;
            ps.set(j, (k, v));
            proof {
                lemma_lists_map_update(old_ps, m@, j as int, vv);
                assert(pairs_view(ps@) =~= old_ps.update(j as int, (old_ps[j as int].0, vv)));
            }
            return;
        }
        j = j + 1;
    }
    let ghost old_ps = pairs_view(ps@);
    let ghost kv = k@;
    let ghost vv = v@;
    ps.push((k, v));
    proof {
        assert forall|i: int| 0 <= i < old_ps.len() implies old_ps[i].0 != kv by {
            assert(old_ps[i].0 == ps@[i].0@);
        }
        lemma_lists_map_push(old_ps, m@, kv, vv);
        assert(pairs_view(ps@) =~= old_ps.push((kv, vv)));
    }
}

pub(crate) proof fn lemma_to_map_push(s: Seq<NodeView>, n: NodeView)
    ensures
        to_map_spec(s.push(n)) == (if is_entry(n) {
            to_map_spec(s).insert(n->KeyValue_key, n->KeyValue_value)
        } else {
            to_map_spec(s)
        }),
{
    let t = s.push(n);
    assert(t.drop_last() == s);
    assert forall|k: Seq<char>| #[trigger] last_entry(t, k) == (if is_entry_for(n, k) { s.len() as int } else { last_entry(s, k) }) by {}
    if is_entry(n) {
        assert forall|k: Seq<char>| k != n->KeyValue_key && last_entry(s, k) >= 0 implies #[trigger] t[last_entry(s, k)] == s[last_entry(s, k)] by {
            lemma_last_entry_range(s, k);
        }
        assert(to_map_spec(t) =~= to_map_spec(s).insert(n->KeyValue_key, n->KeyValue_value));
    } else {
        assert forall|k: Seq<char>| last_entry(s, k) >= 0 implies #[trigger] t[last_entry(s, k)] == s[last_entry(s, k)] by {
            lemma_last_entry_range(s, k);
        }
        assert(to_map_spec(t) =~= to_map_spec(s));
    }
}

/// Whether `key` is one of `keys`.
fn contains_key(keys: &[String], key: &String) -> (r: bool)
    ensures
        r == strings_view(keys@).contains(key@),
{
    let mut i: usize = 0;
    while i < keys.len()
        invariant
            i <= keys@.len(),
            forall|j: int| 0 <= j < i ==> keys@[j]@ != key@,
        decreases keys@.len() - i,
    {
        if same_text(keys[i].as_str(), key.as_str()) {
            assert(strings_view(keys@)[i as int] == key@);
            return true;
        }
        i = i + 1;
    }
    assert forall|j: int| 0 <= j < strings_view(keys@).len() implies strings_view(keys@)[j] != key@ by {
        assert(strings_view(keys@)[j] == keys@[j]@);
    }
    false
}

impl Ast {
    /// An empty document.
    pub fn new() -> (r: Ast)
        ensures
            r@ == Seq::<NodeView>::empty(),
    {
        Ast { nodes: Vec::new() }
    }

    /// Appends a node at the end.
    pub fn add_node(&mut self, node: Node)
        ensures
            final(self)@ == old(self)@.push(node@),
    {
        self.nodes.push(node);
        assert(nodes_view(self.nodes@) == nodes_view(old(self).nodes@).push(node@));
    }

    /// The nodes in order.
    pub fn iter(&self) -> (r: std::slice::Iter<'_, Node>)
        ensures
            IteratorSpec::remaining(&r) == self.nodes@.as_ref(),
    {
        proof { broadcast use vstd::std_specs::slice::axiom_spec_slice_iter; }
        self.nodes.as_slice().iter()
    }

    /// The first node, if any.
    pub fn first(&self) -> (r: Option<&Node>)
        ensures
            self@.len() == 0 ==> r.is_none(),
            self@.len() > 0 ==> r.is_some() && r.unwrap()@ == self@[0],
    {
        if self.nodes.len() == 0 {
            None
        } else {
            Some(&self.nodes[0])
        }
    }

    /// The value of `key`: that of its last entry.
    pub fn lookup(&self, key: &str) -> (r: Option<String>)
        ensures
            match r {
                Some(v) => lookup_spec(self@, key@) == Some(v@),
                None => lookup_spec(self@, key@).is_none(),
            },
    {
        proof { lemma_last_entry_range(self@, key@); }
        match self.last_index(key) {
            Some(i) => match &self.nodes[i] {
                Node::KeyValue { value, .. } => Some(value.clone()),
                _ => None,
            },
            None => None,
        }
    }

    /// Index of the last entry with key `key`.
    pub fn last_index(&self, key: &str) -> (r: Option<usize>)
        ensures
            match r {
                Some(i) => last_entry(self@, key@) == i && i < self@.len(),
                None => last_entry(self@, key@) == -1,
            },
    {
        proof { lemma_last_entry_range(self@, key@); }
        let mut i = self.nodes.len();
        while i > 0
            invariant
                i <= self.nodes@.len(),
                forall|j: int| i <= j < self@.len() ==> !is_entry_for(#[trigger] self@[j], key@),
            decreases i,
        {
            let j = i - 1;
            match &self.nodes[j] {
                Node::KeyValue { key: k, .. } => {
                    if k.unicode_len() > 0 && same_text(k.as_str(), key) {
                        proof { lemma_last_entry_unique(self@, key@, j as int); }
                        return Some(j);
                    }
                },
                _ => {},
            }
            i = j;
        }
        None
    }

    /// Sets `key` to `value`: the last entry with that key is rewritten in
    /// place, or, when there is none, a new entry is appended. The rewritten
    /// entry keeps its trailing comment only when `keep_comment` holds.
    pub fn upsert(&mut self, key: &str, value: &str, keep_comment: bool)
        requires
            is_valid_key(key@),
        ensures
            final(self)@ == upserted(old(self)@, key@, value@, keep_comment),
    {
        proof { lemma_last_entry_range(self@, key@); }
        match self.last_index(key) {
            Some(i) => {
                let comment = if keep_comment {
                    match &self.nodes[i] {
                        Node::KeyValue { trailing_comment, .. } => clone_opt(trailing_comment),
                        _ => None,
                    }
                } else {
                    None
                };
                let n = Node::KeyValue { key: key.to_owned(), value: value.to_owned(), trailing_comment: comment };
                let ghost nv = n@;
                self.nodes.set(i, n);
                assert(self@ =~= old(self)@.update(i as int, nv));
            },
            None => {
                let n = Node::KeyValue { key: key.to_owned(), value: value.to_owned(), trailing_comment: None };
                self.add_node(n);
            },
        }
    }

    /// Applies the updates in order, as `upsert` does without keeping
    /// trailing comments.
    pub fn apply(&mut self, updates: &[(String, String)])
        requires
            forall|i: int| 0 <= i < updates@.len() ==> is_valid_key((#[trigger] updates@[i]).0@),
        ensures
            final(self)@ == applied(old(self)@, pairs_view(updates@)),
    {
        let mut i: usize = 0;
        while i < updates.len()
            invariant
                i <= updates@.len(),
                forall|j: int| 0 <= j < updates@.len() ==> is_valid_key((#[trigger] updates@[j]).0@),
                self@ == applied(old(self)@, pairs_view(updates@).subrange(0, i as int)),
            decreases updates@.len() - i,
        {
            let (k, v) = &updates[i];
            self.upsert(k.as_str(), v.as_str(), false);
            proof {
                let p = pairs_view(updates@).subrange(0, i + 1);
                assert(p.drop_last() == pairs_view(updates@).subrange(0, i as int));
                assert(p.last() == (k@, v@));
            }
            i = i + 1;
        }
        assert(pairs_view(updates@).subrange(0, updates@.len() as int) == pairs_view(updates@));
    }

    /// Removes every entry whose key is in `keys`; all other nodes stay, in
    /// their order.
    pub fn delete(&mut self, keys: &[String])
        ensures
            final(self)@ == deleted(old(self)@, strings_view(keys@)),
    {
        let mut kept: Vec<Node> = Vec::new();
        let mut i: usize = 0;
        while i < self.nodes.len()
            invariant
                i <= self@.len(),
                self@ == old(self)@,
                nodes_view(kept@) == deleted(self@.subrange(0, i as int), strings_view(keys@)),
            decreases self@.len() - i,
        {
            let n = &self.nodes[i];
            let drop = match n {
                Node::KeyValue { key, .. } => key.unicode_len() > 0 && contains_key(keys, key),
                _ => false,
            };
            proof {
                let p = self@.subrange(0, i + 1);
                assert(p.drop_last() == self@.subrange(0, i as int));
                assert(p.last() == n@);
            }
            if !drop {
                let d = n.duplicate();
                kept.push(d);
                assert(nodes_view(kept@) =~= deleted(self@.subrange(0, i as int), strings_view(keys@)).push(n@));
            }
            i = i + 1;
        }
        assert(self@.subrange(0, self@.len() as int) == self@);
        self.nodes = kept;
    }

    /// Each key with the value of its last entry, every key once.
    pub fn to_map(&self) -> (r: Vec<(String, String)>)
        ensures
            lists_map(pairs_view(r@), to_map_spec(self@)),
    {
        let mut r: Vec<(String, String)> = Vec::new();
        let mut i: usize = 0;
        proof {
            assert(to_map_spec(self@.subrange(0, 0)) =~= Map::empty());
        }
        while i < self.nodes.len()
            invariant
                i <= self@.len(),
                lists_map(pairs_view(r@), to_map_spec(self@.subrange(0, i as int))),
            decreases self@.len() - i,
        {
            let ghost before = self@.subrange(0, i as int);
            proof {
                lemma_to_map_push(before, self@[i as int]);
                assert(self@.subrange(0, i + 1) == before.push(self@[i as int]));
            }
            match &self.nodes[i] {
                Node::KeyValue { key, value, .. } => {
                    if key.unicode_len() > 0 {
                        map_insert(&mut r, key.clone(), value.clone(), Ghost(to_map_spec(before)));
                    }
                },
                _ => {},
            }
            i = i + 1;
        }
        assert(self@.subrange(0, self@.len() as int) == self@);
        r
    }
}

} // verus!
