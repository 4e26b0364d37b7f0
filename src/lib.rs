//! Reading and editing `.env` files while keeping their layout: comments,
//! blank lines, the order of keys and the quoting of untouched values.
use vstd::prelude::*;

pub mod document;
pub mod format;
pub mod grammar;
pub mod laws;
pub mod node;
pub mod parse;
pub mod roundtrip;
pub mod serialize;
mod text;

pub use document::Ast;
pub use node::Node;
pub use parse::{parse, parse_line, valid_key};
pub use serialize::{needs_quoting, print_lines, quote_value};

use document::{applied, deleted, lists_map, map_insert, pairs_view, strings_view, to_map_spec};
use format::formatted;
use grammar::{is_valid_key, parse_text};
use node::nodes_view;
use serialize::serialize;
use text::{push_str, slice_string, str_chars};

verus! {

/// The node type under the name that line-by-line callers use.
pub type EnvLine = Node;

/// The node type under the name that the editing functions' callers use.
pub type Line = Node;

/// Parses `content` and sets each `(key, value)` of `env_vars` in turn: the
/// last entry of the key is rewritten in place (dropping its trailing
/// comment), or a new entry is appended.
pub fn add_env_vars(content: &str, env_vars: &[(String, String)]) -> (r: Vec<Node>)
    requires
        forall|i: int| 0 <= i < env_vars@.len() ==> is_valid_key((#[trigger] env_vars@[i]).0@),
    ensures
        nodes_view(r@) == applied(parse_text(content@), pairs_view(env_vars@)),
{
    let mut ast = parse(content);
    ast.apply(env_vars);
    ast.nodes
}

/// Parses `content` and removes every entry whose key is in `keys`.
pub fn delete_env_vars(content: &str, keys: &[String]) -> (r: Vec<Node>)
    ensures
        nodes_view(r@) == deleted(parse_text(content@), strings_view(keys@)),
{
    let mut ast = parse(content);
    ast.delete(keys);
    ast.nodes
}

/// Parses `content` and formats it: entries without a value go, comments go
/// too when `prune` holds, and the entries are sorted by key.
pub fn format_env_file(content: &str, prune: bool) -> (r: Vec<Node>)
    ensures
        nodes_view(r@) == formatted(parse_text(content@), prune),
{
    let mut ast = parse(content);
    ast.format(prune);
    ast.nodes
}

/// The text of a document, as it is written back to the file.
pub fn print_env_file_contents(lines: &[Node]) -> (r: String)
    ensures
        r@ == serialize(nodes_view(lines@)),
{
    print_lines(lines)
}

/// The keys of `content` with the value of their last entry.
pub fn parse_env_content(content: &str) -> (r: Vec<(String, String)>)
    ensures
        lists_map(pairs_view(r@), to_map_spec(parse_text(content@))),
{
    parse(content).to_map()
}

/// Index of the first `=` of `a` at or after `i`, or -1.
pub open spec fn first_eq(a: Seq<char>, i: int) -> int
    decreases a.len() - i,
{
    if i < 0 || i >= a.len() {
        -1
    } else if a[i] == '=' {
        i
    } else {
        first_eq(a, i + 1)
    }
}

/// Index of the first argument from `i` on without `=`, or the number of
/// arguments.
pub open spec fn first_bad_arg(vs: Seq<Seq<char>>, i: int) -> int
    decreases vs.len() - i,
{
    if i < 0 || i >= vs.len() {
        vs.len() as int
    } else if first_eq(vs[i], 0) < 0 {
        i
    } else {
        first_bad_arg(vs, i + 1)
    }
}

/// The assignments `KEY=value` of the arguments, split at their first `=`;
/// a later argument for a key wins.
pub open spec fn args_map(vs: Seq<Seq<char>>) -> Map<Seq<char>, Seq<char>>
    decreases vs.len(),
{
    if vs.len() == 0 {
        Map::empty()
    } else {
        let a = vs.last();
        let p = first_eq(a, 0);
        args_map(vs.drop_last()).insert(a.subrange(0, p), a.subrange(p + 1, a.len() as int))
    }
}

pub open spec fn invalid_arg_message(a: Seq<char>) -> Seq<char> {
    "Invalid argument format "@ + a + ". Expected format is KEY=value"@
}

fn find_eq(t: &Vec<char>) -> (r: Option<usize>)
    ensures
        match r {
            Some(p) => first_eq(t@, 0) == p && p < t@.len(),
            None => first_eq(t@, 0) == -1,
        },
{
    let mut i: usize = 0;
    while i < t.len()
        invariant
            i <= t@.len(),
            first_eq(t@, 0) == first_eq(t@, i as int),
        decreases t@.len() - i,
    {
        if t[i] == '=' {
            return Some(i);
        }
        i = i + 1;
    }
    None
}

/// Reads `KEY=value` arguments. Fails on the first argument without `=`.
pub fn parse_args(vars: &[String]) -> (r: Result<Vec<(String, String)>, String>)
    ensures
        match r {
            Ok(ps) => first_bad_arg(strings_view(vars@), 0) == vars@.len() && lists_map(
                pairs_view(ps@),
                args_map(strings_view(vars@)),
            ),
            Err(m) => {
                let b = first_bad_arg(strings_view(vars@), 0);
                b < vars@.len() && m@ == invalid_arg_message(vars@[b]@)
            },
        },
{
    let ghost vs = strings_view(vars@);
    let mut ps: Vec<(String, String)> = Vec::new();
    let mut i: usize = 0;
    proof {
        assert(args_map(vs.subrange(0, 0)) =~= Map::empty());
    }
    while i < vars.len()
        invariant
            i <= vars@.len(),
            vs == strings_view(vars@),
            first_bad_arg(vs, 0) == first_bad_arg(vs, i as int),
            lists_map(pairs_view(ps@), args_map(vs.subrange(0, i as int))),
        decreases vars@.len() - i,
    {
        let t = str_chars(vars[i].as_str());
        assert(vs[i as int] == t@);
        match find_eq(&t) {
            Some(p) => {
                let n = t.len();
                let key = slice_string(&t, 0, p);
                let value = slice_string(&t, p + 1, n);
                proof {
                    let q = vs.subrange(0, i + 1);
                    assert(q.drop_last() == vs.subrange(0, i as int));
                    assert(q.last() == t@);
                }
                map_insert(&mut ps, key, value, Ghost(args_map(vs.subrange(0, i as int))));
            },
            None => {
                let mut m = String::new();
                push_str(&mut m, "Invalid argument format ");
                push_str(&mut m, vars[i].as_str());
                push_str(&mut m, ". Expected format is KEY=value");
                return Err(m);
            },
        }
        i = i + 1;
    }
    assert(vs.subrange(0, vs.len() as int) == vs);
    Ok(ps)
}

} // verus!
