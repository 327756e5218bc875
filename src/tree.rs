//! A snapshot of the filesystem below a starting point, and what a search
//! over it yields.
use vstd::prelude::*;
use crate::pattern::regex_is_match;

verus! {

/// What a path resolved to when the tree was read.
pub enum Node {
    /// A directory, with its entries in the order the filesystem listed
    /// them.
    Dir { path: String, entries: Vec<Node> },
    /// Anything that is not a directory: a regular file, another kind of
    /// node, or, for a starting point, nothing at all. `name` is its base
    /// name, `None` where that is not valid Unicode.
    File { path: String, name: Option<String> },
}

/// The base name of a non-directory is present and matched by `pat`.
pub open spec fn name_matches(pat: Seq<char>, name: Option<String>) -> bool {
    name matches Some(n) && regex_is_match(pat, n@)
}

/// The paths a walk from `n` with `pat` appends: nothing unless `n` is a
/// directory; for a directory, its entries in order, each subdirectory
/// walked in full before the next entry, each other entry kept when its
/// base name matches.
pub open spec fn walk(n: Node, pat: Seq<char>) -> Seq<Seq<char>> {
    match n {
        Node::Dir { entries, .. } => walk_entries(entries@, pat),
        Node::File { .. } => Seq::empty(),
    }
}

/// The paths a walk over the entries `es` of one directory appends.
pub open spec fn walk_entries(es: Seq<Node>, pat: Seq<char>) -> Seq<Seq<char>>
    decreases es,
{
    if es.len() == 0 {
        Seq::empty()
    } else {
        walk_entries(es.drop_last(), pat) + entry_matches(es.last(), pat)
    }
}

/// What one entry of a directory contributes to a walk.
pub open spec fn entry_matches(e: Node, pat: Seq<char>) -> Seq<Seq<char>>
    decreases e,
{
    match e {
        Node::Dir { entries, .. } => walk_entries(entries@, pat),
        Node::File { path, name } => if name_matches(pat, name) {
            seq![path@]
        } else {
            Seq::empty()
        },
    }
}

/// The non-directories below `n`, in the order a walk meets them; none
/// unless `n` is a directory.
pub open spec fn reached(n: Node) -> Seq<Node> {
    match n {
        Node::Dir { entries, .. } => reached_entries(entries@),
        Node::File { .. } => Seq::empty(),
    }
}

/// The non-directories met while walking the entries `es` of a directory.
pub open spec fn reached_entries(es: Seq<Node>) -> Seq<Node>
    decreases es,
{
    if es.len() == 0 {
        Seq::empty()
    } else {
        reached_entries(es.drop_last()) + reached_entry(es.last())
    }
}

/// The non-directories met at one entry of a directory: the entry itself,
/// or everything below it.
pub open spec fn reached_entry(e: Node) -> Seq<Node>
    decreases e,
{
    match e {
        Node::Dir { entries, .. } => reached_entries(entries@),
        Node::File { .. } => seq![e],
    }
}

/// `e` is a non-directory whose base name `pat` matches.
pub open spec fn is_hit(e: Node, pat: Seq<char>) -> bool {
    e matches Node::File { name, .. } && name_matches(pat, name)
}

/// The path of a node.
pub open spec fn path_of(e: Node) -> Seq<char> {
    match e {
        Node::Dir { path, .. } => path@,
        Node::File { path, .. } => path@,
    }
}

/// The paths of the nodes of `fs` that `pat` matches, in order.
pub open spec fn hit_paths(fs: Seq<Node>, pat: Seq<char>) -> Seq<Seq<char>>
    decreases fs.len(),
{
    if fs.len() == 0 {
        Seq::empty()
    } else if is_hit(fs.last(), pat) {
        hit_paths(fs.drop_last(), pat).push(path_of(fs.last()))
    } else {
        hit_paths(fs.drop_last(), pat)
    }
}

/// How many nodes of `fs` are non-directories at path `x` whose base name
/// `pat` matches.
pub open spec fn hits(fs: Seq<Node>, pat: Seq<char>, x: Seq<char>) -> nat
    decreases fs.len(),
{
    if fs.len() == 0 {
        0
    } else {
        hits(fs.drop_last(), pat, x) + if is_hit(fs.last(), pat) && path_of(fs.last()) == x {
            1nat
        } else {
            0nat
        }
    }
}

} // verus!
