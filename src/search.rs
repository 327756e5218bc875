//! Walking snapshot trees with patterns, and searching from several
//! starting points with several patterns.
use vstd::prelude::*;
use vstd::multiset::Multiset;
use crate::order::texts;
use crate::pattern::{sources, Pattern};
use crate::tree::{
    entry_matches, hit_paths, hits, is_hit, path_of, reached, reached_entries, reached_entry, walk,
    walk_entries, Node,
};

verus! {

/// Everything one starting point yields: a walk for each pattern, in the
/// order of the patterns.
pub open spec fn start_matches(s: Node, pats: Seq<Seq<char>>) -> Seq<Seq<char>>
    decreases pats.len(),
{
    if pats.len() == 0 {
        Seq::empty()
    } else {
        start_matches(s, pats.drop_last()) + walk(s, pats.last())
    }
}

/// Everything a search yields: the starting points in order, each with all
/// the patterns in order.
pub open spec fn search(starts: Seq<Node>, pats: Seq<Seq<char>>) -> Seq<Seq<char>>
    decreases starts.len(),
{
    if starts.len() == 0 {
        Seq::empty()
    } else {
        search(starts.drop_last(), pats) + start_matches(starts.last(), pats)
    }
}

/// Appends to `matches` the path of every non-directory below `dir` whose
/// base name `pat` matches, depth first, in the order the entries were
/// listed. A `dir` that is not a directory adds nothing.
pub fn walk_tree(dir: &Node, pat: &Pattern, matches: &mut Vec<String>)
    ensures
        texts(final(matches)@) == texts(old(matches)@) + walk(*dir, pat@),
    decreases dir,
{
    let ghost before = texts(matches@);
    match dir {
        Node::Dir { path, entries } => {
            let mut i: usize = 0;
            while i < entries.len()
                invariant
                    i <= entries@.len(),
                    *dir == (Node::Dir { path: *path, entries: *entries }),
                    texts(matches@) == before + walk_entries(entries@.take(i as int), pat@),
                decreases entries@.len() - i,
            {
                let entry = &entries[i];
                let ghost mid = texts(matches@);
                match entry {
                    Node::Dir { .. } => {
                        proof {
                            vstd::std_specs::vec::axiom_vec_index_decreases(*entries, i as int);
                            assert(decreases_to!(*dir => dir->entries));
                        }
                        walk_tree(entry, pat, matches);
                    },
                    Node::File { path, name } => {
                        if let Some(n) = name {
                            if pat.is_match(n.as_str()) {
                                matches.push(path.clone());
                                assert(texts(matches@) =~= mid + seq![path@]);
                            }
                        }
                    },
                }
                assert(texts(matches@) =~= mid + entry_matches(*entry, pat@));
                assert(entries@.take(i + 1).drop_last() =~= entries@.take(i as int));
                i = i + 1;
            }
            assert(entries@.take(i as int) =~= entries@);
        },
        Node::File { .. } => {
            assert(texts(matches@) =~= before + walk(*dir, pat@));
        },
    }
}

/// Walks every starting point with every pattern, points outer, patterns
/// inner, and gathers all the matches in that order. A path appears once
/// for each starting point and pattern that reach and match it.
pub fn find(stps: &Vec<Node>, pats: &Vec<Pattern>) -> (r: Vec<String>)
    ensures
        texts(r@) == search(stps@, sources(pats@)),
{
    let ghost ps = sources(pats@);
    let mut matches: Vec<String> = Vec::new();
    let mut i: usize = 0;
    while i < stps.len()
        invariant
            i <= stps@.len(),
            ps == sources(pats@),
            texts(matches@) == search(stps@.take(i as int), ps),
        decreases stps@.len() - i,
    {
        let ghost outer = texts(matches@);
        let mut j: usize = 0;
        while j < pats.len()
            invariant
                i < stps@.len(),
                j <= pats@.len(),
                ps == sources(pats@),
                texts(matches@) == outer + start_matches(stps@[i as int], ps.take(j as int)),
            decreases pats@.len() - j,
        {
            walk_tree(&stps[i], &pats[j], &mut matches);
            assert(ps.take(j + 1).drop_last() =~= ps.take(j as int));
            assert(ps[j as int] == pats@[j as int]@);
            j = j + 1;
        }
        assert(ps.take(j as int) =~= ps);
        assert(stps@.take(i + 1).drop_last() =~= stps@.take(i as int));
        i = i + 1;
    }
    assert(stps@.take(i as int) =~= stps@);
    matches
}

/// How many times a search from one starting point counts path `x`: the
/// matching non-directories at `x` below it, summed over the patterns.
pub open spec fn start_hits(s: Node, pats: Seq<Seq<char>>, x: Seq<char>) -> nat
    decreases pats.len(),
{
    if pats.len() == 0 {
        0
    } else {
        start_hits(s, pats.drop_last(), x) + hits(reached(s), pats.last(), x)
    }
}

/// The number of (starting point, pattern) pairs for which path `x` lies
/// below the starting point and its base name matches the pattern, each
/// pair counted once for every node at `x` it reaches.
pub open spec fn pair_count(starts: Seq<Node>, pats: Seq<Seq<char>>, x: Seq<char>) -> nat
    decreases starts.len(),
{
    if starts.len() == 0 {
        0
    } else {
        pair_count(starts.drop_last(), pats, x) + start_hits(starts.last(), pats, x)
    }
}

proof fn lemma_hit_paths_append(a: Seq<Node>, b: Seq<Node>, pat: Seq<char>)
    ensures
        hit_paths(a + b, pat) == hit_paths(a, pat) + hit_paths(b, pat),
    decreases b.len(),
{
    if b.len() == 0 {
        assert(a + b =~= a);
        assert(hit_paths(a, pat) + hit_paths(b, pat) =~= hit_paths(a, pat));
    } else {
        lemma_hit_paths_append(a, b.drop_last(), pat);
        assert((a + b).drop_last() =~= a + b.drop_last());
        assert((a + b).last() == b.last());
        if is_hit(b.last(), pat) {
            assert(hit_paths(a + b, pat) =~= hit_paths(a, pat) + hit_paths(b, pat));
        } else {
            assert(hit_paths(a + b, pat) =~= hit_paths(a, pat) + hit_paths(b, pat));
        }
    }
}

proof fn lemma_walk_entries_hits(es: Seq<Node>, pat: Seq<char>)
    ensures
        walk_entries(es, pat) == hit_paths(reached_entries(es), pat),
    decreases es,
{
    if es.len() > 0 {
        lemma_walk_entries_hits(es.drop_last(), pat);
        lemma_entry_hits(es.last(), pat);
        lemma_hit_paths_append(reached_entries(es.drop_last()), reached_entry(es.last()), pat);
    } else {
        assert(walk_entries(es, pat) =~= hit_paths(reached_entries(es), pat));
    }
}

proof fn lemma_entry_hits(e: Node, pat: Seq<char>)
    ensures
        entry_matches(e, pat) == hit_paths(reached_entry(e), pat),
    decreases e,
{
    match e {
        Node::Dir { entries, .. } => {
            assert(decreases_to!(e => e->entries));
            lemma_walk_entries_hits(entries@, pat);
        },
        Node::File { path, name } => {
            let one = seq![e];
            assert(one.drop_last() =~= Seq::<Node>::empty());
            assert(one.last() == e);
            assert(hit_paths(one.drop_last(), pat) =~= Seq::<Seq<char>>::empty());
            if is_hit(e, pat) {
                assert(hit_paths(one, pat) =~= seq![path@]);
            } else {
                assert(hit_paths(one, pat) =~= Seq::<Seq<char>>::empty());
            }
        },
    }
}

/// A walk yields the paths of the non-directories it reaches whose base
/// names the pattern matches, in the order it reaches them.
pub proof fn lemma_walk_is_hit_paths(n: Node, pat: Seq<char>)
    ensures
        walk(n, pat) == hit_paths(reached(n), pat),
{
    match n {
        Node::Dir { entries, .. } => lemma_walk_entries_hits(entries@, pat),
        Node::File { .. } => {
            assert(walk(n, pat) =~= hit_paths(reached(n), pat));
        },
    }
}

proof fn lemma_hit_paths_count(fs: Seq<Node>, pat: Seq<char>, x: Seq<char>)
    ensures
        hit_paths(fs, pat).to_multiset().count(x) == hits(fs, pat, x),
    decreases fs.len(),
{
    broadcast use vstd::seq_lib::group_to_multiset_ensures, vstd::multiset::group_multiset_axioms;

    if fs.len() == 0 {
        assert(hit_paths(fs, pat).to_multiset() =~= Multiset::empty());
    } else {
        lemma_hit_paths_count(fs.drop_last(), pat, x);
    }
}

proof fn lemma_start_count(s: Node, pats: Seq<Seq<char>>, x: Seq<char>)
    ensures
        start_matches(s, pats).to_multiset().count(x) == start_hits(s, pats, x),
    decreases pats.len(),
{
    broadcast use vstd::seq_lib::group_to_multiset_ensures, vstd::multiset::group_multiset_axioms;

    if pats.len() == 0 {
        assert(start_matches(s, pats).to_multiset() =~= Multiset::empty());
    } else {
        lemma_start_count(s, pats.drop_last(), x);
        lemma_walk_is_hit_paths(s, pats.last());
        lemma_hit_paths_count(reached(s), pats.last(), x);
        vstd::seq_lib::lemma_multiset_commutative(
            start_matches(s, pats.drop_last()),
            walk(s, pats.last()),
        );
    }
}

/// A path occurs in a search's result once for each (starting point,
/// pattern) pair such that the path lies below the starting point and the
/// pattern matches its base name.
pub proof fn lemma_match_count(starts: Seq<Node>, pats: Seq<Seq<char>>, x: Seq<char>)
    ensures
        search(starts, pats).to_multiset().count(x) == pair_count(starts, pats, x),
    decreases starts.len(),
{
    broadcast use vstd::seq_lib::group_to_multiset_ensures, vstd::multiset::group_multiset_axioms;

    if starts.len() == 0 {
        assert(search(starts, pats).to_multiset() =~= Multiset::empty());
    } else {
        lemma_match_count(starts.drop_last(), pats, x);
        lemma_start_count(starts.last(), pats, x);
        vstd::seq_lib::lemma_multiset_commutative(
            search(starts.drop_last(), pats),
            start_matches(starts.last(), pats),
        );
    }
}

proof fn lemma_search_append(a: Seq<Node>, b: Seq<Node>, pats: Seq<Seq<char>>)
    ensures
        search(a + b, pats) == search(a, pats) + search(b, pats),
    decreases b.len(),
{
    if b.len() == 0 {
        assert(a + b =~= a);
        assert(search(a, pats) + search(b, pats) =~= search(a, pats));
    } else {
        lemma_search_append(a, b.drop_last(), pats);
        assert((a + b).drop_last() =~= a + b.drop_last());
        assert((a + b).last() == b.last());
        assert(search(a + b, pats) =~= search(a, pats) + search(b, pats));
    }
}

proof fn lemma_not_dir_adds_nothing(s: Node, pats: Seq<Seq<char>>)
    requires
        s is File,
    ensures
        start_matches(s, pats) == Seq::<Seq<char>>::empty(),
    decreases pats.len(),
{
    if pats.len() > 0 {
        lemma_not_dir_adds_nothing(s, pats.drop_last());
        assert(start_matches(s, pats) =~= Seq::<Seq<char>>::empty());
    }
}

/// A starting point that is not a directory, or does not exist, adds
/// nothing to a search wherever it stands, and the other starting points
/// are searched all the same.
pub proof fn lemma_missing_start(starts: Seq<Node>, pats: Seq<Seq<char>>, i: int)
    requires
        0 <= i < starts.len(),
        starts[i] is File,
    ensures
        search(starts, pats) == search(starts.remove(i), pats),
{
    let front = starts.take(i);
    let back = starts.skip(i + 1);
    let one = seq![starts[i]];
    assert(starts =~= front + one + back);
    assert(starts.remove(i) =~= front + back);
    lemma_search_append(front + one, back, pats);
    lemma_search_append(front, one, pats);
    lemma_search_append(front, back, pats);
    assert(one.drop_last() =~= Seq::<Node>::empty());
    lemma_not_dir_adds_nothing(starts[i], pats);
    assert(one.last() == starts[i]);
    assert(search(one.drop_last(), pats) =~= Seq::<Seq<char>>::empty());
    assert(search(one, pats) =~= Seq::<Seq<char>>::empty());
    assert(search(front, pats) + search(one, pats) =~= search(front, pats));
}

proof fn lemma_no_hits_no_paths(fs: Seq<Node>, pat: Seq<char>)
    requires
        forall|k: int| 0 <= k < fs.len() ==> !is_hit(#[trigger] fs[k], pat),
    ensures
        hit_paths(fs, pat) == Seq::<Seq<char>>::empty(),
    decreases fs.len(),
{
    if fs.len() > 0 {
        assert(!is_hit(fs[fs.len() - 1], pat));
        lemma_no_hits_no_paths(fs.drop_last(), pat);
    }
}

/// Where no pattern matches the base name of any non-directory below any
/// starting point, the search yields an empty result.
pub proof fn lemma_no_hits_empty(starts: Seq<Node>, pats: Seq<Seq<char>>)
    requires
        forall|i: int, j: int, k: int|
            0 <= i < starts.len() && 0 <= j < pats.len() && 0 <= k < reached(starts[i]).len()
                ==> !is_hit(#[trigger] reached(starts[i])[k], #[trigger] pats[j]),
    ensures
        search(starts, pats) == Seq::<Seq<char>>::empty(),
    decreases starts.len(),
{
    if starts.len() > 0 {
        lemma_no_hits_empty(starts.drop_last(), pats);
        let s = starts.last();
        lemma_no_hits_start(s, pats, starts.len() - 1, starts);
        assert(search(starts, pats) =~= Seq::<Seq<char>>::empty());
    }
}

proof fn lemma_no_hits_start(s: Node, pats: Seq<Seq<char>>, i: int, starts: Seq<Node>)
    requires
        0 <= i < starts.len(),
        starts[i] == s,
        forall|i: int, j: int, k: int|
            0 <= i < starts.len() && 0 <= j < pats.len() && 0 <= k < reached(starts[i]).len()
                ==> !is_hit(#[trigger] reached(starts[i])[k], #[trigger] pats[j]),
    ensures
        start_matches(s, pats) == Seq::<Seq<char>>::empty(),
    decreases pats.len(),
{
    if pats.len() > 0 {
        let p = pats.last();
        assert forall|k: int| 0 <= k < reached(s).len() implies !is_hit(#[trigger] reached(s)[k], p) by {
            assert(pats[pats.len() - 1] == p);
        }
        lemma_no_hits_no_paths(reached(s), p);
        lemma_walk_is_hit_paths(s, p);
        assert forall|i: int, j: int, k: int|
            0 <= i < starts.len() && 0 <= j < pats.drop_last().len() && 0 <= k < reached(starts[i]).len()
                implies !is_hit(#[trigger] reached(starts[i])[k], #[trigger] pats.drop_last()[j]) by {
            assert(pats.drop_last()[j] == pats[j]);
        }
        lemma_no_hits_start(s, pats.drop_last(), i, starts);
        assert(start_matches(s, pats) =~= Seq::<Seq<char>>::empty());
    }
}

proof fn lemma_hits_remove(b: Seq<Node>, pat: Seq<char>, x: Seq<char>, k: int)
    requires
        0 <= k < b.len(),
    ensures
        hits(b, pat, x) == hits(b.remove(k), pat, x) + if is_hit(b[k], pat) && path_of(b[k]) == x {
            1nat
        } else {
            0nat
        },
    decreases b.len(),
{
    if k == b.len() - 1 {
        assert(b.remove(k) =~= b.drop_last());
    } else {
        assert(b.remove(k).drop_last() =~= b.drop_last().remove(k));
        assert(b.remove(k).last() == b.last());
        lemma_hits_remove(b.drop_last(), pat, x, k);
    }
}

proof fn lemma_hits_permutation(a: Seq<Node>, b: Seq<Node>, pat: Seq<char>, x: Seq<char>)
    requires
        a.to_multiset() == b.to_multiset(),
    ensures
        hits(a, pat, x) == hits(b, pat, x),
    decreases a.len(),
{
    broadcast use vstd::seq_lib::group_to_multiset_ensures, vstd::multiset::group_multiset_axioms;

    if a.len() == 0 {
        assert(b.to_multiset().len() == 0);
    } else {
        let e = a.last();
        let rest = a.drop_last();
        assert(a =~= rest.push(e));
        assert(a.to_multiset().count(e) > 0);
        assert(b.contains(e));
        let k = choose|k: int| 0 <= k < b.len() && b[k] == e;
        assert(rest.to_multiset() =~= b.remove(k).to_multiset());
        lemma_hits_permutation(rest, b.remove(k), pat, x);
        lemma_hits_remove(b, pat, x, k);
    }
}

proof fn lemma_start_hits_permutation(s1: Node, s2: Node, pats: Seq<Seq<char>>, x: Seq<char>)
    requires
        reached(s1).to_multiset() == reached(s2).to_multiset(),
    ensures
        start_hits(s1, pats, x) == start_hits(s2, pats, x),
    decreases pats.len(),
{
    if pats.len() > 0 {
        lemma_start_hits_permutation(s1, s2, pats.drop_last(), x);
        lemma_hits_permutation(reached(s1), reached(s2), pats.last(), x);
    }
}

proof fn lemma_pair_count_permutation(
    s1: Seq<Node>,
    s2: Seq<Node>,
    pats: Seq<Seq<char>>,
    x: Seq<char>,
)
    requires
        s1.len() == s2.len(),
        forall|i: int|
            0 <= i < s1.len() ==> #[trigger] reached(s1[i]).to_multiset() == reached(
                s2[i],
            ).to_multiset(),
    ensures
        pair_count(s1, pats, x) == pair_count(s2, pats, x),
    decreases s1.len(),
{
    if s1.len() > 0 {
        let n = s1.len() - 1;
        assert(reached(s1[n]).to_multiset() == reached(s2[n]).to_multiset());
        assert forall|i: int| 0 <= i < s1.drop_last().len() implies #[trigger] reached(
            s1.drop_last()[i],
        ).to_multiset() == reached(s2.drop_last()[i]).to_multiset() by {
            assert(s1.drop_last()[i] == s1[i]);
            assert(s2.drop_last()[i] == s2[i]);
            assert(reached(s1[i]).to_multiset() == reached(s2[i]).to_multiset());
        }
        lemma_pair_count_permutation(s1.drop_last(), s2.drop_last(), pats, x);
        lemma_start_hits_permutation(s1.last(), s2.last(), pats, x);
    }
}

/// Re-running a search over the same files gives the same multiset of
/// matches, whatever order the directories list their entries in: the
/// result depends only on which non-directories each starting point
/// reaches.
pub proof fn lemma_order_independent(s1: Seq<Node>, s2: Seq<Node>, pats: Seq<Seq<char>>)
    requires
        s1.len() == s2.len(),
        forall|i: int|
            0 <= i < s1.len() ==> #[trigger] reached(s1[i]).to_multiset() == reached(
                s2[i],
            ).to_multiset(),
    ensures
        search(s1, pats).to_multiset() == search(s2, pats).to_multiset(),
{
    assert forall|x: Seq<char>|
        search(s1, pats).to_multiset().count(x) == search(s2, pats).to_multiset().count(x) by {
        lemma_match_count(s1, pats, x);
        lemma_match_count(s2, pats, x);
        lemma_pair_count_permutation(s1, s2, pats, x);
    }
    assert(search(s1, pats).to_multiset() =~= search(s2, pats).to_multiset());
}

} // verus!
