//! Collapsing runs of equal neighbours, and the sorted, duplicate-free form
//! of a list of matches.
use vstd::prelude::*;
use crate::order::{
    lemma_lex_le_lt_transitive, lemma_lex_lt_asymmetric, lemma_lex_lt_irreflexive, lex_le, lex_lt,
    sorted, strictly_sorted, texts,
};

verus! {

/// Position `i` of `s` is the last of its run of equal neighbours.
pub open spec fn ends_run(s: Seq<Seq<char>>, i: int) -> bool {
    i == s.len() - 1 || s[i] != s[i + 1]
}

/// The elements among the first `n` of `s` that end a run, in order.
pub open spec fn run_ends(s: Seq<Seq<char>>, n: int) -> Seq<Seq<char>>
    decreases n,
{
    if n <= 0 {
        Seq::empty()
    } else if ends_run(s, n - 1) {
        run_ends(s, n - 1).push(s[n - 1])
    } else {
        run_ends(s, n - 1)
    }
}

/// `s` with each run of equal neighbours collapsed to one element.
pub open spec fn collapse_runs(s: Seq<Seq<char>>) -> Seq<Seq<char>> {
    run_ends(s, s.len() as int)
}

/// Keeps each element that differs from its successor, and the last one:
/// each run of equal neighbours becomes one element. On a sorted list this
/// drops every duplicate.
pub fn unique(arr: Vec<String>) -> (r: Vec<String>)
    ensures
        texts(r@) == collapse_runs(texts(arr@)),
{
    let mut arr_new: Vec<String> = Vec::new();
    let mut idx: usize = 0;
    let sz: usize = arr.len();
    while idx < sz
        invariant
            sz == arr@.len(),
            idx <= sz,
            texts(arr_new@) == run_ends(texts(arr@), idx as int),
        decreases sz - idx,
    {
        if idx == sz - 1 || arr[idx] != arr[idx + 1] {
            arr_new.push(arr[idx].clone());
            assert(texts(arr_new@) =~= run_ends(texts(arr@), idx as int).push(arr@[idx as int]@));
        }
        idx = idx + 1;
    }
    arr_new
}

/// Relies on `slice::sort` of std: it permutes the strings so that they
/// ascend by `Ord for String`, which compares the bytes lexicographically
/// (for UTF-8 text the same as comparing code points).
#[verifier::external_body]
fn sort_strings(v: &mut Vec<String>)
    ensures
        final(v)@.len() == old(v)@.len(),
        texts(final(v)@).to_multiset() == texts(old(v)@).to_multiset(),
        sorted(texts(final(v)@)),
{
    v.sort();
}

/// Sorts the matches and drops every duplicate: the result holds each
/// distinct string of `matches` exactly once, in ascending order.
pub fn sort_unique(matches: Vec<String>) -> (r: Vec<String>)
    ensures
        strictly_sorted(texts(r@)),
        texts(r@).to_set() == texts(matches@).to_set(),
{
    let mut matches = matches;
    let ghost before = texts(matches@);
    sort_strings(&mut matches);
    let ghost after = texts(matches@);
    let r = unique(matches);
    proof {
        lemma_same_multiset_same_set(before, after);
        lemma_run_ends_members(after, after.len() as int);
        lemma_run_ends_sorted(after, after.len() as int);
        assert(texts(r@).to_set() =~= after.to_set());
    }
    r
}

proof fn lemma_same_multiset_same_set(a: Seq<Seq<char>>, b: Seq<Seq<char>>)
    requires
        a.to_multiset() == b.to_multiset(),
    ensures
        a.to_set() == b.to_set(),
{
    assert forall|x: Seq<char>| a.contains(x) == b.contains(x) by {
        a.to_multiset_ensures();
        b.to_multiset_ensures();
        assert(a.contains(x) == (a.to_multiset().count(x) > 0));
        assert(b.contains(x) == (b.to_multiset().count(x) > 0));
    }
    assert(a.to_set() =~= b.to_set());
}

/// What ends a run is an element of `s`, and each of the first `n` elements
/// is kept or equals element `n`.
proof fn lemma_run_ends_members(s: Seq<Seq<char>>, n: int)
    requires
        0 <= n <= s.len(),
    ensures
        forall|x: Seq<char>| #[trigger] run_ends(s, n).contains(x) ==> s.contains(x),
        forall|i: int|
            0 <= i < n ==> run_ends(s, n).contains(#[trigger] s[i]) || (n < s.len() && s[i]
                == s[n]),
        n == s.len() ==> collapse_runs(s).to_set() == s.to_set(),
    decreases n,
{
    if n > 0 {
        lemma_run_ends_members(s, n - 1);
        let p = run_ends(s, n - 1);
        if ends_run(s, n - 1) {
            assert(run_ends(s, n) == p.push(s[n - 1]));
            assert(run_ends(s, n).contains(s[n - 1]) ) by {
                assert(run_ends(s, n)[p.len() as int] == s[n - 1]);
            }
            assert forall|x: Seq<char>| #[trigger] run_ends(s, n).contains(x) implies s.contains(x) by {
                if p.contains(x) {
                } else {
                    assert(x == s[n - 1]);
                }
            }
            assert forall|i: int| 0 <= i < n implies run_ends(s, n).contains(#[trigger] s[i]) || (n < s.len() && s[i] == s[n]) by {
                if p.contains(s[i]) {
                    let k = choose|k: int| 0 <= k < p.len() && p[k] == s[i];
                    assert(run_ends(s, n)[k] == s[i]);
                }
            }
        }
    }
    if n == s.len() {
        assert forall|x: Seq<char>| collapse_runs(s).to_set().contains(x) == s.to_set().contains(x) by {
            if s.contains(x) {
                let i = choose|i: int| 0 <= i < s.len() && s[i] == x;
                assert(run_ends(s, n).contains(s[i]));
            }
        }
        assert(collapse_runs(s).to_set() =~= s.to_set());
    }
}

/// On a sorted `s` the run ends ascend strictly, and each comes before every
/// element of `s` from position `n` on.
proof fn lemma_run_ends_sorted(s: Seq<Seq<char>>, n: int)
    requires
        0 <= n <= s.len(),
        sorted(s),
    ensures
        strictly_sorted(run_ends(s, n)),
        forall|k: int, j: int|
            0 <= k < run_ends(s, n).len() && n <= j < s.len() ==> lex_lt(
                #[trigger] run_ends(s, n)[k],
                #[trigger] s[j],
            ),
    decreases n,
{
    if n > 0 {
        lemma_run_ends_sorted(s, n - 1);
        let p = run_ends(s, n - 1);
        if ends_run(s, n - 1) {
            let q = p.push(s[n - 1]);
            assert(run_ends(s, n) == q);
            assert forall|j: int| n <= j < s.len() implies lex_lt(s[n - 1], #[trigger] s[j]) by {
                assert(lex_le(s[n - 1], s[n]));
                assert(lex_le(s[n], s[j]));
                lemma_lex_le_lt_transitive(s[n - 1], s[n], s[j]);
            }
            assert forall|k: int, j: int|
                0 <= k < q.len() && n <= j < s.len() implies lex_lt(#[trigger] q[k], #[trigger] s[j]) by {
                if k < p.len() {
                    assert(lex_lt(p[k], s[j]));
                }
            }
            assert forall|i: int, j: int| 0 <= i < j < q.len() implies lex_lt(#[trigger] q[i], #[trigger] q[j]) by {
                if j < p.len() {
                    assert(lex_lt(p[i], p[j]));
                } else {
                    assert(lex_lt(p[i], s[n - 1]));
                }
            }
        }
    }
}

/// Two strictly ascending sequences with the same elements are equal.
pub proof fn lemma_strictly_sorted_determined(a: Seq<Seq<char>>, b: Seq<Seq<char>>)
    requires
        strictly_sorted(a),
        strictly_sorted(b),
        a.to_set() == b.to_set(),
    ensures
        a == b,
    decreases a.len(),
{
    if a.len() == 0 {
        if b.len() > 0 {
            assert(b.to_set().contains(b[0]));
        }
        assert(a =~= b);
    } else {
        assert(a.to_set().contains(a[0]));
        assert(b.len() > 0);
        assert(b.to_set().contains(b[0]));
        let k = choose|k: int| 0 <= k < b.len() && b[k] == a[0];
        let m = choose|m: int| 0 <= m < a.len() && a[m] == b[0];
        if k > 0 && m > 0 {
            assert(lex_lt(b[0], b[k]));
            assert(lex_lt(a[0], a[m]));
            lemma_lex_lt_asymmetric(a[0], b[0]);
        } else if k > 0 {
            assert(lex_lt(b[0], b[k]));
            lemma_lex_lt_irreflexive(a[0]);
        } else if m > 0 {
            assert(lex_lt(a[0], a[m]));
            lemma_lex_lt_irreflexive(a[0]);
        }
        assert(a[0] == b[0]);
        let a1 = a.drop_first();
        let b1 = b.drop_first();
        assert forall|x: Seq<char>| a1.to_set().contains(x) == b1.to_set().contains(x) by {
            if a1.contains(x) {
                let i = choose|i: int| 0 <= i < a1.len() && a1[i] == x;
                assert(a.contains(x)) by { assert(a[i + 1] == x); }
                assert(b.to_set().contains(x));
                let j = choose|j: int| 0 <= j < b.len() && b[j] == x;
                assert(lex_lt(a[0], a[i + 1]));
                if j == 0 {
                    lemma_lex_lt_irreflexive(x);
                }
                assert(b1[j - 1] == x);
            }
            if b1.contains(x) {
                let i = choose|i: int| 0 <= i < b1.len() && b1[i] == x;
                assert(b.contains(x)) by { assert(b[i + 1] == x); }
                assert(a.to_set().contains(x));
                let j = choose|j: int| 0 <= j < a.len() && a[j] == x;
                assert(lex_lt(b[0], b[i + 1]));
                if j == 0 {
                    lemma_lex_lt_irreflexive(x);
                }
                assert(a1[j - 1] == x);
            }
        }
        assert(a1.to_set() =~= b1.to_set());
        lemma_strictly_sorted_determined(a1, b1);
        assert(a =~= seq![a[0]] + a1);
        assert(b =~= seq![b[0]] + b1);
    }
}

/// What `sort_unique` returns holds each distinct match exactly once, and
/// it is fixed by the set of matches alone: running `sort_unique` again on
/// its own result gives that result back.
pub proof fn lemma_sort_unique_idempotent(
    matches: Seq<Seq<char>>,
    once: Seq<Seq<char>>,
    twice: Seq<Seq<char>>,
)
    requires
        strictly_sorted(once),
        once.to_set() == matches.to_set(),
        strictly_sorted(twice),
        twice.to_set() == once.to_set(),
    ensures
        once.no_duplicates(),
        forall|x: Seq<char>| #[trigger] once.contains(x) <==> matches.contains(x),
        twice == once,
{
    lemma_strictly_sorted_determined(twice, once);
    assert forall|i: int, j: int| 0 <= i < once.len() && 0 <= j < once.len() && i != j implies once[i]
        != once[j] by {
        if i < j {
            assert(lex_lt(once[i], once[j]));
            lemma_lex_lt_irreflexive(once[i]);
        } else {
            assert(lex_lt(once[j], once[i]));
            lemma_lex_lt_irreflexive(once[i]);
        }
    }
    assert forall|x: Seq<char>| #[trigger] once.contains(x) <==> matches.contains(x) by {
        assert(once.to_set().contains(x) == once.contains(x));
        assert(matches.to_set().contains(x) == matches.contains(x));
    }
}

/// Collapsing runs leaves an already sorted, duplicate-free sequence as it
/// is.
pub proof fn lemma_unique_noop(s: Seq<Seq<char>>)
    requires
        strictly_sorted(s),
    ensures
        collapse_runs(s) == s,
{
    lemma_run_ends_prefix(s, s.len() as int);
    assert(s.take(s.len() as int) =~= s);
}

proof fn lemma_run_ends_prefix(s: Seq<Seq<char>>, n: int)
    requires
        strictly_sorted(s),
        0 <= n <= s.len(),
    ensures
        run_ends(s, n) == s.take(n),
    decreases n,
{
    if n > 0 {
        lemma_run_ends_prefix(s, n - 1);
        if n < s.len() {
            assert(lex_lt(s[n - 1], s[n]));
            lemma_lex_lt_irreflexive(s[n - 1]);
        }
        assert(ends_run(s, n - 1));
        assert(s.take(n) =~= s.take(n - 1).push(s[n - 1]));
    }
}

} // verus!
