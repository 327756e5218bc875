use regex_find::dedup::{sort_unique, unique};
use regex_find::pattern::Pattern;
use regex_find::search::{find, walk_tree};
use regex_find::tree::Node;

fn file(path: &str, name: &str) -> Node {
    Node::File { path: path.to_string(), name: Some(name.to_string()) }
}

fn dir(path: &str, entries: Vec<Node>) -> Node {
    Node::Dir { path: path.to_string(), entries }
}

fn sub_tree() -> Node {
    dir("root/sub", vec![file("root/sub/b.txt", "b.txt"), file("root/sub/a.txt", "a.txt")])
}

fn root_tree() -> Node {
    dir("root", vec![file("root/a.txt", "a.txt"), sub_tree()])
}

fn pattern(expr: &str) -> Pattern {
    match Pattern::new(expr) {
        Ok(p) => p,
        Err(e) => panic!("{}: {}", e.expr, e.message),
    }
}

fn strings(v: &[&str]) -> Vec<String> {
    v.iter().map(|s| s.to_string()).collect()
}

#[test]
fn one_start_finds_both_files_named_a() {
    let r = find(&vec![root_tree()], &vec![pattern(r"^a\..*$")]);
    assert_eq!(r, strings(&["root/a.txt", "root/sub/a.txt"]));
}

#[test]
fn overlapping_starts_count_twice_until_dedup() {
    let r = find(&vec![root_tree(), sub_tree()], &vec![pattern(r"^a\..*$")]);
    assert_eq!(r, strings(&["root/a.txt", "root/sub/a.txt", "root/sub/a.txt"]));
    assert_eq!(r.iter().filter(|s| s.as_str() == "root/sub/a.txt").count(), 2);
    let u = sort_unique(r);
    assert_eq!(u, strings(&["root/a.txt", "root/sub/a.txt"]));
}

#[test]
fn two_patterns_matching_one_file_count_twice() {
    let r = find(&vec![root_tree()], &vec![pattern("txt$"), pattern("^b")]);
    assert_eq!(
        r,
        strings(&["root/a.txt", "root/sub/b.txt", "root/sub/a.txt", "root/sub/b.txt"])
    );
}

#[test]
fn pattern_tests_base_name_only() {
    let r = find(&vec![root_tree()], &vec![pattern("sub")]);
    assert!(r.is_empty());
}

#[test]
fn missing_start_adds_nothing() {
    let missing = Node::File { path: "nowhere".to_string(), name: Some("nowhere".to_string()) };
    let r = find(&vec![missing, root_tree()], &vec![pattern(r"^a\..*$")]);
    assert_eq!(r, strings(&["root/a.txt", "root/sub/a.txt"]));
}

#[test]
fn start_that_is_a_file_adds_nothing_even_when_it_matches() {
    let r = find(&vec![file("a.txt", "a.txt")], &vec![pattern("a")]);
    assert!(r.is_empty());
}

#[test]
fn directory_without_matches_gives_empty_result() {
    let r = find(&vec![root_tree()], &vec![pattern(r"\.rs$")]);
    assert!(r.is_empty());
    let empty = find(&vec![dir("empty", vec![])], &vec![pattern(".*")]);
    assert!(empty.is_empty());
}

#[test]
fn name_that_is_not_unicode_is_skipped() {
    let t = dir("d", vec![Node::File { path: "d/x".to_string(), name: None }, file("d/y", "y")]);
    let r = find(&vec![t], &vec![pattern(".*")]);
    assert_eq!(r, strings(&["d/y"]));
}

#[test]
fn walk_appends_after_existing_matches() {
    let mut out = strings(&["earlier"]);
    walk_tree(&root_tree(), &pattern("b"), &mut out);
    assert_eq!(out, strings(&["earlier", "root/sub/b.txt"]));
}

#[test]
fn walk_goes_depth_first_in_listing_order() {
    let t = dir(
        "r",
        vec![
            file("r/x1", "x1"),
            dir("r/d", vec![file("r/d/x2", "x2"), dir("r/d/e", vec![file("r/d/e/x3", "x3")])]),
            file("r/x4", "x4"),
        ],
    );
    let r = find(&vec![t], &vec![pattern("^x")]);
    assert_eq!(r, strings(&["r/x1", "r/d/x2", "r/d/e/x3", "r/x4"]));
}

#[test]
fn invalid_expression_is_refused() {
    match Pattern::new("a(") {
        Ok(_) => panic!("an unbalanced group compiled"),
        Err(e) => {
            assert_eq!(e.expr, "a(");
            assert!(!e.message.is_empty());
        }
    }
}

#[test]
fn pattern_keeps_its_expression() {
    assert_eq!(pattern(r"^a\.").as_str(), r"^a\.");
}

#[test]
fn unique_collapses_runs() {
    assert_eq!(unique(strings(&["a", "a", "b", "c", "c", "c"])), strings(&["a", "b", "c"]));
    assert_eq!(unique(strings(&["a", "b", "a"])), strings(&["a", "b", "a"]));
}

#[test]
fn unique_of_empty_and_single() {
    assert!(unique(Vec::new()).is_empty());
    assert_eq!(unique(strings(&["only"])), strings(&["only"]));
}

#[test]
fn unique_leaves_sorted_distinct_input_alone() {
    let s = strings(&["a", "b/c", "b/d", "z"]);
    assert_eq!(unique(s.clone()), s);
}

#[test]
fn sort_unique_sorts_and_drops_duplicates() {
    let r = sort_unique(strings(&["b", "a", "c", "a", "b"]));
    assert_eq!(r, strings(&["a", "b", "c"]));
}

#[test]
fn sort_unique_is_idempotent() {
    let once = sort_unique(strings(&["x/2", "x/10", "x/2", "a", "é", "z"]));
    assert_eq!(once, strings(&["a", "x/10", "x/2", "z", "é"]));
    let twice = sort_unique(once.clone());
    assert_eq!(twice, once);
}

#[test]
fn sort_unique_of_empty() {
    assert!(sort_unique(Vec::new()).is_empty());
}
