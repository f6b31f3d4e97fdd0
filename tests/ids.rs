use rust_physics::ids::{index_of, resolve, resolve_all, EdgeEnds};

fn names(v: &[&str]) -> Vec<String> {
    v.iter().map(|s| s.to_string()).collect()
}

fn edge(s: &str, t: &str) -> EdgeEnds {
    EdgeEnds { source: s.to_string(), target: t.to_string() }
}

#[test]
fn index_of_finds_each_node() {
    let ids = names(&["a", "b", "c"]);
    assert_eq!(index_of(&ids, &"a".to_string()), Some(0));
    assert_eq!(index_of(&ids, &"c".to_string()), Some(2));
    assert_eq!(index_of(&ids, &"z".to_string()), None);
}

#[test]
fn index_of_repeated_id_takes_last() {
    let ids = names(&["a", "b", "a"]);
    assert_eq!(index_of(&ids, &"a".to_string()), Some(2));
}

#[test]
fn index_of_empty_set() {
    let ids: Vec<String> = Vec::new();
    assert_eq!(index_of(&ids, &"a".to_string()), None);
}

#[test]
fn resolve_known_edge() {
    let ids = names(&["a", "b"]);
    assert_eq!(resolve(&ids, &edge("a", "b")), Some((0, 1)));
    assert_eq!(resolve(&ids, &edge("b", "a")), Some((1, 0)));
}

#[test]
fn dangling_edge_resolves_to_nothing() {
    let ids = names(&["a", "b"]);
    assert_eq!(resolve(&ids, &edge("a", "ghost")), None);
    assert_eq!(resolve(&ids, &edge("ghost", "b")), None);
}

#[test]
fn resolve_all_keeps_order_and_skips_dangling() {
    let ids = names(&["a", "b", "c"]);
    let edges = vec![edge("a", "b"), edge("x", "c"), edge("c", "a")];
    assert_eq!(resolve_all(&ids, &edges), vec![Some((0, 1)), None, Some((2, 0))]);
}
