//! Maps from names.

use mini_linear::ast::Span;
use mini_linear::names::NameMap;

fn map_of(entries: &[(&str, usize)]) -> NameMap<Span> {
    let mut map = NameMap::new();
    for (name, at) in entries {
        map.insert(name.to_string(), Span::new(*at, *at + 1));
    }
    map
}

fn start_of(map: &NameMap<Span>, name: &str) -> Option<usize> {
    map.get(name).map(|span| span.start)
}

#[test]
fn a_new_map_is_empty() {
    let map: NameMap<Span> = NameMap::new();
    assert!(map.is_empty());
    assert_eq!(map.len(), 0);
    assert!(!map.contains_key("x"));
    assert_eq!(start_of(&map, "x"), None);
}

#[test]
fn a_later_binding_replaces_an_earlier_one() {
    let map = map_of(&[("x", 1), ("y", 2), ("x", 3)]);
    assert_eq!(map.len(), 2);
    assert!(!map.is_empty());
    assert_eq!(start_of(&map, "x"), Some(3));
    assert_eq!(start_of(&map, "y"), Some(2));
}

#[test]
fn a_removed_name_is_gone() {
    let mut map = map_of(&[("b", 1), ("a", 2), ("c", 3)]);
    map.remove("b");
    map.remove("missing");
    assert_eq!(map.len(), 2);
    assert!(!map.contains_key("b"));
    assert_eq!(start_of(&map, "a"), Some(2));
    assert_eq!(start_of(&map, "c"), Some(3));
}

#[test]
fn keep_first_prefers_what_is_there() {
    let merged = map_of(&[("a", 1), ("b", 2)]).keep_first(map_of(&[("b", 3), ("c", 4)]));
    assert_eq!(merged.len(), 3);
    assert_eq!(start_of(&merged, "a"), Some(1));
    assert_eq!(start_of(&merged, "b"), Some(2));
    assert_eq!(start_of(&merged, "c"), Some(4));
}

#[test]
fn without_forgets_the_names_of_the_other() {
    let rest = map_of(&[("a", 1), ("b", 2), ("c", 3)]).without(&map_of(&[("c", 9), ("a", 9)]));
    assert_eq!(rest.len(), 1);
    assert_eq!(start_of(&rest, "b"), Some(2));
}

#[test]
fn the_first_common_name_is_the_least_by_bytes() {
    let a = map_of(&[("z", 1), ("ab", 2), ("a_", 3), ("B", 4)]);
    let b = map_of(&[("z", 5), ("ab", 6), ("a_", 7)]);
    assert_eq!(a.first_common(&b), Some("a_"));
    assert_eq!(b.first_common(&a), Some("a_"));
    assert_eq!(a.first_common(&map_of(&[("ab", 8), ("B", 9)])), Some("B"));
    assert_eq!(a.first_common(&map_of(&[("a", 8)])), None);
}
