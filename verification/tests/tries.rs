use structfs::path::Path;
use structfs::path_trie::{PathTrie, PathTrieIter};

fn p(s: &str) -> Path {
    Path::parse(s).unwrap()
}

#[test]
fn new_trie_is_empty() {
    let trie: PathTrie<i32> = PathTrie::new();
    assert!(trie.is_empty());
    assert_eq!(trie.len(), 0);
}

#[test]
fn insert_and_get() {
    let mut trie: PathTrie<i32> = PathTrie::new();
    trie.insert(&p("a/b"), 42);
    assert_eq!(trie.get(&p("a/b")), Some(&42));
    assert_eq!(trie.get(&p("a")), None);
    assert_eq!(trie.get(&p("a/b/c")), None);
}

#[test]
fn insert_returns_previous() {
    let mut trie: PathTrie<i32> = PathTrie::new();
    assert_eq!(trie.insert(&p("a"), 1), None);
    assert_eq!(trie.insert(&p("a"), 2), Some(1));
    assert_eq!(trie.get(&p("a")), Some(&2));
}

#[test]
fn remove_returns_value() {
    let mut trie: PathTrie<i32> = PathTrie::new();
    trie.insert(&p("a/b"), 42);
    assert_eq!(trie.remove(&p("a/b")), Some(42));
    assert_eq!(trie.get(&p("a/b")), None);
}

#[test]
fn remove_keeps_children() {
    let mut trie: PathTrie<i32> = PathTrie::new();
    trie.insert(&p("a"), 1);
    trie.insert(&p("a/b"), 2);
    trie.remove(&p("a"));
    assert_eq!(trie.get(&p("a")), None);
    assert_eq!(trie.get(&p("a/b")), Some(&2));
}

#[test]
fn remove_subtree() {
    let mut trie: PathTrie<i32> = PathTrie::new();
    trie.insert(&p("a"), 1);
    trie.insert(&p("a/b"), 2);
    trie.insert(&p("c"), 3);
    let subtree = trie.remove_subtree(&p("a")).unwrap();
    assert_eq!(subtree.get(&p("")), Some(&1));
    assert_eq!(subtree.get(&p("b")), Some(&2));
    assert_eq!(trie.get(&p("a")), None);
    assert_eq!(trie.get(&p("a/b")), None);
    assert_eq!(trie.get(&p("c")), Some(&3));
}

#[test]
fn remove_subtree_at_root() {
    let mut trie: PathTrie<i32> = PathTrie::new();
    trie.insert(&p("a"), 1);
    trie.insert(&p("b"), 2);
    let subtree = trie.remove_subtree(&p("")).unwrap();
    assert!(trie.is_empty());
    assert_eq!(subtree.get(&p("a")), Some(&1));
    assert_eq!(subtree.get(&p("b")), Some(&2));
}

#[test]
fn remove_subtree_nonexistent() {
    let mut trie: PathTrie<i32> = PathTrie::new();
    trie.insert(&p("a"), 1);
    assert!(trie.remove_subtree(&p("nonexistent")).is_none());
}

#[test]
fn contains_value() {
    let mut trie: PathTrie<i32> = PathTrie::new();
    trie.insert(&p("a/b"), 1);
    assert!(trie.contains_value(&p("a/b")));
    assert!(!trie.contains_value(&p("a")));
    assert!(!trie.contains_value(&p("nonexistent")));
}

#[test]
fn len_and_is_empty() {
    let mut trie: PathTrie<i32> = PathTrie::new();
    assert!(trie.is_empty());
    assert_eq!(trie.len(), 0);
    trie.insert(&p("a"), 1);
    assert!(!trie.is_empty());
    assert_eq!(trie.len(), 1);
    trie.insert(&p("a/b"), 2);
    assert_eq!(trie.len(), 2);
    trie.insert(&p("c"), 3);
    assert_eq!(trie.len(), 3);
}

#[test]
fn find_ancestor_basic() {
    let mut trie: PathTrie<&str> = PathTrie::new();
    trie.insert(&p("data"), "data_store");
    let (value, suffix) = trie.find_ancestor(&p("data/users/1")).unwrap();
    assert_eq!(*value, "data_store");
    assert_eq!(suffix, p("users/1"));
}

#[test]
fn find_ancestor_deeper_wins() {
    let mut trie: PathTrie<&str> = PathTrie::new();
    trie.insert(&p("data"), "data_store");
    trie.insert(&p("data/cache"), "cache_store");
    let (value, suffix) = trie.find_ancestor(&p("data/cache/hot")).unwrap();
    assert_eq!(*value, "cache_store");
    assert_eq!(suffix, p("hot"));
    let (value, suffix) = trie.find_ancestor(&p("data/users/1")).unwrap();
    assert_eq!(*value, "data_store");
    assert_eq!(suffix, p("users/1"));
}

#[test]
fn find_ancestor_at_root() {
    let mut trie: PathTrie<&str> = PathTrie::new();
    trie.insert(&p(""), "root_store");
    let (value, suffix) = trie.find_ancestor(&p("any/path")).unwrap();
    assert_eq!(*value, "root_store");
    assert_eq!(suffix, p("any/path"));
}

#[test]
fn find_ancestor_no_match() {
    let mut trie: PathTrie<&str> = PathTrie::new();
    trie.insert(&p("data"), "data_store");
    assert!(trie.find_ancestor(&p("other/path")).is_none());
}

#[test]
fn find_ancestor_exact_match() {
    let mut trie: PathTrie<&str> = PathTrie::new();
    trie.insert(&p("data"), "data_store");
    let (value, suffix) = trie.find_ancestor(&p("data")).unwrap();
    assert_eq!(*value, "data_store");
    assert!(suffix.is_empty());
}

#[test]
fn iter_all_values() {
    let mut trie: PathTrie<i32> = PathTrie::new();
    trie.insert(&p("a"), 1);
    trie.insert(&p("b"), 2);
    trie.insert(&p("a/c"), 3);
    let mut items: Vec<_> = trie.iter();
    items.sort_by(|a, b| a.0.to_string().cmp(&b.0.to_string()));
    assert_eq!(items.len(), 3);
    assert_eq!(items[0], (p("a"), &1));
    assert_eq!(items[1], (p("a/c"), &3));
    assert_eq!(items[2], (p("b"), &2));
}

#[test]
fn iter_empty() {
    let trie: PathTrie<i32> = PathTrie::new();
    assert_eq!(trie.iter().len(), 0);
}

#[test]
fn iter_root_value() {
    let mut trie: PathTrie<i32> = PathTrie::new();
    trie.insert(&p(""), 42);
    let items: Vec<_> = trie.iter();
    assert_eq!(items.len(), 1);
    assert_eq!(items[0], (p(""), &42));
}

#[test]
fn get_subtrie() {
    let mut trie: PathTrie<i32> = PathTrie::new();
    trie.insert(&p("a/b"), 1);
    trie.insert(&p("a/c"), 2);
    let subtrie = trie.get_subtrie(&p("a")).unwrap();
    assert_eq!(subtrie.get(&p("b")), Some(&1));
    assert_eq!(subtrie.get(&p("c")), Some(&2));
}

#[test]
fn get_subtrie_nonexistent() {
    let trie: PathTrie<i32> = PathTrie::new();
    assert!(trie.get_subtrie(&p("nonexistent")).is_none());
}

#[test]
fn clone_trie() {
    let mut trie: PathTrie<i32> = PathTrie::new();
    trie.insert(&p("a"), 1);
    let cloned = trie.clone();
    assert_eq!(cloned.get(&p("a")), Some(&1));
}

#[test]
fn default_trie() {
    let trie: PathTrie<i32> = PathTrie::default();
    assert!(trie.is_empty());
}

#[test]
fn debug_trie() {
    let mut trie: PathTrie<i32> = PathTrie::new();
    trie.insert(&p("a"), 1);
    let debug = format!("{:?}", trie);
    assert!(debug.contains("PathTrie"));
}

#[test]
fn insert_at_root() {
    let mut trie: PathTrie<i32> = PathTrie::new();
    trie.insert(&p(""), 42);
    assert_eq!(trie.get(&p("")), Some(&42));
    assert_eq!(trie.len(), 1);
}

#[test]
fn remove_at_root() {
    let mut trie: PathTrie<i32> = PathTrie::new();
    trie.insert(&p(""), 42);
    assert_eq!(trie.remove(&p("")), Some(42));
    assert!(trie.is_empty());
}

#[test]
fn remove_subtree_empty_trie() {
    let mut trie: PathTrie<i32> = PathTrie::new();
    assert!(trie.remove_subtree(&p("")).is_none());
}

#[test]
fn is_empty_with_only_structure() {
    let mut trie: PathTrie<i32> = PathTrie::new();
    trie.insert(&p("a/b/c"), 1);
    trie.remove(&p("a/b/c"));
    assert!(trie.is_empty());
}

#[test]
fn iteration_visits_children_in_component_order() {
    let mut trie: PathTrie<i32> = PathTrie::new();
    trie.insert(&p("b"), 2);
    trie.insert(&p("a/z"), 3);
    trie.insert(&p("a"), 1);
    let paths: Vec<String> = trie.iter().into_iter().map(|(q, _)| q.to_string()).collect();
    assert_eq!(paths, vec!["a".to_string(), "a/z".to_string(), "b".to_string()]);
}

#[test]
fn iter_visits_paths_in_order_parent_first() {
    let mut t: PathTrie<i32> = PathTrie::new();
    t.insert(&Path::parse("b").unwrap(), 1);
    t.insert(&Path::parse("a/z").unwrap(), 2);
    t.insert(&Path::parse("a").unwrap(), 3);
    t.insert(&Path::parse("a/c").unwrap(), 4);
    let paths: Vec<String> = t.iter().into_iter().map(|(p, _)| p.to_string()).collect();
    assert_eq!(paths, vec!["a", "a/c", "a/z", "b"]);
    assert_eq!(t.len(), 4);
}

#[test]
fn trie_iter_hands_out_entries_in_path_order() {
    let mut trie: PathTrie<i32> = PathTrie::new();
    trie.insert(&p("b"), 2);
    trie.insert(&p("a/c"), 3);
    trie.insert(&p("a"), 1);
    let mut it = PathTrieIter::new(&trie);
    let mut seen: Vec<(String, i32)> = Vec::new();
    while let Some((q, v)) = it.next() {
        seen.push((q.to_string(), *v));
    }
    assert_eq!(
        seen,
        vec![("a".to_string(), 1), ("a/c".to_string(), 3), ("b".to_string(), 2)]
    );
    assert!(it.next().is_none());
}
