use xdvdfs::path::pathtrie::{PPTSubtree, PathPrefixTree};
use xdvdfs::path::trie_iter::PPTSubtreeIter;

fn subtree_values<'a, T>(mut it: PPTSubtreeIter<'a, T>) -> Vec<(char, Option<&'a PathPrefixTree<T>>)> {
    let mut values = Vec::new();
    while let Some(v) = it.next() {
        values.push(v);
    }
    values
}

fn leaf(val: u32) -> Option<Box<PathPrefixTree<u32>>> {
    let mut ppt = Box::new(PathPrefixTree::default());
    ppt.insert_tail("", val);
    Some(ppt)
}

#[test]
fn test_ppt_insert_get() {
    let mut ppt = PathPrefixTree::default();
    let tail = ppt.insert_tail("azbxcy", 12345);

    // Tail is a new PPT
    assert!(tail.record.is_none());
    assert!(tail.children.iter().next().is_none());

    assert_eq!(ppt.get("azbxcy".into()), Some(&12345));
}

#[test]
fn test_ppt_lookup_tail() {
    let mut ppt = PathPrefixTree::default();

    ppt.insert_tail("foo", 12345).insert_tail("bar", 67890);

    let (val, subtree) = ppt
        .lookup_node("foo".into())
        .expect("Node 'foo' should have been inserted")
        .record
        .as_ref()
        .expect("Node 'foo' should have a record");
    assert_eq!(*val, 12345);
    assert_eq!(subtree.get("bar".into()), Some(&67890));
}

#[test]
fn test_ppt_lookup_node() {
    let mut ppt = PathPrefixTree::default();

    ppt.insert_tail("foo", 12345).insert_tail("bar", 67890);

    let (val, subtree) = ppt
        .lookup_node("foo/bar".into())
        .expect("Node 'foo/bar' should have been inserted")
        .record
        .as_ref()
        .expect("Node 'foo/bar' should have a record");
    assert_eq!(*val, 67890);
    assert!(subtree.children.iter().next().is_none());
}

#[test]
fn test_ppt_lookup_node_no_entry() {
    let mut ppt = PathPrefixTree::default();

    ppt.insert_tail("foo", 12345).insert_tail("bar", 67890);

    assert!(ppt.lookup_node("foo/baz".into()).is_none());
}

#[test]
fn test_ppt_lookup_node_no_subtree() {
    let mut ppt = PathPrefixTree::default();

    ppt.insert_tail("foo", 12345);

    // The first component is `fo`, not `foo`: there is no subtree.
    assert!(ppt.lookup_node("fo/bar".into()).is_none());
}

#[test]
fn test_insert_tail_replace_value() {
    let mut ppt = PathPrefixTree::default();

    ppt.insert_tail("foo", 12345);
    assert_eq!(ppt.get("/foo".into()), Some(&12345));

    ppt.insert_tail("foo", 67890);
    assert_eq!(ppt.get("/foo".into()), Some(&67890));
}

#[test]
fn test_insert_path() {
    let mut ppt: PathPrefixTree<Option<i32>> = PathPrefixTree::default();

    ppt.insert_path("/a/b/c".into(), Some(1234));
    ppt.insert_path("/a/b".into(), Some(6789));
    ppt.insert_path("/".into(), Some(4321));

    assert_eq!(ppt.get("".into()), Some(&Some(4321)));
    assert_eq!(ppt.get("/a/b".into()), Some(&Some(6789)));
    assert_eq!(ppt.get("/a/b/c".into()), Some(&Some(1234)));
}

#[test]
fn test_ppt_get_node() {
    let mut ppt = PathPrefixTree::default();

    ppt.insert_tail("foo", 12345).insert_tail("bar", 67890);

    assert_eq!(ppt.get("foo/bar".into()), Some(&67890));
}

#[test]
fn test_ppt_get_node_no_entry() {
    let mut ppt = PathPrefixTree::default();

    ppt.insert_tail("foo", 12345).insert_tail("bar", 67890);

    assert_eq!(ppt.get("foo/baz".into()), None);
}

#[test]
fn test_ppt_lookup_subdir() {
    let mut ppt = PathPrefixTree::default();

    ppt.insert_tail("foo", 1)
        .insert_tail("bar", 2)
        .insert_tail("baz", 3);

    let subtree = ppt
        .lookup_subdir("foo/bar".into())
        .expect("Node 'foo/bar' should exist");
    assert_eq!(subtree.get("baz".into()), Some(&3));
}

#[test]
fn test_ppt_lookup_subdir_no_entry() {
    let mut ppt = PathPrefixTree::default();

    ppt.insert_tail("foo", 1).insert_tail("bar", 2);

    assert!(ppt.lookup_subdir("foo/baz".into()).is_none());
}

#[test]
fn test_ppt_lookup_subdir_no_subtree() {
    let mut ppt = PathPrefixTree::default();

    ppt.insert_tail("foo", 1).insert_tail("bar", 2);

    // The second component is `ba`, not `baz`: there is no subtree.
    assert!(ppt.lookup_subdir("foo/ba/baz".into()).is_none());
}

#[test]
fn test_ppt_substring_path() {
    let mut ppt = PathPrefixTree::default();

    ppt.insert_tail("abcdef", 12345);
    ppt.insert_tail("abc", 67890);

    assert_eq!(ppt.get("abc".into()), Some(&67890));
    assert_eq!(ppt.get("abcdef".into()), Some(&12345));
}

#[test]
fn test_ppt_lookup_node_mut_mutate_record() {
    let mut ppt = PathPrefixTree::default();
    ppt.insert_tail("abc", 54321).insert_tail("def", 12345);

    let record = &mut ppt
        .lookup_node_mut("abc/def".into())
        .expect("Node 'abc/def' should exist")
        .record
        .as_mut()
        .expect("Node 'abc/def' should have a record");
    record.0 = 67890;

    assert_eq!(ppt.get("abc/def".into()), Some(&67890));
}

#[test]
fn test_ppt_lookup_node_mut_no_record() {
    let mut ppt = PathPrefixTree::default();
    ppt.insert_tail("abc", 54321).insert_tail("def", 12345);

    assert!(ppt.lookup_node_mut("abc/defg".into()).is_none());
}

#[test]
fn test_ppt_lookup_node_mut_no_subtree() {
    let mut ppt = PathPrefixTree::default();
    ppt.insert_tail("abc", 54321).insert_tail("def", 12345);

    // The second component is `de`, not `def`: there is no subtree.
    assert!(ppt.lookup_node_mut("abc/de/ghi".into()).is_none());
}

#[test]
fn test_ppt_subtree_single_record() {
    let mut subtree = PPTSubtree::<u32>::Empty;

    *subtree.child_mut('a') = leaf(32);

    assert!(subtree.child('a').is_some());
    assert_eq!(subtree.child('a').unwrap().get("".into()), Some(&32));
    assert!(subtree.child('b').is_none());
}

#[test]
fn test_ppt_subtree_single_record_update() {
    let mut subtree = PPTSubtree::<u32>::Empty;

    *subtree.child_mut('a') = leaf(32);

    assert!(subtree.child('a').is_some());
    assert_eq!(subtree.child('a').unwrap().get("".into()), Some(&32));

    *subtree.child_mut('a') = leaf(40);

    assert!(subtree.child('a').is_some());
    assert_eq!(subtree.child('a').unwrap().get("".into()), Some(&40));
}

#[test]
fn test_ppt_subtree_multi_record_increasing() {
    let mut subtree = PPTSubtree::<u32>::Empty;

    *subtree.child_mut('a') = leaf(32);

    assert!(subtree.child('a').is_some());
    assert!(subtree.child('g').is_none());

    *subtree.child_mut('g') = leaf(40);

    assert_eq!(subtree.child('a').unwrap().get("".into()), Some(&32));

    assert!(subtree.child('g').is_some());
    assert_eq!(subtree.child('g').unwrap().get("".into()), Some(&40));
}

#[test]
fn test_ppt_subtree_multi_record_decreasing() {
    let mut subtree = PPTSubtree::<u32>::Empty;

    *subtree.child_mut('g') = leaf(32);

    assert!(subtree.child('g').is_some());
    assert!(subtree.child('c').is_none());

    *subtree.child_mut('c') = leaf(40);

    assert_eq!(subtree.child('g').unwrap().get("".into()), Some(&32));

    assert!(subtree.child('c').is_some());
    assert_eq!(subtree.child('c').unwrap().get("".into()), Some(&40));
}

#[test]
fn test_ppt_subtree_multi_record_update() {
    let mut subtree = PPTSubtree::<u32>::Empty;

    *subtree.child_mut('g') = leaf(32);

    assert!(subtree.child('g').is_some());
    assert!(subtree.child('c').is_none());

    *subtree.child_mut('c') = leaf(40);

    assert_eq!(subtree.child('g').unwrap().get("".into()), Some(&32));

    assert!(subtree.child('c').is_some());
    assert_eq!(subtree.child('c').unwrap().get("".into()), Some(&40));

    *subtree.child_mut('g') = None;
    assert!(subtree.child('g').is_none());
    assert!(subtree.child('c').is_some());
}

#[test]
fn test_ppt_subtree_multi_record_update_lesser() {
    let mut subtree = PPTSubtree::<u32>::Empty;

    *subtree.child_mut('g') = leaf(32);

    assert!(subtree.child('g').is_some());
    assert!(subtree.child('c').is_none());

    *subtree.child_mut('c') = leaf(40);

    assert_eq!(subtree.child('g').unwrap().get("".into()), Some(&32));

    assert!(subtree.child('c').is_some());
    assert_eq!(subtree.child('c').unwrap().get("".into()), Some(&40));

    *subtree.child_mut('c') = None;
    assert!(subtree.child('c').is_none());
    assert!(subtree.child('g').is_some());
}

#[test]
fn test_trie_subtree_iter_empty() {
    let subtree = PPTSubtree::<()>::Empty;
    let values = subtree_values(subtree.iter());
    assert_eq!(values, &[]);
}

#[test]
fn test_trie_subtree_iter_single_char() {
    let subtree = PPTSubtree::<()>::SingleChar('a', Some(Box::new(PathPrefixTree::default())));
    let values = subtree_values(subtree.iter());
    assert_eq!(values, &[('a', Some(&PathPrefixTree::default())),]);
}

#[test]
fn test_trie_subtree_iter_char_array() {
    let mut children = Vec::new();
    children.push(Some(Box::new(PathPrefixTree::default())));
    children.resize_with(3, || None);
    children.push(Some(Box::new(PathPrefixTree::default())));
    let subtree = PPTSubtree::<()>::CharArray {
        start_char: 'a',
        children,
    };
    let values = subtree_values(subtree.iter());
    assert_eq!(
        values,
        &[
            ('a', Some(&PathPrefixTree::default())),
            ('b', None),
            ('c', None),
            ('d', Some(&PathPrefixTree::default())),
        ]
    );
}

#[test]
fn test_ppt_iterator() {
    let mut ppt = PathPrefixTree::default();
    ppt.insert_tail("abc", 1).insert_tail("tail", 2);
    ppt.insert_tail("hjk", 3).insert_tail("tail", 4);
    ppt.insert_tail("xyz", 5).insert_tail("tail", 6);

    let values: Vec<(String, i64)> = ppt
        .iter()
        .collect_entries()
        .into_iter()
        .map(|(name, val)| (name, *val))
        .collect();

    assert_eq!(
        values,
        [
            ("abc".to_string(), 1),
            ("hjk".to_string(), 3),
            ("xyz".to_string(), 5),
        ]
    );
}

#[test]
fn ppt_iterator_lists_nested_records_by_name_length_first() {
    let mut ppt = PathPrefixTree::default();
    ppt.insert_tail("bb", 1);
    ppt.insert_tail("a", 2);
    ppt.insert_tail("ab", 3);
    ppt.insert_tail("b", 4);

    let names: Vec<String> = ppt
        .iter()
        .collect_entries()
        .into_iter()
        .map(|(name, _)| name)
        .collect();
    assert_eq!(names, ["a", "b", "ab", "bb"]);
}

#[test]
fn ppt_insert_leaves_other_records_alone() {
    let mut ppt = PathPrefixTree::default();
    ppt.insert_tail("x", 1);
    ppt.insert_tail("xy", 2);
    ppt.insert_tail("x", 3);
    assert_eq!(ppt.get("x".into()), Some(&3));
    assert_eq!(ppt.get("xy".into()), Some(&2));
}
