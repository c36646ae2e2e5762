use std::collections::HashSet;
use bevy_vista::tree::{
    collect_tree_path, find_ancestor_with, find_descendant_with, first_text_descendant, is_descendant_of, is_named, node_label,
    parent_tree_node, popup_layer_parent, resolve_popup_parent, topmost_ancestor, EntityTree,
};

fn s(x: &str) -> Option<String> {
    Some(x.to_owned())
}

/// 1 ─ 2 ─ 4
///   │   └ 5 (text)
///   └ 3 (text)
fn small_tree() -> EntityTree {
    let mut t = EntityTree::new();
    t.add(1, None, s("root"), None);
    t.add(2, Some(1), None, None);
    t.add(3, Some(1), None, s("three"));
    t.add(4, Some(2), None, None);
    t.add(5, Some(2), None, s("five"));
    t
}

#[test]
fn walks_up_to_the_root() {
    let t = small_tree();
    assert_eq!(topmost_ancestor(5, &t), 1);
    assert_eq!(topmost_ancestor(1, &t), 1);
    assert_eq!(topmost_ancestor(99, &t), 99);
    assert!(is_descendant_of(4, 1, &t));
    assert!(is_descendant_of(4, 4, &t));
    assert!(!is_descendant_of(3, 2, &t));
    assert_eq!(find_ancestor_with(5, &t, |e| e % 2 == 0), Some(2));
    assert_eq!(find_ancestor_with(5, &t, |e| e > 10), None);
}

#[test]
fn first_text_is_found_last_child_first() {
    let t = small_tree();
    assert_eq!(first_text_descendant(1, &t), Some(3));
    assert_eq!(first_text_descendant(2, &t), Some(5));
    assert_eq!(first_text_descendant(4, &t), None);
    let marked: HashSet<u64> = [4, 3].into_iter().collect();
    assert_eq!(find_descendant_with(1, &t, &marked), Some(3));
    assert_eq!(find_descendant_with(2, &t, &marked), Some(4));
    assert_eq!(find_descendant_with(3, &t, &marked), None);
}

#[test]
fn popup_parent_prefers_a_popup_root_under_the_host() {
    let t = small_tree();
    let hosts: HashSet<u64> = [2].into_iter().collect();
    let roots: HashSet<u64> = [5].into_iter().collect();
    assert_eq!(resolve_popup_parent(4, &t, &hosts, &roots), Some(5));
    assert_eq!(resolve_popup_parent(4, &t, &hosts, &HashSet::new()), Some(2));
    assert_eq!(resolve_popup_parent(3, &t, &hosts, &roots), None);
    assert_eq!(popup_layer_parent(4, &t, &hosts, &roots, Some(99)), 5);
    assert_eq!(popup_layer_parent(3, &t, &hosts, &roots, Some(99)), 99);
    assert_eq!(popup_layer_parent(3, &t, &hosts, &roots, None), 1);
}

/// A tree view as the widget library builds it: "Tree Node" entities hold a
/// "Tree Node Header" (whose child carries the label) and a container of
/// child tree nodes.
#[test]
fn tree_path_joins_labels_from_the_top() {
    let mut t = EntityTree::new();
    t.add(10, None, s("Tree Node"), None);
    t.add(11, Some(10), s("Tree Node Header"), None);
    t.add(12, Some(11), None, s("common"));
    t.add(13, Some(10), s("Children"), None);
    t.add(20, Some(13), s("Tree Node"), None);
    t.add(21, Some(20), s("Tree Node Header"), None);
    t.add(22, Some(21), None, s("button"));
    assert!(is_named(20, "Tree Node", &t));
    assert!(!is_named(13, "Tree Node", &t));
    assert_eq!(node_label(20, &t).as_deref(), Some("button"));
    assert_eq!(node_label(13, &t), None);
    assert_eq!(parent_tree_node(20, &t), Some(10));
    assert_eq!(parent_tree_node(10, &t), None);
    assert_eq!(collect_tree_path(20, &t).as_deref(), Some("common/button"));
    assert_eq!(collect_tree_path(10, &t).as_deref(), Some("common"));
    assert_eq!(collect_tree_path(13, &t), None);
}
