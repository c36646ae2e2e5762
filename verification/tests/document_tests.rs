use bevy_vista::document::{apply_blueprint_command, is_descendant, BlueprintCommand, BlueprintCommandError, WidgetBlueprintDocument};
use bevy_vista::registry::{WidgetChildRule, WidgetRegistration, WidgetRegistry};
use bevy_vista::style::WidgetStyle;

fn registry() -> WidgetRegistry {
    let mut reg = WidgetRegistry::new();
    assert!(reg.register(WidgetRegistration::of(1, "common", "button")));
    assert!(reg.register(WidgetRegistration::of(2, "common", "label").child_rule_config(WidgetChildRule::Exact(0))));
    assert!(reg.register(
        WidgetRegistration::of(3, "layout", "split_view")
            .child_rule_config(WidgetChildRule::Exact(2))
            .child_slots(&["first", "second"]),
    ));
    reg
}

fn add_root(doc: &mut WidgetBlueprintDocument, reg: &WidgetRegistry, path: &str) -> u64 {
    apply_blueprint_command(BlueprintCommand::AddRoot { widget_path: path.to_owned() }, doc, reg).ok().expect("root should be added")
}

fn add_child(doc: &mut WidgetBlueprintDocument, reg: &WidgetRegistry, parent: u64, path: &str) -> u64 {
    apply_blueprint_command(BlueprintCommand::AddChild { parent, widget_path: path.to_owned() }, doc, reg).ok().expect("child should be added")
}

#[test]
fn default_document_is_empty_and_dirty() {
    let doc = WidgetBlueprintDocument::default();
    assert!(doc.roots.is_empty());
    assert!(doc.nodes.is_empty());
    assert_eq!(doc.next_id.get(), 1);
    assert!(doc.dirty);
    assert_eq!(doc.pending_select, None);
}

#[test]
fn add_root_allocates_ids_and_names_after_path_tail() {
    let reg = registry();
    let mut doc = WidgetBlueprintDocument::default();
    let a = add_root(&mut doc, &reg, "common/button");
    let b = add_root(&mut doc, &reg, "common/label");
    assert_eq!(a, 1);
    assert_eq!(b, 2);
    assert_eq!(doc.roots, vec![1, 2]);
    assert_eq!(doc.next_id.get(), 3);
    assert_eq!(doc.pending_select, Some(2));
    let node = doc.nodes.get(&1).unwrap();
    assert_eq!(node.name, "button");
    assert_eq!(node.widget_path, "common/button");
    assert_eq!(node.parent, None);
    assert!(node.children.is_empty());
}

#[test]
fn unknown_widget_path_is_refused_and_changes_nothing() {
    let reg = registry();
    let mut doc = WidgetBlueprintDocument::default();
    add_root(&mut doc, &reg, "common/button");
    doc.dirty = false;
    let r = apply_blueprint_command(BlueprintCommand::AddRoot { widget_path: "common/nothing".to_owned() }, &mut doc, &reg);
    match r {
        Err(BlueprintCommandError::UnknownWidgetPath(p)) => assert_eq!(p, "common/nothing"),
        _ => panic!("an unknown path should be refused"),
    }
    assert_eq!(doc.roots, vec![1]);
    assert_eq!(doc.nodes.len(), 1);
    assert_eq!(doc.next_id.get(), 2);
    assert!(!doc.dirty);
}

#[test]
fn add_child_to_missing_parent_is_refused() {
    let reg = registry();
    let mut doc = WidgetBlueprintDocument::default();
    let r = apply_blueprint_command(BlueprintCommand::AddChild { parent: 7, widget_path: "common/label".to_owned() }, &mut doc, &reg);
    assert!(matches!(r, Err(BlueprintCommandError::ParentNotFound(7))));
    assert!(doc.nodes.is_empty());
}

#[test]
fn child_rule_refuses_extra_children() {
    let reg = registry();
    let mut doc = WidgetBlueprintDocument::default();
    let label = add_root(&mut doc, &reg, "common/label");
    let r = apply_blueprint_command(BlueprintCommand::AddChild { parent: label, widget_path: "common/button".to_owned() }, &mut doc, &reg);
    match r {
        Err(BlueprintCommandError::ChildConstraintViolated { parent, parent_widget }) => {
            assert_eq!(parent, label);
            assert_eq!(parent_widget, "common/label");
        }
        _ => panic!("a label takes no children"),
    }
    let split = add_root(&mut doc, &reg, "layout/split_view");
    add_child(&mut doc, &reg, split, "common/button");
    add_child(&mut doc, &reg, split, "common/button");
    let third = apply_blueprint_command(BlueprintCommand::AddChild { parent: split, widget_path: "common/button".to_owned() }, &mut doc, &reg);
    assert!(matches!(third, Err(BlueprintCommandError::ChildConstraintViolated { .. })));
}

#[test]
fn children_get_the_slots_of_their_parent() {
    let reg = registry();
    let mut doc = WidgetBlueprintDocument::default();
    let split = add_root(&mut doc, &reg, "layout/split_view");
    let first = add_child(&mut doc, &reg, split, "common/button");
    let second = add_child(&mut doc, &reg, split, "common/label");
    assert_eq!(doc.nodes.get(&first).unwrap().slot.as_deref(), Some("first"));
    assert_eq!(doc.nodes.get(&second).unwrap().slot.as_deref(), Some("second"));
    assert_eq!(doc.nodes.get(&split).unwrap().children, vec![first, second]);
    assert_eq!(doc.nodes.get(&second).unwrap().parent, Some(split));
}

#[test]
fn set_prop_reads_back_and_remove_prop_clears_it() {
    let reg = registry();
    let mut doc = WidgetBlueprintDocument::default();
    let id = add_root(&mut doc, &reg, "common/label");
    let r = apply_blueprint_command(BlueprintCommand::SetNodeProp { node: id, key: "text".to_owned(), value: "Hello".to_owned() }, &mut doc, &reg);
    assert_eq!(r.ok(), Some(id));
    assert_eq!(doc.nodes.get(&id).unwrap().props.get("text").map(String::as_str), Some("Hello"));
    apply_blueprint_command(BlueprintCommand::RemoveNodeProp { node: id, key: "text".to_owned() }, &mut doc, &reg).ok().unwrap();
    assert!(doc.nodes.get(&id).unwrap().props.get("text").is_none());
    let missing = apply_blueprint_command(BlueprintCommand::SetNodeProp { node: 99, key: "text".to_owned(), value: "x".to_owned() }, &mut doc, &reg);
    assert!(matches!(missing, Err(BlueprintCommandError::NodeNotFound(99))));
}

#[test]
fn blank_name_falls_back_to_path_tail() {
    let reg = registry();
    let mut doc = WidgetBlueprintDocument::default();
    let id = add_root(&mut doc, &reg, "common/button");
    apply_blueprint_command(BlueprintCommand::SetNodeName { node: id, name: "Save".to_owned() }, &mut doc, &reg).ok().unwrap();
    assert_eq!(doc.nodes.get(&id).unwrap().name, "Save");
    apply_blueprint_command(BlueprintCommand::SetNodeName { node: id, name: "  \t".to_owned() }, &mut doc, &reg).ok().unwrap();
    assert_eq!(doc.nodes.get(&id).unwrap().name, "button");
}

#[test]
fn set_style_replaces_the_style() {
    let reg = registry();
    let mut doc = WidgetBlueprintDocument::default();
    let id = add_root(&mut doc, &reg, "common/button");
    let mut style = WidgetStyle::default();
    style.overrides.insert("width".to_owned(), "Px(240.0)".to_owned());
    apply_blueprint_command(BlueprintCommand::SetNodeStyle { node: id, style }, &mut doc, &reg).ok().unwrap();
    assert_eq!(doc.nodes.get(&id).unwrap().style.overrides.get("width").map(String::as_str), Some("Px(240.0)"));
    assert!(!doc.nodes.get(&id).unwrap().style.is_default());
}

#[test]
fn add_root_then_remove_gives_back_roots_and_nodes() {
    let reg = registry();
    let mut doc = WidgetBlueprintDocument::default();
    let a = add_root(&mut doc, &reg, "common/button");
    let b = add_root(&mut doc, &reg, "common/label");
    let r = apply_blueprint_command(BlueprintCommand::RemoveNode { node: b }, &mut doc, &reg);
    assert_eq!(r.ok(), Some(b));
    assert_eq!(doc.roots, vec![a]);
    assert_eq!(doc.nodes.len(), 1);
    assert!(doc.nodes.get(&a).is_some());
    assert_eq!(doc.pending_select, Some(a));
}

#[test]
fn remove_takes_the_whole_subtree() {
    let reg = registry();
    let mut doc = WidgetBlueprintDocument::default();
    let root = add_root(&mut doc, &reg, "common/button");
    let child = add_child(&mut doc, &reg, root, "common/button");
    let grandchild = add_child(&mut doc, &reg, child, "common/label");
    apply_blueprint_command(BlueprintCommand::RemoveNode { node: child }, &mut doc, &reg).ok().unwrap();
    assert!(doc.nodes.get(&child).is_none());
    assert!(doc.nodes.get(&grandchild).is_none());
    assert!(doc.nodes.get(&root).unwrap().children.is_empty());
    assert_eq!(doc.pending_select, Some(root));
    let again = apply_blueprint_command(BlueprintCommand::RemoveNode { node: child }, &mut doc, &reg);
    assert!(matches!(again, Err(BlueprintCommandError::NodeNotFound(_))));
}

#[test]
fn move_reparents_and_keeps_the_nodes() {
    let reg = registry();
    let mut doc = WidgetBlueprintDocument::default();
    let a = add_root(&mut doc, &reg, "common/button");
    let b = add_root(&mut doc, &reg, "common/button");
    let c = add_child(&mut doc, &reg, a, "common/label");
    let r = apply_blueprint_command(BlueprintCommand::MoveNode { node: c, new_parent: Some(b), index: None }, &mut doc, &reg);
    assert_eq!(r.ok(), Some(c));
    assert_eq!(doc.nodes.len(), 3);
    assert!(doc.nodes.get(&a).unwrap().children.is_empty());
    assert_eq!(doc.nodes.get(&b).unwrap().children, vec![c]);
    assert_eq!(doc.nodes.get(&c).unwrap().parent, Some(b));
    let to_root = apply_blueprint_command(BlueprintCommand::MoveNode { node: c, new_parent: None, index: Some(0) }, &mut doc, &reg);
    assert_eq!(to_root.ok(), Some(c));
    assert_eq!(doc.roots, vec![c, a, b]);
    assert_eq!(doc.nodes.get(&c).unwrap().parent, None);
}

#[test]
fn move_into_own_subtree_is_refused() {
    let reg = registry();
    let mut doc = WidgetBlueprintDocument::default();
    let a = add_root(&mut doc, &reg, "common/button");
    let b = add_child(&mut doc, &reg, a, "common/button");
    let r = apply_blueprint_command(BlueprintCommand::MoveNode { node: a, new_parent: Some(b), index: None }, &mut doc, &reg);
    assert!(matches!(r, Err(BlueprintCommandError::InvalidMove)));
    let self_move = apply_blueprint_command(BlueprintCommand::MoveNode { node: a, new_parent: Some(a), index: None }, &mut doc, &reg);
    assert!(matches!(self_move, Err(BlueprintCommandError::InvalidMove)));
    let missing = apply_blueprint_command(BlueprintCommand::MoveNode { node: a, new_parent: Some(42), index: None }, &mut doc, &reg);
    assert!(matches!(missing, Err(BlueprintCommandError::ParentNotFound(42))));
    assert_eq!(doc.nodes.get(&b).unwrap().parent, Some(a));
    assert!(is_descendant(&doc, b, a));
    assert!(!is_descendant(&doc, a, b));
}

#[test]
fn move_within_the_same_parent_reorders() {
    let reg = registry();
    let mut doc = WidgetBlueprintDocument::default();
    let p = add_root(&mut doc, &reg, "common/button");
    let x = add_child(&mut doc, &reg, p, "common/label");
    let y = add_child(&mut doc, &reg, p, "common/label");
    let z = add_child(&mut doc, &reg, p, "common/label");
    apply_blueprint_command(BlueprintCommand::MoveNode { node: z, new_parent: Some(p), index: Some(0) }, &mut doc, &reg).ok().unwrap();
    assert_eq!(doc.nodes.get(&p).unwrap().children, vec![z, x, y]);
}

#[test]
fn every_command_keeps_parents_and_children_in_agreement() {
    let reg = registry();
    let mut doc = WidgetBlueprintDocument::default();
    let a = add_root(&mut doc, &reg, "common/button");
    let b = add_child(&mut doc, &reg, a, "common/button");
    let c = add_child(&mut doc, &reg, b, "common/label");
    let d = add_root(&mut doc, &reg, "layout/split_view");
    apply_blueprint_command(BlueprintCommand::MoveNode { node: b, new_parent: Some(d), index: None }, &mut doc, &reg).ok().unwrap();
    apply_blueprint_command(BlueprintCommand::RemoveNode { node: a }, &mut doc, &reg).ok().unwrap();
    for (id, node) in doc.nodes.iter() {
        assert_eq!(node.id, *id);
        assert!(*id < doc.next_id.get());
        match node.parent {
            Some(p) => assert!(doc.nodes.get(&p).unwrap().children.contains(id)),
            None => assert!(doc.roots.contains(id)),
        }
        for child in &node.children {
            assert_eq!(doc.nodes.get(child).unwrap().parent, Some(*id));
        }
    }
    assert_eq!(doc.roots, vec![d]);
    assert_eq!(doc.nodes.get(&c).unwrap().parent, Some(b));
    assert_eq!(doc.nodes.get(&b).unwrap().slot.as_deref(), Some("first"));
}

#[test]
fn added_node_takes_the_next_id() {
    let reg = registry();
    let mut doc = WidgetBlueprintDocument::default();
    let a = add_root(&mut doc, &reg, "common/button");
    let before = doc.next_id.get();
    let b = add_child(&mut doc, &reg, a, "common/button");
    assert_eq!(b, before);
    assert_eq!(doc.next_id.get(), before + 1);
}

#[test]
fn built_in_widgets_answer_commands_as_registered() {
    let reg = WidgetRegistry::new();
    let mut doc = WidgetBlueprintDocument::default();
    for expected in 1..=3u64 {
        assert_eq!(apply_blueprint_command(BlueprintCommand::AddRoot { widget_path: "common/image".to_owned() }, &mut doc, &reg).ok(), Some(expected));
    }
    assert_eq!(apply_blueprint_command(BlueprintCommand::MoveNode { node: 1, new_parent: None, index: Some(2) }, &mut doc, &reg).ok(), Some(1));
    assert_eq!(doc.roots, vec![2, 1, 3]);
    assert_eq!(doc.nodes.get(&1).unwrap().parent, None);

    let mut doc = WidgetBlueprintDocument::default();
    let a = apply_blueprint_command(BlueprintCommand::AddRoot { widget_path: "layout/split_view".to_owned() }, &mut doc, &reg).ok().unwrap();
    let b = apply_blueprint_command(BlueprintCommand::AddChild { parent: a, widget_path: "layout/split_view".to_owned() }, &mut doc, &reg).ok().unwrap();
    assert!(matches!(apply_blueprint_command(BlueprintCommand::MoveNode { node: a, new_parent: Some(b), index: None }, &mut doc, &reg), Err(BlueprintCommandError::InvalidMove)));
    assert!(matches!(apply_blueprint_command(BlueprintCommand::MoveNode { node: a, new_parent: Some(a), index: None }, &mut doc, &reg), Err(BlueprintCommandError::InvalidMove)));
    assert_eq!(doc.nodes.get(&a).unwrap().parent, None);

    let mut doc = WidgetBlueprintDocument::default();
    let split = apply_blueprint_command(BlueprintCommand::AddRoot { widget_path: "layout/split_view".to_owned() }, &mut doc, &reg).ok().unwrap();
    let first = apply_blueprint_command(BlueprintCommand::AddChild { parent: split, widget_path: "common/image".to_owned() }, &mut doc, &reg).ok().unwrap();
    let second = apply_blueprint_command(BlueprintCommand::AddChild { parent: split, widget_path: "common/image".to_owned() }, &mut doc, &reg).ok().unwrap();
    assert_eq!(doc.nodes.get(&split).unwrap().children, vec![first, second]);
    assert_eq!(doc.nodes.get(&first).unwrap().slot.as_deref(), Some("first"));
    assert_eq!(doc.nodes.get(&second).unwrap().slot.as_deref(), Some("second"));
    match apply_blueprint_command(BlueprintCommand::AddChild { parent: split, widget_path: "common/image".to_owned() }, &mut doc, &reg) {
        Err(BlueprintCommandError::ChildConstraintViolated { parent, parent_widget }) => {
            assert_eq!(parent, split);
            assert_eq!(parent_widget, "layout/split_view");
        }
        _ => panic!("a third child of a split view should be refused"),
    }
    assert_eq!(doc.nodes.len(), 3);
}

#[test]
fn removal_follows_children_lists_where_parent_links_disagree() {
    let reg = registry();
    let mut doc = WidgetBlueprintDocument::default();
    let a = add_root(&mut doc, &reg, "common/button");
    let b = add_child(&mut doc, &reg, a, "common/button");
    let c = add_child(&mut doc, &reg, b, "common/button");
    let other = add_root(&mut doc, &reg, "common/button");
    doc.nodes.get_mut(&c).unwrap().parent = Some(other);
    let r = apply_blueprint_command(BlueprintCommand::RemoveNode { node: b }, &mut doc, &reg);
    assert_eq!(r.ok(), Some(b));
    assert_eq!(doc.nodes.len(), 2);
    assert!(doc.nodes.get(&c).is_none());
    assert!(doc.nodes.get(&a).unwrap().children.is_empty());
    assert!(doc.nodes.get(&other).unwrap().children.is_empty());
    assert_eq!(doc.roots, vec![a, other]);
    assert_eq!(doc.pending_select, Some(a));
}

#[test]
fn a_shared_child_is_removed_once() {
    let reg = registry();
    let mut doc = WidgetBlueprintDocument::default();
    let a = add_root(&mut doc, &reg, "common/button");
    let b = add_child(&mut doc, &reg, a, "common/button");
    let c = add_child(&mut doc, &reg, a, "common/button");
    let shared = add_child(&mut doc, &reg, b, "common/label");
    doc.nodes.get_mut(&c).unwrap().children.push(shared);
    let r = apply_blueprint_command(BlueprintCommand::RemoveNode { node: a }, &mut doc, &reg);
    assert_eq!(r.ok(), Some(a));
    assert!(doc.nodes.is_empty());
    assert!(doc.roots.is_empty());
    assert_eq!(doc.pending_select, None);
}

#[test]
fn refused_commands_leave_a_document_with_a_parent_cycle_alone() {
    let reg = registry();
    let mut doc = WidgetBlueprintDocument::default();
    let a = add_root(&mut doc, &reg, "common/button");
    let b = add_child(&mut doc, &reg, a, "common/button");
    let c = add_child(&mut doc, &reg, b, "common/button");
    doc.nodes.get_mut(&b).unwrap().parent = Some(c);
    assert!(!doc.has_acyclic_parents());
    let missing = apply_blueprint_command(BlueprintCommand::RemoveNode { node: 99 }, &mut doc, &reg);
    assert!(matches!(missing, Err(BlueprintCommandError::NodeNotFound(99))));
    let missing_move = apply_blueprint_command(BlueprintCommand::MoveNode { node: 99, new_parent: None, index: None }, &mut doc, &reg);
    assert!(matches!(missing_move, Err(BlueprintCommandError::NodeNotFound(99))));
    let missing_parent = apply_blueprint_command(BlueprintCommand::MoveNode { node: c, new_parent: Some(99), index: None }, &mut doc, &reg);
    assert!(matches!(missing_parent, Err(BlueprintCommandError::ParentNotFound(99))));
    assert_eq!(doc.roots, vec![a]);
    assert_eq!(doc.nodes.len(), 3);
    assert_eq!(doc.nodes.get(&a).unwrap().children, vec![b]);
    assert_eq!(doc.nodes.get(&b).unwrap().children, vec![c]);
    assert_eq!(doc.nodes.get(&b).unwrap().parent, Some(c));
    assert_eq!(doc.nodes.get(&c).unwrap().parent, Some(b));
}

#[test]
fn a_parent_cycle_elsewhere_does_not_stop_a_move() {
    let reg = registry();
    let mut doc = WidgetBlueprintDocument::default();
    let a = add_root(&mut doc, &reg, "common/button");
    let b = add_child(&mut doc, &reg, a, "common/button");
    let c = add_root(&mut doc, &reg, "common/button");
    let d = add_child(&mut doc, &reg, c, "common/button");
    let e = add_root(&mut doc, &reg, "common/button");
    doc.nodes.get_mut(&c).unwrap().parent = Some(d);
    assert!(!doc.has_acyclic_parents());
    let limit = doc.nodes.len() + 1;
    assert!(doc.climb_stops_within(e, b, limit));
    assert!(!doc.climb_stops_within(c, b, limit));
    let r = apply_blueprint_command(BlueprintCommand::MoveNode { node: b, new_parent: Some(e), index: None }, &mut doc, &reg);
    assert_eq!(r.ok(), Some(b));
    assert!(doc.nodes.get(&a).unwrap().children.is_empty());
    assert_eq!(doc.nodes.get(&e).unwrap().children, vec![b]);
    assert_eq!(doc.nodes.get(&b).unwrap().parent, Some(e));
}
