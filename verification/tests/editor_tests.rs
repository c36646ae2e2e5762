use bevy_vista::document::{apply_blueprint_command, BlueprintCommand, WidgetBlueprintDocument};
use bevy_vista::editor_actions::{
    cleanup_drag_ghost, cleanup_hierarchy_drag_visual, delete_selected_blueprint_node_shortcut, drop_hierarchy_node, finish_compile,
    hierarchy_drag_label, needs_compile, on_hierarchy_content_drag_end, on_hierarchy_item_click, on_hierarchy_item_drag_end,
    on_hierarchy_item_drag_start, on_hierarchy_item_out, on_hierarchy_item_over, on_widget_tree_drag, on_widget_tree_drag_cancel,
    on_widget_tree_drag_end, on_widget_tree_drag_start, selected_node_id, BlueprintRuntimeMap, DragLeftovers, HierarchyDragState, HierarchyDropOutcome, WidgetDrop,
    WidgetLibDragState,
};
use bevy_vista::editor_state::VistaEditorSelection;
use bevy_vista::props::{apply_style_change, clear_widget_prop_change, store_widget_prop_change, InspectorContext};
use bevy_vista::registry::{WidgetChildRule, WidgetRegistration, WidgetRegistry};
use bevy_vista::spawn::{resolve_child_parent_entity, BuildStep, BuildWalk, WidgetSpawnResult};
use bevy_vista::style::WidgetStyle;

fn registry() -> WidgetRegistry {
    let mut reg = WidgetRegistry::new();
    reg.register(WidgetRegistration::of(1, "common", "button"));
    reg.register(WidgetRegistration::of(2, "common", "label").child_rule_config(WidgetChildRule::Exact(0)));
    reg.register(WidgetRegistration::of(3, "layout", "split_view").child_rule_config(WidgetChildRule::Exact(2)).child_slots(&["first", "second"]));
    reg
}

fn root(doc: &mut WidgetBlueprintDocument, reg: &WidgetRegistry, path: &str) -> u64 {
    apply_blueprint_command(BlueprintCommand::AddRoot { widget_path: path.to_owned() }, doc, reg).ok().unwrap()
}

#[test]
fn inspector_context_selects_and_clears() {
    let mut c = InspectorContext::default();
    c.select(4);
    assert_eq!(c, InspectorContext { selected_node: Some(4), visible: true });
    c.clear();
    assert_eq!(c, InspectorContext { selected_node: None, visible: false });
}

#[test]
fn stored_props_equal_to_default_are_removed() {
    let reg = registry();
    let mut doc = WidgetBlueprintDocument::default();
    let id = root(&mut doc, &reg, "common/label");
    store_widget_prop_change(id, "text", Some("Hi".to_owned()), Some(false), &mut doc, &reg);
    assert_eq!(doc.nodes.get(&id).unwrap().props.get("text").map(String::as_str), Some("Hi"));
    store_widget_prop_change(id, "text", Some("".to_owned()), Some(true), &mut doc, &reg);
    assert!(doc.nodes.get(&id).unwrap().props.get("text").is_none());
    store_widget_prop_change(id, "size", Some("3".to_owned()), None, &mut doc, &reg);
    assert_eq!(doc.nodes.get(&id).unwrap().props.get("size").map(String::as_str), Some("3"));
    store_widget_prop_change(id, "size", None, Some(false), &mut doc, &reg);
    assert_eq!(doc.nodes.get(&id).unwrap().props.get("size").map(String::as_str), Some("3"));
    store_widget_prop_change(99, "size", Some("1".to_owned()), Some(false), &mut doc, &reg);
    assert!(doc.nodes.get(&99).is_none());
    clear_widget_prop_change(id, "size", &mut doc, &reg);
    assert!(doc.nodes.get(&id).unwrap().props.is_empty());
    let mut style = WidgetStyle::default();
    style.overrides.insert("height".to_owned(), "Auto".to_owned());
    apply_style_change(id, style, &mut doc, &reg);
    assert!(!doc.nodes.get(&id).unwrap().style.is_default());
}

#[test]
fn dropped_widgets_go_under_the_target_or_to_the_roots() {
    let reg = registry();
    let mut doc = WidgetBlueprintDocument::default();
    let label = root(&mut doc, &reg, "common/label");
    let button = root(&mut doc, &reg, "common/button");
    assert!(on_widget_tree_drag_end("common/label", WidgetDrop::Viewport { selected_node: Some(button) }, &mut doc, &reg));
    assert_eq!(doc.nodes.get(&button).unwrap().children.len(), 1);
    assert!(on_widget_tree_drag_end("common/label", WidgetDrop::Hierarchy { target: Some(label) }, &mut doc, &reg));
    assert_eq!(doc.roots.len(), 3);
    assert!(on_widget_tree_drag_end("common/button", WidgetDrop::Viewport { selected_node: None }, &mut doc, &reg));
    assert_eq!(doc.roots.len(), 4);
    assert!(!on_widget_tree_drag_end("common/button", WidgetDrop::Elsewhere, &mut doc, &reg));
    assert!(!on_widget_tree_drag_end("common/unknown", WidgetDrop::Hierarchy { target: None }, &mut doc, &reg));
    assert_eq!(doc.nodes.len(), 5);
}

#[test]
fn hierarchy_drops_move_nodes() {
    let reg = registry();
    let mut doc = WidgetBlueprintDocument::default();
    let a = root(&mut doc, &reg, "common/button");
    let b = root(&mut doc, &reg, "common/button");
    drop_hierarchy_node(b, Some(a), &mut doc, &reg);
    assert_eq!(doc.nodes.get(&b).unwrap().parent, Some(a));
    assert_eq!(doc.roots, vec![a]);
    drop_hierarchy_node(b, Some(b), &mut doc, &reg);
    assert_eq!(doc.nodes.get(&b).unwrap().parent, Some(a));
    drop_hierarchy_node(b, None, &mut doc, &reg);
    assert_eq!(doc.roots, vec![a, b]);
}

#[test]
fn a_hierarchy_drag_picks_a_target_and_drops_there() {
    let reg = registry();
    let mut doc = WidgetBlueprintDocument::default();
    let a = root(&mut doc, &reg, "common/button");
    let b = root(&mut doc, &reg, "common/button");
    doc.nodes.get_mut(&b).unwrap().name = "Bee".to_owned();
    assert_eq!(hierarchy_drag_label(&doc, b), "Bee");
    assert_eq!(hierarchy_drag_label(&doc, 77), "Node");
    let mut drag = HierarchyDragState::default();
    assert!(!on_hierarchy_item_over(&mut drag, a));
    assert_eq!(drag, HierarchyDragState::default());
    assert_eq!(on_hierarchy_item_drag_start(&mut drag, b, 40, 41), None);
    assert_eq!(on_hierarchy_item_drag_start(&mut drag, b, 40, 42), Some(41));
    assert!(!on_hierarchy_item_over(&mut drag, b));
    assert_eq!(drag.hover_target, None);
    assert!(on_hierarchy_item_over(&mut drag, a));
    assert_eq!(drag.hover_target, Some(a));
    assert!(on_hierarchy_item_out(&mut drag, b));
    assert_eq!(drag.hover_target, Some(a));
    assert!(on_hierarchy_item_out(&mut drag, a));
    assert_eq!(drag.hover_target, None);
    assert!(on_hierarchy_item_over(&mut drag, a));
    assert_eq!(on_hierarchy_item_drag_end(true, None, &mut drag, &mut doc, &reg), None);
    assert_eq!(drag.dragging_node, Some(b));
    let outcome = on_hierarchy_item_drag_end(false, None, &mut drag, &mut doc, &reg).unwrap();
    assert_eq!(outcome, HierarchyDropOutcome { leftovers: DragLeftovers { ghost_entity: Some(42), source_header: Some(40) }, redraw: true });
    assert_eq!(drag, HierarchyDragState::default());
    assert_eq!(doc.nodes.get(&b).unwrap().parent, Some(a));
    assert_eq!(doc.roots, vec![a]);
    let outcome = on_hierarchy_item_drag_end(false, None, &mut drag, &mut doc, &reg).unwrap();
    assert!(outcome.redraw);
    assert_eq!(outcome.leftovers, DragLeftovers { ghost_entity: None, source_header: None });
}

#[test]
fn dropping_over_empty_hierarchy_space_makes_a_root() {
    let reg = registry();
    let mut doc = WidgetBlueprintDocument::default();
    let a = root(&mut doc, &reg, "common/button");
    let b = apply_blueprint_command(BlueprintCommand::AddChild { parent: a, widget_path: "common/button".to_owned() }, &mut doc, &reg).ok().unwrap();
    let mut drag = HierarchyDragState::default();
    assert_eq!(on_hierarchy_content_drag_end(false, &mut drag, &mut doc, &reg), None);
    on_hierarchy_item_drag_start(&mut drag, b, 5, 6);
    assert_eq!(on_hierarchy_content_drag_end(true, &mut drag, &mut doc, &reg), None);
    assert_eq!(on_hierarchy_content_drag_end(false, &mut drag, &mut doc, &reg), Some(DragLeftovers { ghost_entity: Some(6), source_header: Some(5) }));
    assert_eq!(doc.roots, vec![a, b]);
    assert_eq!(drag, HierarchyDragState::default());
    on_hierarchy_item_drag_start(&mut drag, a, 5, 6);
    on_hierarchy_item_over(&mut drag, b);
    assert!(on_hierarchy_content_drag_end(false, &mut drag, &mut doc, &reg).is_some());
    assert_eq!(doc.roots, vec![a, b]);
    on_hierarchy_item_drag_start(&mut drag, a, 5, 6);
    assert_eq!(cleanup_hierarchy_drag_visual(&mut drag), DragLeftovers { ghost_entity: Some(6), source_header: Some(5) });
    assert_eq!(drag, HierarchyDragState::default());
}

#[test]
fn clicking_a_row_selects_its_entity() {
    let mut map = BlueprintRuntimeMap::new();
    map.link(3, 300);
    let mut selection = VistaEditorSelection::default();
    on_hierarchy_item_click(true, 3, &map, &mut selection);
    assert_eq!(selection.selected_entity, None);
    on_hierarchy_item_click(false, 3, &map, &mut selection);
    assert_eq!(selection.selected_entity, Some(300));
    on_hierarchy_item_click(false, 4, &map, &mut selection);
    assert_eq!(selection.selected_entity, None);
}

#[test]
fn delete_key_removes_the_selection() {
    let reg = registry();
    let mut doc = WidgetBlueprintDocument::default();
    let a = root(&mut doc, &reg, "common/button");
    let mut selection = VistaEditorSelection { selected_entity: Some(77), ..VistaEditorSelection::default() };
    assert!(!delete_selected_blueprint_node_shortcut(true, true, Some(a), &mut selection, &mut doc, &reg));
    assert!(!delete_selected_blueprint_node_shortcut(false, false, Some(a), &mut selection, &mut doc, &reg));
    assert_eq!(doc.nodes.len(), 1);
    assert!(delete_selected_blueprint_node_shortcut(false, true, Some(a), &mut selection, &mut doc, &reg));
    assert!(doc.nodes.is_empty());
    assert_eq!(selection.selected_entity, None);
    assert!(!delete_selected_blueprint_node_shortcut(false, true, Some(a), &mut selection, &mut doc, &reg));
}

#[test]
fn children_go_into_their_slots() {
    let reg = registry();
    let mut doc = WidgetBlueprintDocument::default();
    let split = root(&mut doc, &reg, "layout/split_view");
    let first = apply_blueprint_command(BlueprintCommand::AddChild { parent: split, widget_path: "common/button".to_owned() }, &mut doc, &reg).ok().unwrap();
    let spawn = WidgetSpawnResult::new(100).with_slot("first", 101).with_slot("second", 102);
    assert_eq!(spawn.slot_entity("second"), Some(102));
    assert_eq!(spawn.slot_entity("third"), None);
    assert_eq!(resolve_child_parent_entity(&doc, &spawn, first, 0), 101);
    assert_eq!(resolve_child_parent_entity(&doc, &spawn, 555, 1), 102);
    assert_eq!(resolve_child_parent_entity(&doc, &spawn, 555, 2), 100);
    let replaced = WidgetSpawnResult::new(1).with_slot("first", 2).with_slot("first", 3);
    assert_eq!(replaced.slot_entity("first"), Some(3));
    assert_eq!(resolve_child_parent_entity(&doc, &WidgetSpawnResult::new(100), first, 0), 100);
}

#[test]
fn compiling_selects_the_entity_of_the_pending_node() {
    let reg = registry();
    let mut doc = WidgetBlueprintDocument::default();
    let a = root(&mut doc, &reg, "common/button");
    assert!(needs_compile(&doc, false));
    let mut map = BlueprintRuntimeMap::new();
    map.link(a, 500);
    let mut selection = VistaEditorSelection::default();
    finish_compile(&mut doc, &mut selection, &map);
    assert_eq!(selection.selected_entity, Some(500));
    assert!(!doc.dirty);
    assert_eq!(doc.pending_select, None);
    assert!(!needs_compile(&doc, false));
    assert!(needs_compile(&doc, true));
    assert_eq!(selected_node_id(&selection, &map), Some(a));
    map.clear();
    assert_eq!(selected_node_id(&selection, &map), None);
    finish_compile(&mut doc, &mut selection, &map);
    assert_eq!(selection.selected_entity, Some(500));
}

#[test]
fn library_drags_end_by_dropping_the_ghost() {
    let mut drag = WidgetLibDragState::default();
    assert_eq!(on_widget_tree_drag_start(&mut drag, "common/label".to_owned(), 4), None);
    assert_eq!(on_widget_tree_drag_start(&mut drag, "common/label".to_owned(), 5), Some(4));
    assert_eq!(drag.widget_id.as_deref(), Some("common/label"));
    assert_eq!(on_widget_tree_drag(&drag), Some(5));
    assert_eq!(cleanup_drag_ghost(&mut drag), Some(5));
    assert_eq!(on_widget_tree_drag(&drag), None);
    assert_eq!(on_widget_tree_drag_cancel(&mut drag), None);
    drag.widget_id = Some("common/button".to_owned());
    drag.ghost_entity = Some(8);
    assert_eq!(on_widget_tree_drag(&drag), Some(8));
    assert_eq!(on_widget_tree_drag_cancel(&mut drag), Some(8));
    assert!(drag.widget_id.is_none());
    assert!(drag.ghost_entity.is_none());
    drag.ghost_entity = Some(9);
    assert_eq!(cleanup_drag_ghost(&mut drag), Some(9));
    assert_eq!(on_widget_tree_drag(&drag), None);
}

#[test]
fn a_walk_places_children_in_their_slots() {
    let reg = registry();
    let mut doc = WidgetBlueprintDocument::default();
    let split = root(&mut doc, &reg, "layout/split_view");
    let left = apply_blueprint_command(BlueprintCommand::AddChild { parent: split, widget_path: "common/button".to_owned() }, &mut doc, &reg).ok().unwrap();
    let right = apply_blueprint_command(BlueprintCommand::AddChild { parent: split, widget_path: "common/button".to_owned() }, &mut doc, &reg).ok().unwrap();
    let mut walk = BuildWalk::start(&doc, 9);
    let step = walk.next_step().unwrap();
    assert_eq!(step, BuildStep { node: split, parent_entity: 9, is_root: true });
    walk.spawned(&doc, split, &WidgetSpawnResult::new(100).with_slot("first", 101).with_slot("second", 102));
    assert_eq!(walk.next_step(), Some(BuildStep { node: left, parent_entity: 101, is_root: false }));
    walk.spawned(&doc, left, &WidgetSpawnResult::new(200));
    assert_eq!(walk.next_step(), Some(BuildStep { node: right, parent_entity: 102, is_root: false }));
    walk.spawned(&doc, 999, &WidgetSpawnResult::new(300));
    assert_eq!(walk.next_step(), None);
}
