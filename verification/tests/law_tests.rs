use bevy_vista::inputs::{on_checkbox_click, on_dropdown_header_click, Checkbox, Dropdown};
use bevy_vista::metadata::parse_child_rule;
use bevy_vista::props::{apply_widget_prop_change, clear_widget_prop_change};
use bevy_vista::registry::WidgetChildRule;
use bevy_vista::document::{apply_blueprint_command, BlueprintCommand, WidgetBlueprintDocument};
use bevy_vista::spawn::{BuildWalk, WidgetSpawnResult};
use bevy_vista::tree::{is_descendant_of, topmost_ancestor, EntityTree};

#[test]
fn two_clicks_leave_a_checkbox_as_it_was() {
    for (checked, disabled) in [(false, false), (true, false), (false, true), (true, true)] {
        let start = Checkbox { checked, disabled };
        let mut c = start;
        on_checkbox_click(&mut c, 1);
        on_checkbox_click(&mut c, 1);
        assert_eq!(c, start);
    }
}

#[test]
fn two_header_clicks_leave_a_dropdown_as_it_was() {
    let mut d = Dropdown::default();
    on_dropdown_header_click(&mut d);
    on_dropdown_header_click(&mut d);
    assert!(!d.expanded);
    d.disabled = true;
    on_dropdown_header_click(&mut d);
    on_dropdown_header_click(&mut d);
    assert!(!d.expanded);
}

#[test]
fn entities_lie_below_their_topmost_ancestor() {
    let mut t = EntityTree::new();
    t.add(1, None, None, None);
    t.add(2, Some(1), None, None);
    t.add(3, Some(2), None, None);
    t.add(9, None, None, None);
    for e in [1, 2, 3, 9] {
        let top = topmost_ancestor(e, &t);
        assert!(is_descendant_of(e, top, &t));
        assert_eq!(topmost_ancestor(top, &t), top);
    }
    assert_eq!(topmost_ancestor(3, &t), 1);
}

#[test]
fn numbers_written_out_read_back() {
    for n in [0usize, 7, 10, 99, 12345, usize::MAX] {
        assert_eq!(parse_child_rule(&format!("max({n})")), Some(WidgetChildRule::Range { max: Some(n) }));
    }
}

#[test]
fn a_walk_spawns_every_node_once_after_its_parent() {
    let mut reg = bevy_vista::registry::WidgetRegistry::new();
    reg.register(bevy_vista::registry::WidgetRegistration::of(1, "common", "button"));
    let mut doc = WidgetBlueprintDocument::default();
    let add_root = |doc: &mut WidgetBlueprintDocument| {
        apply_blueprint_command(BlueprintCommand::AddRoot { widget_path: "common/button".to_owned() }, doc, &reg).ok().unwrap()
    };
    let a = add_root(&mut doc);
    let b = add_root(&mut doc);
    let add_child = |doc: &mut WidgetBlueprintDocument, parent: u64| {
        apply_blueprint_command(BlueprintCommand::AddChild { parent, widget_path: "common/button".to_owned() }, doc, &reg).ok().unwrap()
    };
    let a1 = add_child(&mut doc, a);
    let a2 = add_child(&mut doc, a);
    let a11 = add_child(&mut doc, a1);
    let b1 = add_child(&mut doc, b);
    let mut walk = BuildWalk::start(&doc, 7);
    let mut order = Vec::new();
    while let Some(step) = walk.next_step() {
        let expected_parent = match doc.nodes.get(&step.node).unwrap().parent {
            Some(p) => 1000 + p,
            None => 7,
        };
        assert_eq!(step.parent_entity, expected_parent);
        assert_eq!(step.is_root, step.parent_entity == 7);
        order.push(step.node);
        walk.spawned(&doc, step.node, &WidgetSpawnResult::new(1000 + step.node));
    }
    assert_eq!(order, vec![a, a1, a11, a2, b, b1]);
}

#[test]
fn a_property_set_then_cleared_leaves_no_trace() {
    let mut reg = bevy_vista::registry::WidgetRegistry::new();
    reg.register(bevy_vista::registry::WidgetRegistration::of(1, "common", "button"));
    let mut doc = WidgetBlueprintDocument::default();
    let a = apply_blueprint_command(BlueprintCommand::AddRoot { widget_path: "common/button".to_owned() }, &mut doc, &reg).ok().unwrap();
    apply_widget_prop_change(a, "text", "kept".to_owned(), &mut doc, &reg);
    apply_widget_prop_change(a, "color", "red".to_owned(), &mut doc, &reg);
    clear_widget_prop_change(a, "color", &mut doc, &reg);
    let props = &doc.nodes.get(&a).unwrap().props;
    assert_eq!(props.len(), 1);
    assert_eq!(props.get("text").map(String::as_str), Some("kept"));
    assert!(doc.dirty);
    assert_eq!(doc.pending_select, Some(a));
}
