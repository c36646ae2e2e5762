use bevy_vista::registry::{WidgetChildRule, WidgetRegistration, WidgetRegistry};

#[test]
fn registry_finds_widgets_by_path_and_key() {
    let mut reg = WidgetRegistry::new();
    assert!(reg.register(WidgetRegistration::of(10, "common", "button")));
    assert!(reg.register(WidgetRegistration::of(11, "layout", "split_view").child_rule_config(WidgetChildRule::Exact(2)).child_slots(&["first", "second"])));
    let button = reg.get_widget_by_path("common/button").expect("button is registered");
    assert_eq!(button.category(), "common");
    assert_eq!(button.name(), "button");
    assert_eq!(button.type_key(), 10);
    assert_eq!(button.full_path(), "common/button");
    assert!(reg.get_widget_by_path("common/missing").is_none());
    assert_eq!(reg.widget_path(11).as_deref(), Some("layout/split_view"));
    let split = reg.get_widget(11).unwrap();
    assert_eq!(split.child_rule(), WidgetChildRule::Exact(2));
    assert_eq!(split.child_slot_at(0), Some("first"));
    assert_eq!(split.child_slot_at(1), Some("second"));
    assert_eq!(split.child_slot_at(2), None);
    assert_eq!(reg.get_all_widgets().len(), 10);
}

#[test]
fn registering_a_type_twice_keeps_the_first() {
    let mut reg = WidgetRegistry::new();
    assert!(reg.register(WidgetRegistration::of(1, "common", "button")));
    assert!(!reg.register(WidgetRegistration::of(1, "common", "other")));
    assert!(reg.get_widget_by_path("common/other").is_none());
    assert_eq!(reg.get_widget(1).unwrap().name(), "button");
}

#[test]
fn child_rules_count_children() {
    assert!(WidgetChildRule::Any.allows_one_more(1000));
    assert!(WidgetChildRule::Exact(2).allows_one_more(1));
    assert!(!WidgetChildRule::Exact(2).allows_one_more(2));
    assert!(WidgetChildRule::Range { max: Some(3) }.allows_one_more(2));
    assert!(!WidgetChildRule::Range { max: Some(3) }.allows_one_more(3));
    assert!(WidgetChildRule::Range { max: None }.allows_one_more(7));
    assert_eq!(WidgetChildRule::default(), WidgetChildRule::Any);
}

#[test]
fn one_slot_is_every_childs_slot() {
    let reg = WidgetRegistration::of(5, "layout", "panel").child_slots(&["content"]);
    assert_eq!(reg.child_slot_at(0), Some("content"));
    assert_eq!(reg.child_slot_at(3), Some("content"));
    let none = WidgetRegistration::of(6, "layout", "bare");
    assert_eq!(none.child_slot_at(0), None);
}

#[test]
fn a_new_registry_holds_the_built_in_widgets() {
    let reg = WidgetRegistry::new();
    for path in [
        "common/button",
        "common/label",
        "common/image",
        "layout/split_view",
        "input/number_field",
        "input/dropdown",
        "input/checkbox",
        "layout/divider",
    ] {
        assert_eq!(reg.get_widget_by_path(path).map(|w| w.full_path()), Some(path.to_owned()));
    }
    assert_eq!(reg.get_all_widgets().len(), 8);
    let split = reg.get_widget_by_path("layout/split_view").unwrap();
    assert_eq!(split.child_rule(), WidgetChildRule::Exact(2));
    assert_eq!(split.child_slot_at(0), Some("first"));
    assert_eq!(split.child_slot_at(1), Some("second"));
    assert_eq!(reg.get_widget_by_path("common/image").unwrap().child_rule(), WidgetChildRule::Exact(0));
    assert_eq!(reg.get_widget_by_path("common/button").unwrap().child_rule(), WidgetChildRule::Any);
}

#[test]
fn registering_the_same_widget_again_keeps_its_path_found() {
    let mut reg = WidgetRegistry::new();
    assert!(reg.register(WidgetRegistration::of(77, "custom", "panel")));
    let before = reg.get_all_widgets().len();
    assert!(!reg.register(WidgetRegistration::of(77, "custom", "panel")));
    assert_eq!(reg.get_all_widgets().len(), before);
    assert_eq!(reg.get_widget_by_path("custom/panel").unwrap().full_path(), "custom/panel");
}
