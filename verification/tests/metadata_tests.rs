use bevy_vista::metadata::{parse_child_rule, parse_slots, parse_widget_path, split_text};
use bevy_vista::registry::WidgetChildRule;

#[test]
fn child_rules_parse() {
    assert_eq!(parse_child_rule("any"), Some(WidgetChildRule::Any));
    assert_eq!(parse_child_rule("  ANY \n"), Some(WidgetChildRule::Any));
    assert_eq!(parse_child_rule("exact(0)"), Some(WidgetChildRule::Exact(0)));
    assert_eq!(parse_child_rule("Exact( 2 )"), Some(WidgetChildRule::Exact(2)));
    assert_eq!(parse_child_rule("max(+12)"), Some(WidgetChildRule::Range { max: Some(12) }));
    assert_eq!(parse_child_rule("exact()"), None);
    assert_eq!(parse_child_rule("exact(-1)"), None);
    assert_eq!(parse_child_rule("exact(1"), None);
    assert_eq!(parse_child_rule("max(99999999999999999999999)"), None);
    assert_eq!(parse_child_rule("some"), None);
    assert_eq!(parse_child_rule(""), None);
}

#[test]
fn slots_are_trimmed_and_empty_ones_dropped() {
    assert_eq!(parse_slots("first,second"), vec!["first".to_owned(), "second".to_owned()]);
    assert_eq!(parse_slots(" a , ,b,, "), vec!["a".to_owned(), "b".to_owned()]);
    assert!(parse_slots("").is_empty());
    assert!(parse_slots(" , ").is_empty());
}

#[test]
fn split_keeps_empty_pieces() {
    assert_eq!(split_text("a,,b,", ','), vec!["a".to_owned(), "".to_owned(), "b".to_owned(), "".to_owned()]);
    assert_eq!(split_text("", ','), vec!["".to_owned()]);
}

#[test]
fn widget_paths_have_two_parts() {
    assert_eq!(parse_widget_path("common/button"), Some(("common".to_owned(), "button".to_owned())));
    assert_eq!(parse_widget_path("/x"), Some(("".to_owned(), "x".to_owned())));
    assert_eq!(parse_widget_path("button"), None);
    assert_eq!(parse_widget_path("a/b/c"), None);
}
