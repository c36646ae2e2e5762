use bevy_vista::document::{apply_blueprint_command, BlueprintCommand, WidgetBlueprintDocument};
use bevy_vista::registry::{WidgetRegistration, WidgetRegistry};
use bevy_vista::toolbar::{
    accept_loaded_document, current_document_path_label, on_toolbar_button_click, report_toolbar_outcome, status_path_text,
    take_toolbar_action, unknown_widget_reason, DocumentToolbarAction, EditorDocumentToolbarState, ToolbarOutcome,
};

fn registry() -> WidgetRegistry {
    let mut reg = WidgetRegistry::new();
    reg.register(WidgetRegistration::of(1, "common", "button"));
    reg
}

#[test]
fn a_button_click_is_done_once() {
    let mut state = EditorDocumentToolbarState::default();
    assert_eq!(take_toolbar_action(&mut state), None);
    on_toolbar_button_click(&mut state, DocumentToolbarAction::Save);
    on_toolbar_button_click(&mut state, DocumentToolbarAction::Load);
    assert_eq!(take_toolbar_action(&mut state), Some(DocumentToolbarAction::Load));
    assert_eq!(take_toolbar_action(&mut state), None);
}

#[test]
fn outcomes_read_as_status_lines() {
    let mut state = EditorDocumentToolbarState::default();
    report_toolbar_outcome(&mut state, DocumentToolbarAction::Save, ToolbarOutcome::Cancelled);
    assert_eq!((state.status.as_str(), state.is_error), ("Save cancelled", false));
    report_toolbar_outcome(&mut state, DocumentToolbarAction::SaveAs, ToolbarOutcome::Cancelled);
    assert_eq!((state.status.as_str(), state.is_error), ("Save As cancelled", false));
    report_toolbar_outcome(&mut state, DocumentToolbarAction::Load, ToolbarOutcome::Cancelled);
    assert_eq!((state.status.as_str(), state.is_error), ("Load cancelled", false));
    report_toolbar_outcome(&mut state, DocumentToolbarAction::SaveAs, ToolbarOutcome::Saved("ui/a.vista.ron".to_owned()));
    assert_eq!((state.status.as_str(), state.is_error), ("Saved ui/a.vista.ron", false));
    report_toolbar_outcome(&mut state, DocumentToolbarAction::SaveAs, ToolbarOutcome::Failed("disk full".to_owned()));
    assert_eq!((state.status.as_str(), state.is_error), ("Save failed: disk full", true));
    report_toolbar_outcome(&mut state, DocumentToolbarAction::Load, ToolbarOutcome::Loaded("b.vista.ron".to_owned()));
    assert_eq!((state.status.as_str(), state.is_error), ("Loaded b.vista.ron", false));
    report_toolbar_outcome(&mut state, DocumentToolbarAction::Load, ToolbarOutcome::Failed(unknown_widget_reason("x/y")));
    assert_eq!((state.status.as_str(), state.is_error), ("Load failed: unknown widget x/y", true));
}

#[test]
fn the_status_bar_names_the_file() {
    assert_eq!(current_document_path_label(None), "<unsaved>");
    assert_eq!(current_document_path_label(Some("a.vista.ron")), "a.vista.ron");
    assert_eq!(status_path_text(None), "File: <unsaved>");
    assert_eq!(status_path_text(Some("ui/b.vista.ron")), "File: ui/b.vista.ron");
}

fn two_roots(reg: &WidgetRegistry) -> (WidgetBlueprintDocument, u64) {
    let mut doc = WidgetBlueprintDocument::default();
    let a = apply_blueprint_command(BlueprintCommand::AddRoot { widget_path: "common/button".to_owned() }, &mut doc, reg).ok().unwrap();
    apply_blueprint_command(BlueprintCommand::AddRoot { widget_path: "common/button".to_owned() }, &mut doc, reg).ok().unwrap();
    doc.pending_select = None;
    (doc, a)
}

#[test]
fn loaded_documents_with_unknown_widgets_are_refused() {
    let reg = registry();
    let (doc, a) = two_roots(&reg);
    let roots = doc.roots.clone();
    let taken = accept_loaded_document(doc, &reg).ok().unwrap();
    assert_eq!(taken.pending_select, Some(a));
    assert_eq!(taken.roots, roots);
    let (mut doc, a) = two_roots(&reg);
    doc.nodes.get_mut(&a).unwrap().widget_path = "gone/widget".to_owned();
    assert_eq!(accept_loaded_document(doc, &reg).err(), Some("gone/widget".to_owned()));
    let empty = accept_loaded_document(WidgetBlueprintDocument::default(), &reg).ok().unwrap();
    assert_eq!(empty.pending_select, None);
}
