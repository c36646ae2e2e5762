use bevy_vista::ui::Val;
use bevy_vista::editor_state::{VistaEditorActive, VistaEditorExpanded, VistaEditorMode, VistaEditorSelection, VistaEditorViewOptions};
use bevy_vista::viewport::{
    canvas_widget_follows_pointer, editor_content_expanded, on_canvas_widget_handle_click, on_canvas_widget_handle_drag_end,
    on_canvas_widget_handle_drag_start, on_elements_container_click, on_fold_button_click, outlined_selection,
    toggle_preview_mode_with_key, plan_editor_frame, CanvasWidgetDragState, FOLD_CLICK_MAX_NANOS,
};

#[test]
fn the_fold_button_toggles_a_floating_editor_on_a_short_click() {
    let mut expanded = VistaEditorExpanded(false);
    assert!(on_fold_button_click(VistaEditorMode::Floating, 40_000_000, &mut expanded));
    assert_eq!(expanded, VistaEditorExpanded(true));
    assert!(on_fold_button_click(VistaEditorMode::Floating, FOLD_CLICK_MAX_NANOS, &mut expanded));
    assert_eq!(expanded, VistaEditorExpanded(false));
    assert!(!on_fold_button_click(VistaEditorMode::Floating, FOLD_CLICK_MAX_NANOS + 1, &mut expanded));
    assert!(!on_fold_button_click(VistaEditorMode::Fullscreen, 0, &mut expanded));
    assert_eq!(expanded, VistaEditorExpanded(false));
    assert!(editor_content_expanded(VistaEditorMode::Fullscreen, expanded));
    assert!(!editor_content_expanded(VistaEditorMode::Floating, expanded));
    assert!(editor_content_expanded(VistaEditorMode::Floating, VistaEditorExpanded(true)));
}

#[test]
fn preview_mode_drops_the_selection_and_ignores_gestures() {
    let mut options = VistaEditorViewOptions::default();
    let mut selection = VistaEditorSelection::default();
    assert!(on_canvas_widget_handle_click(&options, 7, &mut selection));
    assert_eq!(selection.selected_entity, Some(7));
    assert_eq!(outlined_selection(&options, &selection), Some(7));
    toggle_preview_mode_with_key(false, &mut options, &mut selection);
    assert!(!options.is_preview_mode);
    toggle_preview_mode_with_key(true, &mut options, &mut selection);
    assert!(options.is_preview_mode);
    assert_eq!(selection.selected_entity, None);
    assert!(!on_canvas_widget_handle_click(&options, 8, &mut selection));
    assert_eq!(selection.selected_entity, None);
    selection.selected_entity = Some(3);
    assert_eq!(outlined_selection(&options, &selection), None);
    assert!(!on_elements_container_click(&options, &mut selection));
    assert_eq!(selection.selected_entity, Some(3));
    toggle_preview_mode_with_key(true, &mut options, &mut selection);
    assert!(!options.is_preview_mode);
    assert_eq!(selection.selected_entity, Some(3));
    assert!(on_elements_container_click(&options, &mut selection));
    assert_eq!(selection.selected_entity, None);
}

#[test]
fn only_absolutely_placed_widgets_follow_the_pointer() {
    let options = VistaEditorViewOptions::default();
    let mut selection = VistaEditorSelection::default();
    let mut drag = CanvasWidgetDragState::default();
    assert!(on_canvas_widget_handle_drag_start(&options, 4, false, &mut drag, &mut selection));
    assert_eq!(selection.selected_entity, Some(4));
    assert!(!drag.dragging);
    assert!(!canvas_widget_follows_pointer(&options, &drag, false));
    assert!(on_canvas_widget_handle_drag_start(&options, 5, true, &mut drag, &mut selection));
    assert!(drag.dragging);
    assert!(canvas_widget_follows_pointer(&options, &drag, true));
    let preview = VistaEditorViewOptions { is_preview_mode: true, ..VistaEditorViewOptions::default() };
    assert!(!canvas_widget_follows_pointer(&preview, &drag, true));
    assert!(!on_canvas_widget_handle_drag_end(&preview, &mut drag));
    assert!(drag.dragging);
    assert!(on_canvas_widget_handle_drag_end(&options, &mut drag));
    assert!(!drag.dragging);
}

#[test]
fn the_editor_frame_is_laid_out_by_mode() {
    let floating = plan_editor_frame(false, VistaEditorActive(true), VistaEditorExpanded(false), VistaEditorMode::Floating);
    assert!(floating.spawn && floating.shown && !floating.content_shown && !floating.content_grows);
    assert_eq!(floating.edge_offset, Val::Auto);
    assert_eq!(floating.translation, Val::Px(20.0f32.to_bits()));
    assert_eq!(floating.content_width, Val::Px(800.0f32.to_bits()));
    assert_eq!(floating.content_height, Val::Px(500.0f32.to_bits()));
    let full = plan_editor_frame(false, VistaEditorActive(false), VistaEditorExpanded(false), VistaEditorMode::Fullscreen);
    assert!(full.spawn && !full.shown && full.content_shown && full.content_grows);
    assert_eq!(full.edge_offset, Val::Px(0.0f32.to_bits()));
    assert_eq!(full.translation, Val::Px(0));
    assert_eq!(full.content_width, Val::Percent(100.0f32.to_bits()));
    assert_eq!(full.content_height, Val::Auto);
    assert!(!plan_editor_frame(true, VistaEditorActive(true), VistaEditorExpanded(true), VistaEditorMode::Floating).spawn);
}
