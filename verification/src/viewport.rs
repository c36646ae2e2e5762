//! The editor window's and the canvas's gestures: folding the editor,
//! preview mode, and selecting and dragging widgets on the canvas. The
//! engine measures the pointer; what a gesture means is decided here.
use vstd::prelude::*;
use crate::editor_state::{VistaEditorMode, VistaEditorExpanded, VistaEditorSelection, VistaEditorViewOptions, VistaEditorActive};
use crate::ui::Val;
use crate::widgets::F32_100;

verus! {

/// A press on the fold button longer than this many nanoseconds is a drag
/// of the title bar, not a click.
pub const FOLD_CLICK_MAX_NANOS: u64 = 100_000_000u64;

/// The editor's content shows in full screen, and when floating only while
/// unfolded.
pub fn editor_content_expanded(mode: VistaEditorMode, expanded: VistaEditorExpanded) -> (r: bool)
    ensures
        r == (mode == VistaEditorMode::Fullscreen || expanded.0),
{
    match mode {
        VistaEditorMode::Fullscreen => true,
        VistaEditorMode::Floating => expanded.0,
    }
}

/// 20.0 as `f32` bits: how far a floating editor sits from the corner.
pub const F32_20: u32 = 0x41a0_0000;
/// 800.0 as `f32` bits: the width of a floating editor's content.
pub const F32_800: u32 = 0x4448_0000;
/// 500.0 as `f32` bits: the height of a floating editor's content.
pub const F32_500: u32 = 0x43fa_0000;

/// How the editor's frame is first laid out: whether it is spawned at all,
/// whether it shows, the offset of each edge, how far it is moved from the
/// corner, and the size and visibility of its content.
#[derive(Clone, Copy, Debug, PartialEq, Eq, Structural)]
pub struct EditorFramePlan {
    pub spawn: bool,
    pub shown: bool,
    pub edge_offset: Val,
    pub translation: Val,
    pub content_width: Val,
    pub content_height: Val,
    pub content_grows: bool,
    pub content_shown: bool,
}

/// The layout of a new editor frame: none when an editor frame exists
/// already; shown while the editor is active; in full screen pinned to the
/// window's edges with content filling it, and floating 20 pixels from the
/// corner with content of 800 by 500; the content shows in full screen and,
/// floating, while unfolded.
pub fn plan_editor_frame(frame_exists: bool, active: VistaEditorActive, expanded: VistaEditorExpanded, mode: VistaEditorMode) -> (r: EditorFramePlan)
    ensures
        r.spawn == !frame_exists,
        r.shown == active.0,
        r.content_shown == (mode == VistaEditorMode::Fullscreen || expanded.0),
        mode == VistaEditorMode::Fullscreen ==> r.edge_offset == Val::Px(0) && r.translation == Val::Px(0)
            && r.content_width == Val::Percent(F32_100) && r.content_height == Val::Auto && r.content_grows,
        mode == VistaEditorMode::Floating ==> r.edge_offset == Val::Auto && r.translation == Val::Px(F32_20)
            && r.content_width == Val::Px(F32_800) && r.content_height == Val::Px(F32_500) && !r.content_grows,
{
    let fullscreen = mode == VistaEditorMode::Fullscreen;
    EditorFramePlan {
        spawn: !frame_exists,
        shown: active.0,
        edge_offset: if fullscreen { Val::Px(0) } else { Val::Auto },
        translation: if fullscreen { Val::Px(0) } else { Val::Px(F32_20) },
        content_width: if fullscreen { Val::Percent(F32_100) } else { Val::Px(F32_800) },
        content_height: if fullscreen { Val::Auto } else { Val::Px(F32_500) },
        content_grows: fullscreen,
        content_shown: editor_content_expanded(mode, expanded),
    }
}

/// A click on the fold button folds or unfolds the floating editor; in full
/// screen, or for a press longer than `FOLD_CLICK_MAX_NANOS`, nothing
/// happens. The result says whether it toggled.
pub fn on_fold_button_click(mode: VistaEditorMode, press_nanos: u64, expanded: &mut VistaEditorExpanded) -> (toggled: bool)
    ensures
        toggled == (mode == VistaEditorMode::Floating && press_nanos <= FOLD_CLICK_MAX_NANOS),
        toggled ==> *final(expanded) == VistaEditorExpanded(!old(expanded).0),
        !toggled ==> *final(expanded) == *old(expanded),
{
    if mode == VistaEditorMode::Fullscreen || press_nanos > FOLD_CLICK_MAX_NANOS {
        return false;
    }
    expanded.0 = !expanded.0;
    true
}

/// F5 switches preview mode on and off; switching it on drops the
/// selection.
pub fn toggle_preview_mode_with_key(f5_pressed: bool, options: &mut VistaEditorViewOptions, selection: &mut VistaEditorSelection)
    ensures
        !f5_pressed ==> *final(options) == *old(options) && *final(selection) == *old(selection),
        f5_pressed ==> *final(options) == (VistaEditorViewOptions { is_preview_mode: !old(options).is_preview_mode, ..*old(options) }),
        f5_pressed && !old(options).is_preview_mode ==> *final(selection) == (VistaEditorSelection { selected_entity: None, ..*old(selection) }),
        f5_pressed && old(options).is_preview_mode ==> *final(selection) == *old(selection),
{
    if f5_pressed {
        options.is_preview_mode = !options.is_preview_mode;
        if options.is_preview_mode {
            selection.selected_entity = None;
        }
    }
}

/// The widget the canvas outlines as selected: none while previewing.
pub fn outlined_selection(options: &VistaEditorViewOptions, selection: &VistaEditorSelection) -> (r: Option<u64>)
    ensures
        r == (if options.is_preview_mode { None } else { selection.selected_entity }),
{
    if options.is_preview_mode {
        None
    } else {
        selection.selected_entity
    }
}

/// Whether a widget on the canvas follows the pointer.
#[derive(Clone, Copy, Debug, PartialEq, Eq, Structural)]
pub struct CanvasWidgetDragState {
    pub dragging: bool,
}

impl CanvasWidgetDragState {
    /// Not dragged.
    pub fn default() -> (r: Self)
        ensures
            r == (CanvasWidgetDragState { dragging: false }),
    {
        CanvasWidgetDragState { dragging: false }
    }
}

/// A click on the handle of the widget `owner` selects it, unless the
/// editor previews. The result says whether the click was taken.
pub fn on_canvas_widget_handle_click(options: &VistaEditorViewOptions, owner: u64, selection: &mut VistaEditorSelection) -> (taken: bool)
    ensures
        taken == !options.is_preview_mode,
        taken ==> *final(selection) == (VistaEditorSelection { selected_entity: Some(owner), ..*old(selection) }),
        !taken ==> *final(selection) == *old(selection),
{
    if options.is_preview_mode {
        return false;
    }
    selection.selected_entity = Some(owner);
    true
}

/// Pressing on the handle of the widget `owner` selects it; a widget placed
/// absolutely also starts to follow the pointer. Nothing happens while the
/// editor previews. The result says whether the press was taken.
pub fn on_canvas_widget_handle_drag_start(
    options: &VistaEditorViewOptions,
    owner: u64,
    placed_absolutely: bool,
    drag: &mut CanvasWidgetDragState,
    selection: &mut VistaEditorSelection,
) -> (taken: bool)
    ensures
        taken == !options.is_preview_mode,
        taken ==> *final(selection) == (VistaEditorSelection { selected_entity: Some(owner), ..*old(selection) }),
        taken && placed_absolutely ==> final(drag).dragging,
        !(taken && placed_absolutely) ==> *final(drag) == *old(drag),
        !taken ==> *final(selection) == *old(selection),
{
    if options.is_preview_mode {
        return false;
    }
    if placed_absolutely {
        drag.dragging = true;
    }
    selection.selected_entity = Some(owner);
    true
}

/// Whether moving the pointer moves the widget: only one being dragged and
/// placed absolutely, and not while the editor previews.
pub fn canvas_widget_follows_pointer(options: &VistaEditorViewOptions, drag: &CanvasWidgetDragState, placed_absolutely: bool) -> (r: bool)
    ensures
        r == (!options.is_preview_mode && drag.dragging && placed_absolutely),
{
    !options.is_preview_mode && drag.dragging && placed_absolutely
}

/// Letting go of (or cancelling) a widget's drag stops it following the
/// pointer, unless the editor previews. The result says whether it was
/// taken.
pub fn on_canvas_widget_handle_drag_end(options: &VistaEditorViewOptions, drag: &mut CanvasWidgetDragState) -> (taken: bool)
    ensures
        taken == !options.is_preview_mode,
        taken ==> !final(drag).dragging,
        !taken ==> *final(drag) == *old(drag),
{
    if options.is_preview_mode {
        return false;
    }
    drag.dragging = false;
    true
}

/// A click on the empty canvas clears the selection, unless the editor
/// previews. The result says whether it was taken.
pub fn on_elements_container_click(options: &VistaEditorViewOptions, selection: &mut VistaEditorSelection) -> (taken: bool)
    ensures
        taken == !options.is_preview_mode,
        taken ==> *final(selection) == (VistaEditorSelection { selected_entity: None, ..*old(selection) }),
        !taken ==> *final(selection) == *old(selection),
{
    if options.is_preview_mode {
        return false;
    }
    selection.selected_entity = None;
    true
}

} // verus!
