//! The editor's own state: whether it is active, expanded, floating or full
//! screen, what is selected and what the view shows.
use vstd::prelude::*;

verus! {

/// Whether the editor is shown.
#[derive(Clone, Copy, Debug, PartialEq, Eq, Structural)]
pub struct VistaEditorActive(pub bool);

/// Whether the editor's content is unfolded.
#[derive(Clone, Copy, Debug, PartialEq, Eq, Structural)]
pub struct VistaEditorExpanded(pub bool);

/// Whether the editor floats over the scene or fills the window.
#[derive(Clone, Copy, Debug, PartialEq, Eq, Structural)]
pub enum VistaEditorMode {
    Floating,
    Fullscreen,
}

/// What a pointer gesture in the viewport does.
#[derive(Clone, Copy, Debug, PartialEq, Eq, Structural)]
pub enum EditingMode {
    Select,
    Move,
    Scale,
    Add,
}

/// What is selected in the editor, what a gesture does, and which widget a
/// click would add.
#[derive(Clone, Copy, Debug, PartialEq, Eq, Structural)]
pub struct VistaEditorSelection {
    pub selected_entity: Option<u64>,
    pub editing_mode: EditingMode,
    pub widget_to_add: Option<u64>,
}

/// What the viewport shows.
#[derive(Clone, Copy, Debug, PartialEq, Eq, Structural)]
pub struct VistaEditorViewOptions {
    pub show_grid: bool,
    pub snap_to_grid: bool,
    pub show_outlines: bool,
    pub is_preview_mode: bool,
}

impl VistaEditorActive {
    /// Not shown.
    pub fn default() -> (r: Self)
        ensures
            r == VistaEditorActive(false),
    {
        VistaEditorActive(false)
    }
}

impl VistaEditorExpanded {
    /// Folded.
    pub fn default() -> (r: Self)
        ensures
            r == VistaEditorExpanded(false),
    {
        VistaEditorExpanded(false)
    }
}

impl VistaEditorMode {
    /// Floating.
    pub fn default() -> (r: Self)
        ensures
            r == VistaEditorMode::Floating,
    {
        VistaEditorMode::Floating
    }
}

impl EditingMode {
    /// Selecting.
    pub fn default() -> (r: Self)
        ensures
            r == EditingMode::Select,
    {
        EditingMode::Select
    }
}

impl VistaEditorSelection {
    /// Nothing selected, selecting, nothing to add.
    pub fn default() -> (r: Self)
        ensures
            r == (VistaEditorSelection { selected_entity: None, editing_mode: EditingMode::Select, widget_to_add: None }),
    {
        VistaEditorSelection { selected_entity: None, editing_mode: EditingMode::default(), widget_to_add: None }
    }
}

impl VistaEditorViewOptions {
    /// Everything off.
    pub fn default() -> (r: Self)
        ensures
            r == (VistaEditorViewOptions { show_grid: false, snap_to_grid: false, show_outlines: false, is_preview_mode: false }),
    {
        VistaEditorViewOptions { show_grid: false, snap_to_grid: false, show_outlines: false, is_preview_mode: false }
    }
}

/// In full screen the editor is always unfolded; floating, it keeps its state.
pub fn sync_vista_editor_mode(mode: VistaEditorMode, expanded: &mut VistaEditorExpanded) -> (content_shown: bool)
    ensures
        mode == VistaEditorMode::Fullscreen ==> *final(expanded) == VistaEditorExpanded(true),
        mode == VistaEditorMode::Floating ==> *final(expanded) == *old(expanded),
        content_shown == final(expanded).0,
{
    match mode {
        VistaEditorMode::Fullscreen => {
            expanded.0 = true;
            true
        },
        VistaEditorMode::Floating => expanded.0,
    }
}

} // verus!
