//! The editor's document toolbar: the action a button asks for, the status
//! line each outcome leaves, and which documents read from a file are taken.
use vstd::prelude::*;
use crate::document::{WidgetBlueprintDocument, DocView};
use crate::registry::WidgetRegistry;
use crate::tables::{node_table_keys, node_table_get};
use crate::messages::append;
use crate::text::string_of;

verus! {

/// What a toolbar button asks for.
#[derive(Clone, Copy, Debug, PartialEq, Eq, Structural)]
pub enum DocumentToolbarAction {
    Save,
    SaveAs,
    Load,
}

/// The action waiting to be done, and the status line with whether it
/// reports an error.
pub struct EditorDocumentToolbarState {
    pub pending_action: Option<DocumentToolbarAction>,
    pub status: String,
    pub is_error: bool,
}

impl EditorDocumentToolbarState {
    /// Nothing asked for, an empty status.
    pub fn default() -> (r: Self)
        ensures
            r.pending_action is None,
            r.status@ == Seq::<char>::empty(),
            !r.is_error,
    {
        EditorDocumentToolbarState { pending_action: None, status: String::new(), is_error: false }
    }
}

/// A click on a toolbar button asks for its action, done on the next
/// update (a later click replaces an earlier one not yet done).
pub fn on_toolbar_button_click(state: &mut EditorDocumentToolbarState, action: DocumentToolbarAction)
    ensures
        final(state).pending_action == Some(action),
        final(state).status == old(state).status,
        final(state).is_error == old(state).is_error,
{
    state.pending_action = Some(action);
}

/// The action asked for, if any; taking it means it is done once.
pub fn take_toolbar_action(state: &mut EditorDocumentToolbarState) -> (r: Option<DocumentToolbarAction>)
    ensures
        r == old(state).pending_action,
        final(state).pending_action is None,
        final(state).status == old(state).status,
        final(state).is_error == old(state).is_error,
{
    state.pending_action.take()
}

/// How an action ended: its file dialog was closed, the document was
/// written or read (with the path as shown to the user), or that failed
/// (with the reason).
pub enum ToolbarOutcome {
    Cancelled,
    Saved(String),
    Loaded(String),
    Failed(String),
}

/// The name of an action in the status line.
pub open spec fn action_name(action: DocumentToolbarAction) -> Seq<char> {
    match action {
        DocumentToolbarAction::Save => "Save"@,
        DocumentToolbarAction::SaveAs => "Save As"@,
        DocumentToolbarAction::Load => "Load"@,
    }
}

/// The status line an outcome leaves, and whether it reports an error.
pub open spec fn outcome_status(action: DocumentToolbarAction, outcome: ToolbarOutcome) -> (Seq<char>, bool) {
    match outcome {
        ToolbarOutcome::Cancelled => (action_name(action) + " cancelled"@, false),
        ToolbarOutcome::Saved(path) => ("Saved "@ + path@, false),
        ToolbarOutcome::Loaded(path) => ("Loaded "@ + path@, false),
        ToolbarOutcome::Failed(reason) => (action_name(if action is Load { action } else { DocumentToolbarAction::Save })
            + " failed: "@ + reason@, true),
    }
}

/// Writes the status line for how `action` ended.
pub fn report_toolbar_outcome(state: &mut EditorDocumentToolbarState, action: DocumentToolbarAction, outcome: ToolbarOutcome)
    ensures
        (final(state).status@, final(state).is_error) == outcome_status(action, outcome),
        final(state).pending_action == old(state).pending_action,
{
    let ghost expected = outcome_status(action, outcome);
    let mut text: Vec<char> = Vec::new();
    let is_error = match &outcome {
        ToolbarOutcome::Cancelled => {
            match action {
                DocumentToolbarAction::Save => append(&mut text, "Save"),
                DocumentToolbarAction::SaveAs => append(&mut text, "Save As"),
                DocumentToolbarAction::Load => append(&mut text, "Load"),
            }
            append(&mut text, " cancelled");
            false
        },
        ToolbarOutcome::Saved(path) => {
            append(&mut text, "Saved ");
            append(&mut text, path.as_str());
            false
        },
        ToolbarOutcome::Loaded(path) => {
            append(&mut text, "Loaded ");
            append(&mut text, path.as_str());
            false
        },
        ToolbarOutcome::Failed(reason) => {
            match action {
                DocumentToolbarAction::Load => append(&mut text, "Load"),
                _ => append(&mut text, "Save"),
            }
            append(&mut text, " failed: ");
            append(&mut text, reason.as_str());
            true
        },
    };
    assert(text@ =~= expected.0);
    state.status = string_of(text);
    state.is_error = is_error;
}

/// The reason a document read from a file is refused: a widget the
/// registry does not know.
pub fn unknown_widget_reason(widget_path: &str) -> (r: String)
    ensures
        r@ == "unknown widget "@ + widget_path@,
{
    let mut text: Vec<char> = Vec::new();
    append(&mut text, "unknown widget ");
    append(&mut text, widget_path);
    string_of(text)
}

/// The document's file as the status bar names it: its path, or
/// "<unsaved>" before it has one.
pub fn current_document_path_label(path: Option<&str>) -> (r: String)
    ensures
        r@ == (match path {
            Some(p) => p@,
            None => "<unsaved>"@,
        }),
{
    match path {
        Some(p) => p.to_owned(),
        None => "<unsaved>".to_owned(),
    }
}

/// The file line of the status bar.
pub fn status_path_text(path: Option<&str>) -> (r: String)
    ensures
        r@ == "File: "@ + (match path {
            Some(p) => p@,
            None => "<unsaved>"@,
        }),
{
    let label = current_document_path_label(path);
    let mut text: Vec<char> = Vec::new();
    append(&mut text, "File: ");
    append(&mut text, label.as_str());
    string_of(text)
}

/// Every node of `d` is of a widget the registry knows.
pub open spec fn widgets_known(d: DocView, reg: WidgetRegistry) -> bool {
    forall|k: u64| #[trigger] d.nodes.contains_key(k) ==> reg.lookup(d.nodes[k].widget_path) is Some
}

/// A document read from a file is taken when the registry knows the widget
/// of each of its nodes; it then asks to select its first root. Otherwise
/// the result is the path of a widget of one of its nodes that the
/// registry does not know (which one, when there are several, follows the
/// order of the node table).
pub fn accept_loaded_document(loaded: WidgetBlueprintDocument, widget_registry: &WidgetRegistry) -> (r: Result<WidgetBlueprintDocument, String>)
    ensures
        r is Ok <==> widgets_known(loaded@, *widget_registry),
        r matches Ok(d) ==> d@ == (DocView {
            pending_select: if loaded@.roots.len() > 0 { Some(loaded@.roots[0]) } else { None },
            ..loaded@
        }),
        r matches Err(p) ==> exists|k: u64| #[trigger] loaded@.nodes.contains_key(k)
            && loaded@.nodes[k].widget_path == p@ && widget_registry.lookup(p@) is None,
{
    let keys = node_table_keys(&loaded.nodes);
    let mut i: usize = 0;
    while i < keys.len()
        invariant
            0 <= i <= keys@.len(),
            keys@.to_set() == loaded@.nodes.dom(),
            forall|j: int| 0 <= j < i ==> widget_registry.lookup(#[trigger] loaded@.nodes[keys@[j]].widget_path) is Some,
        decreases keys@.len() - i,
    {
        let k = keys[i];
        assert(keys@.to_set().contains(keys@[i as int]));
        match node_table_get(&loaded.nodes, k) {
            Some(node) => {
                if widget_registry.get_widget_by_path(node.widget_path.as_str()).is_none() {
                    return Err(node.widget_path.clone());
                }
            },
            None => {},
        }
        i = i + 1;
    }
    assert forall|k: u64| #[trigger] loaded@.nodes.contains_key(k) implies widget_registry.lookup(loaded@.nodes[k].widget_path) is Some by {
        assert(keys@.to_set().contains(k));
        let j = keys@.index_of(k);
        assert(keys@[j] == k);
    }
    let mut d = loaded;
    d.pending_select = if d.roots.len() > 0 { Some(d.roots[0]) } else { None };
    Ok(d)
}

} // verus!
