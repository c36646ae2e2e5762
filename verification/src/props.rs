//! What the inspector does to the document: which node it shows, and how a
//! field it edits is written into that node.
use vstd::prelude::*;
use crate::document::{WidgetBlueprintDocument, BlueprintCommand, CommandView, spec_apply, apply_blueprint_command};
use crate::registry::WidgetRegistry;
use crate::style::WidgetStyle;

verus! {

/// Which node the inspector shows, and whether it is shown.
#[derive(Clone, Copy, Debug, PartialEq, Eq, Structural)]
pub struct InspectorContext {
    pub selected_node: Option<u64>,
    pub visible: bool,
}

impl InspectorContext {
    /// Nothing selected, hidden.
    pub fn default() -> (r: Self)
        ensures
            r == (InspectorContext { selected_node: None, visible: false }),
    {
        InspectorContext { selected_node: None, visible: false }
    }

    /// Shows nothing.
    pub fn clear(&mut self)
        ensures
            *final(self) == (InspectorContext { selected_node: None, visible: false }),
    {
        self.selected_node = None;
        self.visible = false;
    }

    /// Shows the node `node_id`.
    pub fn select(&mut self, node_id: u64)
        ensures
            *final(self) == (InspectorContext { selected_node: Some(node_id), visible: true }),
    {
        self.selected_node = Some(node_id);
        self.visible = true;
    }
}

/// Writes `serialized` as the value of the field `field_path` of the
/// node's widget properties.
pub fn apply_widget_prop_change(node_id: u64, field_path: &str, serialized: String, document: &mut WidgetBlueprintDocument, widget_registry: &WidgetRegistry)
    ensures
        final(document)@ == spec_apply(old(document)@, CommandView::SetNodeProp { node: node_id, key: field_path@, value: serialized@ }, *widget_registry).0,
{
    let _ = apply_blueprint_command(
        BlueprintCommand::SetNodeProp { node: node_id, key: field_path.to_owned(), value: serialized },
        document,
        widget_registry,
    );
}

/// Removes the field `field_path` from the node's widget properties, so the
/// widget's default shows again.
pub fn clear_widget_prop_change(node_id: u64, field_path: &str, document: &mut WidgetBlueprintDocument, widget_registry: &WidgetRegistry)
    ensures
        final(document)@ == spec_apply(old(document)@, CommandView::RemoveNodeProp { node: node_id, key: field_path@ }, *widget_registry).0,
{
    let _ = apply_blueprint_command(
        BlueprintCommand::RemoveNodeProp { node: node_id, key: field_path.to_owned() },
        document,
        widget_registry,
    );
}

/// Gives the node a new style.
pub fn apply_style_change(node_id: u64, style: WidgetStyle, document: &mut WidgetBlueprintDocument, widget_registry: &WidgetRegistry)
    ensures
        final(document)@ == spec_apply(old(document)@, CommandView::SetNodeStyle { node: node_id, style: style@ }, *widget_registry).0,
{
    let _ = apply_blueprint_command(
        BlueprintCommand::SetNodeStyle { node: node_id, style },
        document,
        widget_registry,
    );
}

/// Stores an edited widget field. Nothing happens for a node that does not
/// exist or a value that could not be written out; a value equal to the
/// widget's default is removed; any other value, or one with no default to
/// compare with (`equals_default` none), is stored.
pub fn store_widget_prop_change(
    node_id: u64,
    field_path: &str,
    serialized: Option<String>,
    equals_default: Option<bool>,
    document: &mut WidgetBlueprintDocument,
    widget_registry: &WidgetRegistry,
)
    ensures
        !old(document)@.nodes.contains_key(node_id) || serialized is None ==> final(document)@ == old(document)@,
        old(document)@.nodes.contains_key(node_id) && serialized is Some && equals_default == Some(true) ==>
            final(document)@ == spec_apply(old(document)@, CommandView::RemoveNodeProp { node: node_id, key: field_path@ }, *widget_registry).0,
        old(document)@.nodes.contains_key(node_id) && serialized is Some && equals_default != Some(true) ==>
            final(document)@ == spec_apply(old(document)@, CommandView::SetNodeProp { node: node_id, key: field_path@, value: serialized->0@ }, *widget_registry).0,
{
    if !document.contains_node(node_id) {
        return;
    }
    let serialized = match serialized {
        Some(s) => s,
        None => return,
    };
    match equals_default {
        Some(true) => clear_widget_prop_change(node_id, field_path, document, widget_registry),
        _ => apply_widget_prop_change(node_id, field_path, serialized, document, widget_registry),
    }
}

} // verus!
