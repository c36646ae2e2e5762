//! What the editor's gestures do to the document: dropping a widget from
//! the library, dropping a node in the hierarchy, deleting the selection,
//! and where a spawned node's children go.
use vstd::prelude::*;
use crate::document::{WidgetBlueprintDocument, BlueprintCommand, CommandView, DocView, climb_ends, spec_apply, apply_blueprint_command,
    doc_wf, fresh_node, with_children};
use crate::laws::{lemma_refresh_slots_shape, lemma_refused_command_changes_nothing};
use crate::registry::WidgetRegistry;
use crate::tables::node_table_get;
use crate::editor_state::VistaEditorSelection;
use std::collections::HashMap;

verus! {


broadcast use vstd::std_specs::hash::group_hash_axioms;

/// Where a widget dragged from the library was let go: over the viewport
/// (with the node of the selected entity, if any), over the hierarchy (with
/// the node whose row is under the pointer, if any), or elsewhere.
#[derive(Clone, Copy, Debug, PartialEq, Eq, Structural)]
pub enum WidgetDrop {
    Viewport { selected_node: Option<u64> },
    Hierarchy { target: Option<u64> },
    Elsewhere,
}

/// Adds `widget_path` under `parent`, or as a root when that is refused.
pub open spec fn add_under_or_root(d: DocView, parent: u64, path: Seq<char>, reg: WidgetRegistry) -> DocView {
    let (d1, r1) = spec_apply(d, CommandView::AddChild { parent, widget_path: path }, reg);
    if r1 is Ok { d1 } else { spec_apply(d1, CommandView::AddRoot { widget_path: path }, reg).0 }
}

/// What dropping a widget from the library does to a document.
pub open spec fn spec_drop_widget(d: DocView, path: Seq<char>, drop: WidgetDrop, reg: WidgetRegistry) -> (DocView, bool) {
    if reg.lookup(path) is None {
        (d, false)
    } else {
        match drop {
            WidgetDrop::Viewport { selected_node } => match selected_node {
                Some(p) => (add_under_or_root(d, p, path, reg), true),
                None => (spec_apply(d, CommandView::AddRoot { widget_path: path }, reg).0, true),
            },
            WidgetDrop::Hierarchy { target } => match target {
                Some(p) => (add_under_or_root(d, p, path, reg), true),
                None => {
                    let (d1, r1) = spec_apply(d, CommandView::AddRoot { widget_path: path }, reg);
                    (if r1 is Ok { d1 } else { spec_apply(d1, CommandView::AddRoot { widget_path: path }, reg).0 }, true)
                },
            },
            WidgetDrop::Elsewhere => (d, false),
        }
    }
}

/// Adding `path` under `parent` or, when refused, as a root: on a
/// well-formed document with ids left, exactly one node comes in, under the
/// next id, a `path` widget, hung under `parent` or else a root.
proof fn lemma_add_under_or_root_adds_one(d: DocView, parent: u64, path: Seq<char>, reg: WidgetRegistry)
    requires
        doc_wf(d),
        d.next_id < u64::MAX,
        reg.lookup(path) is Some,
    ensures
        ({
            let e = add_under_or_root(d, parent, path, reg);
            &&& !d.nodes.contains_key(d.next_id)
            &&& e.nodes.dom() == d.nodes.dom().insert(d.next_id)
            &&& e.nodes[d.next_id].widget_path == path
            &&& e.nodes[d.next_id].parent == Some(parent) || e.roots.contains(d.next_id)
        }),
{
    let id = d.next_id;
    let (d1, r1) = spec_apply(d, CommandView::AddChild { parent, widget_path: path }, reg);
    if r1 is Ok {
        let nodes1 = d.nodes.insert(id, fresh_node(id, path, Some(parent)));
        let nodes2 = nodes1.insert(parent, with_children(nodes1[parent], nodes1[parent].children.push(id)));
        lemma_refresh_slots_shape(nodes2, parent, reg);
        assert(nodes2.dom() =~= d.nodes.dom().insert(id));
        assert(nodes2.contains_key(id));
    } else {
        lemma_refused_command_changes_nothing(d, CommandView::AddChild { parent, widget_path: path }, reg);
        let e = spec_apply(d1, CommandView::AddRoot { widget_path: path }, reg).0;
        assert(e.roots == d.roots.push(id));
        assert(e.roots[e.roots.len() - 1] == id);
    }
}

/// Dropping a widget the registry knows on the viewport or on the
/// hierarchy always adds exactly one node to a well-formed document with ids
/// left: under the next id, a widget of the dropped path, hung under the
/// node it was dropped on when that node takes it, and a root otherwise.
/// Dropping it anywhere else, or dropping an unknown widget, changes nothing.
pub proof fn lemma_drop_adds_one_node(d: DocView, path: Seq<char>, drop: WidgetDrop, reg: WidgetRegistry)
    requires
        doc_wf(d),
        d.next_id < u64::MAX,
    ensures
        ({
            let (e, handled) = spec_drop_widget(d, path, drop, reg);
            &&& (reg.lookup(path) is None || drop is Elsewhere) ==> e == d && !handled
            &&& (reg.lookup(path) is Some && !(drop is Elsewhere)) ==> {
                &&& handled
                &&& !d.nodes.contains_key(d.next_id)
                &&& e.nodes.dom() == d.nodes.dom().insert(d.next_id)
                &&& e.nodes[d.next_id].widget_path == path
                &&& e.nodes[d.next_id].parent is None ==> e.roots.contains(d.next_id)
                &&& drop matches WidgetDrop::Viewport { selected_node: Some(p) } ==> (e.nodes[d.next_id].parent == Some(p) || e.roots.contains(d.next_id))
                &&& drop matches WidgetDrop::Hierarchy { target: Some(p) } ==> (e.nodes[d.next_id].parent == Some(p) || e.roots.contains(d.next_id))
            }
        }),
{
    let id = d.next_id;
    if reg.lookup(path) is Some {
        let root_added = spec_apply(d, CommandView::AddRoot { widget_path: path }, reg).0;
        assert(!d.nodes.contains_key(id));
        assert(root_added.roots == d.roots.push(id));
        assert(root_added.roots[root_added.roots.len() - 1] == id);
        assert(root_added.nodes.dom() =~= d.nodes.dom().insert(id));
        match drop {
            WidgetDrop::Viewport { selected_node: Some(p) } => {
                lemma_add_under_or_root_adds_one(d, p, path, reg);
                let e = add_under_or_root(d, p, path, reg);
                let (d1, r1) = spec_apply(d, CommandView::AddChild { parent: p, widget_path: path }, reg);
                if r1 is Err {
                    lemma_refused_command_changes_nothing(d, CommandView::AddChild { parent: p, widget_path: path }, reg);
                }
            },
            WidgetDrop::Hierarchy { target: Some(p) } => {
                lemma_add_under_or_root_adds_one(d, p, path, reg);
                let (d1, r1) = spec_apply(d, CommandView::AddChild { parent: p, widget_path: path }, reg);
                if r1 is Err {
                    lemma_refused_command_changes_nothing(d, CommandView::AddChild { parent: p, widget_path: path }, reg);
                }
            },
            _ => {},
        }
    }
}

fn add_child_or_root(parent: u64, widget_path: &str, document: &mut WidgetBlueprintDocument, widget_registry: &WidgetRegistry)
    ensures
        final(document)@ == add_under_or_root(old(document)@, parent, widget_path@, *widget_registry),
{
    let added = apply_blueprint_command(
        BlueprintCommand::AddChild { parent, widget_path: widget_path.to_owned() },
        document,
        widget_registry,
    );
    if added.is_err() {
        let _ = apply_blueprint_command(BlueprintCommand::AddRoot { widget_path: widget_path.to_owned() }, document, widget_registry);
    }
}

/// Drops the library widget `widget_path` where the pointer let it go: under
/// the node there is one for, else as a root. The result says whether the
/// hierarchy must be redrawn.
pub fn on_widget_tree_drag_end(widget_path: &str, drop: WidgetDrop, document: &mut WidgetBlueprintDocument, widget_registry: &WidgetRegistry) -> (handled: bool)
    ensures
        (final(document)@, handled) == spec_drop_widget(old(document)@, widget_path@, drop, *widget_registry),
{
    if widget_registry.get_widget_by_path(widget_path).is_none() {
        return false;
    }
    match drop {
        WidgetDrop::Viewport { selected_node } => {
            match selected_node {
                Some(p) => add_child_or_root(p, widget_path, document, widget_registry),
                None => {
                    let _ = apply_blueprint_command(BlueprintCommand::AddRoot { widget_path: widget_path.to_owned() }, document, widget_registry);
                },
            }
            true
        },
        WidgetDrop::Hierarchy { target } => {
            match target {
                Some(p) => add_child_or_root(p, widget_path, document, widget_registry),
                None => {
                    let added = apply_blueprint_command(BlueprintCommand::AddRoot { widget_path: widget_path.to_owned() }, document, widget_registry);
                    if added.is_err() {
                        let _ = apply_blueprint_command(BlueprintCommand::AddRoot { widget_path: widget_path.to_owned() }, document, widget_registry);
                    }
                },
            }
            true
        },
        WidgetDrop::Elsewhere => false,
    }
}

/// Whether moving `source` under `target` makes the move climb `target`'s
/// ancestors looking for `source`: both are present nodes and differ.
pub open spec fn moves_under_node(d: DocView, source: Option<u64>, target: Option<u64>) -> bool {
    source matches Some(s) && target matches Some(t) && s != t && d.nodes.contains_key(s) && d.nodes.contains_key(t)
}

/// Drops the dragged hierarchy node `source` on the row of `hover_target`
/// (making it that node's last child) or, over no row, makes it a root;
/// dropping a node on itself does nothing.
pub fn drop_hierarchy_node(source: u64, hover_target: Option<u64>, document: &mut WidgetBlueprintDocument, widget_registry: &WidgetRegistry)
    requires
        moves_under_node(old(document)@, Some(source), hover_target) ==> climb_ends(old(document)@.nodes, hover_target->0, source),
    ensures
        hover_target == Some(source) ==> final(document)@ == old(document)@,
        hover_target != Some(source) ==> final(document)@ == spec_apply(old(document)@, CommandView::MoveNode { node: source, new_parent: hover_target, index: None }, *widget_registry).0,
{
    match hover_target {
        Some(target) => {
            if target != source {
                let _ = apply_blueprint_command(BlueprintCommand::MoveNode { node: source, new_parent: Some(target), index: None }, document, widget_registry);
            }
        },
        None => {
            let _ = apply_blueprint_command(BlueprintCommand::MoveNode { node: source, new_parent: None, index: None }, document, widget_registry);
        },
    }
}

/// A node being dragged in the hierarchy: the node, the node whose row it
/// is over, the ghost that follows the pointer, and the row it was picked
/// up from.
#[derive(Clone, Copy, Debug, PartialEq, Eq, Structural)]
pub struct HierarchyDragState {
    pub dragging_node: Option<u64>,
    pub hover_target: Option<u64>,
    pub ghost_entity: Option<u64>,
    pub source_header: Option<u64>,
}

/// No drag under way.
pub open spec fn no_hierarchy_drag() -> HierarchyDragState {
    HierarchyDragState { dragging_node: None, hover_target: None, ghost_entity: None, source_header: None }
}

impl HierarchyDragState {
    /// No drag under way.
    pub fn default() -> (r: Self)
        ensures
            r == no_hierarchy_drag(),
    {
        HierarchyDragState { dragging_node: None, hover_target: None, ghost_entity: None, source_header: None }
    }
}

/// What a hierarchy drag leaves on screen when it ends: the ghost to
/// despawn and the row whose background to restore.
#[derive(Clone, Copy, Debug, PartialEq, Eq, Structural)]
pub struct DragLeftovers {
    pub ghost_entity: Option<u64>,
    pub source_header: Option<u64>,
}

/// The leftovers of the drag `drag`.
pub open spec fn leftovers_of(drag: HierarchyDragState) -> DragLeftovers {
    DragLeftovers { ghost_entity: drag.ghost_entity, source_header: drag.source_header }
}

/// Ends a hierarchy drag: nothing is dragged any more, and the ghost and
/// the picked-up row are handed back to be put away.
pub fn cleanup_hierarchy_drag_visual(drag: &mut HierarchyDragState) -> (r: DragLeftovers)
    ensures
        r == leftovers_of(*old(drag)),
        *final(drag) == no_hierarchy_drag(),
{
    let r = DragLeftovers { ghost_entity: drag.ghost_entity, source_header: drag.source_header };
    *drag = HierarchyDragState::default();
    r
}

/// The text of the ghost of a dragged node: its name, or "Node" for a node
/// the document does not hold.
pub fn hierarchy_drag_label(document: &WidgetBlueprintDocument, node: u64) -> (r: String)
    ensures
        r@ == (if document@.nodes.contains_key(node) { document@.nodes[node].name } else { "Node"@ }),
{
    match node_table_get(&document.nodes, node) {
        Some(n) => n.name.clone(),
        None => "Node".to_owned(),
    }
}

/// Starts dragging `node`, picked up from the row `header`, with
/// `ghost_entity` following the pointer and no row under it yet. The result is the ghost
/// of an earlier drag, to despawn.
pub fn on_hierarchy_item_drag_start(drag: &mut HierarchyDragState, node: u64, header: u64, ghost_entity: u64) -> (r: Option<u64>)
    ensures
        r == old(drag).ghost_entity,
        *final(drag) == (HierarchyDragState { dragging_node: Some(node), hover_target: None, ghost_entity: Some(ghost_entity), source_header: Some(header) }),
{
    let earlier = drag.ghost_entity;
    *drag = HierarchyDragState { dragging_node: Some(node), hover_target: None, ghost_entity: Some(ghost_entity), source_header: Some(header) };
    earlier
}

/// The pointer came over the row of `item`. During a drag that node becomes
/// the drop target, unless it is the dragged node itself; the result says
/// whether to highlight the row.
pub fn on_hierarchy_item_over(drag: &mut HierarchyDragState, item: u64) -> (highlight: bool)
    ensures
        old(drag).dragging_node is None ==> !highlight && *final(drag) == *old(drag),
        old(drag).dragging_node == Some(item) ==> !highlight && *final(drag) == (HierarchyDragState { hover_target: None, ..*old(drag) }),
        old(drag).dragging_node is Some && old(drag).dragging_node != Some(item) ==> highlight
            && *final(drag) == (HierarchyDragState { hover_target: Some(item), ..*old(drag) }),
{
    match drag.dragging_node {
        None => false,
        Some(n) => {
            if n == item {
                drag.hover_target = None;
                false
            } else {
                drag.hover_target = Some(item);
                true
            }
        },
    }
}

/// The pointer left the row of `item`. During a drag that node stops being
/// the drop target; the result says whether to restore the row.
pub fn on_hierarchy_item_out(drag: &mut HierarchyDragState, item: u64) -> (restore: bool)
    ensures
        old(drag).dragging_node is None ==> !restore && *final(drag) == *old(drag),
        old(drag).dragging_node is Some ==> restore && *final(drag) == (HierarchyDragState {
            hover_target: if old(drag).hover_target == Some(item) { None } else { old(drag).hover_target },
            ..*old(drag)
        }),
{
    if drag.dragging_node.is_none() {
        return false;
    }
    if drag.hover_target == Some(item) {
        drag.hover_target = None;
    }
    true
}

/// How a hierarchy drag ended: what to put away, and whether the hierarchy
/// must be redrawn.
#[derive(Clone, Copy, Debug, PartialEq, Eq, Structural)]
pub struct HierarchyDropOutcome {
    pub leftovers: DragLeftovers,
    pub redraw: bool,
}

/// A drag ended over the row of `row_node` (if the pointer was over one).
/// Unless the editor previews, the dragged node (or, if none is recorded,
/// the row's node) is dropped on the drop target, or made a root over no
/// row, and the drag ends.
pub fn on_hierarchy_item_drag_end(
    is_preview_mode: bool,
    row_node: Option<u64>,
    drag: &mut HierarchyDragState,
    document: &mut WidgetBlueprintDocument,
    widget_registry: &WidgetRegistry,
) -> (r: Option<HierarchyDropOutcome>)
    requires
        !is_preview_mode && moves_under_node(old(document)@,
            if old(drag).dragging_node is Some { old(drag).dragging_node } else { row_node }, old(drag).hover_target)
            ==> climb_ends(old(document)@.nodes, old(drag).hover_target->0,
                (if old(drag).dragging_node is Some { old(drag).dragging_node } else { row_node })->0),
    ensures
        is_preview_mode ==> r is None && *final(drag) == *old(drag) && final(document)@ == old(document)@,
        !is_preview_mode ==> *final(drag) == no_hierarchy_drag() && r is Some && r->0.leftovers == leftovers_of(*old(drag)),
        !is_preview_mode ==> match (if old(drag).dragging_node is Some { old(drag).dragging_node } else { row_node }) {
            None => final(document)@ == old(document)@ && r->0.redraw,
            Some(source) => {
                &&& old(drag).hover_target == Some(source) ==> final(document)@ == old(document)@ && !r->0.redraw
                &&& old(drag).hover_target != Some(source) ==> r->0.redraw
                    && final(document)@ == spec_apply(old(document)@, CommandView::MoveNode { node: source, new_parent: old(drag).hover_target, index: None }, *widget_registry).0
            },
        },
{
    if is_preview_mode {
        return None;
    }
    let source = match drag.dragging_node {
        Some(n) => Some(n),
        None => row_node,
    };
    let redraw = match source {
        None => true,
        Some(s) => {
            drop_hierarchy_node(s, drag.hover_target, document, widget_registry);
            drag.hover_target != Some(s)
        },
    };
    let leftovers = cleanup_hierarchy_drag_visual(drag);
    Some(HierarchyDropOutcome { leftovers, redraw })
}

/// A drag ended over the hierarchy but over no row. Unless the editor
/// previews or nothing is dragged, the dragged node becomes a root when no
/// row is its drop target, and the drag ends (the hierarchy is redrawn).
pub fn on_hierarchy_content_drag_end(
    is_preview_mode: bool,
    drag: &mut HierarchyDragState,
    document: &mut WidgetBlueprintDocument,
    widget_registry: &WidgetRegistry,
) -> (r: Option<DragLeftovers>)
    ensures
        is_preview_mode || old(drag).dragging_node is None ==> r is None && *final(drag) == *old(drag) && final(document)@ == old(document)@,
        !is_preview_mode && old(drag).dragging_node is Some ==> {
            &&& r == Some(leftovers_of(*old(drag)))
            &&& *final(drag) == no_hierarchy_drag()
            &&& old(drag).hover_target is Some ==> final(document)@ == old(document)@
            &&& old(drag).hover_target is None ==> final(document)@ == spec_apply(old(document)@,
                CommandView::MoveNode { node: old(drag).dragging_node->0, new_parent: None, index: None }, *widget_registry).0
        },
{
    if is_preview_mode {
        return None;
    }
    let source = match drag.dragging_node {
        Some(n) => n,
        None => return None,
    };
    if drag.hover_target.is_none() {
        let _ = apply_blueprint_command(BlueprintCommand::MoveNode { node: source, new_parent: None, index: None }, document, widget_registry);
    }
    Some(cleanup_hierarchy_drag_visual(drag))
}

/// A click on the row of `item` selects the entity showing that node (or
/// nothing, when none shows it), unless the editor previews.
pub fn on_hierarchy_item_click(is_preview_mode: bool, item: u64, runtime_map: &BlueprintRuntimeMap, selection: &mut VistaEditorSelection)
    ensures
        is_preview_mode ==> *final(selection) == *old(selection),
        !is_preview_mode ==> *final(selection) == (VistaEditorSelection {
            selected_entity: if runtime_map.node_to_entity@.contains_key(item) { Some(runtime_map.node_to_entity@[item]) } else { None },
            ..*old(selection)
        }),
{
    if is_preview_mode {
        return;
    }
    selection.selected_entity = match runtime_map.node_to_entity.get(&item) {
        Some(e) => Some(*e),
        None => None,
    };
}

/// The delete key removes the selected node (found through `selected_node`,
/// the node of the selected entity) unless the editor previews; once
/// removed, nothing is selected. The result says whether the hierarchy must
/// be redrawn.
pub fn delete_selected_blueprint_node_shortcut(
    is_preview_mode: bool,
    delete_pressed: bool,
    selected_node: Option<u64>,
    selection: &mut VistaEditorSelection,
    document: &mut WidgetBlueprintDocument,
    widget_registry: &WidgetRegistry,
) -> (redraw: bool)
    ensures
        ({
            let acts = !is_preview_mode && delete_pressed && old(selection).selected_entity is Some && selected_node is Some;
            let (d1, r1) = spec_apply(old(document)@, CommandView::RemoveNode { node: selected_node->0 }, *widget_registry);
            &&& !acts ==> final(document)@ == old(document)@ && *final(selection) == *old(selection) && !redraw
            &&& acts ==> final(document)@ == d1 && redraw == r1 is Ok
            &&& acts && r1 is Ok ==> *final(selection) == (VistaEditorSelection { selected_entity: None, ..*old(selection) })
            &&& acts && r1 is Err ==> *final(selection) == *old(selection)
        }),
{
    if is_preview_mode || !delete_pressed {
        return false;
    }
    if selection.selected_entity.is_none() {
        return false;
    }
    let node_id = match selected_node {
        Some(n) => n,
        None => return false,
    };
    let removed = apply_blueprint_command(BlueprintCommand::RemoveNode { node: node_id }, document, widget_registry);
    if removed.is_ok() {
        selection.selected_entity = None;
        true
    } else {
        false
    }
}

/// A widget being dragged out of the library: its path and the ghost entity
/// that follows the pointer.
pub struct WidgetLibDragState {
    pub widget_id: Option<String>,
    pub ghost_entity: Option<u64>,
}

impl WidgetLibDragState {
    /// Nothing dragged.
    pub fn default() -> (r: Self)
        ensures
            r.widget_id is None,
            r.ghost_entity is None,
    {
        WidgetLibDragState { widget_id: None, ghost_entity: None }
    }
}

/// Starts dragging the library widget `widget_id`, with `ghost_entity`
/// following the pointer. The result is the ghost of an earlier drag, to
/// despawn.
pub fn on_widget_tree_drag_start(drag: &mut WidgetLibDragState, widget_id: String, ghost_entity: u64) -> (r: Option<u64>)
    ensures
        r == old(drag).ghost_entity,
        final(drag).widget_id matches Some(w) && w@ == widget_id@,
        final(drag).ghost_entity == Some(ghost_entity),
{
    let earlier = drag.ghost_entity;
    drag.widget_id = Some(widget_id);
    drag.ghost_entity = Some(ghost_entity);
    earlier
}

/// Ends a drag: forgets the widget and hands back the ghost to despawn.
pub fn cleanup_drag_ghost(drag: &mut WidgetLibDragState) -> (r: Option<u64>)
    ensures
        r == old(drag).ghost_entity,
        final(drag).widget_id is None,
        final(drag).ghost_entity is None,
{
    let taken = drag.ghost_entity.take();
    drag.widget_id = None;
    taken
}

/// The ghost to move under the pointer while a widget is dragged; none when
/// nothing is dragged.
pub fn on_widget_tree_drag(drag: &WidgetLibDragState) -> (r: Option<u64>)
    ensures
        r == (if drag.widget_id is Some { drag.ghost_entity } else { None::<u64> }),
{
    match drag.ghost_entity {
        Some(g) => if drag.widget_id.is_some() { Some(g) } else { None },
        None => None,
    }
}

/// A cancelled drag ends, if one was under way; the result is the ghost to
/// despawn.
pub fn on_widget_tree_drag_cancel(drag: &mut WidgetLibDragState) -> (r: Option<u64>)
    ensures
        old(drag).widget_id is None ==> r is None && final(drag).widget_id is None && final(drag).ghost_entity == old(drag).ghost_entity,
        old(drag).widget_id is Some ==> r == old(drag).ghost_entity && final(drag).widget_id is None && final(drag).ghost_entity is None,
{
    if drag.widget_id.is_none() {
        return None;
    }
    cleanup_drag_ghost(drag)
}

/// Which entity shows each node of the document, and which node each
/// such entity shows.
pub struct BlueprintRuntimeMap {
    pub node_to_entity: HashMap<u64, u64>,
    pub entity_to_node: HashMap<u64, u64>,
}

impl BlueprintRuntimeMap {
    /// No node shown.
    pub fn new() -> (r: Self)
        ensures
            r.node_to_entity@ == Map::<u64, u64>::empty(),
            r.entity_to_node@ == Map::<u64, u64>::empty(),
    {
        BlueprintRuntimeMap { node_to_entity: HashMap::new(), entity_to_node: HashMap::new() }
    }

    /// Forgets every node, before the document is shown anew.
    pub fn clear(&mut self)
        ensures
            final(self).node_to_entity@ == Map::<u64, u64>::empty(),
            final(self).entity_to_node@ == Map::<u64, u64>::empty(),
    {
        self.node_to_entity.clear();
        self.entity_to_node.clear();
    }

    /// Records that `entity` shows `node`.
    pub fn link(&mut self, node: u64, entity: u64)
        ensures
            final(self).node_to_entity@ == old(self).node_to_entity@.insert(node, entity),
            final(self).entity_to_node@ == old(self).entity_to_node@.insert(entity, node),
    {
        self.node_to_entity.insert(node, entity);
        self.entity_to_node.insert(entity, node);
    }
}

/// The node of the selected entity, if it shows one.
pub fn selected_node_id(selection: &VistaEditorSelection, runtime_map: &BlueprintRuntimeMap) -> (r: Option<u64>)
    ensures
        r == (match selection.selected_entity {
            Some(e) => if runtime_map.entity_to_node@.contains_key(e) { Some(runtime_map.entity_to_node@[e]) } else { None::<u64> },
            None => None::<u64>,
        }),
{
    match selection.selected_entity {
        Some(e) => match runtime_map.entity_to_node.get(&e) {
            Some(n) => Some(*n),
            None => None,
        },
        None => None,
    }
}

/// The document is shown anew when it changed or the viewport's theme did.
pub fn needs_compile(document: &WidgetBlueprintDocument, theme_changed: bool) -> (r: bool)
    ensures
        r == (document.dirty || theme_changed),
{
    document.dirty || theme_changed
}

/// After the document was shown anew: the node it asked to select becomes
/// the selection (the entity showing it, or none), and the document is
/// clean.
pub fn finish_compile(document: &mut WidgetBlueprintDocument, selection: &mut VistaEditorSelection, runtime_map: &BlueprintRuntimeMap)
    ensures
        final(document)@ == (DocView { dirty: false, pending_select: None, ..old(document)@ }),
        old(document).pending_select is None ==> *final(selection) == *old(selection),
        old(document).pending_select matches Some(n) ==> *final(selection) == (VistaEditorSelection {
            selected_entity: if runtime_map.node_to_entity@.contains_key(n) { Some(runtime_map.node_to_entity@[n]) } else { None },
            ..*old(selection)
        }),
{
    match document.pending_select.take() {
        Some(n) => {
            selection.selected_entity = match runtime_map.node_to_entity.get(&n) {
                Some(e) => Some(*e),
                None => None,
            };
        },
        None => {},
    }
    document.dirty = false;
}

} // verus!
