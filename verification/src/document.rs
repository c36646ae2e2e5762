//! The blueprint document: a forest of widget nodes, and the commands that
//! edit it.
use vstd::prelude::*;
use bevy::platform::collections::{HashMap, HashSet};
use crate::tables::{node_table, string_table, node_table_new, node_table_contains, node_table_get, node_table_insert, node_table_remove, node_table_keys, id_set, id_set_new, id_set_contains, id_set_insert, string_table_new, string_table_insert, string_table_remove};
use crate::registry::{WidgetRegistry, WidgetRegistration, WidgetChildRule, rule_allows, slot_at};
use crate::style::WidgetStyle;
use crate::text::{default_blueprint_node_name, is_blank, path_tail, all_whitespace};

verus! {

pub type BlueprintNodeId = u64;

/// One widget of a blueprint: what it is, how it is named and styled, the
/// properties set on it, and where it stands in the tree.
pub struct WidgetBlueprintNode {
    pub id: u64,
    pub name: String,
    pub widget_path: String,
    pub style: WidgetStyle,
    pub props: HashMap<String, String>,
    pub parent: Option<u64>,
    pub slot: Option<String>,
    pub children: Vec<u64>,
}

/// A node as plain values.
pub struct NodeView {
    pub id: u64,
    pub name: Seq<char>,
    pub widget_path: Seq<char>,
    pub style: Map<Seq<char>, Seq<char>>,
    pub props: Map<Seq<char>, Seq<char>>,
    pub parent: Option<u64>,
    pub slot: Option<Seq<char>>,
    pub children: Seq<u64>,
}

pub open spec fn opt_str_view(s: Option<String>) -> Option<Seq<char>> {
    match s {
        Some(x) => Some(x@),
        None => None,
    }
}

impl View for WidgetBlueprintNode {
    type V = NodeView;

    open spec fn view(&self) -> NodeView {
        NodeView {
            id: self.id,
            name: self.name@,
            widget_path: self.widget_path@,
            style: self.style@,
            props: string_table(self.props),
            parent: self.parent,
            slot: opt_str_view(self.slot),
            children: self.children@,
        }
    }
}

/// The document of the editor: root nodes in order, all nodes by id, the
/// next id to hand out, and whether the view must be rebuilt and which node
/// to select next.
pub struct WidgetBlueprintDocument {
    pub roots: Vec<u64>,
    pub nodes: HashMap<u64, WidgetBlueprintNode>,
    pub next_id: IdCounter,
    pub dirty: bool,
    pub pending_select: Option<u64>,
}

/// The counter a document hands node ids out from. Only this module makes
/// or moves one, so ids stay ahead of the nodes.
pub struct IdCounter(u64);

impl IdCounter {
    /// The id the counter hands out next.
    pub closed spec fn value(self) -> u64 {
        self.0
    }

    /// The id the counter hands out next.
    pub fn get(&self) -> (r: u64)
        ensures
            r == self.value(),
    {
        self.0
    }
}

/// A document as plain values.
pub struct DocView {
    pub roots: Seq<u64>,
    pub nodes: Map<u64, NodeView>,
    pub next_id: u64,
    pub dirty: bool,
    pub pending_select: Option<u64>,
}

/// The views of the nodes of a node table.
pub open spec fn nodes_view(t: Map<u64, WidgetBlueprintNode>) -> Map<u64, NodeView> {
    Map::new(|k: u64| t.contains_key(k), |k: u64| t[k]@)
}

impl View for WidgetBlueprintDocument {
    type V = DocView;

    open spec fn view(&self) -> DocView {
        DocView {
            roots: self.roots@,
            nodes: nodes_view(node_table(self.nodes)),
            next_id: self.next_id.value(),
            dirty: self.dirty,
            pending_select: self.pending_select,
        }
    }
}

/// `x` is `a` or lies below `a`, following at most `fuel` parent links.
pub open spec fn descends(nodes: Map<u64, NodeView>, x: u64, a: u64, fuel: nat) -> bool
    decreases fuel,
{
    fuel > 0 && (x == a || (nodes.contains_key(x) && match nodes[x].parent {
        Some(p) => descends(nodes, p, a, (fuel - 1) as nat),
        None => false,
    }))
}

/// `x` is `a` or lies below `a`.
pub open spec fn in_subtree(nodes: Map<u64, NodeView>, x: u64, a: u64) -> bool {
    exists|fuel: nat| descends(nodes, x, a, fuel)
}

/// Every parent link goes to a node of lower rank.
pub open spec fn ranked_by(nodes: Map<u64, NodeView>, rank: spec_fn(u64) -> nat) -> bool {
    forall|k: u64| #[trigger] nodes.contains_key(k) ==> match nodes[k].parent {
        Some(p) => rank(p) < rank(k),
        None => true,
    }
}

/// Following parent links never comes back to where it started.
pub open spec fn acyclic(nodes: Map<u64, NodeView>) -> bool {
    exists|rank: spec_fn(u64) -> nat| ranked_by(nodes, rank)
}

/// A well-formed document: nodes are stored under their ids, ids are below
/// the next id, roots are exactly the nodes without parent, each once, and
/// parent and child links agree and form a forest.
pub open spec fn doc_wf(d: DocView) -> bool {
    &&& d.nodes.dom().finite()
    &&& forall|k: u64| #[trigger] d.nodes.contains_key(k) ==> d.nodes[k].id == k && k < d.next_id
    &&& d.roots.no_duplicates()
    &&& forall|i: int| 0 <= i < d.roots.len() ==> {
        &&& d.nodes.contains_key(#[trigger] d.roots[i])
        &&& d.nodes[d.roots[i]].parent is None
    }
    &&& forall|k: u64| #[trigger] d.nodes.contains_key(k) && d.nodes[k].parent is None ==> d.roots.contains(k)
    &&& forall|k: u64| #[trigger] d.nodes.contains_key(k) ==> match d.nodes[k].parent {
        Some(p) => d.nodes.contains_key(p) && d.nodes[p].children.contains(k),
        None => true,
    }
    &&& forall|k: u64| #[trigger] d.nodes.contains_key(k) ==> d.nodes[k].children.no_duplicates()
    &&& forall|k: u64, i: int| #[trigger] d.nodes.contains_key(k) && 0 <= i < d.nodes[k].children.len() ==> {
        &&& d.nodes.contains_key(#[trigger] d.nodes[k].children[i])
        &&& d.nodes[d.nodes[k].children[i]].parent == Some(k)
    }
    &&& acyclic(d.nodes)
}

/// A node freshly made for `widget_path`.
pub open spec fn fresh_node(id: u64, widget_path: Seq<char>, parent: Option<u64>) -> NodeView {
    NodeView {
        id,
        name: path_tail(widget_path),
        widget_path,
        style: Map::empty(),
        props: Map::empty(),
        parent,
        slot: None,
        children: Seq::empty(),
    }
}

/// Each child of a node, up to the `n`-th, gets the slot of its index.
pub open spec fn fold_slots(m: Map<u64, NodeView>, kids: Seq<u64>, slots: Seq<Seq<char>>, n: nat) -> Map<u64, NodeView>
    decreases n,
{
    if n == 0 || n > kids.len() {
        m
    } else {
        let m1 = fold_slots(m, kids, slots, (n - 1) as nat);
        let k = kids[n - 1];
        if m1.contains_key(k) {
            m1.insert(k, NodeView { slot: slot_at(slots, n - 1), ..m1[k] })
        } else {
            m1
        }
    }
}

/// The children of `parent` get the slots that its registration names.
pub open spec fn refresh_slots(m: Map<u64, NodeView>, parent: u64, reg: WidgetRegistry) -> Map<u64, NodeView> {
    if m.contains_key(parent) && reg.lookup(m[parent].widget_path) is Some {
        let kids = m[parent].children;
        fold_slots(m, kids, reg.lookup(m[parent].widget_path)->0.child_slots, kids.len())
    } else {
        m
    }
}

/// Whether the widget under `path` accepts `next_count` children; a path
/// the registry does not know accepts any number.
pub open spec fn path_allows(reg: WidgetRegistry, path: Seq<char>, next_count: int) -> bool {
    match reg.lookup(path) {
        Some(r) => rule_allows(r.child_rule, next_count),
        None => true,
    }
}

pub open spec fn sat_inc(x: u64) -> u64 {
    if x == u64::MAX { x } else { (x + 1) as u64 }
}

pub open spec fn with_children(n: NodeView, c: Seq<u64>) -> NodeView {
    NodeView { children: c, ..n }
}

/// `x` inserted at `index`, or at the end when `index` is none or past it.
pub open spec fn insert_clamped(s: Seq<u64>, index: Option<usize>, x: u64) -> Seq<u64> {
    let len = s.len() as int;
    let at = match index { Some(i) => if i < len { i as int } else { len }, None => len };
    s.insert(at, x)
}

/// The element at `pos` moved to `index` (clamped), counted as if it were
/// still in place.
pub open spec fn reorder(s: Seq<u64>, pos: int, index: Option<usize>) -> Seq<u64> {
    let len = s.len() as int;
    let at0 = match index { Some(i) => if i < len { i as int } else { len }, None => len };
    let at = if at0 > pos { at0 - 1 } else { at0 };
    s.remove(pos).insert(at, s[pos])
}

/// The place of the first `x` in `s` (-1 when there is none).
pub open spec fn first_index(s: Seq<u64>, x: u64) -> int {
    match s.index_of_first(x) {
        Some(i) => i,
        None => -1,
    }
}

pub proof fn lemma_first_index(s: Seq<u64>, x: u64)
    requires
        s.contains(x),
    ensures
        0 <= first_index(s, x) < s.len(),
        s[first_index(s, x)] == x,
        forall|j: int| 0 <= j < first_index(s, x) ==> s[j] != x,
{
    s.index_of_first_ensures(x);
}

/// Every occurrence of `x` taken out.
pub open spec fn without(s: Seq<u64>, x: u64) -> Seq<u64> {
    s.filter(other_than(x))
}

/// The ids other than `x`.
pub open spec fn other_than(x: u64) -> spec_fn(u64) -> bool {
    |y: u64| y != x
}


/// An edit of the document.
pub enum BlueprintCommand {
    AddRoot { widget_path: String },
    AddChild { parent: u64, widget_path: String },
    RemoveNode { node: u64 },
    MoveNode { node: u64, new_parent: Option<u64>, index: Option<usize> },
    SetNodeStyle { node: u64, style: WidgetStyle },
    SetNodeName { node: u64, name: String },
    SetNodeProp { node: u64, key: String, value: String },
    RemoveNodeProp { node: u64, key: String },
}

/// A command as plain values.
pub enum CommandView {
    AddRoot { widget_path: Seq<char> },
    AddChild { parent: u64, widget_path: Seq<char> },
    RemoveNode { node: u64 },
    MoveNode { node: u64, new_parent: Option<u64>, index: Option<usize> },
    SetNodeStyle { node: u64, style: Map<Seq<char>, Seq<char>> },
    SetNodeName { node: u64, name: Seq<char> },
    SetNodeProp { node: u64, key: Seq<char>, value: Seq<char> },
    RemoveNodeProp { node: u64, key: Seq<char> },
}

impl View for BlueprintCommand {
    type V = CommandView;

    open spec fn view(&self) -> CommandView {
        match self {
            BlueprintCommand::AddRoot { widget_path } => CommandView::AddRoot { widget_path: widget_path@ },
            BlueprintCommand::AddChild { parent, widget_path } => CommandView::AddChild { parent: *parent, widget_path: widget_path@ },
            BlueprintCommand::RemoveNode { node } => CommandView::RemoveNode { node: *node },
            BlueprintCommand::MoveNode { node, new_parent, index } => CommandView::MoveNode { node: *node, new_parent: *new_parent, index: *index },
            BlueprintCommand::SetNodeStyle { node, style } => CommandView::SetNodeStyle { node: *node, style: style@ },
            BlueprintCommand::SetNodeName { node, name } => CommandView::SetNodeName { node: *node, name: name@ },
            BlueprintCommand::SetNodeProp { node, key, value } => CommandView::SetNodeProp { node: *node, key: key@, value: value@ },
            BlueprintCommand::RemoveNodeProp { node, key } => CommandView::RemoveNodeProp { node: *node, key: key@ },
        }
    }
}

/// Why a command was refused.
#[derive(Debug)]
pub enum BlueprintCommandError {
    UnknownWidgetPath(String),
    ParentNotFound(u64),
    NodeNotFound(u64),
    InvalidMove,
    ChildConstraintViolated { parent: u64, parent_widget: String },
}

/// A refusal as plain values.
pub enum CommandErrorView {
    UnknownWidgetPath(Seq<char>),
    ParentNotFound(u64),
    NodeNotFound(u64),
    InvalidMove,
    ChildConstraintViolated { parent: u64, parent_widget: Seq<char> },
}

impl View for BlueprintCommandError {
    type V = CommandErrorView;

    open spec fn view(&self) -> CommandErrorView {
        match self {
            BlueprintCommandError::UnknownWidgetPath(p) => CommandErrorView::UnknownWidgetPath(p@),
            BlueprintCommandError::ParentNotFound(p) => CommandErrorView::ParentNotFound(*p),
            BlueprintCommandError::NodeNotFound(n) => CommandErrorView::NodeNotFound(*n),
            BlueprintCommandError::InvalidMove => CommandErrorView::InvalidMove,
            BlueprintCommandError::ChildConstraintViolated { parent, parent_widget } => CommandErrorView::ChildConstraintViolated { parent: *parent, parent_widget: parent_widget@ },
        }
    }
}

pub open spec fn result_view(r: Result<u64, BlueprintCommandError>) -> Result<u64, CommandErrorView> {
    match r {
        Ok(id) => Ok(id),
        Err(e) => Err(e@),
    }
}

// ---------------------------------------------------------------------------
// What each command does
// ---------------------------------------------------------------------------

pub open spec fn spec_add_root(d: DocView, path: Seq<char>, reg: WidgetRegistry) -> (DocView, Result<u64, CommandErrorView>) {
    if reg.lookup(path) is None {
        (d, Err(CommandErrorView::UnknownWidgetPath(path)))
    } else {
        let id = d.next_id;
        (DocView {
            roots: d.roots.push(id),
            nodes: d.nodes.insert(id, fresh_node(id, path, None)),
            next_id: sat_inc(d.next_id),
            dirty: true,
            pending_select: Some(id),
        }, Ok(id))
    }
}

pub open spec fn spec_add_child(d: DocView, parent: u64, path: Seq<char>, reg: WidgetRegistry) -> (DocView, Result<u64, CommandErrorView>) {
    if reg.lookup(path) is None {
        (d, Err(CommandErrorView::UnknownWidgetPath(path)))
    } else if !d.nodes.contains_key(parent) {
        (d, Err(CommandErrorView::ParentNotFound(parent)))
    } else if !path_allows(reg, d.nodes[parent].widget_path, d.nodes[parent].children.len() + 1int) {
        (d, Err(CommandErrorView::ChildConstraintViolated { parent, parent_widget: d.nodes[parent].widget_path }))
    } else {
        let id = d.next_id;
        let nodes1 = d.nodes.insert(id, fresh_node(id, path, Some(parent)));
        let nodes2 = nodes1.insert(parent, with_children(nodes1[parent], nodes1[parent].children.push(id)));
        (DocView {
            roots: d.roots,
            nodes: refresh_slots(nodes2, parent, reg),
            next_id: sat_inc(d.next_id),
            dirty: true,
            pending_select: Some(id),
        }, Ok(id))
    }
}

/// The node ids of the subtree of `node`.
pub open spec fn subtree_of(nodes: Map<u64, NodeView>, node: u64) -> Set<u64> {
    Set::new(|x: u64| nodes.contains_key(x) && in_subtree(nodes, x, node))
}

/// `x` is `a`, or is reached from `a` down children lists, through at most
/// `fuel` nodes, each of them present.
pub open spec fn reaches(nodes: Map<u64, NodeView>, a: u64, x: u64, fuel: nat) -> bool
    decreases fuel,
{
    fuel > 0 && nodes.contains_key(a) && (x == a || exists|i: int|
        #![trigger nodes[a].children[i]]
        0 <= i < nodes[a].children.len() && reaches(nodes, nodes[a].children[i], x, (fuel - 1) as nat))
}

/// The present nodes that children lists lead to from `a`, `a` included.
pub open spec fn reach_set(nodes: Map<u64, NodeView>, a: u64) -> Set<u64> {
    Set::new(|x: u64| exists|fuel: nat| reaches(nodes, a, x, fuel))
}

/// Whether an id listed under `parent` (or among the roots, for none) stays
/// listed once the nodes of `gone` leave: it goes when it is one of them and
/// names `parent` as its parent.
pub open spec fn stays_listed(nodes: Map<u64, NodeView>, gone: Set<u64>, parent: Option<u64>) -> spec_fn(u64) -> bool {
    |c: u64| !(gone.contains(c) && nodes[c].parent == parent)
}

/// The nodes left once those of `gone` leave, each children list without
/// the leaving nodes that name its owner as their parent.
pub open spec fn detach_nodes(nodes: Map<u64, NodeView>, gone: Set<u64>) -> Map<u64, NodeView> {
    Map::new(
        |q: u64| nodes.contains_key(q) && !gone.contains(q),
        |q: u64| with_children(nodes[q], nodes[q].children.filter(stays_listed(nodes, gone, Some(q)))),
    )
}

/// Removing `node` takes out every node its children lists lead to, visiting
/// each once; a leaving node is taken off the list of the parent it names
/// (or off the roots), and the remaining children of its first parent get
/// their slots again.
pub open spec fn spec_remove_node(d: DocView, node: u64, reg: WidgetRegistry) -> (DocView, Result<u64, CommandErrorView>) {
    if !d.nodes.contains_key(node) {
        (d, Err(CommandErrorView::NodeNotFound(node)))
    } else {
        let parent = d.nodes[node].parent;
        let fallback = match parent {
            Some(p) => Some(p),
            None => if d.roots.len() > 0 && d.roots[0] != node { Some(d.roots[0]) } else { None },
        };
        let gone = reach_set(d.nodes, node);
        let nodes1 = detach_nodes(d.nodes, gone);
        let roots1 = d.roots.filter(stays_listed(d.nodes, gone, None));
        let nodes2 = match parent {
            Some(p) => refresh_slots(nodes1, p, reg),
            None => nodes1,
        };
        (DocView { roots: roots1, nodes: nodes2, next_id: d.next_id, dirty: true, pending_select: fallback }, Ok(node))
    }
}

pub open spec fn spec_move_node(d: DocView, node: u64, new_parent: Option<u64>, index: Option<usize>, reg: WidgetRegistry) -> (DocView, Result<u64, CommandErrorView>) {
    if !d.nodes.contains_key(node) {
        (d, Err(CommandErrorView::NodeNotFound(node)))
    } else if new_parent is Some && !d.nodes.contains_key(new_parent->0) {
        (d, Err(CommandErrorView::ParentNotFound(new_parent->0)))
    } else if new_parent is Some && (new_parent->0 == node || in_subtree(d.nodes, new_parent->0, node)) {
        (d, Err(CommandErrorView::InvalidMove))
    } else if d.nodes[node].parent == new_parent {
        match new_parent {
            Some(p) => if d.nodes[p].children.contains(node) {
                let kids = reorder(d.nodes[p].children, first_index(d.nodes[p].children, node), index);
                let nodes1 = d.nodes.insert(p, with_children(d.nodes[p], kids));
                (DocView { nodes: refresh_slots(nodes1, p, reg), dirty: true, ..d }, Ok(node))
            } else {
                (d, Ok(node))
            },
            None => if d.roots.contains(node) {
                (DocView { roots: reorder(d.roots, first_index(d.roots, node), index), dirty: true, ..d }, Ok(node))
            } else {
                (d, Ok(node))
            },
        }
    } else if new_parent is Some && !path_allows(reg, d.nodes[new_parent->0].widget_path, d.nodes[new_parent->0].children.len() + 1int) {
        (d, Err(CommandErrorView::ChildConstraintViolated { parent: new_parent->0, parent_widget: d.nodes[new_parent->0].widget_path }))
    } else {
        let old_parent = d.nodes[node].parent;
        let (nodes1, roots1) = match old_parent {
            Some(op) => (if d.nodes.contains_key(op) { d.nodes.insert(op, with_children(d.nodes[op], without(d.nodes[op].children, node))) } else { d.nodes }, d.roots),
            None => (d.nodes, without(d.roots, node)),
        };
        let (nodes2, roots2) = match new_parent {
            Some(p) => (nodes1.insert(p, with_children(nodes1[p], insert_clamped(nodes1[p].children, index, node))), roots1),
            None => (nodes1, insert_clamped(roots1, index, node)),
        };
        let nodes3 = nodes2.insert(node, NodeView { parent: new_parent, slot: None, ..nodes2[node] });
        let nodes4 = match old_parent {
            Some(op) => refresh_slots(nodes3, op, reg),
            None => nodes3,
        };
        let nodes5 = match new_parent {
            Some(p) => refresh_slots(nodes4, p, reg),
            None => nodes4,
        };
        (DocView { roots: roots2, nodes: nodes5, next_id: d.next_id, dirty: true, pending_select: Some(node) }, Ok(node))
    }
}

pub open spec fn spec_update_node(d: DocView, node: u64, n: NodeView, dirty: bool) -> (DocView, Result<u64, CommandErrorView>) {
    (DocView { nodes: d.nodes.insert(node, n), dirty, pending_select: Some(node), ..d }, Ok(node))
}

/// What a command does to a document under a registry, and what it answers.
pub open spec fn spec_apply(d: DocView, c: CommandView, reg: WidgetRegistry) -> (DocView, Result<u64, CommandErrorView>) {
    match c {
        CommandView::AddRoot { widget_path } => spec_add_root(d, widget_path, reg),
        CommandView::AddChild { parent, widget_path } => spec_add_child(d, parent, widget_path, reg),
        CommandView::RemoveNode { node } => spec_remove_node(d, node, reg),
        CommandView::MoveNode { node, new_parent, index } => spec_move_node(d, node, new_parent, index, reg),
        CommandView::SetNodeStyle { node, style } => if !d.nodes.contains_key(node) {
            (d, Err(CommandErrorView::NodeNotFound(node)))
        } else {
            spec_update_node(d, node, NodeView { style, ..d.nodes[node] }, true)
        },
        CommandView::SetNodeName { node, name } => if !d.nodes.contains_key(node) {
            (d, Err(CommandErrorView::NodeNotFound(node)))
        } else {
            let n = d.nodes[node];
            let new_name = if all_whitespace(name) { path_tail(n.widget_path) } else { name };
            spec_update_node(d, node, NodeView { name: new_name, ..n }, d.dirty)
        },
        CommandView::SetNodeProp { node, key, value } => if !d.nodes.contains_key(node) {
            (d, Err(CommandErrorView::NodeNotFound(node)))
        } else {
            spec_update_node(d, node, NodeView { props: d.nodes[node].props.insert(key, value), ..d.nodes[node] }, true)
        },
        CommandView::RemoveNodeProp { node, key } => if !d.nodes.contains_key(node) {
            (d, Err(CommandErrorView::NodeNotFound(node)))
        } else {
            spec_update_node(d, node, NodeView { props: d.nodes[node].props.remove(key), ..d.nodes[node] }, true)
        },
    }
}

// ---------------------------------------------------------------------------
// Node tables and their views
// ---------------------------------------------------------------------------

pub proof fn lemma_nodes_view_insert(t: Map<u64, WidgetBlueprintNode>, k: u64, v: WidgetBlueprintNode)
    ensures
        nodes_view(t.insert(k, v)) == nodes_view(t).insert(k, v@),
{
    assert(nodes_view(t.insert(k, v)) =~= nodes_view(t).insert(k, v@));
}

pub proof fn lemma_nodes_view_remove(t: Map<u64, WidgetBlueprintNode>, k: u64)
    ensures
        nodes_view(t.remove(k)) == nodes_view(t).remove(k),
{
    assert(nodes_view(t.remove(k)) =~= nodes_view(t).remove(k));
}

/// A copy of a list of ids.
pub fn copy_ids(v: &Vec<u64>) -> (r: Vec<u64>)
    ensures
        r@ == v@,
{
    let mut r: Vec<u64> = Vec::new();
    let mut i: usize = 0;
    while i < v.len()
        invariant
            0 <= i <= v@.len(),
            r@ == v@.subrange(0, i as int),
        decreases v@.len() - i,
    {
        r.push(v[i]);
        i = i + 1;
        assert(r@ =~= v@.subrange(0, i as int));
    }
    assert(r@ =~= v@);
    r
}

fn make_node(id: u64, widget_path: String, parent: Option<u64>) -> (n: WidgetBlueprintNode)
    ensures
        n@ == fresh_node(id, widget_path@, parent),
{
    let name = default_blueprint_node_name(widget_path.as_str());
    let n = WidgetBlueprintNode {
        id,
        name,
        widget_path,
        style: WidgetStyle::default(),
        props: string_table_new(),
        parent,
        slot: None,
        children: Vec::new(),
    };
    assert(n@ =~= fresh_node(id, widget_path@, parent));
    n
}

impl WidgetBlueprintDocument {
    /// An empty document: no node, ids from 1, to be built.
    pub fn default() -> (r: Self)
        ensures
            r@.roots == Seq::<u64>::empty(),
            r@.nodes == Map::<u64, NodeView>::empty(),
            r@.next_id == 1,
            r@.dirty,
            r@.pending_select is None,
            doc_wf(r@),
    {
        let r = WidgetBlueprintDocument {
            roots: Vec::new(),
            nodes: node_table_new(),
            next_id: IdCounter(1),
            dirty: true,
            pending_select: None,
        };
        assert(r@.nodes =~= Map::<u64, NodeView>::empty());
        assert(ranked_by(r@.nodes, |k: u64| 0nat));
        r
    }

    /// Hands out the next id.
    fn alloc_id(&mut self) -> (id: u64)
        ensures
            id == old(self)@.next_id,
            final(self)@ == (DocView { next_id: sat_inc(old(self)@.next_id), ..old(self)@ }),
    {
        let id = self.next_id.0;
        self.next_id = IdCounter(id.saturating_add(1));
        id
    }
}

/// Gives the children of `parent` the slots that its registration names.
fn refresh_child_slots_for_parent(document: &mut WidgetBlueprintDocument, parent: u64, widget_registry: &WidgetRegistry)
    ensures
        final(document)@ == (DocView { nodes: refresh_slots(old(document)@.nodes, parent, *widget_registry), ..old(document)@ }),
{
    let ghost d0 = document@;
    let children: Vec<u64>;
    let registration: &WidgetRegistration;
    match node_table_get(&document.nodes, parent) {
        None => {
            assert(document@ =~= (DocView { nodes: refresh_slots(d0.nodes, parent, *widget_registry), ..d0 }));
            return;
        },
        Some(parent_node) => {
            match widget_registry.get_widget_by_path(parent_node.widget_path.as_str()) {
                None => {
                    assert(document@ =~= (DocView { nodes: refresh_slots(d0.nodes, parent, *widget_registry), ..d0 }));
                    return;
                },
                Some(r) => {
                    registration = r;
                },
            }
            children = copy_ids(&parent_node.children);
        },
    }
    let ghost slots = widget_registry.lookup(d0.nodes[parent].widget_path)->0.child_slots;
    let mut i: usize = 0;
    while i < children.len()
        invariant
            0 <= i <= children@.len(),
            children@ == d0.nodes[parent].children,
            registration@.child_slots == slots,
            document@ == (DocView { nodes: fold_slots(d0.nodes, children@, slots, i as nat), ..d0 }),
        decreases children@.len() - i,
    {
        let child = children[i];
        let ghost t0 = node_table(document.nodes);
        match node_table_remove(&mut document.nodes, child) {
            Some(mut child_node) => {
                let new_slot = match registration.child_slot_at(i) {
                    Some(s) => Some(String::from_str(s)),
                    None => None,
                };
                child_node.slot = new_slot;
                node_table_insert(&mut document.nodes, child, child_node);
                proof {
                    assert(node_table(document.nodes) =~= t0.insert(child, child_node));
                    lemma_nodes_view_insert(t0, child, child_node);
                    assert(child_node@ =~= NodeView { slot: slot_at(slots, i as int), ..t0[child]@ });
                }
            },
            None => {},
        }
        i = i + 1;
        proof {
            assert(document@.nodes =~= fold_slots(d0.nodes, children@, slots, i as nat));
        }
    }
    proof {
        assert(document@.nodes =~= refresh_slots(d0.nodes, parent, *widget_registry));
    }
}

/// Whether the widget under `widget_path` accepts one child more than `current`.
fn allows_one_more_child(widget_registry: &WidgetRegistry, widget_path: &str, current: usize) -> (r: bool)
    ensures
        r == path_allows(*widget_registry, widget_path@, current + 1int),
{
    match widget_registry.get_widget_by_path(widget_path) {
        None => true,
        Some(registration) => registration.child_rule().allows_one_more(current),
    }
}

fn add_root(document: &mut WidgetBlueprintDocument, widget_path: String, widget_registry: &WidgetRegistry) -> (r: Result<u64, BlueprintCommandError>)
    ensures
        (final(document)@, result_view(r)) == spec_add_root(old(document)@, widget_path@, *widget_registry),
{
    if widget_registry.get_widget_by_path(widget_path.as_str()).is_none() {
        return Err(BlueprintCommandError::UnknownWidgetPath(widget_path));
    }
    let ghost path = widget_path@;
    let id = document.alloc_id();
    let node = make_node(id, widget_path, None);
    let ghost t0 = node_table(document.nodes);
    node_table_insert(&mut document.nodes, id, node);
    proof {
        lemma_nodes_view_insert(t0, id, node);
    }
    document.roots.push(id);
    document.dirty = true;
    document.pending_select = Some(id);
    proof {
        assert(document@.nodes =~= spec_add_root(old(document)@, path, *widget_registry).0.nodes);
    }
    Ok(id)
}

fn add_child(document: &mut WidgetBlueprintDocument, parent: u64, widget_path: String, widget_registry: &WidgetRegistry) -> (r: Result<u64, BlueprintCommandError>)
    ensures
        (final(document)@, result_view(r)) == spec_add_child(old(document)@, parent, widget_path@, *widget_registry),
{
    if widget_registry.get_widget_by_path(widget_path.as_str()).is_none() {
        return Err(BlueprintCommandError::UnknownWidgetPath(widget_path));
    }
    let parent_widget: String;
    let count: usize;
    match node_table_get(&document.nodes, parent) {
        None => {
            return Err(BlueprintCommandError::ParentNotFound(parent));
        },
        Some(parent_node) => {
            parent_widget = parent_node.widget_path.clone();
            count = parent_node.children.len();
        },
    }
    if !allows_one_more_child(widget_registry, parent_widget.as_str(), count) {
        return Err(BlueprintCommandError::ChildConstraintViolated { parent, parent_widget });
    }
    let ghost path = widget_path@;
    let ghost d0 = document@;
    let id = document.alloc_id();
    let node = make_node(id, widget_path, Some(parent));
    let ghost t0 = node_table(document.nodes);
    node_table_insert(&mut document.nodes, id, node);
    proof {
        lemma_nodes_view_insert(t0, id, node);
    }
    let ghost t1 = node_table(document.nodes);
    match node_table_remove(&mut document.nodes, parent) {
        Some(mut parent_node) => {
            parent_node.children.push(id);
            node_table_insert(&mut document.nodes, parent, parent_node);
            proof {
                assert(node_table(document.nodes) =~= t1.insert(parent, parent_node));
                lemma_nodes_view_insert(t1, parent, parent_node);
                assert(parent_node@ =~= with_children(t1[parent]@, t1[parent]@.children.push(id)));
            }
        },
        None => {},
    }
    proof {
        let nodes1 = d0.nodes.insert(id, fresh_node(id, path, Some(parent)));
        assert(document@.nodes =~= nodes1.insert(parent, with_children(nodes1[parent], nodes1[parent].children.push(id))));
    }
    refresh_child_slots_for_parent(document, parent, widget_registry);
    document.dirty = true;
    document.pending_select = Some(id);
    Ok(id)
}

fn set_node_style(document: &mut WidgetBlueprintDocument, node: u64, style: WidgetStyle) -> (r: Result<u64, BlueprintCommandError>)
    ensures
        (final(document)@, result_view(r)) == spec_apply(old(document)@, CommandView::SetNodeStyle { node, style: style@ }, arbitrary::<WidgetRegistry>()),
{
    match node_table_remove(&mut document.nodes, node) {
        None => {
            proof {
                assert(node_table(document.nodes) =~= node_table(old(document).nodes));
            }
            Err(BlueprintCommandError::NodeNotFound(node))
        },
        Some(mut data) => {
            let ghost t0 = node_table(old(document).nodes);
            data.style = style;
            node_table_insert(&mut document.nodes, node, data);
            proof {
                assert(node_table(document.nodes) =~= t0.insert(node, data));
                lemma_nodes_view_insert(t0, node, data);
            }
            document.dirty = true;
            document.pending_select = Some(node);
            proof {
                assert(document@.nodes =~= old(document)@.nodes.insert(node, NodeView { style: style@, ..old(document)@.nodes[node] }));
            }
            Ok(node)
        },
    }
}

fn set_node_name(document: &mut WidgetBlueprintDocument, node: u64, name: String) -> (r: Result<u64, BlueprintCommandError>)
    ensures
        (final(document)@, result_view(r)) == spec_apply(old(document)@, CommandView::SetNodeName { node, name: name@ }, arbitrary::<WidgetRegistry>()),
{
    match node_table_remove(&mut document.nodes, node) {
        None => {
            proof {
                assert(node_table(document.nodes) =~= node_table(old(document).nodes));
            }
            Err(BlueprintCommandError::NodeNotFound(node))
        },
        Some(mut data) => {
            let ghost t0 = node_table(old(document).nodes);
            let ghost nm = name@;
            if is_blank(name.as_str()) {
                data.name = default_blueprint_node_name(data.widget_path.as_str());
            } else {
                data.name = name;
            }
            node_table_insert(&mut document.nodes, node, data);
            proof {
                assert(node_table(document.nodes) =~= t0.insert(node, data));
                lemma_nodes_view_insert(t0, node, data);
            }
            document.pending_select = Some(node);
            proof {
                let n = old(document)@.nodes[node];
                let new_name = if all_whitespace(nm) { path_tail(n.widget_path) } else { nm };
                assert(document@.nodes =~= old(document)@.nodes.insert(node, NodeView { name: new_name, ..n }));
            }
            Ok(node)
        },
    }
}

fn set_node_prop(document: &mut WidgetBlueprintDocument, node: u64, key: String, value: String) -> (r: Result<u64, BlueprintCommandError>)
    ensures
        (final(document)@, result_view(r)) == spec_apply(old(document)@, CommandView::SetNodeProp { node, key: key@, value: value@ }, arbitrary::<WidgetRegistry>()),
{
    match node_table_remove(&mut document.nodes, node) {
        None => {
            proof {
                assert(node_table(document.nodes) =~= node_table(old(document).nodes));
            }
            Err(BlueprintCommandError::NodeNotFound(node))
        },
        Some(mut data) => {
            let ghost t0 = node_table(old(document).nodes);
            let ghost (k, v) = (key@, value@);
            string_table_insert(&mut data.props, key, value);
            node_table_insert(&mut document.nodes, node, data);
            proof {
                assert(node_table(document.nodes) =~= t0.insert(node, data));
                lemma_nodes_view_insert(t0, node, data);
            }
            document.dirty = true;
            document.pending_select = Some(node);
            proof {
                let n = old(document)@.nodes[node];
                assert(document@.nodes =~= old(document)@.nodes.insert(node, NodeView { props: n.props.insert(k, v), ..n }));
            }
            Ok(node)
        },
    }
}

fn remove_node_prop(document: &mut WidgetBlueprintDocument, node: u64, key: String) -> (r: Result<u64, BlueprintCommandError>)
    ensures
        (final(document)@, result_view(r)) == spec_apply(old(document)@, CommandView::RemoveNodeProp { node, key: key@ }, arbitrary::<WidgetRegistry>()),
{
    match node_table_remove(&mut document.nodes, node) {
        None => {
            proof {
                assert(node_table(document.nodes) =~= node_table(old(document).nodes));
            }
            Err(BlueprintCommandError::NodeNotFound(node))
        },
        Some(mut data) => {
            let ghost t0 = node_table(old(document).nodes);
            string_table_remove(&mut data.props, key.as_str());
            node_table_insert(&mut document.nodes, node, data);
            proof {
                assert(node_table(document.nodes) =~= t0.insert(node, data));
                lemma_nodes_view_insert(t0, node, data);
            }
            document.dirty = true;
            document.pending_select = Some(node);
            proof {
                let n = old(document)@.nodes[node];
                assert(document@.nodes =~= old(document)@.nodes.insert(node, NodeView { props: n.props.remove(key@), ..n }));
            }
            Ok(node)
        },
    }
}

// ---------------------------------------------------------------------------
// Subtrees
// ---------------------------------------------------------------------------

pub proof fn lemma_in_subtree_self(nodes: Map<u64, NodeView>, a: u64)
    ensures
        in_subtree(nodes, a, a),
{
    assert(descends(nodes, a, a, 1));
}

/// Above a node that is not `a`, being below `a` is being below its parent.
pub proof fn lemma_in_subtree_step(nodes: Map<u64, NodeView>, x: u64, a: u64)
    requires
        x != a,
    ensures
        in_subtree(nodes, x, a) == (nodes.contains_key(x) && match nodes[x].parent {
            Some(p) => in_subtree(nodes, p, a),
            None => false,
        }),
{
    if in_subtree(nodes, x, a) {
        let f = choose|f: nat| descends(nodes, x, a, f);
        match nodes[x].parent {
            Some(p) => {
                assert(descends(nodes, p, a, (f - 1) as nat));
            },
            None => {},
        }
    }
    if nodes.contains_key(x) {
        match nodes[x].parent {
            Some(p) => {
                if in_subtree(nodes, p, a) {
                    let f = choose|f: nat| descends(nodes, p, a, f);
                    assert(descends(nodes, x, a, f + 1));
                }
            },
            None => {},
        }
    }
}

/// Below `a` means a rank at least that of `a`.
pub proof fn lemma_descends_rank(nodes: Map<u64, NodeView>, rank: spec_fn(u64) -> nat, x: u64, a: u64, fuel: nat)
    requires
        ranked_by(nodes, rank),
        descends(nodes, x, a, fuel),
    ensures
        x == a || (nodes.contains_key(x) && rank(a) < rank(x)),
    decreases fuel,
{
    if x != a {
        let p = nodes[x].parent->0;
        assert(nodes.contains_key(x));
        lemma_descends_rank(nodes, rank, p, a, (fuel - 1) as nat);
    }
}

pub proof fn lemma_in_subtree_rank(nodes: Map<u64, NodeView>, rank: spec_fn(u64) -> nat, x: u64, a: u64)
    requires
        ranked_by(nodes, rank),
        in_subtree(nodes, x, a),
    ensures
        x == a || (nodes.contains_key(x) && rank(a) < rank(x)),
{
    let f = choose|f: nat| descends(nodes, x, a, f);
    lemma_descends_rank(nodes, rank, x, a, f);
}

/// Climbing parent links from `x` stops within `fuel` nodes: at `a`, at a
/// node without parent, or at an id that is no node.
pub open spec fn climb_stops(nodes: Map<u64, NodeView>, x: u64, a: u64, fuel: nat) -> bool
    decreases fuel,
{
    fuel > 0 && (x == a || !nodes.contains_key(x) || match nodes[x].parent {
        None => true,
        Some(p) => climb_stops(nodes, p, a, (fuel - 1) as nat),
    })
}

/// Climbing parent links from `x` stops, at `a` or at the top.
pub open spec fn climb_ends(nodes: Map<u64, NodeView>, x: u64, a: u64) -> bool {
    exists|fuel: nat| climb_stops(nodes, x, a, fuel)
}

/// More room to climb in never hurts.
pub proof fn lemma_climb_more(nodes: Map<u64, NodeView>, x: u64, a: u64, f: nat, g: nat)
    requires
        climb_stops(nodes, x, a, f),
        f <= g,
    ensures
        climb_stops(nodes, x, a, g),
    decreases f,
{
    if x != a && nodes.contains_key(x) {
        if let Some(p) = nodes[x].parent {
            lemma_climb_more(nodes, p, a, (f - 1) as nat, (g - 1) as nat);
        }
    }
}

/// Where parent links go round nowhere, every climb ends.
pub proof fn lemma_acyclic_climb_ends(nodes: Map<u64, NodeView>, x: u64, a: u64)
    requires
        acyclic(nodes),
    ensures
        climb_ends(nodes, x, a),
{
    let rank = choose|rank: spec_fn(u64) -> nat| ranked_by(nodes, rank);
    lemma_ranked_climb_stops(nodes, rank, x, a);
}

proof fn lemma_ranked_climb_stops(nodes: Map<u64, NodeView>, rank: spec_fn(u64) -> nat, x: u64, a: u64)
    requires
        ranked_by(nodes, rank),
    ensures
        climb_stops(nodes, x, a, rank(x) + 1),
    decreases rank(x),
{
    if x != a && nodes.contains_key(x) {
        if let Some(p) = nodes[x].parent {
            lemma_ranked_climb_stops(nodes, rank, p, a);
            lemma_climb_more(nodes, p, a, rank(p) + 1, rank(x));
        }
    }
}

/// Whether `candidate` is `ancestor` or lies below it. The climb from
/// `candidate` must end, else it would go round for ever.
pub fn is_descendant(document: &WidgetBlueprintDocument, candidate: u64, ancestor: u64) -> (r: bool)
    requires
        climb_ends(document@.nodes, candidate, ancestor),
    ensures
        r == in_subtree(document@.nodes, candidate, ancestor),
{
    let ghost nodes = document@.nodes;
    let ghost mut fuel: nat = choose|f: nat| climb_stops(nodes, candidate, ancestor, f);
    let mut cursor = candidate;
    loop
        invariant
            nodes == document@.nodes,
            climb_stops(nodes, cursor, ancestor, fuel),
            in_subtree(nodes, candidate, ancestor) == in_subtree(nodes, cursor, ancestor),
        decreases fuel,
    {
        if cursor == ancestor {
            proof {
                lemma_in_subtree_self(nodes, cursor);
            }
            return true;
        }
        proof {
            lemma_in_subtree_step(nodes, cursor, ancestor);
        }
        match node_table_get(&document.nodes, cursor) {
            None => {
                return false;
            },
            Some(n) => {
                match n.parent {
                    None => {
                        return false;
                    },
                    Some(p) => {
                        assert(nodes.contains_key(cursor));
                        proof {
                            fuel = (fuel - 1) as nat;
                        }
                        cursor = p;
                    },
                }
            },
        }
    }
}

/// A copy of `v` without any `x`.
fn without_id(v: &Vec<u64>, x: u64) -> (r: Vec<u64>)
    ensures
        r@ == without(v@, x),
{
    let mut r: Vec<u64> = Vec::new();
    let mut i: usize = 0;
    while i < v.len()
        invariant
            0 <= i <= v@.len(),
            r@ == without(v@.take(i as int), x),
        decreases v@.len() - i,
    {
        proof {
            v@.take(i as int).lemma_filter_push(v@[i as int], other_than(x));
            assert(v@.take(i as int).push(v@[i as int]) =~= v@.take(i + 1));
        }
        if v[i] != x {
            r.push(v[i]);
        }
        i = i + 1;
    }
    assert(v@.take(v@.len() as int) =~= v@);
    r
}

/// The first place of `x` in `v`, if any.
fn position_of(v: &Vec<u64>, x: u64) -> (r: Option<usize>)
    ensures
        r is Some == v@.contains(x),
        r matches Some(i) ==> i < v@.len() && v@[i as int] == x && i as int == first_index(v@, x),
{
    proof {
        if v@.contains(x) {
            lemma_first_index(v@, x);
        }
    }
    let mut i: usize = 0;
    while i < v.len()
        invariant
            0 <= i <= v@.len(),
            forall|j: int| 0 <= j < i ==> v@[j] != x,
        decreases v@.len() - i,
    {
        if v[i] == x {
            proof {
                lemma_first_index(v@, x);
                let f = first_index(v@, x);
                assert(!(f < i) && !(i < f));
            }
            return Some(i);
        }
        i = i + 1;
    }
    None
}

/// Moves the element at `pos` to `index` (clamped), counted as if it were
/// still in place.
fn reorder_ids(v: &mut Vec<u64>, pos: usize, index: Option<usize>)
    requires
        pos < old(v)@.len(),
    ensures
        final(v)@ == reorder(old(v)@, pos as int, index),
{
    let len = v.len();
    let mut insert_at = match index {
        Some(i) => i,
        None => len,
    };
    if insert_at > len {
        insert_at = len;
    }
    let id = v.remove(pos);
    if insert_at > pos {
        insert_at = insert_at - 1;
    }
    v.insert(insert_at, id);
}

/// Inserts `x` at `index`, or at the end when `index` is none or past it.
fn insert_id_clamped(v: &mut Vec<u64>, index: Option<usize>, x: u64)
    ensures
        final(v)@ == insert_clamped(old(v)@, index, x),
{
    let len = v.len();
    let mut insert_at = match index {
        Some(i) => i,
        None => len,
    };
    if insert_at > len {
        insert_at = len;
    }
    v.insert(insert_at, x);
}

/// Takes the nodes with the given ids out of the document's table.
fn remove_ids(document: &mut WidgetBlueprintDocument, ids: &Vec<u64>)
    ensures
        final(document)@ == (DocView { nodes: old(document)@.nodes.remove_keys(ids@.to_set()), ..old(document)@ }),
{
    let ghost d = document@;
    let mut j: usize = 0;
    assert(d.nodes.remove_keys(ids@.take(0).to_set()) =~= d.nodes);
    while j < ids.len()
        invariant
            0 <= j <= ids@.len(),
            document@ == (DocView { nodes: d.nodes.remove_keys(ids@.take(j as int).to_set()), ..d }),
        decreases ids@.len() - j,
    {
        let ghost t0 = node_table(document.nodes);
        let x = ids[j];
        node_table_remove(&mut document.nodes, x);
        proof {
            lemma_nodes_view_remove(t0, x);
            assert(ids@.take(j + 1) =~= ids@.take(j as int).push(x));
            ids@.take(j as int).lemma_push_to_set_commute(x);
            assert(document@.nodes =~= d.nodes.remove_keys(ids@.take(j + 1).to_set()));
        }
        j = j + 1;
    }
    proof {
        assert(ids@.take(ids@.len() as int) =~= ids@);
        assert(document@.nodes =~= d.nodes.remove_keys(ids@.to_set()));
    }
}

/// A path from `a` to `p` goes on to any present child of `p`.
pub proof fn lemma_reaches_extend(nodes: Map<u64, NodeView>, a: u64, p: u64, i: int, fuel: nat)
    requires
        reaches(nodes, a, p, fuel),
        0 <= i < nodes[p].children.len(),
        nodes.contains_key(nodes[p].children[i]),
    ensures
        reaches(nodes, a, nodes[p].children[i], fuel + 1),
    decreases fuel,
{
    let x = nodes[p].children[i];
    if x != a {
        if p == a {
            assert(reaches(nodes, x, x, fuel));
            assert(reaches(nodes, a, x, fuel + 1));
        } else {
            let j = choose|j: int|
                #![trigger nodes[a].children[j]]
                0 <= j < nodes[a].children.len() && reaches(nodes, nodes[a].children[j], p, (fuel - 1) as nat);
            lemma_reaches_extend(nodes, nodes[a].children[j], p, i, (fuel - 1) as nat);
            assert(reaches(nodes, a, x, fuel + 1));
        }
    }
}

/// What a path reaches is present.
pub proof fn lemma_reaches_present(nodes: Map<u64, NodeView>, a: u64, x: u64, fuel: nat)
    requires
        reaches(nodes, a, x, fuel),
    ensures
        nodes.contains_key(x),
    decreases fuel,
{
    if x != a {
        let j = choose|j: int|
            #![trigger nodes[a].children[j]]
            0 <= j < nodes[a].children.len() && reaches(nodes, nodes[a].children[j], x, (fuel - 1) as nat);
        lemma_reaches_present(nodes, nodes[a].children[j], x, (fuel - 1) as nat);
    }
}

/// Each present member of `s` has its present children in `s`.
pub open spec fn closed_under_kids(nodes: Map<u64, NodeView>, s: Set<u64>) -> bool {
    forall|v: u64, i: int| #![trigger s.contains(v), nodes[v].children[i]]
        s.contains(v) && nodes.contains_key(v) && 0 <= i < nodes[v].children.len()
        && nodes.contains_key(nodes[v].children[i]) ==> s.contains(nodes[v].children[i])
}

/// A set closed under children that holds `a` holds all that children lists
/// lead to from `a`.
pub proof fn lemma_reach_closed(nodes: Map<u64, NodeView>, s: Set<u64>, a: u64, x: u64, fuel: nat)
    requires
        reaches(nodes, a, x, fuel),
        s.contains(a),
        closed_under_kids(nodes, s),
    ensures
        s.contains(x),
    decreases fuel,
{
    if x != a {
        let j = choose|j: int|
            #![trigger nodes[a].children[j]]
            0 <= j < nodes[a].children.len() && reaches(nodes, nodes[a].children[j], x, (fuel - 1) as nat);
        let c = nodes[a].children[j];
        assert(nodes.contains_key(c)) by {
            lemma_reaches_present(nodes, c, x, (fuel - 1) as nat);
            assert(reaches(nodes, c, x, (fuel - 1) as nat));
        }
        assert(s.contains(c));
        lemma_reach_closed(nodes, s, c, x, (fuel - 1) as nat);
    }
}

/// A list without repeats, all of whose members occur in `keys`, is no
/// longer than `keys`.
pub proof fn lemma_distinct_within(seen: Seq<u64>, keys: Seq<u64>)
    requires
        seen.no_duplicates(),
        forall|j: int| 0 <= j < seen.len() ==> keys.contains(#[trigger] seen[j]),
    ensures
        seen.len() <= keys.len(),
{
    assert(seen.to_set().subset_of(keys.to_set())) by {
        assert forall|x: u64| seen.to_set().contains(x) implies keys.to_set().contains(x) by {
            let j = choose|j: int| 0 <= j < seen.len() && seen[j] == x;
            assert(keys.contains(seen[j]));
        }
    }
    seen.unique_seq_to_set();
    keys.lemma_cardinality_of_set();
    vstd::set_lib::lemma_len_subset(seen.to_set(), keys.to_set());
}

/// The nodes that children lists lead to from `node`, a present node: as a
/// list, each once, and as a set.
fn reachable_ids(document: &WidgetBlueprintDocument, node: u64) -> (r: (Vec<u64>, HashSet<u64>))
    requires
        document@.nodes.contains_key(node),
    ensures
        r.0@.to_set() == reach_set(document@.nodes, node),
        id_set(r.1) == reach_set(document@.nodes, node),
        r.0@.no_duplicates(),
{
    let ghost nodes = document@.nodes;
    let ghost reach = reach_set(nodes, node);
    let keys = node_table_keys(&document.nodes);
    assert(nodes.dom() =~= node_table(document.nodes).dom());
    let mut seen: Vec<u64> = Vec::new();
    let mut seen_set = id_set_new();
    let mut stack: Vec<u64> = Vec::new();
    stack.push(node);
    proof {
        assert(reaches(nodes, node, node, 1));
        assert(seen@.to_set() =~= Set::<u64>::empty());
        assert(stack@[0] == node);
    }
    while stack.len() > 0
        invariant
            document@.nodes == nodes,
            nodes.contains_key(node),
            reach == reach_set(nodes, node),
            keys@.to_set() == nodes.dom(),
            id_set(seen_set) == seen@.to_set(),
            seen@.no_duplicates(),
            forall|j: int| 0 <= j < seen@.len() ==> reach.contains(#[trigger] seen@[j]),
            forall|j: int| 0 <= j < stack@.len() && nodes.contains_key(#[trigger] stack@[j]) ==> reach.contains(stack@[j]),
            seen@.contains(node) || stack@.contains(node),
            forall|v: u64, i: int| #![trigger seen@.to_set().contains(v), nodes[v].children[i]]
                seen@.to_set().contains(v) && 0 <= i < nodes[v].children.len() && nodes.contains_key(nodes[v].children[i])
                ==> seen@.contains(nodes[v].children[i]) || stack@.contains(nodes[v].children[i]),
        decreases keys@.len() - seen@.len(), stack@.len(),
    {
        let ghost stack_before = stack@;
        let ghost seen_before = seen@;
        let x = stack.pop().unwrap();
        proof {
            assert(stack_before =~= stack@.push(x));
            assert forall|y: u64| stack_before.contains(y) && y != x implies stack@.contains(y) by {
                let j = choose|j: int| 0 <= j < stack_before.len() && stack_before[j] == y;
                assert(j < stack@.len());
                assert(stack@[j] == y);
            }
        }
        if !id_set_contains(&seen_set, x) && node_table_contains(&document.nodes, x) {
            proof {
                assert(reach.contains(stack_before[stack_before.len() - 1]));
            }
            seen.push(x);
            id_set_insert(&mut seen_set, x);
            proof {
                assert(seen@ =~= seen_before.push(x));
                seen_before.lemma_push_to_set_commute(x);
                assert(!seen_before.contains(x)) by {
                    if seen_before.contains(x) {
                        assert(seen_before.to_set().contains(x));
                    }
                }
                assert forall|j: int| 0 <= j < seen@.len() implies reach.contains(#[trigger] seen@[j]) by {
                    if j < seen_before.len() {
                        assert(seen@[j] == seen_before[j]);
                    }
                }
            }
            let kids = &node_table_get(&document.nodes, x).unwrap().children;
            let ghost fx = choose|f: nat| reaches(nodes, node, x, f);
            proof {
                assert(kids@ == nodes[x].children);
            }
            let mut k: usize = 0;
            while k < kids.len()
                invariant
                    document@.nodes == nodes,
                    kids@ == nodes[x].children,
                    nodes.contains_key(x),
                    reaches(nodes, node, x, fx),
                    reach == reach_set(nodes, node),
                    0 <= k <= kids@.len(),
                    stack@.len() >= stack_before.len() - 1,
                    forall|y: u64| stack_before.contains(y) && y != x ==> stack@.contains(y),
                    forall|j: int| 0 <= j < k ==> stack@.contains(#[trigger] kids@[j]),
                    forall|j: int| 0 <= j < stack@.len() && nodes.contains_key(#[trigger] stack@[j]) ==> reach.contains(stack@[j]),
                decreases kids@.len() - k,
            {
                let ghost st = stack@;
                let c = kids[k];
                stack.push(c);
                proof {
                    assert(stack@ =~= st.push(c));
                    assert(stack@[st.len() as int] == c);
                    assert forall|y: u64| st.contains(y) implies stack@.contains(y) by {
                        let j = choose|j: int| 0 <= j < st.len() && st[j] == y;
                        assert(stack@[j] == y);
                    }
                    if nodes.contains_key(c) {
                        lemma_reaches_extend(nodes, node, x, k as int, fx);
                        assert(reach.contains(c));
                    }
                    assert forall|j: int| 0 <= j < stack@.len() && nodes.contains_key(#[trigger] stack@[j]) implies reach.contains(stack@[j]) by {
                        if j < st.len() {
                            assert(stack@[j] == st[j]);
                        }
                    }
                }
                k = k + 1;
            }
            proof {
                assert forall|v: u64, i: int| #![trigger seen@.to_set().contains(v), nodes[v].children[i]]
                    seen@.to_set().contains(v) && 0 <= i < nodes[v].children.len() && nodes.contains_key(nodes[v].children[i])
                    implies seen@.contains(nodes[v].children[i]) || stack@.contains(nodes[v].children[i]) by {
                    let c = nodes[v].children[i];
                    if v == x {
                        assert(kids@[i] == c);
                    } else {
                        assert(seen_before.to_set().contains(v));
                        if seen_before.contains(c) {
                            assert(seen@.contains(c)) by {
                                let j = choose|j: int| 0 <= j < seen_before.len() && seen_before[j] == c;
                                assert(seen@[j] == c);
                            }
                        } else if c == x {
                            assert(seen@[seen@.len() - 1] == x);
                        }
                    }
                }
                assert forall|j: int| 0 <= j < seen@.len() implies keys@.contains(#[trigger] seen@[j]) by {
                    let y = seen@[j];
                    let f = choose|f: nat| reaches(nodes, node, y, f);
                    lemma_reaches_present(nodes, node, y, f);
                    assert(keys@.to_set().contains(y));
                }
                lemma_distinct_within(seen@, keys@);
                if seen_before.contains(node) {
                    let j = choose|j: int| 0 <= j < seen_before.len() && seen_before[j] == node;
                    assert(seen@[j] == node);
                } else if node == x {
                    assert(seen@[seen@.len() - 1] == x);
                }
            }
        } else {
            proof {
                assert forall|v: u64, i: int| #![trigger seen@.to_set().contains(v), nodes[v].children[i]]
                    seen@.to_set().contains(v) && 0 <= i < nodes[v].children.len() && nodes.contains_key(nodes[v].children[i])
                    implies seen@.contains(nodes[v].children[i]) || stack@.contains(nodes[v].children[i]) by {
                    let c = nodes[v].children[i];
                    if c == x {
                        assert(seen@.to_set().contains(x));
                    }
                }
                if node == x {
                    assert(seen@.to_set().contains(x));
                }
                assert forall|j: int| 0 <= j < stack@.len() && nodes.contains_key(#[trigger] stack@[j]) implies reach.contains(stack@[j]) by {
                    assert(stack@[j] == stack_before[j]);
                }
            }
        }
    }
    proof {
        assert(seen@.contains(node));
        assert(closed_under_kids(nodes, seen@.to_set()));
        assert forall|x: u64| reach.contains(x) implies seen@.to_set().contains(x) by {
            let f = choose|f: nat| reaches(nodes, node, x, f);
            lemma_reach_closed(nodes, seen@.to_set(), node, x, f);
        }
        assert forall|x: u64| seen@.to_set().contains(x) implies reach.contains(x) by {
            let j = choose|j: int| 0 <= j < seen@.len() && seen@[j] == x;
            assert(reach.contains(seen@[j]));
        }
        assert(seen@.to_set() =~= reach);
    }
    (seen, seen_set)
}

/// The ids of `ids` that stay listed under `parent` once the nodes of
/// `gone` leave.
fn stays_listed_ids(document: &WidgetBlueprintDocument, ids: &Vec<u64>, gone: &HashSet<u64>, parent: Option<u64>) -> (r: Vec<u64>)
    requires
        id_set(*gone).subset_of(document@.nodes.dom()),
    ensures
        r@ == ids@.filter(stays_listed(document@.nodes, id_set(*gone), parent)),
{
    let ghost pred = stays_listed(document@.nodes, id_set(*gone), parent);
    let mut r: Vec<u64> = Vec::new();
    let mut i: usize = 0;
    while i < ids.len()
        invariant
            id_set(*gone).subset_of(document@.nodes.dom()),
            pred == stays_listed(document@.nodes, id_set(*gone), parent),
            0 <= i <= ids@.len(),
            r@ == ids@.take(i as int).filter(pred),
        decreases ids@.len() - i,
    {
        let c = ids[i];
        proof {
            ids@.take(i as int).lemma_filter_push(c, pred);
            assert(ids@.take(i as int).push(c) =~= ids@.take(i + 1));
        }
        let leaves = id_set_contains(gone, c) && match node_table_get(&document.nodes, c) {
            Some(n) => n.parent == parent,
            None => false,
        };
        proof {
            if id_set(*gone).contains(c) {
                assert(document@.nodes.contains_key(c));
            }
        }
        if !leaves {
            r.push(c);
        }
        i = i + 1;
    }
    assert(ids@.take(ids@.len() as int) =~= ids@);
    r
}

/// Takes out every node that children lists lead to from `node`, and each of
/// them off the list of the parent it names or off the roots.
fn remove_node_subtree(document: &mut WidgetBlueprintDocument, node: u64)
    requires
        old(document)@.nodes.contains_key(node),
    ensures
        ({
            let d = old(document)@;
            let gone = reach_set(d.nodes, node);
            final(document)@ == DocView {
                roots: d.roots.filter(stays_listed(d.nodes, gone, None)),
                nodes: detach_nodes(d.nodes, gone),
                ..d
            }
        }),
{
    let ghost d = document@;
    let ghost gone_view = reach_set(d.nodes, node);
    let (gone, gone_set) = reachable_ids(document, node);
    proof {
        assert forall|x: u64| gone_view.contains(x) implies d.nodes.contains_key(x) by {
            let f = choose|f: nat| reaches(d.nodes, node, x, f);
            lemma_reaches_present(d.nodes, node, x, f);
        }
    }
    let roots = stays_listed_ids(document, &document.roots, &gone_set, None);
    let keys = node_table_keys(&document.nodes);
    proof {
        assert(d.nodes.dom() =~= node_table(document.nodes).dom());
    }
    let mut k: usize = 0;
    while k < keys.len()
        invariant
            gone_view == reach_set(d.nodes, node),
            id_set(gone_set) == gone_view,
            gone_view.subset_of(d.nodes.dom()),
            keys@.to_set() == d.nodes.dom(),
            keys@.no_duplicates(),
            0 <= k <= keys@.len(),
            document@.roots == d.roots,
            document@.next_id == d.next_id,
            document@.dirty == d.dirty,
            document@.pending_select == d.pending_select,
            document@.nodes.dom() == d.nodes.dom(),
            forall|q: u64| #[trigger] document@.nodes.contains_key(q) ==> document@.nodes[q] == (
                if !gone_view.contains(q) && keys@.take(k as int).contains(q) {
                    with_children(d.nodes[q], d.nodes[q].children.filter(stays_listed(d.nodes, gone_view, Some(q))))
                } else {
                    d.nodes[q]
                }),
        decreases keys@.len() - k,
    {
        let q = keys[k];
        let ghost before = document@.nodes;
        proof {
            assert(keys@.to_set().contains(q)) by {
                assert(keys@.contains(q));
            }
            assert(!keys@.take(k as int).contains(q)) by {
                if keys@.take(k as int).contains(q) {
                    let j = choose|j: int| 0 <= j < k && keys@.take(k as int)[j] == q;
                    assert(keys@[j] == keys@[k as int]);
                }
            }
            assert(before[q] == d.nodes[q]);
            assert(stays_listed(before, gone_view, Some(q)) =~= stays_listed(d.nodes, gone_view, Some(q)));
        }
        if !id_set_contains(&gone_set, q) {
            let kids = stays_listed_ids(document, &node_table_get(&document.nodes, q).unwrap().children, &gone_set, Some(q));
            set_children(document, q, kids);
        }
        proof {
            assert(keys@.take(k + 1) =~= keys@.take(k as int).push(q));
            assert forall|x: u64| #[trigger] document@.nodes.contains_key(x) implies document@.nodes[x] == (
                if !gone_view.contains(x) && keys@.take(k + 1).contains(x) {
                    with_children(d.nodes[x], d.nodes[x].children.filter(stays_listed(d.nodes, gone_view, Some(x))))
                } else {
                    d.nodes[x]
                }) by {
                if x != q {
                    assert(keys@.take(k + 1).contains(x) == keys@.take(k as int).contains(x));
                    assert(before.contains_key(x));
                } else {
                    assert(keys@.take(k + 1)[k as int] == q);
                }
            }
            assert(document@.nodes.dom() =~= d.nodes.dom());
        }
        k = k + 1;
    }
    proof {
        assert(keys@.take(keys@.len() as int) =~= keys@);
    }
    let ghost detached = document@.nodes;
    remove_ids(document, &gone);
    document.roots = roots;
    proof {
        assert forall|q: u64| #[trigger] detached.contains_key(q) && !gone_view.contains(q) implies keys@.contains(q) by {
            assert(keys@.to_set().contains(q));
        }
        assert(document@.nodes =~= detach_nodes(d.nodes, gone_view));
        assert(document@.roots == d.roots.filter(stays_listed(d.nodes, gone_view, None)));
    }
}

fn remove_node(document: &mut WidgetBlueprintDocument, node: u64, widget_registry: &WidgetRegistry) -> (r: Result<u64, BlueprintCommandError>)
    ensures
        (final(document)@, result_view(r)) == spec_remove_node(old(document)@, node, *widget_registry),
{
    let parent_before = match node_table_get(&document.nodes, node) {
        None => {
            return Err(BlueprintCommandError::NodeNotFound(node));
        },
        Some(n) => n.parent,
    };
    let fallback = match parent_before {
        Some(p) => Some(p),
        None => if document.roots.len() > 0 && document.roots[0] != node {
            Some(document.roots[0])
        } else {
            None
        },
    };
    remove_node_subtree(document, node);
    match parent_before {
        Some(p) => refresh_child_slots_for_parent(document, p, widget_registry),
        None => {},
    }
    document.dirty = true;
    document.pending_select = fallback;
    proof {
        let s = spec_remove_node(old(document)@, node, *widget_registry).0;
        assert(document@.nodes =~= s.nodes);
        assert(document@.roots =~= s.roots);
    }
    Ok(node)
}

/// Replaces the children of the node `id`, if it exists.
fn set_children(document: &mut WidgetBlueprintDocument, id: u64, children: Vec<u64>)
    ensures
        final(document)@ == (DocView {
            nodes: if old(document)@.nodes.contains_key(id) {
                old(document)@.nodes.insert(id, with_children(old(document)@.nodes[id], children@))
            } else {
                old(document)@.nodes
            },
            ..old(document)@
        }),
{
    let ghost t0 = node_table(document.nodes);
    match node_table_remove(&mut document.nodes, id) {
        Some(mut n) => {
            n.children = children;
            node_table_insert(&mut document.nodes, id, n);
            proof {
                assert(node_table(document.nodes) =~= t0.insert(id, n));
                lemma_nodes_view_insert(t0, id, n);
                assert(n@ =~= with_children(t0[id]@, children@));
            }
        },
        None => {
            proof {
                assert(node_table(document.nodes) =~= t0);
            }
        },
    }
    proof {
        assert(document@.nodes =~= (if old(document)@.nodes.contains_key(id) {
            old(document)@.nodes.insert(id, with_children(old(document)@.nodes[id], children@))
        } else {
            old(document)@.nodes
        }));
    }
}

/// A copy of the children of the node `id`, which exists.
fn children_of(document: &WidgetBlueprintDocument, id: u64) -> (r: Vec<u64>)
    requires
        document@.nodes.contains_key(id),
    ensures
        r@ == document@.nodes[id].children,
{
    copy_ids(&node_table_get(&document.nodes, id).unwrap().children)
}

fn move_node(document: &mut WidgetBlueprintDocument, node: u64, new_parent: Option<u64>, index: Option<usize>, widget_registry: &WidgetRegistry) -> (r: Result<u64, BlueprintCommandError>)
    requires
        new_parent matches Some(p) ==> (old(document)@.nodes.contains_key(node) && old(document)@.nodes.contains_key(p) && p != node
            ==> climb_ends(old(document)@.nodes, p, node)),
    ensures
        (final(document)@, result_view(r)) == spec_move_node(old(document)@, node, new_parent, index, *widget_registry),
{
    let ghost d = document@;
    if !node_table_contains(&document.nodes, node) {
        return Err(BlueprintCommandError::NodeNotFound(node));
    }
    match new_parent {
        Some(p) => {
            if !node_table_contains(&document.nodes, p) {
                return Err(BlueprintCommandError::ParentNotFound(p));
            }
            if p == node || is_descendant(document, p, node) {
                return Err(BlueprintCommandError::InvalidMove);
            }
        },
        None => {},
    }
    let old_parent = node_table_get(&document.nodes, node).unwrap().parent;
    if old_parent == new_parent {
        match new_parent {
            Some(p) => {
                let mut kids = children_of(document, p);
                match position_of(&kids, node) {
                    Some(pos) => {
                        reorder_ids(&mut kids, pos, index);
                        set_children(document, p, kids);
                        refresh_child_slots_for_parent(document, p, widget_registry);
                        document.dirty = true;
                    },
                    None => {},
                }
            },
            None => {
                match position_of(&document.roots, node) {
                    Some(pos) => {
                        reorder_ids(&mut document.roots, pos, index);
                        document.dirty = true;
                    },
                    None => {},
                }
            },
        }
        proof {
            let s = spec_move_node(d, node, new_parent, index, *widget_registry).0;
            assert(document@.nodes =~= s.nodes);
            assert(document@.roots =~= s.roots);
        }
        return Ok(node);
    }
    match new_parent {
        Some(p) => {
            let n = node_table_get(&document.nodes, p).unwrap();
            let parent_widget = n.widget_path.clone();
            let count = n.children.len();
            if !allows_one_more_child(widget_registry, parent_widget.as_str(), count) {
                return Err(BlueprintCommandError::ChildConstraintViolated { parent: p, parent_widget });
            }
        },
        None => {},
    }
    match old_parent {
        Some(op) => {
            if node_table_contains(&document.nodes, op) {
                let kids = children_of(document, op);
                let kept = without_id(&kids, node);
                set_children(document, op, kept);
            }
        },
        None => {
            document.roots = without_id(&document.roots, node);
        },
    }
    let ghost d1 = document@;
    match new_parent {
        Some(p) => {
            let mut kids = children_of(document, p);
            insert_id_clamped(&mut kids, index, node);
            set_children(document, p, kids);
        },
        None => {
            insert_id_clamped(&mut document.roots, index, node);
        },
    }
    let ghost d2 = document@;
    let ghost t2 = node_table(document.nodes);
    match node_table_remove(&mut document.nodes, node) {
        Some(mut n) => {
            n.parent = new_parent;
            n.slot = None;
            node_table_insert(&mut document.nodes, node, n);
            proof {
                assert(node_table(document.nodes) =~= t2.insert(node, n));
                lemma_nodes_view_insert(t2, node, n);
                assert(n@ =~= NodeView { parent: new_parent, slot: None, ..t2[node]@ });
            }
        },
        None => {},
    }
    let ghost d3 = document@;
    match old_parent {
        Some(op) => refresh_child_slots_for_parent(document, op, widget_registry),
        None => {},
    }
    match new_parent {
        Some(p) => refresh_child_slots_for_parent(document, p, widget_registry),
        None => {},
    }
    document.dirty = true;
    document.pending_select = Some(node);
    proof {
        let s = spec_move_node(d, node, new_parent, index, *widget_registry).0;
        assert(d2.nodes.contains_key(node));
        assert(d3.nodes =~= d2.nodes.insert(node, NodeView { parent: new_parent, slot: None, ..d2.nodes[node] }));
        assert(document@.nodes =~= s.nodes);
        assert(document@.roots =~= s.roots);
    }
    Ok(node)
}

/// Applies `command` to `document`; on success, answers the id of the node
/// concerned, and on refusal leaves the document as it was. Moving a node
/// under another climbs the new parent's ancestors looking for the node, so
/// that climb must end.
pub fn apply_blueprint_command(command: BlueprintCommand, document: &mut WidgetBlueprintDocument, widget_registry: &WidgetRegistry) -> (r: Result<u64, BlueprintCommandError>)
    requires
        command matches BlueprintCommand::MoveNode { node, new_parent: Some(p), .. } ==> (old(document)@.nodes.contains_key(node)
            && old(document)@.nodes.contains_key(p) && p != node ==> climb_ends(old(document)@.nodes, p, node)),
    ensures
        (final(document)@, result_view(r)) == spec_apply(old(document)@, command@, *widget_registry),
{
    match command {
        BlueprintCommand::AddRoot { widget_path } => add_root(document, widget_path, widget_registry),
        BlueprintCommand::AddChild { parent, widget_path } => add_child(document, parent, widget_path, widget_registry),
        BlueprintCommand::RemoveNode { node } => remove_node(document, node, widget_registry),
        BlueprintCommand::MoveNode { node, new_parent, index } => move_node(document, node, new_parent, index, widget_registry),
        BlueprintCommand::SetNodeStyle { node, style } => set_node_style(document, node, style),
        BlueprintCommand::SetNodeName { node, name } => set_node_name(document, node, name),
        BlueprintCommand::SetNodeProp { node, key, value } => set_node_prop(document, node, key, value),
        BlueprintCommand::RemoveNodeProp { node, key } => remove_node_prop(document, node, key),
    }
}

/// The largest id of `s`, or 0 when `s` is empty.
pub open spec fn is_max_id(s: Set<u64>, m: u64) -> bool {
    (s =~= Set::<u64>::empty() && m == 0) || (s.contains(m) && forall|k: u64| #[trigger] s.contains(k) ==> k <= m)
}

pub open spec fn max_id(s: Set<u64>) -> u64 {
    choose|m: u64| is_max_id(s, m)
}

pub proof fn lemma_max_id_unique(s: Set<u64>, m: u64)
    requires
        is_max_id(s, m),
    ensures
        max_id(s) == m,
{
    let c = max_id(s);
    assert(is_max_id(s, c));
    if s =~= Set::<u64>::empty() {
        if s.contains(c) {
            assert(false);
        }
        if s.contains(m) {
            assert(false);
        }
    } else {
        if !s.contains(c) || !s.contains(m) {
            assert(false);
        }
        assert(c <= m && m <= c);
    }
}

/// The largest of the given ids, or 0 when there is none.
fn largest_id(ids: &Vec<u64>) -> (m: u64)
    ensures
        is_max_id(ids@.to_set(), m),
{
    let mut m: u64 = 0;
    let mut i: usize = 0;
    while i < ids.len()
        invariant
            0 <= i <= ids@.len(),
            i == 0 ==> m == 0,
            i > 0 ==> ids@.take(i as int).contains(m),
            forall|j: int| 0 <= j < i ==> ids@[j] <= m,
        decreases ids@.len() - i,
    {
        if i == 0 || ids[i] > m {
            m = ids[i];
        }
        proof {
            assert(ids@.take(i + 1)[i as int] == ids@[i as int]);
            if i > 0 && ids@.take(i as int).contains(m) {
                let q = choose|q: int| 0 <= q < i && ids@.take(i as int)[q] == m;
                assert(ids@.take(i + 1)[q] == m);
            }
        }
        i = i + 1;
    }
    proof {
        assert(ids@.take(ids@.len() as int) =~= ids@);
        if ids@.len() == 0 {
            assert(ids@.to_set() =~= Set::<u64>::empty());
        } else {
            assert(ids@.contains(m));
            assert forall|k: u64| #[trigger] ids@.to_set().contains(k) implies k <= m by {
                let q = choose|q: int| 0 <= q < ids@.len() && ids@[q] == k;
            }
        }
    }
    m
}

impl WidgetBlueprintDocument {
    /// Whether the document has a node with id `id`.
    pub fn contains_node(&self, id: u64) -> (r: bool)
        ensures
            r == self@.nodes.contains_key(id),
    {
        node_table_contains(&self.nodes, id)
    }

    /// A document made of the given roots and nodes, to be built, with ids
    /// handed out after the largest one present.
    pub fn from_parts(roots: Vec<u64>, nodes: HashMap<u64, WidgetBlueprintNode>) -> (r: Self)
        ensures
            r@.roots == roots@,
            r@.nodes == nodes_view(node_table(nodes)),
            r@.next_id == sat_inc(max_id(node_table(nodes).dom())),
            r@.dirty,
            r@.pending_select is None,
    {
        let keys = node_table_keys(&nodes);
        let m = largest_id(&keys);
        proof {
            lemma_max_id_unique(node_table(nodes).dom(), m);
        }
        let next_id = m.saturating_add(1);
        WidgetBlueprintDocument { roots, nodes, next_id: IdCounter(next_id), dirty: true, pending_select: None }
    }
}

} // verus!
