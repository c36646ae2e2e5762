//! The asset form of a blueprint document: the nodes as a list, each with
//! its children, and the check that turns such a list back into a document.
use vstd::prelude::*;
use bevy::platform::collections::{HashMap, HashSet};
use crate::tables::{node_table, string_table, link_table, id_set, id_set_new, id_set_contains, id_set_insert, id_set_remove, node_table_new, node_table_contains, node_table_get,
    node_table_insert, node_table_remove, node_table_keys, string_table_clone, link_table_new, link_table_get,
    link_table_insert, link_table_keys};
use crate::document::{WidgetBlueprintDocument, WidgetBlueprintNode, NodeView, DocView, nodes_view, opt_str_view,
    lemma_nodes_view_insert, lemma_nodes_view_remove, copy_ids, max_id, sat_inc, descends, in_subtree,
    lemma_in_subtree_self, lemma_in_subtree_step};
use crate::style::WidgetStyle;

verus! {

/// The version of the asset format that this library reads and writes.
pub const VISTA_UI_ASSET_VERSION: u32 = 1;

/// A node of an asset.
pub struct VistaUiNodeAsset {
    pub id: u64,
    pub name: String,
    pub widget_path: String,
    pub style: WidgetStyle,
    pub props: HashMap<String, String>,
    pub slot: Option<String>,
    pub children: Vec<u64>,
}

/// A blueprint document as an asset: format version, roots, and the nodes in a list.
pub struct VistaUiAsset {
    pub version: u32,
    pub roots: Vec<u64>,
    pub nodes: Vec<VistaUiNodeAsset>,
}

/// An asset node as plain values.
pub struct AssetNodeView {
    pub id: u64,
    pub name: Seq<char>,
    pub widget_path: Seq<char>,
    pub style: Map<Seq<char>, Seq<char>>,
    pub props: Map<Seq<char>, Seq<char>>,
    pub slot: Option<Seq<char>>,
    pub children: Seq<u64>,
}

/// An asset as plain values.
pub struct AssetView {
    pub version: u32,
    pub roots: Seq<u64>,
    pub nodes: Seq<AssetNodeView>,
}

impl View for VistaUiNodeAsset {
    type V = AssetNodeView;

    open spec fn view(&self) -> AssetNodeView {
        AssetNodeView {
            id: self.id,
            name: self.name@,
            widget_path: self.widget_path@,
            style: self.style@,
            props: string_table(self.props),
            slot: opt_str_view(self.slot),
            children: self.children@,
        }
    }
}

impl View for VistaUiAsset {
    type V = AssetView;

    open spec fn view(&self) -> AssetView {
        AssetView {
            version: self.version,
            roots: self.roots@,
            nodes: asset_nodes(self.nodes@),
        }
    }
}

/// Why an asset could not be read, written or turned into a document.
#[derive(Clone, Debug)]
pub enum VistaUiAssetError {
    UnsupportedVersion(u32),
    DuplicateNodeId(u64),
    MissingNode(u64),
    MissingChild { parent: u64, child: u64 },
    InvalidParentLink { child: u64, expected_parent: Option<u64>, actual_parent: Option<u64> },
    CycleDetected(u64),
    RonDecode(String),
    RonEncode(String),
}

/// An asset error as plain values.
pub enum AssetErrorView {
    UnsupportedVersion(u32),
    DuplicateNodeId(u64),
    MissingNode(u64),
    MissingChild { parent: u64, child: u64 },
    InvalidParentLink { child: u64, expected_parent: Option<u64>, actual_parent: Option<u64> },
    CycleDetected(u64),
    RonDecode(Seq<char>),
    RonEncode(Seq<char>),
}

impl View for VistaUiAssetError {
    type V = AssetErrorView;

    open spec fn view(&self) -> AssetErrorView {
        match self {
            VistaUiAssetError::UnsupportedVersion(v) => AssetErrorView::UnsupportedVersion(*v),
            VistaUiAssetError::DuplicateNodeId(id) => AssetErrorView::DuplicateNodeId(*id),
            VistaUiAssetError::MissingNode(id) => AssetErrorView::MissingNode(*id),
            VistaUiAssetError::MissingChild { parent, child } => AssetErrorView::MissingChild { parent: *parent, child: *child },
            VistaUiAssetError::InvalidParentLink { child, expected_parent, actual_parent } => AssetErrorView::InvalidParentLink {
                child: *child,
                expected_parent: *expected_parent,
                actual_parent: *actual_parent,
            },
            VistaUiAssetError::CycleDetected(id) => AssetErrorView::CycleDetected(*id),
            VistaUiAssetError::RonDecode(s) => AssetErrorView::RonDecode(s@),
            VistaUiAssetError::RonEncode(s) => AssetErrorView::RonEncode(s@),
        }
    }
}

// ---------------------------------------------------------------------------
// What reading an asset back checks, in order
// ---------------------------------------------------------------------------

pub open spec fn node_ids(nodes: Seq<AssetNodeView>) -> Seq<u64> {
    nodes.map_values(|n: AssetNodeView| n.id)
}

/// The first id, among the first `n`, that an earlier one repeats.
pub open spec fn first_repeat(ids: Seq<u64>, n: nat) -> Option<u64>
    decreases n,
{
    if n == 0 || n > ids.len() {
        None
    } else {
        match first_repeat(ids, (n - 1) as nat) {
            Some(x) => Some(x),
            None => if ids.take(n - 1).contains(ids[n - 1]) { Some(ids[n - 1]) } else { None },
        }
    }
}

/// The first root, among the first `n`, that is not a node.
pub open spec fn first_absent(roots: Seq<u64>, ids: Set<u64>, n: nat) -> Option<u64>
    decreases n,
{
    if n == 0 || n > roots.len() {
        None
    } else {
        match first_absent(roots, ids, (n - 1) as nat) {
            Some(x) => Some(x),
            None => if !ids.contains(roots[n - 1]) { Some(roots[n - 1]) } else { None },
        }
    }
}

/// Every node starts without a parent.
pub open spec fn no_links(ids: Set<u64>) -> Map<u64, Option<u64>> {
    Map::new(|k: u64| ids.contains(k), |k: u64| None::<u64>)
}

/// Records `p` as the parent of its first `n` children, refusing a child
/// that is not a node or that has a parent already.
pub open spec fn link_children(m: Map<u64, Option<u64>>, p: u64, kids: Seq<u64>, ids: Set<u64>, n: nat) -> Result<Map<u64, Option<u64>>, AssetErrorView>
    decreases n,
{
    if n == 0 || n > kids.len() {
        Ok(m)
    } else {
        match link_children(m, p, kids, ids, (n - 1) as nat) {
            Err(e) => Err(e),
            Ok(m1) => {
                let c = kids[n - 1];
                if !ids.contains(c) {
                    Err(AssetErrorView::MissingChild { parent: p, child: c })
                } else if m1[c] is Some {
                    Err(AssetErrorView::InvalidParentLink { child: c, expected_parent: Some(p), actual_parent: m1[c] })
                } else {
                    Ok(m1.insert(c, Some(p)))
                }
            },
        }
    }
}

/// The parent of each node, from the child lists of the first `n` nodes.
pub open spec fn link_nodes(nodes: Seq<AssetNodeView>, ids: Set<u64>, n: nat) -> Result<Map<u64, Option<u64>>, AssetErrorView>
    decreases n,
{
    if n == 0 || n > nodes.len() {
        Ok(no_links(ids))
    } else {
        match link_nodes(nodes, ids, (n - 1) as nat) {
            Err(e) => Err(e),
            Ok(m) => link_children(m, nodes[n - 1].id, nodes[n - 1].children, ids, nodes[n - 1].children.len()),
        }
    }
}

/// The first root, among the first `n`, that has a parent.
pub open spec fn first_parented_root(roots: Seq<u64>, links: Map<u64, Option<u64>>, n: nat) -> Option<u64>
    decreases n,
{
    if n == 0 || n > roots.len() {
        None
    } else {
        match first_parented_root(roots, links, (n - 1) as nat) {
            Some(x) => Some(x),
            None => if links[roots[n - 1]] is Some { Some(roots[n - 1]) } else { None },
        }
    }
}

/// Where the node with id `k` stands in the list.
pub open spec fn index_of_id(nodes: Seq<AssetNodeView>, k: u64) -> int {
    choose|i: int| 0 <= i < nodes.len() && nodes[i].id == k
}

pub open spec fn node_from_asset(n: AssetNodeView, parent: Option<u64>) -> NodeView {
    NodeView {
        id: n.id,
        name: n.name,
        widget_path: n.widget_path,
        style: n.style,
        props: n.props,
        parent,
        slot: n.slot,
        children: n.children,
    }
}

/// The nodes of the document that an asset reads back as.
pub open spec fn nodes_from_asset(nodes: Seq<AssetNodeView>, links: Map<u64, Option<u64>>) -> Map<u64, NodeView> {
    Map::new(
        |k: u64| node_ids(nodes).contains(k),
        |k: u64| node_from_asset(nodes[index_of_id(nodes, k)], links[k]),
    )
}

/// What reading an asset back gives: the document, or the first problem
/// found, checking the version, then repeated ids, then roots that are no
/// node, then child lists, then roots that have a parent.
pub open spec fn spec_to_document(a: AssetView) -> Result<DocView, AssetErrorView> {
    let ids = node_ids(a.nodes);
    if a.version != VISTA_UI_ASSET_VERSION {
        Err(AssetErrorView::UnsupportedVersion(a.version))
    } else if first_repeat(ids, ids.len()) is Some {
        Err(AssetErrorView::DuplicateNodeId(first_repeat(ids, ids.len())->0))
    } else if first_absent(a.roots, ids.to_set(), a.roots.len()) is Some {
        Err(AssetErrorView::MissingNode(first_absent(a.roots, ids.to_set(), a.roots.len())->0))
    } else {
        match link_nodes(a.nodes, ids.to_set(), a.nodes.len()) {
            Err(e) => Err(e),
            Ok(links) => if first_parented_root(a.roots, links, a.roots.len()) is Some {
                let r = first_parented_root(a.roots, links, a.roots.len())->0;
                Err(AssetErrorView::InvalidParentLink { child: r, expected_parent: None, actual_parent: links[r] })
            } else {
                let nodes = nodes_from_asset(a.nodes, links);
                Ok(DocView {
                    roots: a.roots,
                    nodes,
                    next_id: sat_inc(max_id(ids.to_set())),
                    dirty: true,
                    pending_select: None,
                })
            },
        }
    }
}

pub open spec fn asset_result_view(r: Result<WidgetBlueprintDocument, VistaUiAssetError>) -> Result<DocView, AssetErrorView> {
    match r {
        Ok(d) => Ok(d@),
        Err(e) => Err(e@),
    }
}

// ---------------------------------------------------------------------------
// Once a check fails, it reports the same failure however far it goes on
// ---------------------------------------------------------------------------

proof fn lemma_first_repeat_sticky(ids: Seq<u64>, n: nat, m: nat)
    requires
        n <= m <= ids.len(),
        first_repeat(ids, n) is Some,
    ensures
        first_repeat(ids, m) == first_repeat(ids, n),
    decreases m - n,
{
    if m > n {
        lemma_first_repeat_sticky(ids, n, (m - 1) as nat);
    }
}

proof fn lemma_first_absent_sticky(roots: Seq<u64>, ids: Set<u64>, n: nat, m: nat)
    requires
        n <= m <= roots.len(),
        first_absent(roots, ids, n) is Some,
    ensures
        first_absent(roots, ids, m) == first_absent(roots, ids, n),
    decreases m - n,
{
    if m > n {
        lemma_first_absent_sticky(roots, ids, n, (m - 1) as nat);
    }
}

proof fn lemma_first_parented_root_sticky(roots: Seq<u64>, links: Map<u64, Option<u64>>, n: nat, m: nat)
    requires
        n <= m <= roots.len(),
        first_parented_root(roots, links, n) is Some,
    ensures
        first_parented_root(roots, links, m) == first_parented_root(roots, links, n),
    decreases m - n,
{
    if m > n {
        lemma_first_parented_root_sticky(roots, links, n, (m - 1) as nat);
    }
}

proof fn lemma_link_children_sticky(mm: Map<u64, Option<u64>>, p: u64, kids: Seq<u64>, ids: Set<u64>, n: nat, m: nat)
    requires
        n <= m <= kids.len(),
        link_children(mm, p, kids, ids, n) is Err,
    ensures
        link_children(mm, p, kids, ids, m) == link_children(mm, p, kids, ids, n),
    decreases m - n,
{
    if m > n {
        lemma_link_children_sticky(mm, p, kids, ids, n, (m - 1) as nat);
    }
}

proof fn lemma_link_nodes_sticky(nodes: Seq<AssetNodeView>, ids: Set<u64>, n: nat, m: nat)
    requires
        n <= m <= nodes.len(),
        link_nodes(nodes, ids, n) is Err,
    ensures
        link_nodes(nodes, ids, m) == link_nodes(nodes, ids, n),
    decreases m - n,
{
    if m > n {
        lemma_link_nodes_sticky(nodes, ids, n, (m - 1) as nat);
    }
}

// ---------------------------------------------------------------------------
// Reading an asset back
// ---------------------------------------------------------------------------

fn clone_slot(s: &Option<String>) -> (r: Option<String>)
    ensures
        opt_str_view(r) == opt_str_view(*s),
{
    match s {
        Some(x) => Some(x.clone()),
        None => None,
    }
}

/// The document node made from an asset node, with no parent yet.
fn node_of_asset(n: &VistaUiNodeAsset) -> (r: WidgetBlueprintNode)
    ensures
        r@ == node_from_asset(n@, None),
{
    let r = WidgetBlueprintNode {
        id: n.id,
        name: n.name.clone(),
        widget_path: n.widget_path.clone(),
        style: n.style.clone(),
        props: string_table_clone(&n.props),
        parent: None,
        slot: clone_slot(&n.slot),
        children: copy_ids(&n.children),
    };
    assert(r@ =~= node_from_asset(n@, None));
    r
}

pub open spec fn asset_nodes(nodes: Seq<VistaUiNodeAsset>) -> Seq<AssetNodeView> {
    nodes.map_values(|n: VistaUiNodeAsset| n@)
}

/// The node table of the asset's nodes, all without parent, and a parent
/// link for each, empty; or the first repeated id.
fn build_node_table(nodes: &Vec<VistaUiNodeAsset>) -> (r: Result<(HashMap<u64, WidgetBlueprintNode>, HashMap<u64, Option<u64>>), VistaUiAssetError>)
    ensures
        ({
            let an = asset_nodes(nodes@);
            let ids = node_ids(an);
            &&& r is Err <==> first_repeat(ids, ids.len()) is Some
            &&& r matches Err(e) ==> e@ == AssetErrorView::DuplicateNodeId(first_repeat(ids, ids.len())->0)
            &&& r matches Ok(p) ==> {
                &&& ids.no_duplicates()
                &&& nodes_view(node_table(p.0)) == nodes_from_asset(an, no_links(ids.to_set()))
                &&& link_table(p.1) == no_links(ids.to_set())
            }
        }),
{
    let ghost an = asset_nodes(nodes@);
    let ghost ids = node_ids(an);
    let mut table = node_table_new();
    let mut links = link_table_new();
    let mut i: usize = 0;
    while i < nodes.len()
        invariant
            an == asset_nodes(nodes@),
            ids == node_ids(an),
            0 <= i <= nodes@.len(),
            first_repeat(ids, i as nat) is None,
            ids.take(i as int).no_duplicates(),
            node_table(table).dom() == ids.take(i as int).to_set(),
            forall|j: int| 0 <= j < i ==> #[trigger] nodes_view(node_table(table))[ids[j]] == node_from_asset(an[j], None),
            link_table(links) == no_links(ids.take(i as int).to_set()),
        decreases nodes@.len() - i,
    {
        let id = nodes[i].id;
        assert(an[i as int] == nodes@[i as int]@);
        if node_table_contains(&table, id) {
            proof {
                assert(ids.take(i as int).to_set().contains(id));
                assert(first_repeat(ids, (i + 1) as nat) == Some(id));
                lemma_first_repeat_sticky(ids, (i + 1) as nat, ids.len());
            }
            return Err(VistaUiAssetError::DuplicateNodeId(id));
        }
        let ghost t0 = node_table(table);
        let n = node_of_asset(&nodes[i]);
        node_table_insert(&mut table, id, n);
        link_table_insert(&mut links, id, None);
        proof {
            lemma_nodes_view_insert(t0, id, n);
            assert(!ids.take(i as int).contains(id));
            assert(ids.take(i + 1) =~= ids.take(i as int).push(id));
            ids.take(i as int).lemma_push_to_set_commute(id);
            assert(node_table(table).dom() =~= ids.take(i + 1).to_set());
            assert(link_table(links) =~= no_links(ids.take(i + 1).to_set()));
            let t1 = ids.take(i + 1);
            assert forall|a: int, b: int| 0 <= a < i + 1 && 0 <= b < i + 1 && a != b implies #[trigger] t1[a] != #[trigger] t1[b] by {
                if a < i && b < i {
                    assert(ids.take(i as int)[a] != ids.take(i as int)[b]);
                } else if a < i {
                    assert(ids.take(i as int).contains(ids.take(i as int)[a]));
                } else if b < i {
                    assert(ids.take(i as int).contains(ids.take(i as int)[b]));
                }
            }
            assert forall|j: int| 0 <= j < i + 1 implies #[trigger] nodes_view(node_table(table))[ids[j]] == node_from_asset(an[j], None) by {
                if j < i {
                    assert(ids.take(i as int)[j] == ids[j]);
                    assert(ids.take(i as int).contains(ids[j]));
                    assert(ids[j] != id);
                }
            }
        }
        i = i + 1;
    }
    proof {
        assert(ids.take(ids.len() as int) =~= ids);
        let want = nodes_from_asset(an, no_links(ids.to_set()));
        assert(ids.no_duplicates());
        assert forall|k: u64| #[trigger] want.contains_key(k) implies nodes_view(node_table(table))[k] == want[k] by {
            assert(ids.contains(k));
            let q = choose|q: int| 0 <= q < ids.len() && ids[q] == k;
            assert(an[q].id == k);
            let j = index_of_id(an, k);
            assert(ids[j] == k);
            assert(j == q);
            assert(nodes_view(node_table(table))[ids[q]] == node_from_asset(an[q], None));
        }
        assert(nodes_view(node_table(table)).dom() =~= want.dom());
        assert(nodes_view(node_table(table)) =~= want);
    }
    Ok((table, links))
}

/// The first root that is not a node, if any.
fn check_roots_present(roots: &Vec<u64>, table: &HashMap<u64, WidgetBlueprintNode>) -> (r: Result<(), VistaUiAssetError>)
    ensures
        r is Err <==> first_absent(roots@, node_table(*table).dom(), roots@.len()) is Some,
        r matches Err(e) ==> e@ == AssetErrorView::MissingNode(first_absent(roots@, node_table(*table).dom(), roots@.len())->0),
{
    let ghost ids = node_table(*table).dom();
    let mut i: usize = 0;
    while i < roots.len()
        invariant
            ids == node_table(*table).dom(),
            0 <= i <= roots@.len(),
            first_absent(roots@, ids, i as nat) is None,
        decreases roots@.len() - i,
    {
        if !node_table_contains(table, roots[i]) {
            proof {
                lemma_first_absent_sticky(roots@, ids, (i + 1) as nat, roots@.len());
            }
            return Err(VistaUiAssetError::MissingNode(roots[i]));
        }
        i = i + 1;
    }
    Ok(())
}

/// Records each node as the parent of its children, refusing a child that
/// is not a node or that has a parent already.
fn link_parents(nodes: &Vec<VistaUiNodeAsset>, table: &HashMap<u64, WidgetBlueprintNode>, links: &mut HashMap<u64, Option<u64>>) -> (r: Result<(), VistaUiAssetError>)
    requires
        link_table(*old(links)) == no_links(node_table(*table).dom()),
    ensures
        ({
            let res = link_nodes(asset_nodes(nodes@), node_table(*table).dom(), nodes@.len());
            &&& r is Err <==> res is Err
            &&& r matches Err(e) ==> res == Err::<Map<u64, Option<u64>>, AssetErrorView>(e@)
            &&& r is Ok ==> res == Ok::<Map<u64, Option<u64>>, AssetErrorView>(link_table(*final(links)))
        }),
{
    let ghost an = asset_nodes(nodes@);
    let ghost ids = node_table(*table).dom();
    let mut i: usize = 0;
    while i < nodes.len()
        invariant
            an == asset_nodes(nodes@),
            ids == node_table(*table).dom(),
            0 <= i <= nodes@.len(),
            link_nodes(an, ids, i as nat) == Ok::<Map<u64, Option<u64>>, AssetErrorView>(link_table(*links)),
        decreases nodes@.len() - i,
    {
        let p = nodes[i].id;
        let kids = &nodes[i].children;
        let ghost m0 = link_table(*links);
        assert(an[i as int] == nodes@[i as int]@);
        let mut j: usize = 0;
        while j < kids.len()
            invariant
                an == asset_nodes(nodes@),
                ids == node_table(*table).dom(),
                0 <= i < nodes@.len(),
                an[i as int].id == p,
                an[i as int].children == kids@,
                0 <= j <= kids@.len(),
                link_nodes(an, ids, i as nat) == Ok::<Map<u64, Option<u64>>, AssetErrorView>(m0),
                link_children(m0, p, kids@, ids, j as nat) == Ok::<Map<u64, Option<u64>>, AssetErrorView>(link_table(*links)),
            decreases kids@.len() - j,
        {
            let c = kids[j];
            if !node_table_contains(table, c) {
                proof {
                    lemma_link_children_sticky(m0, p, kids@, ids, (j + 1) as nat, kids@.len());
                    lemma_link_nodes_sticky(an, ids, (i + 1) as nat, an.len());
                }
                return Err(VistaUiAssetError::MissingChild { parent: p, child: c });
            }
            match link_table_get(links, c) {
                Some(Some(actual)) => {
                    proof {
                        lemma_link_children_sticky(m0, p, kids@, ids, (j + 1) as nat, kids@.len());
                        lemma_link_nodes_sticky(an, ids, (i + 1) as nat, an.len());
                    }
                    return Err(VistaUiAssetError::InvalidParentLink { child: c, expected_parent: Some(p), actual_parent: Some(actual) });
                },
                _ => {},
            }
            proof {
                assert(link_table(*links).contains_key(c)) by {
                    lemma_link_nodes_dom(an, ids, i as nat);
                    lemma_link_children_dom(m0, p, kids@, ids, j as nat);
                }
            }
            link_table_insert(links, c, Some(p));
            j = j + 1;
        }
        i = i + 1;
    }
    Ok(())
}

proof fn lemma_link_children_dom(mm: Map<u64, Option<u64>>, p: u64, kids: Seq<u64>, ids: Set<u64>, n: nat)
    requires
        link_children(mm, p, kids, ids, n) is Ok,
        mm.dom() == ids,
    ensures
        link_children(mm, p, kids, ids, n)->Ok_0.dom() == ids,
    decreases n,
{
    if n == 0 || n > kids.len() {
    } else {
        lemma_link_children_dom(mm, p, kids, ids, (n - 1) as nat);
        let m1 = link_children(mm, p, kids, ids, (n - 1) as nat)->Ok_0;
        let c = kids[n - 1];
        assert(m1.insert(c, Some(p)).dom() =~= ids);
    }
}

proof fn lemma_link_nodes_dom(nodes: Seq<AssetNodeView>, ids: Set<u64>, n: nat)
    requires
        link_nodes(nodes, ids, n) is Ok,
    ensures
        link_nodes(nodes, ids, n)->Ok_0.dom() == ids,
    decreases n,
{
    if n == 0 || n > nodes.len() {
        assert(no_links(ids).dom() =~= ids);
    } else {
        lemma_link_nodes_dom(nodes, ids, (n - 1) as nat);
        let m = link_nodes(nodes, ids, (n - 1) as nat)->Ok_0;
        assert(m.dom() == ids);
        lemma_link_children_dom(m, nodes[n - 1].id, nodes[n - 1].children, ids, nodes[n - 1].children.len());
    }
}

/// The first root that has a parent, if any.
fn check_root_links(roots: &Vec<u64>, links: &HashMap<u64, Option<u64>>) -> (r: Result<(), VistaUiAssetError>)
    requires
        forall|i: int| 0 <= i < roots@.len() ==> link_table(*links).contains_key(#[trigger] roots@[i]),
    ensures
        r is Err <==> first_parented_root(roots@, link_table(*links), roots@.len()) is Some,
        r matches Err(e) ==> e@ == ({
            let x = first_parented_root(roots@, link_table(*links), roots@.len())->0;
            AssetErrorView::InvalidParentLink { child: x, expected_parent: None, actual_parent: link_table(*links)[x] }
        }),
{
    let ghost lt = link_table(*links);
    let mut i: usize = 0;
    while i < roots.len()
        invariant
            lt == link_table(*links),
            forall|q: int| 0 <= q < roots@.len() ==> lt.contains_key(#[trigger] roots@[q]),
            0 <= i <= roots@.len(),
            first_parented_root(roots@, lt, i as nat) is None,
        decreases roots@.len() - i,
    {
        let root = roots[i];
        assert(lt.contains_key(roots@[i as int]));
        match link_table_get(links, root) {
            Some(Some(actual)) => {
                proof {
                    lemma_first_parented_root_sticky(roots@, lt, (i + 1) as nat, roots@.len());
                }
                return Err(VistaUiAssetError::InvalidParentLink { child: root, expected_parent: None, actual_parent: Some(actual) });
            },
            _ => {},
        }
        i = i + 1;
    }
    Ok(())
}

/// Gives every node the parent its link names.
fn apply_parent_links(table: &mut HashMap<u64, WidgetBlueprintNode>, links: &HashMap<u64, Option<u64>>) -> (r: Result<(), VistaUiAssetError>)
    requires
        node_table(*old(table)).dom() == link_table(*links).dom(),
    ensures
        r is Ok,
        nodes_view(node_table(*final(table))) == Map::new(
            |k: u64| node_table(*old(table)).contains_key(k),
            |k: u64| NodeView { parent: link_table(*links)[k], ..nodes_view(node_table(*old(table)))[k] },
        ),
{
    let ghost t0 = nodes_view(node_table(*table));
    let ghost lt = link_table(*links);
    let keys = link_table_keys(links);
    let mut i: usize = 0;
    while i < keys.len()
        invariant
            lt == link_table(*links),
            keys@.no_duplicates(),
            keys@.to_set() == lt.dom(),
            t0.dom() == lt.dom(),
            0 <= i <= keys@.len(),
            nodes_view(node_table(*table)) == Map::new(
                |k: u64| t0.contains_key(k),
                |k: u64| if keys@.take(i as int).contains(k) { NodeView { parent: lt[k], ..t0[k] } } else { t0[k] },
            ),
        decreases keys@.len() - i,
    {
        let k = keys[i];
        let ghost t1 = node_table(*table);
        let parent = match link_table_get(links, k) {
            Some(p) => p,
            None => {
                proof {
                    assert(keys@.to_set().contains(k)) by {
                        assert(keys@.contains(k));
                    }
                }
                return Err(VistaUiAssetError::MissingNode(k));
            },
        };
        match node_table_remove(table, k) {
            None => {
                proof {
                    assert(keys@.to_set().contains(k)) by {
                        assert(keys@.contains(k));
                    }
                    assert(nodes_view(t1).contains_key(k));
                }
                return Err(VistaUiAssetError::MissingNode(k));
            },
            Some(mut n) => {
                let ghost before = n@;
                n.parent = parent;
                node_table_insert(table, k, n);
                proof {
                    assert(node_table(*table) =~= t1.insert(k, n));
                    lemma_nodes_view_insert(t1, k, n);
                    let pre = keys@.take(i as int);
                    let post = keys@.take(i + 1);
                    assert(post =~= pre.push(k));
                    assert(!pre.contains(k)) by {
                        if pre.contains(k) {
                            let q = choose|q: int| 0 <= q < i && pre[q] == k;
                            assert(keys@[q] == keys@[i as int]);
                        }
                    }
                    assert(keys@.to_set().contains(k)) by {
                        assert(keys@.contains(k));
                    }
                    assert(t0.contains_key(k));
                    assert(t1.contains_key(k));
                    assert(nodes_view(t1)[k] == t1[k]@);
                    assert(before == t0[k]);
                    let tv = nodes_view(node_table(*table));
                    let want = Map::new(
                        |kk: u64| t0.contains_key(kk),
                        |kk: u64| if post.contains(kk) { NodeView { parent: lt[kk], ..t0[kk] } } else { t0[kk] },
                    );
                    assert(tv.dom() =~= want.dom());
                    assert forall|kk: u64| #[trigger] want.contains_key(kk) implies tv[kk] == want[kk] by {
                        if kk != k {
                            if post.contains(kk) {
                                let q = choose|q: int| 0 <= q < post.len() && post[q] == kk;
                                assert(pre[q] == kk);
                            }
                            if pre.contains(kk) {
                                let q = choose|q: int| 0 <= q < pre.len() && pre[q] == kk;
                                assert(post[q] == kk);
                            }
                        } else {
                            assert(post[i as int] == k);
                        }
                    }
                    assert(tv =~= want);
                }
            },
        }
        i = i + 1;
    }
    proof {
        assert(keys@.take(keys@.len() as int) =~= keys@);
        assert forall|k: u64| t0.contains_key(k) implies keys@.contains(k) by {
            assert(keys@.to_set().contains(k));
        }
        assert(nodes_view(node_table(*table)) =~= Map::new(
            |k: u64| node_table(*old(table)).contains_key(k),
            |k: u64| NodeView { parent: link_table(*links)[k], ..nodes_view(node_table(*old(table)))[k] },
        ));
    }
    Ok(())
}

/// Nodes whose child links and parent links agree, seen as a tree from its roots.
pub open spec fn links_agree(t: Map<u64, NodeView>) -> bool {
    forall|k: u64, i: int| #[trigger] t.contains_key(k) && 0 <= i < t[k].children.len() ==> {
        &&& t.contains_key(#[trigger] t[k].children[i])
        &&& t[t[k].children[i]].parent == Some(k)
    }
}

/// A path down from a root: each step goes to a child of the one before.
pub open spec fn is_root_path(t: Map<u64, NodeView>, path: Seq<u64>) -> bool {
    &&& path.no_duplicates()
    &&& forall|i: int| 0 <= i < path.len() ==> t.contains_key(#[trigger] path[i])
    &&& path.len() > 0 ==> t[path[0]].parent is None
    &&& forall|i: int| 0 < i < path.len() ==> t[#[trigger] path[i]].parent == Some(path[i - 1])
}

/// `x` may come next on `path`.
pub open spec fn extends_path(t: Map<u64, NodeView>, path: Seq<u64>, x: u64) -> bool {
    &&& t.contains_key(x)
    &&& !path.contains(x)
    &&& if path.len() == 0 { t[x].parent is None } else { t[x].parent == Some(path.last()) }
}

proof fn lemma_path_fits(t: Map<u64, NodeView>, path: Seq<u64>, x: u64)
    requires
        t.dom().finite(),
        is_root_path(t, path),
        extends_path(t, path, x),
    ensures
        path.len() < t.dom().len(),
        is_root_path(t, path.push(x)),
{
    let p2 = path.push(x);
    assert forall|a: int, b: int| 0 <= a < p2.len() && 0 <= b < p2.len() && a != b implies #[trigger] p2[a] != #[trigger] p2[b] by {
        if a < path.len() && b < path.len() {
        } else if a < path.len() {
            assert(path.contains(path[a]));
        } else if b < path.len() {
            assert(path.contains(path[b]));
        }
    }
    p2.unique_seq_to_set();
    assert(p2.to_set().subset_of(t.dom()));
    vstd::set_lib::lemma_len_subset(p2.to_set(), t.dom());
}

proof fn lemma_child_extends(t: Map<u64, NodeView>, path: Seq<u64>, x: u64, c: u64)
    requires
        links_agree(t),
        is_root_path(t, path),
        extends_path(t, path, x),
        t[x].children.contains(c),
    ensures
        extends_path(t, path.push(x), c),
{
    let q = choose|q: int| 0 <= q < t[x].children.len() && t[x].children[q] == c;
    assert(t.contains_key(t[x].children[q]));
    let p2 = path.push(x);
    if p2.contains(c) {
        let i = choose|i: int| 0 <= i < p2.len() && p2[i] == c;
        if i == path.len() {
            if path.len() > 0 {
                assert(path.contains(path.last()));
            }
        } else if i == 0 {
        } else {
            assert(t[path[i]].parent == Some(path[i - 1]));
            assert(path.contains(path[i - 1]));
        }
    }
}

/// Every child of a node of `s` is in `s` too.
pub open spec fn closed_under_children(t: Map<u64, NodeView>, s: Set<u64>) -> bool {
    forall|x: u64, i: int| #[trigger] s.contains(x) && t.contains_key(x) && 0 <= i < t[x].children.len() ==> s.contains(#[trigger] t[x].children[i])
}

/// Below a child that names `x` as its parent is below `x`.
proof fn lemma_below_listed_child(t: Map<u64, NodeView>, y: u64, c: u64, x: u64, f: nat)
    requires
        descends(t, y, c, f),
        t.contains_key(c),
        t[c].parent == Some(x),
    ensures
        in_subtree(t, y, x),
    decreases f,
{
    lemma_in_subtree_self(t, x);
    if y == x {
    } else if y == c {
        lemma_in_subtree_step(t, c, x);
    } else {
        let q = t[y].parent->0;
        lemma_below_listed_child(t, q, c, x, (f - 1) as nat);
        lemma_in_subtree_step(t, y, x);
    }
}

/// Looks for a cycle below `node_id`, as a depth-first walk that marks the
/// nodes on its path and the nodes it has finished. No cycle can be met
/// there, so it finds none; it marks `node_id` finished, keeps what was
/// finished before, marks nothing that is not below `node_id`, and, when
/// the finished nodes had all their children finished, so do they after.
fn visit(node_id: u64, nodes: &HashMap<u64, WidgetBlueprintNode>, visiting: &mut HashSet<u64>, visited: &mut HashSet<u64>, Ghost(path): Ghost<Seq<u64>>) -> (r: Result<(), VistaUiAssetError>)
    requires
        nodes_view(node_table(*nodes)).dom().finite(),
        links_agree(nodes_view(node_table(*nodes))),
        is_root_path(nodes_view(node_table(*nodes)), path),
        extends_path(nodes_view(node_table(*nodes)), path, node_id),
        id_set(*old(visiting)) == path.to_set(),
    ensures
        r is Ok,
        id_set(*final(visiting)) == path.to_set(),
        id_set(*final(visited)).contains(node_id),
        id_set(*old(visited)).subset_of(id_set(*final(visited))),
        forall|y: u64| #[trigger] id_set(*final(visited)).contains(y) ==>
            id_set(*old(visited)).contains(y) || in_subtree(nodes_view(node_table(*nodes)), y, node_id),
        closed_under_children(nodes_view(node_table(*nodes)), id_set(*old(visited)))
            ==> closed_under_children(nodes_view(node_table(*nodes)), id_set(*final(visited))),
    decreases nodes_view(node_table(*nodes)).dom().len() - path.len(),
{
    let ghost t = nodes_view(node_table(*nodes));
    proof {
        lemma_path_fits(t, path, node_id);
    }
    if id_set_contains(visited, node_id) {
        return Ok(());
    }
    if !id_set_insert(visiting, node_id) {
        return Err(VistaUiAssetError::CycleDetected(node_id));
    }
    let node = match node_table_get(nodes, node_id) {
        Some(n) => n,
        None => {
            return Err(VistaUiAssetError::MissingNode(node_id));
        },
    };
    let ghost p2 = path.push(node_id);
    let ghost v0 = id_set(*visited);
    proof {
        path.lemma_push_to_set_commute(node_id);
        lemma_in_subtree_self(t, node_id);
    }
    let mut i: usize = 0;
    while i < node.children.len()
        invariant
            t == nodes_view(node_table(*nodes)),
            t.dom().finite(),
            links_agree(t),
            is_root_path(t, p2),
            p2 == path.push(node_id),
            path.len() < t.dom().len(),
            t.contains_key(node_id),
            t[node_id].children == node.children@,
            extends_path(t, path, node_id),
            is_root_path(t, path),
            id_set(*visiting) == p2.to_set(),
            0 <= i <= node.children@.len(),
            v0.subset_of(id_set(*visited)),
            forall|y: u64| #[trigger] id_set(*visited).contains(y) ==> v0.contains(y) || in_subtree(t, y, node_id),
            closed_under_children(t, v0) ==> closed_under_children(t, id_set(*visited)),
            closed_under_children(t, v0) ==> forall|j: int| 0 <= j < i ==> id_set(*visited).contains(#[trigger] node.children@[j]),
        decreases node.children@.len() - i,
    {
        let child = node.children[i];
        let ghost before = id_set(*visited);
        proof {
            assert(t[node_id].children.contains(child));
            lemma_child_extends(t, path, node_id, child);
            assert(t.contains_key(t[node_id].children[i as int]));
        }
        let res = visit(child, nodes, visiting, visited, Ghost(p2));
        if res.is_err() {
            return res;
        }
        proof {
            assert forall|y: u64| #[trigger] id_set(*visited).contains(y) implies v0.contains(y) || in_subtree(t, y, node_id) by {
                if !before.contains(y) {
                    assert(in_subtree(t, y, child));
                    let f = choose|f: nat| descends(t, y, child, f);
                    lemma_below_listed_child(t, y, child, node_id, f);
                }
            }
        }
        i = i + 1;
    }
    id_set_remove(visiting, node_id);
    let ghost before_last = id_set(*visited);
    id_set_insert(visited, node_id);
    proof {
        assert(!path.contains(node_id));
        assert(id_set(*visiting) =~= path.to_set());
        let fin = id_set(*visited);
        if closed_under_children(t, v0) {
            assert forall|x: u64, j: int| #[trigger] fin.contains(x) && t.contains_key(x) && 0 <= j < t[x].children.len()
                implies fin.contains(#[trigger] t[x].children[j]) by {
                if x == node_id {
                    assert(before_last.contains(node.children@[j]));
                } else {
                    assert(before_last.contains(x));
                    assert(before_last.contains(t[x].children[j]));
                }
            }
        }
    }
    Ok(())
}

/// Looks for a cycle below the roots of the asset.
fn validate_asset_acyclic(roots: &Vec<u64>, nodes: &HashMap<u64, WidgetBlueprintNode>) -> (r: Result<(), VistaUiAssetError>)
    requires
        nodes_view(node_table(*nodes)).dom().finite(),
        links_agree(nodes_view(node_table(*nodes))),
        forall|i: int| 0 <= i < roots@.len() ==> {
            &&& nodes_view(node_table(*nodes)).contains_key(#[trigger] roots@[i])
            &&& nodes_view(node_table(*nodes))[roots@[i]].parent is None
        },
    ensures
        r is Ok,
{
    let ghost t = nodes_view(node_table(*nodes));
    let mut visiting = id_set_new();
    let mut visited = id_set_new();
    let mut i: usize = 0;
    while i < roots.len()
        invariant
            t == nodes_view(node_table(*nodes)),
            t.dom().finite(),
            links_agree(t),
            forall|q: int| 0 <= q < roots@.len() ==> {
                &&& t.contains_key(#[trigger] roots@[q])
                &&& t[roots@[q]].parent is None
            },
            id_set(visiting) == Seq::<u64>::empty().to_set(),
            0 <= i <= roots@.len(),
        decreases roots@.len() - i,
    {
        let root = roots[i];
        proof {
            assert(t.contains_key(roots@[i as int]));
            assert(Seq::<u64>::empty().to_set() =~= Set::<u64>::empty());
        }
        let res = visit(root, nodes, &mut visiting, &mut visited, Ghost(Seq::empty()));
        if res.is_err() {
            return res;
        }
        i = i + 1;
    }
    Ok(())
}

proof fn lemma_first_absent_none(roots: Seq<u64>, ids: Set<u64>, n: nat)
    requires
        n <= roots.len(),
        first_absent(roots, ids, n) is None,
    ensures
        forall|i: int| 0 <= i < n ==> ids.contains(#[trigger] roots[i]),
    decreases n,
{
    if n > 0 {
        lemma_first_absent_none(roots, ids, (n - 1) as nat);
    }
}

proof fn lemma_first_parented_root_none(roots: Seq<u64>, links: Map<u64, Option<u64>>, n: nat)
    requires
        n <= roots.len(),
        first_parented_root(roots, links, n) is None,
    ensures
        forall|i: int| 0 <= i < n ==> links[#[trigger] roots[i]] is None,
    decreases n,
{
    if n > 0 {
        lemma_first_parented_root_none(roots, links, (n - 1) as nat);
    }
}

/// Linking one child list keeps every parent already set, and sets `p` as
/// the parent of each child it went through.
proof fn lemma_link_children_facts(mm: Map<u64, Option<u64>>, p: u64, kids: Seq<u64>, ids: Set<u64>, n: nat)
    requires
        mm.dom() == ids,
        n <= kids.len(),
        link_children(mm, p, kids, ids, n) is Ok,
    ensures
        forall|c: u64| ids.contains(c) && mm[c] is Some ==> #[trigger] link_children(mm, p, kids, ids, n)->Ok_0[c] == mm[c],
        forall|j: int| 0 <= j < n ==> ids.contains(#[trigger] kids[j]) && link_children(mm, p, kids, ids, n)->Ok_0[kids[j]] == Some(p),
    decreases n,
{
    if n > 0 {
        lemma_link_children_facts(mm, p, kids, ids, (n - 1) as nat);
        lemma_link_children_dom(mm, p, kids, ids, (n - 1) as nat);
        let m1 = link_children(mm, p, kids, ids, (n - 1) as nat)->Ok_0;
        let c = kids[n - 1];
        let r = link_children(mm, p, kids, ids, n)->Ok_0;
        assert(r == m1.insert(c, Some(p)));
        assert forall|c2: u64| ids.contains(c2) && mm[c2] is Some implies #[trigger] r[c2] == mm[c2] by {
            assert(m1[c2] == mm[c2]);
        }
        assert forall|j: int| 0 <= j < n implies ids.contains(#[trigger] kids[j]) && r[kids[j]] == Some(p) by {
            if j < n - 1 {
                assert(m1[kids[j]] == Some(p));
            }
        }
    }
}

/// After linking the child lists of the first `n` nodes, each child names
/// its node as parent.
proof fn lemma_link_nodes_facts(nodes: Seq<AssetNodeView>, ids: Set<u64>, n: nat)
    requires
        n <= nodes.len(),
        link_nodes(nodes, ids, n) is Ok,
    ensures
        forall|i: int, j: int| #![trigger nodes[i].children[j]] 0 <= i < n && 0 <= j < nodes[i].children.len() ==> {
            &&& ids.contains(nodes[i].children[j])
            &&& link_nodes(nodes, ids, n)->Ok_0[nodes[i].children[j]] == Some(nodes[i].id)
        },
    decreases n,
{
    if n > 0 {
        lemma_link_nodes_facts(nodes, ids, (n - 1) as nat);
        lemma_link_nodes_dom(nodes, ids, (n - 1) as nat);
        let m = link_nodes(nodes, ids, (n - 1) as nat)->Ok_0;
        let last = nodes[n - 1];
        lemma_link_children_facts(m, last.id, last.children, ids, last.children.len());
        let r = link_nodes(nodes, ids, n)->Ok_0;
        assert forall|i: int, j: int| 0 <= i < n && 0 <= j < nodes[i].children.len() implies {
            &&& ids.contains(#[trigger] nodes[i].children[j])
            &&& r[nodes[i].children[j]] == Some(nodes[i].id)
        } by {
            if i < n - 1 {
                let c = nodes[i].children[j];
                assert(m[c] == Some(nodes[i].id));
                assert(link_children(m, last.id, last.children, ids, last.children.len())->Ok_0[c] == m[c]);
            } else {
                assert(last.children[j] == nodes[i].children[j]);
            }
        }
    }
}

impl VistaUiAsset {
    /// Reads the asset back as a blueprint document, refusing an asset of
    /// another version, with a repeated id, a root that is no node, a child
    /// that is no node or that two nodes claim, or a root that is some
    /// node's child.
    pub fn to_blueprint_document(&self) -> (r: Result<WidgetBlueprintDocument, VistaUiAssetError>)
        ensures
            asset_result_view(r) == spec_to_document(self@),
    {
        let ghost a = self@;
        let ghost an = a.nodes;
        let ghost ids = node_ids(an);
        if self.version != VISTA_UI_ASSET_VERSION {
            return Err(VistaUiAssetError::UnsupportedVersion(self.version));
        }
        let (mut table, mut links) = match build_node_table(&self.nodes) {
            Ok(p) => p,
            Err(e) => return Err(e),
        };
        let ghost table0 = node_table(table);
        proof {
            assert(nodes_view(table0).dom() =~= ids.to_set());
            assert(table0.dom() =~= ids.to_set());
        }
        match check_roots_present(&self.roots, &table) {
            Ok(()) => {},
            Err(e) => return Err(e),
        }
        match link_parents(&self.nodes, &table, &mut links) {
            Ok(()) => {},
            Err(e) => return Err(e),
        }
        let ghost lt = link_table(links);
        proof {
            lemma_link_nodes_dom(an, ids.to_set(), an.len());
            lemma_first_absent_none(a.roots, ids.to_set(), a.roots.len());
        }
        match check_root_links(&self.roots, &links) {
            Ok(()) => {},
            Err(e) => return Err(e),
        }
        match apply_parent_links(&mut table, &links) {
            Ok(()) => {},
            Err(e) => return Err(e),
        }
        let ghost t = nodes_view(node_table(table));
        let ghost want = nodes_from_asset(an, lt);
        proof {
            lemma_first_parented_root_none(a.roots, lt, a.roots.len());
            lemma_link_nodes_facts(an, ids.to_set(), an.len());
            assert(t.dom() =~= want.dom());
            assert forall|k: u64| #[trigger] want.contains_key(k) implies t[k] == want[k] by {
                assert(table0.contains_key(k));
            }
            assert(t =~= want);
            assert(node_table(table).dom() =~= ids.to_set());
            assert forall|k: u64, i: int| #[trigger] t.contains_key(k) && 0 <= i < t[k].children.len() implies {
                &&& t.contains_key(#[trigger] t[k].children[i])
                &&& t[t[k].children[i]].parent == Some(k)
            } by {
                assert(ids.contains(k));
                let q = index_of_id(an, k);
                let q0 = choose|q0: int| 0 <= q0 < ids.len() && ids[q0] == k;
                assert(an[q0].id == k);
                assert(0 <= q < an.len() && an[q].id == k);
                assert(t[k].children == an[q].children);
                let c = an[q].children[i];
                assert(ids.to_set().contains(c));
                assert(lt[c] == Some(an[q].id));
            }
            assert forall|i: int| 0 <= i < self.roots@.len() implies {
                &&& t.contains_key(#[trigger] self.roots@[i])
                &&& t[self.roots@[i]].parent is None
            } by {
                assert(ids.to_set().contains(self.roots@[i]));
            }
        }
        match validate_asset_acyclic(&self.roots, &table) {
            Ok(()) => {},
            Err(e) => return Err(e),
        }
        let roots = copy_ids(&self.roots);
        Ok(WidgetBlueprintDocument::from_parts(roots, table))
    }
}

// ---------------------------------------------------------------------------
// Writing a document out as an asset
// ---------------------------------------------------------------------------

/// The asset node that lists a document node.
pub open spec fn asset_node_of(n: NodeView) -> AssetNodeView {
    AssetNodeView {
        id: n.id,
        name: n.name,
        widget_path: n.widget_path,
        style: n.style,
        props: n.props,
        slot: n.slot,
        children: n.children,
    }
}

/// `nodes` lists the nodes of `t`, each once, in the order of the keys in `order`.
pub open spec fn lists_in_order(nodes: Seq<AssetNodeView>, t: Map<u64, NodeView>, order: Seq<u64>) -> bool {
    &&& order.no_duplicates()
    &&& order.to_set() == t.dom()
    &&& order.len() == nodes.len()
    &&& forall|i: int| 0 <= i < nodes.len() ==> #[trigger] nodes[i] == asset_node_of(t[order[i]])
}

/// The ids of `nodes` never go down.
pub open spec fn sorted_by_id(nodes: Seq<AssetNodeView>) -> bool {
    forall|i: int, j: int| 0 <= i < j < nodes.len() ==> #[trigger] nodes[i].id <= #[trigger] nodes[j].id
}

/// `a` is the asset that writes out `d`: current version, the same roots,
/// and every node once, sorted by id.
pub open spec fn asset_of_document(a: AssetView, d: DocView) -> bool {
    &&& a.version == VISTA_UI_ASSET_VERSION
    &&& a.roots == d.roots
    &&& sorted_by_id(a.nodes)
    &&& exists|order: Seq<u64>| lists_in_order(a.nodes, d.nodes, order)
}

pub open spec fn pair_keys(v: Seq<(u64, u64)>) -> Seq<u64> {
    v.map_values(|p: (u64, u64)| p.1)
}

/// The keys of a node table, each with its node's id, sorted by that id.
fn id_order(table: &HashMap<u64, WidgetBlueprintNode>) -> (r: Vec<(u64, u64)>)
    ensures
        pair_keys(r@).no_duplicates(),
        pair_keys(r@).to_set() == node_table(*table).dom(),
        forall|q: int| 0 <= q < r@.len() ==> node_table(*table).contains_key(#[trigger] r@[q].1) && r@[q].0 == node_table(*table)[r@[q].1].id,
        forall|a: int, b: int| 0 <= a < b < r@.len() ==> #[trigger] r@[a].0 <= #[trigger] r@[b].0,
{
    let ghost t = node_table(*table);
    let keys = node_table_keys(table);
    let mut out: Vec<(u64, u64)> = Vec::new();
    let mut i: usize = 0;
    while i < keys.len()
        invariant
            t == node_table(*table),
            keys@.no_duplicates(),
            keys@.to_set() == t.dom(),
            0 <= i <= keys@.len(),
            out@.len() == i,
            forall|key: u64| pair_keys(out@).contains(key) <==> keys@.take(i as int).contains(key),
            pair_keys(out@).no_duplicates(),
            forall|q: int| 0 <= q < out@.len() ==> t.contains_key(#[trigger] out@[q].1) && out@[q].0 == t[out@[q].1].id,
            forall|a: int, b: int| 0 <= a < b < out@.len() ==> #[trigger] out@[a].0 <= #[trigger] out@[b].0,
        decreases keys@.len() - i,
    {
        let k = keys[i];
        proof {
            assert(keys@.to_set().contains(k)) by {
                assert(keys@.contains(k));
            }
        }
        let x = match node_table_get(table, k) {
            Some(n) => n.id,
            None => 0,
        };
        let mut pos: usize = 0;
        while pos < out.len() && out[pos].0 <= x
            invariant
                0 <= pos <= out@.len(),
                forall|q: int| 0 <= q < pos ==> #[trigger] out@[q].0 <= x,
            decreases out@.len() - pos,
        {
            pos = pos + 1;
        }
        let ghost before = out@;
        out.insert(pos, (x, k));
        proof {
            assert(out@ == before.insert(pos as int, (x, k)));
            let pk = pair_keys(before);
            assert(pair_keys(out@) =~= pk.insert(pos as int, k));
            let pre = keys@.take(i as int);
            assert(keys@.take(i + 1) =~= pre.push(k));
            assert(!pre.contains(k)) by {
                if pre.contains(k) {
                    let q = choose|q: int| 0 <= q < i && pre[q] == k;
                    assert(keys@[q] == keys@[i as int]);
                }
            }
            assert(!pk.contains(k));
            assert forall|key: u64| pair_keys(out@).contains(key) <==> keys@.take(i + 1).contains(key) by {
                let po = pair_keys(out@);
                let post = keys@.take(i + 1);
                if po.contains(key) {
                    let q = choose|q: int| 0 <= q < po.len() && po[q] == key;
                    if q < pos {
                        assert(pk[q] == key);
                    } else if q > pos {
                        assert(pk[q - 1] == key);
                    } else {
                        assert(post[i as int] == key);
                    }
                    if key != k {
                        assert(pk.contains(key));
                        assert(pre.contains(key));
                        let q2 = choose|q2: int| 0 <= q2 < pre.len() && pre[q2] == key;
                        assert(post[q2] == key);
                    } else {
                        assert(post[i as int] == key);
                    }
                }
                if post.contains(key) {
                    let q = choose|q: int| 0 <= q < post.len() && post[q] == key;
                    if q < i {
                        assert(pre[q] == key);
                        assert(pre.contains(key));
                        assert(pk.contains(key));
                        let q2 = choose|q2: int| 0 <= q2 < pk.len() && pk[q2] == key;
                        if q2 < pos {
                            assert(po[q2] == key);
                        } else {
                            assert(po[q2 + 1] == key);
                        }
                    } else {
                        assert(po[pos as int] == key);
                    }
                }
            }
            assert forall|a: int, b: int| 0 <= a < pair_keys(out@).len() && 0 <= b < pair_keys(out@).len() && a != b implies #[trigger] pair_keys(out@)[a] != #[trigger] pair_keys(out@)[b] by {
                let po = pair_keys(out@);
                if a == pos {
                    if b < pos { assert(pk.contains(pk[b])); } else { assert(pk.contains(pk[b - 1])); }
                } else if b == pos {
                    if a < pos { assert(pk.contains(pk[a])); } else { assert(pk.contains(pk[a - 1])); }
                } else {
                    let a0 = if a < pos { a } else { a - 1 };
                    let b0 = if b < pos { b } else { b - 1 };
                    assert(po[a] == pk[a0]);
                    assert(po[b] == pk[b0]);
                }
            }
            assert(t.contains_key(k));
            assert forall|q: int| 0 <= q < out@.len() implies t.contains_key(#[trigger] out@[q].1) && out@[q].0 == t[out@[q].1].id by {
                if q < pos {
                    assert(out@[q] == before[q]);
                } else if q > pos {
                    assert(out@[q] == before[q - 1]);
                }
            }
            assert forall|a: int, b: int| 0 <= a < b < out@.len() implies #[trigger] out@[a].0 <= #[trigger] out@[b].0 by {
                if b < pos {
                    assert(out@[a] == before[a] && out@[b] == before[b]);
                } else if b == pos {
                    assert(out@[a] == before[a]);
                } else if a < pos {
                    assert(out@[a] == before[a] && out@[b] == before[b - 1]);
                    assert(before[a].0 <= before[b - 1].0);
                } else if a == pos {
                    assert(out@[b] == before[b - 1]);
                    if before[pos as int].0 <= x {
                    }
                    assert(before[pos as int].0 <= before[b - 1].0 || b - 1 == pos);
                } else {
                    assert(out@[a] == before[a - 1] && out@[b] == before[b - 1]);
                }
            }
        }
        i = i + 1;
    }
    proof {
        assert(keys@.take(keys@.len() as int) =~= keys@);
        assert forall|key: u64| pair_keys(out@).to_set().contains(key) <==> t.dom().contains(key) by {
            assert(keys@.to_set().contains(key) <==> keys@.contains(key));
        }
        assert(pair_keys(out@).to_set() =~= t.dom());
    }
    out
}

/// The asset node listing a document node.
fn asset_node_from(n: &WidgetBlueprintNode) -> (r: VistaUiNodeAsset)
    ensures
        r@ == asset_node_of(n@),
{
    let r = VistaUiNodeAsset {
        id: n.id,
        name: n.name.clone(),
        widget_path: n.widget_path.clone(),
        style: n.style.clone(),
        props: string_table_clone(&n.props),
        slot: clone_slot(&n.slot),
        children: copy_ids(&n.children),
    };
    assert(r@ =~= asset_node_of(n@));
    r
}

impl VistaUiAsset {
    /// An empty asset of the current version.
    pub fn default() -> (r: Self)
        ensures
            r@.version == VISTA_UI_ASSET_VERSION,
            r@.roots == Seq::<u64>::empty(),
            r@.nodes == Seq::<AssetNodeView>::empty(),
    {
        let r = VistaUiAsset { version: VISTA_UI_ASSET_VERSION, roots: Vec::new(), nodes: Vec::new() };
        assert(r@.nodes =~= Seq::<AssetNodeView>::empty());
        r
    }

    /// Writes a document out as an asset: its roots, and each of its nodes,
    /// sorted by id.
    pub fn from_document(document: &WidgetBlueprintDocument) -> (r: Self)
        ensures
            asset_of_document(r@, document@),
    {
        let ghost t = node_table(document.nodes);
        let order = id_order(&document.nodes);
        let mut nodes: Vec<VistaUiNodeAsset> = Vec::new();
        let mut i: usize = 0;
        while i < order.len()
            invariant
                t == node_table(document.nodes),
                0 <= i <= order@.len(),
                nodes@.len() == i,
                forall|q: int| 0 <= q < order@.len() ==> t.contains_key(#[trigger] order@[q].1) && order@[q].0 == t[order@[q].1].id,
                forall|q: int| 0 <= q < i ==> #[trigger] nodes@[q]@ == asset_node_of(t[order@[q].1]@),
            decreases order@.len() - i,
        {
            let key = order[i].1;
            assert(t.contains_key(order@[i as int].1));
            match node_table_get(&document.nodes, key) {
                Some(n) => {
                    let a = asset_node_from(n);
                    nodes.push(a);
                },
                None => {
                    return VistaUiAsset::default();
                },
            }
            i = i + 1;
        }
        let roots = copy_ids(&document.roots);
        let r = VistaUiAsset { version: VISTA_UI_ASSET_VERSION, roots, nodes };
        proof {
            let d = document@;
            let ord = pair_keys(order@);
            assert(r@.nodes.len() == ord.len());
            assert forall|q: int| 0 <= q < r@.nodes.len() implies #[trigger] r@.nodes[q] == asset_node_of(d.nodes[ord[q]]) by {
                assert(r@.nodes[q] == nodes@[q]@);
                assert(ord[q] == order@[q].1);
            }
            assert(d.nodes.dom() =~= t.dom());
            assert(lists_in_order(r@.nodes, d.nodes, ord));
            assert forall|a: int, b: int| 0 <= a < b < r@.nodes.len() implies #[trigger] r@.nodes[a].id <= #[trigger] r@.nodes[b].id by {
                assert(r@.nodes[a] == nodes@[a]@);
                assert(r@.nodes[b] == nodes@[b]@);
                assert(order@[a].0 <= order@[b].0);
            }
        }
        r
    }
}

} // verus!
