//! Writing a document out as an asset and reading it back.
use vstd::prelude::*;
use crate::document::{DocView, NodeView, doc_wf, max_id, sat_inc};
use crate::asset::{AssetView, AssetNodeView, AssetErrorView, asset_of_document, lists_in_order, asset_node_of,
    spec_to_document, node_ids, first_repeat, first_absent, link_children, link_nodes, first_parented_root,
    nodes_from_asset, index_of_id, node_from_asset};

verus! {

proof fn lemma_no_repeat(ids: Seq<u64>, n: nat)
    requires
        ids.no_duplicates(),
        n <= ids.len(),
    ensures
        first_repeat(ids, n) is None,
    decreases n,
{
    if n > 0 {
        lemma_no_repeat(ids, (n - 1) as nat);
        if ids.take(n - 1).contains(ids[n - 1]) {
            let q = choose|q: int| 0 <= q < n - 1 && #[trigger] ids.take(n - 1)[q] == ids[n - 1];
            assert(ids[q] == ids[n - 1]);
        }
    }
}

proof fn lemma_none_absent(roots: Seq<u64>, ids: Set<u64>, n: nat)
    requires
        n <= roots.len(),
        forall|i: int| 0 <= i < roots.len() ==> ids.contains(#[trigger] roots[i]),
    ensures
        first_absent(roots, ids, n) is None,
    decreases n,
{
    if n > 0 {
        lemma_none_absent(roots, ids, (n - 1) as nat);
    }
}

proof fn lemma_none_parented(roots: Seq<u64>, links: Map<u64, Option<u64>>, n: nat)
    requires
        n <= roots.len(),
        forall|i: int| 0 <= i < roots.len() ==> links[#[trigger] roots[i]] is None,
    ensures
        first_parented_root(roots, links, n) is None,
    decreases n,
{
    if n > 0 {
        lemma_none_parented(roots, links, (n - 1) as nat);
    }
}

/// Some node among the first `n` lists `c` as a child.
pub open spec fn claimed(an: Seq<AssetNodeView>, n: int, c: u64) -> bool {
    exists|i: int| 0 <= i < n && #[trigger] an[i].children.contains(c)
}

/// The parent links after the child lists of the first `n` nodes (and the
/// first `j` children of node `n`): a claimed node has its parent, the rest none.
pub open spec fn links_so_far(an: Seq<AssetNodeView>, d: DocView, n: int, kids: Seq<u64>, j: int) -> Map<u64, Option<u64>> {
    Map::new(
        |c: u64| d.nodes.contains_key(c),
        |c: u64| if claimed(an, n, c) || kids.take(j).contains(c) { d.nodes[c].parent } else { None },
    )
}

/// The asset nodes, read in `order`, are the document's nodes, and ids are keys.
pub open spec fn listed(an: Seq<AssetNodeView>, d: DocView, order: Seq<u64>) -> bool {
    &&& lists_in_order(an, d.nodes, order)
    &&& node_ids(an) == order
}

proof fn lemma_link_children_step(an: Seq<AssetNodeView>, d: DocView, order: Seq<u64>, n: int, j: nat)
    requires
        doc_wf(d),
        listed(an, d, order),
        0 <= n < an.len(),
        j <= an[n].children.len(),
    ensures
        link_children(links_so_far(an, d, n, Seq::empty(), 0), an[n].id, an[n].children, d.nodes.dom(), j)
            == Ok::<Map<u64, Option<u64>>, AssetErrorView>(links_so_far(an, d, n, an[n].children, j as int)),
    decreases j,
{
    let kids = an[n].children;
    let k = order[n];
    assert(an[n] == asset_node_of(d.nodes[order[n]]));
    assert(order.to_set().contains(k)) by {
        assert(order.contains(k));
    }
    assert(d.nodes.contains_key(k));
    assert(an[n].id == k) by {
        assert(node_ids(an)[n] == an[n].id);
    }
    let m0 = links_so_far(an, d, n, Seq::empty(), 0);
    if j == 0 {
        assert(links_so_far(an, d, n, kids, 0) =~= m0) by {
            assert(kids.take(0) =~= Seq::<u64>::empty());
            assert(Seq::<u64>::empty().take(0) =~= Seq::<u64>::empty());
        }
    } else {
        lemma_link_children_step(an, d, order, n, (j - 1) as nat);
        let m1 = links_so_far(an, d, n, kids, j - 1);
        let c = kids[j - 1];
        assert(d.nodes[k].children == kids);
        assert(d.nodes.contains_key(d.nodes[k].children[j - 1]));
        assert(d.nodes[c].parent == Some(k));
        // c has no parent yet: no earlier node claims it, nor does an earlier child position
        assert(!claimed(an, n, c)) by {
            if claimed(an, n, c) {
                let i = choose|i: int| 0 <= i < n && #[trigger] an[i].children.contains(c);
                assert(an[i] == asset_node_of(d.nodes[order[i]]));
                assert(order.to_set().contains(order[i])) by {
                    assert(order.contains(order[i]));
                }
                let q = choose|q: int| 0 <= q < an[i].children.len() && an[i].children[q] == c;
                assert(d.nodes[order[i]].children[q] == c);
                assert(d.nodes[c].parent == Some(order[i]));
                assert(order[i] == order[n]);
            }
        }
        assert(!kids.take(j - 1).contains(c)) by {
            if kids.take(j - 1).contains(c) {
                let q = choose|q: int| 0 <= q < j - 1 && #[trigger] kids.take(j - 1)[q] == c;
                assert(kids[q] == kids[j - 1]);
                assert(d.nodes[k].children.no_duplicates());
            }
        }
        assert(m1[c] is None);
        assert(d.nodes.dom().contains(c));
        let m2 = links_so_far(an, d, n, kids, j as int);
        assert(kids.take(j as int) =~= kids.take(j - 1).push(c));
        assert(m1.insert(c, Some(an[n].id)) =~= m2) by {
            assert forall|x: u64| #[trigger] m2.contains_key(x) implies m1.insert(c, Some(an[n].id))[x] == m2[x] by {
                if x != c {
                    assert(kids.take(j as int).contains(x) <==> kids.take(j - 1).contains(x)) by {
                        if kids.take(j as int).contains(x) {
                            let q = choose|q: int| 0 <= q < j && #[trigger] kids.take(j as int)[q] == x;
                            assert(kids.take(j - 1)[q] == x);
                        }
                        if kids.take(j - 1).contains(x) {
                            let q = choose|q: int| 0 <= q < j - 1 && #[trigger] kids.take(j - 1)[q] == x;
                            assert(kids.take(j as int)[q] == x);
                        }
                    }
                } else {
                    assert(kids.take(j as int)[j - 1] == c);
                }
            }
        }
    }
}

proof fn lemma_link_nodes_listed(an: Seq<AssetNodeView>, d: DocView, order: Seq<u64>, n: nat)
    requires
        doc_wf(d),
        listed(an, d, order),
        n <= an.len(),
    ensures
        link_nodes(an, d.nodes.dom(), n) == Ok::<Map<u64, Option<u64>>, AssetErrorView>(links_so_far(an, d, n as int, Seq::empty(), 0)),
    decreases n,
{
    let ids = d.nodes.dom();
    if n == 0 {
        assert(links_so_far(an, d, 0, Seq::empty(), 0) =~= crate::asset::no_links(ids)) by {
            assert(Seq::<u64>::empty().take(0) =~= Seq::<u64>::empty());
        }
    } else {
        lemma_link_nodes_listed(an, d, order, (n - 1) as nat);
        let kids = an[n - 1].children;
        lemma_link_children_step(an, d, order, n - 1, kids.len());
        assert(Seq::<u64>::empty().take(0) =~= Seq::<u64>::empty());
        assert(links_so_far(an, d, n - 1, kids, kids.len() as int) =~= links_so_far(an, d, n as int, Seq::empty(), 0)) by {
            assert(kids.take(kids.len() as int) =~= kids);
            assert forall|c: u64| claimed(an, n - 1, c) || kids.contains(c) <==> claimed(an, n as int, c) by {
                if claimed(an, n as int, c) {
                    let i = choose|i: int| 0 <= i < n && #[trigger] an[i].children.contains(c);
                    if i < n - 1 {
                        assert(claimed(an, n - 1, c));
                    }
                }
                if claimed(an, n - 1, c) {
                    let i = choose|i: int| 0 <= i < n - 1 && #[trigger] an[i].children.contains(c);
                    assert(0 <= i < n && an[i].children.contains(c));
                }
                if kids.contains(c) {
                    assert(an[n - 1].children.contains(c));
                }
            }
        }
    }
}

/// Writing a well-formed document out as an asset and reading that asset
/// back gives the same roots and the same nodes, each with its parent; the
/// document read back is marked dirty, selects nothing, and its next id is
/// one past its largest id.
pub proof fn lemma_asset_round_trip(d: DocView, a: AssetView)
    requires
        doc_wf(d),
        asset_of_document(a, d),
    ensures
        spec_to_document(a) == Ok::<DocView, AssetErrorView>(DocView {
            roots: d.roots,
            nodes: d.nodes,
            next_id: sat_inc(max_id(d.nodes.dom())),
            dirty: true,
            pending_select: None,
        }),
{
    let order = choose|order: Seq<u64>| lists_in_order(a.nodes, d.nodes, order);
    let an = a.nodes;
    let ids = node_ids(an);
    assert forall|i: int| 0 <= i < an.len() implies #[trigger] ids[i] == order[i] by {
        assert(an[i] == asset_node_of(d.nodes[order[i]]));
        assert(order.to_set().contains(order[i])) by {
            assert(order.contains(order[i]));
        }
    }
    assert(ids =~= order);
    assert(listed(an, d, order));
    lemma_no_repeat(ids, ids.len());
    assert(ids.to_set() == d.nodes.dom());
    assert(forall|i: int| 0 <= i < a.roots.len() ==> ids.to_set().contains(#[trigger] a.roots[i]));
    lemma_none_absent(a.roots, ids.to_set(), a.roots.len());
    lemma_link_nodes_listed(an, d, order, an.len());
    let links = links_so_far(an, d, an.len() as int, Seq::empty(), 0);
    assert(Seq::<u64>::empty().take(0) =~= Seq::<u64>::empty());
    // every node's link is its parent
    assert forall|k: u64| #[trigger] d.nodes.contains_key(k) implies links[k] == d.nodes[k].parent by {
        if let Some(p) = d.nodes[k].parent {
            assert(d.nodes.contains_key(p) && d.nodes[p].children.contains(k));
            assert(order.to_set().contains(p));
            assert(order.contains(p));
            let i = choose|i: int| 0 <= i < order.len() && #[trigger] order[i] == p;
            assert(an[i] == asset_node_of(d.nodes[order[i]]));
            assert(an[i].children.contains(k));
            assert(claimed(an, an.len() as int, k));
        }
    }
    assert forall|i: int| 0 <= i < a.roots.len() implies links[#[trigger] a.roots[i]] is None by {
        assert(d.nodes.contains_key(a.roots[i]));
    }
    lemma_none_parented(a.roots, links, a.roots.len());
    let got = nodes_from_asset(an, links);
    assert(got =~= d.nodes) by {
        assert forall|k: u64| #[trigger] got.contains_key(k) implies got[k] == d.nodes[k] by {
            let i = index_of_id(an, k);
            assert(ids.contains(k));
            let q = choose|q: int| 0 <= q < ids.len() && #[trigger] ids[q] == k;
            assert(an[q].id == k);
            assert(0 <= i < an.len() && an[i].id == k);
            assert(an[i] == asset_node_of(d.nodes[order[i]]));
            assert(ids[i] == order[i]);
            assert(d.nodes.contains_key(k)) by {
                assert(order.to_set().contains(k)) by {
                    assert(order.contains(k));
                }
            }
            assert(got[k] == node_from_asset(an[i], links[k]));
            assert(got[k] =~= d.nodes[k]);
        }
        assert forall|k: u64| d.nodes.contains_key(k) implies #[trigger] got.contains_key(k) by {
            assert(ids.to_set().contains(k));
        }
    }
}

/// No repeat among the first `n` ids means they are all different.
proof fn lemma_no_repeat_distinct(ids: Seq<u64>, n: nat)
    requires
        n <= ids.len(),
        first_repeat(ids, n) is None,
    ensures
        forall|p: int, q: int| 0 <= p < q < n ==> #[trigger] ids[p] != #[trigger] ids[q],
    decreases n,
{
    if n > 0 {
        lemma_no_repeat_distinct(ids, (n - 1) as nat);
        assert forall|p: int| 0 <= p < n - 1 implies #[trigger] ids[p] != ids[n - 1] by {
            assert(ids.take(n - 1)[p] == ids[p]);
            if ids[p] == ids[n - 1] {
                assert(ids.take(n - 1).contains(ids[n - 1]));
            }
        }
    }
}

/// Reading an asset back keeps every asset node under its id, with its own
/// name, widget path, style, properties, slot and children.
pub proof fn lemma_loaded_nodes_keep_fields(a: AssetView)
    requires
        spec_to_document(a) is Ok,
    ensures
        ({
            let d = spec_to_document(a)->Ok_0;
            &&& forall|k: u64| d.nodes.contains_key(k) <==> exists|i: int| 0 <= i < a.nodes.len() && #[trigger] a.nodes[i].id == k
            &&& forall|i: int| 0 <= i < a.nodes.len() ==> {
                let n = #[trigger] a.nodes[i];
                &&& d.nodes.contains_key(n.id)
                &&& d.nodes[n.id].id == n.id
                &&& d.nodes[n.id].name == n.name
                &&& d.nodes[n.id].widget_path == n.widget_path
                &&& d.nodes[n.id].style == n.style
                &&& d.nodes[n.id].props == n.props
                &&& d.nodes[n.id].slot == n.slot
                &&& d.nodes[n.id].children == n.children
            }
        }),
{
    let ids = node_ids(a.nodes);
    assert(first_repeat(ids, ids.len()) is None);
    lemma_no_repeat_distinct(ids, ids.len());
    match link_nodes(a.nodes, ids.to_set(), a.nodes.len()) {
        Ok(links) => {
            let d = spec_to_document(a)->Ok_0;
            assert(d.nodes == nodes_from_asset(a.nodes, links));
            assert forall|k: u64| d.nodes.contains_key(k) <==> exists|i: int| 0 <= i < a.nodes.len() && #[trigger] a.nodes[i].id == k by {
                if d.nodes.contains_key(k) {
                    assert(ids.contains(k));
                    let q = choose|q: int| 0 <= q < ids.len() && ids[q] == k;
                    assert(a.nodes[q].id == k);
                }
                if exists|i: int| 0 <= i < a.nodes.len() && #[trigger] a.nodes[i].id == k {
                    let i = choose|i: int| 0 <= i < a.nodes.len() && #[trigger] a.nodes[i].id == k;
                    assert(ids[i] == k);
                    assert(ids.contains(k));
                }
            }
            assert forall|i: int| 0 <= i < a.nodes.len() implies {
                let n = #[trigger] a.nodes[i];
                &&& d.nodes.contains_key(n.id)
                &&& d.nodes[n.id].id == n.id
                &&& d.nodes[n.id].name == n.name
                &&& d.nodes[n.id].widget_path == n.widget_path
                &&& d.nodes[n.id].style == n.style
                &&& d.nodes[n.id].props == n.props
                &&& d.nodes[n.id].slot == n.slot
                &&& d.nodes[n.id].children == n.children
            } by {
                let k = a.nodes[i].id;
                assert(ids[i] == k);
                assert(ids.contains(k));
                let j = index_of_id(a.nodes, k);
                assert(0 <= j < a.nodes.len() && a.nodes[j].id == k);
                assert(ids[j] == k);
                if j != i {
                    if j < i {
                        assert(ids[j] != ids[i]);
                    } else {
                        assert(ids[i] != ids[j]);
                    }
                }
                assert(d.nodes[k] == node_from_asset(a.nodes[i], links[k]));
            }
        },
        Err(_) => {},
    }
}

/// Writing a well-formed document out puts each of its nodes in the asset
/// under its id, with the node's own name, widget path, style, properties,
/// slot and children, and leaves none out.
pub proof fn lemma_saved_nodes_carry_fields(a: AssetView, d: DocView)
    requires
        doc_wf(d),
        asset_of_document(a, d),
    ensures
        forall|k: u64| d.nodes.contains_key(k) <==> exists|i: int| 0 <= i < a.nodes.len() && #[trigger] a.nodes[i].id == k,
        forall|i: int| 0 <= i < a.nodes.len() ==> {
            let n = #[trigger] a.nodes[i];
            &&& d.nodes.contains_key(n.id)
            &&& n.name == d.nodes[n.id].name
            &&& n.widget_path == d.nodes[n.id].widget_path
            &&& n.style == d.nodes[n.id].style
            &&& n.props == d.nodes[n.id].props
            &&& n.slot == d.nodes[n.id].slot
            &&& n.children == d.nodes[n.id].children
        },
{
    let order = choose|order: Seq<u64>| lists_in_order(a.nodes, d.nodes, order);
    assert forall|i: int| 0 <= i < a.nodes.len() implies d.nodes.contains_key(order[i]) && #[trigger] a.nodes[i].id == order[i] by {
        assert(order.to_set().contains(order[i])) by {
            assert(order.contains(order[i]));
        }
        assert(a.nodes[i] == asset_node_of(d.nodes[order[i]]));
    }
    assert forall|k: u64| d.nodes.contains_key(k) <==> exists|i: int| 0 <= i < a.nodes.len() && #[trigger] a.nodes[i].id == k by {
        if d.nodes.contains_key(k) {
            assert(order.to_set().contains(k));
            assert(order.contains(k));
            let i = choose|i: int| 0 <= i < order.len() && order[i] == k;
            assert(a.nodes[i].id == k);
        }
        if exists|i: int| 0 <= i < a.nodes.len() && #[trigger] a.nodes[i].id == k {
            let i = choose|i: int| 0 <= i < a.nodes.len() && #[trigger] a.nodes[i].id == k;
            assert(a.nodes[i].id == order[i]);
        }
    }
    assert forall|i: int| 0 <= i < a.nodes.len() implies {
        let n = #[trigger] a.nodes[i];
        &&& d.nodes.contains_key(n.id)
        &&& n.name == d.nodes[n.id].name
        &&& n.widget_path == d.nodes[n.id].widget_path
        &&& n.style == d.nodes[n.id].style
        &&& n.props == d.nodes[n.id].props
        &&& n.slot == d.nodes[n.id].slot
        &&& n.children == d.nodes[n.id].children
    } by {
        assert(a.nodes[i].id == order[i]);
        assert(a.nodes[i] == asset_node_of(d.nodes[order[i]]));
    }
}

} // verus!
