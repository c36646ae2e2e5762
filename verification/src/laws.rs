//! What every command keeps: the document stays a well-formed forest, and a
//! refused command changes nothing.
use vstd::prelude::*;
use crate::document::{DocView, NodeView, CommandView, doc_wf, spec_apply, spec_add_root, spec_add_child,
    spec_remove_node, spec_move_node, spec_update_node, fresh_node, with_children, refresh_slots, fold_slots,
    ranked_by, acyclic, in_subtree, subtree_of, without, insert_clamped, reorder, sat_inc,
    lemma_in_subtree_step, lemma_in_subtree_self, lemma_in_subtree_rank, descends,
    reaches, reach_set, stays_listed, detach_nodes, lemma_reaches_extend, lemma_reaches_present};
use crate::registry::{WidgetRegistry, slot_at};
use crate::seqs::{lemma_without_ids, lemma_insert_ids, lemma_reorder_ids};

verus! {

/// Two node maps with the same ids, parents and children.
pub open spec fn same_shape(m1: Map<u64, NodeView>, m2: Map<u64, NodeView>) -> bool {
    &&& m1.dom() == m2.dom()
    &&& forall|k: u64| #[trigger] m1.contains_key(k) ==> {
        &&& m1[k].id == m2[k].id
        &&& m1[k].parent == m2[k].parent
        &&& m1[k].children == m2[k].children
    }
}

proof fn lemma_fold_slots_shape(m: Map<u64, NodeView>, kids: Seq<u64>, slots: Seq<Seq<char>>, n: nat)
    ensures
        same_shape(m, fold_slots(m, kids, slots, n)),
        forall|k: u64| #[trigger] m.contains_key(k) ==> fold_slots(m, kids, slots, n)[k].widget_path == m[k].widget_path,
    decreases n,
{
    if n == 0 || n > kids.len() {
    } else {
        lemma_fold_slots_shape(m, kids, slots, (n - 1) as nat);
        let m1 = fold_slots(m, kids, slots, (n - 1) as nat);
        let k = kids[n - 1];
        if m1.contains_key(k) {
            assert(m1.insert(k, NodeView { slot: crate::registry::slot_at(slots, n - 1), ..m1[k] }).dom() =~= m1.dom());
        }
    }
}

/// Giving children their slots changes no id, parent, child or widget path.
pub proof fn lemma_refresh_slots_shape(m: Map<u64, NodeView>, parent: u64, reg: WidgetRegistry)
    ensures
        same_shape(m, refresh_slots(m, parent, reg)),
        forall|k: u64| #[trigger] m.contains_key(k) ==> refresh_slots(m, parent, reg)[k].widget_path == m[k].widget_path,
{
    if m.contains_key(parent) && reg.lookup(m[parent].widget_path) is Some {
        let kids = m[parent].children;
        lemma_fold_slots_shape(m, kids, reg.lookup(m[parent].widget_path)->0.child_slots, kids.len());
    }
}

/// Well-formedness looks only at ids, parents and children.
pub proof fn lemma_wf_same_shape(d: DocView, m2: Map<u64, NodeView>)
    requires
        doc_wf(d),
        same_shape(d.nodes, m2),
    ensures
        doc_wf(DocView { nodes: m2, ..d }),
{
    let m1 = d.nodes;
    let e = DocView { nodes: m2, ..d };
    assert(m2.dom() == m1.dom());
    assert forall|k: u64| #[trigger] m2.contains_key(k) implies m2[k].id == k && k < e.next_id by {
        assert(m1.contains_key(k));
    }
    assert forall|i: int| 0 <= i < e.roots.len() implies {
        &&& m2.contains_key(#[trigger] e.roots[i])
        &&& m2[e.roots[i]].parent is None
    } by {
        assert(m1.contains_key(d.roots[i]));
    }
    assert forall|k: u64| #[trigger] m2.contains_key(k) && m2[k].parent is None implies e.roots.contains(k) by {
        assert(m1.contains_key(k));
    }
    assert forall|k: u64| #[trigger] m2.contains_key(k) implies match m2[k].parent {
        Some(p) => m2.contains_key(p) && m2[p].children.contains(k),
        None => true,
    } by {
        assert(m1.contains_key(k));
        match m1[k].parent {
            Some(p) => {
                assert(m1.contains_key(p));
            },
            None => {},
        }
    }
    assert forall|k: u64| #[trigger] m2.contains_key(k) implies m2[k].children.no_duplicates() by {
        assert(m1.contains_key(k));
    }
    assert forall|k: u64, i: int| #[trigger] m2.contains_key(k) && 0 <= i < m2[k].children.len() implies {
        &&& m2.contains_key(#[trigger] m2[k].children[i])
        &&& m2[m2[k].children[i]].parent == Some(k)
    } by {
        assert(m1.contains_key(k));
        assert(m1.contains_key(m1[k].children[i]));
    }
    let rank = choose|rank: spec_fn(u64) -> nat| ranked_by(m1, rank);
    assert forall|k: u64| #[trigger] m2.contains_key(k) implies match m2[k].parent {
        Some(p) => rank(p) < rank(k),
        None => true,
    } by {
        assert(m1.contains_key(k));
    }
    assert(ranked_by(m2, rank));
}

/// A refused command leaves the document as it was.
pub proof fn lemma_refused_command_changes_nothing(d: DocView, c: CommandView, reg: WidgetRegistry)
    ensures
        spec_apply(d, c, reg).1 is Err ==> spec_apply(d, c, reg).0 == d,
{
}

proof fn lemma_add_root_wf(d: DocView, path: Seq<char>, reg: WidgetRegistry)
    requires
        doc_wf(d),
        d.next_id < u64::MAX,
    ensures
        doc_wf(spec_add_root(d, path, reg).0),
{
    if reg.lookup(path) is Some {
        let id = d.next_id;
        let e = spec_add_root(d, path, reg).0;
        let m = e.nodes;
        assert(!d.nodes.contains_key(id));
        assert(!d.roots.contains(id));
        assert forall|k: u64| #[trigger] m.contains_key(k) implies m[k].id == k && k < e.next_id by {
            if k != id {
                assert(d.nodes.contains_key(k));
            }
        }
        assert(e.roots.no_duplicates()) by {
            assert forall|i: int, j: int| 0 <= i < e.roots.len() && 0 <= j < e.roots.len() && i != j implies e.roots[i] != e.roots[j] by {
                if i < d.roots.len() && j < d.roots.len() {
                } else if i < d.roots.len() {
                    assert(d.roots.contains(d.roots[i]));
                } else {
                    assert(d.roots.contains(d.roots[j]));
                }
            }
        }
        assert forall|i: int| 0 <= i < e.roots.len() implies {
            &&& m.contains_key(#[trigger] e.roots[i])
            &&& m[e.roots[i]].parent is None
        } by {
            if i < d.roots.len() {
                assert(d.nodes.contains_key(d.roots[i]));
                assert(d.roots[i] != id);
            }
        }
        assert forall|k: u64| #[trigger] m.contains_key(k) && m[k].parent is None implies e.roots.contains(k) by {
            if k == id {
                assert(e.roots[e.roots.len() - 1] == id);
            } else {
                assert(d.nodes.contains_key(k));
                let i = choose|i: int| 0 <= i < d.roots.len() && d.roots[i] == k;
                assert(e.roots[i] == k);
            }
        }
        assert forall|k: u64| #[trigger] m.contains_key(k) implies match m[k].parent {
            Some(p) => m.contains_key(p) && m[p].children.contains(k),
            None => true,
        } by {
            if k != id {
                assert(d.nodes.contains_key(k));
                match d.nodes[k].parent {
                    Some(p) => {
                        assert(d.nodes.contains_key(p));
                    },
                    None => {},
                }
            }
        }
        assert forall|k: u64| #[trigger] m.contains_key(k) implies m[k].children.no_duplicates() by {
            if k != id {
                assert(d.nodes.contains_key(k));
            }
        }
        assert forall|k: u64, i: int| #[trigger] m.contains_key(k) && 0 <= i < m[k].children.len() implies {
            &&& m.contains_key(#[trigger] m[k].children[i])
            &&& m[m[k].children[i]].parent == Some(k)
        } by {
            if k != id {
                assert(d.nodes.contains_key(k));
                assert(d.nodes.contains_key(d.nodes[k].children[i]));
            }
        }
        let rank = choose|rank: spec_fn(u64) -> nat| ranked_by(d.nodes, rank);
        assert forall|k: u64| #[trigger] m.contains_key(k) implies match m[k].parent {
            Some(p) => rank(p) < rank(k),
            None => true,
        } by {
            if k != id {
                assert(d.nodes.contains_key(k));
            }
        }
        assert(ranked_by(m, rank));
    }
}

proof fn lemma_add_child_wf(d: DocView, parent: u64, path: Seq<char>, reg: WidgetRegistry)
    requires
        doc_wf(d),
        d.next_id < u64::MAX,
    ensures
        doc_wf(spec_add_child(d, parent, path, reg).0),
{
    if reg.lookup(path) is Some && d.nodes.contains_key(parent)
        && crate::document::path_allows(reg, d.nodes[parent].widget_path, d.nodes[parent].children.len() + 1int) {
        let id = d.next_id;
        assert(!d.nodes.contains_key(id));
        assert(id != parent);
        let nodes1 = d.nodes.insert(id, fresh_node(id, path, Some(parent)));
        let pk = d.nodes[parent].children;
        assert(!pk.contains(id)) by {
            if pk.contains(id) {
                let i = choose|i: int| 0 <= i < pk.len() && pk[i] == id;
                assert(d.nodes.contains_key(pk[i]));
            }
        }
        lemma_insert_ids(pk, pk.len() as int, id);
        assert(pk.insert(pk.len() as int, id) =~= pk.push(id));
        let m = nodes1.insert(parent, with_children(nodes1[parent], nodes1[parent].children.push(id)));
        let e = DocView { roots: d.roots, nodes: m, next_id: sat_inc(d.next_id), dirty: true, pending_select: Some(id) };
        assert forall|k: u64| #[trigger] m.contains_key(k) implies m[k].id == k && k < e.next_id by {
            if k != id {
                assert(d.nodes.contains_key(k));
            }
        }
        assert forall|i: int| 0 <= i < e.roots.len() implies {
            &&& m.contains_key(#[trigger] e.roots[i])
            &&& m[e.roots[i]].parent is None
        } by {
            assert(d.nodes.contains_key(d.roots[i]));
        }
        assert forall|k: u64| #[trigger] m.contains_key(k) && m[k].parent is None implies e.roots.contains(k) by {
            assert(k != id);
            assert(d.nodes.contains_key(k));
        }
        assert forall|k: u64| #[trigger] m.contains_key(k) implies match m[k].parent {
            Some(p) => m.contains_key(p) && m[p].children.contains(k),
            None => true,
        } by {
            if k == id {
                assert(m[parent].children[m[parent].children.len() - 1] == id);
            } else {
                assert(d.nodes.contains_key(k));
                match d.nodes[k].parent {
                    Some(p) => {
                        assert(d.nodes.contains_key(p));
                        if p == parent {
                            let i = choose|i: int| 0 <= i < pk.len() && pk[i] == k;
                            assert(m[parent].children[i] == k);
                        }
                    },
                    None => {},
                }
            }
        }
        assert forall|k: u64| #[trigger] m.contains_key(k) implies m[k].children.no_duplicates() by {
            if k != id && k != parent {
                assert(d.nodes.contains_key(k));
            }
        }
        assert forall|k: u64, i: int| #[trigger] m.contains_key(k) && 0 <= i < m[k].children.len() implies {
            &&& m.contains_key(#[trigger] m[k].children[i])
            &&& m[m[k].children[i]].parent == Some(k)
        } by {
            if k == parent {
                if i < pk.len() {
                    assert(d.nodes.contains_key(pk[i]));
                    assert(pk[i] != id);
                }
            } else if k != id {
                assert(d.nodes.contains_key(k));
                assert(d.nodes.contains_key(d.nodes[k].children[i]));
                assert(d.nodes[k].children[i] != id);
            }
        }
        let rank = choose|rank: spec_fn(u64) -> nat| ranked_by(d.nodes, rank);
        let rank2 = |k: u64| if k == id { rank(parent) + 1 } else { rank(k) };
        assert forall|k: u64| #[trigger] m.contains_key(k) implies match m[k].parent {
            Some(p) => rank2(p) < rank2(k),
            None => true,
        } by {
            if k != id {
                assert(d.nodes.contains_key(k));
                match d.nodes[k].parent {
                    Some(p) => {
                        assert(d.nodes.contains_key(p));
                    },
                    None => {},
                }
            }
        }
        assert(ranked_by(m, rank2));
        assert(doc_wf(e));
        lemma_refresh_slots_shape(m, parent, reg);
        lemma_wf_same_shape(e, refresh_slots(m, parent, reg));
        assert(spec_add_child(d, parent, path, reg).0 == DocView { nodes: refresh_slots(m, parent, reg), ..e });
    }
}

proof fn lemma_update_node_wf(d: DocView, node: u64, n: NodeView, dirty: bool)
    requires
        doc_wf(d),
        d.nodes.contains_key(node),
        n.id == d.nodes[node].id,
        n.parent == d.nodes[node].parent,
        n.children == d.nodes[node].children,
    ensures
        doc_wf(spec_update_node(d, node, n, dirty).0),
{
    let m2 = d.nodes.insert(node, n);
    assert(m2.dom() =~= d.nodes.dom());
    assert(same_shape(d.nodes, m2));
    lemma_wf_same_shape(d, m2);
    let e = DocView { nodes: m2, ..d };
    assert(spec_update_node(d, node, n, dirty).0 == DocView { dirty, pending_select: Some(node), ..e });
}

/// The document once the subtree of `node` is out, before slots are given again.
pub open spec fn removed_core(d: DocView, node: u64) -> DocView {
    let sub = subtree_of(d.nodes, node);
    let kept = d.nodes.remove_keys(sub);
    let (m, roots) = match d.nodes[node].parent {
        Some(p) => (kept.insert(p, with_children(kept[p], without(kept[p].children, node))), d.roots),
        None => (kept, without(d.roots, node)),
    };
    DocView { roots, nodes: m, next_id: d.next_id, dirty: true, pending_select: d.pending_select }
}

#[verifier::rlimit(40)]
proof fn lemma_removed_core_wf(d: DocView, node: u64)
    requires
        doc_wf(d),
        d.nodes.contains_key(node),
    ensures
        doc_wf(removed_core(d, node)),
        d.nodes[node].parent matches Some(p) ==> d.nodes.contains_key(p) && !subtree_of(d.nodes, node).contains(p),
{
    {
        let sub = subtree_of(d.nodes, node);
        let kept = d.nodes.remove_keys(sub);
        let parent = d.nodes[node].parent;
        let rank = choose|rank: spec_fn(u64) -> nat| ranked_by(d.nodes, rank);
        lemma_in_subtree_self(d.nodes, node);
        assert(sub.contains(node));
        // Whatever hangs below a removed node is removed.
        assert forall|k: u64| #[trigger] d.nodes.contains_key(k) && k != node && d.nodes[k].parent is Some
            && sub.contains(d.nodes[k].parent->0) implies sub.contains(k) by {
            lemma_in_subtree_step(d.nodes, k, node);
        }
        assert forall|k: u64| #[trigger] d.nodes.contains_key(k) && k != node && d.nodes[k].parent is None implies !sub.contains(k) by {
            lemma_in_subtree_step(d.nodes, k, node);
        }
        let (m, roots) = match parent {
            Some(p) => (kept.insert(p, with_children(kept[p], without(kept[p].children, node))), d.roots),
            None => (kept, without(d.roots, node)),
        };
        match parent {
            Some(p) => {
                assert(d.nodes.contains_key(p));
                if sub.contains(p) {
                    lemma_in_subtree_rank(d.nodes, rank, p, node);
                    assert(false);
                }
                assert(kept.contains_key(p));
                lemma_without_ids(kept[p].children, node);
            },
            None => {
                lemma_without_ids(d.roots, node);
            },
        }
        let e = DocView { roots, nodes: m, next_id: d.next_id, dirty: true, pending_select: d.pending_select };
        assert(m.dom().finite()) by {
            assert(m.dom() =~= d.nodes.dom().difference(sub));
        }
        assert forall|k: u64| #[trigger] m.contains_key(k) implies m[k].id == k && k < e.next_id by {
            assert(d.nodes.contains_key(k));
        }
        assert forall|i: int| 0 <= i < e.roots.len() implies {
            &&& m.contains_key(#[trigger] e.roots[i])
            &&& m[e.roots[i]].parent is None
        } by {
            let r = e.roots[i];
            assert(e.roots.contains(r));
            assert(d.roots.contains(r));
            let q = choose|q: int| 0 <= q < d.roots.len() && d.roots[q] == r;
            assert(d.nodes.contains_key(d.roots[q]));
            assert(r != node);
        }
        assert forall|k: u64| #[trigger] m.contains_key(k) && m[k].parent is None implies e.roots.contains(k) by {
            assert(d.nodes.contains_key(k));
            assert(d.roots.contains(k));
            assert(k != node);
        }
        assert forall|k: u64| #[trigger] m.contains_key(k) implies match m[k].parent {
            Some(q) => m.contains_key(q) && m[q].children.contains(k),
            None => true,
        } by {
            assert(d.nodes.contains_key(k));
            assert(k != node);
            match d.nodes[k].parent {
                Some(q) => {
                    assert(d.nodes.contains_key(q));
                    assert(!sub.contains(q));
                },
                None => {},
            }
        }
        assert forall|k: u64| #[trigger] m.contains_key(k) implies m[k].children.no_duplicates() by {
            assert(d.nodes.contains_key(k));
        }
        assert forall|k: u64, i: int| #[trigger] m.contains_key(k) && 0 <= i < m[k].children.len() implies {
            &&& m.contains_key(#[trigger] m[k].children[i])
            &&& m[m[k].children[i]].parent == Some(k)
        } by {
            assert(d.nodes.contains_key(k));
            let c = m[k].children[i];
            assert(m[k].children.contains(c));
            assert(d.nodes[k].children.contains(c));
            let q = choose|q: int| 0 <= q < d.nodes[k].children.len() && d.nodes[k].children[q] == c;
            assert(d.nodes.contains_key(d.nodes[k].children[q]));
            assert(d.nodes[c].parent == Some(k));
            if c == node {
                assert(parent == Some(k));
                assert(!m[k].children.contains(node));
            }
            assert(c != node);
            lemma_in_subtree_step(d.nodes, c, node);
            assert(!sub.contains(c));
        }
        assert forall|k: u64| #[trigger] m.contains_key(k) implies match m[k].parent {
            Some(q) => rank(q) < rank(k),
            None => true,
        } by {
            assert(d.nodes.contains_key(k));
        }
        assert(ranked_by(m, rank));
        assert(doc_wf(e));
        assert(e == removed_core(d, node));
    }
}

/// `x` below `c`, and `c` a child of `a`, puts `x` below `a`.
proof fn lemma_descends_through(nodes: Map<u64, NodeView>, x: u64, c: u64, a: u64, fuel: nat)
    requires
        descends(nodes, x, c, fuel),
        nodes.contains_key(c),
        nodes[c].parent == Some(a),
    ensures
        descends(nodes, x, a, fuel + 1),
    decreases fuel,
{
    if x != a {
        if x == c {
            assert(descends(nodes, a, a, fuel));
        } else {
            let p = nodes[x].parent->0;
            lemma_descends_through(nodes, p, c, a, (fuel - 1) as nat);
        }
    }
}

/// In a well-formed document, what children lists lead to from `a` lies in
/// the subtree of `a`.
proof fn lemma_reaches_in_subtree(d: DocView, a: u64, x: u64, fuel: nat)
    requires
        doc_wf(d),
        reaches(d.nodes, a, x, fuel),
    ensures
        in_subtree(d.nodes, x, a),
    decreases fuel,
{
    if x == a {
        lemma_in_subtree_self(d.nodes, a);
    } else {
        let j = choose|j: int|
            #![trigger d.nodes[a].children[j]]
            0 <= j < d.nodes[a].children.len() && reaches(d.nodes, d.nodes[a].children[j], x, (fuel - 1) as nat);
        let c = d.nodes[a].children[j];
        lemma_reaches_in_subtree(d, c, x, (fuel - 1) as nat);
        assert(d.nodes.contains_key(c) && d.nodes[c].parent == Some(a));
        let g = choose|g: nat| descends(d.nodes, x, c, g);
        lemma_descends_through(d.nodes, x, c, a, g);
    }
}

/// In a well-formed document, children lists lead from `a` to each present
/// node of its subtree.
proof fn lemma_subtree_reached(d: DocView, x: u64, a: u64, fuel: nat)
    requires
        doc_wf(d),
        descends(d.nodes, x, a, fuel),
        d.nodes.contains_key(x),
        d.nodes.contains_key(a),
    ensures
        reaches(d.nodes, a, x, fuel),
    decreases fuel,
{
    if x != a {
        let p = d.nodes[x].parent->0;
        assert(d.nodes.contains_key(p) && d.nodes[p].children.contains(x));
        lemma_subtree_reached(d, p, a, (fuel - 1) as nat);
        let i = choose|i: int| 0 <= i < d.nodes[p].children.len() && d.nodes[p].children[i] == x;
        lemma_reaches_extend(d.nodes, a, p, i, (fuel - 1) as nat);
    }
}

/// In a well-formed document, the nodes children lists lead to from `node`
/// are the subtree of `node`.
pub proof fn lemma_reach_is_subtree(d: DocView, node: u64)
    requires
        doc_wf(d),
        d.nodes.contains_key(node),
    ensures
        reach_set(d.nodes, node) == subtree_of(d.nodes, node),
{
    assert forall|x: u64| reach_set(d.nodes, node).contains(x) implies subtree_of(d.nodes, node).contains(x) by {
        let f = choose|f: nat| reaches(d.nodes, node, x, f);
        lemma_reaches_in_subtree(d, node, x, f);
        lemma_reaches_present(d.nodes, node, x, f);
    }
    assert forall|x: u64| subtree_of(d.nodes, node).contains(x) implies reach_set(d.nodes, node).contains(x) by {
        let f = choose|f: nat| descends(d.nodes, x, node, f);
        lemma_subtree_reached(d, x, node, f);
    }
    assert(reach_set(d.nodes, node) =~= subtree_of(d.nodes, node));
}

/// Two tests that agree on every member of `s` keep the same members.
proof fn lemma_filter_agree(s: Seq<u64>, f: spec_fn(u64) -> bool, g: spec_fn(u64) -> bool)
    requires
        forall|i: int| 0 <= i < s.len() ==> f(#[trigger] s[i]) == g(s[i]),
    ensures
        s.filter(f) == s.filter(g),
    decreases s.len(),
{
    reveal(Seq::filter);
    if s.len() > 0 {
        lemma_filter_agree(s.drop_last(), f, g);
        assert(f(s[s.len() - 1]) == g(s[s.len() - 1]));
    }
}

/// A test that every member of `s` passes keeps all of `s`.
proof fn lemma_filter_keeps_all(s: Seq<u64>, f: spec_fn(u64) -> bool)
    requires
        forall|i: int| 0 <= i < s.len() ==> f(#[trigger] s[i]),
    ensures
        s.filter(f) == s,
    decreases s.len(),
{
    reveal(Seq::filter);
    if s.len() > 0 {
        lemma_filter_keeps_all(s.drop_last(), f);
        assert(f(s[s.len() - 1]));
        assert(s.drop_last().push(s.last()) =~= s);
    }
}

/// In a well-formed document, the removal by children lists takes out the
/// subtree of `node` and `node` off its parent's list or the roots, as
/// `removed_core` says.
proof fn lemma_removal_in_forest(d: DocView, node: u64)
    requires
        doc_wf(d),
        d.nodes.contains_key(node),
    ensures
        detach_nodes(d.nodes, reach_set(d.nodes, node)) == removed_core(d, node).nodes,
        d.roots.filter(stays_listed(d.nodes, reach_set(d.nodes, node), None)) == removed_core(d, node).roots,
{
    lemma_reach_is_subtree(d, node);
    lemma_removed_core_wf(d, node);
    lemma_in_subtree_self(d.nodes, node);
    let sub = subtree_of(d.nodes, node);
    let parent = d.nodes[node].parent;
    assert(sub.contains(node));
    // A listed child is in the subtree only when it is `node` itself.
    assert forall|q: u64, i: int| #![trigger d.nodes[q].children[i]]
        d.nodes.contains_key(q) && !sub.contains(q) && 0 <= i < d.nodes[q].children.len()
        implies stays_listed(d.nodes, sub, Some(q))(d.nodes[q].children[i]) == (parent != Some(q) || d.nodes[q].children[i] != node) by {
        let c = d.nodes[q].children[i];
        assert(d.nodes.contains_key(c) && d.nodes[c].parent == Some(q));
        if c != node && sub.contains(c) {
            lemma_in_subtree_step(d.nodes, c, node);
            assert(sub.contains(q));
        }
    }
    let m = detach_nodes(d.nodes, sub);
    let e = removed_core(d, node).nodes;
    assert forall|q: u64| #[trigger] m.contains_key(q) implies m[q] == e[q] by {
        let kids = d.nodes[q].children;
        if parent == Some(q) {
            lemma_filter_agree(kids, stays_listed(d.nodes, sub, Some(q)), crate::document::other_than(node));
        } else {
            assert forall|i: int| 0 <= i < kids.len() implies stays_listed(d.nodes, sub, Some(q))(#[trigger] kids[i]) by {
                assert(stays_listed(d.nodes, sub, Some(q))(d.nodes[q].children[i]) == (parent != Some(q) || d.nodes[q].children[i] != node));
            }
            lemma_filter_keeps_all(kids, stays_listed(d.nodes, sub, Some(q)));
            assert(with_children(d.nodes[q], kids) == d.nodes[q]);
        }
    }
    assert(m.dom() =~= e.dom());
    assert(m =~= e);
    // A root is in the subtree only when it is `node` itself.
    assert forall|i: int| 0 <= i < d.roots.len() implies stays_listed(d.nodes, sub, None)(#[trigger] d.roots[i]) == (d.roots[i] != node) by {
        let c = d.roots[i];
        assert(d.nodes.contains_key(c) && d.nodes[c].parent is None);
        if c != node && sub.contains(c) {
            lemma_in_subtree_step(d.nodes, c, node);
        }
    }
    match parent {
        Some(p) => {
            assert forall|i: int| 0 <= i < d.roots.len() implies stays_listed(d.nodes, sub, None)(#[trigger] d.roots[i]) by {
                assert(d.nodes[d.roots[i]].parent is None);
            }
            lemma_filter_keeps_all(d.roots, stays_listed(d.nodes, sub, None));
        },
        None => {
            lemma_filter_agree(d.roots, stays_listed(d.nodes, sub, None), crate::document::other_than(node));
        },
    }
}

proof fn lemma_remove_node_wf(d: DocView, node: u64, reg: WidgetRegistry)
    requires
        doc_wf(d),
    ensures
        doc_wf(spec_remove_node(d, node, reg).0),
{
    if d.nodes.contains_key(node) {
        lemma_removed_core_wf(d, node);
        lemma_removal_in_forest(d, node);
        let e = removed_core(d, node);
        match d.nodes[node].parent {
            Some(p) => {
                lemma_refresh_slots_shape(e.nodes, p, reg);
                lemma_wf_same_shape(e, refresh_slots(e.nodes, p, reg));
                assert(spec_remove_node(d, node, reg).0 == DocView { nodes: refresh_slots(e.nodes, p, reg), pending_select: Some(p), ..e });
            },
            None => {
                assert(spec_remove_node(d, node, reg).0 == DocView { pending_select: spec_remove_node(d, node, reg).0.pending_select, ..e });
            },
        }
    }
}

/// The document once `node` hangs under `new_parent`, before slots are given again.
pub open spec fn moved_core(d: DocView, node: u64, new_parent: Option<u64>, index: Option<usize>) -> DocView {
    let old_parent = d.nodes[node].parent;
    let (nodes1, roots1) = match old_parent {
        Some(op) => (if d.nodes.contains_key(op) { d.nodes.insert(op, with_children(d.nodes[op], without(d.nodes[op].children, node))) } else { d.nodes }, d.roots),
        None => (d.nodes, without(d.roots, node)),
    };
    let (nodes2, roots2) = match new_parent {
        Some(p) => (nodes1.insert(p, with_children(nodes1[p], insert_clamped(nodes1[p].children, index, node))), roots1),
        None => (nodes1, insert_clamped(roots1, index, node)),
    };
    let nodes3 = nodes2.insert(node, NodeView { parent: new_parent, slot: None, ..nodes2[node] });
    DocView { roots: roots2, nodes: nodes3, next_id: d.next_id, dirty: true, pending_select: Some(node) }
}

pub open spec fn clamp_index(len: int, index: Option<usize>) -> int {
    match index { Some(i) => if i < len { i as int } else { len }, None => len }
}

#[verifier::rlimit(60)]
proof fn lemma_moved_core_wf(d: DocView, node: u64, new_parent: Option<u64>, index: Option<usize>)
    requires
        doc_wf(d),
        d.nodes.contains_key(node),
        d.nodes[node].parent != new_parent,
        new_parent matches Some(p) ==> d.nodes.contains_key(p) && p != node && !in_subtree(d.nodes, p, node),
    ensures
        doc_wf(moved_core(d, node, new_parent, index)),
{
    let e = moved_core(d, node, new_parent, index);
    let m = e.nodes;
    let op = d.nodes[node].parent;
    let rank = choose|rank: spec_fn(u64) -> nat| ranked_by(d.nodes, rank);
    assert(d.nodes[node].children.no_duplicates());
    // The node is not a root when it has a parent, and is in no child list but its parent's.
    assert forall|k: u64| #[trigger] d.nodes.contains_key(k) && d.nodes[k].children.contains(node) implies op == Some(k) by {
        let i = choose|i: int| 0 <= i < d.nodes[k].children.len() && d.nodes[k].children[i] == node;
        assert(d.nodes.contains_key(d.nodes[k].children[i]));
    }
    if op is Some {
        assert(!d.roots.contains(node)) by {
            if d.roots.contains(node) {
                let i = choose|i: int| 0 <= i < d.roots.len() && d.roots[i] == node;
                assert(d.nodes.contains_key(d.roots[i]));
            }
        }
    }
    match op {
        Some(o) => {
            assert(d.nodes.contains_key(o));
            lemma_without_ids(d.nodes[o].children, node);
        },
        None => {
            lemma_without_ids(d.roots, node);
        },
    }
    match new_parent {
        Some(p) => {
            let pk = d.nodes[p].children;
            assert(!pk.contains(node));
            if op == Some(p) {
                assert(false);
            }
            lemma_insert_ids(pk, clamp_index(pk.len() as int, index), node);
        },
        None => {
            let r1 = without(d.roots, node);
            if op is None {
                assert(false);
            }
            lemma_without_ids(d.roots, node);
            assert(r1 == d.roots);
            lemma_insert_ids(d.roots, clamp_index(d.roots.len() as int, index), node);
        },
    }
    assert(m.dom() =~= d.nodes.dom());
    assert forall|k: u64| #[trigger] m.contains_key(k) implies m[k].id == k && k < e.next_id by {
        assert(d.nodes.contains_key(k));
    }
    assert forall|i: int| 0 <= i < e.roots.len() implies {
        &&& m.contains_key(#[trigger] e.roots[i])
        &&& m[e.roots[i]].parent is None
    } by {
        let r = e.roots[i];
        assert(e.roots.contains(r));
        if r != node {
            assert(d.roots.contains(r));
            let q = choose|q: int| 0 <= q < d.roots.len() && d.roots[q] == r;
            assert(d.nodes.contains_key(d.roots[q]));
        }
    }
    assert forall|k: u64| #[trigger] m.contains_key(k) && m[k].parent is None implies e.roots.contains(k) by {
        assert(d.nodes.contains_key(k));
        if k != node {
            assert(d.roots.contains(k));
        }
    }
    assert forall|k: u64| #[trigger] m.contains_key(k) implies match m[k].parent {
        Some(q) => m.contains_key(q) && m[q].children.contains(k),
        None => true,
    } by {
        assert(d.nodes.contains_key(k));
        if k != node {
            match d.nodes[k].parent {
                Some(q) => {
                    assert(d.nodes.contains_key(q));
                },
                None => {},
            }
        }
    }
    assert forall|k: u64| #[trigger] m.contains_key(k) implies m[k].children.no_duplicates() by {
        assert(d.nodes.contains_key(k));
    }
    assert forall|k: u64, i: int| #[trigger] m.contains_key(k) && 0 <= i < m[k].children.len() implies {
        &&& m.contains_key(#[trigger] m[k].children[i])
        &&& m[m[k].children[i]].parent == Some(k)
    } by {
        assert(d.nodes.contains_key(k));
        let c = m[k].children[i];
        assert(m[k].children.contains(c));
        if c != node {
            assert(d.nodes[k].children.contains(c));
            let q = choose|q: int| 0 <= q < d.nodes[k].children.len() && d.nodes[k].children[q] == c;
            assert(d.nodes.contains_key(d.nodes[k].children[q]));
        } else {
            assert(new_parent == Some(k));
        }
    }
    let base: int = match new_parent { Some(p) => rank(p) + 1int, None => 0int };
    let rank2 = |x: u64| if in_subtree(d.nodes, x, node) { (rank(x) - rank(node) + base) as nat } else { rank(x) };
    assert forall|k: u64| #[trigger] m.contains_key(k) implies match m[k].parent {
        Some(q) => rank2(q) < rank2(k),
        None => true,
    } by {
        assert(d.nodes.contains_key(k));
        lemma_in_subtree_self(d.nodes, node);
        if k == node {
            match new_parent {
                Some(p) => {
                    assert(rank2(p) == rank(p));
                },
                None => {},
            }
        } else {
            lemma_in_subtree_step(d.nodes, k, node);
            match d.nodes[k].parent {
                Some(q) => {
                    assert(d.nodes.contains_key(q));
                    if in_subtree(d.nodes, k, node) {
                        lemma_in_subtree_rank(d.nodes, rank, q, node);
                        lemma_in_subtree_rank(d.nodes, rank, k, node);
                    }
                },
                None => {},
            }
        }
    }
    assert(ranked_by(m, rank2));
}

proof fn lemma_move_node_wf(d: DocView, node: u64, new_parent: Option<u64>, index: Option<usize>, reg: WidgetRegistry)
    requires
        doc_wf(d),
    ensures
        doc_wf(spec_move_node(d, node, new_parent, index, reg).0),
{
    if !d.nodes.contains_key(node) {
    } else if new_parent is Some && !d.nodes.contains_key(new_parent->0) {
    } else if new_parent is Some && (new_parent->0 == node || in_subtree(d.nodes, new_parent->0, node)) {
    } else if d.nodes[node].parent == new_parent {
        match new_parent {
            Some(p) => if d.nodes[p].children.contains(node) {
                let kids = d.nodes[p].children;
                crate::document::lemma_first_index(kids, node);
                let pos = crate::document::first_index(kids, node);
                lemma_reorder_ids(kids, pos, index);
                let r = reorder(kids, pos, index);
                let m = d.nodes.insert(p, with_children(d.nodes[p], r));
                let e = DocView { nodes: m, ..d };
                assert(m.dom() =~= d.nodes.dom());
                assert forall|k: u64| #[trigger] m.contains_key(k) implies match m[k].parent {
                    Some(q) => m.contains_key(q) && m[q].children.contains(k),
                    None => true,
                } by {
                    assert(d.nodes.contains_key(k));
                    match d.nodes[k].parent {
                        Some(q) => {
                            assert(d.nodes.contains_key(q));
                        },
                        None => {},
                    }
                }
                assert forall|k: u64, i: int| #[trigger] m.contains_key(k) && 0 <= i < m[k].children.len() implies {
                    &&& m.contains_key(#[trigger] m[k].children[i])
                    &&& m[m[k].children[i]].parent == Some(k)
                } by {
                    assert(d.nodes.contains_key(k));
                    let c = m[k].children[i];
                    assert(m[k].children.contains(c));
                    assert(d.nodes[k].children.contains(c));
                    let q = choose|q: int| 0 <= q < d.nodes[k].children.len() && d.nodes[k].children[q] == c;
                    assert(d.nodes.contains_key(d.nodes[k].children[q]));
                }
                assert forall|k: u64| #[trigger] m.contains_key(k) implies m[k].children.no_duplicates() by {
                    assert(d.nodes.contains_key(k));
                }
                assert forall|k: u64| #[trigger] m.contains_key(k) implies m[k].id == k && k < e.next_id by {
                    assert(d.nodes.contains_key(k));
                }
                assert forall|i: int| 0 <= i < e.roots.len() implies {
                    &&& m.contains_key(#[trigger] e.roots[i])
                    &&& m[e.roots[i]].parent is None
                } by {
                    assert(d.nodes.contains_key(d.roots[i]));
                }
                assert forall|k: u64| #[trigger] m.contains_key(k) && m[k].parent is None implies e.roots.contains(k) by {
                    assert(d.nodes.contains_key(k));
                }
                let rank = choose|rank: spec_fn(u64) -> nat| ranked_by(d.nodes, rank);
                assert forall|k: u64| #[trigger] m.contains_key(k) implies match m[k].parent {
                    Some(q) => rank(q) < rank(k),
                    None => true,
                } by {
                    assert(d.nodes.contains_key(k));
                }
                assert(ranked_by(m, rank));
                assert(doc_wf(e));
                lemma_refresh_slots_shape(m, p, reg);
                lemma_wf_same_shape(e, refresh_slots(m, p, reg));
                assert(spec_move_node(d, node, new_parent, index, reg).0 == DocView { nodes: refresh_slots(m, p, reg), dirty: true, ..e });
            } else {
            },
            None => if d.roots.contains(node) {
                crate::document::lemma_first_index(d.roots, node);
                let pos = crate::document::first_index(d.roots, node);
                lemma_reorder_ids(d.roots, pos, index);
                let r = reorder(d.roots, pos, index);
                let e = DocView { roots: r, dirty: true, ..d };
                assert forall|i: int| 0 <= i < e.roots.len() implies {
                    &&& e.nodes.contains_key(#[trigger] e.roots[i])
                    &&& e.nodes[e.roots[i]].parent is None
                } by {
                    assert(e.roots.contains(e.roots[i]));
                    let q = choose|q: int| 0 <= q < d.roots.len() && d.roots[q] == e.roots[i];
                    assert(d.nodes.contains_key(d.roots[q]));
                }
                assert forall|k: u64| #[trigger] e.nodes.contains_key(k) && e.nodes[k].parent is None implies e.roots.contains(k) by {
                    assert(d.roots.contains(k));
                }
                assert(doc_wf(e));
            } else {
            },
        }
    } else if new_parent is Some && !crate::document::path_allows(reg, d.nodes[new_parent->0].widget_path, d.nodes[new_parent->0].children.len() + 1int) {
    } else {
        lemma_moved_core_wf(d, node, new_parent, index);
        let e = moved_core(d, node, new_parent, index);
        let nodes4 = match d.nodes[node].parent {
            Some(op) => refresh_slots(e.nodes, op, reg),
            None => e.nodes,
        };
        match d.nodes[node].parent {
            Some(op) => {
                lemma_refresh_slots_shape(e.nodes, op, reg);
                lemma_wf_same_shape(e, nodes4);
            },
            None => {},
        }
        let e4 = DocView { nodes: nodes4, ..e };
        match new_parent {
            Some(p) => {
                lemma_refresh_slots_shape(nodes4, p, reg);
                lemma_wf_same_shape(e4, refresh_slots(nodes4, p, reg));
                assert(spec_move_node(d, node, new_parent, index, reg).0 == DocView { nodes: refresh_slots(nodes4, p, reg), ..e4 });
            },
            None => {
                assert(spec_move_node(d, node, new_parent, index, reg).0 == e4);
            },
        }
    }
}

/// Every command keeps a well-formed document well-formed, as long as ids
/// are left to hand out.
pub proof fn lemma_apply_keeps_wf(d: DocView, c: CommandView, reg: WidgetRegistry)
    requires
        doc_wf(d),
        d.next_id < u64::MAX,
    ensures
        doc_wf(spec_apply(d, c, reg).0),
{
    match c {
        CommandView::AddRoot { widget_path } => lemma_add_root_wf(d, widget_path, reg),
        CommandView::AddChild { parent, widget_path } => lemma_add_child_wf(d, parent, widget_path, reg),
        CommandView::RemoveNode { node } => lemma_remove_node_wf(d, node, reg),
        CommandView::MoveNode { node, new_parent, index } => lemma_move_node_wf(d, node, new_parent, index, reg),
        CommandView::SetNodeStyle { node, style } => if d.nodes.contains_key(node) {
            lemma_update_node_wf(d, node, NodeView { style, ..d.nodes[node] }, true);
        },
        CommandView::SetNodeName { node, name } => if d.nodes.contains_key(node) {
            let n = d.nodes[node];
            let new_name = if crate::text::all_whitespace(name) { crate::text::path_tail(n.widget_path) } else { name };
            lemma_update_node_wf(d, node, NodeView { name: new_name, ..n }, d.dirty);
        },
        CommandView::SetNodeProp { node, key, value } => if d.nodes.contains_key(node) {
            lemma_update_node_wf(d, node, NodeView { props: d.nodes[node].props.insert(key, value), ..d.nodes[node] }, true);
        },
        CommandView::RemoveNodeProp { node, key } => if d.nodes.contains_key(node) {
            lemma_update_node_wf(d, node, NodeView { props: d.nodes[node].props.remove(key), ..d.nodes[node] }, true);
        },
    }
}

/// An added node gets an id that no node had, and is in the document after.
pub proof fn lemma_added_node_is_fresh(d: DocView, c: CommandView, reg: WidgetRegistry)
    requires
        doc_wf(d),
        c is AddRoot || c is AddChild,
        spec_apply(d, c, reg).1 is Ok,
    ensures
        !d.nodes.contains_key(spec_apply(d, c, reg).1->Ok_0),
        spec_apply(d, c, reg).0.nodes.contains_key(spec_apply(d, c, reg).1->Ok_0),
{
    let id = spec_apply(d, c, reg).1->Ok_0;
    assert(id == d.next_id);
    match c {
        CommandView::AddChild { parent, widget_path } => {
            let nodes1 = d.nodes.insert(id, fresh_node(id, widget_path, Some(parent)));
            let nodes2 = nodes1.insert(parent, with_children(nodes1[parent], nodes1[parent].children.push(id)));
            lemma_refresh_slots_shape(nodes2, parent, reg);
        },
        _ => {},
    }
}

/// A property set on a node reads back as set.
pub proof fn lemma_set_prop_reads_back(d: DocView, node: u64, key: Seq<char>, value: Seq<char>, reg: WidgetRegistry)
    requires
        d.nodes.contains_key(node),
    ensures
        spec_apply(d, CommandView::SetNodeProp { node, key, value }, reg).1 == Ok::<u64, crate::document::CommandErrorView>(node),
        spec_apply(d, CommandView::SetNodeProp { node, key, value }, reg).0.nodes[node].props[key] == value,
        spec_apply(d, CommandView::RemoveNodeProp { node, key }, reg).0.nodes[node].props.contains_key(key) == false,
{
}

/// Clearing a property right after setting it leaves the document as
/// clearing it alone would: the value that was set leaves no trace.
pub proof fn lemma_set_then_clear_prop(d: DocView, node: u64, key: Seq<char>, value: Seq<char>, reg: WidgetRegistry)
    ensures
        spec_apply(spec_apply(d, CommandView::SetNodeProp { node, key, value }, reg).0, CommandView::RemoveNodeProp { node, key }, reg)
            == spec_apply(d, CommandView::RemoveNodeProp { node, key }, reg),
{
    if d.nodes.contains_key(node) {
        let n = d.nodes[node];
        let d1 = spec_apply(d, CommandView::SetNodeProp { node, key, value }, reg).0;
        assert(n.props.insert(key, value).remove(key) =~= n.props.remove(key));
        assert(d1.nodes.insert(node, NodeView { props: d1.nodes[node].props.remove(key), ..d1.nodes[node] })
            =~= d.nodes.insert(node, NodeView { props: n.props.remove(key), ..n }));
    }
}

/// Below a node that no node names as parent there is only that node.
proof fn lemma_descends_childless(nodes: Map<u64, NodeView>, x: u64, a: u64, fuel: nat)
    requires
        forall|k: u64| #[trigger] nodes.contains_key(k) ==> nodes[k].parent != Some(a),
        descends(nodes, x, a, fuel),
    ensures
        x == a,
    decreases fuel,
{
    if x != a {
        let p = nodes[x].parent->0;
        lemma_descends_childless(nodes, p, a, (fuel - 1) as nat);
        assert(false);
    }
}


/// Adding a root and removing it again gives back the nodes and roots.
pub proof fn lemma_add_root_then_remove(d: DocView, path: Seq<char>, reg: WidgetRegistry)
    requires
        doc_wf(d),
        d.next_id < u64::MAX,
        reg.lookup(path) is Some,
    ensures
        ({
            let (d1, r1) = spec_apply(d, CommandView::AddRoot { widget_path: path }, reg);
            let (d2, r2) = spec_apply(d1, CommandView::RemoveNode { node: r1->Ok_0 }, reg);
            &&& r2 == r1
            &&& d2.nodes == d.nodes
            &&& d2.roots == d.roots
        }),
{
    let id = d.next_id;
    let (d1, r1) = spec_apply(d, CommandView::AddRoot { widget_path: path }, reg);
    lemma_add_root_wf(d, path, reg);
    assert(d1.nodes.contains_key(id));
    lemma_removal_in_forest(d1, id);
    assert(!d.nodes.contains_key(id));
    assert(!d.roots.contains(id));
    assert forall|k: u64| #[trigger] d1.nodes.contains_key(k) implies d1.nodes[k].parent != Some(id) by {
        if k != id {
            assert(d.nodes.contains_key(k));
            match d.nodes[k].parent {
                Some(p) => {
                    assert(d.nodes.contains_key(p));
                },
                None => {},
            }
        }
    }
    let sub = subtree_of(d1.nodes, id);
    assert forall|x: u64| sub.contains(x) implies x == id by {
        let f = choose|f: nat| descends(d1.nodes, x, id, f);
        lemma_descends_childless(d1.nodes, x, id, f);
    }
    lemma_in_subtree_self(d1.nodes, id);
    assert(d1.nodes.remove_keys(sub) =~= d.nodes);
    lemma_without_ids(d1.roots, id);
    lemma_without_ids(d.roots, id);
    assert(d1.roots == d.roots.push(id));
    assert(without(d1.roots, id) =~= without(d.roots, id)) by {
        reveal(Seq::filter);
        assert(d1.roots.drop_last() =~= d.roots);
    }
}

/// Moving a node keeps the same nodes in the document.
pub proof fn lemma_move_keeps_nodes(d: DocView, node: u64, new_parent: Option<u64>, index: Option<usize>, reg: WidgetRegistry)
    requires
        doc_wf(d),
    ensures
        spec_apply(d, CommandView::MoveNode { node, new_parent, index }, reg).0.nodes.dom() == d.nodes.dom(),
{
    let e = spec_apply(d, CommandView::MoveNode { node, new_parent, index }, reg).0;
    lemma_move_node_wf(d, node, new_parent, index, reg);
    if d.nodes.contains_key(node) && !(new_parent is Some && !d.nodes.contains_key(new_parent->0)) {
        if d.nodes[node].parent == new_parent {
            match new_parent {
                Some(p) => if d.nodes[p].children.contains(node) {
                    let kids = reorder(d.nodes[p].children, crate::document::first_index(d.nodes[p].children, node), index);
                    let m = d.nodes.insert(p, with_children(d.nodes[p], kids));
                    lemma_refresh_slots_shape(m, p, reg);
                    assert(m.dom() =~= d.nodes.dom());
                },
                None => {},
            }
        } else if !(new_parent is Some && (new_parent->0 == node || in_subtree(d.nodes, new_parent->0, node))) {
            let c = moved_core(d, node, new_parent, index);
            assert(c.nodes.dom() =~= d.nodes.dom()) by {
                match d.nodes[node].parent {
                    Some(op) => {
                        assert(d.nodes.contains_key(op));
                    },
                    None => {},
                }
            }
            let nodes4 = match d.nodes[node].parent {
                Some(op) => refresh_slots(c.nodes, op, reg),
                None => c.nodes,
            };
            match d.nodes[node].parent {
                Some(op) => lemma_refresh_slots_shape(c.nodes, op, reg),
                None => {},
            }
            match new_parent {
                Some(p) => lemma_refresh_slots_shape(nodes4, p, reg),
                None => {},
            }
        }
    }
}

/// Removing a node takes out exactly the node and everything below it.
pub proof fn lemma_remove_takes_subtree(d: DocView, node: u64, reg: WidgetRegistry)
    requires
        doc_wf(d),
        d.nodes.contains_key(node),
    ensures
        spec_apply(d, CommandView::RemoveNode { node }, reg).0.nodes.dom() == d.nodes.dom().difference(subtree_of(d.nodes, node)),
        !spec_apply(d, CommandView::RemoveNode { node }, reg).0.roots.contains(node),
{
    lemma_removed_core_wf(d, node);
    lemma_removal_in_forest(d, node);
    let e = removed_core(d, node);
    assert(e.nodes.dom() =~= d.nodes.dom().difference(subtree_of(d.nodes, node)));
    match d.nodes[node].parent {
        Some(p) => {
            lemma_refresh_slots_shape(e.nodes, p, reg);
            if d.roots.contains(node) {
                let i = choose|i: int| 0 <= i < d.roots.len() && d.roots[i] == node;
                assert(d.nodes[d.roots[i]].parent is None);
            }
        },
        None => {
            lemma_without_ids(d.roots, node);
        },
    }
}

/// The children of `p` carry the slots its registration names, each the
/// slot of its place (when `p`'s widget is registered).
pub open spec fn children_slotted(m: Map<u64, NodeView>, p: u64, reg: WidgetRegistry) -> bool {
    reg.lookup(m[p].widget_path) matches Some(r) ==> forall|i: int| 0 <= i < m[p].children.len()
        ==> m[#[trigger] m[p].children[i]].slot == slot_at(r.child_slots, i)
}

proof fn lemma_fold_slots_fresh(m: Map<u64, NodeView>, kids: Seq<u64>, slots: Seq<Seq<char>>, n: nat)
    requires
        kids.no_duplicates(),
        n <= kids.len(),
        forall|j: int| 0 <= j < kids.len() ==> m.contains_key(#[trigger] kids[j]),
    ensures
        forall|j: int| 0 <= j < n ==> fold_slots(m, kids, slots, n)[#[trigger] kids[j]].slot == slot_at(slots, j),
    decreases n,
{
    if n > 0 {
        lemma_fold_slots_fresh(m, kids, slots, (n - 1) as nat);
        lemma_fold_slots_shape(m, kids, slots, (n - 1) as nat);
        let m1 = fold_slots(m, kids, slots, (n - 1) as nat);
        assert(m1.contains_key(kids[n - 1]));
        assert forall|j: int| 0 <= j < n implies fold_slots(m, kids, slots, n)[#[trigger] kids[j]].slot == slot_at(slots, j) by {
            if j < n - 1 {
                assert(kids[j] != kids[n - 1]);
            }
        }
    }
}

/// Giving `p`'s children their slots gives each the slot of its place.
proof fn lemma_refresh_slots_fresh(m: Map<u64, NodeView>, p: u64, reg: WidgetRegistry)
    requires
        m.contains_key(p),
        m[p].children.no_duplicates(),
        forall|i: int| 0 <= i < m[p].children.len() ==> m.contains_key(#[trigger] m[p].children[i]),
    ensures
        children_slotted(refresh_slots(m, p, reg), p, reg),
{
    lemma_refresh_slots_shape(m, p, reg);
    let m2 = refresh_slots(m, p, reg);
    assert(m2[p].children == m[p].children);
    if reg.lookup(m[p].widget_path) is Some {
        let kids = m[p].children;
        lemma_fold_slots_fresh(m, kids, reg.lookup(m[p].widget_path)->0.child_slots, kids.len());
    }
}

/// A well-formed document whose nodes are `x` with `p`'s children given
/// their slots has `p`'s children slotted.
proof fn lemma_refreshed_in_wf(e: DocView, x: Map<u64, NodeView>, p: u64, reg: WidgetRegistry)
    requires
        doc_wf(e),
        x.contains_key(p),
        e.nodes == refresh_slots(x, p, reg),
    ensures
        e.nodes.contains_key(p),
        children_slotted(e.nodes, p, reg),
{
    lemma_refresh_slots_shape(x, p, reg);
    assert(e.nodes.contains_key(p));
    assert forall|i: int| 0 <= i < x[p].children.len() implies x.contains_key(#[trigger] x[p].children[i]) by {
        assert(e.nodes[p].children[i] == x[p].children[i]);
        assert(e.nodes.contains_key(e.nodes[p].children[i]));
    }
    lemma_refresh_slots_fresh(x, p, reg);
}

/// A command that changes which children a node lists gives those children
/// the slots of their places: the parent a child is added under, the parent
/// a node is moved or reordered under, and the parent a node is removed
/// from.
pub proof fn lemma_changed_children_get_their_slots(d: DocView, c: CommandView, reg: WidgetRegistry, p: u64)
    requires
        doc_wf(d),
        d.next_id < u64::MAX,
        spec_apply(d, c, reg).1 is Ok,
        match c {
            CommandView::AddChild { parent, .. } => p == parent,
            CommandView::MoveNode { new_parent, .. } => new_parent == Some(p),
            CommandView::RemoveNode { node } => d.nodes.contains_key(node) && d.nodes[node].parent == Some(p),
            _ => false,
        },
    ensures
        spec_apply(d, c, reg).0.nodes.contains_key(p),
        children_slotted(spec_apply(d, c, reg).0.nodes, p, reg),
{
    let e = spec_apply(d, c, reg).0;
    lemma_apply_keeps_wf(d, c, reg);
    match c {
        CommandView::AddChild { parent, widget_path } => {
            let id = d.next_id;
            let nodes1 = d.nodes.insert(id, fresh_node(id, widget_path, Some(parent)));
            let nodes2 = nodes1.insert(parent, with_children(nodes1[parent], nodes1[parent].children.push(id)));
            lemma_refreshed_in_wf(e, nodes2, parent, reg);
        },
        CommandView::MoveNode { node, new_parent, index } => {
            if d.nodes[node].parent == new_parent {
                assert(d.nodes[p].children.contains(node));
                let kids = reorder(d.nodes[p].children, crate::document::first_index(d.nodes[p].children, node), index);
                let nodes1 = d.nodes.insert(p, with_children(d.nodes[p], kids));
                lemma_refreshed_in_wf(e, nodes1, p, reg);
            } else {
                let core = moved_core(d, node, new_parent, index);
                let nodes4 = match d.nodes[node].parent {
                    Some(op) => refresh_slots(core.nodes, op, reg),
                    None => core.nodes,
                };
                match d.nodes[node].parent {
                    Some(op) => lemma_refresh_slots_shape(core.nodes, op, reg),
                    None => {},
                }
                assert(core.nodes.contains_key(p));
                lemma_refreshed_in_wf(e, nodes4, p, reg);
            }
        },
        CommandView::RemoveNode { node } => {
            lemma_removal_in_forest(d, node);
            let core = removed_core(d, node);
            lemma_removed_core_wf(d, node);
            assert(e.nodes == refresh_slots(core.nodes, p, reg));
            lemma_refreshed_in_wf(e, core.nodes, p, reg);
        },
        _ => {},
    }
}

/// Every node's children carry the slots of their places.
pub open spec fn all_slotted(m: Map<u64, NodeView>, reg: WidgetRegistry) -> bool {
    forall|k: u64| #[trigger] m.contains_key(k) ==> children_slotted(m, k, reg)
}

/// `k` has the same widget path and children in `m2` as in `m1`, and each
/// of those children has the same slot.
pub open spec fn slots_kept(m1: Map<u64, NodeView>, m2: Map<u64, NodeView>, k: u64) -> bool {
    &&& m2.contains_key(k)
    &&& m2[k].widget_path == m1[k].widget_path
    &&& m2[k].children == m1[k].children
    &&& forall|i: int| 0 <= i < m1[k].children.len() ==> m2[#[trigger] m1[k].children[i]].slot == m1[m1[k].children[i]].slot
}

proof fn lemma_slots_kept(m1: Map<u64, NodeView>, m2: Map<u64, NodeView>, k: u64, reg: WidgetRegistry)
    requires
        children_slotted(m1, k, reg),
        slots_kept(m1, m2, k),
    ensures
        children_slotted(m2, k, reg),
{
    if reg.lookup(m2[k].widget_path) is Some {
        let r = reg.lookup(m2[k].widget_path)->0;
        assert forall|i: int| 0 <= i < m2[k].children.len() implies m2[#[trigger] m2[k].children[i]].slot == slot_at(r.child_slots, i) by {
            assert(m1[k].children[i] == m2[k].children[i]);
        }
    }
}

/// Giving slots to `kids` changes nothing but the slots of `kids`.
proof fn lemma_fold_slots_frame(m: Map<u64, NodeView>, kids: Seq<u64>, slots: Seq<Seq<char>>, n: nat)
    ensures
        forall|k: u64| #[trigger] m.contains_key(k) ==> fold_slots(m, kids, slots, n)[k] == (NodeView { slot: fold_slots(m, kids, slots, n)[k].slot, ..m[k] }),
        forall|k: u64| m.contains_key(k) && !kids.contains(k) ==> #[trigger] fold_slots(m, kids, slots, n)[k] == m[k],
    decreases n,
{
    if n == 0 || n > kids.len() {
    } else {
        lemma_fold_slots_frame(m, kids, slots, (n - 1) as nat);
        lemma_fold_slots_shape(m, kids, slots, (n - 1) as nat);
        let m1 = fold_slots(m, kids, slots, (n - 1) as nat);
        let x = kids[n - 1];
        assert(kids.contains(x));
        assert forall|k: u64| #[trigger] m.contains_key(k) implies fold_slots(m, kids, slots, n)[k] == NodeView { slot: fold_slots(m, kids, slots, n)[k].slot, ..m[k] } by {
            assert(m1.contains_key(k));
        }
        assert forall|k: u64| m.contains_key(k) && !kids.contains(k) implies #[trigger] fold_slots(m, kids, slots, n)[k] == m[k] by {
            assert(m1.contains_key(k));
            assert(k != x);
        }
    }
}

/// In a well-formed document made by giving `p`'s children their slots,
/// any other node keeps its widget path, children and children's slots.
proof fn lemma_refresh_keeps_others(e: DocView, x: Map<u64, NodeView>, p: u64, reg: WidgetRegistry, k: u64)
    requires
        doc_wf(e),
        e.nodes == refresh_slots(x, p, reg),
        x.contains_key(k),
        k != p,
    ensures
        slots_kept(x, e.nodes, k),
{
    lemma_refresh_slots_shape(x, p, reg);
    if x.contains_key(p) && reg.lookup(x[p].widget_path) is Some {
        let kids = x[p].children;
        lemma_fold_slots_frame(x, kids, reg.lookup(x[p].widget_path)->0.child_slots, kids.len());
        assert(e.nodes[k] == NodeView { slot: e.nodes[k].slot, ..x[k] });
        assert forall|i: int| 0 <= i < x[k].children.len() implies e.nodes[#[trigger] x[k].children[i]].slot == x[x[k].children[i]].slot by {
            let c = x[k].children[i];
            assert(e.nodes[k].children[i] == c);
            assert(e.nodes.contains_key(c) && e.nodes[c].parent == Some(k));
            assert(x.contains_key(c));
            if kids.contains(c) {
                let j = choose|j: int| 0 <= j < kids.len() && kids[j] == c;
                assert(e.nodes[p].children[j] == c);
                assert(e.nodes[c].parent == Some(p));
            }
        }
    }
}

/// A new node has no children, so its children carry their slots.
proof fn lemma_childless_slotted(m: Map<u64, NodeView>, k: u64, reg: WidgetRegistry)
    requires
        m[k].children.len() == 0,
    ensures
        children_slotted(m, k, reg),
{
}

/// Every command keeps every node's children in the slots of their places:
/// on a well-formed document where each child carries the slot its parent's
/// registration names for its place, each still does after the command,
/// whether it was carried out or refused.
pub proof fn lemma_commands_keep_children_slotted(d: DocView, c: CommandView, reg: WidgetRegistry)
    requires
        doc_wf(d),
        d.next_id < u64::MAX,
        all_slotted(d.nodes, reg),
    ensures
        all_slotted(spec_apply(d, c, reg).0.nodes, reg),
{
    let (e, r) = spec_apply(d, c, reg);
    lemma_apply_keeps_wf(d, c, reg);
    lemma_refused_command_changes_nothing(d, c, reg);
    if r is Err {
        assert(e == d);
    } else {
    match c {
        CommandView::AddRoot { widget_path } => {
            let id = d.next_id;
            assert(!d.nodes.contains_key(id));
            assert forall|k: u64| #[trigger] e.nodes.contains_key(k) implies children_slotted(e.nodes, k, reg) by {
                if k == id {
                    lemma_childless_slotted(e.nodes, k, reg);
                } else {
                    assert(children_slotted(d.nodes, k, reg));
                    assert forall|i: int| 0 <= i < d.nodes[k].children.len() implies e.nodes[#[trigger] d.nodes[k].children[i]].slot == d.nodes[d.nodes[k].children[i]].slot by {
                        assert(d.nodes.contains_key(d.nodes[k].children[i]));
                    }
                    lemma_slots_kept(d.nodes, e.nodes, k, reg);
                }
            }
        },
        CommandView::AddChild { parent, widget_path } => {
            let id = d.next_id;
            assert(!d.nodes.contains_key(id));
            let nodes1 = d.nodes.insert(id, fresh_node(id, widget_path, Some(parent)));
            let nodes2 = nodes1.insert(parent, with_children(nodes1[parent], nodes1[parent].children.push(id)));
            assert forall|k: u64| #[trigger] e.nodes.contains_key(k) implies children_slotted(e.nodes, k, reg) by {
                lemma_refresh_slots_shape(nodes2, parent, reg);
                if k == parent {
                    lemma_refreshed_in_wf(e, nodes2, parent, reg);
                } else if k == id {
                    lemma_childless_slotted(e.nodes, k, reg);
                } else {
                    assert(children_slotted(d.nodes, k, reg));
                    assert forall|i: int| 0 <= i < d.nodes[k].children.len() implies nodes2[#[trigger] d.nodes[k].children[i]].slot == d.nodes[d.nodes[k].children[i]].slot by {
                        assert(d.nodes.contains_key(d.nodes[k].children[i]));
                    }
                    lemma_slots_kept(d.nodes, nodes2, k, reg);
                    lemma_refresh_keeps_others(e, nodes2, parent, reg, k);
                    lemma_slots_kept(nodes2, e.nodes, k, reg);
                }
            }
        },
        CommandView::RemoveNode { node } => {
            lemma_removal_in_forest(d, node);
            lemma_removed_core_wf(d, node);
            lemma_reach_is_subtree(d, node);
            lemma_in_subtree_self(d.nodes, node);
            let core = removed_core(d, node);
            let sub = subtree_of(d.nodes, node);
            let parent = d.nodes[node].parent;
            match parent {
                Some(p) => lemma_refresh_slots_shape(core.nodes, p, reg),
                None => {},
            }
            assert forall|k: u64| #[trigger] e.nodes.contains_key(k) implies children_slotted(e.nodes, k, reg) by {
                assert(core.nodes.contains_key(k));
                assert(d.nodes.contains_key(k) && !sub.contains(k));
                if parent == Some(k) {
                    lemma_changed_children_get_their_slots(d, c, reg, k);
                } else {
                    assert(children_slotted(d.nodes, k, reg));
                    assert forall|i: int| 0 <= i < d.nodes[k].children.len() implies core.nodes[#[trigger] d.nodes[k].children[i]].slot == d.nodes[d.nodes[k].children[i]].slot by {
                        let ch = d.nodes[k].children[i];
                        assert(d.nodes.contains_key(ch) && d.nodes[ch].parent == Some(k));
                        if sub.contains(ch) {
                            if ch != node {
                                lemma_in_subtree_step(d.nodes, ch, node);
                            }
                        }
                        assert(!sub.contains(ch));
                    }
                    lemma_slots_kept(d.nodes, core.nodes, k, reg);
                    match parent {
                        Some(p) => {
                            lemma_refresh_keeps_others(e, core.nodes, p, reg, k);
                            lemma_slots_kept(core.nodes, e.nodes, k, reg);
                        },
                        None => {},
                    }
                }
            }
        },
        CommandView::MoveNode { node, new_parent, index } => {
            if d.nodes[node].parent == new_parent {
                match new_parent {
                    Some(p) => {
                        assert(d.nodes[p].children.contains(node));
                        let kids = reorder(d.nodes[p].children, crate::document::first_index(d.nodes[p].children, node), index);
                        let nodes1 = d.nodes.insert(p, with_children(d.nodes[p], kids));
                        lemma_refresh_slots_shape(nodes1, p, reg);
                        assert forall|k: u64| #[trigger] e.nodes.contains_key(k) implies children_slotted(e.nodes, k, reg) by {
                            if k == p {
                                lemma_changed_children_get_their_slots(d, c, reg, k);
                            } else {
                                assert(children_slotted(d.nodes, k, reg));
                                assert forall|i: int| 0 <= i < d.nodes[k].children.len() implies nodes1[#[trigger] d.nodes[k].children[i]].slot == d.nodes[d.nodes[k].children[i]].slot by {
                                    assert(d.nodes.contains_key(d.nodes[k].children[i]));
                                }
                                lemma_slots_kept(d.nodes, nodes1, k, reg);
                                lemma_refresh_keeps_others(e, nodes1, p, reg, k);
                                lemma_slots_kept(nodes1, e.nodes, k, reg);
                            }
                        }
                    },
                    None => {
                        assert(e.nodes == d.nodes);
                    },
                }
            } else {
                let op = d.nodes[node].parent;
                lemma_moved_core_wf(d, node, new_parent, index);
                let core = moved_core(d, node, new_parent, index);
                let nodes3 = core.nodes;
                let nodes4 = match op {
                    Some(o) => refresh_slots(nodes3, o, reg),
                    None => nodes3,
                };
                let mid = DocView { nodes: nodes4, ..core };
                match op {
                    Some(o) => {
                        lemma_refresh_slots_shape(nodes3, o, reg);
                        assert(same_shape(core.nodes, nodes4));
                        lemma_wf_same_shape(core, nodes4);
                    },
                    None => {},
                }
                match new_parent {
                    Some(p) => lemma_refresh_slots_shape(nodes4, p, reg),
                    None => {},
                }
                assert(e.nodes == match new_parent { Some(p) => refresh_slots(nodes4, p, reg), None => nodes4 });
                assert forall|k: u64| #[trigger] e.nodes.contains_key(k) implies children_slotted(e.nodes, k, reg) by {
                    assert(nodes3.contains_key(k) && d.nodes.contains_key(k));
                    if new_parent == Some(k) {
                        lemma_changed_children_get_their_slots(d, c, reg, k);
                    } else {
                        if op == Some(k) {
                            lemma_refreshed_in_wf(mid, nodes3, k, reg);
                        } else {
                            assert(children_slotted(d.nodes, k, reg));
                            assert forall|i: int| 0 <= i < d.nodes[k].children.len() implies nodes3[#[trigger] d.nodes[k].children[i]].slot == d.nodes[d.nodes[k].children[i]].slot by {
                                let ch = d.nodes[k].children[i];
                                assert(d.nodes.contains_key(ch) && d.nodes[ch].parent == Some(k));
                            }
                            lemma_slots_kept(d.nodes, nodes3, k, reg);
                            match op {
                                Some(o) => {
                                    lemma_refresh_keeps_others(mid, nodes3, o, reg, k);
                                    lemma_slots_kept(nodes3, nodes4, k, reg);
                                },
                                None => {},
                            }
                        }
                        match new_parent {
                            Some(p) => {
                                lemma_refresh_keeps_others(e, nodes4, p, reg, k);
                                lemma_slots_kept(nodes4, e.nodes, k, reg);
                            },
                            None => {},
                        }
                    }
                }
            }
        },
        _ => {
            assert forall|k: u64| #[trigger] e.nodes.contains_key(k) implies children_slotted(e.nodes, k, reg) by {
                assert(d.nodes.contains_key(k));
                assert(children_slotted(d.nodes, k, reg));
                assert forall|i: int| 0 <= i < d.nodes[k].children.len() implies e.nodes[#[trigger] d.nodes[k].children[i]].slot == d.nodes[d.nodes[k].children[i]].slot by {
                    assert(d.nodes.contains_key(d.nodes[k].children[i]));
                }
                lemma_slots_kept(d.nodes, e.nodes, k, reg);
            }
        },
    }
    }
}

} // verus!
