//! What a walk over a well-formed document does: driven until it has no
//! step left, it spawns every node exactly once, each after its parent.
use vstd::prelude::*;
use crate::document::{DocView, doc_wf, ranked_by, in_subtree, lemma_in_subtree_step, lemma_in_subtree_self, lemma_in_subtree_rank};
use crate::spawn::{BuildStep, WidgetSpawnResult, root_steps, child_steps};

verus! {

/// `x` lies in the subtree of the node of some pending step.
pub open spec fn under_pending(d: DocView, p: Seq<BuildStep>, x: u64) -> bool {
    exists|i: int| 0 <= i < p.len() && #[trigger] in_subtree(d.nodes, x, p[i].node)
}

/// The parent of `x`, if it has one, is among `visited`.
pub open spec fn parent_visited(d: DocView, visited: Set<u64>, x: u64) -> bool {
    match d.nodes[x].parent {
        Some(q) => visited.contains(q),
        None => true,
    }
}

/// The pending steps `p` of a walk that has spawned `visited` account for
/// the rest of the document: each pending node is a node of it; the
/// subtrees of the pending nodes do not overlap each other nor what was
/// spawned; together with what was spawned they are the whole document;
/// and each pending node's parent was spawned already.
pub open spec fn walk_covers(d: DocView, visited: Set<u64>, p: Seq<BuildStep>) -> bool {
    &&& forall|i: int| 0 <= i < p.len() ==> d.nodes.contains_key(#[trigger] p[i].node)
    &&& forall|i: int, j: int, x: u64|
        0 <= i < p.len() && 0 <= j < p.len() && i != j && #[trigger] in_subtree(d.nodes, x, p[i].node)
            ==> !#[trigger] in_subtree(d.nodes, x, p[j].node)
    &&& forall|i: int, x: u64| 0 <= i < p.len() && #[trigger] in_subtree(d.nodes, x, p[i].node) ==> !visited.contains(x)
    &&& forall|x: u64| #[trigger] visited.contains(x) ==> d.nodes.contains_key(x)
    &&& forall|x: u64| #[trigger] d.nodes.contains_key(x) ==> visited.contains(x) || under_pending(d, p, x)
    &&& forall|i: int| 0 <= i < p.len() ==> parent_visited(d, visited, #[trigger] p[i].node)
}

/// Below a child of `x` is below `x`.
proof fn lemma_below_child_below_parent(d: DocView, rank: spec_fn(u64) -> nat, y: u64, c: u64, x: u64)
    requires
        doc_wf(d),
        ranked_by(d.nodes, rank),
        d.nodes.contains_key(c),
        d.nodes[c].parent == Some(x),
        in_subtree(d.nodes, y, c),
    ensures
        in_subtree(d.nodes, y, x),
    decreases rank(y),
{
    lemma_in_subtree_self(d.nodes, x);
    if y == x {
    } else if y == c {
        lemma_in_subtree_step(d.nodes, c, x);
    } else {
        lemma_in_subtree_step(d.nodes, y, c);
        let q = d.nodes[y].parent->0;
        lemma_below_child_below_parent(d, rank, q, c, x);
        lemma_in_subtree_step(d.nodes, y, x);
    }
}

/// A node below `x`, other than `x`, is below one of its children; the
/// index of that child.
proof fn lemma_below_some_child(d: DocView, rank: spec_fn(u64) -> nat, y: u64, x: u64) -> (k: int)
    requires
        doc_wf(d),
        ranked_by(d.nodes, rank),
        d.nodes.contains_key(x),
        in_subtree(d.nodes, y, x),
        y != x,
    ensures
        0 <= k < d.nodes[x].children.len(),
        in_subtree(d.nodes, y, d.nodes[x].children[k]),
    decreases rank(y),
{
    lemma_in_subtree_step(d.nodes, y, x);
    let q = d.nodes[y].parent->0;
    if q == x {
        assert(d.nodes[x].children.contains(y));
        let k = choose|k: int| 0 <= k < d.nodes[x].children.len() && d.nodes[x].children[k] == y;
        lemma_in_subtree_self(d.nodes, y);
        k
    } else {
        let k = lemma_below_some_child(d, rank, q, x);
        let c = d.nodes[x].children[k];
        if y != c {
            lemma_in_subtree_step(d.nodes, y, c);
        }
        k
    }
}

/// Two nodes above a common node lie one above the other.
proof fn lemma_common_below(d: DocView, rank: spec_fn(u64) -> nat, y: u64, a: u64, b: u64)
    requires
        ranked_by(d.nodes, rank),
        in_subtree(d.nodes, y, a),
        in_subtree(d.nodes, y, b),
    ensures
        in_subtree(d.nodes, a, b) || in_subtree(d.nodes, b, a),
    decreases rank(y),
{
    if y != a && y != b {
        lemma_in_subtree_step(d.nodes, y, a);
        lemma_in_subtree_step(d.nodes, y, b);
        let q = d.nodes[y].parent->0;
        lemma_common_below(d, rank, q, a, b);
    }
}

/// A node is not below its own child.
proof fn lemma_not_below_child(d: DocView, rank: spec_fn(u64) -> nat, x: u64, c: u64)
    requires
        ranked_by(d.nodes, rank),
        d.nodes.contains_key(c),
        d.nodes[c].parent == Some(x),
    ensures
        !in_subtree(d.nodes, x, c),
{
    if in_subtree(d.nodes, x, c) {
        lemma_in_subtree_rank(d.nodes, rank, x, c);
    }
}

/// The subtrees of two different children of one node do not overlap.
proof fn lemma_siblings_apart(d: DocView, rank: spec_fn(u64) -> nat, y: u64, c1: u64, c2: u64, x: u64)
    requires
        ranked_by(d.nodes, rank),
        d.nodes.contains_key(c1),
        d.nodes.contains_key(c2),
        d.nodes[c1].parent == Some(x),
        d.nodes[c2].parent == Some(x),
        c1 != c2,
        in_subtree(d.nodes, y, c1),
    ensures
        !in_subtree(d.nodes, y, c2),
{
    if in_subtree(d.nodes, y, c2) {
        lemma_common_below(d, rank, y, c1, c2);
        if in_subtree(d.nodes, c1, c2) {
            lemma_in_subtree_step(d.nodes, c1, c2);
            lemma_not_below_child(d, rank, x, c2);
        } else {
            lemma_in_subtree_step(d.nodes, c2, c1);
            lemma_not_below_child(d, rank, x, c1);
        }
    }
}

/// The subtrees of two different nodes without parent do not overlap.
proof fn lemma_tops_apart(d: DocView, rank: spec_fn(u64) -> nat, y: u64, r1: u64, r2: u64)
    requires
        ranked_by(d.nodes, rank),
        d.nodes.contains_key(r1),
        d.nodes.contains_key(r2),
        d.nodes[r1].parent is None,
        d.nodes[r2].parent is None,
        r1 != r2,
        in_subtree(d.nodes, y, r1),
    ensures
        !in_subtree(d.nodes, y, r2),
{
    if in_subtree(d.nodes, y, r2) {
        lemma_common_below(d, rank, y, r1, r2);
        lemma_in_subtree_step(d.nodes, r1, r2);
        lemma_in_subtree_step(d.nodes, r2, r1);
    }
}

/// Every node lies below one of the roots; the index of that root.
proof fn lemma_below_some_root(d: DocView, rank: spec_fn(u64) -> nat, y: u64) -> (k: int)
    requires
        doc_wf(d),
        ranked_by(d.nodes, rank),
        d.nodes.contains_key(y),
    ensures
        0 <= k < d.roots.len(),
        in_subtree(d.nodes, y, d.roots[k]),
    decreases rank(y),
{
    match d.nodes[y].parent {
        None => {
            assert(d.roots.contains(y));
            let k = choose|k: int| 0 <= k < d.roots.len() && d.roots[k] == y;
            lemma_in_subtree_self(d.nodes, y);
            k
        },
        Some(q) => {
            let k = lemma_below_some_root(d, rank, q);
            if y != d.roots[k] {
                lemma_in_subtree_step(d.nodes, y, d.roots[k]);
            }
            k
        },
    }
}

/// A walk started on a well-formed document has spawned nothing, and its
/// steps, one per root, account for the whole document.
pub proof fn lemma_walk_start(d: DocView, container: u64)
    requires
        doc_wf(d),
    ensures
        walk_covers(d, Set::empty(), root_steps(d.roots, container).reverse()),
{
    let rank = choose|rank: spec_fn(u64) -> nat| ranked_by(d.nodes, rank);
    let rs = root_steps(d.roots, container);
    let p = rs.reverse();
    let len = d.roots.len() as int;
    assert forall|i: int| 0 <= i < p.len() implies p[i].node == d.roots[len - 1 - i] && d.nodes.contains_key(#[trigger] p[i].node) by {
        assert(p[i] == rs[len - 1 - i]);
    }
    assert forall|i: int, j: int, x: u64|
        0 <= i < p.len() && 0 <= j < p.len() && i != j && #[trigger] in_subtree(d.nodes, x, p[i].node)
        implies !#[trigger] in_subtree(d.nodes, x, p[j].node) by {
        assert(p[i].node == d.roots[len - 1 - i]);
        assert(p[j].node == d.roots[len - 1 - j]);
        lemma_tops_apart(d, rank, x, p[i].node, p[j].node);
    }
    assert forall|x: u64| #[trigger] d.nodes.contains_key(x) implies Set::<u64>::empty().contains(x) || under_pending(d, p, x) by {
        let k = lemma_below_some_root(d, rank, x);
        let i = len - 1 - k;
        assert(p[i].node == d.roots[k]);
        assert(in_subtree(d.nodes, x, p[i].node));
    }
    assert forall|i: int| 0 <= i < p.len() implies parent_visited(d, Set::empty(), #[trigger] p[i].node) by {
        assert(p[i].node == d.roots[len - 1 - i]);
    }
}

/// The steps after the next one is taken from `p` and the children of its
/// node are put in line.
pub open spec fn next_pending(d: DocView, p: Seq<BuildStep>, spawn: WidgetSpawnResult) -> Seq<BuildStep> {
    p.drop_last() + child_steps(d, p.last().node, spawn).reverse()
}

/// The steps below the taken one stay; above them come its children, the
/// last child lowest.
proof fn lemma_next_pending_shape(d: DocView, visited: Set<u64>, p: Seq<BuildStep>, spawn: WidgetSpawnResult)
    requires
        doc_wf(d),
        walk_covers(d, visited, p),
        p.len() > 0,
    ensures
        d.nodes.contains_key(p.last().node),
        next_pending(d, p, spawn).len() == p.len() - 1 + d.nodes[p.last().node].children.len(),
        forall|i: int| 0 <= i < p.len() - 1 ==> #[trigger] next_pending(d, p, spawn)[i] == p[i],
        forall|i: int| p.len() - 1 <= i < next_pending(d, p, spawn).len() ==> {
            let k = p.len() - 1 + d.nodes[p.last().node].children.len() - 1 - i;
            &&& 0 <= k < d.nodes[p.last().node].children.len()
            &&& #[trigger] next_pending(d, p, spawn)[i].node == d.nodes[p.last().node].children[k]
            &&& d.nodes.contains_key(d.nodes[p.last().node].children[k])
            &&& d.nodes[d.nodes[p.last().node].children[k]].parent == Some(p.last().node)
        },
{
    let top = p.len() - 1;
    assert(p[top] == p.last());
    let x = p.last().node;
    let kids = d.nodes[x].children;
    let m = kids.len() as int;
    let cs = child_steps(d, x, spawn);
    let q = next_pending(d, p, spawn);
    assert forall|i: int| top <= i < q.len() implies {
        let k = top + m - 1 - i;
        &&& 0 <= k < m
        &&& #[trigger] q[i].node == kids[k]
        &&& d.nodes.contains_key(kids[k])
        &&& d.nodes[kids[k]].parent == Some(x)
    } by {
        assert(q[i] == cs[m - 1 - (i - top)]);
    }
}

/// After a step, every pending step is a node of the document and its
/// parent was spawned.
proof fn lemma_step_nodes(d: DocView, visited: Set<u64>, p: Seq<BuildStep>, spawn: WidgetSpawnResult)
    requires
        doc_wf(d),
        walk_covers(d, visited, p),
        p.len() > 0,
    ensures
        forall|i: int| 0 <= i < next_pending(d, p, spawn).len() ==> d.nodes.contains_key(#[trigger] next_pending(d, p, spawn)[i].node),
        forall|i: int| 0 <= i < next_pending(d, p, spawn).len() ==>
            parent_visited(d, visited.insert(p.last().node), #[trigger] next_pending(d, p, spawn)[i].node),
{
    lemma_next_pending_shape(d, visited, p, spawn);
    let q = next_pending(d, p, spawn);
    let top = p.len() - 1;
    assert forall|i: int| 0 <= i < q.len() implies d.nodes.contains_key(#[trigger] q[i].node)
        && parent_visited(d, visited.insert(p.last().node), q[i].node) by {
        if i < top {
            assert(q[i] == p[i]);
            assert(parent_visited(d, visited, p[i].node));
        }
    }
}

/// After a step, the subtrees of the pending steps still do not overlap.
proof fn lemma_step_apart(d: DocView, visited: Set<u64>, p: Seq<BuildStep>, spawn: WidgetSpawnResult)
    requires
        doc_wf(d),
        walk_covers(d, visited, p),
        p.len() > 0,
    ensures
        forall|i: int, j: int, y: u64|
            0 <= i < next_pending(d, p, spawn).len() && 0 <= j < next_pending(d, p, spawn).len() && i != j
                && #[trigger] in_subtree(d.nodes, y, next_pending(d, p, spawn)[i].node)
                ==> !#[trigger] in_subtree(d.nodes, y, next_pending(d, p, spawn)[j].node),
{
    let rank = choose|rank: spec_fn(u64) -> nat| ranked_by(d.nodes, rank);
    lemma_next_pending_shape(d, visited, p, spawn);
    let q = next_pending(d, p, spawn);
    let top = p.len() - 1;
    let x = p.last().node;
    assert(p[top].node == x);
    let kids = d.nodes[x].children;
    let m = kids.len() as int;
    assert forall|i: int, j: int, y: u64|
        0 <= i < q.len() && 0 <= j < q.len() && i != j && #[trigger] in_subtree(d.nodes, y, q[i].node)
        implies !#[trigger] in_subtree(d.nodes, y, q[j].node) by {
        if i < top && j < top {
            assert(q[i] == p[i] && q[j] == p[j]);
            assert(in_subtree(d.nodes, y, p[i].node));
        } else if i < top {
            assert(q[i] == p[i]);
            assert(q[j].node == kids[top + m - 1 - j]);
            assert(in_subtree(d.nodes, y, p[i].node));
            if in_subtree(d.nodes, y, q[j].node) {
                lemma_below_child_below_parent(d, rank, y, q[j].node, x);
                assert(in_subtree(d.nodes, y, p[top].node));
            }
        } else if j < top {
            assert(q[j] == p[j]);
            assert(q[i].node == kids[top + m - 1 - i]);
            lemma_below_child_below_parent(d, rank, y, q[i].node, x);
            assert(in_subtree(d.nodes, y, p[top].node));
        } else {
            let ki = top + m - 1 - i;
            let kj = top + m - 1 - j;
            assert(q[i].node == kids[ki]);
            assert(q[j].node == kids[kj]);
            assert(kids.no_duplicates());
            assert(kids[ki] != kids[kj]);
            lemma_siblings_apart(d, rank, y, kids[ki], kids[kj], x);
        }
    }
}

/// After a step, nothing pending was spawned already.
proof fn lemma_step_unvisited(d: DocView, visited: Set<u64>, p: Seq<BuildStep>, spawn: WidgetSpawnResult)
    requires
        doc_wf(d),
        walk_covers(d, visited, p),
        p.len() > 0,
    ensures
        forall|i: int, y: u64| 0 <= i < next_pending(d, p, spawn).len() && #[trigger] in_subtree(d.nodes, y, next_pending(d, p, spawn)[i].node)
            ==> !visited.insert(p.last().node).contains(y),
{
    let rank = choose|rank: spec_fn(u64) -> nat| ranked_by(d.nodes, rank);
    lemma_next_pending_shape(d, visited, p, spawn);
    let q = next_pending(d, p, spawn);
    let top = p.len() - 1;
    let x = p.last().node;
    assert(p[top].node == x);
    let kids = d.nodes[x].children;
    let m = kids.len() as int;
    lemma_in_subtree_self(d.nodes, x);
    assert(in_subtree(d.nodes, x, p[top].node));
    assert forall|i: int, y: u64| 0 <= i < q.len() && #[trigger] in_subtree(d.nodes, y, q[i].node)
        implies !visited.insert(x).contains(y) by {
        if i < top {
            assert(q[i] == p[i]);
            assert(in_subtree(d.nodes, y, p[i].node));
            if y == x {
                assert(!in_subtree(d.nodes, x, p[top].node));
            }
        } else {
            let c = kids[top + m - 1 - i];
            assert(q[i].node == c);
            lemma_below_child_below_parent(d, rank, y, c, x);
            assert(in_subtree(d.nodes, y, p[top].node));
            lemma_not_below_child(d, rank, x, c);
        }
    }
}

/// After a step, every node was spawned or lies below a pending step.
proof fn lemma_step_covered(d: DocView, visited: Set<u64>, p: Seq<BuildStep>, spawn: WidgetSpawnResult)
    requires
        doc_wf(d),
        walk_covers(d, visited, p),
        p.len() > 0,
    ensures
        forall|y: u64| #[trigger] visited.insert(p.last().node).contains(y) ==> d.nodes.contains_key(y),
        forall|y: u64| #[trigger] d.nodes.contains_key(y) ==> visited.insert(p.last().node).contains(y) || under_pending(d, next_pending(d, p, spawn), y),
{
    let rank = choose|rank: spec_fn(u64) -> nat| ranked_by(d.nodes, rank);
    lemma_next_pending_shape(d, visited, p, spawn);
    let q = next_pending(d, p, spawn);
    let top = p.len() - 1;
    let x = p.last().node;
    assert(p[top].node == x);
    let kids = d.nodes[x].children;
    let m = kids.len() as int;
    let v2 = visited.insert(x);
    assert forall|y: u64| #[trigger] v2.contains(y) implies d.nodes.contains_key(y) by {
        if y != x {
            assert(visited.contains(y));
        }
    }
    assert forall|y: u64| #[trigger] d.nodes.contains_key(y) implies v2.contains(y) || under_pending(d, q, y) by {
        if !visited.contains(y) && y != x {
            assert(under_pending(d, p, y));
            let i = choose|i: int| 0 <= i < p.len() && #[trigger] in_subtree(d.nodes, y, p[i].node);
            if i < top {
                assert(q[i] == p[i]);
                assert(in_subtree(d.nodes, y, q[i].node));
            } else {
                let k = lemma_below_some_child(d, rank, y, x);
                let j = top + m - 1 - k;
                assert(q[j].node == kids[k]);
                assert(in_subtree(d.nodes, y, q[j].node));
            }
        }
    }
}

/// Each step of a walk over a well-formed document spawns a node of it that
/// was not spawned before and whose parent, if any, was; once that node's
/// children are put in line, the steps still account for the rest.
pub proof fn lemma_walk_step(d: DocView, visited: Set<u64>, p: Seq<BuildStep>, spawn: WidgetSpawnResult)
    requires
        doc_wf(d),
        walk_covers(d, visited, p),
        p.len() > 0,
    ensures
        d.nodes.contains_key(p.last().node),
        !visited.contains(p.last().node),
        parent_visited(d, visited, p.last().node),
        walk_covers(d, visited.insert(p.last().node), p.drop_last() + child_steps(d, p.last().node, spawn).reverse()),
{
    let top = p.len() - 1;
    assert(p[top] == p.last());
    lemma_in_subtree_self(d.nodes, p.last().node);
    assert(in_subtree(d.nodes, p.last().node, p[top].node));
    assert(parent_visited(d, visited, p[top].node));
    lemma_step_nodes(d, visited, p, spawn);
    lemma_step_apart(d, visited, p, spawn);
    lemma_step_unvisited(d, visited, p, spawn);
    lemma_step_covered(d, visited, p, spawn);
    assert(walk_covers(d, visited.insert(p.last().node), next_pending(d, p, spawn)));
}

/// Once no step is left, everything the document holds was spawned.
pub proof fn lemma_walk_end(d: DocView, visited: Set<u64>)
    requires
        walk_covers(d, visited, Seq::empty()),
    ensures
        visited == d.nodes.dom(),
{
    assert(visited =~= d.nodes.dom());
}

} // verus!
