//! Whether a document is well formed, free of parent cycles, or free of
//! one on the climb that moving a node under another makes, decided by
//! checks a caller can run first.
use vstd::prelude::*;
use crate::document::{WidgetBlueprintDocument, DocView, NodeView, nodes_view, doc_wf, acyclic, climb_stops, ranked_by, in_subtree,
    lemma_in_subtree_self, lemma_in_subtree_step, lemma_in_subtree_rank};
use crate::tables::{node_table, node_table_get, node_table_keys};

verus! {

/// Following parent links from `x` leaves the nodes (or meets a node
/// without parent) after visiting at most `f` nodes.
pub open spec fn reaches_top(nodes: Map<u64, NodeView>, x: u64, f: nat) -> bool
    decreases f,
{
    if !nodes.contains_key(x) {
        true
    } else if f == 0 {
        false
    } else {
        match nodes[x].parent {
            None => true,
            Some(p) => reaches_top(nodes, p, (f - 1) as nat),
        }
    }
}

/// How many parent links lead up from `x`, counted with at most `f` steps.
pub open spec fn steps_up(nodes: Map<u64, NodeView>, x: u64, f: nat) -> nat
    decreases f,
{
    if !nodes.contains_key(x) || f == 0 {
        0
    } else {
        match nodes[x].parent {
            None => 0,
            Some(p) => 1 + steps_up(nodes, p, (f - 1) as nat),
        }
    }
}

proof fn lemma_reaches_more(nodes: Map<u64, NodeView>, x: u64, f: nat, g: nat)
    requires
        reaches_top(nodes, x, f),
        f <= g,
    ensures
        reaches_top(nodes, x, g),
        steps_up(nodes, x, f) == steps_up(nodes, x, g),
    decreases f,
{
    if nodes.contains_key(x) && f > 0 {
        if let Some(p) = nodes[x].parent {
            lemma_reaches_more(nodes, p, (f - 1) as nat, (g - 1) as nat);
        }
    }
}

/// When every node reaches the top within `n` nodes, the parent links go
/// round nowhere.
proof fn lemma_reaching_is_acyclic(nodes: Map<u64, NodeView>, n: nat)
    requires
        forall|k: u64| #[trigger] nodes.contains_key(k) ==> reaches_top(nodes, k, n),
    ensures
        acyclic(nodes),
{
    let rank = |x: u64| steps_up(nodes, x, n);
    assert forall|k: u64| #[trigger] nodes.contains_key(k) implies match nodes[k].parent {
        Some(p) => rank(p) < rank(k),
        None => true,
    } by {
        if let Some(p) = nodes[k].parent {
            assert(reaches_top(nodes, k, n));
            assert(n > 0);
            assert(reaches_top(nodes, p, (n - 1) as nat));
            lemma_reaches_more(nodes, p, (n - 1) as nat, n);
        }
    }
    assert(ranked_by(nodes, rank));
}

/// The node `x` and those of its ancestors that are nodes.
pub open spec fn ancestors(nodes: Map<u64, NodeView>, x: u64) -> Set<u64> {
    Set::new(|y: u64| nodes.contains_key(y) && in_subtree(nodes, x, y))
}

/// In an acyclic document each node reaches the top within as many nodes
/// as it has ancestors, itself included.
proof fn lemma_acyclic_reaches(nodes: Map<u64, NodeView>, rank: spec_fn(u64) -> nat, x: u64)
    requires
        nodes.dom().finite(),
        ranked_by(nodes, rank),
        nodes.contains_key(x),
    ensures
        ancestors(nodes, x).finite(),
        reaches_top(nodes, x, ancestors(nodes, x).len()),
    decreases rank(x),
{
    let a = ancestors(nodes, x);
    assert(a.subset_of(nodes.dom()));
    vstd::set_lib::lemma_len_subset(a, nodes.dom());
    lemma_in_subtree_self(nodes, x);
    assert(a.contains(x));
    assert(a.remove(x).len() + 1 == a.len());
    assert(a.len() > 0);
    match nodes[x].parent {
        None => {
            assert(reaches_top(nodes, x, a.len()));
        },
        Some(p) => {
            if !nodes.contains_key(p) {
                assert(reaches_top(nodes, p, (a.len() - 1) as nat));
                assert(reaches_top(nodes, x, a.len()));
            } else {
                lemma_acyclic_reaches(nodes, rank, p);
                let b = ancestors(nodes, p);
                assert forall|y: u64| #[trigger] a.contains(y) <==> (y == x || b.contains(y)) by {
                    if y != x {
                        lemma_in_subtree_step(nodes, x, y);
                    }
                }
                assert(!b.contains(x)) by {
                    if b.contains(x) {
                        lemma_in_subtree_rank(nodes, rank, p, x);
                    }
                }
                assert(a =~= b.insert(x));
                assert(a.len() == b.len() + 1);
                assert(reaches_top(nodes, p, b.len()));
                assert(reaches_top(nodes, x, (b.len() + 1) as nat));
                assert(reaches_top(nodes, x, a.len()));
            }
        },
    }
}

/// Whether following parents from `x` leaves the nodes within `f` nodes.
fn reaches_top_within(document: &WidgetBlueprintDocument, x: u64, f: usize) -> (r: bool)
    ensures
        r == reaches_top(document@.nodes, x, f as nat),
{
    let ghost nodes = document@.nodes;
    let mut cursor = x;
    let mut rem = f;
    loop
        invariant
            nodes == document@.nodes,
            reaches_top(nodes, x, f as nat) == reaches_top(nodes, cursor, rem as nat),
        decreases rem,
    {
        match node_table_get(&document.nodes, cursor) {
            None => return true,
            Some(n) => {
                assert(nodes.contains_key(cursor) && nodes[cursor] == n@);
                if rem == 0 {
                    return false;
                }
                match n.parent {
                    None => return true,
                    Some(p) => {
                        cursor = p;
                        rem = rem - 1;
                    },
                }
            },
        }
    }
}

/// What a well-formed document asks of the node `k`: it is stored under its
/// id, below the next id; its parent lists it as a child, or it is a root;
/// its children are distinct nodes that name it as parent; and its parents
/// lead to the top within as many nodes as there are.
pub open spec fn node_sound(d: DocView, k: u64) -> bool {
    let n = d.nodes[k];
    &&& n.id == k
    &&& k < d.next_id
    &&& match n.parent {
        Some(p) => d.nodes.contains_key(p) && d.nodes[p].children.contains(k),
        None => d.roots.contains(k),
    }
    &&& n.children.no_duplicates()
    &&& forall|i: int| 0 <= i < n.children.len() ==> d.nodes.contains_key(#[trigger] n.children[i]) && d.nodes[n.children[i]].parent == Some(k)
    &&& reaches_top(d.nodes, k, d.nodes.dom().len())
}

/// What a well-formed document asks of its roots: distinct nodes without parent.
pub open spec fn roots_sound(d: DocView) -> bool {
    &&& d.roots.no_duplicates()
    &&& forall|i: int| 0 <= i < d.roots.len() ==> d.nodes.contains_key(#[trigger] d.roots[i]) && d.nodes[d.roots[i]].parent is None
}

proof fn lemma_wf_by_parts(d: DocView)
    requires
        d.nodes.dom().finite(),
    ensures
        doc_wf(d) <==> (roots_sound(d) && forall|k: u64| #[trigger] d.nodes.contains_key(k) ==> node_sound(d, k)),
{
    let n = d.nodes.dom().len();
    if doc_wf(d) {
        let rank = choose|rank: spec_fn(u64) -> nat| ranked_by(d.nodes, rank);
        assert forall|k: u64| #[trigger] d.nodes.contains_key(k) implies node_sound(d, k) by {
            lemma_acyclic_reaches(d.nodes, rank, k);
            assert(ancestors(d.nodes, k).subset_of(d.nodes.dom()));
            vstd::set_lib::lemma_len_subset(ancestors(d.nodes, k), d.nodes.dom());
            lemma_reaches_more(d.nodes, k, ancestors(d.nodes, k).len(), n);
            let c = d.nodes[k].children;
            assert forall|i: int| 0 <= i < c.len() implies d.nodes.contains_key(#[trigger] c[i]) && d.nodes[c[i]].parent == Some(k) by {
                assert(d.nodes.contains_key(d.nodes[k].children[i]));
            }
        }
    }
    if roots_sound(d) && forall|k: u64| #[trigger] d.nodes.contains_key(k) ==> node_sound(d, k) {
        assert forall|k: u64| #[trigger] d.nodes.contains_key(k) implies reaches_top(d.nodes, k, n) by {
            assert(node_sound(d, k));
        }
        lemma_reaching_is_acyclic(d.nodes, n);
        assert forall|k: u64, i: int| #[trigger] d.nodes.contains_key(k) && 0 <= i < d.nodes[k].children.len() implies {
            &&& d.nodes.contains_key(#[trigger] d.nodes[k].children[i])
            &&& d.nodes[d.nodes[k].children[i]].parent == Some(k)
        } by {
            assert(node_sound(d, k));
        }
        assert forall|k: u64| #[trigger] d.nodes.contains_key(k) && d.nodes[k].parent is None implies d.roots.contains(k) by {
            assert(node_sound(d, k));
        }
        assert forall|k: u64| #[trigger] d.nodes.contains_key(k) implies match d.nodes[k].parent {
            Some(p) => d.nodes.contains_key(p) && d.nodes[p].children.contains(k),
            None => true,
        } by {
            assert(node_sound(d, k));
        }
    }
}

/// Whether `x` is one of `v`.
fn ids_contain(v: &Vec<u64>, x: u64) -> (r: bool)
    ensures
        r == v@.contains(x),
{
    let mut i: usize = 0;
    while i < v.len()
        invariant
            0 <= i <= v@.len(),
            forall|j: int| 0 <= j < i ==> v@[j] != x,
        decreases v@.len() - i,
    {
        if v[i] == x {
            assert(v@[i as int] == x);
            return true;
        }
        i = i + 1;
    }
    false
}

/// Whether the entries of `v` are distinct.
fn ids_unique(v: &Vec<u64>) -> (r: bool)
    ensures
        r == v@.no_duplicates(),
{
    let mut i: usize = 0;
    while i < v.len()
        invariant
            0 <= i <= v@.len(),
            forall|a: int, b: int| 0 <= a < b < v@.len() && a < i ==> v@[a] != v@[b],
        decreases v@.len() - i,
    {
        let mut j: usize = i + 1;
        while j < v.len()
            invariant
                0 <= i < v@.len(),
                i + 1 <= j <= v@.len(),
                forall|a: int, b: int| 0 <= a < b < v@.len() && a < i ==> v@[a] != v@[b],
                forall|b: int| i < b < j ==> v@[i as int] != v@[b],
            decreases v@.len() - j,
        {
            if v[i] == v[j] {
                return false;
            }
            j = j + 1;
        }
        i = i + 1;
    }
    true
}

fn node_is_sound(document: &WidgetBlueprintDocument, k: u64, count: usize) -> (r: bool)
    requires
        document@.nodes.contains_key(k),
        count == document@.nodes.dom().len(),
    ensures
        r == node_sound(document@, k),
{
    let ghost d = document@;
    let node = match node_table_get(&document.nodes, k) {
        Some(n) => n,
        None => return false,
    };
    assert(node@ == d.nodes[k]);
    if node.id != k || k >= document.next_id.get() {
        return false;
    }
    match node.parent {
        Some(p) => {
            match node_table_get(&document.nodes, p) {
                Some(pn) => {
                    if !ids_contain(&pn.children, k) {
                        return false;
                    }
                },
                None => return false,
            }
        },
        None => {
            if !ids_contain(&document.roots, k) {
                return false;
            }
        },
    }
    if !ids_unique(&node.children) {
        return false;
    }
    let mut i: usize = 0;
    while i < node.children.len()
        invariant
            d == document@,
            node@ == d.nodes[k],
            0 <= i <= node.children@.len(),
            forall|j: int| 0 <= j < i ==> d.nodes.contains_key(#[trigger] node.children@[j]) && d.nodes[node.children@[j]].parent == Some(k),
        decreases node.children@.len() - i,
    {
        let c = node.children[i];
        match node_table_get(&document.nodes, c) {
            Some(cn) => {
                if cn.parent != Some(k) {
                    return false;
                }
            },
            None => return false,
        }
        i = i + 1;
    }
    reaches_top_within(document, k, count)
}

impl WidgetBlueprintDocument {
    /// Whether the document is well formed: the nodes are stored under their
    /// ids, below the next id; the roots are exactly the nodes without
    /// parent, each once; parent and child links agree; and no chain of
    /// parents goes round.
    pub fn is_well_formed(&self) -> (r: bool)
        ensures
            r == doc_wf(self@),
    {
        let ghost d = self@;
        let keys = node_table_keys(&self.nodes);
        proof {
            assert(d.nodes.dom() =~= keys@.to_set());
            keys@.unique_seq_to_set();
            lemma_wf_by_parts(d);
        }
        let count = keys.len();
        let mut i: usize = 0;
        while i < keys.len()
            invariant
                d == self@,
                keys@.no_duplicates(),
                keys@.to_set() == d.nodes.dom(),
                count == d.nodes.dom().len(),
                d.nodes.dom().finite(),
                0 <= i <= keys@.len(),
                forall|j: int| 0 <= j < i ==> node_sound(d, #[trigger] keys@[j]),
            decreases keys@.len() - i,
        {
            proof {
                assert(keys@.to_set().contains(keys@[i as int])) by {
                    assert(keys@.contains(keys@[i as int]));
                }
            }
            if !node_is_sound(self, keys[i], count) {
                proof {
                    lemma_wf_by_parts(d);
                }
                return false;
            }
            i = i + 1;
        }
        proof {
            assert forall|k: u64| #[trigger] d.nodes.contains_key(k) implies node_sound(d, k) by {
                assert(keys@.to_set().contains(k));
                let j = choose|j: int| 0 <= j < keys@.len() && keys@[j] == k;
                assert(node_sound(d, keys@[j]));
            }
        }
        if !ids_unique(&self.roots) {
            return false;
        }
        let mut r: usize = 0;
        while r < self.roots.len()
            invariant
                d == self@,
                0 <= r <= d.roots.len(),
                forall|j: int| 0 <= j < r ==> d.nodes.contains_key(#[trigger] d.roots[j]) && d.nodes[d.roots[j]].parent is None,
            decreases d.roots.len() - r,
        {
            match node_table_get(&self.nodes, self.roots[r]) {
                Some(n) => {
                    if n.parent.is_some() {
                        return false;
                    }
                },
                None => return false,
            }
            r = r + 1;
        }
        true
    }
}

/// With finitely many nodes, the parent links go round nowhere exactly when
/// every node reaches the top within as many nodes as there are.
proof fn lemma_acyclic_by_parts(nodes: Map<u64, NodeView>)
    requires
        nodes.dom().finite(),
    ensures
        acyclic(nodes) <==> forall|k: u64| #[trigger] nodes.contains_key(k) ==> reaches_top(nodes, k, nodes.dom().len()),
{
    let n = nodes.dom().len();
    if acyclic(nodes) {
        let rank = choose|rank: spec_fn(u64) -> nat| ranked_by(nodes, rank);
        assert forall|k: u64| #[trigger] nodes.contains_key(k) implies reaches_top(nodes, k, n) by {
            lemma_acyclic_reaches(nodes, rank, k);
            assert(ancestors(nodes, k).subset_of(nodes.dom()));
            vstd::set_lib::lemma_len_subset(ancestors(nodes, k), nodes.dom());
            lemma_reaches_more(nodes, k, ancestors(nodes, k).len(), n);
        }
    }
    if forall|k: u64| #[trigger] nodes.contains_key(k) ==> reaches_top(nodes, k, n) {
        lemma_reaching_is_acyclic(nodes, n);
    }
}

impl WidgetBlueprintDocument {
    /// Whether no chain of parent links goes round; then every climb that
    /// moving a node makes ends.
    pub fn has_acyclic_parents(&self) -> (r: bool)
        ensures
            r == acyclic(self@.nodes),
    {
        let ghost d = self@;
        let keys = node_table_keys(&self.nodes);
        proof {
            assert(d.nodes.dom() =~= keys@.to_set());
            keys@.unique_seq_to_set();
            lemma_acyclic_by_parts(d.nodes);
        }
        let count = keys.len();
        let mut i: usize = 0;
        while i < keys.len()
            invariant
                d == self@,
                keys@.to_set() == d.nodes.dom(),
                count == d.nodes.dom().len(),
                d.nodes.dom().finite(),
                0 <= i <= keys@.len(),
                forall|j: int| 0 <= j < i ==> reaches_top(d.nodes, #[trigger] keys@[j], d.nodes.dom().len()),
            decreases keys@.len() - i,
        {
            proof {
                assert(keys@.to_set().contains(keys@[i as int])) by {
                    assert(keys@.contains(keys@[i as int]));
                }
            }
            if !reaches_top_within(self, keys[i], count) {
                proof {
                    lemma_acyclic_by_parts(d.nodes);
                }
                return false;
            }
            i = i + 1;
        }
        proof {
            assert forall|k: u64| #[trigger] d.nodes.contains_key(k) implies reaches_top(d.nodes, k, d.nodes.dom().len()) by {
                assert(keys@.to_set().contains(k));
                let j = choose|j: int| 0 <= j < keys@.len() && keys@[j] == k;
                assert(reaches_top(d.nodes, keys@[j], d.nodes.dom().len()));
            }
            lemma_acyclic_by_parts(d.nodes);
        }
        true
    }

    /// Whether climbing parent links from `from` stops within `limit`
    /// nodes, at `stop` or at the top; when it does, moving the node `stop`
    /// under `from` ends.
    pub fn climb_stops_within(&self, from: u64, stop: u64, limit: usize) -> (r: bool)
        ensures
            r == climb_stops(self@.nodes, from, stop, limit as nat),
    {
        let ghost nodes = self@.nodes;
        let mut cursor = from;
        let mut remaining = limit;
        loop
            invariant
                nodes == self@.nodes,
                climb_stops(nodes, from, stop, limit as nat) == climb_stops(nodes, cursor, stop, remaining as nat),
            decreases remaining,
        {
            if remaining == 0 {
                return false;
            }
            if cursor == stop {
                return true;
            }
            match node_table_get(&self.nodes, cursor) {
                None => {
                    return true;
                },
                Some(n) => {
                    match n.parent {
                        None => {
                            return true;
                        },
                        Some(p) => {
                            assert(nodes.contains_key(cursor) && nodes[cursor].parent == Some(p));
                            cursor = p;
                            remaining = remaining - 1;
                        },
                    }
                },
            }
        }
    }
}

} // verus!
