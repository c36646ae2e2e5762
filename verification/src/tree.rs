//! The entity hierarchy as the widgets and the editor walk it: each
//! entity's parent and children, and the name and text some of them carry.
use vstd::prelude::*;
use std::collections::HashMap;
use crate::document::opt_str_view;

verus! {

broadcast use vstd::std_specs::hash::group_hash_axioms;

/// A snapshot of the entity hierarchy. Entities are added parents first, so
/// every parent sits above its children: `depth` (a ghost count of
/// ancestors, below `bound`) witnesses that no walk up or down goes round.
pub struct EntityTree {
    pub parent: HashMap<u64, u64>,
    pub children: HashMap<u64, Vec<u64>>,
    pub names: HashMap<u64, String>,
    pub texts: HashMap<u64, String>,
    pub depth: Ghost<Map<u64, nat>>,
    pub bound: Ghost<nat>,
}

/// The hierarchy as plain values.
pub struct TreeView {
    pub parent: Map<u64, u64>,
    pub children: Map<u64, Seq<u64>>,
    pub names: Map<u64, Seq<char>>,
    pub texts: Map<u64, Seq<char>>,
    pub depth: Map<u64, nat>,
    pub bound: nat,
}

impl View for EntityTree {
    type V = TreeView;

    open spec fn view(&self) -> TreeView {
        TreeView {
            parent: self.parent@,
            children: self.children@.map_values(|v: Vec<u64>| v@),
            names: self.names@.map_values(|s: String| s@),
            texts: self.texts@.map_values(|s: String| s@),
            depth: self.depth@,
            bound: self.bound@,
        }
    }
}

/// One more than the depth of a known entity, zero for an unknown one.
pub open spec fn rank(t: TreeView, x: u64) -> int {
    if t.depth.contains_key(x) { t.depth[x] as int + 1 } else { 0 }
}

/// Parents sit above their children, and every depth is below the bound.
pub open spec fn tree_wf(t: TreeView) -> bool {
    &&& forall|x: u64| #[trigger] t.parent.contains_key(x) ==> {
        &&& t.depth.contains_key(x)
        &&& t.depth.contains_key(t.parent[x])
        &&& t.depth[t.parent[x]] < t.depth[x]
    }
    &&& forall|x: u64| #[trigger] t.children.contains_key(x) ==> t.depth.contains_key(x)
    &&& forall|x: u64, i: int| t.children.contains_key(x) && 0 <= i < t.children[x].len() ==> {
        &&& t.depth.contains_key(#[trigger] t.children[x][i])
        &&& t.depth[x] < t.depth[t.children[x][i]]
    }
    &&& forall|x: u64| #[trigger] t.depth.contains_key(x) ==> t.depth[x] < t.bound
}

/// `x`, its parent, its parent's parent, and so on up to a root.
pub open spec fn ancestor_chain(t: TreeView, x: u64) -> Seq<u64>
    decreases rank(t, x),
    when tree_wf(t)
{
    if t.parent.contains_key(x) {
        seq![x] + ancestor_chain(t, t.parent[x])
    } else {
        seq![x]
    }
}

/// The children of `x`, none when it has no child list.
pub open spec fn kids(t: TreeView, x: u64) -> Seq<u64> {
    if t.children.contains_key(x) { t.children[x] } else { Seq::empty() }
}

/// The entities below and including `x`, in the order a last-in first-out
/// walk meets them: `x`, then the subtrees of its children from the last
/// child to the first.
pub open spec fn subtree_order(t: TreeView, x: u64) -> Seq<u64>
    decreases t.bound - rank(t, x) + 1, 0int,
    when tree_wf(t)
{
    seq![x] + forest_order(t, x, kids(t, x))
}

/// The subtrees of `ks`, children of `p`, from the last to the first.
pub open spec fn forest_order(t: TreeView, p: u64, ks: Seq<u64>) -> Seq<u64>
    decreases t.bound - rank(t, p), ks.len(),
    when tree_wf(t) && forall|i: int| 0 <= i < ks.len() ==> rank(t, #[trigger] ks[i]) > rank(t, p)
{
    if ks.len() == 0 {
        Seq::empty()
    } else {
        subtree_order(t, ks.last()) + forest_order(t, p, ks.drop_last())
    }
}

/// `r` is what a left-to-right search of `s` with `pred` finds: the first
/// entry for which the call gave true, every earlier one having given false;
/// none when every call gave false.
pub open spec fn picks_first<F: Fn(u64) -> bool>(s: Seq<u64>, pred: F, r: Option<u64>) -> bool {
    match r {
        Some(e) => exists|k: int| #![trigger s[k]] 0 <= k < s.len() && s[k] == e && pred.ensures((e,), true)
            && forall|j: int| 0 <= j < k ==> pred.ensures((#[trigger] s[j],), false),
        None => forall|j: int| 0 <= j < s.len() ==> pred.ensures((#[trigger] s[j],), false),
    }
}

/// The first entry of `s` that has property `p`.
pub open spec fn first_where(s: Seq<u64>, p: spec_fn(u64) -> bool) -> Option<u64>
    decreases s.len(),
{
    if s.len() == 0 {
        None
    } else if p(s[0]) {
        Some(s[0])
    } else {
        first_where(s.drop_first(), p)
    }
}

/// A search with a predicate that always answers `p` finds `first_where(s, p)`.
pub proof fn lemma_picks_first_exact<F: Fn(u64) -> bool>(s: Seq<u64>, pred: F, p: spec_fn(u64) -> bool, r: Option<u64>)
    requires
        picks_first(s, pred, r),
        forall|e: u64, b: bool| pred.ensures((e,), b) ==> b == p(e),
    ensures
        r == first_where(s, p),
    decreases s.len(),
{
    if s.len() == 0 {
        if r is Some {
            let k = choose|k: int| #![trigger s[k]] 0 <= k < s.len() && s[k] == r->0;
        }
    } else {
        let rest = s.drop_first();
        match r {
            Some(e) => {
                let k = choose|k: int| #![trigger s[k]] 0 <= k < s.len() && s[k] == e && pred.ensures((e,), true)
                    && forall|j: int| 0 <= j < k ==> pred.ensures((#[trigger] s[j],), false);
                if k == 0 {
                    assert(p(s[0]));
                } else {
                    assert(pred.ensures((s[0],), false));
                    assert(!p(s[0]));
                    assert(rest[k - 1] == e);
                    assert forall|j: int| 0 <= j < k - 1 implies pred.ensures((#[trigger] rest[j],), false) by {
                        assert(rest[j] == s[j + 1]);
                    }
                    lemma_picks_first_exact(rest, pred, p, r);
                }
            },
            None => {
                assert(pred.ensures((s[0],), false));
                assert forall|j: int| 0 <= j < rest.len() implies pred.ensures((#[trigger] rest[j],), false) by {
                    assert(rest[j] == s[j + 1]);
                }
                lemma_picks_first_exact(rest, pred, p, r);
            },
        }
    }
}

impl EntityTree {
    pub open spec fn wf(&self) -> bool {
        tree_wf(self@)
    }

    /// An empty hierarchy.
    pub fn new() -> (r: Self)
        ensures
            r.wf(),
            r@.parent == Map::<u64, u64>::empty(),
            r@.children == Map::<u64, Seq<u64>>::empty(),
            r@.names == Map::<u64, Seq<char>>::empty(),
            r@.texts == Map::<u64, Seq<char>>::empty(),
            r@.depth == Map::<u64, nat>::empty(),
    {
        let r = EntityTree {
            parent: HashMap::new(),
            children: HashMap::new(),
            names: HashMap::new(),
            texts: HashMap::new(),
            depth: Ghost(Map::empty()),
            bound: Ghost(0),
        };
        assert(r@.children =~= Map::<u64, Seq<u64>>::empty());
        assert(r@.names =~= Map::<u64, Seq<char>>::empty());
        assert(r@.texts =~= Map::<u64, Seq<char>>::empty());
        r
    }

    /// Adds `entity` under `parent` (as its last child) or as a root, with
    /// the name and text it carries. The parent must have been added before.
    pub fn add(&mut self, entity: u64, parent: Option<u64>, name: Option<String>, text: Option<String>)
        requires
            old(self).wf(),
            !old(self)@.depth.contains_key(entity),
            parent matches Some(p) ==> old(self)@.depth.contains_key(p),
        ensures
            final(self).wf(),
            final(self)@.depth.dom() == old(self)@.depth.dom().insert(entity),
            final(self)@.parent == (match parent { Some(p) => old(self)@.parent.insert(entity, p), None => old(self)@.parent }),
            final(self)@.children == (match parent {
                Some(p) => old(self)@.children.insert(p, kids(old(self)@, p).push(entity)),
                None => old(self)@.children,
            }),
            final(self)@.names == (match name { Some(n) => old(self)@.names.insert(entity, n@), None => old(self)@.names }),
            final(self)@.texts == (match text { Some(x) => old(self)@.texts.insert(entity, x@), None => old(self)@.texts }),
    {
        let ghost t0 = self@;
        let ghost name_v: Option<Seq<char>> = opt_str_view(name);
        let ghost text_v: Option<Seq<char>> = opt_str_view(text);
        let ghost d: nat = match parent {
            Some(p) => t0.depth[p] + 1,
            None => 0,
        };
        proof {
            self.depth@ = self.depth@.insert(entity, d);
            if d + 1 > self.bound@ {
                self.bound@ = d + 1;
            }
        }
        match parent {
            Some(p) => {
                self.parent.insert(entity, p);
                let mut list = match self.children.remove(&p) {
                    Some(v) => v,
                    None => Vec::new(),
                };
                list.push(entity);
                self.children.insert(p, list);
            },
            None => {},
        }
        match name {
            Some(n) => {
                self.names.insert(entity, n);
            },
            None => {},
        }
        match text {
            Some(x) => {
                self.texts.insert(entity, x);
            },
            None => {},
        }
        proof {
            let t = self@;
            if let Some(p) = parent {
                assert(t.children =~= t0.children.insert(p, kids(t0, p).push(entity)));
            } else {
                assert(t.children =~= t0.children);
            }
            if let Some(n) = name_v {
                assert(t.names =~= t0.names.insert(entity, n));
            } else {
                assert(t.names =~= t0.names);
            }
            if let Some(x) = text_v {
                assert(t.texts =~= t0.texts.insert(entity, x));
            } else {
                assert(t.texts =~= t0.texts);
            }
            assert(t.depth.dom() =~= t0.depth.dom().insert(entity));
            assert forall|x: u64| #[trigger] t.parent.contains_key(x) implies {
                &&& t.depth.contains_key(x)
                &&& t.depth.contains_key(t.parent[x])
                &&& t.depth[t.parent[x]] < t.depth[x]
            } by {
                if x != entity {
                    assert(t0.parent.contains_key(x));
                    assert(t0.depth.contains_key(x));
                }
            }
            assert forall|x: u64| #[trigger] t.children.contains_key(x) implies t.depth.contains_key(x) by {
                if parent != Some(x) {
                    assert(t0.children.contains_key(x));
                }
            }
            assert forall|x: u64, i: int| t.children.contains_key(x) && 0 <= i < t.children[x].len() implies {
                &&& t.depth.contains_key(#[trigger] t.children[x][i])
                &&& t.depth[x] < t.depth[t.children[x][i]]
            } by {
                if parent == Some(x) {
                    if i < kids(t0, x).len() {
                        assert(t.children[x][i] == t0.children[x][i]);
                        assert(t0.depth.contains_key(t0.children[x][i]));
                        assert(t0.children[x][i] != entity);
                    }
                } else {
                    assert(t0.children.contains_key(x));
                    assert(t.children[x] == t0.children[x]);
                    assert(t0.depth.contains_key(t0.children[x][i]));
                    assert(t0.children[x][i] != entity);
                    assert(x != entity);
                }
            }
            assert forall|x: u64| #[trigger] t.depth.contains_key(x) implies t.depth[x] < t.bound by {
                if x != entity {
                    assert(t0.depth.contains_key(x));
                }
            }
            assert(tree_wf(t));
        }
    }
}

pub proof fn lemma_chain_step(t: TreeView, x: u64)
    requires
        tree_wf(t),
    ensures
        ancestor_chain(t, x).len() >= 1,
        ancestor_chain(t, x)[0] == x,
        t.parent.contains_key(x) ==> ancestor_chain(t, x) == seq![x] + ancestor_chain(t, t.parent[x]),
        !t.parent.contains_key(x) ==> ancestor_chain(t, x) == seq![x],
{
}

/// The root above `entity`: the last entity on its chain of ancestors.
pub fn topmost_ancestor(entity: u64, tree: &EntityTree) -> (r: u64)
    requires
        tree.wf(),
    ensures
        r == ancestor_chain(tree@, entity).last(),
{
    let ghost t = tree@;
    let mut current = entity;
    loop
        invariant
            t == tree@,
            tree_wf(t),
            ancestor_chain(t, current).last() == ancestor_chain(t, entity).last(),
        decreases rank(t, current),
    {
        proof {
            lemma_chain_step(t, current);
        }
        match tree.parent.get(&current) {
            Some(p) => {
                proof {
                    let pc = ancestor_chain(t, *p);
                    lemma_chain_step(t, *p);
                    assert((seq![current] + pc).last() == pc.last());
                }
                current = *p;
            },
            None => {
                return current;
            },
        }
    }
}

/// Walks up from `current` and returns the first entity, itself included,
/// for which `predicate` holds.
pub fn find_ancestor_with<F: Fn(u64) -> bool>(current: u64, tree: &EntityTree, predicate: F) -> (r: Option<u64>)
    requires
        tree.wf(),
        forall|e: u64| predicate.requires((e,)),
    ensures
        picks_first(ancestor_chain(tree@, current), predicate, r),
{
    let ghost t = tree@;
    let ghost start = current;
    let ghost mut seen: Seq<u64> = Seq::empty();
    let mut cur = current;
    loop
        invariant
            t == tree@,
            tree_wf(t),
            forall|e: u64| predicate.requires((e,)),
            start == current,
            ancestor_chain(t, start) == seen + ancestor_chain(t, cur),
            forall|j: int| 0 <= j < seen.len() ==> predicate.ensures((#[trigger] seen[j],), false),
        decreases rank(t, cur),
    {
        proof {
            lemma_chain_step(t, cur);
        }
        let chain = Ghost(ancestor_chain(t, start));
        if predicate(cur) {
            proof {
                assert(chain@[seen.len() as int] == cur);
                assert forall|j: int| 0 <= j < seen.len() implies predicate.ensures((#[trigger] chain@[j],), false) by {
                    assert(chain@[j] == seen[j]);
                }
            }
            return Some(cur);
        }
        match tree.parent.get(&cur) {
            Some(p) => {
                proof {
                    lemma_chain_step(t, *p);
                    assert(seen + ancestor_chain(t, cur) =~= seen.push(cur) + ancestor_chain(t, *p));
                    seen = seen.push(cur);
                }
                cur = *p;
            },
            None => {
                proof {
                    assert forall|j: int| 0 <= j < chain@.len() implies predicate.ensures((#[trigger] chain@[j],), false) by {
                        if j < seen.len() {
                            assert(chain@[j] == seen[j]);
                        } else {
                            assert(chain@[j] == cur);
                        }
                    }
                }
                return None;
            },
        }
    }
}

proof fn lemma_first_where_found(s: Seq<u64>, p: spec_fn(u64) -> bool)
    ensures
        first_where(s, p) is Some <==> exists|j: int| 0 <= j < s.len() && p(#[trigger] s[j]),
        first_where(s, p) matches Some(e) ==> p(e) && s.contains(e),
    decreases s.len(),
{
    if s.len() > 0 {
        lemma_first_where_found(s.drop_first(), p);
        if exists|j: int| 0 <= j < s.len() && p(#[trigger] s[j]) {
            let j = choose|j: int| 0 <= j < s.len() && p(#[trigger] s[j]);
            if j > 0 {
                assert(s.drop_first()[j - 1] == s[j]);
            }
        }
        if exists|j: int| 0 <= j < s.len() - 1 && p(#[trigger] s.drop_first()[j]) {
            let j = choose|j: int| 0 <= j < s.len() - 1 && p(#[trigger] s.drop_first()[j]);
            assert(s[j + 1] == s.drop_first()[j]);
        }
        if let Some(e) = first_where(s.drop_first(), p) {
            let q = choose|q: int| 0 <= q < s.len() - 1 && s.drop_first()[q] == e;
            assert(s[q + 1] == e);
        }
        assert(s.contains(s[0]));
    }
}

/// Whether `ancestor` is `entity` or one of its ancestors.
pub fn is_descendant_of(entity: u64, ancestor: u64, tree: &EntityTree) -> (r: bool)
    requires
        tree.wf(),
    ensures
        r == ancestor_chain(tree@, entity).contains(ancestor),
{
    let is_ancestor = move |e: u64| -> (b: bool)
        ensures
            b == (e == ancestor),
    { e == ancestor };
    let found = find_ancestor_with(entity, tree, is_ancestor);
    proof {
        let chain = ancestor_chain(tree@, entity);
        let p = |e: u64| e == ancestor;
        lemma_picks_first_exact(chain, is_ancestor, p, found);
        lemma_first_where_found(chain, p);
        if chain.contains(ancestor) {
            let j = choose|j: int| 0 <= j < chain.len() && chain[j] == ancestor;
            assert(p(chain[j]));
        }
    }
    found.is_some()
}

proof fn lemma_picks_concat_found<F: Fn(u64) -> bool>(a: Seq<u64>, b: Seq<u64>, pred: F, e: u64)
    requires
        picks_first(a, pred, Some(e)),
    ensures
        picks_first(a + b, pred, Some(e)),
{
    let k = choose|k: int| #![trigger a[k]] 0 <= k < a.len() && a[k] == e && pred.ensures((e,), true)
        && forall|j: int| 0 <= j < k ==> pred.ensures((#[trigger] a[j],), false);
    let ab = a + b;
    assert(ab[k] == e);
    assert forall|j: int| 0 <= j < k implies pred.ensures((#[trigger] ab[j],), false) by {
        assert(ab[j] == a[j]);
    }
}

proof fn lemma_picks_concat_none<F: Fn(u64) -> bool>(a: Seq<u64>, b: Seq<u64>, pred: F, r: Option<u64>)
    requires
        picks_first(a, pred, None),
        picks_first(b, pred, r),
    ensures
        picks_first(a + b, pred, r),
{
    let ab = a + b;
    match r {
        Some(e) => {
            let k = choose|k: int| #![trigger b[k]] 0 <= k < b.len() && b[k] == e && pred.ensures((e,), true)
                && forall|j: int| 0 <= j < k ==> pred.ensures((#[trigger] b[j],), false);
            assert(ab[a.len() + k] == e);
            assert forall|j: int| 0 <= j < a.len() + k implies pred.ensures((#[trigger] ab[j],), false) by {
                if j < a.len() {
                    assert(ab[j] == a[j]);
                } else {
                    assert(ab[j] == b[j - a.len()]);
                }
            }
        },
        None => {
            assert forall|j: int| 0 <= j < ab.len() implies pred.ensures((#[trigger] ab[j],), false) by {
                if j < a.len() {
                    assert(ab[j] == a[j]);
                } else {
                    assert(ab[j] == b[j - a.len()]);
                }
            }
        },
    }
}

/// Searches the subtree of `x`, in `subtree_order`, for an entity for which
/// `pred` holds.
fn first_in_subtree<F: Fn(u64) -> bool>(tree: &EntityTree, x: u64, pred: &F) -> (r: Option<u64>)
    requires
        tree.wf(),
        forall|e: u64| pred.requires((e,)),
    ensures
        picks_first(subtree_order(tree@, x), *pred, r),
    decreases tree@.bound - rank(tree@, x) + 1, 0int,
{
    let ghost t = tree@;
    let ghost rest = forest_order(t, x, kids(t, x));
    proof {
        assert forall|i: int| 0 <= i < kids(t, x).len() implies rank(t, #[trigger] kids(t, x)[i]) > rank(t, x) by {
            assert(t.children[x][i] == kids(t, x)[i]);
        }
        assert(subtree_order(t, x) == seq![x] + rest);
    }
    if pred(x) {
        proof {
            assert(subtree_order(t, x)[0] == x);
        }
        return Some(x);
    }
    let found = match tree.children.get(&x) {
        Some(ks) => {
            proof {
                assert(t.children.contains_key(x));
                assert(kids(t, x) == ks@);
            }
            first_in_forest(tree, x, ks, ks.len(), pred)
        },
        None => {
            proof {
                assert(kids(t, x) == Seq::<u64>::empty());
                assert(rest == Seq::<u64>::empty());
            }
            None
        },
    };
    proof {
        if found is Some {
            assert(kids(t, x).take(kids(t, x).len() as int) =~= kids(t, x));
        } else if t.children.contains_key(x) {
            assert(kids(t, x).take(kids(t, x).len() as int) =~= kids(t, x));
        }
        assert forall|j: int| 0 <= j < seq![x].len() implies pred.ensures((#[trigger] seq![x][j],), false) by {
            assert(seq![x][j] == x);
        }
        lemma_picks_concat_none(seq![x], rest, *pred, found);
    }
    found
}

/// Searches the subtrees of the first `n` of `ks`, the children of `p`,
/// from the last to the first.
fn first_in_forest<F: Fn(u64) -> bool>(tree: &EntityTree, p: u64, ks: &Vec<u64>, n: usize, pred: &F) -> (r: Option<u64>)
    requires
        tree.wf(),
        forall|e: u64| pred.requires((e,)),
        tree@.children.contains_key(p),
        ks@ == tree@.children[p],
        n <= ks@.len(),
    ensures
        picks_first(forest_order(tree@, p, ks@.take(n as int)), *pred, r),
    decreases tree@.bound - rank(tree@, p), n,
{
    let ghost t = tree@;
    let ghost part = ks@.take(n as int);
    proof {
        assert forall|i: int| 0 <= i < part.len() implies rank(t, #[trigger] part[i]) > rank(t, p) by {
            assert(part[i] == t.children[p][i]);
        }
    }
    if n == 0 {
        proof {
            assert(forest_order(t, p, part) == Seq::<u64>::empty());
        }
        return None;
    }
    let c = ks[n - 1];
    proof {
        assert(part.last() == c);
        assert(part.drop_last() =~= ks@.take(n - 1));
        assert(t.children[p][n - 1] == c);
        assert(t.depth.contains_key(c));
        assert(forest_order(t, p, part) == subtree_order(t, c) + forest_order(t, p, ks@.take(n - 1)));
    }
    match first_in_subtree(tree, c, pred) {
        Some(e) => {
            proof {
                lemma_picks_concat_found(subtree_order(t, c), forest_order(t, p, ks@.take(n - 1)), *pred, e);
            }
            Some(e)
        },
        None => {
            let r = first_in_forest(tree, p, ks, n - 1, pred);
            proof {
                lemma_picks_concat_none(subtree_order(t, c), forest_order(t, p, ks@.take(n - 1)), *pred, r);
            }
            r
        },
    }
}

/// The first entity below and including `root`, in `subtree_order`, that
/// carries a text.
pub fn first_text_descendant(root: u64, tree: &EntityTree) -> (r: Option<u64>)
    requires
        tree.wf(),
    ensures
        r == first_where(subtree_order(tree@, root), |e: u64| tree@.texts.contains_key(e)),
{
    let has_text = |e: u64| -> (b: bool)
        ensures
            b == tree@.texts.contains_key(e),
    { tree.texts.contains_key(&e) };
    let r = first_in_subtree(tree, root, &has_text);
    proof {
        lemma_picks_first_exact(subtree_order(tree@, root), has_text, |e: u64| tree@.texts.contains_key(e), r);
    }
    r
}

/// The first entity strictly below `entity`, subtrees of its children taken
/// from the last child to the first, that is in `marked`.
pub fn find_descendant_with(entity: u64, tree: &EntityTree, marked: &std::collections::HashSet<u64>) -> (r: Option<u64>)
    requires
        tree.wf(),
    ensures
        r == first_where(forest_order(tree@, entity, kids(tree@, entity)), |e: u64| marked@.contains(e)),
{
    let ghost t = tree@;
    let is_marked = |e: u64| -> (b: bool)
        ensures
            b == marked@.contains(e),
    { marked.contains(&e) };
    match tree.children.get(&entity) {
        Some(ks) => {
            let r = first_in_forest(tree, entity, ks, ks.len(), &is_marked);
            proof {
                assert(ks@.take(ks@.len() as int) =~= ks@);
                lemma_picks_first_exact(forest_order(t, entity, kids(t, entity)), is_marked, |e: u64| marked@.contains(e), r);
            }
            r
        },
        None => {
            proof {
                assert(forest_order(t, entity, kids(t, entity)) == Seq::<u64>::empty());
            }
            None
        },
    }
}

/// Searches `list` from the front for an entry for which `pred` holds.
fn first_in_list<F: Fn(u64) -> bool>(list: &Vec<u64>, pred: &F) -> (r: Option<u64>)
    requires
        forall|e: u64| pred.requires((e,)),
    ensures
        picks_first(list@, *pred, r),
{
    let mut i: usize = 0;
    while i < list.len()
        invariant
            forall|e: u64| pred.requires((e,)),
            0 <= i <= list@.len(),
            forall|j: int| 0 <= j < i ==> pred.ensures((#[trigger] list@[j],), false),
        decreases list@.len() - i,
    {
        if pred(list[i]) {
            proof {
                assert(list@[i as int] == list[i as int]);
            }
            return Some(list[i]);
        }
        i = i + 1;
    }
    None
}

/// The popup layer for `entity`: the nearest ancestor (itself included)
/// that hosts popups, or rather that host's first child that is a popup
/// root when it has one; none when no ancestor hosts popups.
pub open spec fn spec_popup_parent(t: TreeView, entity: u64, hosts: Set<u64>, roots: Set<u64>) -> Option<u64> {
    match first_where(ancestor_chain(t, entity), |e: u64| hosts.contains(e)) {
        None => None,
        Some(h) => match first_where(kids(t, h), |c: u64| roots.contains(c)) {
            Some(c) => Some(c),
            None => Some(h),
        },
    }
}

pub fn resolve_popup_parent(
    entity: u64,
    tree: &EntityTree,
    popup_hosts: &std::collections::HashSet<u64>,
    popup_roots: &std::collections::HashSet<u64>,
) -> (r: Option<u64>)
    requires
        tree.wf(),
    ensures
        r == spec_popup_parent(tree@, entity, popup_hosts@, popup_roots@),
{
    let ghost t = tree@;
    let is_host = |e: u64| -> (b: bool)
        ensures
            b == popup_hosts@.contains(e),
    { popup_hosts.contains(&e) };
    let host = find_ancestor_with(entity, tree, is_host);
    proof {
        lemma_picks_first_exact(ancestor_chain(t, entity), is_host, |e: u64| popup_hosts@.contains(e), host);
    }
    let h = match host {
        Some(h) => h,
        None => return None,
    };
    let is_root = |e: u64| -> (b: bool)
        ensures
            b == popup_roots@.contains(e),
    { popup_roots.contains(&e) };
    match tree.children.get(&h) {
        Some(ks) => {
            let c = first_in_list(ks, &is_root);
            proof {
                assert(kids(t, h) == ks@);
                lemma_picks_first_exact(ks@, is_root, |c: u64| popup_roots@.contains(c), c);
            }
            match c {
                Some(c) => Some(c),
                None => Some(h),
            }
        },
        None => {
            proof {
                assert(kids(t, h) == Seq::<u64>::empty());
            }
            Some(h)
        },
    }
}

/// Where a dropdown's popup goes: under the popup layer of the nearest
/// ancestor that hosts one, else under the global popup layer when there
/// is one, else under the topmost ancestor.
pub fn popup_layer_parent(
    entity: u64,
    tree: &EntityTree,
    popup_hosts: &std::collections::HashSet<u64>,
    popup_roots: &std::collections::HashSet<u64>,
    global_layer: Option<u64>,
) -> (r: u64)
    requires
        tree.wf(),
    ensures
        r == (match spec_popup_parent(tree@, entity, popup_hosts@, popup_roots@) {
            Some(p) => p,
            None => match global_layer {
                Some(g) => g,
                None => ancestor_chain(tree@, entity).last(),
            },
        }),
{
    match resolve_popup_parent(entity, tree, popup_hosts, popup_roots) {
        Some(p) => p,
        None => match global_layer {
            Some(g) => g,
            None => topmost_ancestor(entity, tree),
        },
    }
}

/// Whether `entity` carries the name `expected`.
pub fn is_named(entity: u64, expected: &str, tree: &EntityTree) -> (r: bool)
    ensures
        r == (tree@.names.contains_key(entity) && tree@.names[entity] == expected@),
{
    match tree.names.get(&entity) {
        Some(name) => {
            let wanted = expected.to_owned();
            name.eq(&wanted)
        },
        None => false,
    }
}

/// The text of a tree node's label: the first text among the children of
/// its first child named "Tree Node Header".
pub open spec fn spec_node_label(t: TreeView, node: u64) -> Option<Seq<char>> {
    if !t.children.contains_key(node) {
        None
    } else {
        match first_where(t.children[node], |c: u64| t.names.contains_key(c) && t.names[c] == "Tree Node Header"@) {
            None => None,
            Some(h) => if !t.children.contains_key(h) {
                None
            } else {
                match first_where(t.children[h], |c: u64| t.texts.contains_key(c)) {
                    Some(c) => Some(t.texts[c]),
                    None => None,
                }
            },
        }
    }
}

pub fn node_label(node: u64, tree: &EntityTree) -> (r: Option<String>)
    ensures
        opt_str_view(r) == spec_node_label(tree@, node),
{
    let ghost t = tree@;
    let node_children = match tree.children.get(&node) {
        Some(c) => c,
        None => return None,
    };
    let is_header = |c: u64| -> (b: bool)
        ensures
            b == (tree@.names.contains_key(c) && tree@.names[c] == "Tree Node Header"@),
    { is_named(c, "Tree Node Header", tree) };
    let header = first_in_list(node_children, &is_header);
    proof {
        lemma_picks_first_exact(node_children@, is_header, |c: u64| t.names.contains_key(c) && t.names[c] == "Tree Node Header"@, header);
    }
    let header = match header {
        Some(h) => h,
        None => return None,
    };
    let header_children = match tree.children.get(&header) {
        Some(c) => c,
        None => return None,
    };
    let has_text = |c: u64| -> (b: bool)
        ensures
            b == tree@.texts.contains_key(c),
    { tree.texts.contains_key(&c) };
    let labelled = first_in_list(header_children, &has_text);
    proof {
        lemma_picks_first_exact(header_children@, has_text, |c: u64| t.texts.contains_key(c), labelled);
    }
    match labelled {
        Some(c) => match tree.texts.get(&c) {
            Some(text) => Some(text.clone()),
            None => None,
        },
        None => None,
    }
}

/// The tree node that holds `node`: its grandparent, when that is named "Tree Node".
pub open spec fn spec_parent_tree_node(t: TreeView, node: u64) -> Option<u64> {
    if t.parent.contains_key(node) && t.parent.contains_key(t.parent[node]) {
        let a = t.parent[t.parent[node]];
        if t.names.contains_key(a) && t.names[a] == "Tree Node"@ { Some(a) } else { None }
    } else {
        None
    }
}

pub fn parent_tree_node(node: u64, tree: &EntityTree) -> (r: Option<u64>)
    ensures
        r == spec_parent_tree_node(tree@, node),
{
    let parent_container = match tree.parent.get(&node) {
        Some(p) => *p,
        None => return None,
    };
    let ancestor = match tree.parent.get(&parent_container) {
        Some(a) => *a,
        None => return None,
    };
    if is_named(ancestor, "Tree Node", tree) {
        Some(ancestor)
    } else {
        None
    }
}

/// The labels from `node` up through the tree nodes that hold it, nearest
/// first; none when one of them has no label.
pub open spec fn tree_path_labels(t: TreeView, node: u64) -> Option<Seq<Seq<char>>>
    decreases rank(t, node),
    when tree_wf(t)
{
    match spec_node_label(t, node) {
        None => None,
        Some(l) => match spec_parent_tree_node(t, node) {
            None => Some(seq![l]),
            Some(a) => match tree_path_labels(t, a) {
                None => None,
                Some(ls) => Some(seq![l] + ls),
            },
        },
    }
}

/// The parts in order, with `sep` between each two.
pub open spec fn joined(parts: Seq<Seq<char>>, sep: Seq<char>) -> Seq<char>
    decreases parts.len(),
{
    if parts.len() == 0 {
        Seq::empty()
    } else if parts.len() == 1 {
        parts[0]
    } else {
        joined(parts.drop_last(), sep) + sep + parts.last()
    }
}

/// The strings in order, with `sep` between each two.
fn join_strings(parts: &Vec<String>, sep: &str) -> (r: String)
    ensures
        r@ == joined(parts@.map_values(|s: String| s@), sep@),
{
    let mut out = String::new();
    let mut i: usize = 0;
    while i < parts.len()
        invariant
            0 <= i <= parts@.len(),
            out@ == joined(parts@.take(i as int).map_values(|s: String| s@), sep@),
        decreases parts@.len() - i,
    {
        let ghost before = parts@.take(i as int).map_values(|s: String| s@);
        let ghost after = parts@.take(i + 1).map_values(|s: String| s@);
        proof {
            assert(after.drop_last() =~= before);
            assert(after.last() == parts@[i as int]@);
        }
        if i > 0 {
            out.append(sep);
        } else {
            assert(out@ + parts@[i as int]@ =~= parts@[i as int]@);
        }
        out.append(parts[i].as_str());
        i = i + 1;
    }
    assert(parts@.take(parts@.len() as int) =~= parts@);
    out
}

/// The path of a tree node: the labels from the outermost tree node down
/// to `node`, joined by slashes; none when one of them has no label.
pub fn collect_tree_path(node: u64, tree: &EntityTree) -> (r: Option<String>)
    requires
        tree.wf(),
    ensures
        opt_str_view(r) == (match tree_path_labels(tree@, node) {
            None => None,
            Some(ls) => Some(joined(ls.reverse(), "/"@)),
        }),
{
    let ghost t = tree@;
    let mut labels: Vec<String> = Vec::new();
    let mut cursor = Some(node);
    loop
        invariant
            t == tree@,
            tree_wf(t),
            tree_path_labels(t, node) == (match cursor {
                None => Some(labels@.map_values(|s: String| s@)),
                Some(c) => match tree_path_labels(t, c) {
                    None => None,
                    Some(ls) => Some(labels@.map_values(|s: String| s@) + ls),
                },
            }),
        ensures
            tree_path_labels(t, node) == Some(labels@.map_values(|s: String| s@)),
        decreases (match cursor { Some(c) => rank(t, c) + 1, None => 0 }),
    {
        let current = match cursor {
            Some(c) => c,
            None => break,
        };
        let label = match node_label(current, tree) {
            Some(l) => l,
            None => return None,
        };
        let ghost before = labels@.map_values(|s: String| s@);
        labels.push(label);
        proof {
            assert(labels@.map_values(|s: String| s@) =~= before.push(label@));
        }
        let next = parent_tree_node(current, tree);
        proof {
            match next {
                Some(a) => {
                    assert(t.parent.contains_key(current));
                    assert(t.parent.contains_key(t.parent[current]));
                    match tree_path_labels(t, a) {
                        Some(ls) => {
                            assert(before + (seq![label@] + ls) =~= before.push(label@) + ls);
                        },
                        None => {},
                    }
                },
                None => {
                    assert(before + seq![label@] =~= before.push(label@));
                },
            }
        }
        cursor = next;
    }
    let ghost all = labels@.map_values(|s: String| s@);
    let mut reversed: Vec<String> = Vec::new();
    let mut i = labels.len();
    while i > 0
        invariant
            0 <= i <= labels@.len(),
            all == labels@.map_values(|s: String| s@),
            reversed@.map_values(|s: String| s@) == all.subrange(i as int, all.len() as int).reverse(),
        decreases i,
    {
        let ghost before = reversed@.map_values(|s: String| s@);
        i = i - 1;
        reversed.push(labels[i].clone());
        proof {
            let tail = all.subrange(i + 1, all.len() as int).reverse();
            let longer = all.subrange(i as int, all.len() as int).reverse();
            assert(longer =~= tail.push(all[i as int])) by {
                assert(longer.len() == tail.len() + 1);
                assert forall|j: int| 0 <= j < longer.len() implies #[trigger] longer[j] == tail.push(all[i as int])[j] by {
                    if j < tail.len() {
                        assert(longer[j] == all[all.len() - 1 - j]);
                        assert(tail[j] == all[all.len() - 1 - j]);
                    } else {
                        assert(longer[j] == all[i as int]);
                    }
                }
            }
            assert(reversed@.map_values(|s: String| s@) =~= before.push(labels@[i as int]@));
        }
    }
    proof {
        assert(all.subrange(0, all.len() as int) =~= all);
    }
    Some(join_strings(&reversed, "/"))
}

} // verus!
