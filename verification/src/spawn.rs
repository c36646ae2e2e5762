//! What spawning a widget gives back: its root entity and the entities of
//! its named child slots, and which of them a child node is placed under.
use vstd::prelude::*;
use crate::document::{WidgetBlueprintDocument, DocView};
use crate::tables::{node_table_get};

verus! {

/// The root of a spawned widget, and the entity of each child slot it named
/// (a later entry for the same slot replaces an earlier one).
pub struct WidgetSpawnResult {
    pub root: u64,
    pub slots: Vec<(String, u64)>,
}

/// The slot entries as a map: each name to the entity last given for it.
pub open spec fn slot_map(s: Seq<(Seq<char>, u64)>) -> Map<Seq<char>, u64>
    decreases s.len(),
{
    if s.len() == 0 {
        Map::empty()
    } else {
        slot_map(s.drop_last()).insert(s.last().0, s.last().1)
    }
}

pub open spec fn slot_entries(v: Seq<(String, u64)>) -> Seq<(Seq<char>, u64)> {
    v.map_values(|e: (String, u64)| (e.0@, e.1))
}

impl WidgetSpawnResult {
    pub open spec fn slots_view(&self) -> Map<Seq<char>, u64> {
        slot_map(slot_entries(self.slots@))
    }

    /// A widget with a root and no slots.
    pub fn new(root: u64) -> (r: Self)
        ensures
            r.root == root,
            r.slots_view() == Map::<Seq<char>, u64>::empty(),
    {
        let r = WidgetSpawnResult { root, slots: Vec::new() };
        assert(slot_entries(r.slots@) =~= Seq::<(Seq<char>, u64)>::empty());
        r
    }

    /// The same, with `entity` as the slot `slot`.
    pub fn with_slot(self, slot: &str, entity: u64) -> (r: Self)
        ensures
            r.root == self.root,
            r.slots_view() == self.slots_view().insert(slot@, entity),
    {
        let mut slots = self.slots;
        let ghost before = slot_entries(slots@);
        slots.push((slot.to_owned(), entity));
        proof {
            assert(slot_entries(slots@) =~= before.push((slot@, entity)));
            assert(slot_entries(slots@).drop_last() =~= before);
        }
        WidgetSpawnResult { root: self.root, slots }
    }

    /// The entity of the slot named `slot`, if there is one.
    pub fn slot_entity(&self, slot: &str) -> (r: Option<u64>)
        ensures
            r == (if self.slots_view().contains_key(slot@) { Some(self.slots_view()[slot@]) } else { None::<u64> }),
    {
        let wanted = slot.to_owned();
        let mut i = self.slots.len();
        let ghost all = slot_entries(self.slots@);
        proof {
            assert(all.take(all.len() as int) =~= all);
        }
        while i > 0
            invariant
                0 <= i <= self.slots@.len(),
                all == slot_entries(self.slots@),
                wanted@ == slot@,
                forall|j: int| i <= j < all.len() ==> (#[trigger] all[j]).0 != slot@,
            decreases i,
        {
            let entry = &self.slots[i - 1];
            proof {
                assert(all[i - 1] == (entry.0@, entry.1));
            }
            if entry.0.eq(&wanted) {
                proof {
                    lemma_slot_map_suffix(all, i as int, slot@);
                    assert(all.take(i as int).drop_last() =~= all.take(i - 1));
                    assert(all.take(i as int).last() == all[i - 1]);
                }
                return Some(entry.1);
            }
            i = i - 1;
        }
        proof {
            lemma_slot_map_suffix(all, 0, slot@);
            assert(all.take(0) =~= Seq::<(Seq<char>, u64)>::empty());
        }
        None
    }
}

/// Entries after position `i` that name other slots do not change what the
/// map holds for `k`.
proof fn lemma_slot_map_suffix(all: Seq<(Seq<char>, u64)>, i: int, k: Seq<char>)
    requires
        0 <= i <= all.len(),
        forall|j: int| i <= j < all.len() ==> (#[trigger] all[j]).0 != k,
    ensures
        slot_map(all).contains_key(k) == slot_map(all.take(i)).contains_key(k),
        slot_map(all).contains_key(k) ==> slot_map(all)[k] == slot_map(all.take(i))[k],
    decreases all.len() - i,
{
    if i < all.len() {
        lemma_slot_map_suffix(all, i + 1, k);
        let t = all.take(i + 1);
        assert(t.drop_last() =~= all.take(i));
        assert(t.last() == all[i]);
    } else {
        assert(all.take(i) =~= all);
    }
}

/// The slot a child goes into: the one its node names, else "first" for the
/// first child and "second" for the second, else none.
pub open spec fn child_slot(d: DocView, child: u64, index: usize) -> Option<Seq<char>> {
    if d.nodes.contains_key(child) && d.nodes[child].slot is Some {
        d.nodes[child].slot
    } else if index == 0 {
        Some("first"@)
    } else if index == 1 {
        Some("second"@)
    } else {
        None
    }
}

/// The entity of the slot a child at `index` fills when its node names none.
fn default_slot_entity(parent_spawn: &WidgetSpawnResult, index: usize) -> (r: Option<u64>)
    ensures
        r == (if index == 0 {
            if parent_spawn.slots_view().contains_key("first"@) { Some(parent_spawn.slots_view()["first"@]) } else { None::<u64> }
        } else if index == 1 {
            if parent_spawn.slots_view().contains_key("second"@) { Some(parent_spawn.slots_view()["second"@]) } else { None::<u64> }
        } else {
            None::<u64>
        }),
{
    if index == 0 {
        parent_spawn.slot_entity("first")
    } else if index == 1 {
        parent_spawn.slot_entity("second")
    } else {
        None
    }
}

/// The entity the child `child`, at `index` among its parent's children, is
/// placed under when its parent was spawned as `parent_spawn`.
pub open spec fn placed_under(d: DocView, parent_spawn: WidgetSpawnResult, child: u64, index: usize) -> u64 {
    match child_slot(d, child, index) {
        Some(s) => if parent_spawn.slots_view().contains_key(s) { parent_spawn.slots_view()[s] } else { parent_spawn.root },
        None => parent_spawn.root,
    }
}

/// The entity a child node is spawned under: its slot's entity in the
/// parent widget, else the parent widget's root.
pub fn resolve_child_parent_entity(document: &WidgetBlueprintDocument, parent_spawn: &WidgetSpawnResult, child_node_id: u64, child_index: usize) -> (r: u64)
    ensures
        r == placed_under(document@, *parent_spawn, child_node_id, child_index),
{
    let slot_entity = match node_table_get(&document.nodes, child_node_id) {
        Some(node) => match &node.slot {
            Some(s) => parent_spawn.slot_entity(s.as_str()),
            None => default_slot_entity(parent_spawn, child_index),
        },
        None => default_slot_entity(parent_spawn, child_index),
    };
    match slot_entity {
        Some(e) => e,
        None => parent_spawn.root,
    }
}

/// One node to spawn: the node, the entity it goes under, and whether it is
/// one of the document's roots.
#[derive(Clone, Copy, Debug, PartialEq, Eq, Structural)]
pub struct BuildStep {
    pub node: u64,
    pub parent_entity: u64,
    pub is_root: bool,
}

/// The steps for the roots, each under `container`, in order.
pub open spec fn root_steps(roots: Seq<u64>, container: u64) -> Seq<BuildStep> {
    roots.map_values(|r: u64| BuildStep { node: r, parent_entity: container, is_root: true })
}

/// The steps for the children of `node`, once it was spawned as `spawn`,
/// in order: each under the entity its slot names.
pub open spec fn child_steps(d: DocView, node: u64, spawn: WidgetSpawnResult) -> Seq<BuildStep> {
    d.nodes[node].children.map(|i: int, c: u64| BuildStep { node: c, parent_entity: placed_under(d, spawn, c, i as usize), is_root: false })
}

/// A walk that spawns the widgets of a document depth first, parents before
/// their children and siblings in order. The engine asks for the next step,
/// spawns that node's widget, and reports what it spawned, which puts the
/// node's children next in line.
pub struct BuildWalk {
    pending: Vec<BuildStep>,
}

impl View for BuildWalk {
    type V = Seq<BuildStep>;

    /// The steps still to take, the next one last.
    closed spec fn view(&self) -> Seq<BuildStep> {
        self.pending@
    }
}

impl BuildWalk {
    /// A walk over the roots of `document`, each to be placed under
    /// `container`; the first root comes first.
    pub fn start(document: &WidgetBlueprintDocument, container: u64) -> (r: Self)
        ensures
            r@ == root_steps(document@.roots, container).reverse(),
    {
        let ghost all = root_steps(document@.roots, container);
        let mut pending: Vec<BuildStep> = Vec::new();
        let n = document.roots.len();
        let mut i = n;
        while i > 0
            invariant
                0 <= i <= n,
                n == document@.roots.len(),
                all == root_steps(document@.roots, container),
                pending@ =~= Seq::new((n - i) as nat, |j: int| all[n - 1 - j]),
            decreases i,
        {
            let r = document.roots[i - 1];
            pending.push(BuildStep { node: r, parent_entity: container, is_root: true });
            i = i - 1;
        }
        proof {
            assert(pending@ =~= all.reverse());
        }
        BuildWalk { pending }
    }

    /// The next node to spawn, taken off the walk; `None` once the walk is
    /// over.
    pub fn next_step(&mut self) -> (r: Option<BuildStep>)
        ensures
            old(self)@.len() == 0 ==> r is None && final(self)@ == old(self)@,
            old(self)@.len() > 0 ==> r == Some(old(self)@.last()) && final(self)@ == old(self)@.drop_last(),
    {
        self.pending.pop()
    }

    /// Reports that `node` was spawned as `spawn`: its children come next,
    /// the first child first. A node the document does not hold has none.
    pub fn spawned(&mut self, document: &WidgetBlueprintDocument, node: u64, spawn: &WidgetSpawnResult)
        ensures
            document@.nodes.contains_key(node) ==> final(self)@ == old(self)@ + child_steps(document@, node, *spawn).reverse(),
            !document@.nodes.contains_key(node) ==> final(self)@ == old(self)@,
    {
        match node_table_get(&document.nodes, node) {
            Some(n) => {
                let ghost all = child_steps(document@, node, *spawn);
                let ghost before = self.pending@;
                let len = n.children.len();
                let mut i = len;
                while i > 0
                    invariant
                        0 <= i <= len,
                        len == n.children@.len(),
                        n@ == document@.nodes[node],
                        all == child_steps(document@, node, *spawn),
                        self.pending@ =~= before + Seq::new((len - i) as nat, |j: int| all[len - 1 - j]),
                    decreases i,
                {
                    let c = n.children[i - 1];
                    let under = resolve_child_parent_entity(document, spawn, c, i - 1);
                    self.pending.push(BuildStep { node: c, parent_entity: under, is_root: false });
                    i = i - 1;
                }
                proof {
                    assert(self.pending@ =~= before + all.reverse());
                }
            },
            None => {},
        }
    }
}

} // verus!
