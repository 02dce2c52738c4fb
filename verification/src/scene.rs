use vstd::prelude::*;

use crate::components::MeshRenderer;
use crate::entity::EntityId;
use crate::world::{
    law_destroy_kills, law_spawn_fresh, lemma_ancestor_shift, lemma_live_ids, lemma_spawn_well_formed,
    lemma_wf_well_formed, well_formed, World,
};
use crate::world_model::WorldView;
use crate::hierarchy::collected;

verus! {

/// Reference from a saved entity to its mesh.
pub struct MeshRef {
    pub name: String,
    pub visible: bool,
}

/// Reference from a saved entity to one of its scripts.
pub struct ScriptData {
    pub name: String,
}

/// The part of a saved entity that describes the hierarchy: its name and the
/// position of its parent in the saved list.
pub struct SceneNode {
    pub name: String,
    pub parent_index: Option<usize>,
}

/// Position of the first occurrence of `x` in `ids`.
pub open spec fn position_of(ids: Seq<EntityId>, x: EntityId) -> Option<nat>
    decreases ids.len(),
{
    if ids.len() == 0 {
        None
    } else {
        match position_of(ids.drop_last(), x) {
            Some(i) => Some(i),
            None => if ids.last() == x {
                Some((ids.len() - 1) as nat)
            } else {
                None
            },
        }
    }
}

/// The saved name of an entity: its name, or empty.
pub open spec fn saved_name(v: WorldView, id: EntityId) -> Seq<char> {
    match v.name_of(id) {
        Some(n) => n,
        None => Seq::empty(),
    }
}

/// Where the parent of the `k`-th live entity sits in the list of live
/// entities (nothing for a root or a parent that is no longer live).
pub open spec fn outline_parent(v: WorldView, k: int) -> Option<nat> {
    match v.parent_of(v.live_ids()[k]) {
        Some(p) => position_of(v.live_ids(), p),
        None => None,
    }
}

/// The outline a scene file records: one node per live entity, in slot order.
pub open spec fn outline_matches(v: WorldView, nodes: Seq<SceneNode>) -> bool {
    &&& nodes.len() == v.live_ids().len()
    &&& forall|k: int|
        0 <= k < nodes.len() ==> (#[trigger] nodes[k]).name@ == saved_name(v, v.live_ids()[k])
            && nodes[k].parent_index == match outline_parent(v, k) {
            Some(j) => Some(j as usize),
            None => None,
        }
}

proof fn lemma_position_of(ids: Seq<EntityId>, x: EntityId)
    ensures
        position_of(ids, x) matches Some(i) ==> i < ids.len() && ids[i as int] == x,
        position_of(ids, x) is None ==> !ids.contains(x),
    decreases ids.len(),
{
    if ids.len() > 0 {
        lemma_position_of(ids.drop_last(), x);
        if position_of(ids, x) is None {
            assert forall|j: int| 0 <= j < ids.len() implies ids[j] != x by {
                if j < ids.len() - 1 {
                    assert(ids.drop_last()[j] == ids[j]);
                }
            }
        }
    }
}

/// In a list without repeated entries, the position of an entry is its index.
proof fn lemma_position_unique(ids: Seq<EntityId>, j: int)
    requires
        0 <= j < ids.len(),
        forall|a: int, b: int| 0 <= a < b < ids.len() ==> #[trigger] ids[a] != #[trigger] ids[b],
    ensures
        position_of(ids, ids[j]) == Some(j as nat),
    decreases ids.len(),
{
    if j < ids.len() - 1 {
        let t = ids.drop_last();
        assert forall|a: int, b: int| 0 <= a < b < t.len() implies #[trigger] t[a] != #[trigger] t[b] by {
            assert(t[a] == ids[a] && t[b] == ids[b]);
        }
        lemma_position_unique(t, j);
        assert(t[j] == ids[j]);
    } else {
        lemma_position_of(ids.drop_last(), ids[j]);
        if ids.drop_last().contains(ids[j]) {
            let a = choose|a: int| 0 <= a < ids.drop_last().len() && ids.drop_last()[a] == ids[j];
            assert(ids[a] == ids[j]);
        }
    }
}

/// Records the hierarchy of a world as a scene file does: the live entities in
/// slot order, each with its name (empty when unnamed) and the position of its
/// live parent in that order.
pub fn scene_outline(world: &World) -> (nodes: Vec<SceneNode>)
    requires
        world.wf(),
    ensures
        outline_matches(world@, nodes@),
{
    let ids = world.iter_entities();
    let n = world.slot_count();
    let mut pos: Vec<Option<usize>> = Vec::new();
    let mut s: usize = 0;
    while s < n
        invariant
            s <= n,
            pos@.len() == s,
            forall|j: int| 0 <= j < s ==> pos@[j] is None,
        decreases n - s,
    {
        pos.push(None);
        s = s + 1;
    }
    let mut k: usize = 0;
    while k < ids.len()
        invariant
            world.wf(),
            n == world@.len(),
            ids@ == world@.live_ids(),
            forall|j: int| 0 <= j < ids@.len() ==> world@.is_alive(#[trigger] ids@[j]),
            forall|a: int, b: int| 0 <= a < b < ids@.len() ==> #[trigger] ids@[a].index < #[trigger] ids@[b].index,
            k <= ids.len(),
            pos@.len() == n,
            forall|slot: int|
                0 <= slot < n ==> match #[trigger] pos@[slot] {
                    Some(j) => j < k && ids@[j as int].index as int == slot,
                    None => forall|j: int| 0 <= j < k ==> ids@[j].index as int != slot,
                },
        decreases ids.len() - k,
    {
        let idx = ids[k].index as usize;
        assert(world@.is_alive(ids@[k as int]));
        pos.set(idx, Some(k));
        k = k + 1;
    }
    let mut nodes: Vec<SceneNode> = Vec::new();
    let mut k: usize = 0;
    while k < ids.len()
        invariant
            world.wf(),
            n == world@.len(),
            ids@ == world@.live_ids(),
            forall|j: int| 0 <= j < ids@.len() ==> world@.is_alive(#[trigger] ids@[j]),
            forall|a: int, b: int| 0 <= a < b < ids@.len() ==> #[trigger] ids@[a].index < #[trigger] ids@[b].index,
            k <= ids.len(),
            pos@.len() == n,
            forall|slot: int|
                0 <= slot < n ==> match #[trigger] pos@[slot] {
                    Some(j) => j < ids@.len() && ids@[j as int].index as int == slot,
                    None => forall|j: int| 0 <= j < ids@.len() ==> ids@[j].index as int != slot,
                },
            nodes@.len() == k,
            forall|m: int|
                0 <= m < k ==> (#[trigger] nodes@[m]).name@ == saved_name(world@, ids@[m])
                    && nodes@[m].parent_index == match outline_parent(world@, m) {
                    Some(j) => Some(j as usize),
                    None => None,
                },
        decreases ids.len() - k,
    {
        let id = ids[k];
        let name = match world.get_name(id) {
            Some(s) => s.to_string(),
            None => String::new(),
        };
        let parent_index = match world.get_parent(id) {
            Some(p) => {
                let ps = p.index as usize;
                if ps < pos.len() {
                    match pos[ps] {
                        Some(j) => if ids[j] == p {
                            Some(j)
                        } else {
                            None
                        },
                        None => None,
                    }
                } else {
                    None
                }
            },
            None => None,
        };
        proof {
            assert forall|a: int, b: int| 0 <= a < b < ids@.len() implies #[trigger] ids@[a] != #[trigger] ids@[b] by {
                assert(ids@[a].index < ids@[b].index);
            }
            match world@.parent_of(id) {
                Some(p) => {
                    lemma_position_of(ids@, p);
                    match parent_index {
                        Some(j) => {
                            lemma_position_unique(ids@, j as int);
                        },
                        None => {
                            if ids@.contains(p) {
                                let j = choose|j: int| 0 <= j < ids@.len() && ids@[j] == p;
                                assert(world@.is_alive(p));
                                assert((p.index as int) < n);
                                assert(pos@[p.index as int] is Some);
                                let jj = pos@[p.index as int]->0;
                                if jj as int != j {
                                    if jj < j {
                                        assert(ids@[jj as int].index < ids@[j].index);
                                    } else {
                                        assert(ids@[j].index < ids@[jj as int].index);
                                    }
                                }
                            }
                        },
                    }
                },
                None => {},
            }
        }
        nodes.push(SceneNode { name, parent_index });
        k = k + 1;
    }
    nodes
}

/// Spawning one named entity per node, in order.
pub open spec fn spawn_all(v: WorldView, nodes: Seq<SceneNode>) -> (WorldView, Seq<EntityId>)
    decreases nodes.len(),
{
    if nodes.len() == 0 {
        (v, Seq::empty())
    } else {
        let (w, ids) = spawn_all(v, nodes.drop_last());
        let (w2, id) = w.spawn();
        (w2.set_name(id, nodes.last().name@), ids.push(id))
    }
}

/// Linking the first `k` nodes to their recorded parents, in order.
pub open spec fn link_all(v: WorldView, ids: Seq<EntityId>, nodes: Seq<SceneNode>, k: nat) -> WorldView
    decreases k,
{
    if k == 0 {
        v
    } else {
        let w = link_all(v, ids, nodes, (k - 1) as nat);
        let i = k - 1;
        match nodes[i].parent_index {
            Some(p) => if (p as int) < nodes.len() && p as int != i {
                w.set_parent(ids[i], ids[p as int])
            } else {
                w
            },
            None => w,
        }
    }
}

pub(crate) proof fn lemma_spawn_budget(v: WorldView, n: nat)
    requires
        well_formed(v),
        v.can_spawn_n(n),
        n >= 1,
    ensures
        v.can_spawn(),
        v.spawn().0.can_spawn_n((n - 1) as nat),
{
    let w = v.spawn().0;
    if v.free_list.len() > 0 {
        let i = v.free_list.last() as int;
        assert(v.free_list[v.free_list.len() - 1] == v.free_list.last());
        assert forall|k: int| 0 <= k < w.free_list.len() implies (#[trigger] w.free_list[k] as int) < w.generations.len()
            && w.generations[w.free_list[k] as int] < u32::MAX by {
            assert(w.free_list[k] == v.free_list[k]);
            assert(v.free_list[k] != v.free_list[v.free_list.len() - 1]);
        }
    }
}

impl World {
    /// Creates one entity per node, named as recorded, then links each node to
    /// its recorded parent (a parent index out of range or equal to the node's
    /// own index is ignored). Returns the new handles, in node order.
    pub fn instantiate_outline(&mut self, nodes: &Vec<SceneNode>) -> (ids: Vec<EntityId>)
        requires
            old(self).wf(),
            old(self)@.can_spawn_n(nodes@.len()),
        ensures
            final(self).wf(),
            ids@ == spawn_all(old(self)@, nodes@).1,
            final(self)@ == link_all(spawn_all(old(self)@, nodes@).0, ids@, nodes@, nodes@.len()),
    {
        let mut ids: Vec<EntityId> = Vec::new();
        let mut k: usize = 0;
        while k < nodes.len()
            invariant
                self.wf(),
                k <= nodes.len(),
                (self@, ids@) == spawn_all(old(self)@, nodes@.subrange(0, k as int)),
                self@.can_spawn_n((nodes@.len() - k) as nat),
            decreases nodes.len() - k,
        {
            assert(nodes@.subrange(0, k + 1).drop_last() =~= nodes@.subrange(0, k as int));
            proof {
                lemma_wf_well_formed(self);
                lemma_spawn_budget(self@, (nodes@.len() - k) as nat);
            }
            let id = self.spawn_entity();
            self.set_name(id, nodes[k].name.as_str());
            ids.push(id);
            k = k + 1;
        }
        assert(nodes@.subrange(0, nodes@.len() as int) =~= nodes@);
        proof {
            lemma_spawn_all_len(old(self)@, nodes@);
        }
        let ghost base = self@;
        let mut i: usize = 0;
        while i < nodes.len()
            invariant
                self.wf(),
                i <= nodes.len(),
                ids@.len() == nodes@.len(),
                self@ == link_all(base, ids@, nodes@, i as nat),
            decreases nodes.len() - i,
        {
            match nodes[i].parent_index {
                Some(p) => {
                    if p < nodes.len() && p != i {
                        self.set_parent(ids[i], ids[p]);
                    }
                },
                None => {},
            }
            i = i + 1;
        }
        ids
    }

    /// Destroys every live entity, in slot order.
    pub fn clear_entities(&mut self)
        requires
            old(self).wf(),
        ensures
            final(self).wf(),
            forall|x: EntityId| !final(self)@.is_alive(x),
            final(self)@.generations == old(self)@.generations,
    {
        let ids = self.iter_entities();
        let mut k: usize = 0;
        while k < ids.len()
            invariant
                self.wf(),
                k <= ids.len(),
                self@.generations == old(self)@.generations,
                forall|x: EntityId| self@.is_alive(x) ==> old(self)@.is_alive(x),
                forall|j: int| 0 <= j < k ==> !self@.is_alive(#[trigger] ids@[j]),
                forall|id: EntityId| old(self)@.is_alive(id) ==> ids@.contains(id),
            decreases ids.len() - k,
        {
            proof {
                lemma_wf_well_formed(self);
                law_destroy_kills(self@, ids@[k as int]);
            }
            self.destroy_entity(ids[k]);
            k = k + 1;
        }
        assert forall|x: EntityId| !self@.is_alive(x) by {
            if self@.is_alive(x) {
                let j = choose|j: int| 0 <= j < ids@.len() && ids@[j] == x;
            }
        }
    }
}

/// Spawning a list of nodes yields one live, distinct handle per node, named
/// as the node; entities alive before stay alive.
pub proof fn law_spawn_all_fresh(v: WorldView, nodes: Seq<SceneNode>)
    requires
        well_formed(v),
        v.can_spawn_n(nodes.len()),
    ensures
        ({
            let (w, ids) = spawn_all(v, nodes);
            &&& well_formed(w)
            &&& w.generations.len() == w.alive.len()
            &&& ids.len() == nodes.len()
            &&& forall|k: int| 0 <= k < ids.len() ==> w.is_alive(#[trigger] ids[k]) && !v.is_alive(ids[k])
            &&& forall|a: int, b: int| 0 <= a < b < ids.len() ==> #[trigger] ids[a] != #[trigger] ids[b]
            &&& forall|k: int| 0 <= k < ids.len() ==> #[trigger] w.names[ids[k].index as int] == nodes[k].name@
            &&& forall|x: EntityId| v.is_alive(x) ==> w.is_alive(x)
        }),
    decreases nodes.len(),
{
    if nodes.len() > 0 {
        let t = nodes.drop_last();
        law_spawn_all_fresh(v, t);
        let (w, ids) = spawn_all(v, t);
        lemma_spawn_all_budget(v, t, nodes.len());
        lemma_spawn_budget(w, 1);
        law_spawn_fresh(w);
        lemma_spawn_well_formed(w);
        let (w2, id) = w.spawn();
        let w3 = w2.set_name(id, nodes.last().name@);
        let ids2 = ids.push(id);
        assert forall|k: int| 0 <= k < ids2.len() implies w3.is_alive(#[trigger] ids2[k]) && !v.is_alive(ids2[k]) by {
            if k < ids.len() {
                assert(ids2[k] == ids[k]);
                assert(w.is_alive(ids[k]));
                assert(ids[k] != id);
            } else {
                assert(ids2[k] == id);
                if v.is_alive(id) {
                    assert(w.is_alive(id));
                }
            }
        }
        assert forall|a: int, b: int| 0 <= a < b < ids2.len() implies #[trigger] ids2[a] != #[trigger] ids2[b] by {
            if b == ids.len() {
                assert(w.is_alive(ids2[a]));
            } else {
                assert(ids2[a] == ids[a] && ids2[b] == ids[b]);
            }
        }
        assert forall|k: int| 0 <= k < ids2.len() implies #[trigger] w3.names[ids2[k].index as int] == nodes[k].name@ by {
            if k < ids.len() {
                assert(ids2[k] == ids[k]);
                assert(w.is_alive(ids[k]));
                assert(ids[k].index != id.index) by {
                    if ids[k].index == id.index {
                        assert(w2.is_alive(ids[k]));
                        assert(ids[k].generation == w2.generations[id.index as int]);
                    }
                }
                assert(t[k] == nodes[k]);
            }
        }
    }
}

proof fn lemma_spawn_all_budget(v: WorldView, nodes: Seq<SceneNode>, n: nat)
    requires
        well_formed(v),
        v.can_spawn_n(n),
        nodes.len() <= n,
    ensures
        well_formed(spawn_all(v, nodes).0),
        spawn_all(v, nodes).0.can_spawn_n((n - nodes.len()) as nat),
    decreases nodes.len(),
{
    if nodes.len() > 0 {
        let t = nodes.drop_last();
        lemma_spawn_all_budget(v, t, n);
        let w = spawn_all(v, t).0;
        lemma_spawn_budget(w, (n - t.len()) as nat);
        lemma_spawn_well_formed(w);
        let (w2, id) = w.spawn();
        let w3 = w2.set_name(id, nodes.last().name@);
        assert(w3.free_list == w2.free_list && w3.generations == w2.generations);
    }
}

/// Node `i` gets linked to its recorded parent: the index is valid, differs
/// from `i`, and at its turn the node's entity is not above the parent's.
pub open spec fn link_taken(v: WorldView, ids: Seq<EntityId>, nodes: Seq<SceneNode>, i: int) -> bool {
    match nodes[i].parent_index {
        Some(p) => (p as int) < nodes.len() && p as int != i && !link_all(v, ids, nodes, i as nat).is_ancestor(
            ids[i],
            ids[p as int],
        ),
        None => false,
    }
}

proof fn lemma_spawn_all_len(v: WorldView, nodes: Seq<SceneNode>)
    ensures
        spawn_all(v, nodes).1.len() == nodes.len(),
    decreases nodes.len(),
{
    if nodes.len() > 0 {
        lemma_spawn_all_len(v, nodes.drop_last());
    }
}

/// Linking only ever changes the parent of the node being linked: once node
/// `i` has been handled, its parent stays as then set. Every node with a valid
/// parent index ends up under that parent unless, at its turn, its entity was
/// already above the parent (a link that would close a cycle is refused).
pub proof fn law_link_all_sets_parents(v: WorldView, ids: Seq<EntityId>, nodes: Seq<SceneNode>)
    requires
        well_formed(v),
        ids.len() == nodes.len(),
        forall|k: int| 0 <= k < ids.len() ==> v.is_alive(#[trigger] ids[k]),
        forall|a: int, b: int| 0 <= a < b < ids.len() ==> #[trigger] ids[a] != #[trigger] ids[b],
    ensures
        forall|i: int|
            0 <= i < nodes.len() && #[trigger] link_taken(v, ids, nodes, i) ==> link_all(
                v,
                ids,
                nodes,
                nodes.len(),
            ).parent_of(ids[i]) == Some(ids[nodes[i].parent_index->0 as int]),
{
    assert forall|i: int| 0 <= i < nodes.len() && #[trigger] link_taken(v, ids, nodes, i) implies link_all(
        v,
        ids,
        nodes,
        nodes.len(),
    ).parent_of(ids[i]) == Some(ids[nodes[i].parent_index->0 as int]) by {
        let p = nodes[i].parent_index->0 as int;
        lemma_link_all_alive(v, ids, nodes, (i + 1) as nat);
        lemma_link_all_alive(v, ids, nodes, i as nat);
        let w = link_all(v, ids, nodes, i as nat);
        assert(ids[i] != ids[p]) by {
            if p < i {
                assert(ids[p] != ids[i]);
            }
        }
        assert(w.is_alive(ids[i]) && w.is_alive(ids[p]));
        assert(w.set_parent_applies(ids[i], ids[p]));
        let w2 = link_all(v, ids, nodes, (i + 1) as nat);
        assert(w2 == w.set_parent(ids[i], ids[p]));
        assert(w2.parents == w.parents.update(ids[i].index as int, Some(ids[p])));
        assert(w2.is_alive(ids[i]));
        assert(w2.parents[ids[i].index as int] == Some(ids[p]));
        assert(w2.parent_of(ids[i]) == Some(ids[p]));
        lemma_link_all_keeps(v, ids, nodes, i, (i + 1) as nat, nodes.len());
    }
}

proof fn lemma_link_all_alive(v: WorldView, ids: Seq<EntityId>, nodes: Seq<SceneNode>, k: nat)
    requires
        k <= nodes.len(),
        v.parents.len() == v.alive.len(),
        ids.len() == nodes.len(),
    ensures
        forall|x: EntityId| #[trigger] link_all(v, ids, nodes, k).is_alive(x) == v.is_alive(x),
        link_all(v, ids, nodes, k).generations == v.generations,
        link_all(v, ids, nodes, k).alive == v.alive,
        link_all(v, ids, nodes, k).parents.len() == v.parents.len(),
        link_all(v, ids, nodes, k).names == v.names,
    decreases k,
{
    if k > 0 {
        lemma_link_all_alive(v, ids, nodes, (k - 1) as nat);
    }
}

proof fn lemma_link_all_keeps(v: WorldView, ids: Seq<EntityId>, nodes: Seq<SceneNode>, i: int, from: nat, to: nat)
    requires
        0 <= i < from <= to <= nodes.len(),
        ids.len() == nodes.len(),
        v.parents.len() == v.alive.len(),
        forall|k: int| 0 <= k < ids.len() ==> v.is_alive(#[trigger] ids[k]),
        forall|a: int, b: int| 0 <= a < b < ids.len() ==> #[trigger] ids[a] != #[trigger] ids[b],
    ensures
        link_all(v, ids, nodes, to).parent_of(ids[i]) == link_all(v, ids, nodes, from).parent_of(ids[i]),
    decreases to - from,
{
    if to > from {
        lemma_link_all_keeps(v, ids, nodes, i, from, (to - 1) as nat);
        let w = link_all(v, ids, nodes, (to - 1) as nat);
        lemma_link_all_alive(v, ids, nodes, (to - 1) as nat);
        let j = to - 1;
        assert(ids[i] != ids[j]);
        assert(ids[i].index != ids[j].index) by {
            assert(v.is_alive(ids[i]) && v.is_alive(ids[j]));
        }
        let w2 = link_all(v, ids, nodes, to);
        match nodes[j].parent_index {
            Some(p) => {
                if (p as int) < nodes.len() && p as int != j {
                    assert(w2 == w.set_parent(ids[j], ids[p as int]));
                    if w.set_parent_applies(ids[j], ids[p as int]) {
                        assert(w2.parents == w.parents.update(ids[j].index as int, Some(ids[p as int])));
                    }
                } else {
                    assert(w2 == w);
                }
            },
            None => {
                assert(w2 == w);
            },
        }
        assert(w2.parents[ids[i].index as int] == w.parents[ids[i].index as int]);
        assert(w2.is_alive(ids[i]) == w.is_alive(ids[i]));
    }
}

/// The outline a prefab records for the entities `ids`: one node per entity,
/// with its name (empty when unnamed) and the position in `ids` of its parent
/// (nothing for a root or a parent outside `ids`).
pub open spec fn subtree_outline_matches(v: WorldView, ids: Seq<EntityId>, nodes: Seq<SceneNode>) -> bool {
    &&& nodes.len() == ids.len()
    &&& forall|k: int|
        0 <= k < nodes.len() ==> (#[trigger] nodes[k]).name@ == saved_name(v, ids[k]) && nodes[k].parent_index
            == match v.parent_of(ids[k]) {
            Some(p) => match position_of(ids, p) {
                Some(j) => Some(j as usize),
                None => None,
            },
            None => None,
        }
}

/// Position of the first occurrence of `x` in `ids`, if any.
fn find_position(ids: &Vec<EntityId>, x: EntityId) -> (r: Option<usize>)
    ensures
        r == match position_of(ids@, x) {
            Some(j) => Some(j as usize),
            None => None,
        },
{
    proof {
        lemma_position_of(ids@, x);
    }
    let mut j: usize = 0;
    while j < ids.len()
        invariant
            j <= ids@.len(),
            forall|a: int| 0 <= a < j ==> ids@[a] != x,
        decreases ids@.len() - j,
    {
        if ids[j] == x {
            proof {
                lemma_position_first(ids@, x, j as int);
            }
            return Some(j);
        }
        j = j + 1;
    }
    None
}

proof fn lemma_position_first(ids: Seq<EntityId>, x: EntityId, j: int)
    requires
        0 <= j < ids.len(),
        ids[j] == x,
        forall|a: int| 0 <= a < j ==> ids[a] != x,
    ensures
        position_of(ids, x) == Some(j as nat),
    decreases ids.len(),
{
    if j < ids.len() - 1 {
        let t = ids.drop_last();
        lemma_position_first(t, x, j);
    } else {
        lemma_position_of(ids.drop_last(), x);
        if ids.drop_last().contains(x) {
            let a = choose|a: int| 0 <= a < ids.drop_last().len() && ids.drop_last()[a] == x;
            assert(ids[a] == x);
        }
    }
}

/// The hierarchy part of a prefab saved from `root`: the entities of its
/// subtree, collected depth first through child lists (each once), and for
/// each its name and the position of its parent within the subtree.
pub fn prefab_outline(world: &World, root: EntityId) -> (r: (Vec<EntityId>, Vec<SceneNode>))
    requires
        world.wf(),
    ensures
        collected(Seq::empty(), r.0@, root, world@),
        subtree_outline_matches(world@, r.0@, r.1@),
{
    let mut ids: Vec<EntityId> = Vec::new();
    world.collect_descendants(root, &mut ids);
    let mut nodes: Vec<SceneNode> = Vec::new();
    let mut k: usize = 0;
    while k < ids.len()
        invariant
            world.wf(),
            k <= ids@.len(),
            nodes@.len() == k,
            forall|m: int|
                0 <= m < k ==> (#[trigger] nodes@[m]).name@ == saved_name(world@, ids@[m]) && nodes@[m].parent_index
                    == match world@.parent_of(ids@[m]) {
                    Some(p) => match position_of(ids@, p) {
                        Some(j) => Some(j as usize),
                        None => None,
                    },
                    None => None,
                },
        decreases ids@.len() - k,
    {
        let id = ids[k];
        let name = match world.get_name(id) {
            Some(s) => s.to_string(),
            None => String::new(),
        };
        let parent_index = match world.get_parent(id) {
            Some(p) => find_position(&ids, p),
            None => None,
        };
        nodes.push(SceneNode { name, parent_index });
        k = k + 1;
    }
    (ids, nodes)
}

/// The parent node `k` is linked to when its recorded parent index is usable.
pub open spec fn linked_parent(ids: Seq<EntityId>, nodes: Seq<SceneNode>, k: int) -> Option<EntityId> {
    match nodes[k].parent_index {
        Some(p) => if (p as int) < nodes.len() && p as int != k {
            Some(ids[p as int])
        } else {
            None
        },
        None => None,
    }
}

proof fn lemma_live_ids_len(v: WorldView, m: nat)
    ensures
        v.live_ids_upto(m).len() <= m,
    decreases m,
{
    if m > 0 {
        lemma_live_ids_len(v, (m - 1) as nat);
    }
}

/// Spawning nodes into an empty world fills slots `0..n` in order, each of
/// generation 0, named after its node, without links.
proof fn lemma_spawn_all_empty(e: WorldView, nodes: Seq<SceneNode>)
    requires
        e.alive.len() == 0,
        e.generations.len() == 0,
        e.free_list.len() == 0,
        e.names.len() == 0,
        e.parents.len() == 0,
        e.children.len() == 0,
        e.mesh_renderers.len() == 0,
        nodes.len() <= u32::MAX,
    ensures
        ({
            let (w, ids) = spawn_all(e, nodes);
            &&& ids.len() == nodes.len()
            &&& forall|k: int| 0 <= k < ids.len() ==> #[trigger] ids[k] == (EntityId { index: k as u32, generation: 0 })
            &&& w.generations =~= Seq::new(nodes.len(), |k: int| 0u32)
            &&& w.alive =~= Seq::new(nodes.len(), |k: int| true)
            &&& w.parents =~= Seq::new(nodes.len(), |k: int| None::<EntityId>)
            &&& w.children.len() == nodes.len()
            &&& w.mesh_renderers.len() == nodes.len()
            &&& w.free_list.len() == 0
            &&& w.names.len() == nodes.len()
            &&& forall|k: int| 0 <= k < nodes.len() ==> #[trigger] w.names[k] == nodes[k].name@
        }),
    decreases nodes.len(),
{
    if nodes.len() > 0 {
        let t = nodes.drop_last();
        lemma_spawn_all_empty(e, t);
        let (w, ids) = spawn_all(e, t);
        let (w2, id) = w.spawn();
        assert(id == EntityId { index: t.len() as u32, generation: 0 });
        let w3 = w2.set_name(id, nodes.last().name@);
        assert(w2.is_alive(id));
        let ids2 = ids.push(id);
        assert forall|k: int| 0 <= k < ids2.len() implies #[trigger] ids2[k] == (EntityId { index: k as u32, generation: 0 }) by {
            if k < ids.len() {
                assert(ids2[k] == ids[k]);
            }
        }
        assert forall|k: int| 0 <= k < nodes.len() implies #[trigger] w3.names[k] == nodes[k].name@ by {
            if k < t.len() {
                assert(t[k] == nodes[k]);
                assert(w3.names[k] == w.names[k]);
            }
        }
    }
}

/// The parent of the `c`-th loaded entity is the loaded copy of the parent of
/// the `c`-th saved entity.
spec fn parent_mirrored(v: WorldView, l: Seq<EntityId>, w: WorldView, ids: Seq<EntityId>, c: int) -> bool {
    exists|q: int| 0 <= q < ids.len() && w.parent_of(ids[c]) == Some(ids[q]) && #[trigger] v.parent_of(l[c]) == Some(l[q])
}

/// Links of the partly re-linked world lead to the same places as the links
/// of the world the outline was taken from.
proof fn lemma_link_chain(
    v: WorldView,
    l: Seq<EntityId>,
    w: WorldView,
    ids: Seq<EntityId>,
    nodes: Seq<SceneNode>,
    a: int,
    k: nat,
)
    requires
        ids.len() == nodes.len() == l.len(),
        0 <= a < ids.len(),
        forall|c: int| 0 <= c < ids.len() ==> #[trigger] w.is_alive(ids[c]),
        forall|c: int| 0 <= c < ids.len() ==> (#[trigger] ids[c]).index == c,
        forall|c: int| 0 <= c < ids.len() && w.parent_of(ids[c]) is Some ==> #[trigger] parent_mirrored(v, l, w, ids, c),
    ensures
        w.ancestor_at(ids[a], k) matches Some(y) ==> exists|b: int|
            0 <= b < ids.len() && y == ids[b] && #[trigger] v.ancestor_at(l[a], k) == Some(l[b]),
    decreases k,
{
    if k > 0 {
        lemma_link_chain(v, l, w, ids, nodes, a, (k - 1) as nat);
        match w.ancestor_at(ids[a], (k - 1) as nat) {
            Some(x) => {
                let c = choose|c: int| 0 <= c < ids.len() && x == ids[c] && #[trigger] v.ancestor_at(l[a], (k - 1) as nat) == Some(l[c]);
                match w.parent_of(ids[c]) {
                    Some(y) => {
                        assert(parent_mirrored(v, l, w, ids, c));
                        let q = choose|q: int| 0 <= q < ids.len() && w.parent_of(ids[c]) == Some(ids[q]) && #[trigger] v.parent_of(l[c]) == Some(l[q]);
                        assert(v.ancestor_at(l[a], k) == Some(l[q]));
                    },
                    None => {},
                }
            },
            None => {},
        }
    }
}



/// A recorded parent index names the position of the entity's parent.
proof fn lemma_recorded_parent(v: WorldView, nodes: Seq<SceneNode>, c: int)
    requires
        well_formed(v),
        outline_matches(v, nodes),
        0 <= c < nodes.len(),
        nodes[c].parent_index is Some,
    ensures
        (nodes[c].parent_index->0 as int) < nodes.len(),
        v.parent_of(v.live_ids()[c]) == Some(v.live_ids()[nodes[c].parent_index->0 as int]),
        outline_parent(v, c) == Some(nodes[c].parent_index->0 as nat),
{
    let l = v.live_ids();
    lemma_live_ids_len(v, v.len());
    assert(nodes[c].name@ == saved_name(v, l[c]));
    let x = v.parent_of(l[c])->0;
    lemma_position_of(l, x);
}

/// After re-linking the first `m` nodes, exactly those nodes have their usable
/// parent; nothing else about the world changed.
proof fn lemma_relink(v: WorldView, nodes: Seq<SceneNode>, w1: WorldView, ids: Seq<EntityId>, m: nat)
    requires
        well_formed(v),
        v.acyclic(),
        outline_matches(v, nodes),
        m <= nodes.len(),
        ids.len() == nodes.len(),
        nodes.len() <= u32::MAX,
        forall|k: int| 0 <= k < ids.len() ==> #[trigger] ids[k] == (EntityId { index: k as u32, generation: 0 }),
        w1.generations =~= Seq::new(nodes.len(), |k: int| 0u32),
        w1.alive =~= Seq::new(nodes.len(), |k: int| true),
        w1.parents =~= Seq::new(nodes.len(), |k: int| None::<EntityId>),
        w1.children.len() == nodes.len(),
    ensures
        ({
            let w = link_all(w1, ids, nodes, m);
            &&& w.generations == w1.generations
            &&& w.alive == w1.alive
            &&& w.parents =~= Seq::new(nodes.len(), |k: int| if k < m { linked_parent(ids, nodes, k) } else { None })
        }),
    decreases m,
{
    let l = v.live_ids();
    let n = nodes.len();
    lemma_live_ids(v);
    if m > 0 {
        let i: nat = (m - 1) as nat;
        lemma_relink(v, nodes, w1, ids, i);
        lemma_link_all_alive(w1, ids, nodes, i);
        let w = link_all(w1, ids, nodes, i);
        assert forall|c: int| 0 <= c < n implies #[trigger] w.is_alive(ids[c]) by {
            assert(ids[c].index == c);
        }
        assert forall|c: int| 0 <= c < ids.len() implies (#[trigger] ids[c]).index == c by {}
        assert forall|c: int| 0 <= c < ids.len() && w.parent_of(ids[c]) is Some implies #[trigger] parent_mirrored(v, l, w, ids, c) by {
            assert(w.parents[c] == linked_parent(ids, nodes, c));
            let p = nodes[c].parent_index->0 as int;
            lemma_recorded_parent(v, nodes, c);
            assert(v.parent_of(l[c]) == Some(l[p]));
        }
        let w2 = link_all(w1, ids, nodes, (i + 1) as nat);
        match nodes[i as int].parent_index {
            Some(pp) => {
                let p = pp as int;
                if p < n && p != i {
                    assert(w.set_parent_applies(ids[i as int], ids[p])) by {
                        if w.is_ancestor(ids[i as int], ids[p]) {
                            let k = choose|k: nat| k >= 1 && #[trigger] w.ancestor_at(ids[p], k) == Some(ids[i as int]);
                            lemma_link_chain(v, l, w, ids, nodes, p, k);
                            let b = choose|b: int| 0 <= b < ids.len() && ids[i as int] == ids[b] && #[trigger] v.ancestor_at(l[p], k) == Some(l[b]);
                            assert(ids[b].index == b);
                            assert(b == i);
                            lemma_recorded_parent(v, nodes, i as int);
                            assert(v.parent_of(l[i as int]) == Some(l[p]));
                            lemma_ancestor_shift(v, l[i as int], k + 1);
                            assert(v.ancestor_at(l[i as int], k + 1) == Some(l[i as int]));
                            assert(v.is_alive(l[i as int]));
                        }
                        assert(ids[i as int] != ids[p]) by {
                            assert(ids[i as int].index == i && ids[p].index == p);
                        }
                    }
                    assert(w2 == w.set_parent(ids[i as int], ids[p]));
                    assert(w2.parents == w.parents.update(i as int, Some(ids[p])));
                } else {
                    assert(w2 == w);
                }
            },
            None => {
                assert(w2 == w);
            },
        }
        lemma_link_all_alive(w1, ids, nodes, (i + 1) as nat);
        let w3 = link_all(w1, ids, nodes, m);
        assert(w3.parents =~= Seq::new(nodes.len(), |k: int| if k < m { linked_parent(ids, nodes, k) } else { None }));
    }
}

/// Saving a world's hierarchy as an outline and loading that outline into an
/// empty world gives back the same outline: the same number of entities, the
/// same names and the same parent positions.
pub proof fn law_outline_roundtrip(v: WorldView, nodes: Seq<SceneNode>, e: WorldView)
    requires
        well_formed(v),
        v.acyclic(),
        outline_matches(v, nodes),
        well_formed(e),
        e.alive.len() == 0,
        e.generations.len() == 0,
        e.free_list.len() == 0,
    ensures
        ({
            let (w, ids) = spawn_all(e, nodes);
            outline_matches(link_all(w, ids, nodes, nodes.len()), nodes)
        }),
{
    let l = v.live_ids();
    let n = nodes.len();
    lemma_live_ids(v);
    lemma_live_ids_len(v, v.len());
    lemma_spawn_all_empty(e, nodes);
    let (w1, ids) = spawn_all(e, nodes);
    assert forall|c: int| 0 <= c < n implies #[trigger] w1.is_alive(ids[c]) by {
        assert(ids[c].index == c);
    }
    // the parent index recorded for node k points at the position of its parent in `l`
    assert forall|k: int| 0 <= k < n implies #[trigger] nodes[k].parent_index == match outline_parent(v, k) {
        Some(j) => Some(j as usize),
        None => None,
    } by {}
    lemma_relink(v, nodes, w1, ids, n);
    let w = link_all(w1, ids, nodes, n);
    lemma_link_all_alive(w1, ids, nodes, n);
    // every slot is live with generation 0, so the live handles are `ids`
    assert(w.live_ids() =~= ids) by {
        lemma_live_ids_all(w, ids, n);
    }
    assert forall|k: int| 0 <= k < n implies (#[trigger] nodes[k]).name@ == saved_name(w, w.live_ids()[k])
        && nodes[k].parent_index == match outline_parent(w, k) {
        Some(j) => Some(j as usize),
        None => None,
    } by {
        assert(w.live_ids()[k] == ids[k]);
        assert(ids[k].index == k);
        assert(w.is_alive(ids[k]));
        assert(w.names[k] == nodes[k].name@);
        match nodes[k].parent_index {
            Some(pp) => {
                let p = pp as int;
                lemma_recorded_parent(v, nodes, k);
                assert(l[p] == v.parent_of(l[k])->0);
                assert(p != k) by {
                    if p == k {
                        assert(v.ancestor_at(l[k], 0) == Some(l[k]));
                        assert(v.ancestor_at(l[k], 1) == Some(l[k]));
                    }
                }
                assert(w.parent_of(ids[k]) == Some(ids[p]));
                assert forall|a: int, b: int| 0 <= a < b < ids.len() implies #[trigger] ids[a] != #[trigger] ids[b] by {
                    assert(ids[a].index == a && ids[b].index == b);
                }
                lemma_position_unique(ids, p);
            },
            None => {
                assert(w.parent_of(ids[k]) is None);
            },
        }
    }
}

proof fn lemma_live_ids_all(w: WorldView, ids: Seq<EntityId>, n: nat)
    requires
        w.alive =~= Seq::new(n, |k: int| true),
        w.generations =~= Seq::new(n, |k: int| 0u32),
        ids.len() == n,
        n <= u32::MAX,
        forall|k: int| 0 <= k < ids.len() ==> #[trigger] ids[k] == (EntityId { index: k as u32, generation: 0 }),
    ensures
        w.live_ids() =~= ids,
{
    lemma_live_ids_upto_all(w, ids, n, n);
    assert(ids.subrange(0, n as int) =~= ids);
}

proof fn lemma_live_ids_upto_all(w: WorldView, ids: Seq<EntityId>, n: nat, m: nat)
    requires
        m <= n,
        w.alive =~= Seq::new(n, |k: int| true),
        w.generations =~= Seq::new(n, |k: int| 0u32),
        ids.len() == n,
        n <= u32::MAX,
        forall|k: int| 0 <= k < ids.len() ==> #[trigger] ids[k] == (EntityId { index: k as u32, generation: 0 }),
    ensures
        w.live_ids_upto(m) =~= ids.subrange(0, m as int),
    decreases m,
{
    if m > 0 {
        lemma_live_ids_upto_all(w, ids, n, (m - 1) as nat);
        assert(w.id_at(m - 1) == ids[m - 1]);
        assert(ids.subrange(0, m as int) =~= ids.subrange(0, m - 1).push(ids[m - 1]));
    }
}

/// The mesh reference a scene file records for a mesh renderer: nothing when
/// the renderer shows no mesh; otherwise the mesh's name in the mesh store
/// (`store_name`, empty when the store does not know the id) and the
/// renderer's visibility.
pub fn saved_mesh_ref(m: &MeshRenderer, store_name: Option<&str>) -> (r: Option<MeshRef>)
    ensures
        m.mesh_id is None ==> r is None,
        m.mesh_id is Some ==> (r matches Some(mr) && mr.visible == m.visible && mr.name@ == match store_name {
            Some(n) => n@,
            None => Seq::<char>::empty(),
        }),
{
    match m.mesh_id {
        None => None,
        Some(_) => {
            let name = match store_name {
                Some(n) => n.to_string(),
                None => String::new(),
            };
            Some(MeshRef { name, visible: m.visible })
        },
    }
}

} // verus!
