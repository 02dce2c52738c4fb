use vstd::prelude::*;

use crate::components::MeshRenderer;
use crate::entity::EntityId;

verus! {

/// Mathematical model of a `World`: one entry per slot in every sequence.
/// `generations` holds the generation of the handle each slot currently
/// answers to; `issued` the highest generation each slot has ever handed out.
pub struct WorldView {
    pub generations: Seq<u32>,
    pub issued: Seq<u32>,
    pub alive: Seq<bool>,
    pub free_list: Seq<u32>,
    pub names: Seq<Seq<char>>,
    pub mesh_renderers: Seq<Option<MeshRenderer>>,
    pub parents: Seq<Option<EntityId>>,
    pub children: Seq<Option<Seq<EntityId>>>,
}

/// Mathematical model of a `WorldSnapshot`.
pub struct SnapshotView {
    pub generations: Seq<u32>,
    pub alive: Seq<bool>,
    pub names: Seq<Seq<char>>,
    pub mesh_renderers: Seq<Option<MeshRenderer>>,
    pub parents: Seq<Option<EntityId>>,
    pub children: Seq<Option<Seq<EntityId>>>,
}

/// `s` with every occurrence of `c` removed, order kept.
pub open spec fn remove_id(s: Seq<EntityId>, c: EntityId) -> Seq<EntityId>
    decreases s.len(),
{
    if s.len() == 0 {
        s
    } else {
        let r = remove_id(s.drop_last(), c);
        if s.last() == c {
            r
        } else {
            r.push(s.last())
        }
    }
}

/// Number of `true` entries.
pub open spec fn count_true(s: Seq<bool>) -> nat
    decreases s.len(),
{
    if s.len() == 0 {
        0
    } else {
        count_true(s.drop_last()) + if s.last() {
            1nat
        } else {
            0nat
        }
    }
}

/// Indices of the `false` entries, in increasing order.
pub open spec fn dead_indices(s: Seq<bool>) -> Seq<u32>
    decreases s.len(),
{
    if s.len() == 0 {
        Seq::empty()
    } else {
        let r = dead_indices(s.drop_last());
        if s.last() {
            r
        } else {
            r.push((s.len() - 1) as u32)
        }
    }
}

impl WorldView {
    /// Number of slots.
    pub open spec fn len(self) -> nat {
        self.alive.len()
    }

    /// The handle refers to a live entity of the current generation of its slot.
    pub open spec fn is_alive(self, id: EntityId) -> bool {
        &&& (id.index as int) < self.alive.len()
        &&& (id.index as int) < self.generations.len()
        &&& self.generations[id.index as int] == id.generation
        &&& self.alive[id.index as int]
    }

    /// The handle of the entity living in slot `i`.
    pub open spec fn id_at(self, i: int) -> EntityId {
        EntityId { index: i as u32, generation: self.generations[i] }
    }

    /// Whether `spawn` has room to hand out a new handle without a counter overflowing.
    pub open spec fn can_spawn(self) -> bool {
        if self.free_list.len() > 0 {
            (self.free_list.last() as int) < self.issued.len()
                && self.issued[self.free_list.last() as int] < u32::MAX
        } else {
            self.generations.len() < u32::MAX
        }
    }

    /// Spawning: reuse the most recently freed slot under a generation one past
    /// any it has handed out, or append a fresh slot of generation 0.
    pub open spec fn spawn(self) -> (WorldView, EntityId) {
        if self.free_list.len() > 0 {
            let idx = self.free_list.last();
            let i = idx as int;
            let g = (self.issued[i] + 1) as u32;
            (
                WorldView {
                    generations: self.generations.update(i, g),
                    issued: self.issued.update(i, g),
                    alive: self.alive.update(i, true),
                    free_list: self.free_list.drop_last(),
                    names: self.names.update(i, Seq::empty()),
                    mesh_renderers: self.mesh_renderers.update(i, None),
                    parents: self.parents.update(i, None),
                    children: self.children.update(i, None),
                },
                EntityId { index: idx, generation: g },
            )
        } else {
            let idx = self.generations.len() as u32;
            (
                WorldView {
                    generations: self.generations.push(0),
                    issued: self.issued.push(0),
                    alive: self.alive.push(true),
                    free_list: self.free_list,
                    names: self.names.push(Seq::empty()),
                    mesh_renderers: self.mesh_renderers.push(None),
                    parents: self.parents.push(None),
                    children: self.children.push(None),
                },
                EntityId { index: idx, generation: 0 },
            )
        }
    }

    /// Parent links of `parents` with every live child among `kids` cleared.
    pub open spec fn detach_kids(self, parents: Seq<Option<EntityId>>, kids: Seq<EntityId>) -> Seq<
        Option<EntityId>,
    > {
        Seq::new(
            parents.len(),
            |j: int|
                if exists|k: int|
                    0 <= k < kids.len() && self.is_alive(#[trigger] kids[k]) && kids[k].index
                        == j {
                    None
                } else {
                    parents[j]
                },
        )
    }

    /// `children` with `c` removed from the child list of `p`, when `p` is live.
    pub open spec fn unlink_child(
        self,
        children: Seq<Option<Seq<EntityId>>>,
        p: Option<EntityId>,
        c: EntityId,
    ) -> Seq<Option<Seq<EntityId>>> {
        match p {
            Some(pid) => if self.is_alive(pid) && children[pid.index as int] is Some {
                children.update(
                    pid.index as int,
                    Some(remove_id(children[pid.index as int]->0, c)),
                )
            } else {
                children
            },
            None => children,
        }
    }

    /// Destroying a live entity: the slot is freed, its name, mesh and links are
    /// cleared, it leaves its parent's child list and its live children become roots.
    pub open spec fn destroy(self, id: EntityId) -> WorldView {
        if !self.is_alive(id) {
            self
        } else {
            let i = id.index as int;
            let v1 = WorldView {
                alive: self.alive.update(i, false),
                names: self.names.update(i, Seq::empty()),
                mesh_renderers: self.mesh_renderers.update(i, None),
                ..self
            };
            let children2 = v1.unlink_child(self.children, self.parents[i], id);
            let parents2 = self.parents.update(i, None);
            let kids = match children2[i] {
                Some(k) => k,
                None => Seq::empty(),
            };
            WorldView {
                free_list: self.free_list.push(id.index),
                parents: v1.detach_kids(parents2, kids),
                children: children2.update(i, None),
                ..v1
            }
        }
    }

    pub open spec fn set_name(self, id: EntityId, name: Seq<char>) -> WorldView {
        if self.is_alive(id) {
            WorldView { names: self.names.update(id.index as int, name), ..self }
        } else {
            self
        }
    }

    /// The name of a live entity, when it is not empty.
    pub open spec fn name_of(self, id: EntityId) -> Option<Seq<char>> {
        if self.is_alive(id) && self.names[id.index as int].len() > 0 {
            Some(self.names[id.index as int])
        } else {
            None
        }
    }

    pub open spec fn parent_of(self, id: EntityId) -> Option<EntityId> {
        if self.is_alive(id) {
            self.parents[id.index as int]
        } else {
            None
        }
    }

    pub open spec fn children_of(self, id: EntityId) -> Seq<EntityId> {
        if self.is_alive(id) {
            match self.children[id.index as int] {
                Some(c) => c,
                None => Seq::empty(),
            }
        } else {
            Seq::empty()
        }
    }

    /// The `k`-th element of the parent chain starting at `id` (`id` itself for `k == 0`).
    pub open spec fn ancestor_at(self, id: EntityId, k: nat) -> Option<EntityId>
        decreases k,
    {
        if k == 0 {
            Some(id)
        } else {
            match self.ancestor_at(id, (k - 1) as nat) {
                Some(e) => self.parent_of(e),
                None => None,
            }
        }
    }

    /// `anc` occurs in the parent chain above `id`.
    pub open spec fn is_ancestor(self, anc: EntityId, id: EntityId) -> bool {
        exists|k: nat| k >= 1 && #[trigger] self.ancestor_at(id, k) == Some(anc)
    }

    /// No parent chain of a live entity comes back to it.
    pub open spec fn acyclic(self) -> bool {
        forall|id: EntityId, k: nat|
            self.is_alive(id) && k >= 1 ==> #[trigger] self.ancestor_at(id, k) != Some(id)
    }

    /// `set_parent` changes the hierarchy: both handles are live, distinct, and
    /// `child` is not above `parent`.
    pub open spec fn set_parent_applies(self, child: EntityId, parent: EntityId) -> bool {
        self.is_alive(child) && self.is_alive(parent) && child != parent && !self.is_ancestor(
            child,
            parent,
        )
    }

    pub open spec fn set_parent(self, child: EntityId, parent: EntityId) -> WorldView {
        if !self.set_parent_applies(child, parent) {
            self
        } else {
            let ci = child.index as int;
            let pi = parent.index as int;
            let children1 = self.unlink_child(self.children, self.parents[ci], child);
            let children2 = match children1[pi] {
                Some(ch) => children1.update(pi, Some(ch.push(child))),
                None => children1.update(pi, Some(seq![child])),
            };
            WorldView { parents: self.parents.update(ci, Some(parent)), children: children2, ..self }
        }
    }

    pub open spec fn remove_parent(self, child: EntityId) -> WorldView {
        if !self.is_alive(child) {
            self
        } else {
            let ci = child.index as int;
            match self.parents[ci] {
                Some(p) => WorldView {
                    parents: self.parents.update(ci, None),
                    children: self.unlink_child(self.children, Some(p), child),
                    ..self
                },
                None => self,
            }
        }
    }

    pub open spec fn set_mesh_renderer(self, id: EntityId, m: MeshRenderer) -> WorldView {
        if self.is_alive(id) {
            WorldView { mesh_renderers: self.mesh_renderers.update(id.index as int, Some(m)), ..self }
        } else {
            self
        }
    }

    pub open spec fn remove_mesh_renderer(self, id: EntityId) -> WorldView {
        if self.is_alive(id) {
            WorldView { mesh_renderers: self.mesh_renderers.update(id.index as int, None), ..self }
        } else {
            self
        }
    }

    pub open spec fn mesh_renderer_of(self, id: EntityId) -> Option<MeshRenderer> {
        if self.is_alive(id) {
            self.mesh_renderers[id.index as int]
        } else {
            None
        }
    }

    /// Handles of the live entities among the first `n` slots, in slot order.
    pub open spec fn live_ids_upto(self, n: nat) -> Seq<EntityId>
        decreases n,
    {
        if n == 0 {
            Seq::empty()
        } else {
            let r = self.live_ids_upto((n - 1) as nat);
            if self.alive[n - 1] {
                r.push(self.id_at(n - 1))
            } else {
                r
            }
        }
    }

    pub open spec fn live_ids(self) -> Seq<EntityId> {
        self.live_ids_upto(self.len())
    }

    pub open spec fn entity_count(self) -> nat {
        count_true(self.alive)
    }

    pub open spec fn snapshot(self) -> SnapshotView {
        SnapshotView {
            generations: self.generations,
            alive: self.alive,
            names: self.names,
            mesh_renderers: self.mesh_renderers,
            parents: self.parents,
            children: self.children,
        }
    }

    /// A snapshot can be restored when it is no longer than this world and
    /// none of its generations lies past what its slot has handed out (as for
    /// every snapshot of this world).
    pub open spec fn can_restore(self, s: SnapshotView) -> bool {
        &&& s.generations.len() <= self.generations.len()
        &&& forall|i: int| 0 <= i < s.generations.len() ==> s.generations[i] <= self.issued[i]
    }

    /// Restoring puts back every per-slot table of the snapshot together with
    /// the generations of its slots, so the entities it held answer to their
    /// handles again. Slots added since stay, dead and empty, under their
    /// current generations; what each slot has handed out is kept, so no later
    /// spawn hands out a handle given out before. The free list is rebuilt
    /// from the dead slots.
    pub open spec fn restore(self, s: SnapshotView) -> WorldView {
        let n = self.generations.len();
        let m = s.alive.len();
        let alive = s.alive + Seq::new((n - m) as nat, |i: int| false);
        WorldView {
            generations: s.generations + self.generations.subrange(s.generations.len() as int, n as int),
            issued: self.issued,
            alive: alive,
            free_list: dead_indices(alive),
            names: s.names + Seq::new((n - m) as nat, |i: int| Seq::<char>::empty()),
            mesh_renderers: s.mesh_renderers + Seq::new((n - m) as nat, |i: int| None::<MeshRenderer>),
            parents: s.parents + Seq::new((n - m) as nat, |i: int| None::<EntityId>),
            children: s.children + Seq::new((n - m) as nat, |i: int| None::<Seq<EntityId>>),
        }
    }

    /// Room to spawn `n` entities in a row without a counter overflowing.
    pub open spec fn can_spawn_n(self, n: nat) -> bool {
        &&& forall|k: int|
            0 <= k < self.free_list.len() ==> (#[trigger] self.free_list[k] as int) < self.issued.len()
                && self.issued[self.free_list[k] as int] < u32::MAX
        &&& self.generations.len() + n <= u32::MAX
    }

    /// The same entities, names, meshes and links: everything a caller of the
    /// world can observe.
    pub open spec fn same_entities(self, other: WorldView) -> bool {
        &&& self.generations == other.generations
        &&& self.issued == other.issued
        &&& self.alive == other.alive
        &&& self.names == other.names
        &&& self.mesh_renderers == other.mesh_renderers
        &&& self.parents == other.parents
        &&& self.children == other.children
    }
}

} // verus!
