use vstd::prelude::*;

use crate::components::MeshRenderer;
use crate::entity::EntityId;
use crate::scene::lemma_spawn_budget;
use crate::world::{
    law_set_parent_links, law_spawn_fresh, lemma_spawn_count, lemma_spawn_well_formed, lemma_wf_well_formed, well_formed,
    World,
};
use crate::world_model::WorldView;

verus! {

/// One entity of a scene plan: its name, the mesh it renders, if any, and the
/// position in the plan of its parent, if any.
pub struct PlannedEntity {
    pub name: String,
    pub mesh_id: Option<usize>,
    pub parent: Option<usize>,
}

/// A plan entry as plain values.
pub open spec fn planned(e: PlannedEntity) -> (Seq<char>, Option<usize>, Option<usize>) {
    (e.name@, e.mesh_id, e.parent)
}

/// A plan as plain values.
pub open spec fn plan_view(plan: Seq<PlannedEntity>) -> Seq<(Seq<char>, Option<usize>, Option<usize>)> {
    plan.map_values(|e: PlannedEntity| planned(e))
}

/// The visible renderer of a planned mesh.
pub open spec fn planned_renderer(mesh_id: usize) -> MeshRenderer {
    MeshRenderer { mesh_id: Some(mesh_id), visible: true }
}

/// Spawning the entities of a plan in order: each is named as planned, renders
/// its planned mesh, and goes under the entity spawned for its planned parent
/// when that one comes earlier in the plan.
pub open spec fn spawn_plan(v: WorldView, plan: Seq<(Seq<char>, Option<usize>, Option<usize>)>) -> (WorldView, Seq<EntityId>)
    decreases plan.len(),
{
    if plan.len() == 0 {
        (v, Seq::empty())
    } else {
        let (w, ids) = spawn_plan(v, plan.drop_last());
        let (name, mesh, parent) = plan.last();
        let (w1, id) = w.spawn();
        let w2 = w1.set_name(id, name);
        let w3 = match mesh {
            Some(m) => w2.set_mesh_renderer(id, planned_renderer(m)),
            None => w2,
        };
        let w4 = match parent {
            Some(p) => if (p as int) < ids.len() {
                w3.set_parent(id, ids[p as int])
            } else {
                w3
            },
            None => w3,
        };
        (w4, ids.push(id))
    }
}

/// The showcase scene of nine entities: three lights, a ground slab, two
/// scripted meshes and three static showcase meshes.
pub open spec fn showcase(cube: usize, sphere: usize) -> Seq<(Seq<char>, Option<usize>, Option<usize>)> {
    seq![
        ("Sun"@, None, None),
        ("PointLight"@, None, None),
        ("WarmLight"@, None, None),
        ("Ground"@, Some(cube), None),
        ("Cube"@, Some(cube), None),
        ("Sphere"@, Some(sphere), None),
        ("MetalSphere"@, Some(sphere), None),
        ("RedCube"@, Some(cube), None),
        ("PedestalCube"@, Some(cube), None),
    ]
}

/// The six scripts the showcase scene starts with, by entity: the four
/// motion scripts on their meshes, the audio demo on the centre cube and the
/// player HUD on the sun, the scene-wide entity.
pub open spec fn showcase_scripts(ids: Seq<EntityId>) -> Seq<(EntityId, Seq<char>)> {
    seq![
        (ids[4], "Rotate & Pulse"@),
        (ids[5], "Oscillate"@),
        (ids[6], "Gravity Bounce"@),
        (ids[8], "Color Cycle"@),
        (ids[4], "Audio Demo"@),
        (ids[0], "Player HUD"@),
    ]
}

fn plan_entry(name: &str, mesh_id: Option<usize>, parent: Option<usize>) -> (e: PlannedEntity)
    ensures
        planned(e) == (name@, mesh_id, parent),
{
    PlannedEntity { name: name.to_string(), mesh_id, parent }
}

/// The showcase scene's plan.
pub fn showcase_plan(cube: usize, sphere: usize) -> (plan: Vec<PlannedEntity>)
    ensures
        plan_view(plan@) == showcase(cube, sphere),
{
    let mut plan: Vec<PlannedEntity> = Vec::new();
    plan.push(plan_entry("Sun", None, None));
    plan.push(plan_entry("PointLight", None, None));
    plan.push(plan_entry("WarmLight", None, None));
    plan.push(plan_entry("Ground", Some(cube), None));
    plan.push(plan_entry("Cube", Some(cube), None));
    plan.push(plan_entry("Sphere", Some(sphere), None));
    plan.push(plan_entry("MetalSphere", Some(sphere), None));
    plan.push(plan_entry("RedCube", Some(cube), None));
    plan.push(plan_entry("PedestalCube", Some(cube), None));
    assert(plan_view(plan@) =~= showcase(cube, sphere));
    plan
}

impl World {
    /// Spawns the entities of a plan, in order (see `spawn_plan`), and
    /// returns their handles.
    pub fn spawn_planned(&mut self, plan: &Vec<PlannedEntity>) -> (ids: Vec<EntityId>)
        requires
            old(self).wf(),
            old(self)@.can_spawn_n(plan@.len()),
        ensures
            final(self).wf(),
            (final(self)@, ids@) == spawn_plan(old(self)@, plan_view(plan@)),
    {
        let mut ids: Vec<EntityId> = Vec::new();
        let mut k: usize = 0;
        while k < plan.len()
            invariant
                self.wf(),
                k <= plan@.len(),
                (self@, ids@) == spawn_plan(old(self)@, plan_view(plan@.subrange(0, k as int))),
                self@.can_spawn_n((plan@.len() - k) as nat),
            decreases plan@.len() - k,
        {
            assert(plan_view(plan@.subrange(0, k + 1)).drop_last() =~= plan_view(plan@.subrange(0, k as int)));
            assert(plan_view(plan@.subrange(0, k + 1)).last() == planned(plan@[k as int]));
            proof {
                lemma_wf_well_formed(self);
                lemma_spawn_budget(self@, (plan@.len() - k) as nat);
            }
            let e = &plan[k];
            let id = self.spawn_entity();
            self.set_name(id, e.name.as_str());
            match e.mesh_id {
                Some(m) => {
                    self.set_mesh_renderer(id, MeshRenderer { mesh_id: Some(m), visible: true });
                },
                None => {},
            }
            match e.parent {
                Some(p) => {
                    if p < ids.len() {
                        self.set_parent(id, ids[p]);
                    }
                },
                None => {},
            }
            ids.push(id);
            k = k + 1;
        }
        assert(plan@.subrange(0, plan@.len() as int) =~= plan@);
        ids
    }
}

/// Builds the showcase scene of a new demo project (see `showcase`) with the
/// given built-in cube and sphere meshes, and returns the scripts it starts
/// with, by entity and script name. Transforms, lights, materials and the
/// other float-valued components are set by the caller.
pub fn setup_default_scene(world: &mut World, cube_mesh_id: usize, sphere_mesh_id: usize) -> (r: (Vec<EntityId>, Vec<(EntityId, String)>))
    requires
        old(world).wf(),
        old(world)@.can_spawn_n(9),
    ensures
        final(world).wf(),
        (final(world)@, r.0@) == spawn_plan(old(world)@, showcase(cube_mesh_id, sphere_mesh_id)),
        r.1@.map_values(|s: (EntityId, String)| (s.0, s.1@)) == showcase_scripts(r.0@),
        r.0@.len() == 9,
        r.1@.len() == 6,
        final(world)@.entity_count() == old(world)@.entity_count() + 9,
        forall|k: int| 0 <= k < r.1@.len() ==> final(world)@.is_alive(#[trigger] r.1@[k].0),
{
    let plan = showcase_plan(cube_mesh_id, sphere_mesh_id);
    let ids = world.spawn_planned(&plan);
    proof {
        lemma_spawn_plan_len(old(world)@, showcase(cube_mesh_id, sphere_mesh_id));
    }
    let mut scripts: Vec<(EntityId, String)> = Vec::new();
    scripts.push((ids[4], "Rotate & Pulse".to_string()));
    scripts.push((ids[5], "Oscillate".to_string()));
    scripts.push((ids[6], "Gravity Bounce".to_string()));
    scripts.push((ids[8], "Color Cycle".to_string()));
    scripts.push((ids[4], "Audio Demo".to_string()));
    scripts.push((ids[0], "Player HUD".to_string()));
    proof {
        lemma_wf_well_formed(old(world));
        law_spawn_plan(old(world)@, showcase(cube_mesh_id, sphere_mesh_id));
        lemma_spawn_plan(old(world)@, showcase(cube_mesh_id, sphere_mesh_id));
        assert(final(world)@.is_alive(ids@[0]) && final(world)@.is_alive(ids@[4]) && final(world)@.is_alive(ids@[5])
            && final(world)@.is_alive(ids@[6]) && final(world)@.is_alive(ids@[8]));
    }
    assert(scripts@.map_values(|s: (EntityId, String)| (s.0, s.1@)) =~= showcase_scripts(ids@));
    (ids, scripts)
}

/// A plan yields one handle per entry.
pub proof fn lemma_spawn_plan_len(v: WorldView, plan: Seq<(Seq<char>, Option<usize>, Option<usize>)>)
    ensures
        spawn_plan(v, plan).1.len() == plan.len(),
    decreases plan.len(),
{
    if plan.len() > 0 {
        lemma_spawn_plan_len(v, plan.drop_last());
    }
}

/// A freshly spawned entity is nobody's parent: every stored parent link
/// points at a slot and generation the world had already reached.
pub proof fn lemma_fresh_not_parent(w: WorldView)
    requires
        well_formed(w),
        w.can_spawn(),
    ensures
        forall|x: EntityId| #[trigger] w.spawn().0.parent_of(x) != Some(w.spawn().1),
{
    let (w1, id) = w.spawn();
    assert forall|x: EntityId| #[trigger] w1.parent_of(x) != Some(id) by {
        if w1.is_alive(x) && w1.parents[x.index as int] is Some {
            let i = x.index as int;
            assert(i < w.alive.len());
            assert(w1.parents[i] == w.parents[i]);
            let q = w.parents[i]->0;
            assert((q.index as int) < w.alive.len() && q.generation <= w.generations[q.index as int]);
        }
    }
}

/// Where the `k`-th planned entity ends up: under the entity spawned for its
/// planned parent when that one comes earlier in the plan, else at the top.
pub open spec fn planned_parent(ids: Seq<EntityId>, parent: Option<usize>, k: int) -> Option<EntityId> {
    match parent {
        Some(p) => if (p as int) < k {
            Some(ids[p as int])
        } else {
            None
        },
        None => None,
    }
}

/// The facts `law_spawn_plan` states, with the budget bookkeeping its
/// induction needs.
spec fn spawn_plan_facts(v: WorldView, plan: Seq<(Seq<char>, Option<usize>, Option<usize>)>) -> bool {
    let (w, ids) = spawn_plan(v, plan);
    &&& well_formed(w)
    &&& w.generations.len() == w.alive.len()
    &&& w.can_spawn_n(0)
    &&& w.generations.len() <= v.generations.len() + plan.len()
    &&& ids.len() == plan.len()
    &&& w.entity_count() == v.entity_count() + plan.len()
    &&& forall|k: int| 0 <= k < ids.len() ==> w.is_alive(#[trigger] ids[k]) && !v.is_alive(ids[k])
    &&& forall|a: int, b: int| 0 <= a < b < ids.len() ==> #[trigger] ids[a] != #[trigger] ids[b]
    &&& forall|k: int| 0 <= k < ids.len() ==> #[trigger] w.names[ids[k].index as int] == plan[k].0
    &&& forall|k: int| 0 <= k < ids.len() ==> #[trigger] w.mesh_renderer_of(ids[k]) == match plan[k].1 {
        Some(m) => Some(planned_renderer(m)),
        None => None,
    }
    &&& forall|k: int| 0 <= k < ids.len() ==> #[trigger] w.parent_of(ids[k]) == planned_parent(ids, plan[k].2, k)
    &&& forall|x: EntityId| #[trigger] v.is_alive(x) ==> w.is_alive(x) && w.names[x.index as int] == v.names[x.index as int]
        && w.mesh_renderer_of(x) == v.mesh_renderer_of(x) && w.parent_of(x) == v.parent_of(x)
}

proof fn lemma_spawn_plan(v: WorldView, plan: Seq<(Seq<char>, Option<usize>, Option<usize>)>)
    requires
        well_formed(v),
        v.can_spawn_n(plan.len()),
    ensures
        spawn_plan_facts(v, plan),
    decreases plan.len(),
{
    if plan.len() == 0 {
        assert(spawn_plan(v, plan) == (v, Seq::<EntityId>::empty()));
    } else {
        let t = plan.drop_last();
        lemma_spawn_plan(v, t);
        let (w, ids) = spawn_plan(v, t);
        let (name, mesh, parent) = plan.last();
        assert(w.can_spawn_n(1));
        lemma_spawn_budget(w, 1);
        law_spawn_fresh(w);
        lemma_spawn_count(w);
        lemma_spawn_well_formed(w);
        lemma_fresh_not_parent(w);
        let (w1, id) = w.spawn();
        let w2 = w1.set_name(id, name);
        let w3 = match mesh {
            Some(m) => w2.set_mesh_renderer(id, planned_renderer(m)),
            None => w2,
        };
        let w4 = match parent {
            Some(p) => if (p as int) < ids.len() {
                w3.set_parent(id, ids[p as int])
            } else {
                w3
            },
            None => w3,
        };
        let ids2 = ids.push(id);
        assert(spawn_plan(v, plan) == (w4, ids2));
        let k0 = ids.len() as int;
        assert forall|x: EntityId| #[trigger] w.is_alive(x) implies x.index != id.index by {
            if x.index == id.index {
                assert(w1.is_alive(x));
            }
        }
        assert(w3.parents == w1.parents && w3.names == w2.names && w3.alive == w1.alive);
        assert(w3.generations == w1.generations && w3.free_list == w1.free_list);
        match parent {
            Some(p) => {
                if (p as int) < ids.len() {
                    let t_id = ids[p as int];
                    assert(w.is_alive(t_id));
                    assert forall|k: nat| k >= 1 implies #[trigger] w3.ancestor_at(t_id, k) != Some(id) by {
                        assert(w1.parent_of(w3.ancestor_at(t_id, (k - 1) as nat)->0) != Some(id));
                    }
                    assert(w3.set_parent_applies(id, t_id));
                    law_set_parent_links(w3, id, t_id);
                    assert(w4.parents == w3.parents.update(id.index as int, Some(t_id)));
                }
            },
            None => {},
        }
        assert(w4.names == w3.names && w4.mesh_renderers == w3.mesh_renderers);
        assert(w4.generations == w1.generations && w4.alive == w1.alive && w4.free_list == w1.free_list);
        assert forall|x: EntityId| #[trigger] w4.is_alive(x) == (w.is_alive(x) || x == id) by {}
        assert forall|x: EntityId| w.is_alive(x) implies #[trigger] w4.names[x.index as int] == w.names[x.index as int]
            && w4.mesh_renderer_of(x) == w.mesh_renderer_of(x) && w4.parent_of(x) == w.parent_of(x) by {
            assert(x.index != id.index);
        }
        assert forall|k: int| 0 <= k < ids2.len() implies w4.is_alive(#[trigger] ids2[k]) && !v.is_alive(ids2[k]) by {
            if k < k0 {
                assert(ids2[k] == ids[k]);
            } else {
                if v.is_alive(id) {
                    assert(w.is_alive(id));
                }
            }
        }
        assert forall|a: int, b: int| 0 <= a < b < ids2.len() implies #[trigger] ids2[a] != #[trigger] ids2[b] by {
            if b == k0 {
                assert(w.is_alive(ids2[a]));
            } else {
                assert(ids2[a] == ids[a] && ids2[b] == ids[b]);
            }
        }
        assert forall|k: int| 0 <= k < ids2.len() implies #[trigger] w4.names[ids2[k].index as int] == plan[k].0 by {
            if k < k0 {
                assert(ids2[k] == ids[k] && t[k] == plan[k]);
                assert(w.is_alive(ids[k]));
            } else {
                assert(w1.is_alive(id));
            }
        }
        assert forall|k: int| 0 <= k < ids2.len() implies #[trigger] w4.mesh_renderer_of(ids2[k]) == match plan[k].1 {
            Some(m) => Some(planned_renderer(m)),
            None => None,
        } by {
            if k < k0 {
                assert(ids2[k] == ids[k] && t[k] == plan[k]);
                assert(w.is_alive(ids[k]));
                assert(w4.names[ids[k].index as int] == w.names[ids[k].index as int]);
                assert(w.mesh_renderer_of(ids[k]) == match t[k].1 {
                    Some(m) => Some(planned_renderer(m)),
                    None => None,
                });
            } else {
                assert(plan[k] == plan.last());
                assert(w1.is_alive(id));
                assert(w1.mesh_renderer_of(id) is None);
                assert(w4.mesh_renderer_of(id) == w3.mesh_renderer_of(id));
            }
        }
        assert forall|k: int| 0 <= k < ids2.len() implies #[trigger] w4.parent_of(ids2[k]) == planned_parent(ids2, plan[k].2, k) by {
            if k < k0 {
                assert(ids2[k] == ids[k] && t[k] == plan[k]);
                assert(w.is_alive(ids[k]));
                assert(w4.names[ids[k].index as int] == w.names[ids[k].index as int]);
                assert(w.parent_of(ids[k]) == planned_parent(ids, t[k].2, k));
                match plan[k].2 {
                    Some(p) => {
                        if (p as int) < k {
                            assert(ids2[p as int] == ids[p as int]);
                        }
                    },
                    None => {},
                }
            } else {
                assert(plan[k] == plan.last());
                assert(w1.is_alive(id));
                assert(w1.parent_of(id) is None);
                match parent {
                    Some(p) => {
                        if (p as int) < k0 {
                            assert(ids2[p as int] == ids[p as int]);
                        }
                    },
                    None => {},
                }
            }
        }
        assert forall|i: int|
            0 <= i < w4.alive.len() && (#[trigger] w4.parents[i]) is Some implies {
                let q = w4.parents[i]->0;
                &&& (q.index as int) < w4.alive.len()
                &&& q.generation <= w4.generations[q.index as int]
            } by {
            if i != id.index as int {
                assert(w4.parents[i] == w1.parents[i]);
            } else {
                match parent {
                    Some(p) => {
                        if (p as int) < k0 {
                            assert(w1.is_alive(ids[p as int]));
                        }
                    },
                    None => {},
                }
            }
        }
        assert forall|x: EntityId| #[trigger] v.is_alive(x) implies w4.is_alive(x) && w4.names[x.index as int] == v.names[x.index as int]
            && w4.mesh_renderer_of(x) == v.mesh_renderer_of(x) && w4.parent_of(x) == v.parent_of(x) by {
            assert(w.is_alive(x));
        }
        assert(spawn_plan_facts(v, plan));
    }
}

/// Spawning a plan creates one fresh, live entity per entry, in order, each
/// named as planned (no name for an empty one), rendering its planned mesh,
/// and placed under the entity of its planned parent when that one comes
/// earlier in the plan (at the top otherwise). Entities that were there
/// before keep their names, renderers and parents.
pub proof fn law_spawn_plan(v: WorldView, plan: Seq<(Seq<char>, Option<usize>, Option<usize>)>)
    requires
        well_formed(v),
        v.can_spawn_n(plan.len()),
    ensures
        ({
            let (w, ids) = spawn_plan(v, plan);
            &&& well_formed(w)
            &&& ids.len() == plan.len()
            &&& forall|k: int| 0 <= k < ids.len() ==> w.is_alive(#[trigger] ids[k]) && !v.is_alive(ids[k])
            &&& forall|a: int, b: int| 0 <= a < b < ids.len() ==> #[trigger] ids[a] != #[trigger] ids[b]
            &&& forall|k: int| 0 <= k < ids.len() ==> #[trigger] w.name_of(ids[k]) == if plan[k].0.len() > 0 {
                Some(plan[k].0)
            } else {
                None
            }
            &&& forall|k: int| 0 <= k < ids.len() ==> #[trigger] w.mesh_renderer_of(ids[k]) == match plan[k].1 {
                Some(m) => Some(planned_renderer(m)),
                None => None,
            }
            &&& forall|k: int| 0 <= k < ids.len() ==> #[trigger] w.parent_of(ids[k]) == planned_parent(ids, plan[k].2, k)
            &&& forall|x: EntityId| #[trigger] v.is_alive(x) ==> w.is_alive(x) && w.name_of(x) == v.name_of(x)
                && w.mesh_renderer_of(x) == v.mesh_renderer_of(x) && w.parent_of(x) == v.parent_of(x)
        }),
{
    lemma_spawn_plan(v, plan);
    let (w, ids) = spawn_plan(v, plan);
    assert forall|k: int| 0 <= k < ids.len() implies #[trigger] w.name_of(ids[k]) == if plan[k].0.len() > 0 {
        Some(plan[k].0)
    } else {
        None
    } by {
        assert(w.names[ids[k].index as int] == plan[k].0);
    }
}

} // verus!
