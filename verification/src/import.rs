use vstd::prelude::*;

use crate::components::MeshRenderer;
use crate::entity::EntityId;
use crate::scene::lemma_spawn_budget;
use crate::world::{
    law_set_parent_links, law_spawn_fresh, lemma_ancestor_root, lemma_spawn_well_formed, lemma_wf_well_formed,
    well_formed, World,
};
use crate::world_model::WorldView;

verus! {

/// One mesh of an imported model: the name its entity gets and the id of its
/// geometry in the mesh store.
pub struct ImportedMesh {
    pub display_name: String,
    pub mesh_id: usize,
}

/// One skinned mesh of an imported model: the name its entity gets, the id of
/// its geometry in the mesh store, and the store id of its skeleton (if the
/// model's skin could be stored).
pub struct ImportedSkinnedMesh {
    pub display_name: String,
    pub mesh_id: usize,
    pub skeleton_id: Option<usize>,
}

/// The integer part of the skeletal animator a skinned mesh's entity gets:
/// its skeleton, the model's clips (store ids), and the clip that plays,
/// the first one when the model has any.
#[derive(Clone, Debug)]
pub struct SkinAnimator {
    pub skeleton_id: Option<usize>,
    pub clip_ids: Vec<usize>,
    pub active_clip: Option<usize>,
}

/// The entity part of a skinned mesh: a name and a mesh, like a static one.
pub open spec fn skinned_as_mesh(s: ImportedSkinnedMesh) -> ImportedMesh {
    ImportedMesh { display_name: s.display_name, mesh_id: s.mesh_id }
}

/// Every mesh of a model in the order its entities are made: the static
/// meshes, then the skinned ones.
pub open spec fn model_meshes(meshes: Seq<ImportedMesh>, skinned: Seq<ImportedSkinnedMesh>) -> Seq<ImportedMesh> {
    meshes + skinned.map_values(|s: ImportedSkinnedMesh| skinned_as_mesh(s))
}

/// The clip a skinned entity starts on: the first of the model's clips.
pub open spec fn first_clip(clip_ids: Seq<usize>) -> Option<usize> {
    if clip_ids.len() == 0 {
        None
    } else {
        Some(0)
    }
}

/// The animators handed out for a model's skinned meshes: one per skinned
/// mesh, on the entity made for it (after the `n_static` static ones), on its
/// skeleton, with the model's clips, playing the first clip if there is one.
pub open spec fn skin_animators_for(
    anims: Seq<(EntityId, SkinAnimator)>,
    ids: Seq<EntityId>,
    n_static: nat,
    skinned: Seq<ImportedSkinnedMesh>,
    clip_ids: Seq<usize>,
) -> bool {
    &&& anims.len() == skinned.len()
    &&& forall|k: int|
        0 <= k < skinned.len() ==> {
            let (id, a) = #[trigger] anims[k];
            &&& id == ids[n_static + k]
            &&& a.skeleton_id == skinned[k].skeleton_id
            &&& a.clip_ids@ == clip_ids
            &&& a.active_clip == first_clip(clip_ids)
        }
}

/// The visible mesh renderer an imported mesh's entity gets.
pub open spec fn imported_renderer(mesh_id: usize) -> MeshRenderer {
    MeshRenderer { mesh_id: Some(mesh_id), visible: true }
}

/// Spawning one entity per mesh, in order: named after the mesh, attached
/// under `root` when there is one, and given the mesh's renderer.
pub open spec fn spawn_meshes(v: WorldView, root: Option<EntityId>, meshes: Seq<ImportedMesh>) -> (WorldView, Seq<EntityId>)
    decreases meshes.len(),
{
    if meshes.len() == 0 {
        (v, Seq::empty())
    } else {
        let (w, ids) = spawn_meshes(v, root, meshes.drop_last());
        let m = meshes.last();
        let (w1, id) = w.spawn();
        let w2 = w1.set_name(id, m.display_name@);
        let w3 = match root {
            Some(r) => w2.set_parent(id, r),
            None => w2,
        };
        (w3.set_mesh_renderer(id, imported_renderer(m.mesh_id)), ids.push(id))
    }
}

/// Importing a model: with more than one mesh, a root entity named after the
/// model comes first and every mesh entity goes under it; a single mesh
/// stands alone. Returns the world, the root and the mesh entities.
pub open spec fn import_model(v: WorldView, model_name: Seq<char>, meshes: Seq<ImportedMesh>) -> (WorldView, Option<EntityId>, Seq<EntityId>) {
    if meshes.len() > 1 {
        let (v1, root) = v.spawn();
        let (w, ids) = spawn_meshes(v1.set_name(root, model_name), Some(root), meshes);
        (w, Some(root), ids)
    } else {
        let (w, ids) = spawn_meshes(v, None, meshes);
        (w, None, ids)
    }
}

impl World {
    fn spawn_meshes_into(&mut self, root: Option<EntityId>, meshes: &Vec<ImportedMesh>) -> (ids: Vec<EntityId>)
        requires
            old(self).wf(),
            old(self)@.can_spawn_n(meshes@.len()),
        ensures
            final(self).wf(),
            (final(self)@, ids@) == spawn_meshes(old(self)@, root, meshes@),
    {
        let mut ids: Vec<EntityId> = Vec::new();
        let mut k: usize = 0;
        while k < meshes.len()
            invariant
                self.wf(),
                k <= meshes@.len(),
                (self@, ids@) == spawn_meshes(old(self)@, root, meshes@.subrange(0, k as int)),
                self@.can_spawn_n((meshes@.len() - k) as nat),
            decreases meshes@.len() - k,
        {
            assert(meshes@.subrange(0, k + 1).drop_last() =~= meshes@.subrange(0, k as int));
            proof {
                lemma_wf_well_formed(self);
                lemma_spawn_budget(self@, (meshes@.len() - k) as nat);
            }
            let id = self.spawn_entity();
            self.set_name(id, meshes[k].display_name.as_str());
            match root {
                Some(r) => {
                    self.set_parent(id, r);
                },
                None => {},
            }
            self.set_mesh_renderer(id, MeshRenderer { mesh_id: Some(meshes[k].mesh_id), visible: true });
            ids.push(id);
            k = k + 1;
        }
        assert(meshes@.subrange(0, meshes@.len() as int) =~= meshes@);
        ids
    }

    /// Creates the entities of an imported model's static meshes followed by
    /// its skinned meshes (see `model_entities`), and gives each skinned
    /// entity a skeletal animator on its skeleton with the model's clips,
    /// playing the first clip when there is one. Returns the root, if any, the
    /// mesh entities in order, and each skinned entity with its animator.
    /// Transforms and materials are set by the caller.
    pub fn spawn_imported(
        &mut self,
        model_name: &str,
        meshes: &Vec<ImportedMesh>,
        skinned: &Vec<ImportedSkinnedMesh>,
        clip_ids: &Vec<usize>,
    ) -> (r: (Option<EntityId>, Vec<EntityId>, Vec<(EntityId, SkinAnimator)>))
        requires
            old(self).wf(),
            old(self)@.can_spawn_n(meshes@.len() + skinned@.len() + 1),
        ensures
            final(self).wf(),
            (final(self)@, r.0, r.1@) == import_model(old(self)@, model_name@, model_meshes(meshes@, skinned@)),
            skin_animators_for(r.2@, r.1@, meshes@.len(), skinned@, clip_ids@),
    {
        let mut all: Vec<ImportedMesh> = Vec::new();
        let mut i: usize = 0;
        while i < meshes.len()
            invariant
                i <= meshes@.len(),
                all@ == meshes@.subrange(0, i as int),
            decreases meshes.len() - i,
        {
            all.push(ImportedMesh { display_name: meshes[i].display_name.clone(), mesh_id: meshes[i].mesh_id });
            i = i + 1;
        }
        let ghost sk = skinned@.map_values(|s: ImportedSkinnedMesh| skinned_as_mesh(s));
        let mut j: usize = 0;
        while j < skinned.len()
            invariant
                j <= skinned@.len(),
                sk == skinned@.map_values(|s: ImportedSkinnedMesh| skinned_as_mesh(s)),
                all@ == meshes@ + sk.subrange(0, j as int),
            decreases skinned.len() - j,
        {
            all.push(ImportedMesh { display_name: skinned[j].display_name.clone(), mesh_id: skinned[j].mesh_id });
            assert(all@ =~= meshes@ + sk.subrange(0, j + 1));
            j = j + 1;
        }
        assert(sk.subrange(0, sk.len() as int) =~= sk);
        assert(all@ == model_meshes(meshes@, skinned@));
        let (root, ids) = self.spawn_model_entities(model_name, &all);
        proof {
            lemma_wf_well_formed(old(self));
            law_import_model(old(self)@, model_name@, all@);
        }
        let n_ids = ids.len();
        let mut animators: Vec<(EntityId, SkinAnimator)> = Vec::new();
        let mut k: usize = 0;
        while k < skinned.len()
            invariant
                k <= skinned@.len(),
                n_ids == ids@.len(),
                ids@.len() == meshes@.len() + skinned@.len(),
                animators@.len() == k,
                forall|q: int|
                    0 <= q < k ==> {
                        let (id, a) = #[trigger] animators@[q];
                        &&& id == ids@[meshes@.len() + q]
                        &&& a.skeleton_id == skinned@[q].skeleton_id
                        &&& a.clip_ids@ == clip_ids@
                        &&& a.active_clip == first_clip(clip_ids@)
                    },
            decreases skinned.len() - k,
        {
            let clips = clip_ids.clone();
            assert(clips@ =~= clip_ids@);
            let active = if clip_ids.len() == 0 {
                None
            } else {
                Some(0)
            };
            let idx: usize = meshes.len() + k;
            animators.push((ids[idx], SkinAnimator { skeleton_id: skinned[k].skeleton_id, clip_ids: clips, active_clip: active }));
            k = k + 1;
        }
        (root, ids, animators)
    }

    /// Creates the entities of an imported model (see `import_model`): with
    /// more than one mesh, a root entity named `model_name` and one child per
    /// mesh; with a single mesh, that mesh's entity alone.
    fn spawn_model_entities(&mut self, model_name: &str, meshes: &Vec<ImportedMesh>) -> (r: (Option<EntityId>, Vec<EntityId>))
        requires
            old(self).wf(),
            old(self)@.can_spawn_n(meshes@.len() + 1),
        ensures
            final(self).wf(),
            (final(self)@, r.0, r.1@) == import_model(old(self)@, model_name@, meshes@),
    {
        if meshes.len() > 1 {
            proof {
                lemma_wf_well_formed(self);
                lemma_spawn_budget(self@, meshes@.len() + 1);
            }
            let root = self.spawn_entity();
            self.set_name(root, model_name);
            let ids = self.spawn_meshes_into(Some(root), meshes);
            (Some(root), ids)
        } else {
            proof {
                lemma_wf_well_formed(self);
            }
            let ids = self.spawn_meshes_into(None, meshes);
            (None, ids)
        }
    }
}

/// The facts `lemma_spawn_meshes` establishes about one run.
spec fn spawn_meshes_facts(v: WorldView, root: Option<EntityId>, meshes: Seq<ImportedMesh>) -> bool {
    let (w, ids) = spawn_meshes(v, root, meshes);
    &&& well_formed(w)
    &&& w.generations.len() == w.alive.len()
    &&& w.can_spawn_n(0)
    &&& w.generations.len() <= v.generations.len() + meshes.len()
    &&& ids.len() == meshes.len()
    &&& forall|k: int| 0 <= k < ids.len() ==> w.is_alive(#[trigger] ids[k]) && !v.is_alive(ids[k])
    &&& forall|a: int, b: int| 0 <= a < b < ids.len() ==> #[trigger] ids[a] != #[trigger] ids[b]
    &&& forall|k: int| 0 <= k < ids.len() ==> #[trigger] w.names[ids[k].index as int] == meshes[k].display_name@
    &&& forall|k: int| 0 <= k < ids.len() ==> #[trigger] w.mesh_renderer_of(ids[k]) == Some(imported_renderer(meshes[k].mesh_id))
    &&& forall|k: int| 0 <= k < ids.len() ==> #[trigger] w.parent_of(ids[k]) == root
    &&& forall|x: EntityId| #[trigger] v.is_alive(x) ==> w.is_alive(x) && w.names[x.index as int] == v.names[x.index as int]
        && w.mesh_renderer_of(x) == v.mesh_renderer_of(x) && w.parent_of(x) == v.parent_of(x)
}

/// What a run of `spawn_meshes` gives: fresh, distinct, live entities, each
/// carrying its mesh's name and renderer and placed under `root`, with the
/// entities that were there before left as they were.
proof fn lemma_spawn_meshes(v: WorldView, root: Option<EntityId>, meshes: Seq<ImportedMesh>)
    requires
        well_formed(v),
        v.can_spawn_n(meshes.len()),
        root matches Some(r) ==> v.is_alive(r) && v.parent_of(r) is None,
    ensures
        spawn_meshes_facts(v, root, meshes),
    decreases meshes.len(),
{
    if meshes.len() == 0 {
        assert(spawn_meshes(v, root, meshes) == (v, Seq::<EntityId>::empty()));
        assert(spawn_meshes_facts(v, root, meshes));
    } else {
        let t = meshes.drop_last();
        lemma_spawn_meshes(v, root, t);
        let (w, ids) = spawn_meshes(v, root, t);
        let m = meshes.last();
        assert(w.can_spawn_n(1));
        lemma_spawn_budget(w, 1);
        law_spawn_fresh(w);
        lemma_spawn_well_formed(w);
        let (w1, id) = w.spawn();
        let w2 = w1.set_name(id, m.display_name@);
        let w3 = match root {
            Some(r) => w2.set_parent(id, r),
            None => w2,
        };
        let w4 = w3.set_mesh_renderer(id, imported_renderer(m.mesh_id));
        let ids2 = ids.push(id);
        assert(spawn_meshes(v, root, meshes) == (w4, ids2));
        // a slot shared with a live entity would make the two handles equal
        assert forall|x: EntityId| #[trigger] w.is_alive(x) implies x.index != id.index by {
            if x.index == id.index {
                assert(w1.is_alive(x));
            }
        }
        match root {
            Some(r) => {
                assert(w.is_alive(r));
                assert(w2.parent_of(r) is None);
                assert forall|k: nat| k >= 1 implies #[trigger] w2.ancestor_at(r, k) != Some(id) by {
                    lemma_ancestor_root(w2, r, k);
                }
                assert(!w2.is_ancestor(id, r));
                assert(w2.set_parent_applies(id, r));
                law_set_parent_links(w2, id, r);
                assert(w3.parents == w2.parents.update(id.index as int, Some(r)));
            },
            None => {},
        }
        assert(w3.names == w2.names && w3.mesh_renderers == w2.mesh_renderers);
        assert(w3.generations == w.spawn().0.generations && w3.alive == w1.alive && w3.free_list == w1.free_list);
        assert forall|x: EntityId| #[trigger] w4.is_alive(x) == (w.is_alive(x) || x == id) by {}
        assert forall|x: EntityId| w.is_alive(x) implies #[trigger] w4.names[x.index as int] == w.names[x.index as int]
            && w4.mesh_renderer_of(x) == w.mesh_renderer_of(x) && w4.parent_of(x) == w.parent_of(x) by {
            assert(x.index != id.index);
        }
        assert forall|k: int| 0 <= k < ids2.len() implies w4.is_alive(#[trigger] ids2[k]) && !v.is_alive(ids2[k]) by {
            if k < ids.len() {
                assert(ids2[k] == ids[k]);
            } else {
                if v.is_alive(id) {
                    assert(w.is_alive(id));
                }
            }
        }
        assert forall|a: int, b: int| 0 <= a < b < ids2.len() implies #[trigger] ids2[a] != #[trigger] ids2[b] by {
            if b == ids.len() {
                assert(w.is_alive(ids2[a]));
            } else {
                assert(ids2[a] == ids[a] && ids2[b] == ids[b]);
            }
        }
        assert forall|k: int| 0 <= k < ids2.len() implies #[trigger] w4.names[ids2[k].index as int] == meshes[k].display_name@
            && w4.mesh_renderer_of(ids2[k]) == Some(imported_renderer(meshes[k].mesh_id))
            && w4.parent_of(ids2[k]) == root by {
            if k < ids.len() {
                let x = ids[k];
                assert(ids2[k] == x);
                assert(t[k] == meshes[k]);
                assert(w.is_alive(x));
                assert(w.names[x.index as int] == t[k].display_name@);
                assert(w.mesh_renderer_of(x) == Some(imported_renderer(t[k].mesh_id)));
                assert(w.parent_of(x) == root);
                assert(w4.names[x.index as int] == w.names[x.index as int]);
                assert(w4.mesh_renderer_of(x) == w.mesh_renderer_of(x));
                assert(w4.parent_of(x) == w.parent_of(x));
            } else {
                assert(ids2[k] == id);
                assert(meshes[k] == m);
                assert(w1.is_alive(id));
                assert(w2.names[id.index as int] == m.display_name@);
                assert(w3.parent_of(id) == root);
            }
        }
        assert forall|k: int| 0 <= k < ids2.len() implies #[trigger] w4.mesh_renderer_of(ids2[k]) == Some(imported_renderer(meshes[k].mesh_id)) by {
            assert(w4.names[ids2[k].index as int] == meshes[k].display_name@);
        }
        assert forall|k: int| 0 <= k < ids2.len() implies #[trigger] w4.parent_of(ids2[k]) == root by {
            assert(w4.names[ids2[k].index as int] == meshes[k].display_name@);
        }
        assert forall|i: int|
            0 <= i < w4.alive.len() && (#[trigger] w4.parents[i]) is Some implies {
                let p = w4.parents[i]->0;
                &&& (p.index as int) < w4.alive.len()
                &&& p.generation <= w4.generations[p.index as int]
            } by {
            if i == id.index as int {
                match root {
                    Some(r) => {
                        assert(w1.is_alive(r));
                    },
                    None => {},
                }
            } else {
                assert(w4.parents[i] == w1.parents[i]);
            }
        }
        assert forall|x: EntityId| #[trigger] v.is_alive(x) implies w4.is_alive(x) && w4.names[x.index as int] == v.names[x.index as int]
                && w4.mesh_renderer_of(x) == v.mesh_renderer_of(x) && w4.parent_of(x) == v.parent_of(x) by {
            assert(w.is_alive(x));
        }
        assert(spawn_meshes_facts(v, root, meshes));
    }
}

/// Importing a model creates one fresh, live entity per mesh, in order, named
/// after the mesh (no name for an empty one) and rendering it. With more than
/// one mesh they all sit under a fresh root named after the model, which has no
/// parent itself; a single mesh's entity has no parent. Entities that were
/// there before keep their names, renderers and parents.
pub proof fn law_import_model(v: WorldView, model_name: Seq<char>, meshes: Seq<ImportedMesh>)
    requires
        well_formed(v),
        v.can_spawn_n(meshes.len() + 1),
    ensures
        ({
            let (w, root, ids) = import_model(v, model_name, meshes);
            &&& well_formed(w)
            &&& ids.len() == meshes.len()
            &&& forall|k: int| 0 <= k < ids.len() ==> w.is_alive(#[trigger] ids[k]) && !v.is_alive(ids[k])
            &&& forall|a: int, b: int| 0 <= a < b < ids.len() ==> #[trigger] ids[a] != #[trigger] ids[b]
            &&& forall|k: int| 0 <= k < ids.len() ==> #[trigger] w.name_of(ids[k]) == if meshes[k].display_name@.len() > 0 {
                Some(meshes[k].display_name@)
            } else {
                None
            }
            &&& forall|k: int| 0 <= k < ids.len() ==> #[trigger] w.mesh_renderer_of(ids[k]) == Some(imported_renderer(meshes[k].mesh_id))
            &&& forall|k: int| 0 <= k < ids.len() ==> #[trigger] w.parent_of(ids[k]) == root
            &&& (root is Some <==> meshes.len() > 1)
            &&& root matches Some(r) ==> {
                &&& w.is_alive(r)
                &&& !v.is_alive(r)
                &&& w.parent_of(r) is None
                &&& w.name_of(r) == if model_name.len() > 0 { Some(model_name) } else { None }
                &&& forall|k: int| 0 <= k < ids.len() ==> #[trigger] ids[k] != r
            }
            &&& forall|x: EntityId| #[trigger] v.is_alive(x) ==> w.is_alive(x) && w.name_of(x) == v.name_of(x)
                && w.mesh_renderer_of(x) == v.mesh_renderer_of(x) && w.parent_of(x) == v.parent_of(x)
        }),
{
    if meshes.len() > 1 {
        lemma_spawn_budget(v, meshes.len() + 1);
        law_spawn_fresh(v);
        lemma_spawn_well_formed(v);
        let (v1, r) = v.spawn();
        let v2 = v1.set_name(r, model_name);
        assert forall|x: EntityId| #[trigger] v.is_alive(x) implies x.index != r.index by {
            if x.index == r.index {
                assert(v1.is_alive(x));
            }
        }
        lemma_spawn_meshes(v2, Some(r), meshes);
        assert(spawn_meshes_facts(v2, Some(r), meshes));
        let (w, ids) = spawn_meshes(v2, Some(r), meshes);
        assert forall|k: int| 0 <= k < ids.len() implies #[trigger] ids[k] != r by {
            assert(!v2.is_alive(ids[k]));
        }
        assert forall|x: EntityId| #[trigger] v.is_alive(x) implies w.is_alive(x) && w.name_of(x) == v.name_of(x)
            && w.mesh_renderer_of(x) == v.mesh_renderer_of(x) && w.parent_of(x) == v.parent_of(x) by {
            assert(v2.is_alive(x));
        }
        assert forall|k: int| 0 <= k < ids.len() implies !v.is_alive(#[trigger] ids[k]) by {
            if v.is_alive(ids[k]) {
                assert(v2.is_alive(ids[k]));
            }
        }
    } else {
        lemma_spawn_meshes(v, None, meshes);
        assert(spawn_meshes_facts(v, None, meshes));
    }
}

} // verus!
