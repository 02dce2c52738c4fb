use vstd::prelude::*;

use crate::duplicate::{link_copies, spawn_copies};
use crate::editor::{spawned_for, BuiltinMeshes, SpawnRequest};
use crate::entity::EntityId;
use crate::import::{import_model, model_meshes, skin_animators_for, ImportedMesh, ImportedSkinnedMesh, SkinAnimator};
use crate::selection::EditorSelection;
use crate::undo::{UndoEntry, UndoStack};
use crate::world::World;

verus! {

/// Takes the current selection out of `sel`, leaving it empty.
fn take_selection(sel: &mut EditorSelection) -> (prev: Vec<EntityId>)
    ensures
        prev == old(sel).selected_entities,
        final(sel).selected_entities@.len() == 0,
{
    let mut prev: Vec<EntityId> = Vec::new();
    std::mem::swap(&mut prev, &mut sel.selected_entities);
    prev
}

/// The editor's "add" step: records the world as it was (`snap`, taken by
/// the caller before the call) with the selection in the undo history,
/// creates what was asked for, and selects it.
pub fn spawn_recorded<S>(
    world: &mut World,
    stack: &mut UndoStack<S>,
    sel: &mut EditorSelection,
    snap: S,
    req: SpawnRequest,
    meshes: BuiltinMeshes,
    canvas: Option<EntityId>,
) -> (id: EntityId)
    requires
        old(world).wf(),
        old(world)@.can_spawn(),
    ensures
        final(world).wf(),
        (final(world)@, id) == spawned_for(old(world)@, req, meshes, canvas),
        final(stack)@ == old(stack)@.push(UndoEntry { snapshot: snap, selected: old(sel).selected_entities }),
        final(sel).selected_entities@ == seq![id],
{
    let prev = take_selection(sel);
    stack.push(snap, prev);
    let id = world.spawn_for_request(req, meshes, canvas);
    sel.select(id);
    id
}

/// The editor's duplicate step: with entities to copy, records the world as
/// it was (`snap`) with the selection in the undo history, copies them (see
/// `duplicate_entities`) and selects the copies; with none, changes nothing.
pub fn duplicate_recorded<S>(
    world: &mut World,
    stack: &mut UndoStack<S>,
    sel: &mut EditorSelection,
    snap: S,
    ids: &Vec<EntityId>,
) -> (r: (Vec<EntityId>, Vec<(EntityId, EntityId)>))
    requires
        old(world).wf(),
        old(world)@.can_spawn_n(ids@.len()),
    ensures
        final(world).wf(),
        ids@.len() == 0 ==> {
            &&& final(world)@ == old(world)@
            &&& final(stack)@ == old(stack)@
            &&& final(sel).selected_entities@ == old(sel).selected_entities@
            &&& r.0@.len() == 0
            &&& r.1@.len() == 0
        },
        ids@.len() > 0 ==> {
            &&& r.0@ == spawn_copies(old(world)@, ids@).1
            &&& r.1@ == spawn_copies(old(world)@, ids@).2
            &&& final(world)@ == link_copies(spawn_copies(old(world)@, ids@).0, ids@, r.1@, ids@.len())
            &&& final(stack)@ == old(stack)@.push(UndoEntry { snapshot: snap, selected: old(sel).selected_entities })
            &&& final(sel).selected_entities@ == r.0@
        },
{
    if ids.len() == 0 {
        return (Vec::new(), Vec::new());
    }
    let prev = take_selection(sel);
    stack.push(snap, prev);
    let (copies, pairs) = world.duplicate_entities(ids);
    let ghost cv = copies@;
    sel.selected_entities = copies.clone();
    assert(sel.selected_entities@ =~= cv);
    (copies, pairs)
}

/// The selection after an import: the model's root, else its first mesh
/// entity; with no entity made, the selection is kept.
pub open spec fn import_selection(root: Option<EntityId>, ids: Seq<EntityId>, before: Seq<EntityId>) -> Seq<EntityId> {
    match root {
        Some(r) => seq![r],
        None => if ids.len() > 0 {
            seq![ids[0]]
        } else {
            before
        },
    }
}

/// The editor's import step: records the world as it was (`snap`) with the
/// selection in the undo history, creates the model's entities and skinned
/// animators (see `World::spawn_imported`), and selects the root, or the
/// first mesh entity when there is no root.
pub fn import_recorded<S>(
    world: &mut World,
    stack: &mut UndoStack<S>,
    sel: &mut EditorSelection,
    snap: S,
    model_name: &str,
    meshes: &Vec<ImportedMesh>,
    skinned: &Vec<ImportedSkinnedMesh>,
    clip_ids: &Vec<usize>,
) -> (r: (Option<EntityId>, Vec<EntityId>, Vec<(EntityId, SkinAnimator)>))
    requires
        old(world).wf(),
        old(world)@.can_spawn_n(meshes@.len() + skinned@.len() + 1),
    ensures
        final(world).wf(),
        (final(world)@, r.0, r.1@) == import_model(old(world)@, model_name@, model_meshes(meshes@, skinned@)),
        skin_animators_for(r.2@, r.1@, meshes@.len(), skinned@, clip_ids@),
        final(stack)@ == old(stack)@.push(UndoEntry { snapshot: snap, selected: old(sel).selected_entities }),
        final(sel).selected_entities@ == import_selection(r.0, r.1@, old(sel).selected_entities@),
{
    let prev = take_selection(sel);
    let kept = prev.clone();
    assert(kept@ =~= prev@);
    sel.selected_entities = kept;
    stack.push(snap, prev);
    let r = world.spawn_imported(model_name, meshes, skinned, clip_ids);
    match r.0 {
        Some(root) => sel.select(root),
        None => {
            if r.1.len() > 0 {
                sel.select(r.1[0]);
            }
        },
    }
    r
}

} // verus!
