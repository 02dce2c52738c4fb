use clawdengine::components::MeshRenderer;
use clawdengine::import::{ImportedMesh, ImportedSkinnedMesh};
use clawdengine::recorded::{duplicate_recorded, import_recorded, spawn_recorded};
use clawdengine::editor::{BuiltinMeshes, SpawnRequest};
use clawdengine::selection::EditorSelection;
use clawdengine::undo::UndoStack;
use clawdengine::world::resolve_root_parent;
use clawdengine::entity::EntityId;
use clawdengine::scene::{prefab_outline, scene_outline, SceneNode};
use clawdengine::world::World;

fn tree() -> (World, Vec<EntityId>) {
    // root
    //  +- a
    //  |   +- a1
    //  +- b
    let mut w = World::new();
    let root = w.spawn_entity();
    let a = w.spawn_entity();
    let b = w.spawn_entity();
    let a1 = w.spawn_entity();
    w.set_name(root, "Root");
    w.set_name(a, "A");
    w.set_name(b, "B");
    w.set_name(a1, "A1");
    w.set_parent(a, root);
    w.set_parent(b, root);
    w.set_parent(a1, a);
    (w, vec![root, a, b, a1])
}

#[test]
fn collect_descendants_is_depth_first_in_child_order() {
    let (w, e) = tree();
    let mut out = Vec::new();
    w.collect_descendants(e[0], &mut out);
    assert_eq!(out, vec![e[0], e[1], e[3], e[2]]);
}

#[test]
fn collect_descendants_skips_what_is_already_collected() {
    let (w, e) = tree();
    let mut out = vec![e[1]];
    w.collect_descendants(e[0], &mut out);
    assert_eq!(out, vec![e[1], e[0], e[2]]);
    let before = out.clone();
    w.collect_descendants(e[2], &mut out);
    assert_eq!(out, before);
}

#[test]
fn delete_with_descendants_removes_the_whole_subtree_deepest_first() {
    let (mut w, e) = tree();
    let other = w.spawn_entity();
    let gone = w.delete_with_descendants(&vec![e[1]]);
    assert_eq!(gone, vec![e[3], e[1]]);
    assert!(!w.is_alive(e[1]) && !w.is_alive(e[3]));
    assert!(w.is_alive(e[0]) && w.is_alive(e[2]) && w.is_alive(other));
    assert_eq!(w.get_children(e[0]), &[e[2]][..]);
}

#[test]
fn delete_of_overlapping_selections_destroys_each_entity_once() {
    let (mut w, e) = tree();
    let gone = w.delete_with_descendants(&vec![e[3], e[0]]);
    assert_eq!(gone, vec![e[2], e[1], e[0], e[3]]);
    assert_eq!(w.entity_count(), 0);
}

#[test]
fn scene_outline_records_names_and_parent_positions() {
    let (w, _e) = tree();
    let nodes = scene_outline(&w);
    let got: Vec<(String, Option<usize>)> = nodes.iter().map(|n| (n.name.clone(), n.parent_index)).collect();
    assert_eq!(
        got,
        vec![
            ("Root".to_string(), None),
            ("A".to_string(), Some(0)),
            ("B".to_string(), Some(0)),
            ("A1".to_string(), Some(1)),
        ]
    );
}

#[test]
fn outline_round_trips_through_an_empty_world() {
    let (w, _e) = tree();
    let nodes = scene_outline(&w);
    let mut loaded = World::new();
    let ids = loaded.instantiate_outline(&nodes);
    assert_eq!(ids.len(), 4);
    let again = scene_outline(&loaded);
    let a: Vec<(String, Option<usize>)> = nodes.iter().map(|n| (n.name.clone(), n.parent_index)).collect();
    let b: Vec<(String, Option<usize>)> = again.iter().map(|n| (n.name.clone(), n.parent_index)).collect();
    assert_eq!(a, b);
}

#[test]
fn instantiate_ignores_unusable_parent_indices() {
    let nodes = vec![
        SceneNode { name: "Self".to_string(), parent_index: Some(0) },
        SceneNode { name: "Far".to_string(), parent_index: Some(9) },
        SceneNode { name: "Child".to_string(), parent_index: Some(0) },
    ];
    let mut w = World::new();
    let ids = w.instantiate_outline(&nodes);
    assert_eq!(w.get_parent(ids[0]), None);
    assert_eq!(w.get_parent(ids[1]), None);
    assert_eq!(w.get_parent(ids[2]), Some(ids[0]));
    assert_eq!(w.get_name(ids[1]), Some("Far"));
}

#[test]
fn instantiate_refuses_a_recorded_cycle() {
    let nodes = vec![
        SceneNode { name: "A".to_string(), parent_index: Some(1) },
        SceneNode { name: "B".to_string(), parent_index: Some(0) },
    ];
    let mut w = World::new();
    let ids = w.instantiate_outline(&nodes);
    assert_eq!(w.get_parent(ids[0]), Some(ids[1]));
    assert_eq!(w.get_parent(ids[1]), None);
}

#[test]
fn clear_entities_empties_the_world() {
    let (mut w, e) = tree();
    w.clear_entities();
    assert_eq!(w.entity_count(), 0);
    assert!(!w.is_alive(e[0]));
    let n = w.spawn_entity();
    assert_eq!(n.generation, 1);
}

#[test]
fn prefab_outline_covers_the_subtree_only() {
    let (w, e) = tree();
    let (ids, nodes) = prefab_outline(&w, e[1]);
    assert_eq!(ids, vec![e[1], e[3]]);
    assert_eq!(nodes[0].name, "A");
    assert_eq!(nodes[0].parent_index, None);
    assert_eq!(nodes[1].name, "A1");
    assert_eq!(nodes[1].parent_index, Some(0));
}

#[test]
fn duplicate_copies_names_and_links_copied_children() {
    let (mut w, e) = tree();
    w.set_mesh_renderer(e[1], MeshRenderer { mesh_id: Some(3), visible: true });
    let (copies, pairs) = w.duplicate_entities(&vec![e[1], e[3]]);
    assert_eq!(copies.len(), 2);
    assert_eq!(pairs, vec![(e[1], copies[0]), (e[3], copies[1])]);
    assert_eq!(w.get_name(copies[0]), Some("A (Copy)"));
    assert_eq!(w.get_name(copies[1]), Some("A1 (Copy)"));
    assert_eq!(w.get_mesh_renderer(copies[0]), Some(&MeshRenderer { mesh_id: Some(3), visible: true }));
    // The copy of a1 sits under the copy of a; the copy of a stays a root,
    // since root itself was not copied.
    assert_eq!(w.get_parent(copies[1]), Some(copies[0]));
    assert_eq!(w.get_parent(copies[0]), None);
    // The sources keep their places.
    assert_eq!(w.get_parent(e[3]), Some(e[1]));
    assert_eq!(w.get_name(e[1]), Some("A"));
}

#[test]
fn duplicate_skips_dead_entities() {
    let (mut w, e) = tree();
    w.destroy_entity(e[2]);
    let before = w.entity_count();
    let (copies, pairs) = w.duplicate_entities(&vec![e[2]]);
    assert!(copies.is_empty());
    assert!(pairs.is_empty());
    assert_eq!(w.entity_count(), before);
}

#[test]
fn click_climbs_to_the_top_without_meshes() {
    let (w, e) = tree();
    assert_eq!(resolve_root_parent(e[3], &w), e[0]);
    assert_eq!(resolve_root_parent(e[0], &w), e[0]);
}

#[test]
fn click_stops_below_a_parent_with_a_mesh() {
    let (mut w, e) = tree();
    w.set_mesh_renderer(e[0], MeshRenderer { mesh_id: Some(0), visible: true });
    assert_eq!(resolve_root_parent(e[3], &w), e[1]);
    w.set_mesh_renderer(e[1], MeshRenderer { mesh_id: Some(1), visible: true });
    assert_eq!(resolve_root_parent(e[3], &w), e[3]);
}

#[test]
fn import_of_several_meshes_puts_them_under_a_named_root() {
    let mut w = World::new();
    let meshes = vec![
        ImportedMesh { display_name: "Body".to_string(), mesh_id: 4 },
        ImportedMesh { display_name: "Wheel".to_string(), mesh_id: 7 },
    ];
    let (root, ids, anims) = w.spawn_imported("car", &meshes, &Vec::new(), &Vec::new());
    assert!(anims.is_empty());
    let root = root.expect("a root for two meshes");
    assert_eq!(w.get_name(root), Some("car"));
    assert_eq!(w.get_parent(root), None);
    assert_eq!(ids.len(), 2);
    assert_eq!(w.get_name(ids[0]), Some("Body"));
    assert_eq!(w.get_name(ids[1]), Some("Wheel"));
    assert_eq!(w.get_parent(ids[0]), Some(root));
    assert_eq!(w.get_parent(ids[1]), Some(root));
    assert_eq!(w.get_children(root), &[ids[0], ids[1]][..]);
    assert_eq!(w.get_mesh_renderer(ids[1]), Some(&MeshRenderer { mesh_id: Some(7), visible: true }));
    assert_eq!(w.get_mesh_renderer(root), None);
}

#[test]
fn import_of_one_mesh_has_no_root() {
    let mut w = World::new();
    let meshes = vec![ImportedMesh { display_name: "Crate".to_string(), mesh_id: 2 }];
    let (root, ids, _) = w.spawn_imported("crate", &meshes, &Vec::new(), &vec![3]);
    assert_eq!(root, None);
    assert_eq!(ids.len(), 1);
    assert_eq!(w.get_name(ids[0]), Some("Crate"));
    assert_eq!(w.get_parent(ids[0]), None);
    assert_eq!(w.entity_count(), 1);
}

#[test]
fn subtree_search_looks_below_only() {
    let (w, e) = tree();
    assert!(w.subtree_matches_search(e[0], "a1"));
    assert!(w.subtree_matches_search(e[0], "b"));
    assert!(!w.subtree_matches_search(e[0], "root"));
    assert!(!w.subtree_matches_search(e[1], "b"));
    assert!(!w.subtree_matches_search(e[3], "a1"));
}

#[test]
fn unnamed_entities_are_searched_as_entity() {
    let mut w = World::new();
    let root = w.spawn_entity();
    let child = w.spawn_entity();
    w.set_parent(child, root);
    assert!(w.subtree_matches_search(root, "entity"));
    assert!(w.subtree_matches_search(root, "ent"));
}

#[test]
fn hierarchy_lists_roots_matching_the_search() {
    let (mut w, e) = tree();
    let lamp = w.spawn_entity();
    w.set_name(lamp, "Lamp");
    assert_eq!(w.hierarchy_roots(""), vec![e[0], lamp]);
    assert_eq!(w.hierarchy_roots("LAMP"), vec![lamp]);
    assert_eq!(w.hierarchy_roots("a1"), vec![e[0]]);
    assert_eq!(w.hierarchy_roots("Roo"), vec![e[0]]);
    assert_eq!(w.hierarchy_roots("zzz"), Vec::<EntityId>::new());
}

#[test]
fn skinned_meshes_get_entities_and_animators_on_the_first_clip() {
    let mut w = World::new();
    let meshes = vec![ImportedMesh { display_name: "Sword".to_string(), mesh_id: 1 }];
    let skinned = vec![ImportedSkinnedMesh { display_name: "Body".to_string(), mesh_id: 2, skeleton_id: Some(0) }];
    let (root, ids, anims) = w.spawn_imported("knight", &meshes, &skinned, &vec![5, 6]);
    let root = root.expect("two meshes share a root");
    assert_eq!(ids.len(), 2);
    assert_eq!(w.get_name(ids[1]), Some("Body"));
    assert_eq!(w.get_parent(ids[1]), Some(root));
    assert_eq!(w.get_mesh_renderer(ids[1]), Some(&MeshRenderer { mesh_id: Some(2), visible: true }));
    assert_eq!(anims.len(), 1);
    assert_eq!(anims[0].0, ids[1]);
    assert_eq!(anims[0].1.skeleton_id, Some(0));
    assert_eq!(anims[0].1.clip_ids, vec![5, 6]);
    assert_eq!(anims[0].1.active_clip, Some(0));

    let mut w = World::new();
    let (root, ids, anims) = w.spawn_imported("solo", &Vec::new(), &skinned, &Vec::new());
    assert_eq!(root, None);
    assert_eq!(anims[0].0, ids[0]);
    assert_eq!(anims[0].1.active_clip, None);
}

#[test]
fn recorded_steps_push_undo_and_select() {
    let mut w = World::new();
    let mut stack: UndoStack<u32> = UndoStack::new();
    let mut sel = EditorSelection::new();
    let id = spawn_recorded(&mut w, &mut stack, &mut sel, 1, SpawnRequest::Cube, BuiltinMeshes { cube: 0, sphere: 1 }, None);
    assert_eq!(sel.selected_entities, vec![id]);
    assert!(w.is_alive(id));

    let (copies, _) = duplicate_recorded(&mut w, &mut stack, &mut sel, 2, &vec![id]);
    assert_eq!(copies.len(), 1);
    assert_eq!(sel.selected_entities, copies);
    let (none, _) = duplicate_recorded(&mut w, &mut stack, &mut sel, 99, &Vec::new());
    assert!(none.is_empty());
    assert_eq!(sel.selected_entities, copies);

    let meshes = vec![ImportedMesh { display_name: "Crate".to_string(), mesh_id: 2 }];
    let (root, ids, _) = import_recorded(&mut w, &mut stack, &mut sel, 3, "crate", &meshes, &Vec::new(), &Vec::new());
    assert_eq!(root, None);
    assert_eq!(sel.selected_entities, vec![ids[0]]);

    let e = stack.pop().unwrap();
    assert_eq!(e.snapshot, 3);
    assert_eq!(e.selected, copies);
    let e = stack.pop().unwrap();
    assert_eq!(e.snapshot, 2);
    assert_eq!(e.selected, vec![id]);
    let e = stack.pop().unwrap();
    assert_eq!(e.snapshot, 1);
    assert!(e.selected.is_empty());
    assert!(stack.pop().is_none());
}

#[test]
fn reparenting_lists_the_child_once_at_the_end() {
    let mut w = World::new();
    let p = w.spawn_entity();
    let q = w.spawn_entity();
    let x = w.spawn_entity();
    let y = w.spawn_entity();
    w.set_parent(x, p);
    w.set_parent(y, p);
    w.set_parent(x, p);
    assert_eq!(w.get_children(p), &[y, x][..]);
    w.set_parent(x, q);
    assert_eq!(w.get_children(p), &[y][..]);
    assert_eq!(w.get_children(q), &[x][..]);
}
