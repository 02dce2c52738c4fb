use clawdengine::column::ComponentColumn;
use clawdengine::default_scene::{setup_default_scene, PlannedEntity};
use clawdengine::components::MeshRenderer;
use clawdengine::entity::EntityId;
use clawdengine::world::World;

#[test]
fn spawn_hands_out_fresh_slots_in_order() {
    let mut w = World::new();
    let a = w.spawn_entity();
    let b = w.spawn_entity();
    assert_eq!(a, EntityId::new(0, 0));
    assert_eq!(b, EntityId::new(1, 0));
    assert!(w.is_alive(a) && w.is_alive(b));
    assert_eq!(w.entity_count(), 2);
}

#[test]
fn destroyed_slot_is_reused_with_a_new_generation() {
    let mut w = World::new();
    let a = w.spawn_entity();
    let _b = w.spawn_entity();
    w.destroy_entity(a);
    assert!(!w.is_alive(a));
    let c = w.spawn_entity();
    assert_eq!(c, EntityId::new(0, 1));
    // the stale handle stays dead although its slot is in use again
    assert!(!w.is_alive(a));
    assert!(w.is_alive(c));
    assert_eq!(w.entity_count(), 2);
}

#[test]
fn destroying_a_stale_handle_changes_nothing() {
    let mut w = World::new();
    let a = w.spawn_entity();
    w.destroy_entity(a);
    let c = w.spawn_entity();
    w.destroy_entity(a);
    assert!(w.is_alive(c));
    assert_eq!(w.entity_count(), 1);
}

#[test]
fn names_round_trip_and_clear_on_destroy() {
    let mut w = World::new();
    let a = w.spawn_entity();
    assert_eq!(w.get_name(a), None);
    w.set_name(a, "Player");
    assert_eq!(w.get_name(a), Some("Player"));
    w.set_name(a, "");
    assert_eq!(w.get_name(a), None);
    w.set_name(a, "Hero");
    w.destroy_entity(a);
    assert_eq!(w.get_name(a), None);
    let b = w.spawn_entity();
    assert_eq!(w.get_name(b), None);
}

#[test]
fn iter_entities_lists_live_handles_in_slot_order() {
    let mut w = World::new();
    let a = w.spawn_entity();
    let b = w.spawn_entity();
    let c = w.spawn_entity();
    w.destroy_entity(b);
    assert_eq!(w.iter_entities(), vec![a, c]);
}

#[test]
fn set_parent_links_both_ways() {
    let mut w = World::new();
    let p = w.spawn_entity();
    let c = w.spawn_entity();
    w.set_parent(c, p);
    assert_eq!(w.get_parent(c), Some(p));
    assert_eq!(w.get_children(p), &[c][..]);
    assert!(w.is_ancestor(p, c));
    assert!(!w.is_ancestor(c, p));
}

#[test]
fn reparenting_moves_the_child_between_lists() {
    let mut w = World::new();
    let p1 = w.spawn_entity();
    let p2 = w.spawn_entity();
    let c = w.spawn_entity();
    w.set_parent(c, p1);
    w.set_parent(c, p2);
    assert_eq!(w.get_parent(c), Some(p2));
    assert!(w.get_children(p1).is_empty());
    assert_eq!(w.get_children(p2), &[c][..]);
}

#[test]
fn set_parent_refuses_a_cycle() {
    let mut w = World::new();
    let a = w.spawn_entity();
    let b = w.spawn_entity();
    let c = w.spawn_entity();
    w.set_parent(b, a);
    w.set_parent(c, b);
    // a under its own grandchild would close a cycle: nothing changes
    w.set_parent(a, c);
    assert_eq!(w.get_parent(a), None);
    assert_eq!(w.get_parent(b), Some(a));
    assert_eq!(w.get_parent(c), Some(b));
    // nor can an entity be its own parent
    w.set_parent(a, a);
    assert_eq!(w.get_parent(a), None);
}

#[test]
fn remove_parent_makes_a_root() {
    let mut w = World::new();
    let p = w.spawn_entity();
    let c = w.spawn_entity();
    w.set_parent(c, p);
    w.remove_parent(c);
    assert_eq!(w.get_parent(c), None);
    assert!(w.get_children(p).is_empty());
}

#[test]
fn destroying_a_parent_detaches_its_children() {
    let mut w = World::new();
    let p = w.spawn_entity();
    let c1 = w.spawn_entity();
    let c2 = w.spawn_entity();
    w.set_parent(c1, p);
    w.set_parent(c2, p);
    w.destroy_entity(p);
    assert!(w.is_alive(c1) && w.is_alive(c2));
    assert_eq!(w.get_parent(c1), None);
    assert_eq!(w.get_parent(c2), None);
}

#[test]
fn destroying_a_child_leaves_its_parents_list() {
    let mut w = World::new();
    let p = w.spawn_entity();
    let c1 = w.spawn_entity();
    let c2 = w.spawn_entity();
    w.set_parent(c1, p);
    w.set_parent(c2, p);
    w.destroy_entity(c1);
    assert_eq!(w.get_children(p), &[c2][..]);
}

#[test]
fn mesh_renderer_set_get_remove() {
    let mut w = World::new();
    let a = w.spawn_entity();
    assert!(w.get_mesh_renderer(a).is_none());
    w.set_mesh_renderer(a, MeshRenderer { mesh_id: Some(3), visible: true });
    assert_eq!(w.get_mesh_renderer(a), Some(&MeshRenderer { mesh_id: Some(3), visible: true }));
    if let Some(m) = w.get_mesh_renderer_mut(a) {
        m.visible = false;
    }
    assert_eq!(w.get_mesh_renderer(a).map(|m| m.visible), Some(false));
    w.remove_mesh_renderer(a);
    assert!(w.get_mesh_renderer(a).is_none());
}

#[test]
fn mesh_renderer_default_is_visible_without_mesh() {
    let m = MeshRenderer::default();
    assert_eq!(m.mesh_id, None);
    assert!(m.visible);
}

#[test]
fn snapshot_restore_undoes_later_changes() {
    let mut w = World::new();
    let a = w.spawn_entity();
    w.set_name(a, "Keep");
    let snap = w.snapshot();
    let b = w.spawn_entity();
    w.set_name(a, "Changed");
    w.set_parent(b, a);
    assert!(w.can_restore(&snap));
    w.restore(snap);
    assert_eq!(w.get_name(a), Some("Keep"));
    assert!(!w.is_alive(b));
    assert!(w.get_children(a).is_empty());
    assert_eq!(w.entity_count(), 1);
    assert_eq!(w.iter_entities(), vec![a]);
}

#[test]
fn restore_then_spawn_never_revives_a_stale_handle() {
    let mut w = World::new();
    let a = w.spawn_entity();
    w.destroy_entity(a);
    let snap = w.snapshot();
    let b = w.spawn_entity();
    assert_eq!(b, EntityId::new(0, 1));
    w.restore(snap);
    assert!(!w.is_alive(b));
    let c = w.spawn_entity();
    // the generation kept counting across the restore
    assert_eq!(c, EntityId::new(0, 2));
    assert!(!w.is_alive(a));
    assert!(!w.is_alive(b));
}

#[test]
fn get_name_mut_edits_in_place() {
    let mut w = World::new();
    let a = w.spawn_entity();
    w.set_name(a, "Cube");
    if let Some(n) = w.get_name_mut(a) {
        n.push_str(" 2");
    }
    assert_eq!(w.get_name(a), Some("Cube 2"));
}

#[test]
fn can_spawn_on_a_fresh_world() {
    let w = World::new();
    assert!(w.can_spawn());
    assert!(w.can_spawn_many(10));
    assert_eq!(w.slot_count(), 0);
}

#[test]
fn component_column_follows_entity_slots() {
    let mut w = World::new();
    let mut col: ComponentColumn<f32> = ComponentColumn::new();
    let a = w.spawn_entity();
    col.on_spawn(&w, a);
    let b = w.spawn_entity();
    col.on_spawn(&w, b);
    col.set(&w, a, 1.5);
    assert_eq!(col.get(&w, a), Some(&1.5));
    assert_eq!(col.get(&w, b), None);
    assert_eq!(col.entities_with(&w), vec![a]);
    if let Some(v) = col.get_mut(&w, a) {
        *v = 2.5;
    }
    assert_eq!(col.get(&w, a), Some(&2.5));
    w.destroy_entity(a);
    col.clear(a);
    let c = w.spawn_entity();
    col.on_spawn(&w, c);
    assert_eq!(col.get(&w, c), None);
    assert_eq!(col.len(), 2);
    col.set(&w, c, 9.0);
    col.remove(&w, c);
    assert!(col.entities_with(&w).is_empty());
}

#[test]
fn default_scene_has_the_showcase_entities() {
    let mut w = World::new();
    let (ids, scripts) = setup_default_scene(&mut w, 0, 1);
    assert_eq!(ids.len(), 9);
    assert_eq!(w.entity_count(), 9);
    let names: Vec<&str> = ids.iter().map(|id| w.get_name(*id).unwrap()).collect();
    assert_eq!(
        names,
        vec!["Sun", "PointLight", "WarmLight", "Ground", "Cube", "Sphere", "MetalSphere", "RedCube", "PedestalCube"]
    );
    assert_eq!(w.get_mesh_renderer(ids[3]), Some(&MeshRenderer { mesh_id: Some(0), visible: true }));
    assert_eq!(w.get_mesh_renderer(ids[5]), Some(&MeshRenderer { mesh_id: Some(1), visible: true }));
    assert_eq!(w.get_mesh_renderer(ids[0]), None);
    assert!(ids.iter().all(|id| w.get_parent(*id).is_none()));
    let script_names: Vec<(EntityId, &str)> = scripts.iter().map(|(e, s)| (*e, s.as_str())).collect();
    assert_eq!(
        script_names,
        vec![
            (ids[4], "Rotate & Pulse"),
            (ids[5], "Oscillate"),
            (ids[6], "Gravity Bounce"),
            (ids[8], "Color Cycle"),
            (ids[4], "Audio Demo"),
            (ids[0], "Player HUD"),
        ]
    );
    assert_eq!(scripts.len(), 6);
    assert!(scripts.iter().all(|(id, _)| w.is_alive(*id)));
}

#[test]
fn planned_parent_must_come_earlier() {
    let mut w = World::new();
    let plan = vec![
        PlannedEntity { name: "Child".to_string(), mesh_id: None, parent: Some(1) },
        PlannedEntity { name: "Parent".to_string(), mesh_id: Some(2), parent: None },
        PlannedEntity { name: "Late".to_string(), mesh_id: None, parent: Some(1) },
    ];
    let ids = w.spawn_planned(&plan);
    assert_eq!(w.get_parent(ids[0]), None);
    assert_eq!(w.get_parent(ids[2]), Some(ids[1]));
    assert_eq!(w.get_mesh_renderer(ids[1]), Some(&MeshRenderer { mesh_id: Some(2), visible: true }));
}

#[test]
fn restore_of_a_shorter_snapshot_then_spawn_gives_a_live_entity() {
    let mut w = World::new();
    let a = w.spawn_entity();
    let snap = w.snapshot();
    let b = w.spawn_entity();
    w.restore(snap);
    assert!(!w.is_alive(b));
    let c = w.spawn_entity();
    assert!(w.is_alive(c));
    assert!(w.is_alive(a));
    assert_ne!(c, a);
    assert_ne!(c, b);
    assert_eq!(w.entity_count(), 2);
}

#[test]
fn restore_brings_back_an_entity_whose_slot_was_reused() {
    let mut w = World::new();
    let a = w.spawn_entity();
    w.set_name(a, "A");
    let snap = w.snapshot();
    w.destroy_entity(a);
    let d = w.spawn_entity();
    assert_eq!(d.index, a.index);
    w.restore(snap);
    assert!(w.is_alive(a));
    assert!(!w.is_alive(d));
    assert_eq!(w.get_name(a), Some("A"));
    // the slot's later handle is never handed out again
    w.destroy_entity(a);
    let e = w.spawn_entity();
    assert!(w.is_alive(e));
    assert_ne!(e, a);
    assert_ne!(e, d);
    assert!(!w.is_alive(d));
}

#[test]
fn a_snapshot_restores_after_many_changes() {
    let mut w = World::new();
    let a = w.spawn_entity();
    w.set_name(a, "a");
    let b = w.spawn_entity();
    w.set_parent(b, a);
    let snap = w.snapshot();
    let c = w.spawn_entity();
    w.destroy_entity(b);
    let d = w.spawn_entity();
    w.set_name(d, "d");
    w.set_parent(d, c);
    w.remove_parent(d);
    w.set_mesh_renderer(a, MeshRenderer { mesh_id: Some(3), visible: false });
    assert!(w.can_restore(&snap));
    w.restore(snap);
    assert!(w.is_alive(a) && w.is_alive(b) && !w.is_alive(c));
    assert_eq!(w.get_name(a), Some("a"));
    assert_eq!(w.get_parent(b), Some(a));
    assert_eq!(w.get_mesh_renderer(a), None);
    assert_eq!(w.entity_count(), 2);
}

#[test]
fn names_change_only_through_renames_spawns_and_destroys() {
    let mut w = World::new();
    let a = w.spawn_entity();
    let b = w.spawn_entity();
    assert_eq!(w.get_name(a), None);
    w.set_name(a, "first");
    w.set_name(a, "second");
    w.set_name(b, "other");
    w.set_parent(b, a);
    w.set_mesh_renderer(a, MeshRenderer { mesh_id: Some(1), visible: true });
    w.remove_parent(b);
    assert_eq!(w.get_name(a), Some("second"));
    w.set_name(a, "");
    assert_eq!(w.get_name(a), None);
    w.destroy_entity(b);
    assert_eq!(w.get_name(b), None);
    let c = w.spawn_entity();
    assert_eq!(w.get_name(c), None);
}
