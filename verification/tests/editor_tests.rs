use clawdengine::editor::{addable_components, ComponentKind, ComponentPresence};
use clawdengine::asset_browser::{asset_listing, filter_assets, AssetEntry};
use clawdengine::editor::{
    handle_shortcuts, spawn_name_of, BuiltinMeshes, EditorTool, ShortcutInput, ShortcutTargets, SpawnRequest,
};
use clawdengine::entity::EntityId;
use clawdengine::selection::EditorSelection;
use clawdengine::undo::{UndoStack, UNDO_MAX};
use clawdengine::world::World;

fn no_keys() -> ShortcutInput {
    ShortcutInput {
        cmd_held: false,
        shift_held: false,
        q_pressed: false,
        w_pressed: false,
        e_pressed: false,
        r_pressed: false,
        delete_pressed: false,
        escape_pressed: false,
        f_pressed: false,
        a_typed: false,
        z_typed: false,
        s_typed: false,
        o_typed: false,
        d_typed: false,
    }
}

fn targets(selected: Vec<EntityId>) -> ShortcutTargets {
    ShortcutTargets {
        play_mode: false,
        active_tool: EditorTool::Move,
        selection: EditorSelection { selected_entities: selected },
        pending_delete: Vec::new(),
        pending_duplicate: Vec::new(),
        show_add_menu: false,
        pending_undo: false,
        pending_redo: false,
        scene_name: "Level 1".to_string(),
        pending_save_scene: None,
        pending_load_scene: None,
    }
}

#[test]
fn tool_keys_pick_tools_unless_cmd_is_held() {
    let mut t = targets(vec![]);
    let mut k = no_keys();
    k.q_pressed = true;
    handle_shortcuts(&k, &mut t, false, false);
    assert_eq!(t.active_tool, EditorTool::Select);
    k.r_pressed = true;
    handle_shortcuts(&k, &mut t, false, false);
    assert_eq!(t.active_tool, EditorTool::Scale);
    let mut k2 = no_keys();
    k2.e_pressed = true;
    k2.cmd_held = true;
    handle_shortcuts(&k2, &mut t, false, false);
    assert_eq!(t.active_tool, EditorTool::Scale);
    let mut k3 = no_keys();
    k3.w_pressed = true;
    handle_shortcuts(&k3, &mut t, false, true);
    assert_eq!(t.active_tool, EditorTool::Scale);
}

#[test]
fn shortcuts_do_nothing_in_play_mode_or_while_typing() {
    let e = EntityId::new(0, 0);
    let mut t = targets(vec![e]);
    let mut k = no_keys();
    k.delete_pressed = true;
    k.f_pressed = true;
    assert!(!handle_shortcuts(&k, &mut t, true, false));
    assert!(t.pending_delete.is_empty());
    t.play_mode = true;
    assert!(!handle_shortcuts(&k, &mut t, false, false));
    assert!(t.pending_delete.is_empty());
}

#[test]
fn delete_escape_and_focus() {
    let e = EntityId::new(2, 0);
    let mut t = targets(vec![e]);
    let mut k = no_keys();
    k.delete_pressed = true;
    k.f_pressed = true;
    assert!(handle_shortcuts(&k, &mut t, false, false));
    assert_eq!(t.pending_delete, vec![e]);
    let mut k2 = no_keys();
    k2.escape_pressed = true;
    k2.f_pressed = true;
    assert!(!handle_shortcuts(&k2, &mut t, false, false));
    assert!(t.selection.selected_entities.is_empty());
}

#[test]
fn undo_redo_save_load_duplicate_and_add_menu() {
    let e = EntityId::new(1, 3);
    let mut t = targets(vec![e]);
    let mut k = no_keys();
    k.cmd_held = true;
    k.z_typed = true;
    k.s_typed = true;
    k.d_typed = true;
    handle_shortcuts(&k, &mut t, false, false);
    assert!(t.pending_undo && !t.pending_redo);
    assert_eq!(t.pending_save_scene.as_deref(), Some("Level 1"));
    assert_eq!(t.pending_duplicate, vec![e]);
    let mut k2 = no_keys();
    k2.cmd_held = true;
    k2.shift_held = true;
    k2.z_typed = true;
    k2.o_typed = true;
    handle_shortcuts(&k2, &mut t, false, false);
    assert!(t.pending_redo);
    assert_eq!(t.pending_load_scene.as_deref(), Some("scene"));
    let mut k3 = no_keys();
    k3.shift_held = true;
    k3.a_typed = true;
    handle_shortcuts(&k3, &mut t, false, false);
    assert!(t.show_add_menu);
    handle_shortcuts(&k3, &mut t, false, false);
    assert!(!t.show_add_menu);
}

#[test]
fn escape_before_duplicate_leaves_nothing_to_duplicate() {
    let e = EntityId::new(1, 0);
    let mut t = targets(vec![e]);
    let mut k = no_keys();
    k.escape_pressed = true;
    k.cmd_held = true;
    k.d_typed = true;
    handle_shortcuts(&k, &mut t, false, false);
    assert!(t.pending_duplicate.is_empty());
}

#[test]
fn spawn_requests_name_and_mesh_their_entity() {
    let mut w = World::new();
    let meshes = BuiltinMeshes { cube: 7, sphere: 8 };
    let cube = w.spawn_for_request(SpawnRequest::Cube, meshes, None);
    assert_eq!(w.get_name(cube), Some("Cube"));
    assert_eq!(w.get_mesh_renderer(cube).and_then(|m| m.mesh_id), Some(7));
    let sphere = w.spawn_for_request(SpawnRequest::Sphere, meshes, None);
    assert_eq!(w.get_mesh_renderer(sphere).and_then(|m| m.mesh_id), Some(8));
    let light = w.spawn_for_request(SpawnRequest::Light, meshes, None);
    assert_eq!(w.get_name(light), Some("Point Light"));
    assert!(w.get_mesh_renderer(light).is_none());
    let canvas = w.spawn_for_request(SpawnRequest::Canvas, meshes, None);
    let text = w.spawn_for_request(SpawnRequest::UiText, meshes, Some(canvas));
    assert_eq!(w.get_parent(text), Some(canvas));
    let empty = w.spawn_for_request(SpawnRequest::Empty, meshes, Some(canvas));
    assert_eq!(w.get_parent(empty), None);
    assert_eq!(spawn_name_of(SpawnRequest::Audio), "Audio Source");
    assert_eq!(spawn_name_of(SpawnRequest::UiPanel), "Panel");
}

#[test]
fn selection_toggle_and_primary() {
    let a = EntityId::new(0, 0);
    let b = EntityId::new(1, 0);
    let mut s = EditorSelection::new();
    s.select(a);
    s.toggle_select(b);
    assert_eq!(s.selected_entities, vec![a, b]);
    assert_eq!(s.primary_selection(), Some(a));
    s.toggle_select(a);
    assert_eq!(s.selected_entities, vec![b]);
    assert!(s.is_selected(b) && !s.is_selected(a));
    s.toggle_select(b);
    s.toggle_select(b);
    assert_eq!(s.selected_entities, vec![b]);
    s.deselect_all();
    assert_eq!(s.primary_selection(), None);
}

#[test]
fn undo_stack_keeps_the_last_thirty_two() {
    let mut u: UndoStack<u32> = UndoStack::new();
    for i in 0..40u32 {
        u.push(i, Vec::new());
    }
    let mut seen = Vec::new();
    while let Some(e) = u.pop() {
        seen.push(e.snapshot);
    }
    assert_eq!(seen.len(), UNDO_MAX);
    assert_eq!(seen[0], 39);
    assert_eq!(seen[UNDO_MAX - 1], 8);
    assert!(!u.can_undo());
}

#[test]
fn push_clears_redo_but_push_undo_only_keeps_it() {
    let e = EntityId::new(4, 0);
    let mut u: UndoStack<&str> = UndoStack::new();
    u.push("a", vec![e]);
    let popped = u.pop().unwrap();
    assert_eq!(popped.snapshot, "a");
    assert_eq!(popped.selected, vec![e]);
    u.push_redo("now", Vec::new());
    assert!(u.can_redo());
    u.push_undo_only("x", Vec::new());
    assert!(u.can_redo());
    assert_eq!(u.pop_redo().map(|r| r.snapshot), Some("now"));
    u.push_redo("again", Vec::new());
    u.push("b", Vec::new());
    assert!(!u.can_redo());
    assert_eq!(u.pop().map(|r| r.snapshot), Some("b"));
    assert_eq!(u.pop().map(|r| r.snapshot), Some("x"));
    assert!(u.pop().is_none());
}

fn names(v: &[AssetEntry]) -> Vec<String> {
    v.iter()
        .map(|e| match e {
            AssetEntry::Folder(n) => format!("[{}]", n),
            AssetEntry::File(n) => n.clone(),
        })
        .collect()
}

#[test]
fn asset_listing_puts_folders_first_sorts_by_name_and_hides_dot_files() {
    let raw = vec![
        ("zeta.png".to_string(), false),
        ("scenes".to_string(), true),
        (".DS_Store".to_string(), false),
        ("alpha.rs".to_string(), false),
        ("Textures".to_string(), true),
        ("Beta.obj".to_string(), false),
        (".git".to_string(), true),
    ];
    let listed = asset_listing(&raw);
    assert_eq!(names(&listed), vec!["[Textures]", "[scenes]", "Beta.obj", "alpha.rs", "zeta.png"]);
}

#[test]
fn asset_listing_orders_prefixes_first() {
    let raw = vec![("ab".to_string(), false), ("a".to_string(), false), ("".to_string(), false)];
    assert_eq!(names(&asset_listing(&raw)), vec!["", "a", "ab"]);
}

#[test]
fn add_component_menu_offers_what_is_missing() {
    let none = ComponentPresence {
        material: false,
        mesh_renderer: false,
        rigid_body: false,
        collider: false,
        camera: false,
        audio_source: false,
        audio_listener: false,
        ui_element: false,
        canvas: false,
    };
    assert_eq!(addable_components(none).len(), 9);
    let some = ComponentPresence { material: true, mesh_renderer: true, collider: true, ..none };
    assert_eq!(
        addable_components(some),
        vec![
            ComponentKind::RigidBody,
            ComponentKind::CameraComponent,
            ComponentKind::AudioSource,
            ComponentKind::AudioListener,
            ComponentKind::UiElement,
            ComponentKind::Canvas
        ]
    );
    let all = ComponentPresence {
        material: true,
        mesh_renderer: true,
        rigid_body: true,
        collider: true,
        camera: true,
        audio_source: true,
        audio_listener: true,
        ui_element: true,
        canvas: true,
    };
    assert!(addable_components(all).is_empty());
}

#[test]
fn undo_step_then_redo_step_come_back() {
    let e = EntityId::new(2, 0);
    let mut u: UndoStack<&str> = UndoStack::new();
    assert!(u.undo_step("now", Vec::new()).is_none());
    assert!(!u.can_redo());
    u.push("before", vec![e]);
    let back = u.undo_step("after", Vec::new()).unwrap();
    assert_eq!(back.snapshot, "before");
    assert_eq!(back.selected, vec![e]);
    assert!(!u.can_undo() && u.can_redo());
    let fwd = u.redo_step("before", vec![e]).unwrap();
    assert_eq!(fwd.snapshot, "after");
    assert!(u.can_undo() && !u.can_redo());
    assert!(u.redo_step("x", Vec::new()).is_none());
    assert_eq!(u.pop().map(|r| r.snapshot), Some("before"));
}

#[test]
fn asset_search_matches_names_in_lower_case() {
    let entries = vec![
        AssetEntry::Folder("Meshes".to_string()),
        AssetEntry::File("hero.glb".to_string()),
        AssetEntry::File("HeroMaterial.mat.ron".to_string()),
        AssetEntry::File("level.ron".to_string()),
    ];
    let names = |v: &Vec<AssetEntry>| -> Vec<String> {
        v.iter()
            .map(|e| match e {
                AssetEntry::Folder(n) | AssetEntry::File(n) => n.clone(),
            })
            .collect()
    };
    assert_eq!(names(&filter_assets(&entries, "HERO")), vec!["hero.glb".to_string(), "HeroMaterial.mat.ron".to_string()]);
    assert_eq!(names(&filter_assets(&entries, "")).len(), 4);
    assert!(filter_assets(&entries, "xyz").is_empty());
    assert_eq!(names(&filter_assets(&entries, "mesh")), vec!["Meshes".to_string()]);
}
