use vstd::prelude::*;

use crate::components::MeshRenderer;
use crate::entity::EntityId;
use crate::selection::EditorSelection;
use crate::default_scene::lemma_fresh_not_parent;
use crate::world::{law_set_parent_links, law_spawn_fresh, well_formed, World};
use crate::world_model::WorldView;

verus! {

/// Which screen the application shows.
#[derive(Clone, Copy, Debug, PartialEq, Eq, Structural)]
pub enum AppScreen {
    Hub,
    Editor,
}

/// What the user picked in the project hub.
#[derive(Clone, Debug)]
pub enum HubAction {
    NewBlank,
    NewDemo,
    OpenScene(String),
}

/// A modal dialog of the asset browser, with the name typed so far.
#[derive(Clone, Debug)]
pub enum AssetModal {
    NewFolder { name: String },
    NewScript { name: String },
    NewScene { name: String },
}

#[derive(Clone, Copy, Debug, PartialEq, Eq, Structural)]
pub enum GizmoAxis {
    X,
    Y,
    Z,
}

#[derive(Clone, Copy, Debug, PartialEq, Eq, Structural)]
pub enum EditorTool {
    Select,
    Move,
    Rotate,
    Scale,
}

/// What the "add" menu asked to create.
#[derive(Clone, Copy, Debug, PartialEq, Eq, Structural)]
pub enum SpawnRequest {
    Empty,
    Cube,
    Sphere,
    Light,
    Camera,
    Audio,
    Canvas,
    UiText,
    UiPanel,
}

/// A component the inspector's "add component" menu can attach.
#[derive(Clone, Copy, Debug, PartialEq, Eq, Structural)]
pub enum ComponentKind {
    Material,
    MeshRenderer,
    RigidBody,
    Collider,
    CameraComponent,
    AudioSource,
    AudioListener,
    UiElement,
    Canvas,
}

/// Which components an entity already has, one flag per kind.
#[derive(Clone, Copy, Debug, PartialEq, Eq, Structural)]
pub struct ComponentPresence {
    pub material: bool,
    pub mesh_renderer: bool,
    pub rigid_body: bool,
    pub collider: bool,
    pub camera: bool,
    pub audio_source: bool,
    pub audio_listener: bool,
    pub ui_element: bool,
    pub canvas: bool,
}

/// Every component kind, in menu order, with whether the entity has it.
pub open spec fn kinds_with_presence(p: ComponentPresence) -> Seq<(ComponentKind, bool)> {
    seq![
        (ComponentKind::Material, p.material),
        (ComponentKind::MeshRenderer, p.mesh_renderer),
        (ComponentKind::RigidBody, p.rigid_body),
        (ComponentKind::Collider, p.collider),
        (ComponentKind::CameraComponent, p.camera),
        (ComponentKind::AudioSource, p.audio_source),
        (ComponentKind::AudioListener, p.audio_listener),
        (ComponentKind::UiElement, p.ui_element),
        (ComponentKind::Canvas, p.canvas),
    ]
}

/// The kinds the "add component" menu offers: those the entity lacks, in
/// menu order (an empty menu reads "All components added").
pub open spec fn addable_spec(p: ComponentPresence) -> Seq<ComponentKind> {
    kinds_with_presence(p).filter(|e: (ComponentKind, bool)| !e.1).map_values(|e: (ComponentKind, bool)| e.0)
}

/// The component kinds that can still be added to an entity, in menu order.
pub fn addable_components(p: ComponentPresence) -> (r: Vec<ComponentKind>)
    ensures
        r@ == addable_spec(p),
{
    let all: [(ComponentKind, bool); 9] = [
        (ComponentKind::Material, p.material),
        (ComponentKind::MeshRenderer, p.mesh_renderer),
        (ComponentKind::RigidBody, p.rigid_body),
        (ComponentKind::Collider, p.collider),
        (ComponentKind::CameraComponent, p.camera),
        (ComponentKind::AudioSource, p.audio_source),
        (ComponentKind::AudioListener, p.audio_listener),
        (ComponentKind::UiElement, p.ui_element),
        (ComponentKind::Canvas, p.canvas),
    ];
    assert(all@ =~= kinds_with_presence(p));
    let ghost s = kinds_with_presence(p);
    let ghost pred = |e: (ComponentKind, bool)| !e.1;
    let mut r: Vec<ComponentKind> = Vec::new();
    let mut i: usize = 0;
    while i < 9
        invariant
            i <= 9,
            all@ == s,
            s.len() == 9,
            pred == (|e: (ComponentKind, bool)| !e.1),
            r@ == s.subrange(0, i as int).filter(pred).map_values(|e: (ComponentKind, bool)| e.0),
        decreases 9 - i,
    {
        proof {
            let s1 = s.subrange(0, i + 1);
            assert(s1.drop_last() =~= s.subrange(0, i as int));
            reveal(Seq::filter);
        }
        let (kind, present) = all[i];
        if !present {
            r.push(kind);
            assert(r@ =~= s.subrange(0, i + 1).filter(pred).map_values(|e: (ComponentKind, bool)| e.0));
        } else {
            assert(r@ =~= s.subrange(0, i + 1).filter(pred).map_values(|e: (ComponentKind, bool)| e.0));
        }
        i = i + 1;
    }
    assert(s.subrange(0, 9) =~= s);
    r
}

#[derive(Clone, Copy, Debug, PartialEq, Eq, Structural)]
pub enum EditorTab {
    Hierarchy,
    Viewport,
    Inspector,
    Assets,
    Console,
    GameView,
}

/// What a texture slot of the material inspector asked for.
#[derive(Clone, Copy, Debug, PartialEq, Eq, Structural)]
pub enum TextureSlotAction {
    NoChange,
    Remove,
}

/// Mesh ids of the built-in primitives.
#[derive(Clone, Copy, Debug, PartialEq, Eq, Structural)]
pub struct BuiltinMeshes {
    pub cube: usize,
    pub sphere: usize,
}

/// The keys that matter to the editor's shortcuts, as read this frame.
/// `*_pressed` are physical keys pressed this frame, `*_typed` logical
/// characters typed this frame.
#[derive(Clone, Copy, Debug)]
pub struct ShortcutInput {
    pub cmd_held: bool,
    pub shift_held: bool,
    pub q_pressed: bool,
    pub w_pressed: bool,
    pub e_pressed: bool,
    pub r_pressed: bool,
    pub delete_pressed: bool,
    pub escape_pressed: bool,
    pub f_pressed: bool,
    pub a_typed: bool,
    pub z_typed: bool,
    pub s_typed: bool,
    pub o_typed: bool,
    pub d_typed: bool,
}

/// The part of the editor state that keyboard shortcuts act on.
pub struct ShortcutTargets {
    pub play_mode: bool,
    pub active_tool: EditorTool,
    pub selection: EditorSelection,
    pub pending_delete: Vec<EntityId>,
    pub pending_duplicate: Vec<EntityId>,
    pub show_add_menu: bool,
    pub pending_undo: bool,
    pub pending_redo: bool,
    pub scene_name: String,
    pub pending_save_scene: Option<String>,
    pub pending_load_scene: Option<String>,
}

/// The tool picked by the tool keys; the later key in Q, W, E, R wins.
pub open spec fn picked_tool(input: ShortcutInput, tool: EditorTool) -> EditorTool {
    if input.r_pressed {
        EditorTool::Scale
    } else if input.e_pressed {
        EditorTool::Rotate
    } else if input.w_pressed {
        EditorTool::Move
    } else if input.q_pressed {
        EditorTool::Select
    } else {
        tool
    }
}

fn clone_ids(v: &Vec<EntityId>) -> (r: Vec<EntityId>)
    ensures
        r@ == v@,
{
    let mut r: Vec<EntityId> = Vec::new();
    let mut i: usize = 0;
    while i < v.len()
        invariant
            i <= v@.len(),
            r@ == v@.subrange(0, i as int),
        decreases v@.len() - i,
    {
        r.push(v[i]);
        i = i + 1;
        assert(r@ =~= v@.subrange(0, i as int));
    }
    assert(v@.subrange(0, v@.len() as int) =~= v@);
    r
}

/// Applies the editor's keyboard shortcuts. Nothing happens in play mode or
/// while a text field has the keyboard. Otherwise: Q/W/E/R pick a tool
/// (unless the right mouse button flies the camera or Cmd/Ctrl is held);
/// Delete/Backspace queues the selection for deletion; Escape clears the
/// selection; Shift+A toggles the add menu; Cmd+Z asks for undo and
/// Cmd+Shift+Z for redo; Cmd+S saves the current scene; Cmd+O loads the
/// default scene; Cmd+D queues the (remaining) selection for duplication.
/// Returns whether F asked to focus a selection.
pub fn handle_shortcuts(
    input: &ShortcutInput,
    t: &mut ShortcutTargets,
    wants_keyboard: bool,
    right_mouse_held: bool,
) -> (focus: bool)
    ensures
        old(t).play_mode || wants_keyboard ==> !focus && *final(t) == *old(t),
        !(old(t).play_mode || wants_keyboard) ==> {
            let sel = old(t).selection.selected_entities@;
            let sel_after = if input.escape_pressed { Seq::<EntityId>::empty() } else { sel };
            &&& final(t).play_mode == old(t).play_mode
            &&& final(t).active_tool == (if !right_mouse_held && !input.cmd_held {
                picked_tool(*input, old(t).active_tool)
            } else {
                old(t).active_tool
            })
            &&& final(t).pending_delete@ == (if input.delete_pressed && sel.len() > 0 {
                sel
            } else {
                old(t).pending_delete@
            })
            &&& final(t).selection.selected_entities@ == sel_after
            &&& final(t).show_add_menu == (if input.a_typed && input.shift_held {
                !old(t).show_add_menu
            } else {
                old(t).show_add_menu
            })
            &&& final(t).pending_undo == (old(t).pending_undo || (input.cmd_held && input.z_typed
                && !input.shift_held))
            &&& final(t).pending_redo == (old(t).pending_redo || (input.cmd_held && input.z_typed
                && input.shift_held))
            &&& final(t).scene_name == old(t).scene_name
            &&& (if input.cmd_held && input.s_typed {
                final(t).pending_save_scene matches Some(s) && s@ == old(t).scene_name@
            } else {
                final(t).pending_save_scene == old(t).pending_save_scene
            })
            &&& (if input.cmd_held && input.o_typed {
                final(t).pending_load_scene matches Some(s) && s@ == "scene"@
            } else {
                final(t).pending_load_scene == old(t).pending_load_scene
            })
            &&& final(t).pending_duplicate@ == (if input.cmd_held && input.d_typed && sel_after.len() > 0 {
                sel_after
            } else {
                old(t).pending_duplicate@
            })
            &&& focus == (input.f_pressed && sel_after.len() > 0)
        },
{
    if t.play_mode || wants_keyboard {
        return false;
    }
    if !right_mouse_held && !input.cmd_held {
        if input.q_pressed {
            t.active_tool = EditorTool::Select;
        }
        if input.w_pressed {
            t.active_tool = EditorTool::Move;
        }
        if input.e_pressed {
            t.active_tool = EditorTool::Rotate;
        }
        if input.r_pressed {
            t.active_tool = EditorTool::Scale;
        }
    }
    if input.delete_pressed {
        if t.selection.selected_entities.len() > 0 {
            t.pending_delete = clone_ids(&t.selection.selected_entities);
        }
    }
    if input.escape_pressed {
        t.selection.deselect_all();
    }
    if input.a_typed && input.shift_held {
        t.show_add_menu = !t.show_add_menu;
    }
    if input.cmd_held && input.z_typed {
        if input.shift_held {
            t.pending_redo = true;
        } else {
            t.pending_undo = true;
        }
    }
    if input.cmd_held && input.s_typed {
        t.pending_save_scene = Some(t.scene_name.clone());
    }
    if input.cmd_held && input.o_typed {
        t.pending_load_scene = Some("scene".to_owned());
    }
    if input.cmd_held && input.d_typed {
        if t.selection.selected_entities.len() > 0 {
            t.pending_duplicate = clone_ids(&t.selection.selected_entities);
        }
    }
    if input.f_pressed {
        return t.selection.selected_entities.len() > 0;
    }
    false
}

/// The name given to the entity a request creates.
pub open spec fn spawn_name(req: SpawnRequest) -> Seq<char> {
    match req {
        SpawnRequest::Empty => "Empty"@,
        SpawnRequest::Cube => "Cube"@,
        SpawnRequest::Sphere => "Sphere"@,
        SpawnRequest::Light => "Point Light"@,
        SpawnRequest::Camera => "Camera"@,
        SpawnRequest::Audio => "Audio Source"@,
        SpawnRequest::Canvas => "Canvas"@,
        SpawnRequest::UiText => "Text"@,
        SpawnRequest::UiPanel => "Panel"@,
    }
}

/// The built-in mesh the created entity shows, if any.
pub open spec fn spawn_mesh(req: SpawnRequest, meshes: BuiltinMeshes) -> Option<usize> {
    match req {
        SpawnRequest::Cube => Some(meshes.cube),
        SpawnRequest::Sphere => Some(meshes.sphere),
        _ => None,
    }
}

/// Whether the created entity goes under the scene's canvas.
pub open spec fn spawns_ui(req: SpawnRequest) -> bool {
    req == SpawnRequest::UiText || req == SpawnRequest::UiPanel
}

/// The world after the entity of a request has been created and named, given
/// its mesh and, for UI elements, put under `canvas`.
pub open spec fn spawned_for(v: WorldView, req: SpawnRequest, meshes: BuiltinMeshes, canvas: Option<EntityId>) -> (
    WorldView,
    EntityId,
) {
    let (v1, id) = v.spawn();
    let v2 = v1.set_name(id, spawn_name(req));
    let v3 = match spawn_mesh(req, meshes) {
        Some(m) => v2.set_mesh_renderer(id, MeshRenderer { mesh_id: Some(m), visible: true }),
        None => v2,
    };
    let v4 = match canvas {
        Some(c) => if spawns_ui(req) {
            v3.set_parent(id, c)
        } else {
            v3
        },
        None => v3,
    };
    (v4, id)
}

/// What an "add" request creates: one new live entity, named after the
/// request ("Panel" for a panel, "Text" for text, ...), showing the built-in
/// cube for a cube and the built-in sphere for a sphere and no mesh
/// otherwise. UI text and panels go under the given canvas when it is a live
/// entity; every other request, and a UI request without a canvas, leaves the
/// new entity at the top. Every entity that lived before still lives, and
/// nothing else comes to life.
pub proof fn law_spawn_request(v: WorldView, req: SpawnRequest, meshes: BuiltinMeshes, canvas: Option<EntityId>)
    requires
        well_formed(v),
        v.can_spawn(),
    ensures
        ({
            let (w, id) = spawned_for(v, req, meshes, canvas);
            &&& w.is_alive(id)
            &&& !v.is_alive(id)
            &&& forall|x: EntityId| x != id ==> #[trigger] w.is_alive(x) == v.is_alive(x)
            &&& req == SpawnRequest::UiPanel ==> w.name_of(id) == Some("Panel"@)
            &&& req == SpawnRequest::UiText ==> w.name_of(id) == Some("Text"@)
            &&& req == SpawnRequest::Cube ==> w.name_of(id) == Some("Cube"@)
            &&& req == SpawnRequest::Sphere ==> w.name_of(id) == Some("Sphere"@)
            &&& req == SpawnRequest::Empty ==> w.name_of(id) == Some("Empty"@)
            &&& req == SpawnRequest::Light ==> w.name_of(id) == Some("Point Light"@)
            &&& req == SpawnRequest::Camera ==> w.name_of(id) == Some("Camera"@)
            &&& req == SpawnRequest::Audio ==> w.name_of(id) == Some("Audio Source"@)
            &&& req == SpawnRequest::Canvas ==> w.name_of(id) == Some("Canvas"@)
            &&& req == SpawnRequest::Cube ==> w.mesh_renderer_of(id) == Some(
                MeshRenderer { mesh_id: Some(meshes.cube), visible: true },
            )
            &&& req == SpawnRequest::Sphere ==> w.mesh_renderer_of(id) == Some(
                MeshRenderer { mesh_id: Some(meshes.sphere), visible: true },
            )
            &&& req != SpawnRequest::Cube && req != SpawnRequest::Sphere ==> w.mesh_renderer_of(id) is None
            &&& (req == SpawnRequest::UiText || req == SpawnRequest::UiPanel) ==> match canvas {
                Some(c) => v.is_alive(c) ==> w.parent_of(id) == Some(c),
                None => w.parent_of(id) is None,
            }
            &&& !(req == SpawnRequest::UiText || req == SpawnRequest::UiPanel) ==> w.parent_of(id) is None
        }),
{
    reveal_strlit("Panel");
    reveal_strlit("Text");
    reveal_strlit("Cube");
    reveal_strlit("Sphere");
    reveal_strlit("Empty");
    reveal_strlit("Point Light");
    reveal_strlit("Camera");
    reveal_strlit("Audio Source");
    reveal_strlit("Canvas");
    law_spawn_fresh(v);
    lemma_fresh_not_parent(v);
    let (v1, id) = v.spawn();
    let v2 = v1.set_name(id, spawn_name(req));
    let v3 = match spawn_mesh(req, meshes) {
        Some(m) => v2.set_mesh_renderer(id, MeshRenderer { mesh_id: Some(m), visible: true }),
        None => v2,
    };
    assert(v3.parents == v1.parents && v3.alive == v1.alive && v3.generations == v1.generations);
    assert(v3.name_of(id) == if spawn_name(req).len() > 0 { Some(spawn_name(req)) } else { None });
    match canvas {
        Some(c) => {
            if spawns_ui(req) && v.is_alive(c) {
                assert(c != id);
                assert forall|k: nat| k >= 1 implies #[trigger] v3.ancestor_at(c, k) != Some(id) by {
                    assert(v1.parent_of(v3.ancestor_at(c, (k - 1) as nat)->0) != Some(id));
                }
                assert(v3.set_parent_applies(id, c));
                law_set_parent_links(v3, id, c);
                let v4 = v3.set_parent(id, c);
                assert(v4.names == v3.names && v4.mesh_renderers == v3.mesh_renderers && v4.alive == v3.alive);
            }
        },
        None => {},
    }
}

pub fn spawn_name_of(req: SpawnRequest) -> (r: &'static str)
    ensures
        r@ == spawn_name(req),
{
    match req {
        SpawnRequest::Empty => "Empty",
        SpawnRequest::Cube => "Cube",
        SpawnRequest::Sphere => "Sphere",
        SpawnRequest::Light => "Point Light",
        SpawnRequest::Camera => "Camera",
        SpawnRequest::Audio => "Audio Source",
        SpawnRequest::Canvas => "Canvas",
        SpawnRequest::UiText => "Text",
        SpawnRequest::UiPanel => "Panel",
    }
}

impl World {
    /// Creates the entity an "add" request asks for: named after the request,
    /// showing the built-in cube or sphere for those requests, and, for UI
    /// text and panels, put under `canvas` (the scene's first canvas, if any).
    /// Transforms, lights and other float-valued components are added by the
    /// caller.
    pub fn spawn_for_request(&mut self, req: SpawnRequest, meshes: BuiltinMeshes, canvas: Option<EntityId>) -> (id:
        EntityId)
        requires
            old(self).wf(),
            old(self)@.can_spawn(),
        ensures
            final(self).wf(),
            (final(self)@, id) == spawned_for(old(self)@, req, meshes, canvas),
    {
        let id = self.spawn_entity();
        self.set_name(id, spawn_name_of(req));
        match req {
            SpawnRequest::Cube => {
                self.set_mesh_renderer(id, MeshRenderer { mesh_id: Some(meshes.cube), visible: true });
            },
            SpawnRequest::Sphere => {
                self.set_mesh_renderer(id, MeshRenderer { mesh_id: Some(meshes.sphere), visible: true });
            },
            _ => {},
        }
        match canvas {
            Some(c) => {
                match req {
                    SpawnRequest::UiText | SpawnRequest::UiPanel => {
                        self.set_parent(id, c);
                    },
                    _ => {},
                }
            },
            None => {},
        }
        id
    }
}

} // verus!
