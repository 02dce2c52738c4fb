# ClawdEngine core, verified

The editor and runtime logic of ClawdEngine, a small 3D game engine, written in
Verus. The functions under `src/` carry contracts that Verus proves, except a
few small wrappers around calls into std, `chrono` and `image` (marked
`#[verifier::external_body]`), whose contracts restate what those libraries
document and are trusted rather than proved.

- `src/` — the library. The entity world (`world`, `world_model`, `hierarchy`)
  with generational handles, parent/child links, snapshots and their laws;
  editor state (`undo`, `selection`, `editor`, `console`); scenes and prefabs
  as outlines (`scene`), duplication, model import and the showcase scene;
  the animator state machine (`animator`); skeleton ordering and glTF node
  graphs (`skeleton`, `node_graph`); asset and file naming (`names`,
  `asset_names`, `extract`, `export`); pixel conversion and mip chains
  (`pixels`, `textures`); project registry and settings.
  Editing steps that the undo history records (`recorded`) are generic over
  the snapshot type the caller takes.
- `tests/` — tests run against the compiled library.
- `app/` — a headless runner: file and directory I/O, RON files through serde,
  glTF reading, logging, and the floating-point parts that stay outside the
  verified library: transforms, materials, lights, rigid bodies, colliders,
  cameras, audio, UI elements and custom components by type (`components`),
  each kept in one of the library's liveness-checked component columns, and
  animation timing.

Not carried over: rendering, the egui editor panels, gizmos and picking
(wgpu and egui), physics stepping and audio playback (rodio), OBJ and FBX
loading, and the script implementations themselves (the runner knows
scripts by name only).

The runner takes a project directory to open, or one of `new [demo]`,
`import <model>`, `extract <model>`, `build <project> <scene>`; next to an
exported game's `game.ron` it starts that game's scene.
