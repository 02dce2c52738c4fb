//! Verified core of the ClawdEngine editor: generational entity storage with a
//! parent/child hierarchy, snapshots, the undo/redo stack, selection, the log
//! ring buffer, named asset stores, scene outlines, prefabs, duplication,
//! model import and the showcase scene, the animator state machine, skeleton
//! ordering, and the naming, text and pixel utilities of the asset pipeline
//! and of game export.

pub mod entity;
pub mod components;
pub mod world_model;
pub mod world;
pub mod column;
pub mod undo;
pub mod selection;
pub mod console;
pub mod text;
pub mod store;
pub mod pixels;
pub mod names;
pub mod asset_names;
pub mod project;
pub mod paths;
pub mod settings;
pub mod scene;
pub mod animator;
pub mod textures;
pub mod editor;
pub mod asset_browser;
pub mod hierarchy;
pub mod skeleton;
pub mod duplicate;
pub mod import;
pub mod recorded;
pub mod default_scene;
pub mod export;
pub mod extract;
pub mod scripts;
pub mod node_graph;
