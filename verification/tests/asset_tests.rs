use clawdengine::extract::{clip_file_name, extraction_marker_name, material_file_name, material_name, material_texture_ref, skeleton_file_name, texture_file_name};
use clawdengine::asset_names::{
    asset_kind, classify_mesh_ref, gltf_display_name, gltf_node_name, gltf_store_name, script_file_name,
    script_struct_name, trim_rs_suffix, AssetKind, MeshSource,
};
use clawdengine::names::{
    app_bundle_name, deduplicate_scene_name, dropped_copy_name, free_project_name, is_valid_asset_name, numbered_project_name,
    numbered_scene_name, sanitize_name, scene_file_path,
};
use clawdengine::pixels::{r16_to_rgba, r8_to_rgba, rg16_to_rgba, rg8_to_rgba, rgb16_to_rgba8, rgb_to_rgba, rgba16_to_rgba8};
use clawdengine::store::AssetStore;
use clawdengine::textures::{
    loaded_texture, material_texture, pixels_to_rgba8, precompute_mipmaps, texture_cache_key, GltfLoadedTexture, PixelFormat,
};

#[test]
fn rgb_gets_an_opaque_alpha() {
    assert_eq!(rgb_to_rgba(&[1, 2, 3, 4, 5, 6, 7]), vec![1, 2, 3, 255, 4, 5, 6, 255]);
}

#[test]
fn sixteen_bit_channels_keep_their_high_byte() {
    assert_eq!(rgba16_to_rgba8(&[0x34, 0x12, 0xff, 0xab, 0x01]), vec![0x12, 0xab]);
    assert_eq!(rgb16_to_rgba8(&[0, 1, 0, 2, 0, 3, 9]), vec![1, 2, 3, 255]);
    assert_eq!(r16_to_rgba(&[0x00, 0x80]), vec![0x80, 0x80, 0x80, 255]);
    assert_eq!(rg16_to_rgba(&[0, 10, 0, 20]), vec![10, 20, 0, 255]);
}

#[test]
fn eight_bit_grey_and_two_channel() {
    assert_eq!(r8_to_rgba(&[7, 9]), vec![7, 7, 7, 255, 9, 9, 9, 255]);
    assert_eq!(rg8_to_rgba(&[1, 2, 3]), vec![1, 2, 0, 255]);
}

#[test]
fn pixel_format_dispatch() {
    assert_eq!(pixels_to_rgba8(PixelFormat::R8G8B8A8, &[1, 2, 3, 4]), Some(vec![1, 2, 3, 4]));
    assert_eq!(pixels_to_rgba8(PixelFormat::R8G8B8, &[1, 2, 3]), Some(vec![1, 2, 3, 255]));
    assert_eq!(pixels_to_rgba8(PixelFormat::R8, &[5]), Some(vec![5, 5, 5, 255]));
    assert_eq!(pixels_to_rgba8(PixelFormat::R32G32B32FLOAT, &[0; 12]), None);
    assert_eq!(pixels_to_rgba8(PixelFormat::R32G32B32A32FLOAT, &[0; 16]), None);
}

#[test]
fn texture_cache_keys_name_file_and_index() {
    assert_eq!(texture_cache_key("models/hero.glb", 12), "gltf-embedded:models/hero.glb#texture_12");
    let t = loaded_texture("a.gltf", 0, PixelFormat::R8G8, &[1, 2], 1, 1).unwrap();
    assert_eq!(t.cache_key, "gltf-embedded:a.gltf#texture_0");
    assert_eq!(t.rgba, vec![1, 2, 0, 255]);
    assert!(loaded_texture("a.gltf", 1, PixelFormat::R32G32B32FLOAT, &[0; 12], 1, 1).is_none());
}

#[test]
fn mip_chain_halves_each_level() {
    let rgba: Vec<u8> = [10u8, 20, 30, 255].iter().cycle().take(4 * 4 * 4).copied().collect();
    let tex = GltfLoadedTexture { cache_key: "k".to_string(), rgba: rgba.clone(), width: 4, height: 4 };
    let p = precompute_mipmaps(tex, 3);
    assert_eq!(p.cache_key, "k");
    assert_eq!((p.width, p.height), (4, 4));
    assert_eq!(p.mip_levels.len(), 3);
    assert_eq!(p.mip_levels[0], rgba);
    assert_eq!(p.mip_levels[1].len(), 2 * 2 * 4);
    assert_eq!(p.mip_levels[2].len(), 4);
    for level in &p.mip_levels[1..] {
        for px in level.chunks(4) {
            for (got, want) in px.iter().zip([10u8, 20, 30, 255].iter()) {
                assert!((*got as i32 - *want as i32).abs() <= 1);
            }
        }
    }
}

#[test]
fn single_level_keeps_the_pixels_and_short_data_turns_grey() {
    let tex = GltfLoadedTexture { cache_key: "s".to_string(), rgba: vec![1, 2, 3], width: 1, height: 1 };
    let p = precompute_mipmaps(tex, 1);
    assert_eq!(p.mip_levels, vec![vec![1, 2, 3]]);
    let short = GltfLoadedTexture { cache_key: "t".to_string(), rgba: vec![0; 5], width: 2, height: 2 };
    let q = precompute_mipmaps(short, 2);
    assert_eq!(q.mip_levels, vec![vec![128u8; 16]]);
}

#[test]
fn asset_names_are_checked_and_sanitized() {
    assert!(is_valid_asset_name("My Script_2.rs"));
    assert!(!is_valid_asset_name(""));
    assert!(!is_valid_asset_name(".hidden"));
    assert!(!is_valid_asset_name("a..b"));
    assert!(!is_valid_asset_name("bad/name"));
    assert!(!is_valid_asset_name(&"x".repeat(256)));
    assert!(is_valid_asset_name(&"x".repeat(255)));
    assert_eq!(sanitize_name("  Hello World!  "), "Hello_World");
    assert_eq!(sanitize_name("__"), "unnamed");
    assert_eq!(sanitize_name("é-ok"), "é-ok");
}

#[test]
fn numbered_and_derived_names() {
    assert_eq!(numbered_scene_name("scene", 3), "scene (3)");
    assert_eq!(numbered_project_name("Untitled", 2), "Untitled 2");
    assert_eq!(scene_file_path("Main"), "assets/scenes/Main.ron");
    assert_eq!(app_bundle_name("My Cool Game"), "MyCoolGame");
}

#[test]
fn mesh_references_are_classified() {
    assert_eq!(classify_mesh_ref(""), MeshSource::Empty);
    assert_eq!(
        classify_mesh_ref("gltf:models/a.glb#Node/0"),
        MeshSource::Gltf { file: "models/a.glb".to_string() }
    );
    assert_eq!(classify_mesh_ref("gltf:models/a.glb"), MeshSource::MalformedGltf);
    assert_eq!(classify_mesh_ref("../secret.obj"), MeshSource::Rejected);
    assert_eq!(classify_mesh_ref("assets/meshes/rock.obj"), MeshSource::ObjFile);
    assert_eq!(classify_mesh_ref("Cube"), MeshSource::Unresolved);
}

#[test]
fn asset_kinds_by_extension() {
    assert_eq!(asset_kind("brick.mat.ron"), AssetKind::Material);
    assert_eq!(asset_kind("rig.skel.ron"), AssetKind::Skeleton);
    assert_eq!(asset_kind("walk.clip.ron"), AssetKind::Clip);
    assert_eq!(asset_kind("level.scene.ron"), AssetKind::Scene);
    assert_eq!(asset_kind("a.jpeg"), AssetKind::Image);
    assert_eq!(asset_kind("hero.glb"), AssetKind::Mesh);
    assert_eq!(asset_kind("player.rs"), AssetKind::Script);
    assert_eq!(asset_kind("boom.ogg"), AssetKind::Audio);
    assert_eq!(asset_kind("notes.txt"), AssetKind::Other);
    assert_eq!(asset_kind("plain.ron"), AssetKind::Other);
}

#[test]
fn script_names() {
    assert_eq!(trim_rs_suffix("a.rs.rs"), "a");
    assert_eq!(script_struct_name("player_controller.rs"), "PlayerController");
    assert_eq!(script_struct_name("enemy"), "Enemy");
    assert_eq!(script_file_name("enemy"), "enemy.rs");
    assert_eq!(script_file_name("enemy.rs"), "enemy.rs");
}

#[test]
fn asset_store_ids_and_names() {
    let mut s: AssetStore<u8> = AssetStore::new();
    assert_eq!(s.add(5, "walk".to_string()), 0);
    assert_eq!(s.add(6, "run".to_string()), 1);
    assert_eq!(s.add(7, "walk".to_string()), 2);
    assert_eq!(s.find_by_name("walk"), Some(0));
    assert_eq!(s.find_by_name("jump"), None);
    assert_eq!(s.get(1), Some(&6));
    assert_eq!(s.get(3), None);
    assert_eq!(s.get_name(2), Some("walk"));
    assert_eq!(s.len(), 3);
}

#[test]
fn find_or_add_reuses_a_named_entry() {
    let mut s: AssetStore<u32> = AssetStore::new();
    assert_eq!(s.find_or_add(10, "cube".to_string()), 0);
    assert_eq!(s.find_or_add(20, "sphere".to_string()), 1);
    assert_eq!(s.find_or_add(30, "cube".to_string()), 0);
    assert_eq!(s.len(), 2);
    assert_eq!(s.get(0), Some(&10));
}

#[test]
fn extracted_file_names_follow_the_prefix() {
    assert_eq!(skeleton_file_name("OldMan", "Armature", 0, 1), "OldMan_Armature.skel.ron");
    assert_eq!(skeleton_file_name("OldMan", "Armature", 1, 2), "OldMan_Armature_1.skel.ron");
    assert_eq!(clip_file_name("OldMan", "Idle", 0, 1), "OldMan_Idle.clip.ron");
    assert_eq!(clip_file_name("OldMan", "Walk Cycle!", 12, 3), "OldMan_Walk_Cycle_12.clip.ron");
    assert_eq!(texture_file_name("OldMan", 0), "OldMan_texture_0.png");
    assert_eq!(material_name(3), "Material_3");
    assert_eq!(material_file_name("OldMan", "Material_3"), "OldMan_Material_3.mat.ron");
    assert_eq!(extraction_marker_name("OldMan"), "OldMan_.extracted");
}

#[test]
fn material_texture_refs_skip_unwritten_textures() {
    let files = vec!["a_texture_0.png".to_string(), String::new()];
    assert_eq!(material_texture_ref(&files, Some(0)), Some("a_texture_0.png".to_string()));
    assert_eq!(material_texture_ref(&files, Some(1)), None);
    assert_eq!(material_texture_ref(&files, Some(2)), None);
    assert_eq!(material_texture_ref(&files, None), None);
}

#[test]
fn gltf_primitive_names() {
    assert_eq!(gltf_node_name(Some("Body"), 3), "Body");
    assert_eq!(gltf_node_name(None, 3), "node_3");
    assert_eq!(gltf_store_name("models/car.glb", "Body", 1), "gltf:models/car.glb#Body/1");
    assert_eq!(gltf_display_name("Body", 1, 2), "Body.1");
    assert_eq!(gltf_display_name("Body", 0, 1), "Body");
}

#[test]
fn gltf_store_names_resolve_to_their_file() {
    let name = gltf_store_name("models/car.glb", "Body", 1);
    assert_eq!(classify_mesh_ref(&name), MeshSource::Gltf { file: "models/car.glb".to_string() });
}

#[test]
fn dropped_copies_are_numbered_with_lower_case_extension() {
    assert_eq!(dropped_copy_name("rock", 2, "PNG"), "rock 2.png");
    assert_eq!(dropped_copy_name("notes", 3, ""), "notes 3");
}

#[test]
fn a_free_scene_name_is_kept() {
    let taken = vec!["Other".to_string()];
    assert_eq!(deduplicate_scene_name("Level", &taken), "Level");
    assert_eq!(deduplicate_scene_name("Level", &Vec::new()), "Level");
}

#[test]
fn a_taken_scene_name_gets_the_first_free_number() {
    let taken = vec!["Level".to_string(), "Level (2)".to_string(), "Level (1)".to_string(), "Level (4)".to_string()];
    assert_eq!(deduplicate_scene_name("Level", &taken), "Level (3)");
    let taken = vec!["Main".to_string()];
    assert_eq!(deduplicate_scene_name("Main", &taken), "Main (1)");
}

#[test]
fn a_taken_project_name_gets_the_first_free_number_from_two() {
    assert_eq!(free_project_name("My Game", &vec!["Other".to_string()]), "My Game");
    let taken = vec!["My Game".to_string(), "My Game 3".to_string(), "My Game 2".to_string()];
    assert_eq!(free_project_name("My Game", &taken), "My Game 4");
    assert_eq!(free_project_name("My Game", &vec!["My Game".to_string()]), "My Game 2");
}

#[test]
fn sanitizing_twice_changes_nothing() {
    for name in ["  Hello World!  ", "__", "My Model.v2", "é-ok", "", "unnamed", "a_b-c"] {
        let once = sanitize_name(name);
        assert_eq!(sanitize_name(&once), once);
    }
    assert_eq!(sanitize_name("My Model.v2"), "My_Model_v2");
}

#[test]
fn adds_get_ids_in_order_and_lookups_find_the_first() {
    let mut st: AssetStore<u32> = AssetStore::new();
    let ids: Vec<usize> = vec![st.add(10, "walk".to_string()), st.add(20, "run".to_string()), st.add(30, "walk".to_string())];
    assert_eq!(ids, vec![0, 1, 2]);
    assert_eq!(st.len(), 3);
    assert_eq!(st.get(2), Some(&30));
    assert_eq!(st.get_name(1), Some("run"));
    assert_eq!(st.find_by_name("walk"), Some(0));
    assert_eq!(st.find_by_name("jump"), None);
}

#[test]
fn material_slots_bind_stored_textures_only() {
    let keys = vec!["k0".to_string(), "k1".to_string(), "k2".to_string()];
    let ids = vec![7, 9];
    assert_eq!(material_texture(Some(1), &ids, &keys), Some((9, "k1".to_string())));
    assert_eq!(material_texture(Some(2), &ids, &keys), None);
    assert_eq!(material_texture(None, &ids, &keys), None);
}
