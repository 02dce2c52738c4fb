use clawdengine::export::{bundle_identifier, exported_manifest_text, info_plist};
use clawdengine::console::{LevelFilter, LogLevel, LogRing};
use clawdengine::paths::{base_dir, is_bundled, resolve, BaseDir};
use clawdengine::project::{
    format_relative_date, register_project, register_project_at, relative_date_at, relative_date_label,
    unregister_project,
    ProjectRegistry, RegisteredProject,
};
use clawdengine::settings::{game_name, BuildSettings, RenderingSettings};

fn paths(r: &ProjectRegistry) -> Vec<(String, String)> {
    r.recent.iter().map(|p| (p.path.clone(), p.last_opened.clone())).collect()
}

#[test]
fn registering_appends_then_refreshes_the_date() {
    let mut r = ProjectRegistry { recent: Vec::new() };
    register_project_at(&mut r, "/p/a", "2024-01-01T10:00:00".to_string());
    register_project_at(&mut r, "/p/b", "2024-01-02T10:00:00".to_string());
    register_project_at(&mut r, "/p/a", "2024-02-01T09:00:00".to_string());
    assert_eq!(
        paths(&r),
        vec![
            ("/p/a".to_string(), "2024-02-01T09:00:00".to_string()),
            ("/p/b".to_string(), "2024-01-02T10:00:00".to_string()),
        ]
    );
}

#[test]
fn unregistering_drops_every_entry_of_the_path() {
    let mut r = ProjectRegistry {
        recent: vec![
            RegisteredProject { path: "/x".to_string(), last_opened: "1".to_string() },
            RegisteredProject { path: "/y".to_string(), last_opened: "2".to_string() },
            RegisteredProject { path: "/x".to_string(), last_opened: "3".to_string() },
        ],
    };
    unregister_project(&mut r, "/x");
    assert_eq!(paths(&r), vec![("/y".to_string(), "2".to_string())]);
    unregister_project(&mut r, "/nothing");
    assert_eq!(r.recent.len(), 1);
}

#[test]
fn register_then_unregister_leaves_no_entry() {
    let mut r = ProjectRegistry { recent: Vec::new() };
    register_project(&mut r, "/p/new");
    assert_eq!(r.recent.len(), 1);
    assert_eq!(r.recent[0].path, "/p/new");
    assert_eq!(r.recent[0].last_opened.len(), "2024-01-01T00:00:00".len());
    unregister_project(&mut r, "/p/new");
    assert!(r.recent.is_empty());
}

#[test]
fn relative_labels() {
    assert_eq!(relative_date_label(0, "13 Feb"), "just now");
    assert_eq!(relative_date_label(-500, "13 Feb"), "just now");
    assert_eq!(relative_date_label(59, "13 Feb"), "just now");
    assert_eq!(relative_date_label(60, "13 Feb"), "1m ago");
    assert_eq!(relative_date_label(3599, "13 Feb"), "59m ago");
    assert_eq!(relative_date_label(7200, "13 Feb"), "2h ago");
    assert_eq!(relative_date_label(86400, "13 Feb"), "yesterday");
    assert_eq!(relative_date_label(172800, "13 Feb"), "2d ago");
    assert_eq!(relative_date_label(604799, "13 Feb"), "6d ago");
    assert_eq!(relative_date_label(604800, "13 Feb"), "13 Feb");
}

#[test]
fn format_relative_date_of_old_and_bad_dates() {
    assert_eq!(format_relative_date("not a date"), "not a date");
    assert_eq!(format_relative_date("2001-02-13T12:00:00"), "13 Feb");
}

#[test]
fn log_ring_keeps_the_latest_and_counts_everything() {
    let mut ring = LogRing::new(2);
    ring.push(LogLevel::Info, "one".to_string(), 1);
    ring.push(LogLevel::Error, "two".to_string(), 2);
    ring.push(LogLevel::Info, "three".to_string(), 3);
    let msgs: Vec<String> = ring.entries().iter().map(|e| e.message.clone()).collect();
    assert_eq!(msgs, vec!["two".to_string(), "three".to_string()]);
    assert_eq!(ring.counts(), (1, 0, 2, 0));
    assert_eq!(ring.max_entries(), 2);
    ring.clear();
    assert!(ring.entries().is_empty());
    assert_eq!(ring.counts(), (0, 0, 0, 0));
}

#[test]
fn log_levels_from_the_log_crate() {
    assert_eq!(LogLevel::from_rank(log::Level::Error as usize), LogLevel::Error);
    assert_eq!(LogLevel::from_rank(log::Level::Warn as usize), LogLevel::Warn);
    assert_eq!(LogLevel::from_rank(log::Level::Info as usize), LogLevel::Info);
    assert_eq!(LogLevel::from_rank(log::Level::Debug as usize), LogLevel::Debug);
    assert_eq!(LogLevel::from_rank(log::Level::Trace as usize), LogLevel::Debug);
    assert_eq!(LogLevel::from_rank(7), LogLevel::Debug);
}

#[test]
fn paths_against_the_base_directory() {
    let bundle = BaseDir { path: "/app/Resources".to_string(), bundled: true };
    let dev = BaseDir { path: "/home/u/Resources".to_string(), bundled: false };
    assert_eq!(resolve(None, "assets/a.png"), "assets/a.png");
    let r = resolve(Some(&bundle), "assets/a.png");
    assert!(r.starts_with("/app/Resources") && r.ends_with("assets/a.png"));
    assert_eq!(base_dir(None), ".");
    assert_eq!(base_dir(Some(&dev)), "/home/u/Resources");
    assert!(is_bundled(Some(&bundle)));
    assert!(!is_bundled(Some(&dev)));
    assert!(!is_bundled(None));
}

#[test]
fn settings_defaults_and_game_name() {
    let r = RenderingSettings::default();
    assert_eq!((r.msaa_samples, r.anisotropy, r.window_width, r.window_height), (4, 16, 1280, 720));
    let mut b = BuildSettings::default();
    assert_eq!(b.bundle_id_prefix, "com.clawdengine");
    assert_eq!(b.version, "1.0.0");
    assert_eq!(game_name(&b, "Demo"), "Demo");
    b.app_name = "Shipped".to_string();
    assert_eq!(game_name(&b, "Demo"), "Shipped");
}

#[test]
fn exported_manifest_names_the_start_scene() {
    assert_eq!(
        exported_manifest_text("My Game", "Level 1"),
        "(\n    name: \"My Game\",\n    startup_scene: \"scenes/Level 1.ron\",\n)\n"
    );
}

#[test]
fn bundle_identifier_is_lower_case() {
    assert_eq!(bundle_identifier("com.clawdengine", "MyGame"), "com.clawdengine.mygame");
}

#[test]
fn info_plist_carries_name_id_and_versions() {
    let p = info_plist("My Game", "com.x.mygame", "1.2.0", "13.0");
    assert!(p.starts_with("<?xml version=\"1.0\" encoding=\"UTF-8\"?>\n"));
    assert!(p.contains("<key>CFBundleName</key>\n    <string>My Game</string>"));
    assert!(p.contains("<key>CFBundleDisplayName</key>\n    <string>My Game</string>"));
    assert!(p.contains("<key>CFBundleIdentifier</key>\n    <string>com.x.mygame</string>"));
    assert!(p.contains("<key>CFBundleVersion</key>\n    <string>1.2.0</string>"));
    assert!(p.contains("<key>CFBundleShortVersionString</key>\n    <string>1.2.0</string>"));
    assert!(p.contains("<key>LSMinimumSystemVersion</key>\n    <string>13.0</string>"));
    assert!(p.ends_with("</dict>\n</plist>"));
}

#[test]
fn console_shows_the_levels_switched_on() {
    let mut ring = LogRing::new(10);
    ring.push(LogLevel::Info, "a".to_string(), 1);
    ring.push(LogLevel::Error, "b".to_string(), 2);
    ring.push(LogLevel::Debug, "c".to_string(), 3);
    ring.push(LogLevel::Warn, "d".to_string(), 4);
    let only_problems = LevelFilter { error: true, warn: true, info: false, debug: false };
    assert_eq!(ring.visible_positions(only_problems), vec![1, 3]);
    let all = LevelFilter { error: true, warn: true, info: true, debug: true };
    assert_eq!(ring.visible_positions(all), vec![0, 1, 2, 3]);
    let none = LevelFilter { error: false, warn: false, info: false, debug: false };
    assert!(ring.visible_positions(none).is_empty());
}

#[test]
fn relative_dates_count_from_the_given_time() {
    let iso = "2024-02-13T10:00:00";
    let ts: i64 = 1707818400;
    assert_eq!(relative_date_at(iso, ts + 30), "just now");
    assert_eq!(relative_date_at(iso, ts - 600), "just now");
    assert_eq!(relative_date_at(iso, ts + 300), "5m ago");
    assert_eq!(relative_date_at(iso, ts + 3 * 3600 + 59), "3h ago");
    assert_eq!(relative_date_at(iso, ts + 86400 + 5), "yesterday");
    assert_eq!(relative_date_at(iso, ts + 4 * 86400), "4d ago");
    assert_eq!(relative_date_at(iso, ts + 30 * 86400), "13 Feb");
    assert_eq!(relative_date_at("not a date", ts), "not a date");
}

#[test]
fn a_registered_project_carries_a_full_local_date() {
    let mut r = ProjectRegistry { recent: Vec::new() };
    register_project(&mut r, "/p");
    let d = &r.recent[0].last_opened;
    assert!(chrono::NaiveDateTime::parse_from_str(d, "%Y-%m-%dT%H:%M:%S").is_ok());
}

#[test]
fn a_ring_made_with_no_room_keeps_the_latest_message() {
    let mut ring = LogRing::new(0);
    assert!(ring.entries().is_empty());
    ring.push(LogLevel::Info, "one".to_string(), 1);
    ring.push(LogLevel::Warn, "two".to_string(), 2);
    let msgs: Vec<String> = ring.entries().iter().map(|e| e.message.clone()).collect();
    assert_eq!(msgs, vec!["two".to_string()]);
    assert_eq!(ring.counts(), (0, 1, 1, 0));
    assert_eq!(ring.max_entries(), 0);
}
