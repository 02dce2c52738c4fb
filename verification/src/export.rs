use vstd::prelude::*;

use vstd::string::StringExecFns;

use crate::text::{to_lowercase, unicode_lower};

verus! {

/// `game.ron` of an exported game: its name and the scene it starts with.
pub open spec fn exported_manifest_spec(game_name: Seq<char>, scene_name: Seq<char>) -> Seq<char> {
    "(\n    name: \""@ + game_name + "\",\n    startup_scene: \"scenes/"@ + scene_name + ".ron\",\n)\n"@
}

/// The text of `game.ron` for an exported game.
pub fn exported_manifest_text(game_name: &str, scene_name: &str) -> (r: String)
    ensures
        r@ == exported_manifest_spec(game_name@, scene_name@),
{
    let mut s = String::from_str("(\n    name: \"");
    s.append(game_name);
    s.append("\",\n    startup_scene: \"scenes/");
    s.append(scene_name);
    s.append(".ron\",\n)\n");
    s
}

/// The bundle identifier of an exported game: the configured prefix, a dot,
/// and the bundle name in lower case.
pub open spec fn bundle_identifier_spec(prefix: Seq<char>, bundle_name: Seq<char>) -> Seq<char> {
    prefix + "."@ + unicode_lower(bundle_name)
}

pub fn bundle_identifier(prefix: &str, bundle_name: &str) -> (r: String)
    ensures
        r@ == bundle_identifier_spec(prefix@, bundle_name@),
{
    let mut s = String::from_str(prefix);
    s.append(".");
    let lower = to_lowercase(bundle_name);
    s.append(lower.as_str());
    s
}

/// The property list of an exported macOS application bundle.
pub open spec fn info_plist_spec(name: Seq<char>, bundle_id: Seq<char>, version: Seq<char>, min_os: Seq<char>) -> Seq<char> {
    "<?xml version=\"1.0\" encoding=\"UTF-8\"?>\n<!DOCTYPE plist PUBLIC \"-//Apple//DTD PLIST 1.0//EN\"\n  \"http://www.apple.com/DTDs/PropertyList-1.0.dtd\">\n<plist version=\"1.0\">\n<dict>\n    <key>CFBundleName</key>\n    <string>"@
        + name + "</string>\n    <key>CFBundleDisplayName</key>\n    <string>"@ + name
        + "</string>\n    <key>CFBundleIdentifier</key>\n    <string>"@ + bundle_id
        + "</string>\n    <key>CFBundleVersion</key>\n    <string>"@ + version
        + "</string>\n    <key>CFBundleShortVersionString</key>\n    <string>"@ + version
        + "</string>\n    <key>CFBundleExecutable</key>\n    <string>clawdengine</string>\n    <key>CFBundlePackageType</key>\n    <string>APPL</string>\n    <key>NSHighResolutionCapable</key>\n    <true/>\n    <key>LSMinimumSystemVersion</key>\n    <string>"@
        + min_os + "</string>\n</dict>\n</plist>"@
}

pub fn info_plist(name: &str, bundle_id: &str, version: &str, min_os: &str) -> (r: String)
    ensures
        r@ == info_plist_spec(name@, bundle_id@, version@, min_os@),
{
    let mut s = String::from_str(
        "<?xml version=\"1.0\" encoding=\"UTF-8\"?>\n<!DOCTYPE plist PUBLIC \"-//Apple//DTD PLIST 1.0//EN\"\n  \"http://www.apple.com/DTDs/PropertyList-1.0.dtd\">\n<plist version=\"1.0\">\n<dict>\n    <key>CFBundleName</key>\n    <string>",
    );
    s.append(name);
    s.append("</string>\n    <key>CFBundleDisplayName</key>\n    <string>");
    s.append(name);
    s.append("</string>\n    <key>CFBundleIdentifier</key>\n    <string>");
    s.append(bundle_id);
    s.append("</string>\n    <key>CFBundleVersion</key>\n    <string>");
    s.append(version);
    s.append("</string>\n    <key>CFBundleShortVersionString</key>\n    <string>");
    s.append(version);
    s.append(
        "</string>\n    <key>CFBundleExecutable</key>\n    <string>clawdengine</string>\n    <key>CFBundlePackageType</key>\n    <string>APPL</string>\n    <key>NSHighResolutionCapable</key>\n    <true/>\n    <key>LSMinimumSystemVersion</key>\n    <string>",
    );
    s.append(min_os);
    s.append("</string>\n</dict>\n</plist>");
    s
}

} // verus!
