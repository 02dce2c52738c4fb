use vstd::prelude::*;

verus! {

/// Renderer settings of a project.
#[derive(Clone, Debug)]
pub struct RenderingSettings {
    pub msaa_samples: u32,
    pub anisotropy: u32,
    pub window_width: u32,
    pub window_height: u32,
}

impl Default for RenderingSettings {
    fn default() -> (r: Self)
        ensures
            r.msaa_samples == 4,
            r.anisotropy == 16,
            r.window_width == 1280,
            r.window_height == 720,
    {
        RenderingSettings { msaa_samples: 4, anisotropy: 16, window_width: 1280, window_height: 720 }
    }
}

/// Settings used when exporting a game.
#[derive(Clone, Debug)]
pub struct BuildSettings {
    pub app_name: String,
    pub bundle_id_prefix: String,
    pub version: String,
    pub min_macos_version: String,
}

impl Default for BuildSettings {
    fn default() -> (r: Self)
        ensures
            r.app_name@.len() == 0,
            r.bundle_id_prefix@ == "com.clawdengine"@,
            r.version@ == "1.0.0"@,
            r.min_macos_version@ == "13.0"@,
    {
        BuildSettings {
            app_name: String::new(),
            bundle_id_prefix: "com.clawdengine".to_string(),
            version: "1.0.0".to_string(),
            min_macos_version: "13.0".to_string(),
        }
    }
}

/// The name an exported game is given: the custom app name when one is set,
/// otherwise the project's name.
pub fn game_name(build: &BuildSettings, manifest_name: &str) -> (r: String)
    ensures
        r@ == if build.app_name@.len() == 0 {
            manifest_name@
        } else {
            build.app_name@
        },
{
    if build.app_name.as_str().is_empty() {
        manifest_name.to_string()
    } else {
        build.app_name.clone()
    }
}

} // verus!
