use vstd::prelude::*;

use vstd::string::StringExecFns;

use crate::names::{decimal, push_decimal, sanitize_name, sanitized};

verus! {

/// The file of the `index`-th of `count` sub-assets of one kind extracted
/// from a model: `<prefix>_<name><ext>` when there is only one, otherwise
/// `<prefix>_<name>_<index><ext>`.
pub open spec fn sub_asset_file(prefix: Seq<char>, name: Seq<char>, index: nat, count: nat, ext: Seq<char>) -> Seq<char> {
    if count == 1 {
        prefix + "_"@ + name + ext
    } else {
        prefix + "_"@ + name + "_"@ + decimal(index) + ext
    }
}

fn sub_asset_file_name(prefix: &str, raw_name: &str, index: usize, count: usize, ext: &str) -> (r: String)
    ensures
        r@ == sub_asset_file(prefix@, sanitized(raw_name@), index as nat, count as nat, ext@),
{
    let mut s = String::from_str(prefix);
    s.append("_");
    let name = sanitize_name(raw_name);
    s.append(name.as_str());
    if count != 1 {
        s.append("_");
        push_decimal(&mut s, index as u64);
    }
    s.append(ext);
    s
}

/// The file an extracted skeleton is written to.
pub fn skeleton_file_name(prefix: &str, skeleton_name: &str, index: usize, count: usize) -> (r: String)
    ensures
        r@ == sub_asset_file(prefix@, sanitized(skeleton_name@), index as nat, count as nat, ".skel.ron"@),
{
    sub_asset_file_name(prefix, skeleton_name, index, count, ".skel.ron")
}

/// The file an extracted animation clip is written to.
pub fn clip_file_name(prefix: &str, clip_name: &str, index: usize, count: usize) -> (r: String)
    ensures
        r@ == sub_asset_file(prefix@, sanitized(clip_name@), index as nat, count as nat, ".clip.ron"@),
{
    sub_asset_file_name(prefix, clip_name, index, count, ".clip.ron")
}

/// The file the `index`-th embedded texture is written to.
pub fn texture_file_name(prefix: &str, index: usize) -> (r: String)
    ensures
        r@ == prefix@ + "_texture_"@ + decimal(index as nat) + ".png"@,
{
    let mut s = String::from_str(prefix);
    s.append("_texture_");
    push_decimal(&mut s, index as u64);
    s.append(".png");
    s
}

/// The name given to the material of the `index`-th mesh.
pub fn material_name(index: usize) -> (r: String)
    ensures
        r@ == "Material_"@ + decimal(index as nat),
{
    let mut s = String::from_str("Material_");
    push_decimal(&mut s, index as u64);
    s
}

/// The file an extracted material is written to.
pub fn material_file_name(prefix: &str, material: &str) -> (r: String)
    ensures
        r@ == prefix@ + "_"@ + sanitized(material@) + ".mat.ron"@,
{
    let mut s = String::from_str(prefix);
    s.append("_");
    let name = sanitize_name(material);
    s.append(name.as_str());
    s.append(".mat.ron");
    s
}

/// The marker file whose presence means a model was already extracted.
pub fn extraction_marker_name(prefix: &str) -> (r: String)
    ensures
        r@ == prefix@ + "_.extracted"@,
{
    let mut s = String::from_str(prefix);
    s.append("_.extracted");
    s
}

/// The texture file a material refers to: the file written for its texture
/// index, when there is one and it was written (an empty entry marks a
/// texture that could not be written).
pub fn material_texture_ref(texture_files: &Vec<String>, index: Option<usize>) -> (r: Option<String>)
    ensures
        r matches Some(f) ==> index matches Some(i) && i < texture_files@.len() && f@ == texture_files@[i as int]@
            && f@.len() > 0,
        r is None ==> match index {
            Some(i) => i >= texture_files@.len() || texture_files@[i as int]@.len() == 0,
            None => true,
        },
{
    match index {
        Some(i) => {
            if i < texture_files.len() && !texture_files[i].as_str().is_empty() {
                Some(texture_files[i].clone())
            } else {
                None
            }
        },
        None => None,
    }
}

} // verus!
