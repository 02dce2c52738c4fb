use vstd::prelude::*;

use vstd::string::StringExecFns;

use crate::names::{
    contains_chars, contains_seq, decimal, ends_with_chars, has_prefix, has_suffix, push_decimal, starts_with_chars,
};
use crate::text::{chars_of, push_char, string_from_chars};

verus! {

/// How a mesh reference stored in a scene is to be resolved.
#[derive(Clone, Debug, PartialEq, Eq)]
pub enum MeshSource {
    /// No mesh.
    Empty,
    /// A mesh of a glTF file: `gltf:<file>#<node>/<primitive>`.
    Gltf { file: String },
    /// A `gltf:` reference without its `#` part.
    MalformedGltf,
    /// A path climbing out of the project (`..`): refused.
    Rejected,
    /// A relative path to an OBJ file.
    ObjFile,
    /// Anything else: no loader applies.
    Unresolved,
}

/// Index of the first occurrence of `c` in `s`.
pub open spec fn first_index_of(s: Seq<char>, c: char) -> Option<nat>
    decreases s.len(),
{
    if s.len() == 0 {
        None
    } else {
        match first_index_of(s.drop_last(), c) {
            Some(i) => Some(i),
            None => if s.last() == c {
                Some((s.len() - 1) as nat)
            } else {
                None
            },
        }
    }
}

fn find_char(cs: &Vec<char>, from: usize, c: char) -> (r: Option<usize>)
    requires
        from <= cs.len(),
    ensures
        r matches Some(i) ==> from <= i < cs@.len() && first_index_of(cs@.subrange(from as int, cs@.len() as int), c)
            == Some((i - from) as nat),
        r is None ==> first_index_of(cs@.subrange(from as int, cs@.len() as int), c) is None,
{
    let ghost t = cs@.subrange(from as int, cs@.len() as int);
    let mut i: usize = from;
    while i < cs.len()
        invariant
            from <= i <= cs.len(),
            t == cs@.subrange(from as int, cs@.len() as int),
            first_index_of(t.subrange(0, i - from), c) is None,
        decreases cs.len() - i,
    {
        assert(t.subrange(0, i + 1 - from).drop_last() =~= t.subrange(0, i - from));
        if cs[i] == c {
            proof {
                lemma_first_index_prefix(t, c, (i + 1 - from) as nat);
            }
            return Some(i);
        }
        i = i + 1;
    }
    assert(t.subrange(0, t.len() as int) =~= t);
    None
}

proof fn lemma_first_index_prefix(s: Seq<char>, c: char, n: nat)
    requires
        n <= s.len(),
        first_index_of(s.subrange(0, n as int), c) is Some,
    ensures
        first_index_of(s, c) == first_index_of(s.subrange(0, n as int), c),
    decreases s.len() - n,
{
    if n < s.len() {
        assert(s.subrange(0, (n + 1) as int).drop_last() =~= s.subrange(0, n as int));
        lemma_first_index_prefix(s, c, n + 1);
    } else {
        assert(s.subrange(0, n as int) =~= s);
    }
}

/// Model of a `MeshSource`, with the glTF file as characters.
pub enum MeshSourceView {
    Empty,
    Gltf(Seq<char>),
    MalformedGltf,
    Rejected,
    ObjFile,
    Unresolved,
}

impl View for MeshSource {
    type V = MeshSourceView;

    open spec fn view(&self) -> MeshSourceView {
        match self {
            MeshSource::Empty => MeshSourceView::Empty,
            MeshSource::Gltf { file } => MeshSourceView::Gltf(file@),
            MeshSource::MalformedGltf => MeshSourceView::MalformedGltf,
            MeshSource::Rejected => MeshSourceView::Rejected,
            MeshSource::ObjFile => MeshSourceView::ObjFile,
            MeshSource::Unresolved => MeshSourceView::Unresolved,
        }
    }
}

/// The classification `resolve_mesh` applies to a mesh reference that is not
/// already loaded: empty; `gltf:<file>#...`; a `gltf:` reference without `#`;
/// a path with `..` (refused); a path under `assets/` or with a `/` (an OBJ
/// file); anything else.
pub open spec fn mesh_source_of(name: Seq<char>) -> MeshSourceView {
    if name.len() == 0 {
        MeshSourceView::Empty
    } else if has_prefix(name, "gltf:"@) {
        let rest = name.subrange(5, name.len() as int);
        match first_index_of(rest, '#') {
            Some(h) => MeshSourceView::Gltf(rest.subrange(0, h as int)),
            None => MeshSourceView::MalformedGltf,
        }
    } else if contains_seq(name, ".."@) {
        MeshSourceView::Rejected
    } else if has_prefix(name, "assets/"@) || contains_seq(name, "/"@) {
        MeshSourceView::ObjFile
    } else {
        MeshSourceView::Unresolved
    }
}

/// Classifies a mesh reference stored in a scene or prefab.
pub fn classify_mesh_ref(name: &str) -> (r: MeshSource)
    ensures
        r@ == mesh_source_of(name@),
{
    let cs = chars_of(name);
    if cs.len() == 0 {
        return MeshSource::Empty;
    }
    let gltf = chars_of("gltf:");
    proof {
        reveal_strlit("gltf:");
    }
    if starts_with_chars(&cs, &gltf) {
        return match find_char(&cs, 5, '#') {
            Some(h) => {
                let mut f: Vec<char> = Vec::new();
                let mut j: usize = 5;
                while j < h
                    invariant
                        5 <= j <= h,
                        h <= cs.len(),
                        f@ =~= cs@.subrange(5, j as int),
                    decreases h - j,
                {
                    f.push(cs[j]);
                    j = j + 1;
                }
                let ghost rest = cs@.subrange(5, cs@.len() as int);
                assert(rest.subrange(0, (h - 5) as int) =~= cs@.subrange(5, h as int));
                MeshSource::Gltf { file: string_from_chars(&f) }
            },
            None => MeshSource::MalformedGltf,
        };
    }
    let dots = chars_of("..");
    if contains_chars(&cs, &dots) {
        return MeshSource::Rejected;
    }
    let assets = chars_of("assets/");
    let slash = chars_of("/");
    if starts_with_chars(&cs, &assets) || contains_chars(&cs, &slash) {
        return MeshSource::ObjFile;
    }
    MeshSource::Unresolved
}

/// A first occurrence is an occurrence with none before it; no occurrence
/// means none at all.
proof fn lemma_first_index_char(s: Seq<char>, c: char)
    ensures
        first_index_of(s, c) matches Some(i) ==> i < s.len() && s[i as int] == c && forall|j: int| 0 <= j < i ==> s[j] != c,
        first_index_of(s, c) is None ==> forall|j: int| 0 <= j < s.len() ==> s[j] != c,
    decreases s.len(),
{
    if s.len() > 0 {
        let t = s.drop_last();
        lemma_first_index_char(t, c);
        assert forall|j: int| 0 <= j < t.len() implies t[j] == s[j] by {}
    }
}

/// The name a node of a glTF file goes by: its own name, or `node_<index>`.
pub open spec fn gltf_node_name_spec(name: Option<Seq<char>>, index: nat) -> Seq<char> {
    match name {
        Some(n) => n,
        None => "node_"@ + decimal(index),
    }
}

pub fn gltf_node_name(name: Option<&str>, index: usize) -> (r: String)
    ensures
        r@ == gltf_node_name_spec(
            match name {
                Some(n) => Some(n@),
                None => None,
            },
            index as nat,
        ),
{
    match name {
        Some(n) => n.to_string(),
        None => {
            let mut s = String::from_str("node_");
            push_decimal(&mut s, index as u64);
            s
        },
    }
}

/// The mesh-store name of a primitive of a glTF file: `gltf:<file>#<node>/<primitive>`.
pub open spec fn gltf_store_name_spec(file: Seq<char>, node: Seq<char>, primitive: nat) -> Seq<char> {
    "gltf:"@ + file + "#"@ + node + "/"@ + decimal(primitive)
}

pub fn gltf_store_name(file: &str, node: &str, primitive: usize) -> (r: String)
    ensures
        r@ == gltf_store_name_spec(file@, node@, primitive as nat),
{
    let mut s = String::from_str("gltf:");
    s.append(file);
    s.append("#");
    s.append(node);
    s.append("/");
    push_decimal(&mut s, primitive as u64);
    s
}

/// The name an imported primitive's entity gets: the node's name, followed by
/// `.<primitive>` when the mesh has several primitives.
pub open spec fn gltf_display_name_spec(node: Seq<char>, primitive: nat, primitive_count: nat) -> Seq<char> {
    if primitive_count > 1 {
        node + "."@ + decimal(primitive)
    } else {
        node
    }
}

pub fn gltf_display_name(node: &str, primitive: usize, primitive_count: usize) -> (r: String)
    ensures
        r@ == gltf_display_name_spec(node@, primitive as nat, primitive_count as nat),
{
    let mut s = String::from_str(node);
    if primitive_count > 1 {
        s.append(".");
        push_decimal(&mut s, primitive as u64);
    }
    s
}

/// A scene that stores a glTF primitive under the name the loader gave it
/// finds its way back to the file: the reference resolves to that file,
/// provided the file's path holds no `#`.
pub proof fn law_gltf_store_name_resolves(file: Seq<char>, node: Seq<char>, primitive: nat)
    requires
        forall|j: int| 0 <= j < file.len() ==> file[j] != '#',
    ensures
        mesh_source_of(gltf_store_name_spec(file, node, primitive)) == MeshSourceView::Gltf(file),
{
    reveal_strlit("gltf:");
    reveal_strlit("#");
    let name = gltf_store_name_spec(file, node, primitive);
    let rest = file + "#"@ + node + "/"@ + decimal(primitive);
    assert(name.subrange(0, 5) =~= "gltf:"@);
    assert(name.subrange(5, name.len() as int) =~= rest);
    assert(rest[file.len() as int] == '#');
    lemma_first_index_char(rest, '#');
    assert forall|j: int| 0 <= j < file.len() implies rest[j] != '#' by {
        assert(rest[j] == file[j]);
    }
    assert(first_index_of(rest, '#') == Some(file.len()));
    assert(rest.subrange(0, file.len() as int) =~= file);
}

/// The kind of a file in the asset browser, by its extension.
#[derive(Clone, Copy, Debug, PartialEq, Eq, Structural)]
pub enum AssetKind {
    Material,
    Skeleton,
    Clip,
    Scene,
    Image,
    Mesh,
    Script,
    Audio,
    Other,
}

pub open spec fn asset_kind_of(name: Seq<char>) -> AssetKind {
    if has_suffix(name, ".mat.ron"@) {
        AssetKind::Material
    } else if has_suffix(name, ".skel.ron"@) {
        AssetKind::Skeleton
    } else if has_suffix(name, ".clip.ron"@) {
        AssetKind::Clip
    } else if has_suffix(name, ".scene.ron"@) {
        AssetKind::Scene
    } else if has_suffix(name, ".png"@) || has_suffix(name, ".jpg"@) || has_suffix(name, ".jpeg"@) {
        AssetKind::Image
    } else if has_suffix(name, ".fbx"@) || has_suffix(name, ".glb"@) || has_suffix(name, ".gltf"@)
        || has_suffix(name, ".obj"@) {
        AssetKind::Mesh
    } else if has_suffix(name, ".rs"@) {
        AssetKind::Script
    } else if has_suffix(name, ".wav"@) || has_suffix(name, ".mp3"@) || has_suffix(name, ".ogg"@) {
        AssetKind::Audio
    } else {
        AssetKind::Other
    }
}

/// Two suffixes of one name agree character by character from the end.
proof fn lemma_suffix_at(name: Seq<char>, s: Seq<char>, k: int)
    requires
        has_suffix(name, s),
        1 <= k <= s.len(),
    ensures
        name[name.len() - k] == s[s.len() - k],
{
    assert(name.subrange(name.len() - s.len(), name.len() as int)[s.len() - k] == name[name.len() - k]);
}

/// The last two characters of a name.
spec fn tail2(name: Seq<char>) -> (char, char) {
    (name[name.len() - 2], name[name.len() - 1])
}

/// A suffix's last two characters are the name's.
proof fn lemma_tail2(name: Seq<char>, s: Seq<char>)
    requires
        has_suffix(name, s),
        s.len() >= 2,
    ensures
        tail2(name) == (s[s.len() - 2], s[s.len() - 1]),
{
    lemma_suffix_at(name, s, 1);
    lemma_suffix_at(name, s, 2);
}

/// A file's kind follows from its extension alone: an image for `.png`,
/// `.jpg` and `.jpeg`; a mesh for `.fbx`, `.glb`, `.gltf` and `.obj`; a
/// script for `.rs`; audio for `.wav`, `.mp3` and `.ogg`; a material,
/// skeleton, clip or scene for `.mat.ron`, `.skel.ron`, `.clip.ron` and
/// `.scene.ron`. A name with none of these extensions is of no known kind.
pub proof fn law_asset_kind_by_extension(name: Seq<char>)
    ensures
        has_suffix(name, ".png"@) ==> asset_kind_of(name) == AssetKind::Image,
        has_suffix(name, ".jpg"@) ==> asset_kind_of(name) == AssetKind::Image,
        has_suffix(name, ".jpeg"@) ==> asset_kind_of(name) == AssetKind::Image,
        has_suffix(name, ".fbx"@) ==> asset_kind_of(name) == AssetKind::Mesh,
        has_suffix(name, ".glb"@) ==> asset_kind_of(name) == AssetKind::Mesh,
        has_suffix(name, ".gltf"@) ==> asset_kind_of(name) == AssetKind::Mesh,
        has_suffix(name, ".obj"@) ==> asset_kind_of(name) == AssetKind::Mesh,
        has_suffix(name, ".rs"@) ==> asset_kind_of(name) == AssetKind::Script,
        has_suffix(name, ".wav"@) ==> asset_kind_of(name) == AssetKind::Audio,
        has_suffix(name, ".mp3"@) ==> asset_kind_of(name) == AssetKind::Audio,
        has_suffix(name, ".ogg"@) ==> asset_kind_of(name) == AssetKind::Audio,
        has_suffix(name, ".mat.ron"@) ==> asset_kind_of(name) == AssetKind::Material,
        has_suffix(name, ".skel.ron"@) ==> asset_kind_of(name) == AssetKind::Skeleton,
        has_suffix(name, ".clip.ron"@) ==> asset_kind_of(name) == AssetKind::Clip,
        has_suffix(name, ".scene.ron"@) ==> asset_kind_of(name) == AssetKind::Scene,
        !has_suffix(name, ".png"@) && !has_suffix(name, ".jpg"@) && !has_suffix(name, ".jpeg"@) && !has_suffix(
            name,
            ".fbx"@,
        ) && !has_suffix(name, ".glb"@) && !has_suffix(name, ".gltf"@) && !has_suffix(name, ".obj"@) && !has_suffix(
            name,
            ".rs"@,
        ) && !has_suffix(name, ".wav"@) && !has_suffix(name, ".mp3"@) && !has_suffix(name, ".ogg"@) && !has_suffix(
            name,
            ".mat.ron"@,
        ) && !has_suffix(name, ".skel.ron"@) && !has_suffix(name, ".clip.ron"@) && !has_suffix(name, ".scene.ron"@)
            ==> asset_kind_of(name) == AssetKind::Other,
{
    reveal_strlit(".png");
    reveal_strlit(".jpg");
    reveal_strlit(".jpeg");
    reveal_strlit(".fbx");
    reveal_strlit(".glb");
    reveal_strlit(".gltf");
    reveal_strlit(".obj");
    reveal_strlit(".rs");
    reveal_strlit(".wav");
    reveal_strlit(".mp3");
    reveal_strlit(".ogg");
    reveal_strlit(".mat.ron");
    reveal_strlit(".skel.ron");
    reveal_strlit(".clip.ron");
    reveal_strlit(".scene.ron");
    // every suffix names the name's last two characters, and no two of the
    // groups share an ending
    if has_suffix(name, ".png"@) {
        lemma_tail2(name, ".png"@);
    }
    if has_suffix(name, ".jpg"@) {
        lemma_tail2(name, ".jpg"@);
    }
    if has_suffix(name, ".jpeg"@) {
        lemma_tail2(name, ".jpeg"@);
    }
    if has_suffix(name, ".fbx"@) {
        lemma_tail2(name, ".fbx"@);
    }
    if has_suffix(name, ".glb"@) {
        lemma_tail2(name, ".glb"@);
    }
    if has_suffix(name, ".gltf"@) {
        lemma_tail2(name, ".gltf"@);
    }
    if has_suffix(name, ".obj"@) {
        lemma_tail2(name, ".obj"@);
    }
    if has_suffix(name, ".rs"@) {
        lemma_tail2(name, ".rs"@);
    }
    if has_suffix(name, ".wav"@) {
        lemma_tail2(name, ".wav"@);
    }
    if has_suffix(name, ".mp3"@) {
        lemma_tail2(name, ".mp3"@);
    }
    if has_suffix(name, ".ogg"@) {
        lemma_tail2(name, ".ogg"@);
    }
    if has_suffix(name, ".mat.ron"@) {
        lemma_tail2(name, ".mat.ron"@);
        lemma_suffix_at(name, ".mat.ron"@, 5);
    }
    if has_suffix(name, ".skel.ron"@) {
        lemma_tail2(name, ".skel.ron"@);
        lemma_suffix_at(name, ".skel.ron"@, 5);
    }
    if has_suffix(name, ".clip.ron"@) {
        lemma_tail2(name, ".clip.ron"@);
        lemma_suffix_at(name, ".clip.ron"@, 5);
    }
    if has_suffix(name, ".scene.ron"@) {
        lemma_tail2(name, ".scene.ron"@);
        lemma_suffix_at(name, ".scene.ron"@, 5);
    }
}

fn has_ext(cs: &Vec<char>, ext: &str) -> (b: bool)
    ensures
        b == has_suffix(cs@, ext@),
{
    let e = chars_of(ext);
    ends_with_chars(cs, &e)
}

/// Classifies a file of the asset browser by its extension (the first rule that applies wins).
pub fn asset_kind(name: &str) -> (k: AssetKind)
    ensures
        k == asset_kind_of(name@),
{
    let cs = chars_of(name);
    if has_ext(&cs, ".mat.ron") {
        AssetKind::Material
    } else if has_ext(&cs, ".skel.ron") {
        AssetKind::Skeleton
    } else if has_ext(&cs, ".clip.ron") {
        AssetKind::Clip
    } else if has_ext(&cs, ".scene.ron") {
        AssetKind::Scene
    } else if has_ext(&cs, ".png") || has_ext(&cs, ".jpg") || has_ext(&cs, ".jpeg") {
        AssetKind::Image
    } else if has_ext(&cs, ".fbx") || has_ext(&cs, ".glb") || has_ext(&cs, ".gltf") || has_ext(
        &cs,
        ".obj",
    ) {
        AssetKind::Mesh
    } else if has_ext(&cs, ".rs") {
        AssetKind::Script
    } else if has_ext(&cs, ".wav") || has_ext(&cs, ".mp3") || has_ext(&cs, ".ogg") {
        AssetKind::Audio
    } else {
        AssetKind::Other
    }
}

/// `s` with every trailing `.rs` removed (`str::trim_end_matches(".rs")`).
pub open spec fn trim_rs(s: Seq<char>) -> Seq<char>
    decreases s.len(),
{
    if has_suffix(s, ".rs"@) && s.len() >= 3 {
        trim_rs(s.subrange(0, s.len() - 3))
    } else {
        s
    }
}

pub fn trim_rs_suffix(name: &str) -> (r: String)
    ensures
        r@ == trim_rs(name@),
{
    let cs = chars_of(name);
    let rs = chars_of(".rs");
    proof {
        reveal_strlit(".rs");
    }
    let mut end: usize = cs.len();
    let mut cur: Vec<char> = cs.clone();
    assert(cur@ =~= cs@);
    while ends_with_chars(&cur, &rs)
        invariant
            rs@ == ".rs"@,
            rs@.len() == 3,
            trim_rs(cur@) == trim_rs(name@),
            cur@.len() == end,
        decreases end,
    {
        let mut next: Vec<char> = Vec::new();
        let mut j: usize = 0;
        while j < end - 3
            invariant
                end >= 3,
                cur@.len() == end,
                j <= end - 3,
                next@ =~= cur@.subrange(0, j as int),
            decreases end - 3 - j,
        {
            next.push(cur[j]);
            j = j + 1;
        }
        cur = next;
        end = end - 3;
    }
    string_from_chars(&cur)
}

/// The characters of the Unicode upper-case mapping of `c` (`char::to_uppercase`),
/// a function of the character alone.
pub uninterp spec fn unicode_upper(c: char) -> Seq<char>;

/// `char::to_uppercase`, collected.
#[verifier::external_body]
fn upper_chars(c: char) -> (r: Vec<char>)
    ensures
        r@ == unicode_upper(c),
{
    c.to_uppercase().collect()
}

/// The type name generated for a script file name: the `_`-separated words of
/// the name with their first letter upper-cased and the `_` dropped
/// (`player_controller` becomes `PlayerController`).
pub open spec fn pascal_case(s: Seq<char>, at_word_start: bool) -> Seq<char>
    decreases s.len(),
{
    if s.len() == 0 {
        Seq::empty()
    } else if s[0] == '_' {
        pascal_case(s.drop_first(), true)
    } else if at_word_start {
        unicode_upper(s[0]) + pascal_case(s.drop_first(), false)
    } else {
        seq![s[0]] + pascal_case(s.drop_first(), false)
    }
}

/// The struct name written into a new script's template.
pub fn script_struct_name(file_name: &str) -> (r: String)
    ensures
        r@ == pascal_case(trim_rs(file_name@), true),
{
    let base = trim_rs_suffix(file_name);
    let cs = chars_of(base.as_str());
    let mut out: Vec<char> = Vec::new();
    let mut start = true;
    let mut i: usize = 0;
    assert(out@ + pascal_case(cs@.subrange(0, cs@.len() as int), start) =~= pascal_case(cs@, true)) by {
        assert(cs@.subrange(0, cs@.len() as int) =~= cs@);
    }
    while i < cs.len()
        invariant
            i <= cs.len(),
            cs@ == trim_rs(file_name@),
            out@ + pascal_case(cs@.subrange(i as int, cs@.len() as int), start) == pascal_case(cs@, true),
        decreases cs.len() - i,
    {
        let ghost rest = cs@.subrange(i as int, cs@.len() as int);
        assert(rest.drop_first() =~= cs@.subrange(i + 1, cs@.len() as int));
        let c = cs[i];
        if c == '_' {
            start = true;
        } else if start {
            let up = upper_chars(c);
            let mut k: usize = 0;
            let ghost before = out@;
            while k < up.len()
                invariant
                    k <= up.len(),
                    out@ == before + up@.subrange(0, k as int),
                decreases up.len() - k,
            {
                out.push(up[k]);
                k = k + 1;
                assert(out@ =~= before + up@.subrange(0, k as int));
            }
            assert(up@.subrange(0, up.len() as int) =~= up@);
            assert(out@ + pascal_case(rest.drop_first(), false) =~= before + pascal_case(rest, true));
            start = false;
        } else {
            let ghost before = out@;
            out.push(c);
            assert(out@ + pascal_case(rest.drop_first(), false) =~= before + pascal_case(rest, false));
        }
        i = i + 1;
    }
    assert(out@ + pascal_case(cs@.subrange(cs@.len() as int, cs@.len() as int), start) =~= out@);
    string_from_chars(&out)
}

/// The file a new script is written to: the name itself when it already ends
/// in `.rs`, otherwise the name with `.rs` appended.
pub open spec fn script_file_name_spec(name: Seq<char>) -> Seq<char> {
    if has_suffix(name, ".rs"@) {
        name
    } else {
        name + ".rs"@
    }
}

pub fn script_file_name(name: &str) -> (r: String)
    ensures
        r@ == script_file_name_spec(name@),
{
    let cs = chars_of(name);
    let rs = chars_of(".rs");
    if ends_with_chars(&cs, &rs) {
        return name.to_string();
    }
    let mut s = name.to_string();
    push_char(&mut s, '.');
    push_char(&mut s, 'r');
    push_char(&mut s, 's');
    proof {
        reveal_strlit(".rs");
    }
    assert(s@ =~= name@ + ".rs"@);
    s
}

} // verus!
