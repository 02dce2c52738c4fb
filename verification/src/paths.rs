use vstd::prelude::*;

use crate::names::{has_prefix, has_suffix};

verus! {

/// The directory assets resolve against, and whether start-up chose it as a
/// `.app` bundle's `Resources` directory (rather than the working directory).
pub struct BaseDir {
    pub path: String,
    pub bundled: bool,
}

/// `base` joined with `relative` comes out, on every platform, as `base`
/// followed by `relative`: `relative` has no root (it does not start with `/`
/// or `\`) and no prefix (no `:`), and `base` does not start with `\`.
pub open spec fn joins_plainly(base: Seq<char>, relative: Seq<char>) -> bool {
    &&& !(relative.len() > 0 && (relative[0] == '/' || relative[0] == '\\'))
    &&& forall|i: int| 0 <= i < relative.len() ==> relative[i] != ':'
    &&& !(base.len() > 0 && base[0] == '\\')
}

/// `base`, then `relative`, with nothing, a `/` or a `\` between them.
pub open spec fn joined(r: Seq<char>, base: Seq<char>, relative: Seq<char>) -> bool {
    ||| r == base + relative
    ||| r == base + seq!['/'] + relative
    ||| r == base + seq!['\\'] + relative
}

/// `Path::new(base).join(relative)`, as text. `PathBuf::push` appends a
/// relative path without root or prefix to the base, adding the platform's
/// separator (`/`, or `\` on Windows) unless the base is empty, already ends
/// with a separator, or is a bare drive. Which of these applies is the
/// platform's and is not stated.
#[verifier::external_body]
fn path_join(base: &str, relative: &str) -> (r: String)
    ensures
        joins_plainly(base@, relative@) ==> joined(r@, base@, relative@),
{
    std::path::Path::new(base).join(relative).to_string_lossy().into_owned()
}

/// Resolves an asset path against the base directory chosen at start-up
/// (the bundle's `Resources` directory, or the working directory); without a
/// base the relative path is used as it is.
pub fn resolve(base: Option<&BaseDir>, relative: &str) -> (r: String)
    ensures
        base is None ==> r@ == relative@,
        base is Some && joins_plainly(base->0.path@, relative@) ==> joined(r@, base->0.path@, relative@),
{
    match base {
        Some(b) => path_join(b.path.as_str(), relative),
        None => relative.to_string(),
    }
}

/// The base directory, `.` when none was chosen.
pub fn base_dir(base: Option<&BaseDir>) -> (r: String)
    ensures
        base is Some ==> r@ == base->0.path@,
        base is None ==> r@ == "."@,
{
    match base {
        Some(b) => b.path.clone(),
        None => ".".to_string(),
    }
}

/// Whether the program runs inside a `.app` bundle: start-up chose the
/// bundle's `Resources` directory as the base.
pub fn is_bundled(base: Option<&BaseDir>) -> (b: bool)
    ensures
        b == (base is Some && base->0.bundled),
{
    match base {
        Some(d) => d.bundled,
        None => false,
    }
}

/// A joined path starts with the base and ends with the relative path.
pub proof fn law_joined_ends(r: Seq<char>, base: Seq<char>, relative: Seq<char>)
    requires
        joined(r, base, relative),
    ensures
        has_prefix(r, base),
        has_suffix(r, relative),
        r.len() <= base.len() + relative.len() + 1,
{
    assert(r.subrange(0, base.len() as int) =~= base);
    assert(r.subrange(r.len() - relative.len(), r.len() as int) =~= relative);
}

} // verus!
