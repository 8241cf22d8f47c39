//! Resolution of the files that inclusion directives name, through `std::path`.

use vstd::prelude::*;

verus! {

/// What `Path::join` gives for `base` and `rel`.
pub uninterp spec fn joined_path(base: Seq<char>, rel: Seq<char>) -> Seq<char>;

/// Whether `Path::extension` finds an extension in `p`.
pub uninterp spec fn path_has_extension(p: Seq<char>) -> bool;

/// What `PathBuf::set_extension` makes of `p` with extension `ext`.
pub uninterp spec fn path_with_extension(p: Seq<char>, ext: Seq<char>) -> Seq<char>;

/// Relies on `Path::join`: `rel` taken relative to `base`; the result depends on the two
/// paths alone.
#[verifier::external_body]
fn join_path(base: &str, rel: &str) -> (r: String)
    ensures
        r@ == joined_path(base@, rel@),
{
    std::path::Path::new(base).join(rel).to_string_lossy().into_owned()
}

/// Relies on `Path::extension`: whether the file name of `p` has an extension.
#[verifier::external_body]
fn has_extension(p: &str) -> (r: bool)
    ensures
        r == path_has_extension(p@),
{
    std::path::Path::new(p).extension().is_some()
}

/// Relies on `PathBuf::set_extension`: `p` with its extension set to `ext`. It panics on an
/// extension that holds a path separator, so `ext` holds none.
#[verifier::external_body]
fn with_extension(p: &str, ext: &str) -> (r: String)
    requires
        forall|i: int| 0 <= i < ext@.len() ==> ext@[i] != '/' && ext@[i] != '\\',
    ensures
        r@ == path_with_extension(p@, ext@),
{
    let mut b = std::path::PathBuf::from(p);
    b.set_extension(ext);
    b.to_string_lossy().into_owned()
}

/// The suffix given to an included document whose path has none.
pub open spec fn tex_suffix() -> Seq<char> {
    seq!['t', 'e', 'x']
}

/// The file that an inclusion of `rel` names, from a document in directory `base`: `rel`
/// taken relative to `base`, with the suffix `tex` added when it has none.
pub open spec fn resolve_path(base: Seq<char>, rel: Seq<char>) -> Seq<char> {
    let j = joined_path(base, rel);
    if path_has_extension(j) {
        j
    } else {
        path_with_extension(j, tex_suffix())
    }
}

/// The file that an inclusion of `rel` names, from a document in directory `base`.
pub fn resolve_input(base: &str, rel: &str) -> (r: String)
    ensures
        r@ == resolve_path(base@, rel@),
{
    let joined = join_path(base, rel);
    if has_extension(joined.as_str()) {
        joined
    } else {
        proof {
            reveal_strlit("tex");
            assert("tex"@ == tex_suffix());
        }
        with_extension(joined.as_str(), "tex")
    }
}

} // verus!
