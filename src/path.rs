//! Composition of source-file paths.

use vstd::prelude::*;

verus! {

/// The path that `std::path::PathBuf::push` makes of `base` and `part`.
pub uninterp spec fn path_joined(base: Seq<char>, part: Seq<char>) -> Seq<char>;

/// Relies on `std::path::PathBuf::push`: appends `part` to `base` with the
/// host's separator, or replaces `base` when `part` is absolute.
#[verifier::external_body]
fn join_path(base: &String, part: &String) -> (r: String)
    ensures
        r@ == path_joined(base@, part@),
{
    let mut p = std::path::PathBuf::from(base.as_str());
    p.push(part.as_str());
    p.to_string_lossy().into_owned()
}

/// The path of a file named `name` in `directory`, under `comp_dir`.
pub open spec fn rendered_path(comp_dir: Option<String>, directory: Option<String>, name: String) -> Seq<char> {
    let base = match comp_dir {
        Some(d) => d@,
        None => Seq::<char>::empty(),
    };
    let with_dir = match directory {
        Some(d) => path_joined(base, d@),
        None => base,
    };
    path_joined(with_dir, name@)
}

/// Joins `comp_dir` (or the empty path), the file's directory when it has
/// one, and its name.
pub fn render_file(comp_dir: &Option<String>, directory: &Option<String>, name: &String) -> (r: String)
    ensures
        r@ == rendered_path(*comp_dir, *directory, *name),
{
    let base = match comp_dir {
        Some(d) => d.clone(),
        None => String::new(),
    };
    let with_dir = match directory {
        Some(d) => join_path(&base, d),
        None => base,
    };
    join_path(&with_dir, name)
}

} // verus!
