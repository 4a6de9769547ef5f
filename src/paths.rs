//! Where the re-sorted copy of a report is written.
use std::path::Path;
use vstd::prelude::*;
use vstd::string::StringExecFns;

verus! {

/// The file name of a path without its extension, if it has a file name.
pub uninterp spec fn file_stem_of(p: Seq<char>) -> Option<Seq<char>>;

/// The extension of a path's file name, if it has one.
pub uninterp spec fn extension_of(p: Seq<char>) -> Option<Seq<char>>;

/// A path without its last component, if it has one.
pub uninterp spec fn parent_of(p: Seq<char>) -> Option<Seq<char>>;

/// `name` appended to the path `base`.
pub uninterp spec fn joined(base: Seq<char>, name: Seq<char>) -> Seq<char>;

/// Whether the path lies at or below `base`, compared component by component.
pub uninterp spec fn within(p: Seq<char>, base: Seq<char>) -> bool;

/// Relies on `Path::starts_with`: whether `base` is a prefix of `p` in whole
/// components.
#[verifier::external_body]
pub(crate) fn path_within(p: &str, base: &str) -> (r: bool)
    ensures
        r == within(p@, base@),
{
    Path::new(p).starts_with(base)
}

/// Relies on `Path::file_stem`; the stem of a `&str` path is valid UTF-8.
#[verifier::external_body]
fn path_file_stem(p: &str) -> (r: Option<String>)
    ensures
        r.is_none() == file_stem_of(p@).is_none(),
        r matches Some(s) ==> file_stem_of(p@) == Some(s@),
{
    Path::new(p).file_stem().and_then(|s| s.to_str()).map(|s| s.to_string())
}

/// Relies on `Path::extension`; the extension of a `&str` path is valid UTF-8.
#[verifier::external_body]
fn path_extension(p: &str) -> (r: Option<String>)
    ensures
        r.is_none() == extension_of(p@).is_none(),
        r matches Some(s) ==> extension_of(p@) == Some(s@),
{
    Path::new(p).extension().and_then(|s| s.to_str()).map(|s| s.to_string())
}

/// Relies on `Path::parent`, read back with `to_string_lossy`, which changes
/// nothing in a path that came from a `&str`.
#[verifier::external_body]
pub(crate) fn path_parent(p: &str) -> (r: Option<String>)
    ensures
        r.is_none() == parent_of(p@).is_none(),
        r matches Some(s) ==> parent_of(p@) == Some(s@),
{
    Path::new(p).parent().map(|s| s.to_string_lossy().into_owned())
}

/// Relies on `Path::join`, read back with `to_string_lossy`, which changes
/// nothing in a path made of two `&str`.
#[verifier::external_body]
fn path_join(base: &str, name: &str) -> (r: String)
    ensures
        r@ == joined(base@, name@),
{
    Path::new(base).join(name).to_string_lossy().into_owned()
}

/// The file name of the sorted copy: `<stem>_sorted.<ext>`, with `output`
/// for a missing stem and `json` for a missing extension.
pub open spec fn sorted_name(input: Seq<char>) -> Seq<char> {
    let stem = match file_stem_of(input) {
        Some(s) => s,
        None => "output"@,
    };
    let ext = match extension_of(input) {
        Some(e) => e,
        None => "json"@,
    };
    stem + "_sorted."@ + ext
}

/// The path of the sorted copy: its file name in the input's directory.
pub open spec fn sorted_path(input: Seq<char>) -> Seq<char> {
    let dir = match parent_of(input) {
        Some(d) => d,
        None => ""@,
    };
    joined(dir, sorted_name(input))
}

/// The path of the sorted copy of the report at `input`.
pub fn make_output_path(input: &str) -> (r: String)
    ensures
        r@ == sorted_path(input@),
{
    let stem = match path_file_stem(input) {
        Some(s) => s,
        None => "output".to_owned(),
    };
    let ext = match path_extension(input) {
        Some(e) => e,
        None => "json".to_owned(),
    };
    let dir = match path_parent(input) {
        Some(d) => d,
        None => "".to_owned(),
    };
    let name = stem.concat("_sorted.").concat(ext.as_str());
    path_join(dir.as_str(), name.as_str())
}

} // verus!
