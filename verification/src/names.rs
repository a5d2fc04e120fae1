//! What a path is called: its display name and its lowercased extension.
//!
//! How a path splits into components is the standard library's business;
//! this module names what the standard library answers and decides what a
//! node shows from those answers.

use std::path::Path;
use vstd::prelude::*;

use crate::node::text_of;

verus! {

/// The final component of `path` as `std::path::Path::file_name` gives it:
/// `None` where the path has none (it ends in `..`, or is a root). Paths are
/// read in the syntax of the platform the library is built for, so the
/// answer belongs to the build, not to the run.
pub uninterp spec fn path_file_name(path: Seq<char>) -> Option<Seq<char>>;

/// The extension of `path` as `std::path::Path::extension` gives it: the part
/// of the file name after its last dot, `None` where there is no such part.
/// Like the file name, it is read in the syntax of the build's platform.
pub uninterp spec fn path_extension(path: Seq<char>) -> Option<Seq<char>>;

/// The lowercase form of `text` as `str::to_lowercase` gives it.
pub uninterp spec fn lowercase(text: Seq<char>) -> Seq<char>;

/// Calls `std::path::Path::file_name` on `path`. Not proved: that the answer
/// is [`path_file_name`] of the path's characters. The path is valid UTF-8,
/// so turning the component back into a string loses nothing.
#[verifier::external_body]
fn file_name_of(path: &str) -> (name: Option<String>)
    ensures
        text_of(name) == path_file_name(path@),
{
    Path::new(path).file_name().map(|s| s.to_string_lossy().into_owned())
}

/// Calls `std::path::Path::extension` on `path`. Not proved: that the answer
/// is [`path_extension`] of the path's characters.
#[verifier::external_body]
fn extension_of(path: &str) -> (extension: Option<String>)
    ensures
        text_of(extension) == path_extension(path@),
{
    Path::new(path).extension().map(|s| s.to_string_lossy().into_owned())
}

/// `str::to_lowercase`. Not proved: that the answer is [`lowercase`] of the
/// text's characters.
pub assume_specification[ str::to_lowercase ](text: &str) -> (lowered: String)
    ensures
        lowered@ == lowercase(text@),
;

/// The name shown for a path whose final component is `file_name`: that
/// component, or the whole path where there is none.
pub open spec fn shown_name(file_name: Option<Seq<char>>, path: Seq<char>) -> Seq<char> {
    match file_name {
        Some(name) => name,
        None => path,
    }
}

/// The text itself, unless it is empty.
pub open spec fn nonempty(text: Seq<char>) -> Option<Seq<char>> {
    if text.len() == 0 {
        None
    } else {
        Some(text)
    }
}

/// The name that a node for `path` carries.
pub open spec fn display_name_of(path: Seq<char>) -> Seq<char> {
    shown_name(path_file_name(path), path)
}

/// The extension that a node for `path` carries: lowercased, `None` where the
/// path has no extension or an empty one.
pub open spec fn extension_lower_of(path: Seq<char>) -> Option<Seq<char>> {
    match path_extension(path) {
        Some(extension) => nonempty(lowercase(extension)),
        None => None,
    }
}

/// Picks the display name once the final component is known.
pub fn name_or_path(file_name: Option<String>, path: &str) -> (name: String)
    ensures
        name@ == shown_name(text_of(file_name), path@),
{
    match file_name {
        Some(name) => name,
        None => path.to_owned(),
    }
}

/// Keeps a text only if it has at least one character.
pub fn keep_nonempty(text: String) -> (kept: Option<String>)
    ensures
        text_of(kept) == nonempty(text@),
{
    if text.as_str().is_empty() {
        None
    } else {
        Some(text)
    }
}

/// The last component of `path`, or the whole path where it has none.
pub fn display_name(path: &str) -> (name: String)
    ensures
        name@ == display_name_of(path@),
{
    name_or_path(file_name_of(path), path)
}

/// The extension of `path` in lowercase, `None` where it has none.
pub fn file_extension_lower(path: &str) -> (extension: Option<String>)
    ensures
        text_of(extension) == extension_lower_of(path@),
{
    match extension_of(path) {
        Some(found) => keep_nonempty(found.as_str().to_lowercase()),
        None => None,
    }
}

} // verus!
