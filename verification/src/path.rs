//! Paths, carried through as the operating system gave them.

use vstd::prelude::*;

verus! {

/// An owned path, `std::path::PathBuf`. The tree keeps paths as they came;
/// what is in one is known only to the standard library.
#[verifier::external_type_specification]
#[verifier::external_body]
pub struct ExPathBuf(std::path::PathBuf);

/// The raw bytes of the final component of `path`, if it has one.
pub uninterp spec fn final_component(path: std::path::PathBuf) -> Option<Seq<u8>>;

/// Asks `std::path::Path::file_name` for the final component of `path` and
/// copies its bytes.
///
/// Trusted: the answer is a function of the path alone, named
/// [`final_component`]. Which paths have a final component, and what it is,
/// is left to the standard library.
#[verifier::external_body]
pub(crate) fn final_component_of(path: &std::path::PathBuf) -> (name: Option<Vec<u8>>)
    ensures
        match name {
            Some(bytes) => final_component(*path) == Some(bytes@),
            None => final_component(*path) is None,
        },
{
    match path.file_name() {
        Some(name) => Some(name.as_encoded_bytes().to_vec()),
        None => None,
    }
}

} // verus!
