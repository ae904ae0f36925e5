//! The main checkout, whose cache the index of a linked worktree starts from.

use crate::paths;
use crate::text;
use vstd::prelude::*;
use vstd::utf8;

verus! {

/// The checkout whose version control is in a directory: where that directory is, if version
/// control gives it its own name.
pub open spec fn checkout_of(common: Seq<u8>) -> Option<Seq<u8>> {
    if paths::final_piece(common) == utf8::encode_utf8(".git"@) {
        paths::directory_of(common)
    } else {
        None
    }
}

/// The main checkout of a linked worktree: where `root/.git` is a file, and the directory that
/// the worktrees share is that of another checkout. `common` is that directory, where version
/// control knows one; `is_directory` tells whether the checkout is one. `root` is without
/// detours.
pub fn linked_worktree_main_checkout(
    git_is_file: bool,
    common: Option<&[u8]>,
    is_directory: bool,
    root: &[u8],
) -> (checkout: Option<Vec<u8>>)
    ensures
        match checkout {
            Some(checkout) => {
                &&& git_is_file
                &&& common is Some
                &&& checkout_of(common->0@) == Some(checkout@)
                &&& is_directory
                &&& !paths::same_components(root@, checkout@)
            },
            None => !git_is_file || common is None || !is_directory || match checkout_of(
                common->0@,
            ) {
                None => true,
                Some(checkout) => paths::same_components(root@, checkout),
            },
        },
{
    if !git_is_file || !is_directory {
        return None;
    }
    let common = match common {
        Some(common) => common,
        None => {
            return None;
        },
    };
    let name = paths::last_piece(common);
    if !text::same_bytes(name.as_slice(), ".git".as_bytes()) {
        return None;
    }
    match paths::parent(common) {
        None => None,
        Some(checkout) => {
            if paths::same_path(root, checkout.as_slice()) {
                None
            } else {
                Some(checkout)
            }
        },
    }
}

} // verus!
