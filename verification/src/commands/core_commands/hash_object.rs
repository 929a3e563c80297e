//! The arguments of `hash-object`.

use vstd::prelude::*;

verus! {

/// What `hash-object` is asked to hash: the path of a file.
#[derive(Debug)]
pub struct HashObjectArgs {
    pub file_path: String,
}

} // verus!
