//! Blobs: the raw content of a file, stored as an object.

use vstd::prelude::*;
use crate::bytes::{copy_range, find_zero, first_zero};
use crate::storage::codec::{zlib_contents, zlib_decompress};
use crate::storage::utils::{Loadable, ObjectError, Storable, VoxObject, OBJ_TYPE_BLOB};

verus! {

/// A blob: the raw content of a file.
#[derive(Debug)]
pub struct Blob {
    pub data: Vec<u8>,
}

/// Why a stored object could not be read back.
#[derive(Debug, PartialEq, Eq, Structural)]
pub enum StoredError {
    /// The data is not a zlib stream.
    Decompress,
    /// The stored form has no zero byte ending its header.
    NoHeaderEnd,
}

/// The content of a stored object: what follows the first zero byte of its
/// decompressed form.
pub open spec fn stored_content(data: Seq<u8>) -> Result<Seq<u8>, StoredError> {
    match zlib_contents(data) {
        None => Err(StoredError::Decompress),
        Some(d) => match first_zero(d, 0) {
            None => Err(StoredError::NoHeaderEnd),
            Some(z) => Ok(d.subrange(z + 1, d.len() as int)),
        },
    }
}

impl Blob {
    /// The blob's content.
    pub fn get_content(&self) -> (c: &Vec<u8>)
        ensures
            c@ == self.data@,
    {
        &self.data
    }
}

impl Loadable for Blob {
    type LoadError = StoredError;

    /// The blob stored as the compressed `data`: the content after the header.
    fn from_stored(data: &[u8]) -> (r: Result<Blob, StoredError>)
        ensures
            match stored_content(data@) {
                Ok(c) => r matches Ok(b) && b.data@ == c,
                Err(e) => r == Err::<Blob, StoredError>(e),
            },
    {
        let unpacked = zlib_decompress(data);
        if unpacked.is_none() {
            return Err(StoredError::Decompress);
        }
        let d = unpacked.unwrap();
        let found = find_zero(d.as_slice(), 0);
        if found.is_none() {
            return Err(StoredError::NoHeaderEnd);
        }
        let z = found.unwrap();
        let n = d.len();
        assert(zlib_contents(data@) == Some(d@));
        assert(first_zero(d@, 0) == Some(z as int));
        let b = Blob { data: copy_range(d.as_slice(), z + 1, n) };
        assert(b.data@ == d@.subrange(z + 1, d@.len() as int));
        Ok(b)
    }
}

impl VoxObject for Blob {
    open spec fn kind(&self) -> Seq<char> {
        OBJ_TYPE_BLOB@
    }

    open spec fn encoding(&self) -> Option<Seq<u8>> {
        Some(self.data@)
    }

    /// "blob"
    fn object_type(&self) -> (t: &str) {
        OBJ_TYPE_BLOB
    }

    /// The raw content.
    fn serialize(&self) -> (r: Result<Vec<u8>, ObjectError>) {
        let c = self.get_content();
        let v = copy_range(c.as_slice(), 0, c.len());
        assert(c@.subrange(0, c@.len() as int) =~= c@);
        Ok(v)
    }
}

impl Storable for Blob {

}


/// Reading back what saving a blob writes gives the blob's content: the
/// stored data decompresses to the stored form, whose content is the blob's.
pub proof fn lemma_blob_roundtrip(b: Blob, stored: Seq<u8>)
    requires
        zlib_contents(stored) == Some(crate::storage::utils::framed(b.kind(), b.encoding().unwrap())),
    ensures
        stored_content(stored) == Ok::<Seq<u8>, StoredError>(b.data@),
{
    reveal_strlit("blob");
    crate::storage::utils::lemma_framed_content(b.kind(), b.data@);
}

} // verus!
