//! The `cat-file` command's own steps: checking the hash it is given, where
//! the object lies, reading the header of the object's data, and what to show.

use vstd::prelude::*;
use vstd::utf8::*;
use crate::bytes::{copy_range, find_zero, first_zero};
use crate::lines::{find_char, find_char_exec, sub_chars};
use crate::storage::codec::{bytes_option, zlib_contents, zlib_decompress};
use crate::storage::utils::{framed, hash_splits, lemma_framed_content, stored_file, OBJ_DIR};
use crate::decimal::{all_digits, decimal, is_digit, lemma_digits_value};
use crate::text::{
    lossy_text, push_str, split_at_byte, str_chars, str_eq, string_from_chars,
    string_from_utf8_lossy,
};

verus! {

/// Why `cat-file` failed.
#[derive(Debug, PartialEq, Eq, Structural)]
pub enum CatFileError {
    /// The hash given is empty.
    EmptyHash,
    /// The object's file is not a zlib stream.
    Decompress,
    /// The object's data has no zero byte ending its header.
    NoHeaderEnd,
    /// The header's first word is not `type data`.
    InvalidObjectFormat,
}

/// Where `cat-file` reads the object with hash `hash`: the objects directory,
/// the first two bytes of the hash, and the rest, joined by slashes.
pub open spec fn cat_file_path(hash: Seq<char>) -> Seq<char> {
    OBJ_DIR@ + "/"@ + decode_utf8(encode_utf8(hash).subrange(0, 2)) + "/"@ + decode_utf8(
        encode_utf8(hash).subrange(2, encode_utf8(hash).len() as int),
    )
}

/// `cat-file` reads an object from the very file that storing it writes: for
/// every hash of ASCII characters other than `/` (as object hashes, forty
/// hexadecimal digits, are) with at least three of them.
pub proof fn lemma_cat_file_reads_stored(hash: Seq<char>)
    requires
        is_ascii_chars(hash),
        hash.len() >= 3,
        forall|i: int| 0 <= i < hash.len() ==> hash[i] != '/',
    ensures
        cat_file_path(hash) == stored_file(OBJ_DIR@, hash),
{
    broadcast use vstd::utf8::is_ascii_chars_encode_utf8, vstd::utf8::encode_utf8_decode_utf8;

    reveal_strlit(".vox/objects");
    reveal_strlit("/");
    let h1 = hash.subrange(0, 2);
    let h2 = hash.subrange(2, hash.len() as int);
    let e = encode_utf8(hash);
    assert(is_ascii_chars(h1));
    assert(is_ascii_chars(h2));
    assert(e.subrange(0, 2) =~= encode_utf8(h1)) by {
        assert forall|i: int| 0 <= i < 2 implies e.subrange(0, 2)[i] == encode_utf8(h1)[i] by {
            assert(hash[i] as u8 == e[i]);
            assert(h1[i] as u8 == encode_utf8(h1)[i]);
        }
    }
    assert(e.subrange(2, e.len() as int) =~= encode_utf8(h2)) by {
        assert forall|i: int| 0 <= i < h2.len() implies e.subrange(2, e.len() as int)[i] == encode_utf8(
            h2,
        )[i] by {
            assert(hash[i + 2] as u8 == e[i + 2]);
            assert(h2[i] as u8 == encode_utf8(h2)[i]);
        }
    }
    assert(decode_utf8(e.subrange(0, 2)) == h1);
    assert(decode_utf8(e.subrange(2, e.len() as int)) == h2);
    assert(h1[0] == hash[0] && h1[1] == hash[1] && h2[0] == hash[2]);
    let dir = OBJ_DIR@ + seq!['/'] + h1;
    assert(dir.last() == h1[1]);
    assert(cat_file_path(hash) =~= dir + seq!['/'] + h2);
}

/// The file `cat-file` reads for `object_hash`; an empty hash is refused.
pub fn cat_file_object_path(object_hash: &str) -> (r: Result<String, CatFileError>)
    requires
        object_hash@.len() == 0 || hash_splits(object_hash@),
    ensures
        object_hash@.len() == 0 ==> r == Err::<String, CatFileError>(CatFileError::EmptyHash),
        object_hash@.len() > 0 ==> (r matches Ok(p) && p@ == cat_file_path(object_hash@)),
{
    let cs = str_chars(object_hash);
    if cs.len() == 0 {
        return Err(CatFileError::EmptyHash);
    }
    let (head, rest) = split_at_byte(object_hash, 2);
    let mut p = String::new();
    push_str(&mut p, OBJ_DIR);
    push_str(&mut p, "/");
    push_str(&mut p, head.as_str());
    push_str(&mut p, "/");
    push_str(&mut p, rest.as_str());
    Ok(p)
}

/// The name `cat-file` shows for an object type: one of `blob`, `commit`,
/// `tree`, `tag` and `change`, or `unknown type` for any other word.
pub open spec fn shown_type(word: Seq<char>) -> Seq<char> {
    if word == "blob"@ || word == "commit"@ || word == "tree"@ || word == "tag"@ || word
        == "change"@ {
        word
    } else {
        "unknown type"@
    }
}

/// Reading the header of an object's data: the bytes up to the first zero
/// byte, read lossily as text, must be a type name, a space and a decimal size
/// (one or more ASCII digits). The result is the name shown for the type and
/// where the content starts, after the zero byte.
pub open spec fn object_header_outcome(data: Seq<u8>) -> Result<(Seq<char>, int), CatFileError> {
    match first_zero(data, 0) {
        None => Err(CatFileError::NoHeaderEnd),
        Some(z) => {
            let h = lossy_text(data.subrange(0, z));
            match find_char(h, ' ', 0) {
                None => Err(CatFileError::InvalidObjectFormat),
                Some(j) => {
                    let size = h.subrange(j + 1, h.len() as int);
                    if size.len() == 0 || !all_digits(size) {
                        Err(CatFileError::InvalidObjectFormat)
                    } else {
                        Ok((shown_type(h.subrange(0, j)), z + 1))
                    }
                },
            }
        },
    }
}

/// Reading the header of an object's stored form (its type name, a space, the
/// decimal length of its content, a zero byte, then the content) gives the
/// name shown for that type, and the content starts right after the zero byte,
/// for every type name without a space or a NUL and every content.
pub proof fn lemma_header_of_stored(kind: Seq<char>, content: Seq<u8>)
    requires
        forall|i: int| 0 <= i < kind.len() ==> kind[i] != '\0' && kind[i] != ' ',
    ensures
        object_header_outcome(framed(kind, content)) == Ok::<(Seq<char>, int), CatFileError>(
            (
                shown_type(kind),
                encode_utf8(kind + seq![' '] + decimal(content.len() as int)).len() + 1int,
            ),
        ),
{
    broadcast use vstd::utf8::encode_utf8_decode_utf8, vstd::utf8::encode_utf8_valid_utf8;

    let ds = decimal(content.len() as int);
    let hs = kind + seq![' '] + ds;
    let h = encode_utf8(hs);
    let f = framed(kind, content);
    assert forall|i: int| 0 <= i < kind.len() implies kind[i] != '\0' by {}
    lemma_framed_content(kind, content);
    assert(f.subrange(0, h.len() as int) =~= h);
    assert(lossy_text(f.subrange(0, h.len() as int)) == hs);
    lemma_digits_value(content.len() as nat);
    assert(hs[kind.len() as int] == ' ');
    assert forall|t: int| 0 <= t < kind.len() implies hs[t] != ' ' by {
        assert(hs[t] == kind[t]);
    }
    crate::lines::lemma_find_char_at(hs, ' ', 0, kind.len() as int);
    assert(hs.subrange(kind.len() + 1int, hs.len() as int) =~= ds);
    assert(hs.subrange(0, kind.len() as int) =~= kind);
}

/// The name shown for the type `word`.
fn shown_type_of(word: &Vec<char>) -> (s: String)
    ensures
        s@ == shown_type(word@),
{
    proof {
        reveal_strlit("unknown type");
    }
    let w = string_from_chars(word.as_slice());
    if str_eq(w.as_str(), "blob") || str_eq(w.as_str(), "commit") || str_eq(w.as_str(), "tree")
        || str_eq(w.as_str(), "tag") || str_eq(w.as_str(), "change") {
        w
    } else {
        "unknown type".to_string()
    }
}

/// Reads the header of an object's data: the name shown for its type, and
/// where its content starts.
pub fn parse_object_header(data: &[u8]) -> (r: Result<(String, usize), CatFileError>)
    ensures
        match object_header_outcome(data@) {
            Ok((t, start)) => r matches Ok((s, k)) && s@ == t && k == start,
            Err(e) => r == Err::<(String, usize), CatFileError>(e),
        },
{
    let found = find_zero(data, 0);
    if found.is_none() {
        return Err(CatFileError::NoHeaderEnd);
    }
    let z = found.unwrap();
    assert(z < data.len());
    let start: usize = z + 1;
    let head = copy_range(data, 0, z);
    let header = string_from_utf8_lossy(head.as_slice());
    let hc = str_chars(header.as_str());
    assert(hc@ == lossy_text(data@.subrange(0, z as int)));
    proof {
        crate::lines::lemma_find_char(hc@, ' ', 0);
    }
    let j = match find_char_exec(&hc, ' ', 0) {
        Some(j) => j,
        None => return Err(CatFileError::InvalidObjectFormat),
    };
    let n = hc.len();
    if j + 1 == n {
        return Err(CatFileError::InvalidObjectFormat);
    }
    let mut i: usize = j + 1;
    while i < n
        invariant
            j < i <= n,
            n == hc@.len(),
            forall|t: int| j < t < i ==> is_digit(#[trigger] hc@[t]),
            z < data@.len(),
            start == z + 1,
            first_zero(data@, 0) == Some(z as int),
            hc@ == lossy_text(data@.subrange(0, z as int)),
            find_char(hc@, ' ', 0) == Some(j as int),
        decreases n - i,
    {
        let c = hc[i];
        if !('0' <= c && c <= '9') {
            proof {
                assert(!is_digit(c));
                assert(hc@.subrange(j + 1, n as int)[i - j - 1] == c);
            }
            return Err(CatFileError::InvalidObjectFormat);
        }
        i = i + 1;
    }
    assert(all_digits(hc@.subrange(j + 1, n as int))) by {
        assert forall|t: int| 0 <= t < n - j - 1 implies is_digit(#[trigger] hc@.subrange(j + 1, n as int)[t]) by {
            assert(hc@.subrange(j + 1, n as int)[t] == hc@[j + 1 + t]);
        }
    }
    let word = sub_chars(&hc, 0, j);
    Ok((shown_type_of(&word), start))
}

/// What `cat-file` shows of an object.
#[derive(Debug, PartialEq, Eq, Structural)]
pub enum CatFileShow {
    /// Its type (`-t` alone).
    Type,
    /// The size of its content (`-s` alone).
    Size,
    /// Its content as text (`-p` alone).
    Content,
    /// Its type and its size (any other choice).
    TypeAndSize,
}

/// What `cat-file` shows for the flags `-t`, `-s` and `-p`.
pub fn cat_file_show(show_type: bool, show_size: bool, pretty_print: bool) -> (r: CatFileShow)
    ensures
        r == (if show_type && !show_size && !pretty_print {
            CatFileShow::Type
        } else if !show_type && show_size && !pretty_print {
            CatFileShow::Size
        } else if !show_type && !show_size && pretty_print {
            CatFileShow::Content
        } else {
            CatFileShow::TypeAndSize
        }),
{
    if show_type && !show_size && !pretty_print {
        CatFileShow::Type
    } else if !show_type && show_size && !pretty_print {
        CatFileShow::Size
    } else if !show_type && !show_size && pretty_print {
        CatFileShow::Content
    } else {
        CatFileShow::TypeAndSize
    }
}

/// An object's content as text, read lossily as UTF-8.
pub fn content_text(content: &[u8]) -> (s: String)
    ensures
        s@ == lossy_text(content@),
{
    string_from_utf8_lossy(content)
}

/// The data of an object, from the compressed bytes of its file.
pub fn read_vox_object(compressed: &[u8]) -> (r: Result<Vec<u8>, CatFileError>)
    ensures
        match zlib_contents(compressed@) {
            Some(d) => r matches Ok(v) && v@ == d,
            None => r == Err::<Vec<u8>, CatFileError>(CatFileError::Decompress),
        },
{
    match zlib_decompress(compressed) {
        Some(d) => Ok(d),
        None => Err(CatFileError::Decompress),
    }
}

} // verus!
