//! The `rm` command's decision for one path: whether the index tracks it, and
//! whether the file itself goes too.

use vstd::prelude::*;
use crate::commands::core_commands::index::idx_main::{EntryModel, Index};
use crate::paths::{is_rooted, lookup_key, path_after, path_key, starts_at_cur_dir, strip_path_prefix};
use crate::text::str_chars;

verus! {

/// What removing one path came to.
#[derive(Debug, PartialEq, Eq)]
pub enum RmOutcome {
    /// The index does not track the path.
    NotInIndex(String),
    /// The file is not in the working tree (and neither `--cached` nor
    /// `--forced` was given).
    NotInWorkdir(String),
    /// The path left the index; the file is to be deleted where the flag is set.
    Removed(String, bool),
}

/// The path `rm` works with: a leading `./` taken off.
pub open spec fn rm_path(path: Seq<char>) -> Seq<char> {
    if !is_rooted(path) && starts_at_cur_dir(path) {
        path_after(path, "./"@).unwrap()
    } else {
        path
    }
}

/// The path `rm` works with for `path`: a leading `./` taken off.
pub fn rm_relative_path(path: &str) -> (r: String)
    ensures
        r@ == rm_path(path@),
{
    proof {
        reveal_strlit("./");
    }
    let cs = str_chars(path);
    let cur = (cs.len() == 1 && cs[0] == '.') || (cs.len() >= 2 && cs[0] == '.' && cs[1] == '/');
    if cur {
        assert(cs@.len() == 1 ==> cs@ =~= seq!['.']);
        proof {
            let d = "./"@;
            assert(d =~= seq!['.', '/']);
            assert(!is_rooted(d) && starts_at_cur_dir(d));
            assert(d.drop_last() =~= seq!['.']);
            assert(seq!['.'].drop_last() =~= Seq::<char>::empty());
            reveal_with_fuel(crate::paths::segments, 3);
            assert(crate::paths::segments(seq!['.']) =~= seq![seq!['.']]);
            assert(crate::paths::segments(d) =~= seq![seq!['.'], Seq::<char>::empty()]);
            reveal_with_fuel(crate::paths::kept_parts, 3);
            let sg = crate::paths::segments(d);
            assert(sg.drop_last() =~= seq![seq!['.']]);
            assert(sg.drop_last().drop_last() =~= Seq::<Seq<char>>::empty());
            assert(crate::paths::parts(d) =~= Seq::<Seq<char>>::empty());
            assert(crate::paths::components(d) =~= seq![seq!['.']]);
            let pc = crate::paths::components(path@);
            assert(pc.subrange(0, 1) =~= seq![seq!['.']]);
            assert(crate::paths::path_starts_with(path@, d));
        }
        match strip_path_prefix(path, "./") {
            Some(s) => s,
            None => path.to_string(),
        }
    } else {
        path.to_string()
    }
}

/// Removes `path` (already taken through `rm_relative_path`) from the index.
/// `exists` is whether the file is in the working tree. Where the index does
/// not track it, or the file is missing and neither `cached` nor `forced` is
/// set, nothing changes; otherwise the entry goes, and the file too where
/// `forced` is set and it exists.
pub fn remove_single_file(index: &mut Index, path: &str, cached: bool, forced: bool, exists: bool) -> (r:
    RmOutcome)
    ensures
        !old(index).entry_map().dom().contains(lookup_key(path@)) ==> (r matches RmOutcome::NotInIndex(
            p,
        ) && p@ == path@) && final(index).entry_map() == old(index).entry_map(),
        old(index).entry_map().dom().contains(lookup_key(path@)) && !cached && !forced && !exists
            ==> (r matches RmOutcome::NotInWorkdir(p) && p@ == path@) && final(index).entry_map()
            == old(index).entry_map(),
        old(index).entry_map().dom().contains(lookup_key(path@)) && (cached || forced || exists)
            ==> (r matches RmOutcome::Removed(p, delete) && p@ == path@ && delete == (forced
            && exists)) && final(index).entry_map() == old(index).entry_map().remove(
            path_key(path@),
        ),
{
    if index.get_entry(path).is_none() {
        return RmOutcome::NotInIndex(path.to_string());
    }
    if !cached && !forced && !exists {
        return RmOutcome::NotInWorkdir(path.to_string());
    }
    let _ = index.remove_entry(path);
    RmOutcome::Removed(path.to_string(), forced && exists)
}

} // verus!
