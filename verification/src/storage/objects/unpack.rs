//! Reading the objects of a packfile back: each base object parsed by its
//! type, each delta applied to its base object first.

use vstd::prelude::*;
use vstd::utf8::*;
use crate::keyed::KeyedMap;
use crate::storage::objects::blob::Blob;
use crate::storage::objects::commit::{commit_parse, Commit, CommitError, CommitFault, CommitModel};
use crate::storage::objects::delta::{apply_delta, spec_apply_delta, DeltaError};
use crate::storage::objects::pack::{
    objects_model, spec_detect_type, ObjectType, PackObject, PackObjectModel, Packfile,
};
use crate::storage::objects::tag::{tag_parse, Tag, TagError, TagModel};
use crate::bytes::copy_range;
use crate::text::string_from_utf8;

verus! {

/// An object read from a packfile.
#[derive(Debug)]
pub enum ParsedObject {
    Blob(Blob),
    Commit(Commit),
    Tag(Tag),
}

/// The value of an object read from a packfile.
pub enum ParsedModel {
    Blob(Seq<u8>),
    Commit(CommitModel),
    Tag(TagModel),
}

impl View for ParsedObject {
    type V = ParsedModel;

    open spec fn view(&self) -> ParsedModel {
        match self {
            ParsedObject::Blob(b) => ParsedModel::Blob(b.data@),
            ParsedObject::Commit(c) => ParsedModel::Commit(c@),
            ParsedObject::Tag(t) => ParsedModel::Tag(t@),
        }
    }
}

/// Why an object of a packfile could not be read.
#[derive(Debug, PartialEq, Eq)]
pub enum UnpackError {
    /// A commit or tag is not UTF-8.
    NotUtf8,
    /// A commit's text is not a commit.
    Commit(CommitError),
    /// A tag's text is not a tag.
    Tag(TagError),
    /// Tree objects are not read here.
    TreeNotSupported,
    /// The object's type cannot be read.
    UnsupportedObjectType,
    /// A delta's base object is not among those given.
    MissingBase(String),
    /// A delta could not be applied.
    Delta(DeltaError),
}

/// The value of an unpacking error.
pub enum UnpackFault {
    NotUtf8,
    Commit(CommitFault),
    Tag(TagError),
    TreeNotSupported,
    UnsupportedObjectType,
    MissingBase(Seq<char>),
    Delta(DeltaError),
}

impl View for UnpackError {
    type V = UnpackFault;

    open spec fn view(&self) -> UnpackFault {
        match self {
            UnpackError::NotUtf8 => UnpackFault::NotUtf8,
            UnpackError::Commit(e) => UnpackFault::Commit(e@),
            UnpackError::Tag(e) => UnpackFault::Tag(*e),
            UnpackError::TreeNotSupported => UnpackFault::TreeNotSupported,
            UnpackError::UnsupportedObjectType => UnpackFault::UnsupportedObjectType,
            UnpackError::MissingBase(h) => UnpackFault::MissingBase(h@),
            UnpackError::Delta(e) => UnpackFault::Delta(*e),
        }
    }
}

/// Reading an object's data as the type `t`: commits and tags are read from
/// their UTF-8 text, blobs are the data itself.
pub open spec fn parse_object_spec(t: ObjectType, data: Seq<u8>) -> Result<ParsedModel, UnpackFault> {
    match t {
        ObjectType::Commit => if !valid_utf8(data) {
            Err(UnpackFault::NotUtf8)
        } else {
            match commit_parse(decode_utf8(data)) {
                Ok(c) => Ok(ParsedModel::Commit(c)),
                Err(f) => Err(UnpackFault::Commit(f)),
            }
        },
        ObjectType::Tree => Err(UnpackFault::TreeNotSupported),
        ObjectType::Blob => Ok(ParsedModel::Blob(data)),
        ObjectType::Tag => if !valid_utf8(data) {
            Err(UnpackFault::NotUtf8)
        } else {
            match tag_parse(decode_utf8(data)) {
                Ok(t) => Ok(ParsedModel::Tag(t)),
                Err(e) => Err(UnpackFault::Tag(e)),
            }
        },
        ObjectType::DeltaRef => Err(UnpackFault::UnsupportedObjectType),
    }
}

/// Reading one packed object: a base object by its type; a delta applied to
/// its base object, the result read by the type its first bytes name.
pub open spec fn unpack_one(o: PackObjectModel, bases: Map<Seq<char>, Vec<u8>>) -> Result<ParsedModel, UnpackFault> {
    match o {
        PackObjectModel::Base(d, t) => parse_object_spec(t, d),
        PackObjectModel::Delta { base_hash, data } => if !bases.dom().contains(base_hash) {
            Err(UnpackFault::MissingBase(base_hash))
        } else {
            match spec_apply_delta(bases[base_hash]@, data) {
                Err(e) => Err(UnpackFault::Delta(e)),
                Ok(r) => parse_object_spec(spec_detect_type(r), r),
            }
        },
    }
}

/// Reading the first `n` packed objects, in order; the first failure is the
/// outcome.
pub open spec fn unpack_all(objs: Seq<PackObjectModel>, bases: Map<Seq<char>, Vec<u8>>, n: int) -> Result<Seq<ParsedModel>, UnpackFault>
    decreases n,
{
    if n <= 0 {
        Ok(Seq::empty())
    } else {
        match unpack_all(objs, bases, n - 1) {
            Err(e) => Err(e),
            Ok(done) => match unpack_one(objs[n - 1], bases) {
                Err(e) => Err(e),
                Ok(o) => Ok(done.push(o)),
            },
        }
    }
}

/// Once reading fails, it stays failed with the same fault.
proof fn lemma_unpack_error_stays(objs: Seq<PackObjectModel>, bases: Map<Seq<char>, Vec<u8>>, k: int, m: int)
    requires
        0 <= k <= m,
        unpack_all(objs, bases, k) is Err,
    ensures
        unpack_all(objs, bases, m) == unpack_all(objs, bases, k),
    decreases m - k,
{
    if k < m {
        lemma_unpack_error_stays(objs, bases, k, m - 1);
    }
}

/// What reading the packed objects gives: where every one of them reads, one
/// object per packed object, in their order, each read on its own; where some
/// fail, the fault of the first that fails. A blob reads as its bytes, a tree
/// is refused, and a delta whose base object is not given names that base.
pub proof fn lemma_unpack_objects(objs: Seq<PackObjectModel>, bases: Map<Seq<char>, Vec<u8>>, n: int)
    requires
        0 <= n <= objs.len(),
    ensures
        unpack_all(objs, bases, n) matches Ok(rs) ==> rs.len() == n && forall|i: int|
            0 <= i < n ==> unpack_one(#[trigger] objs[i], bases) == Ok::<ParsedModel, UnpackFault>(rs[i]),
        (forall|i: int| 0 <= i < n ==> unpack_one(#[trigger] objs[i], bases) is Ok) ==> unpack_all(
            objs,
            bases,
            n,
        ) is Ok,
        forall|i: int|
            0 <= i < n && (forall|j: int| 0 <= j < i ==> unpack_one(#[trigger] objs[j], bases) is Ok)
                && #[trigger] unpack_one(objs[i], bases) is Err ==> unpack_all(objs, bases, n)
                == Err::<Seq<ParsedModel>, UnpackFault>(unpack_one(objs[i], bases)->Err_0),
        forall|d: Seq<u8>| #[trigger] unpack_one(PackObjectModel::Base(d, ObjectType::Blob), bases)
            == Ok::<ParsedModel, UnpackFault>(ParsedModel::Blob(d)),
        forall|d: Seq<u8>| #[trigger] unpack_one(PackObjectModel::Base(d, ObjectType::Tree), bases)
            == Err::<ParsedModel, UnpackFault>(UnpackFault::TreeNotSupported),
        forall|h: Seq<char>, d: Seq<u8>|
            !bases.dom().contains(h) ==> #[trigger] unpack_one(
                PackObjectModel::Delta { base_hash: h, data: d },
                bases,
            ) == Err::<ParsedModel, UnpackFault>(UnpackFault::MissingBase(h)),
    decreases n,
{
    if n > 0 {
        lemma_unpack_objects(objs, bases, n - 1);
        assert forall|i: int|
            0 <= i < n && (forall|j: int| 0 <= j < i ==> unpack_one(#[trigger] objs[j], bases) is Ok)
                && #[trigger] unpack_one(objs[i], bases) is Err implies unpack_all(objs, bases, n)
            == Err::<Seq<ParsedModel>, UnpackFault>(unpack_one(objs[i], bases)->Err_0) by {
            if i == n - 1 {
                assert(forall|j: int| 0 <= j < n - 1 ==> unpack_one(#[trigger] objs[j], bases) is Ok);
            } else {
                lemma_unpack_error_stays(objs, bases, n - 1, n);
            }
        }
    }
}

/// The values of objects read.
pub open spec fn parsed_views(os: Seq<ParsedObject>) -> Seq<ParsedModel> {
    Seq::new(os.len(), |i: int| os[i]@)
}

impl Packfile {
    /// Reads `data` as an object of type `t`. A commit whose text would make
    /// reading abort (see `Commit::parse`) gives that fault as the error.
    pub fn parse_object(obj_type: ObjectType, data: &[u8]) -> (r: Result<ParsedObject, UnpackError>)
        ensures
            match r {
                Ok(o) => parse_object_spec(obj_type, data@) == Ok::<ParsedModel, UnpackFault>(o@),
                Err(e) => parse_object_spec(obj_type, data@) == Err::<ParsedModel, UnpackFault>(e@),
            },
    {
        match obj_type {
            ObjectType::Commit => {
                assert(data@.subrange(0, data@.len() as int) =~= data@);
                let text = match string_from_utf8(copy_range(data, 0, data.len())) {
                    None => return Err(UnpackError::NotUtf8),
                    Some(t) => t,
                };
                match Commit::parse_checked(text.as_str()) {
                    Ok(c) => Ok(ParsedObject::Commit(c)),
                    Err(e) => Err(UnpackError::Commit(e)),
                }
            },
            ObjectType::Tree => Err(UnpackError::TreeNotSupported),
            ObjectType::Blob => {
                let d = copy_range(data, 0, data.len());
                assert(data@.subrange(0, data@.len() as int) =~= data@);
                Ok(ParsedObject::Blob(Blob { data: d }))
            },
            ObjectType::Tag => {
                assert(data@.subrange(0, data@.len() as int) =~= data@);
                let text = match string_from_utf8(copy_range(data, 0, data.len())) {
                    None => return Err(UnpackError::NotUtf8),
                    Some(t) => t,
                };
                match Tag::parse_checked(text.as_str()) {
                    Ok(t) => Ok(ParsedObject::Tag(t)),
                    Err(e) => Err(UnpackError::Tag(e)),
                }
            },
            ObjectType::DeltaRef => Err(UnpackError::UnsupportedObjectType),
        }
    }

    /// Reads one packed object, applying a delta to its base object first.
    fn unpack_object(obj: &PackObject, base_objects: &KeyedMap<Vec<u8>>) -> (r: Result<
        ParsedObject,
        UnpackError,
    >)
        ensures
            match r {
                Ok(o) => unpack_one(obj@, base_objects.as_map()) == Ok::<ParsedModel, UnpackFault>(o@),
                Err(e) => unpack_one(obj@, base_objects.as_map()) == Err::<ParsedModel, UnpackFault>(e@),
            },
    {
        match obj {
            PackObject::Base(data, obj_type) => Self::parse_object(*obj_type, data.as_slice()),
            PackObject::Delta { base_hash, data } => {
                let base = match base_objects.get(base_hash.as_str()) {
                    None => return Err(UnpackError::MissingBase(base_hash.clone())),
                    Some(b) => b,
                };
                let rebuilt = match apply_delta(base.as_slice(), data.as_slice()) {
                    Err(e) => return Err(UnpackError::Delta(e)),
                    Ok(r) => r,
                };
                let obj_type = match Self::detect_type(rebuilt.as_slice()) {
                    Ok(t) => t,
                    Err(_) => ObjectType::Blob,
                };
                Self::parse_object(obj_type, rebuilt.as_slice())
            },
        }
    }

    /// Reads every packed object, in order: base objects by their type, deltas
    /// applied to their base objects (taken from `base_objects` by hash).
    pub fn apply_deltas(&self, base_objects: &KeyedMap<Vec<u8>>) -> (r: Result<Vec<ParsedObject>, UnpackError>)
        ensures
            match r {
                Ok(os) => unpack_all(objects_model(self.objects@), base_objects.as_map(), self.objects@.len() as int)
                    == Ok::<Seq<ParsedModel>, UnpackFault>(parsed_views(os@)),
                Err(e) => unpack_all(objects_model(self.objects@), base_objects.as_map(), self.objects@.len() as int)
                    == Err::<Seq<ParsedModel>, UnpackFault>(e@),
            },
    {
        let ghost objs = objects_model(self.objects@);
        let mut results: Vec<ParsedObject> = Vec::new();
        let mut i: usize = 0;
        assert(parsed_views(results@) =~= Seq::<ParsedModel>::empty());
        while i < self.objects.len()
            invariant
                i <= self.objects@.len(),
                objs == objects_model(self.objects@),
                unpack_all(objs, base_objects.as_map(), i as int) == Ok::<Seq<ParsedModel>, UnpackFault>(
                    parsed_views(results@),
                ),
            decreases self.objects@.len() - i,
        {
            match Self::unpack_object(&self.objects[i], base_objects) {
                Err(e) => {
                    proof {
                        lemma_unpack_error_stays(
                            objs,
                            base_objects.as_map(),
                            i + 1,
                            self.objects@.len() as int,
                        );
                    }
                    return Err(e);
                },
                Ok(o) => {
                    let ghost before = parsed_views(results@);
                    results.push(o);
                    assert(parsed_views(results@) =~= before.push(o@));
                },
            }
            i = i + 1;
        }
        Ok(results)
    }
}

} // verus!
