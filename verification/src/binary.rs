//! The contract of a field of a record.
//!
//! A field has a fixed-width image. A field may own side files: then its
//! image holds only what names them, encoding it writes them, decoding it
//! reads them and deleting it removes them. What each of the three does is
//! stated over the model of the field, the mathematical value that it stands
//! for, and over the directory of side files; the laws say how far one field
//! can disturb another.
use crate::error::DbError;
use crate::plain::{copy_lawful, image_lawful, plain_lawful, Plain};
use crate::side_files::{SideFiles, SideState};
use vstd::prelude::*;

verus! {

/// What encoding a value gives.
pub struct Encoded<M> {
    /// The image, or why there is none.
    pub result: Result<Seq<u8>, DbError>,
    /// The value afterwards: a dynamic field that had no side file has
    /// adopted the identifier of its new one.
    pub value: M,
    /// The directory of side files afterwards.
    pub store: SideState,
}

/// What deleting a value gives.
pub struct Erased {
    /// Why not every side file of the value was removed, if so.
    pub failure: Option<DbError>,
    /// The side files afterwards.
    pub files: Map<u64, Seq<u8>>,
}

/// The error of an operation that returns nothing, if it failed.
pub open spec fn error_of(r: Result<(), DbError>) -> Option<DbError> {
    match r {
        Ok(_) => None,
        Err(e) => Some(e),
    }
}

/// The image that an encoder returned, as a sequence.
pub open spec fn image_of(r: Result<Vec<u8>, DbError>) -> Result<Seq<u8>, DbError> {
    match r {
        Ok(bytes) => Ok(bytes@),
        Err(e) => Err(e),
    }
}

/// A field of a record.
///
/// The functions of the model say what the type promises; a type that
/// leaves them as they are promises nothing. What a lawful type promises is
/// [`binary_lawful`].
pub trait Binary: Sized + Clone {
    /// The mathematical value that a field stands for.
    type Model;

    /// The value that this field stands for.
    open spec fn model(&self) -> Self::Model {
        arbitrary()
    }

    /// The number of bytes of every image.
    open spec fn width() -> nat {
        arbitrary()
    }

    /// The identifiers of the side files that a value owns.
    open spec fn side_ids(m: Self::Model) -> Set<u64> {
        arbitrary()
    }

    /// Whether a value can be told from what is stored for it.
    open spec fn storable(m: Self::Model) -> bool {
        arbitrary()
    }

    /// The value that an image stands for, given the side files.
    open spec fn decode(data: Seq<u8>, files: Map<u64, Seq<u8>>) -> Result<Self::Model, DbError> {
        arbitrary()
    }

    /// The image of a value, and what writing it does to the value and to
    /// the side files.
    open spec fn encode(m: Self::Model, store: SideState) -> Encoded<Self::Model> {
        arbitrary()
    }

    /// What deleting a value does to the side files.
    open spec fn erase(m: Self::Model, files: Map<u64, Seq<u8>>) -> Erased {
        arbitrary()
    }

    /// The number of bytes of every image.
    fn bin_size() -> (n: usize)
        requires
            Self::width() <= usize::MAX,
        ensures
            n == Self::width(),
    ;

    /// Reads a value from the first bytes of `data`.
    fn from_bin(data: &[u8], dyns: &SideFiles) -> (r: Result<Self, DbError>)
        requires
            dyns.wf(),
            data@.len() >= Self::width(),
        ensures
            match r {
                Ok(v) => Self::decode(data@.subrange(0, Self::width() as int), dyns@.files) == Ok::<
                    Self::Model,
                    DbError,
                >(v.model()),
                Err(e) => Self::decode(data@.subrange(0, Self::width() as int), dyns@.files)
                    == Err::<Self::Model, DbError>(e),
            },
    ;

    /// Writes the side files of the value and returns its image.
    fn as_bin(&mut self, dyns: &mut SideFiles) -> (r: Result<Vec<u8>, DbError>)
        requires
            old(dyns).wf(),
        ensures
            final(dyns).wf(),
            final(dyns).synced() == old(dyns).synced(),
            image_of(r) == Self::encode(old(self).model(), old(dyns)@).result,
            final(self).model() == Self::encode(old(self).model(), old(dyns)@).value,
            final(dyns)@ == Self::encode(old(self).model(), old(dyns)@).store,
    ;

    /// Removes the side files of the value.
    fn delete(&self, dyns: &mut SideFiles) -> (r: Result<(), DbError>)
        requires
            old(dyns).wf(),
        ensures
            final(dyns).wf(),
            final(dyns).synced() == old(dyns).synced(),
            error_of(r) == Self::erase(self.model(), old(dyns)@.files).failure,
            final(dyns)@.files == Self::erase(self.model(), old(dyns)@.files).files,
            final(dyns)@.hint == old(dyns)@.hint,
    ;
}

/// What holds of an encoding. The directory stays well-formed. Files are
/// only added or overwritten, and only those that the value owns afterwards;
/// an identifier that the value adopts named no file before. An image has
/// the width of the type. A value that owned no side file before, and that
/// is storable, is read back from its image. Encoding fails only when the
/// directory is full.
pub open spec fn encode_lawful<T: Binary>(m: T::Model, store: SideState) -> bool {
    let e = T::encode(m, store);
    &&& e.store.wf()
    &&& T::side_ids(m).subset_of(T::side_ids(e.value))
    &&& store.files.dom().subset_of(e.store.files.dom())
    &&& e.store.files.dom().subset_of(store.files.dom().union(T::side_ids(e.value)))
    &&& forall|id: u64|
        store.files.contains_key(id) && !T::side_ids(e.value).contains(id) ==> e.store.files[id]
            == store.files[id]
    &&& forall|id: u64|
        T::side_ids(e.value).contains(id) && !T::side_ids(m).contains(id)
            ==> !store.files.contains_key(id) && e.store.files.contains_key(id)
    &&& match e.result {
        Ok(image) => {
            &&& image.len() == T::width()
            &&& T::storable(m) && T::side_ids(m) == Set::<u64>::empty() ==> T::decode(
                image,
                e.store.files,
            ) == Ok::<T::Model, DbError>(e.value)
        },
        Err(err) => err == DbError::Io && e.store.full(),
    }
}

/// What holds of a decoding that succeeds. The side files of the value
/// exist. Decoding the same image gives the same value as long as those
/// files are as they were, whatever became of the others.
pub open spec fn decode_lawful<T: Binary>(
    data: Seq<u8>,
    files: Map<u64, Seq<u8>>,
    other: Map<u64, Seq<u8>>,
) -> bool {
    data.len() == T::width() && T::decode(data, files) is Ok ==> {
        let ids = T::side_ids(T::decode(data, files).unwrap());
        &&& ids.subset_of(files.dom())
        &&& (forall|id: u64| #[trigger]
            ids.contains(id) ==> other.contains_key(id) && other[id] == files[id]) ==> T::decode(
            data,
            other,
        ) == T::decode(data, files)
    }
}

/// What holds of a deletion. Files are only removed, and only those that
/// the value owns. On success all of them existed and all are gone.
pub open spec fn erase_lawful<T: Binary>(m: T::Model, files: Map<u64, Seq<u8>>) -> bool {
    let x = T::erase(m, files);
    &&& x.files.dom().subset_of(files.dom())
    &&& forall|id: u64| x.files.contains_key(id) ==> x.files[id] == files[id]
    &&& forall|id: u64|
        files.contains_key(id) && !x.files.contains_key(id) ==> T::side_ids(m).contains(id)
    &&& x.failure is None ==> T::side_ids(m).subset_of(files.dom()) && forall|id: u64|
        T::side_ids(m).contains(id) ==> !x.files.contains_key(id)
}

/// A clone of a field stands for the same value.
pub open spec fn clone_lawful<T: Binary>(a: T, b: T) -> bool {
    cloned(a, b) ==> a.model() == b.model()
}

/// What a field type promises of all its values, images and side files.
pub open spec fn binary_lawful<T: Binary>() -> bool {
    &&& forall|m: T::Model, store: SideState| store.wf() ==> #[trigger] encode_lawful::<T>(m, store)
    &&& forall|data: Seq<u8>, files: Map<u64, Seq<u8>>, other: Map<u64, Seq<u8>>| #[trigger]
        decode_lawful::<T>(data, files, other)
    &&& forall|m: T::Model, files: Map<u64, Seq<u8>>| #[trigger] erase_lawful::<T>(m, files)
    &&& forall|a: T, b: T| #[trigger] clone_lawful(a, b)
}

/// A lawful plain field is a lawful field.
pub proof fn lemma_plain_binary<T: Plain>()
    requires
        plain_lawful::<T>(),
    ensures
        binary_lawful::<T>(),
{
    assert forall|m: T, store: SideState| store.wf() implies #[trigger] encode_lawful::<T>(
        m,
        store,
    ) by {
        assert(image_lawful(m));
    }
    assert forall|a: T, b: T| #[trigger] clone_lawful(a, b) by {
        assert(copy_lawful(a, b));
    }
}

impl<T: Plain> Binary for T {
    type Model = T;

    open spec fn model(&self) -> T {
        *self
    }

    open spec fn width() -> nat {
        T::plain_width()
    }

    open spec fn side_ids(m: T) -> Set<u64> {
        Set::empty()
    }

    open spec fn storable(m: T) -> bool {
        m.exact()
    }

    open spec fn decode(data: Seq<u8>, files: Map<u64, Seq<u8>>) -> Result<T, DbError> {
        Ok(T::parse(data))
    }

    open spec fn encode(m: T, store: SideState) -> Encoded<T> {
        Encoded { result: Ok(m.image()), value: m, store }
    }

    open spec fn erase(m: T, files: Map<u64, Seq<u8>>) -> Erased {
        Erased { failure: None, files }
    }

    fn bin_size() -> (n: usize) {
        T::plain_size()
    }

    fn from_bin(data: &[u8], dyns: &SideFiles) -> (r: Result<Self, DbError>) {
        Ok(T::from_image(data))
    }

    fn as_bin(&mut self, dyns: &mut SideFiles) -> (r: Result<Vec<u8>, DbError>) {
        Ok(self.to_image())
    }

    fn delete(&self, dyns: &mut SideFiles) -> (r: Result<(), DbError>) {
        Ok(())
    }
}

} // verus!
