//! Records made of fields.
//!
//! A record of two fields is stored as the image of the first followed by
//! the image of the second. Its width is the sum of their widths; it is read
//! at successive offsets, encoded field after field, and deleted field after
//! field. Records of more fields are records of a field and a record.
use crate::binary::{
    binary_lawful, clone_lawful, decode_lawful, encode_lawful, erase_lawful, Binary, Encoded, Erased,
};
use crate::error::DbError;
use crate::index_file::{Column, NoIndex};
use crate::order::Ranked;
use crate::side_files::{SideFiles, SideState};
use crate::table::Table;
use vstd::prelude::*;

verus! {

/// A record of two fields, or of a field and the rest of the fields.
#[derive(Debug, PartialEq)]
pub struct Fields<A, B> {
    pub first: A,
    pub rest: B,
}

impl<A: Binary, B: Binary> Clone for Fields<A, B> {
    fn clone(&self) -> (twin: Self)
        ensures
            cloned(self.first, twin.first),
            cloned(self.rest, twin.rest),
    {
        Fields { first: self.first.clone(), rest: self.rest.clone() }
    }
}

/// What encoding the second field gives after the first was encoded.
pub open spec fn encode_both<A: Binary, B: Binary>(
    m: (A::Model, B::Model),
    store: SideState,
) -> Encoded<(A::Model, B::Model)> {
    let a = A::encode(m.0, store);
    match a.result {
        Err(e) => Encoded { result: Err(e), value: (a.value, m.1), store: a.store },
        Ok(head) => {
            let b = B::encode(m.1, a.store);
            Encoded {
                result: match b.result {
                    Ok(tail) => Ok(head + tail),
                    Err(e) => Err(e),
                },
                value: (a.value, b.value),
                store: b.store,
            }
        },
    }
}

impl<A: Binary, B: Binary> Binary for Fields<A, B> {
    type Model = (A::Model, B::Model);

    open spec fn model(&self) -> (A::Model, B::Model) {
        (self.first.model(), self.rest.model())
    }

    /// The sum of the widths of the fields.
    open spec fn width() -> nat {
        A::width() + B::width()
    }

    open spec fn side_ids(m: (A::Model, B::Model)) -> Set<u64> {
        A::side_ids(m.0).union(B::side_ids(m.1))
    }

    open spec fn storable(m: (A::Model, B::Model)) -> bool {
        A::storable(m.0) && B::storable(m.1)
    }

    /// The first field is read from the start of the image, the second
    /// from where the first ends.
    open spec fn decode(data: Seq<u8>, files: Map<u64, Seq<u8>>) -> Result<
        (A::Model, B::Model),
        DbError,
    > {
        match A::decode(data.subrange(0, A::width() as int), files) {
            Err(e) => Err(e),
            Ok(a) => match B::decode(
                data.subrange(A::width() as int, (A::width() + B::width()) as int),
                files,
            ) {
                Err(e) => Err(e),
                Ok(b) => Ok((a, b)),
            },
        }
    }

    /// The first field is encoded, then the second; the image of the
    /// second is appended to that of the first.
    open spec fn encode(m: (A::Model, B::Model), store: SideState) -> Encoded<(A::Model, B::Model)> {
        encode_both::<A, B>(m, store)
    }

    /// The first field is deleted, then the second.
    open spec fn erase(m: (A::Model, B::Model), files: Map<u64, Seq<u8>>) -> Erased {
        let a = A::erase(m.0, files);
        if a.failure is Some {
            a
        } else {
            B::erase(m.1, a.files)
        }
    }

    fn bin_size() -> (n: usize) {
        A::bin_size() + B::bin_size()
    }

    fn from_bin(data: &[u8], dyns: &SideFiles) -> (r: Result<Self, DbError>) {
        let size: usize = data.len();
        let w: usize = A::bin_size();
        let first = match A::from_bin(data, dyns) {
            Ok(first) => first,
            Err(e) => {
                proof {
                    assert(data@.subrange(0, Self::width() as int).subrange(0, w as int)
                        =~= data@.subrange(0, w as int));
                }
                return Err(e);
            },
        };
        let tail = vstd::slice::slice_subrange(data, w, w + B::bin_size());
        proof {
            let whole = data@.subrange(0, Self::width() as int);
            assert(whole.subrange(0, w as int) =~= data@.subrange(0, w as int));
            assert(whole.subrange(w as int, w + B::width()) =~= tail@.subrange(
                0,
                B::width() as int,
            ));
        }
        match B::from_bin(tail, dyns) {
            Ok(rest) => Ok(Fields { first, rest }),
            Err(e) => Err(e),
        }
    }

    fn as_bin(&mut self, dyns: &mut SideFiles) -> (r: Result<Vec<u8>, DbError>) {
        let mut head = match self.first.as_bin(dyns) {
            Ok(head) => head,
            Err(e) => {
                return Err(e);
            },
        };
        let mut tail = match self.rest.as_bin(dyns) {
            Ok(tail) => tail,
            Err(e) => {
                return Err(e);
            },
        };
        head.append(&mut tail);
        Ok(head)
    }

    fn delete(&self, dyns: &mut SideFiles) -> (r: Result<(), DbError>) {
        match self.first.delete(dyns) {
            Ok(_) => {},
            Err(e) => {
                return Err(e);
            },
        }
        match self.rest.delete(dyns) {
            Ok(_) => Ok(()),
            Err(e) => Err(e),
        }
    }
}

/// A record of lawful fields is a lawful field.
pub proof fn lemma_fields_binary<A: Binary, B: Binary>()
    requires
        binary_lawful::<A>(),
        binary_lawful::<B>(),
    ensures
        binary_lawful::<Fields<A, B>>(),
{
    assert forall|m: (A::Model, B::Model), store: SideState| store.wf() implies #[trigger]
        encode_lawful::<Fields<A, B>>(m, store) by {
        lemma_fields_encode::<A, B>(m, store);
    }
    assert forall|data: Seq<u8>, files: Map<u64, Seq<u8>>, other: Map<u64, Seq<u8>>| #[trigger]
        decode_lawful::<Fields<A, B>>(data, files, other) by {
        let w = A::width() as int;
        let head = data.subrange(0, w);
        let tail = data.subrange(w, w + B::width());
        if data.len() == A::width() + B::width() && <Fields<A, B>>::decode(data, files) is Ok {
            assert(decode_lawful::<A>(head, files, other));
            assert(decode_lawful::<B>(tail, files, other));
            let a = A::decode(head, files).unwrap();
            let b = B::decode(tail, files).unwrap();
            let ids = <Fields<A, B>>::side_ids((a, b));
            assert(<Fields<A, B>>::decode(data, files) == Ok::<(A::Model, B::Model), DbError>(
                (a, b),
            ));
            assert(A::side_ids(a).subset_of(files.dom()));
            assert(B::side_ids(b).subset_of(files.dom()));
            assert(ids.subset_of(files.dom()));
            if forall|id: u64| #[trigger]
                ids.contains(id) ==> other.contains_key(id) && other[id] == files[id] {
                assert forall|id: u64| #[trigger] A::side_ids(a).contains(id)
                    implies other.contains_key(id) && other[id] == files[id] by {
                    assert(ids.contains(id));
                }
                assert forall|id: u64| #[trigger] B::side_ids(b).contains(id)
                    implies other.contains_key(id) && other[id] == files[id] by {
                    assert(ids.contains(id));
                }
            }
        }
    }
    assert forall|m: (A::Model, B::Model), files: Map<u64, Seq<u8>>| #[trigger]
        erase_lawful::<Fields<A, B>>(m, files) by {
        assert(erase_lawful::<A>(m.0, files));
        let a = A::erase(m.0, files);
        assert(erase_lawful::<B>(m.1, a.files));
    }
    assert forall|x: Fields<A, B>, y: Fields<A, B>| #[trigger] clone_lawful(x, y) by {
        if cloned(x, y) {
            assert(clone_lawful(x.first, y.first));
            assert(clone_lawful(x.rest, y.rest));
        }
    }
}

/// What holds of the encoding of a record of lawful fields.
pub proof fn lemma_fields_encode<A: Binary, B: Binary>(m: (A::Model, B::Model), store: SideState)
    requires
        binary_lawful::<A>(),
        binary_lawful::<B>(),
        store.wf(),
    ensures
        encode_lawful::<Fields<A, B>>(m, store),
{
    let a = A::encode(m.0, store);
    assert(encode_lawful::<A>(m.0, store));
    let e = <Fields<A, B>>::encode(m, store);
    match a.result {
        Err(x) => {},
        Ok(head) => {
            let b = B::encode(m.1, a.store);
            assert(encode_lawful::<B>(m.1, a.store));
            match b.result {
                Err(x) => {},
                Ok(tail) => {
                    let image = head + tail;
                    let wa = A::width() as int;
                    assert(image.subrange(0, wa) =~= head);
                    assert(image.subrange(wa, wa + B::width()) =~= tail);
                    if <Fields<A, B>>::storable(m) && <Fields<A, B>>::side_ids(m) == Set::<
                        u64,
                    >::empty() {
                        assert(A::side_ids(m.0) =~= Set::<u64>::empty());
                        assert(B::side_ids(m.1) =~= Set::<u64>::empty());
                        assert(decode_lawful::<A>(head, a.store.files, b.store.files));
                        assert forall|id: u64| A::side_ids(a.value).contains(id)
                            implies b.store.files.contains_key(id) && b.store.files[id]
                            == a.store.files[id] by {
                            assert(a.store.files.contains_key(id));
                            if B::side_ids(b.value).contains(id) {
                                assert(!B::side_ids(m.1).contains(id));
                            }
                        }
                    }
                },
            }
        },
    }
}

/// A record whose first field is a key is a row of a table: the first
/// field is its primary key. Such a table has no index on other columns.
impl<K: Ranked, B: Binary> Table for Fields<K, B> {
    type ID = K;

    type Indexes = NoIndex;

    open spec fn id_of(m: (K, B::Model)) -> K {
        m.0
    }

    fn id(&self) -> (id: &K) {
        proof {
            lemma_plain_model(self.first);
        }
        &self.first
    }

    /// A record has no index but that of its key: opening never fails.
    open spec fn opened(path: Seq<char>) -> Result<(), DbError> {
        Ok(())
    }

    fn get_indexes(path: String) -> (r: Result<NoIndex, DbError>) {
        Ok(NoIndex)
    }
}

/// The column of the second field of a record, for a record whose second
/// field can serve as a key.
pub struct SecondField;

impl<K: Ranked, C: Ranked, B: Binary> Column<Fields<K, Fields<C, B>>> for SecondField {
    type Key = C;

    open spec fn project(m: (K, (C, B::Model))) -> C {
        m.1.0
    }

    fn extract(row: &Fields<K, Fields<C, B>>) -> (key: &C) {
        proof {
            lemma_plain_model(row.rest.first);
        }
        &row.rest.first
    }
}

/// A plain field stands for itself.
pub proof fn lemma_plain_model<T: crate::plain::Plain>(v: T)
    ensures
        v.model() == v,
{
}

/// Encoding a record whose first field is a key leaves the key as it is.
pub proof fn lemma_key_stays<K: Ranked, B: Binary>(m: (K, B::Model), store: SideState)
    ensures
        <Fields<K, B>>::id_of(<Fields<K, B>>::encode(m, store).value) == <Fields<K, B>>::id_of(m),
{
}

} // verus!
