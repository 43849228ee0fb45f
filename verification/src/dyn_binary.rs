//! Dynamic fields: fields whose payload has no fixed width.
//!
//! The payload of a dynamic field lives in a side file of its own. The
//! record holds the identifier of that file, eight bytes little-endian and
//! never zero. A field that was never written has no identifier yet; it
//! adopts one when it is first encoded and keeps it from then on.
use crate::binary::{
    binary_lawful, clone_lawful, decode_lawful, encode_lawful, image_of, Binary, Encoded, Erased,
};
use crate::error::DbError;
use crate::le_bytes::{
    le_decode, le_encode, le_image, le_value, lemma_le_image_len, lemma_le_value_bound,
    lemma_le_value_of_image, lemma_pow256_values,
};
use crate::plain::{
    all_exact, copy_lawful, decode_items, encode_items, image_lawful, images, lemma_images_len,
    lemma_parses_images, parses, plain_lawful, Plain,
};
use crate::side_files::{lemma_first_free_is_free, SideFiles, SideState};
use vstd::prelude::*;
use vstd::std_specs::cmp::PartialEqSpec;
use vstd::string::StrSliceExecFns;
use vstd::utf8::{decode_utf8, encode_utf8, valid_utf8};

verus! {

/// A payload: a value that can be written as bytes of any length.
///
/// The functions of the model say what the type promises; a type that
/// leaves them as they are promises nothing. What a lawful type promises is
/// [`payload_lawful`].
pub trait AsBinary: Sized + Clone {
    /// The mathematical value that a payload stands for.
    type Payload;

    /// The value that this payload stands for.
    open spec fn payload(&self) -> Self::Payload {
        arbitrary()
    }

    /// The bytes of a payload.
    open spec fn bytes_of(p: Self::Payload) -> Seq<u8> {
        arbitrary()
    }

    /// The payload that some bytes stand for.
    open spec fn parse_bytes(data: Seq<u8>) -> Result<Self::Payload, DbError> {
        arbitrary()
    }

    /// Whether the bytes of a payload tell the payload.
    open spec fn faithful(p: Self::Payload) -> bool {
        arbitrary()
    }

    /// Reads a payload from its bytes.
    fn from_as_bin(data: Vec<u8>) -> (r: Result<Self, DbError>)
        ensures
            match r {
                Ok(v) => Self::parse_bytes(data@) == Ok::<Self::Payload, DbError>(v.payload()),
                Err(e) => Self::parse_bytes(data@) == Err::<Self::Payload, DbError>(e),
            },
    ;

    /// Writes the bytes of the payload.
    fn as_as_bin(&self) -> (r: Result<Vec<u8>, DbError>)
        ensures
            image_of(r) == Ok::<Seq<u8>, DbError>(Self::bytes_of(self.payload())),
    ;
}

/// A payload whose bytes tell it is read back from its bytes.
pub open spec fn bytes_lawful<D: AsBinary>(p: D::Payload) -> bool {
    D::faithful(p) ==> D::parse_bytes(D::bytes_of(p)) == Ok::<D::Payload, DbError>(p)
}

/// A clone of a payload stands for the same value.
pub open spec fn twin_lawful<D: AsBinary>(a: D, b: D) -> bool {
    cloned(a, b) ==> a.payload() == b.payload()
}

/// What a payload type promises of all its values.
pub open spec fn payload_lawful<D: AsBinary>() -> bool {
    &&& forall|p: D::Payload| #[trigger] bytes_lawful::<D>(p)
    &&& forall|a: D, b: D| #[trigger] twin_lawful(a, b)
}

/// A plain field is a payload: its bytes are its image. Bytes after the
/// image are passed over; too few bytes are malformed.
impl<T: Plain> AsBinary for T {
    type Payload = T;

    open spec fn payload(&self) -> T {
        *self
    }

    open spec fn bytes_of(p: T) -> Seq<u8> {
        p.image()
    }

    open spec fn parse_bytes(data: Seq<u8>) -> Result<T, DbError> {
        if data.len() < T::plain_width() {
            Err(DbError::MalformedRecord)
        } else {
            Ok(T::parse(data.subrange(0, T::plain_width() as int)))
        }
    }

    open spec fn faithful(p: T) -> bool {
        p.exact()
    }

    fn from_as_bin(data: Vec<u8>) -> (r: Result<Self, DbError>) {
        if T::room(data.len()) {
            Ok(T::from_image(data.as_slice()))
        } else {
            Err(DbError::MalformedRecord)
        }
    }

    fn as_as_bin(&self) -> (r: Result<Vec<u8>, DbError>) {
        Ok(self.to_image())
    }
}

/// A lawful plain field is a lawful payload.
pub proof fn lemma_plain_payload<T: Plain>()
    requires
        plain_lawful::<T>(),
    ensures
        payload_lawful::<T>(),
{
    assert forall|p: T| #[trigger] bytes_lawful::<T>(p) by {
        assert(image_lawful(p));
        assert(p.image().subrange(0, T::plain_width() as int) =~= p.image());
    }
    assert forall|a: T, b: T| #[trigger] twin_lawful(a, b) by {
        assert(copy_lawful(a, b));
    }
}

/// A text is a payload: its bytes are its UTF-8 encoding.
impl AsBinary for String {
    type Payload = Seq<char>;

    open spec fn payload(&self) -> Seq<char> {
        self@
    }

    open spec fn bytes_of(p: Seq<char>) -> Seq<u8> {
        encode_utf8(p)
    }

    open spec fn parse_bytes(data: Seq<u8>) -> Result<Seq<char>, DbError> {
        if valid_utf8(data) {
            Ok(decode_utf8(data))
        } else {
            Err(DbError::MalformedRecord)
        }
    }

    open spec fn faithful(p: Seq<char>) -> bool {
        true
    }

    fn from_as_bin(data: Vec<u8>) -> (r: Result<Self, DbError>) {
        match text_from_utf8(data) {
            Some(text) => Ok(text),
            None => Err(DbError::MalformedRecord),
        }
    }

    fn as_as_bin(&self) -> (r: Result<Vec<u8>, DbError>) {
        Ok(self.as_str().as_bytes_vec())
    }
}

/// A text is a lawful payload.
pub proof fn lemma_text_payload()
    ensures
        payload_lawful::<String>(),
{
    assert forall|p: Seq<char>| #[trigger] bytes_lawful::<String>(p) by {
        vstd::utf8::encode_utf8_valid_utf8(p);
        vstd::utf8::encode_utf8_decode_utf8(p);
    }
}

/// `String::from_utf8` of the standard library: the text that the bytes
/// encode, or `None` where they are not valid UTF-8.
#[verifier::external_body]
fn text_from_utf8(data: Vec<u8>) -> (r: Option<String>)
    ensures
        match r {
            Some(text) => valid_utf8(data@) && text@ == decode_utf8(data@),
            None => !valid_utf8(data@),
        },
{
    String::from_utf8(data).ok()
}

/// A list of plain fields is a payload: its bytes are the images of its
/// items, one after the other.
impl<T: Plain> AsBinary for Vec<T> {
    type Payload = Seq<T>;

    open spec fn payload(&self) -> Seq<T> {
        self@
    }

    open spec fn bytes_of(p: Seq<T>) -> Seq<u8> {
        images(p)
    }

    /// Bytes that do not divide into images are malformed.
    open spec fn parse_bytes(data: Seq<u8>) -> Result<Seq<T>, DbError> {
        let w = T::plain_width();
        if w == 0 {
            if data.len() == 0 {
                Ok(Seq::empty())
            } else {
                Err(DbError::MalformedRecord)
            }
        } else if data.len() % w != 0 {
            Err(DbError::MalformedRecord)
        } else {
            Ok(parses::<T>(data, data.len() / w))
        }
    }

    open spec fn faithful(p: Seq<T>) -> bool {
        all_exact(p) && (T::plain_width() > 0 || p.len() == 0)
    }

    fn from_as_bin(data: Vec<u8>) -> (r: Result<Self, DbError>) {
        let size: usize = data.len();
        if !T::room(usize::MAX) {
            proof {
                vstd::arithmetic::div_mod::lemma_small_mod(size as nat, T::plain_width());
                vstd::arithmetic::div_mod::lemma_basic_div(size as int, T::plain_width() as int);
            }
            if size == 0 {
                let items: Vec<T> = Vec::new();
                assert(items@ =~= parses::<T>(data@, 0));
                return Ok(items);
            } else {
                return Err(DbError::MalformedRecord);
            }
        }
        let w: usize = T::plain_size();
        if w == 0 {
            if size == 0 {
                Ok(Vec::new())
            } else {
                Err(DbError::MalformedRecord)
            }
        } else if size % w != 0 {
            Err(DbError::MalformedRecord)
        } else {
            proof {
                vstd::arithmetic::div_mod::lemma_fundamental_div_mod(size as int, w as int);
                assert((size / w) * w == w * (size / w)) by (nonlinear_arith);
            }
            Ok(decode_items(data.as_slice(), size / w))
        }
    }

    fn as_as_bin(&self) -> (r: Result<Vec<u8>, DbError>) {
        Ok(encode_items(self.as_slice()))
    }
}

/// A list of lawful plain fields is a lawful payload.
pub proof fn lemma_list_payload<T: Plain>()
    requires
        plain_lawful::<T>(),
    ensures
        payload_lawful::<Vec<T>>(),
{
    assert forall|p: Seq<T>| #[trigger] bytes_lawful::<Vec<T>>(p) by {
        let w = T::plain_width();
        lemma_images_len(p);
        if <Vec<T>>::faithful(p) {
            lemma_parses_images(p);
            if w > 0 {
                vstd::arithmetic::div_mod::lemma_fundamental_div_mod_converse(
                    (p.len() * w) as int,
                    w as int,
                    p.len() as int,
                    0,
                );
            } else {
                assert(images(p) =~= Seq::<u8>::empty());
                assert(p =~= Seq::<T>::empty());
            }
        }
    }
    assert forall|a: Vec<T>, b: Vec<T>| #[trigger] twin_lawful(a, b) by {
        if cloned(a, b) && a@ != b@ {
            assert forall|i: int| 0 <= i < a@.len() implies a@[i] == b@[i] by {
                assert(copy_lawful(a@[i], b@[i]));
            }
            assert(a@ =~= b@);
        }
    }
}

/// What a dynamic field stands for: the identifier of its side file, zero
/// while it has none, and its payload.
pub struct DynModel<P> {
    pub id: u64,
    pub data: P,
}

/// A field whose payload is stored in a side file of its own.
#[derive(Debug)]
pub struct DynanicBinary<DATA: AsBinary> {
    id: u64,
    data: DATA,
}

impl<DATA: AsBinary> Clone for DynanicBinary<DATA> {
    fn clone(&self) -> (twin: Self)
        ensures
            twin.spec_id() == self.spec_id(),
            cloned(self.spec_data(), twin.spec_data()),
    {
        DynanicBinary { id: self.id, data: self.data.clone() }
    }
}

impl<DATA: AsBinary> DynanicBinary<DATA> {
    /// The identifier of the side file, zero while there is none.
    pub closed spec fn spec_id(&self) -> u64 {
        self.id
    }

    /// The payload as it is in memory.
    pub closed spec fn spec_data(&self) -> DATA {
        self.data
    }

    /// A field with payload `data` that has no side file yet.
    pub fn new(data: DATA) -> (field: Self)
        ensures
            field.spec_id() == 0,
            field.spec_data() == data,
    {
        DynanicBinary { id: 0, data }
    }

    /// The identifier of the side file, if the field has one.
    pub fn id(&self) -> (id: Option<u64>)
        ensures
            id == if self.spec_id() == 0 {
                None
            } else {
                Some(self.spec_id())
            },
    {
        if self.id == 0 {
            None
        } else {
            Some(self.id)
        }
    }

    /// The identifier of the side file, or an error where the field has
    /// none.
    pub fn id_error(&self) -> (r: Result<u64, DbError>)
        ensures
            r == if self.spec_id() == 0 {
                Err::<u64, DbError>(DbError::MissingSideFile)
            } else {
                Ok::<u64, DbError>(self.spec_id())
            },
    {
        if self.id == 0 {
            Err(DbError::MissingSideFile)
        } else {
            Ok(self.id)
        }
    }

    /// The payload.
    pub fn data(&self) -> (data: &DATA)
        ensures
            *data == self.spec_data(),
    {
        &self.data
    }

    /// The payload, to change it. The side file follows when the field is
    /// next encoded.
    pub fn mut_data(&mut self) -> (data: &mut DATA)
        ensures
            *data == old(self).spec_data(),
            final(self).spec_data() == *final(data),
            final(self).spec_id() == old(self).spec_id(),
    {
        &mut self.data
    }
}

impl DynanicBinary<String> {
    /// Tells whether two text fields hold the same text, whatever their
    /// identifiers.
    pub fn same_text(&self, other: &Self) -> (b: bool)
        ensures
            b == (self.spec_data()@ == other.spec_data()@),
    {
        self.data == other.data
    }
}

/// Two dynamic fields are equal when their payloads are, whatever their
/// identifiers.
impl<DATA: AsBinary + PartialEq> PartialEq for DynanicBinary<DATA> {
    fn eq(&self, other: &Self) -> (b: bool) {
        self.data == other.data
    }
}

impl<DATA: AsBinary + PartialEq> vstd::std_specs::cmp::PartialEqSpecImpl for DynanicBinary<DATA> {
    open spec fn obeys_eq_spec() -> bool {
        DATA::obeys_eq_spec()
    }

    open spec fn eq_spec(&self, other: &Self) -> bool {
        self.spec_data().eq_spec(&other.spec_data())
    }
}

/// The side files that a dynamic field owns: its one, if it has one.
pub open spec fn own_ids(id: u64) -> Set<u64> {
    if id == 0 {
        Set::empty()
    } else {
        set![id]
    }
}

impl<DATA: AsBinary> Binary for DynanicBinary<DATA> {
    type Model = DynModel<DATA::Payload>;

    /// The identifier and what the payload stands for.
    open spec fn model(&self) -> DynModel<DATA::Payload> {
        DynModel { id: self.spec_id(), data: self.spec_data().payload() }
    }

    /// The identifier, eight bytes.
    open spec fn width() -> nat {
        8
    }

    open spec fn side_ids(m: DynModel<DATA::Payload>) -> Set<u64> {
        own_ids(m.id)
    }

    open spec fn storable(m: DynModel<DATA::Payload>) -> bool {
        DATA::faithful(m.data)
    }

    /// The identifier must not be zero, its side file must exist, and the
    /// content of the side file must be a payload.
    open spec fn decode(data: Seq<u8>, files: Map<u64, Seq<u8>>) -> Result<
        DynModel<DATA::Payload>,
        DbError,
    > {
        let id = le_value(data) as u64;
        if id == 0 {
            Err(DbError::MalformedRecord)
        } else if !files.contains_key(id) {
            Err(DbError::MissingSideFile)
        } else {
            match DATA::parse_bytes(files[id]) {
                Ok(p) => Ok(DynModel { id, data: p }),
                Err(e) => Err(e),
            }
        }
    }

    /// A field that has a side file writes its payload there again. A field
    /// that has none adopts a fresh identifier and writes its payload to the
    /// new file, unless the directory is full.
    open spec fn encode(m: DynModel<DATA::Payload>, store: SideState) -> Encoded<
        DynModel<DATA::Payload>,
    > {
        if m.id != 0 {
            Encoded {
                result: Ok(le_image(m.id as nat, 8)),
                value: m,
                store: store.put(m.id, DATA::bytes_of(m.data)),
            }
        } else if store.full() {
            Encoded { result: Err(DbError::Io), value: m, store }
        } else {
            let id = store.fresh();
            Encoded {
                result: Ok(le_image(id as nat, 8)),
                value: DynModel { id, data: m.data },
                store: store.advance().put(id, DATA::bytes_of(m.data)),
            }
        }
    }

    /// The side file is removed; a field without one, or whose file is not
    /// there, cannot be deleted.
    open spec fn erase(m: DynModel<DATA::Payload>, files: Map<u64, Seq<u8>>) -> Erased {
        if m.id == 0 || !files.contains_key(m.id) {
            Erased { failure: Some(DbError::MissingSideFile), files }
        } else {
            Erased { failure: None, files: files.remove(m.id) }
        }
    }

    fn bin_size() -> (n: usize) {
        8
    }

    fn from_bin(data: &[u8], dyns: &SideFiles) -> (r: Result<Self, DbError>) {
        proof {
            lemma_pow256_values();
            lemma_le_value_bound(data@.subrange(0, 8));
        }
        let id: u64 = le_decode(data, 8) as u64;
        if id == 0 {
            return Err(DbError::MalformedRecord);
        }
        let bytes = match dyns.read(id) {
            Ok(bytes) => bytes,
            Err(e) => {
                return Err(e);
            },
        };
        match DATA::from_as_bin(bytes) {
            Ok(payload) => Ok(DynanicBinary { id, data: payload }),
            Err(e) => Err(e),
        }
    }

    /// The payload stays. A field that has a side file keeps its
    /// identifier. After a successful write the field has an identifier,
    /// which is not zero and named no file before if it is new; the image is
    /// that identifier, its side file holds the bytes of the payload, and
    /// every other side file is as it was.
    fn as_bin(&mut self, dyns: &mut SideFiles) -> (r: Result<Vec<u8>, DbError>)
        ensures
            final(self).spec_data() == old(self).spec_data(),
            old(self).spec_id() != 0 ==> final(self).spec_id() == old(self).spec_id(),
            r is Ok ==> {
                &&& final(self).spec_id() != 0
                &&& r.unwrap()@ == le_image(final(self).spec_id() as nat, 8)
                &&& old(self).spec_id() == 0 ==> !old(dyns)@.files.contains_key(
                    final(self).spec_id(),
                )
                &&& final(dyns)@.files == old(dyns)@.files.insert(
                    final(self).spec_id(),
                    DATA::bytes_of(old(self).spec_data().payload()),
                )
            },
    {
        proof {
            dyns.lemma_wf();
            if self.id == 0 && !dyns@.full() {
                lemma_first_free_is_free(dyns@.files.dom(), dyns@.hint);
            }
        }
        if self.id == 0 {
            match dyns.fresh_id() {
                Some(id) => {
                    self.id = id;
                },
                None => {
                    return Err(DbError::Io);
                },
            }
        }
        let bytes = match self.data.as_as_bin() {
            Ok(bytes) => bytes,
            Err(e) => {
                return Err(e);
            },
        };
        dyns.write(self.id, bytes);
        Ok(le_encode(self.id as u128, 8))
    }

    fn delete(&self, dyns: &mut SideFiles) -> (r: Result<(), DbError>) {
        if self.id == 0 {
            return Err(DbError::MissingSideFile);
        }
        match dyns.remove(self.id) {
            Ok(_) => Ok(()),
            Err(e) => Err(e),
        }
    }
}

/// A dynamic field with a lawful payload is a lawful field.
pub proof fn lemma_dynamic_binary<DATA: AsBinary>()
    requires
        payload_lawful::<DATA>(),
    ensures
        binary_lawful::<DynanicBinary<DATA>>(),
{
    assert forall|m: DynModel<DATA::Payload>, store: SideState| store.wf() implies #[trigger]
        encode_lawful::<DynanicBinary<DATA>>(m, store) by {
        let e = <DynanicBinary<DATA>>::encode(m, store);
        lemma_pow256_values();
        assert(bytes_lawful::<DATA>(m.data));
        if m.id != 0 {
            lemma_le_image_len(m.id as nat, 8);
            assert(e.store.files.dom() =~= store.files.dom().insert(m.id));
            assert(<DynanicBinary<DATA>>::side_ids(m).contains(m.id));
        } else if !store.full() {
            let id = store.fresh();
            lemma_first_free_is_free(store.files.dom(), store.hint);
            lemma_le_image_len(id as nat, 8);
            lemma_le_value_of_image(id as nat, 8);
            assert(<DynanicBinary<DATA>>::side_ids(e.value) =~= set![id]);
            assert(e.store.files.dom() =~= store.files.dom().insert(id));
            assert(le_value(le_image(id as nat, 8)) as u64 == id);
            assert(e.store.files[id] == DATA::bytes_of(m.data));
        }
    }
    assert forall|data: Seq<u8>, files: Map<u64, Seq<u8>>, other: Map<u64, Seq<u8>>| #[trigger]
        decode_lawful::<DynanicBinary<DATA>>(data, files, other) by {
        if <DynanicBinary<DATA>>::decode(data, files) is Ok {
            let id = le_value(data) as u64;
            assert(own_ids(id).contains(id));
        }
    }
    assert forall|a: DynanicBinary<DATA>, b: DynanicBinary<DATA>| #[trigger]
        clone_lawful(a, b) by {
        if cloned(a, b) {
            assert(twin_lawful(a.data, b.data));
        }
    }
}

} // verus!
