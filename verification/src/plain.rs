//! Fields that need no side file: integers, booleans, characters, and
//! arrays and pairs of such fields.
//!
//! Every value of such a type has an image of a fixed number of bytes.
//! Integers are written little-endian, signed ones in two's complement. A
//! boolean is one byte, zero for false; any other byte reads as true. A
//! character is one byte, its code point, so only the code points up to 255
//! can be told from their image. An array is the images of its items, one
//! after the other.
use crate::le_bytes::{
    le_decode, le_encode, le_image, le_value, lemma_le_image_len, lemma_le_value_bound,
    lemma_le_value_of_image, lemma_pow256_values, lemma_twos_round_trip, twos, untwos,
};
use vstd::prelude::*;

verus! {

/// A field with a fixed-width image that no side file takes part in.
///
/// The four functions of the model say what the type promises; a type that
/// leaves them as they are promises nothing. What a lawful type promises is
/// [`plain_lawful`].
pub trait Plain: Sized + Copy {
    /// The number of bytes of every image.
    open spec fn plain_width() -> nat {
        arbitrary()
    }

    /// The image of the value.
    open spec fn image(&self) -> Seq<u8> {
        arbitrary()
    }

    /// The value that an image stands for.
    open spec fn parse(data: Seq<u8>) -> Self {
        arbitrary()
    }

    /// Whether the image tells the value. It does for every value but the
    /// characters above code point 255.
    open spec fn exact(&self) -> bool {
        arbitrary()
    }

    /// The number of bytes of every image.
    fn plain_size() -> (n: usize)
        requires
            Self::plain_width() <= usize::MAX,
        ensures
            n == Self::plain_width(),
    ;

    /// Tells whether `size` bytes have room for an image.
    fn room(size: usize) -> (b: bool)
        ensures
            b == (Self::plain_width() <= size),
    ;

    /// Writes the image of the value.
    fn to_image(&self) -> (out: Vec<u8>)
        ensures
            out@ == self.image(),
    ;

    /// Reads a value from the first bytes of `data`.
    fn from_image(data: &[u8]) -> (v: Self)
        requires
            data@.len() >= Self::plain_width(),
        ensures
            v == Self::parse(data@.subrange(0, Self::plain_width() as int)),
    ;
}

/// An image has the width of its type, and a value that its image tells is
/// read back from it.
pub open spec fn image_lawful<T: Plain>(v: T) -> bool {
    v.image().len() == T::plain_width() && (v.exact() ==> T::parse(v.image()) == v)
}

/// What is read from an image is told by its own image.
pub open spec fn parse_lawful<T: Plain>(data: Seq<u8>) -> bool {
    data.len() == T::plain_width() ==> T::parse(data).exact()
}

/// A clone of a plain value is the value.
pub open spec fn copy_lawful<T: Plain>(a: T, b: T) -> bool {
    cloned(a, b) ==> a == b
}

/// What a plain field type promises of all its values and images.
pub open spec fn plain_lawful<T: Plain>() -> bool {
    &&& forall|v: T| #[trigger] image_lawful(v)
    &&& forall|data: Seq<u8>| #[trigger] parse_lawful::<T>(data)
    &&& forall|a: T, b: T| #[trigger] copy_lawful(a, b)
}

impl Plain for u8 {
    open spec fn plain_width() -> nat {
        1
    }

    open spec fn image(&self) -> Seq<u8> {
        le_image(*self as nat, 1)
    }

    open spec fn parse(data: Seq<u8>) -> Self {
        le_value(data) as u8
    }

    open spec fn exact(&self) -> bool {
        true
    }

    fn plain_size() -> (n: usize) {
        1
    }

    fn room(size: usize) -> (b: bool) {
        1 <= size
    }

    fn to_image(&self) -> (out: Vec<u8>) {
        le_encode(*self as u128, 1)
    }

    fn from_image(data: &[u8]) -> (v: Self) {
        proof {
            lemma_pow256_values();
            lemma_le_value_bound(data@.subrange(0, 1));
        }
        le_decode(data, 1) as u8
    }
}

/// The promises of a plain field hold of `u8`.
pub proof fn lemma_plain_u8()
    ensures
        plain_lawful::<u8>(),
{
    assert forall|v: u8| #[trigger] image_lawful(v) by {
        lemma_pow256_values();
        lemma_le_image_len(v as nat, 1);
        lemma_le_value_of_image(v as nat, 1);
    }
}

impl Plain for u16 {
    open spec fn plain_width() -> nat {
        2
    }

    open spec fn image(&self) -> Seq<u8> {
        le_image(*self as nat, 2)
    }

    open spec fn parse(data: Seq<u8>) -> Self {
        le_value(data) as u16
    }

    open spec fn exact(&self) -> bool {
        true
    }

    fn plain_size() -> (n: usize) {
        2
    }

    fn room(size: usize) -> (b: bool) {
        2 <= size
    }

    fn to_image(&self) -> (out: Vec<u8>) {
        le_encode(*self as u128, 2)
    }

    fn from_image(data: &[u8]) -> (v: Self) {
        proof {
            lemma_pow256_values();
            lemma_le_value_bound(data@.subrange(0, 2));
        }
        le_decode(data, 2) as u16
    }
}

/// The promises of a plain field hold of `u16`.
pub proof fn lemma_plain_u16()
    ensures
        plain_lawful::<u16>(),
{
    assert forall|v: u16| #[trigger] image_lawful(v) by {
        lemma_pow256_values();
        lemma_le_image_len(v as nat, 2);
        lemma_le_value_of_image(v as nat, 2);
    }
}

impl Plain for u32 {
    open spec fn plain_width() -> nat {
        4
    }

    open spec fn image(&self) -> Seq<u8> {
        le_image(*self as nat, 4)
    }

    open spec fn parse(data: Seq<u8>) -> Self {
        le_value(data) as u32
    }

    open spec fn exact(&self) -> bool {
        true
    }

    fn plain_size() -> (n: usize) {
        4
    }

    fn room(size: usize) -> (b: bool) {
        4 <= size
    }

    fn to_image(&self) -> (out: Vec<u8>) {
        le_encode(*self as u128, 4)
    }

    fn from_image(data: &[u8]) -> (v: Self) {
        proof {
            lemma_pow256_values();
            lemma_le_value_bound(data@.subrange(0, 4));
        }
        le_decode(data, 4) as u32
    }
}

/// The promises of a plain field hold of `u32`.
pub proof fn lemma_plain_u32()
    ensures
        plain_lawful::<u32>(),
{
    assert forall|v: u32| #[trigger] image_lawful(v) by {
        lemma_pow256_values();
        lemma_le_image_len(v as nat, 4);
        lemma_le_value_of_image(v as nat, 4);
    }
}

impl Plain for u64 {
    open spec fn plain_width() -> nat {
        8
    }

    open spec fn image(&self) -> Seq<u8> {
        le_image(*self as nat, 8)
    }

    open spec fn parse(data: Seq<u8>) -> Self {
        le_value(data) as u64
    }

    open spec fn exact(&self) -> bool {
        true
    }

    fn plain_size() -> (n: usize) {
        8
    }

    fn room(size: usize) -> (b: bool) {
        8 <= size
    }

    fn to_image(&self) -> (out: Vec<u8>) {
        le_encode(*self as u128, 8)
    }

    fn from_image(data: &[u8]) -> (v: Self) {
        proof {
            lemma_pow256_values();
            lemma_le_value_bound(data@.subrange(0, 8));
        }
        le_decode(data, 8) as u64
    }
}

/// The promises of a plain field hold of `u64`.
pub proof fn lemma_plain_u64()
    ensures
        plain_lawful::<u64>(),
{
    assert forall|v: u64| #[trigger] image_lawful(v) by {
        lemma_pow256_values();
        lemma_le_image_len(v as nat, 8);
        lemma_le_value_of_image(v as nat, 8);
    }
}

impl Plain for u128 {
    open spec fn plain_width() -> nat {
        16
    }

    open spec fn image(&self) -> Seq<u8> {
        le_image(*self as nat, 16)
    }

    open spec fn parse(data: Seq<u8>) -> Self {
        le_value(data) as u128
    }

    open spec fn exact(&self) -> bool {
        true
    }

    fn plain_size() -> (n: usize) {
        16
    }

    fn room(size: usize) -> (b: bool) {
        16 <= size
    }

    fn to_image(&self) -> (out: Vec<u8>) {
        le_encode(*self, 16)
    }

    fn from_image(data: &[u8]) -> (v: Self) {
        proof {
            lemma_pow256_values();
            lemma_le_value_bound(data@.subrange(0, 16));
        }
        le_decode(data, 16) as u128
    }
}

/// The promises of a plain field hold of `u128`.
pub proof fn lemma_plain_u128()
    ensures
        plain_lawful::<u128>(),
{
    assert forall|v: u128| #[trigger] image_lawful(v) by {
        lemma_pow256_values();
        lemma_le_image_len(v as nat, 16);
        lemma_le_value_of_image(v as nat, 16);
    }
}

impl Plain for i8 {
    open spec fn plain_width() -> nat {
        1
    }

    open spec fn image(&self) -> Seq<u8> {
        le_image(twos(*self as int, 1), 1)
    }

    open spec fn parse(data: Seq<u8>) -> Self {
        untwos(le_value(data), 1) as i8
    }

    open spec fn exact(&self) -> bool {
        true
    }

    fn plain_size() -> (n: usize) {
        1
    }

    fn room(size: usize) -> (b: bool) {
        1 <= size
    }

    fn to_image(&self) -> (out: Vec<u8>) {
        proof {
            lemma_pow256_values();
        }
        let u: u128 = if *self >= 0 {
            *self as u128
        } else {
            (*self as i128 + 0x100) as u128
        };
        le_encode(u, 1)
    }

    fn from_image(data: &[u8]) -> (v: Self) {
        proof {
            lemma_pow256_values();
            lemma_le_value_bound(data@.subrange(0, 1));
        }
        let u: u128 = le_decode(data, 1);
        if u < 0x80 {
            u as i8
        } else {
            (u as i128 - 0x100) as i8
        }
    }
}

/// The promises of a plain field hold of `i8`.
pub proof fn lemma_plain_i8()
    ensures
        plain_lawful::<i8>(),
{
    assert forall|v: i8| #[trigger] image_lawful(v) by {
        lemma_pow256_values();
        lemma_twos_round_trip(v as int, 1);
        lemma_le_image_len(twos(v as int, 1), 1);
        lemma_le_value_of_image(twos(v as int, 1), 1);
    }
}

impl Plain for i16 {
    open spec fn plain_width() -> nat {
        2
    }

    open spec fn image(&self) -> Seq<u8> {
        le_image(twos(*self as int, 2), 2)
    }

    open spec fn parse(data: Seq<u8>) -> Self {
        untwos(le_value(data), 2) as i16
    }

    open spec fn exact(&self) -> bool {
        true
    }

    fn plain_size() -> (n: usize) {
        2
    }

    fn room(size: usize) -> (b: bool) {
        2 <= size
    }

    fn to_image(&self) -> (out: Vec<u8>) {
        proof {
            lemma_pow256_values();
        }
        let u: u128 = if *self >= 0 {
            *self as u128
        } else {
            (*self as i128 + 0x1_0000) as u128
        };
        le_encode(u, 2)
    }

    fn from_image(data: &[u8]) -> (v: Self) {
        proof {
            lemma_pow256_values();
            lemma_le_value_bound(data@.subrange(0, 2));
        }
        let u: u128 = le_decode(data, 2);
        if u < 0x8000 {
            u as i16
        } else {
            (u as i128 - 0x1_0000) as i16
        }
    }
}

/// The promises of a plain field hold of `i16`.
pub proof fn lemma_plain_i16()
    ensures
        plain_lawful::<i16>(),
{
    assert forall|v: i16| #[trigger] image_lawful(v) by {
        lemma_pow256_values();
        lemma_twos_round_trip(v as int, 2);
        lemma_le_image_len(twos(v as int, 2), 2);
        lemma_le_value_of_image(twos(v as int, 2), 2);
    }
}

impl Plain for i32 {
    open spec fn plain_width() -> nat {
        4
    }

    open spec fn image(&self) -> Seq<u8> {
        le_image(twos(*self as int, 4), 4)
    }

    open spec fn parse(data: Seq<u8>) -> Self {
        untwos(le_value(data), 4) as i32
    }

    open spec fn exact(&self) -> bool {
        true
    }

    fn plain_size() -> (n: usize) {
        4
    }

    fn room(size: usize) -> (b: bool) {
        4 <= size
    }

    fn to_image(&self) -> (out: Vec<u8>) {
        proof {
            lemma_pow256_values();
        }
        let u: u128 = if *self >= 0 {
            *self as u128
        } else {
            (*self as i128 + 0x1_0000_0000) as u128
        };
        le_encode(u, 4)
    }

    fn from_image(data: &[u8]) -> (v: Self) {
        proof {
            lemma_pow256_values();
            lemma_le_value_bound(data@.subrange(0, 4));
        }
        let u: u128 = le_decode(data, 4);
        if u < 0x8000_0000 {
            u as i32
        } else {
            (u as i128 - 0x1_0000_0000) as i32
        }
    }
}

/// The promises of a plain field hold of `i32`.
pub proof fn lemma_plain_i32()
    ensures
        plain_lawful::<i32>(),
{
    assert forall|v: i32| #[trigger] image_lawful(v) by {
        lemma_pow256_values();
        lemma_twos_round_trip(v as int, 4);
        lemma_le_image_len(twos(v as int, 4), 4);
        lemma_le_value_of_image(twos(v as int, 4), 4);
    }
}

impl Plain for i64 {
    open spec fn plain_width() -> nat {
        8
    }

    open spec fn image(&self) -> Seq<u8> {
        le_image(twos(*self as int, 8), 8)
    }

    open spec fn parse(data: Seq<u8>) -> Self {
        untwos(le_value(data), 8) as i64
    }

    open spec fn exact(&self) -> bool {
        true
    }

    fn plain_size() -> (n: usize) {
        8
    }

    fn room(size: usize) -> (b: bool) {
        8 <= size
    }

    fn to_image(&self) -> (out: Vec<u8>) {
        proof {
            lemma_pow256_values();
        }
        let u: u128 = if *self >= 0 {
            *self as u128
        } else {
            (*self as i128 + 0x1_0000_0000_0000_0000) as u128
        };
        le_encode(u, 8)
    }

    fn from_image(data: &[u8]) -> (v: Self) {
        proof {
            lemma_pow256_values();
            lemma_le_value_bound(data@.subrange(0, 8));
        }
        let u: u128 = le_decode(data, 8);
        if u < 0x8000_0000_0000_0000 {
            u as i64
        } else {
            (u as i128 - 0x1_0000_0000_0000_0000) as i64
        }
    }
}

/// The promises of a plain field hold of `i64`.
pub proof fn lemma_plain_i64()
    ensures
        plain_lawful::<i64>(),
{
    assert forall|v: i64| #[trigger] image_lawful(v) by {
        lemma_pow256_values();
        lemma_twos_round_trip(v as int, 8);
        lemma_le_image_len(twos(v as int, 8), 8);
        lemma_le_value_of_image(twos(v as int, 8), 8);
    }
}

impl Plain for i128 {
    open spec fn plain_width() -> nat {
        16
    }

    open spec fn image(&self) -> Seq<u8> {
        le_image(twos(*self as int, 16), 16)
    }

    open spec fn parse(data: Seq<u8>) -> Self {
        untwos(le_value(data), 16) as i128
    }

    open spec fn exact(&self) -> bool {
        true
    }

    fn plain_size() -> (n: usize) {
        16
    }

    fn room(size: usize) -> (b: bool) {
        16 <= size
    }

    fn to_image(&self) -> (out: Vec<u8>) {
        proof {
            lemma_pow256_values();
        }
        let u: u128 = if *self >= 0 {
            *self as u128
        } else {
            u128::MAX - ((-(*self + 1)) as u128)
        };
        le_encode(u, 16)
    }

    fn from_image(data: &[u8]) -> (v: Self) {
        proof {
            lemma_pow256_values();
            lemma_le_value_bound(data@.subrange(0, 16));
        }
        let u: u128 = le_decode(data, 16);
        if u < 0x8000_0000_0000_0000_0000_0000_0000_0000 {
            u as i128
        } else {
            -((u128::MAX - u) as i128) - 1
        }
    }
}

/// The promises of a plain field hold of `i128`.
pub proof fn lemma_plain_i128()
    ensures
        plain_lawful::<i128>(),
{
    assert forall|v: i128| #[trigger] image_lawful(v) by {
        lemma_pow256_values();
        lemma_twos_round_trip(v as int, 16);
        lemma_le_image_len(twos(v as int, 16), 16);
        lemma_le_value_of_image(twos(v as int, 16), 16);
    }
}

/// The number of values of `usize`.
pub open spec fn word_space() -> nat {
    (usize::MAX + 1) as nat
}

impl Plain for usize {
    /// Eight bytes, whatever the width of the machine word.
    open spec fn plain_width() -> nat {
        8
    }

    open spec fn image(&self) -> Seq<u8> {
        le_image(*self as nat, 8)
    }

    /// A number too large for the machine word is cut down to it.
    open spec fn parse(data: Seq<u8>) -> Self {
        (le_value(data) % word_space()) as usize
    }

    open spec fn exact(&self) -> bool {
        true
    }

    fn plain_size() -> (n: usize) {
        8
    }

    fn room(size: usize) -> (b: bool) {
        8 <= size
    }

    fn to_image(&self) -> (out: Vec<u8>) {
        le_encode(*self as u128, 8)
    }

    fn from_image(data: &[u8]) -> (v: Self) {
        let u: u128 = le_decode(data, 8);
        (u % (usize::MAX as u128 + 1)) as usize
    }
}

/// The promises of a plain field hold of `usize`.
pub proof fn lemma_plain_usize()
    ensures
        plain_lawful::<usize>(),
{
    assert forall|v: usize| #[trigger] image_lawful(v) by {
        lemma_pow256_values();
        lemma_le_image_len(v as nat, 8);
        lemma_le_value_of_image(v as nat, 8);
        vstd::arithmetic::div_mod::lemma_small_mod(v as nat, word_space());
    }
}

impl Plain for isize {
    /// Eight bytes, whatever the width of the machine word.
    open spec fn plain_width() -> nat {
        8
    }

    open spec fn image(&self) -> Seq<u8> {
        le_image(twos(*self as int, 8), 8)
    }

    /// A number too large for the machine word is cut down to it.
    open spec fn parse(data: Seq<u8>) -> Self {
        let low = le_value(data) % word_space();
        if 2 * low < word_space() {
            low as isize
        } else {
            (low - word_space()) as isize
        }
    }

    open spec fn exact(&self) -> bool {
        true
    }

    fn plain_size() -> (n: usize) {
        8
    }

    fn room(size: usize) -> (b: bool) {
        8 <= size
    }

    fn to_image(&self) -> (out: Vec<u8>) {
        proof {
            lemma_pow256_values();
        }
        let u: u128 = if *self >= 0 {
            *self as u128
        } else {
            (*self as i128 + 0x1_0000_0000_0000_0000) as u128
        };
        le_encode(u, 8)
    }

    fn from_image(data: &[u8]) -> (v: Self) {
        let u: u128 = le_decode(data, 8);
        let space: u128 = usize::MAX as u128 + 1;
        let low: u128 = u % space;
        if 2 * low < space {
            low as isize
        } else {
            (low as i128 - space as i128) as isize
        }
    }
}

/// The promises of a plain field hold of `isize`.
pub proof fn lemma_plain_isize()
    ensures
        plain_lawful::<isize>(),
{
    assert forall|v: isize| #[trigger] image_lawful(v) by {
        lemma_pow256_values();
        lemma_twos_round_trip(v as int, 8);
        lemma_le_image_len(twos(v as int, 8), 8);
        lemma_le_value_of_image(twos(v as int, 8), 8);
        let u = twos(v as int, 8);
        if v >= 0 {
            vstd::arithmetic::div_mod::lemma_small_mod(u, word_space());
        } else {
            let low = (v + word_space()) as nat;
            let k: int = if word_space() == 0x1_0000_0000 {
                0xffff_ffff
            } else {
                0
            };
            assert(u == k * word_space() + low);
            vstd::arithmetic::div_mod::lemma_fundamental_div_mod_converse(
                u as int,
                word_space() as int,
                k,
                low as int,
            );
        }
    }
}

impl Plain for bool {
    open spec fn plain_width() -> nat {
        1
    }

    open spec fn image(&self) -> Seq<u8> {
        seq![if *self { 1u8 } else { 0u8 }]
    }

    open spec fn parse(data: Seq<u8>) -> Self {
        data[0] != 0
    }

    open spec fn exact(&self) -> bool {
        true
    }

    fn plain_size() -> (n: usize) {
        1
    }

    fn room(size: usize) -> (b: bool) {
        1 <= size
    }

    fn to_image(&self) -> (out: Vec<u8>) {
        let b: u8 = if *self { 1 } else { 0 };
        let mut out: Vec<u8> = Vec::new();
        out.push(b);
        assert(out@ =~= self.image());
        out
    }

    fn from_image(data: &[u8]) -> (v: Self) {
        data[0] != 0
    }
}

/// The promises of a plain field hold of `bool`.
pub proof fn lemma_plain_bool()
    ensures
        plain_lawful::<bool>(),
{
}

impl Plain for char {
    open spec fn plain_width() -> nat {
        1
    }

    /// The low byte of the code point.
    open spec fn image(&self) -> Seq<u8> {
        seq![((*self as u32) % 256) as u8]
    }

    open spec fn parse(data: Seq<u8>) -> Self {
        data[0] as char
    }

    open spec fn exact(&self) -> bool {
        (*self as u32) < 256
    }

    fn plain_size() -> (n: usize) {
        1
    }

    fn room(size: usize) -> (b: bool) {
        1 <= size
    }

    fn to_image(&self) -> (out: Vec<u8>) {
        let b: u8 = ((*self as u32) % 256) as u8;
        let mut out: Vec<u8> = Vec::new();
        out.push(b);
        assert(out@ =~= self.image());
        out
    }

    fn from_image(data: &[u8]) -> (v: Self) {
        data[0] as char
    }
}

/// The promises of a plain field hold of `char`.
pub proof fn lemma_plain_char()
    ensures
        plain_lawful::<char>(),
{
    assert forall|v: char| #[trigger] image_lawful(v) by {
        if v.exact() {
            let u: u32 = v as u32;
            let b: u8 = (u % 256) as u8;
            assert(b as u32 == u);
            vstd::utf8::char_u32_cast(v, u);
            assert(v.image()[0] == b);
        }
    }
}

/// The images of the values of `vs`, one after the other.
pub open spec fn images<T: Plain>(vs: Seq<T>) -> Seq<u8>
    decreases vs.len(),
{
    if vs.len() == 0 {
        Seq::empty()
    } else {
        images(vs.drop_last()) + vs.last().image()
    }
}

/// The `k`-th stretch of `w` bytes of `data`.
pub open spec fn stretch(data: Seq<u8>, w: nat, k: int) -> Seq<u8> {
    data.subrange(k * w, k * w + w)
}

/// The `n` values whose images stand one after the other in `data`.
pub open spec fn parses<T: Plain>(data: Seq<u8>, n: nat) -> Seq<T> {
    Seq::new(n, |k: int| T::parse(stretch(data, T::plain_width(), k)))
}

/// Whether the image of every value of `vs` tells the value.
pub open spec fn all_exact<T: Plain>(vs: Seq<T>) -> bool {
    forall|k: int| 0 <= k < vs.len() ==> (#[trigger] vs[k]).exact()
}

/// The images of `n` values take `n` times the width of one.
pub proof fn lemma_images_len<T: Plain>(vs: Seq<T>)
    requires
        plain_lawful::<T>(),
    ensures
        images(vs).len() == vs.len() * T::plain_width(),
    decreases vs.len(),
{
    if vs.len() > 0 {
        lemma_images_len(vs.drop_last());
        assert(image_lawful(vs.last()));
        assert((vs.len() - 1) * T::plain_width() + T::plain_width() == vs.len()
            * T::plain_width()) by (nonlinear_arith);
    }
}

/// In the images of some values, the `k`-th stretch is the image of the
/// `k`-th value.
pub proof fn lemma_images_stretch<T: Plain>(vs: Seq<T>, k: int)
    requires
        plain_lawful::<T>(),
        0 <= k < vs.len(),
    ensures
        stretch(images(vs), T::plain_width(), k) == vs[k].image(),
    decreases vs.len(),
{
    let w = T::plain_width();
    let front = vs.drop_last();
    lemma_images_len(front);
    lemma_images_len(vs);
    assert(image_lawful(vs.last()));
    if k == vs.len() - 1 {
        assert(stretch(images(vs), w, k) =~= vs[k].image());
    } else {
        lemma_images_stretch(front, k);
        assert(k * w + w <= front.len() * w) by (nonlinear_arith)
            requires
                0 <= k < front.len(),
        ;
        assert(0 <= k * w) by (nonlinear_arith)
            requires
                0 <= k,
        ;
        assert(stretch(images(vs), w, k) =~= stretch(images(front), w, k));
        assert(front[k] == vs[k]);
    }
}

/// Values whose images tell them are read back from their images.
pub proof fn lemma_parses_images<T: Plain>(vs: Seq<T>)
    requires
        plain_lawful::<T>(),
        all_exact(vs),
    ensures
        parses::<T>(images(vs), vs.len()) == vs,
{
    assert forall|k: int| 0 <= k < vs.len() implies parses::<T>(images(vs), vs.len())[k]
        == vs[k] by {
        lemma_images_stretch(vs, k);
        assert(image_lawful(vs[k]));
    }
    assert(parses::<T>(images(vs), vs.len()) =~= vs);
}

/// Writes the images of the items, one after the other.
pub fn encode_items<T: Plain>(items: &[T]) -> (out: Vec<u8>)
    ensures
        out@ == images(items@),
{
    let mut out: Vec<u8> = Vec::new();
    let n: usize = items.len();
    let mut i: usize = 0;
    while i < n
        invariant
            n == items@.len(),
            i <= n,
            out@ == images(items@.subrange(0, i as int)),
        decreases n - i,
    {
        let mut image = items[i].to_image();
        proof {
            let done = items@.subrange(0, i as int);
            let more = items@.subrange(0, i + 1);
            assert(more.drop_last() =~= done);
            assert(more.last() == items@[i as int]);
        }
        out.append(&mut image);
        i = i + 1;
    }
    assert(items@.subrange(0, n as int) =~= items@);
    out
}

/// Reads `n` values from images that stand one after the other in `data`.
pub fn decode_items<T: Plain>(data: &[u8], n: usize) -> (out: Vec<T>)
    requires
        T::plain_width() <= usize::MAX,
        n * T::plain_width() <= data@.len(),
    ensures
        out@ == parses::<T>(data@, n as nat),
{
    let w: usize = T::plain_size();
    let size: usize = data.len();
    let mut out: Vec<T> = Vec::new();
    let mut k: usize = 0;
    while k < n
        invariant
            w == T::plain_width(),
            n * w <= data@.len(),
            data@.len() == size,
            k <= n,
            out@ == parses::<T>(data@, k as nat),
        decreases n - k,
    {
        proof {
            assert(0 <= k * w && k * w + w <= n * w) by (nonlinear_arith)
                requires
                    0 <= k < n,
                    0 <= w,
            ;
        }
        let at: usize = k * w;
        let piece = vstd::slice::slice_subrange(data, at, at + w);
        let v = T::from_image(piece);
        proof {
            assert(piece@.subrange(0, w as int) =~= stretch(data@, w as nat, k as int));
            assert(parses::<T>(data@, k as nat).push(v) =~= parses::<T>(data@, (k + 1) as nat));
        }
        out.push(v);
        k = k + 1;
    }
    out
}

/// Two plain fields, one after the other: an entry of a key-value payload.
#[derive(Debug, PartialEq, Eq)]
pub struct Pair<K, V> {
    pub key: K,
    pub value: V,
}

impl<K: Copy, V: Copy> Clone for Pair<K, V> {
    fn clone(&self) -> (twin: Self)
        ensures
            twin == *self,
    {
        *self
    }
}

impl<K: Copy, V: Copy> Copy for Pair<K, V> {

}

impl<K: Plain, V: Plain> Plain for Pair<K, V> {
    open spec fn plain_width() -> nat {
        K::plain_width() + V::plain_width()
    }

    /// The image of the key, then the image of the value.
    open spec fn image(&self) -> Seq<u8> {
        self.key.image() + self.value.image()
    }

    open spec fn parse(data: Seq<u8>) -> Self {
        Pair {
            key: K::parse(data.subrange(0, K::plain_width() as int)),
            value: V::parse(
                data.subrange(
                    K::plain_width() as int,
                    (K::plain_width() + V::plain_width()) as int,
                ),
            ),
        }
    }

    open spec fn exact(&self) -> bool {
        self.key.exact() && self.value.exact()
    }

    fn plain_size() -> (n: usize) {
        K::plain_size() + V::plain_size()
    }

    fn room(size: usize) -> (b: bool) {
        if K::room(size) {
            V::room(size - K::plain_size())
        } else {
            false
        }
    }

    fn to_image(&self) -> (out: Vec<u8>) {
        let mut out = self.key.to_image();
        let mut rest = self.value.to_image();
        out.append(&mut rest);
        out
    }

    fn from_image(data: &[u8]) -> (v: Self) {
        let size: usize = data.len();
        let w: usize = K::plain_size();
        let key = K::from_image(data);
        let rest = vstd::slice::slice_subrange(data, w, w + V::plain_size());
        let value = V::from_image(rest);
        proof {
            let whole = data@.subrange(0, Self::plain_width() as int);
            assert(data@.subrange(0, w as int) =~= whole.subrange(0, w as int));
            assert(rest@.subrange(0, V::plain_width() as int) =~= whole.subrange(
                w as int,
                w + V::plain_width(),
            ));
        }
        Pair { key, value }
    }
}

/// The promises of a plain field hold of a pair of plain fields.
pub proof fn lemma_plain_pair<K: Plain, V: Plain>()
    requires
        plain_lawful::<K>(),
        plain_lawful::<V>(),
    ensures
        plain_lawful::<Pair<K, V>>(),
{
    assert forall|v: Pair<K, V>| #[trigger] image_lawful(v) by {
        assert(image_lawful(v.key));
        assert(image_lawful(v.value));
        let w = K::plain_width() as int;
        assert(v.image().subrange(0, w) =~= v.key.image());
        assert(v.image().subrange(w, w + V::plain_width()) =~= v.value.image());
    }
    assert forall|data: Seq<u8>| #[trigger] parse_lawful::<Pair<K, V>>(data) by {
        if data.len() == K::plain_width() + V::plain_width() {
            assert(parse_lawful::<K>(data.subrange(0, K::plain_width() as int)));
            assert(parse_lawful::<V>(
                data.subrange(
                    K::plain_width() as int,
                    (K::plain_width() + V::plain_width()) as int,
                ),
            ));
        }
    }
}

/// An array whose first `k` items are those of `items`.
pub proof fn lemma_array_with<T: Copy, const N: usize>(items: Seq<T>, k: nat) -> (a: [T; N])
    requires
        items.len() == N,
        k <= N,
    ensures
        forall|i: int| 0 <= i < k ==> a@[i] == items[i],
    decreases k,
{
    broadcast use vstd::array::group_array_axioms;

    if k == 0 {
        arbitrary()
    } else {
        let before = lemma_array_with::<T, N>(items, (k - 1) as nat);
        vstd::array::spec_array_update(before, k - 1, items[k - 1])
    }
}

/// The array that holds `items`.
pub open spec fn array_of<T: Copy, const N: usize>(items: Seq<T>) -> [T; N] {
    choose|a: [T; N]| a@ == items
}

/// The array that holds `N` items holds them.
pub proof fn lemma_array_of<T: Copy, const N: usize>(items: Seq<T>)
    requires
        items.len() == N,
    ensures
        array_of::<T, N>(items)@ == items,
{
    broadcast use vstd::array::group_array_axioms;

    let a = lemma_array_with::<T, N>(items, N as nat);
    assert(a@ =~= items);
}

impl<T: Plain + Default, const N: usize> Plain for [T; N] {
    open spec fn plain_width() -> nat {
        (N * T::plain_width()) as nat
    }

    /// The images of the items, one after the other.
    open spec fn image(&self) -> Seq<u8> {
        images(self@)
    }

    open spec fn parse(data: Seq<u8>) -> Self {
        array_of(parses::<T>(data, N as nat))
    }

    open spec fn exact(&self) -> bool {
        all_exact(self@)
    }

    fn plain_size() -> (n: usize) {
        if N == 0 {
            0
        } else {
            proof {
                assert(T::plain_width() <= N * T::plain_width()) by (nonlinear_arith)
                    requires
                        N >= 1,
                ;
            }
            N * T::plain_size()
        }
    }

    fn room(size: usize) -> (b: bool) {
        if N == 0 {
            true
        } else {
            let share: usize = size / N;
            proof {
                let w = T::plain_width();
                assert((w <= share) == (N * w <= size)) by (nonlinear_arith)
                    requires
                        N >= 1,
                        share == (size as int) / (N as int),
                        0 <= w,
                        0 <= size,
                ;
            }
            T::room(share)
        }
    }

    fn to_image(&self) -> (out: Vec<u8>) {
        encode_items(vstd::array::array_as_slice(self))
    }

    fn from_image(data: &[u8]) -> (v: Self) {
        broadcast use vstd::array::group_array_axioms;

        let size: usize = data.len();
        let mut out: [T; N] = vstd::array::array_fill_for_copy_types(T::default());
        if N > 0 {
            proof {
                assert(T::plain_width() <= N * T::plain_width()) by (nonlinear_arith)
                    requires
                        N >= 1,
                ;
            }
            let w: usize = T::plain_size();
            let mut k: usize = 0;
            while k < N
                invariant
                    w == T::plain_width(),
                    N * w <= data@.len(),
                    data@.len() == size,
                    k <= N,
                    forall|i: int| 0 <= i < k ==> out@[i] == parses::<T>(data@, N as nat)[i],
                decreases N - k,
            {
                proof {
                    assert(0 <= k * w && k * w + w <= N * w) by (nonlinear_arith)
                        requires
                            0 <= k < N,
                            0 <= w,
                    ;
                }
                let at: usize = k * w;
                let piece = vstd::slice::slice_subrange(data, at, at + w);
                let item = T::from_image(piece);
                proof {
                    assert(piece@.subrange(0, w as int) =~= stretch(data@, w as nat, k as int));
                }
                out[k] = item;
                k = k + 1;
            }
        }
        proof {
            let whole = data@.subrange(0, Self::plain_width() as int);
            let items = parses::<T>(whole, N as nat);
            assert forall|i: int| 0 <= i < N implies out@[i] == items[i] by {
                let w = T::plain_width();
                assert(0 <= i * w && i * w + w <= N * w) by (nonlinear_arith)
                    requires
                        0 <= i < N,
                        0 <= w,
                ;
                assert(stretch(whole, w, i) =~= stretch(data@, w, i));
            }
            assert(out@ =~= items);
            lemma_array_of::<T, N>(items);
        }
        out
    }
}

/// The promises of a plain field hold of an array of plain fields.
pub proof fn lemma_plain_array<T: Plain + Default, const N: usize>()
    requires
        plain_lawful::<T>(),
    ensures
        plain_lawful::<[T; N]>(),
{
    broadcast use vstd::array::group_array_axioms;

    assert forall|v: [T; N]| #[trigger] image_lawful(v) by {
        lemma_images_len(v@);
        if v.exact() {
            lemma_parses_images(v@);
            lemma_array_of::<T, N>(v@);
            assert(<[T; N]>::parse(v.image())@ =~= v@);
            assert(<[T; N]>::parse(v.image()) =~= v);
        }
    }
    assert forall|data: Seq<u8>| #[trigger] parse_lawful::<[T; N]>(data) by {
        let items = parses::<T>(data, N as nat);
        lemma_array_of::<T, N>(items);
        if data.len() == N * T::plain_width() {
            assert forall|k: int| 0 <= k < items.len() implies (#[trigger] items[k]).exact() by {
                let w = T::plain_width();
                assert(0 <= k * w && k * w + w <= N * w) by (nonlinear_arith)
                    requires
                        0 <= k < N,
                        0 <= w,
                ;
                assert(parse_lawful::<T>(stretch(data, w, k)));
            }
        }
    }
    assert forall|a: [T; N], b: [T; N]| #[trigger] copy_lawful(a, b) by {
        if cloned(a, b) {
            assert forall|i: int| 0 <= i < N implies a@[i] == b@[i] by {
                assert(copy_lawful(a@[i], b@[i]));
            }
            assert(a =~= b);
        }
    }
}

} // verus!
