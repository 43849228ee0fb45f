//! How keys compare.
//!
//! A key type says for any two of its values whether the first comes
//! before the second, after it, or is equal to it; or that the two cannot be
//! compared. The sorted index rests on the order being lawful: equal keys
//! compare alike with every third, and "before" is transitive and turns into
//! "after" when the two change places.
use crate::plain::Plain;
use vstd::prelude::*;

verus! {

/// How one value stands to another.
#[derive(Clone, Copy, Debug, PartialEq, Eq, Structural)]
pub enum Order {
    Less,
    Equal,
    Greater,
}

/// How one integer stands to another.
pub open spec fn rank_of(a: int, b: int) -> Order {
    if a < b {
        Order::Less
    } else if a == b {
        Order::Equal
    } else {
        Order::Greater
    }
}

/// How a comparison reads when the two change places.
pub open spec fn turned(o: Option<Order>) -> Option<Order> {
    match o {
        Some(Order::Less) => Some(Order::Greater),
        Some(Order::Equal) => Some(Order::Equal),
        Some(Order::Greater) => Some(Order::Less),
        None => None,
    }
}

/// A plain field that can serve as a key.
///
/// The function of the model says what the type promises; a type that
/// leaves it as it is promises nothing. What a lawful type promises is
/// [`rank_lawful`].
pub trait Ranked: Plain {
    /// How `a` stands to `b`; `None` where the two cannot be compared.
    open spec fn rank(a: Self, b: Self) -> Option<Order> {
        arbitrary()
    }

    /// Compares this key with another.
    fn compare(&self, other: &Self) -> (o: Option<Order>)
        ensures
            o == Self::rank(*self, *other),
    ;
}

/// What the order promises of two keys: changing their places turns the
/// comparison round.
pub open spec fn turn_lawful<K: Ranked>(a: K, b: K) -> bool {
    K::rank(b, a) == turned(K::rank(a, b))
}

/// What the order promises of three keys: a key equal to the first
/// compares with the third as the first does, and a key before one that is
/// before the third is before the third.
pub open spec fn chain_lawful<K: Ranked>(a: K, b: K, c: K) -> bool {
    &&& K::rank(a, b) == Some(Order::Equal) ==> K::rank(a, c) == K::rank(b, c)
    &&& K::rank(a, b) == Some(Order::Less) && K::rank(b, c) == Some(Order::Less) ==> K::rank(a, c)
        == Some(Order::Less)
}

/// What a key type promises of its order.
pub open spec fn rank_lawful<K: Ranked>() -> bool {
    &&& forall|a: K, b: K| #[trigger] turn_lawful(a, b)
    &&& forall|a: K, b: K, c: K| #[trigger] chain_lawful(a, b, c)
}

impl Ranked for u8 {
    open spec fn rank(a: u8, b: u8) -> Option<Order> {
        Some(rank_of(a as int, b as int))
    }

    fn compare(&self, other: &Self) -> (o: Option<Order>) {
        if *self < *other {
            Some(Order::Less)
        } else if *self == *other {
            Some(Order::Equal)
        } else {
            Some(Order::Greater)
        }
    }
}

/// The order of `u8` is lawful.
pub proof fn lemma_ranked_u8()
    ensures
        rank_lawful::<u8>(),
{
}

impl Ranked for u16 {
    open spec fn rank(a: u16, b: u16) -> Option<Order> {
        Some(rank_of(a as int, b as int))
    }

    fn compare(&self, other: &Self) -> (o: Option<Order>) {
        if *self < *other {
            Some(Order::Less)
        } else if *self == *other {
            Some(Order::Equal)
        } else {
            Some(Order::Greater)
        }
    }
}

/// The order of `u16` is lawful.
pub proof fn lemma_ranked_u16()
    ensures
        rank_lawful::<u16>(),
{
}

impl Ranked for u32 {
    open spec fn rank(a: u32, b: u32) -> Option<Order> {
        Some(rank_of(a as int, b as int))
    }

    fn compare(&self, other: &Self) -> (o: Option<Order>) {
        if *self < *other {
            Some(Order::Less)
        } else if *self == *other {
            Some(Order::Equal)
        } else {
            Some(Order::Greater)
        }
    }
}

/// The order of `u32` is lawful.
pub proof fn lemma_ranked_u32()
    ensures
        rank_lawful::<u32>(),
{
}

impl Ranked for u64 {
    open spec fn rank(a: u64, b: u64) -> Option<Order> {
        Some(rank_of(a as int, b as int))
    }

    fn compare(&self, other: &Self) -> (o: Option<Order>) {
        if *self < *other {
            Some(Order::Less)
        } else if *self == *other {
            Some(Order::Equal)
        } else {
            Some(Order::Greater)
        }
    }
}

/// The order of `u64` is lawful.
pub proof fn lemma_ranked_u64()
    ensures
        rank_lawful::<u64>(),
{
}

impl Ranked for u128 {
    open spec fn rank(a: u128, b: u128) -> Option<Order> {
        Some(rank_of(a as int, b as int))
    }

    fn compare(&self, other: &Self) -> (o: Option<Order>) {
        if *self < *other {
            Some(Order::Less)
        } else if *self == *other {
            Some(Order::Equal)
        } else {
            Some(Order::Greater)
        }
    }
}

/// The order of `u128` is lawful.
pub proof fn lemma_ranked_u128()
    ensures
        rank_lawful::<u128>(),
{
}

impl Ranked for usize {
    open spec fn rank(a: usize, b: usize) -> Option<Order> {
        Some(rank_of(a as int, b as int))
    }

    fn compare(&self, other: &Self) -> (o: Option<Order>) {
        if *self < *other {
            Some(Order::Less)
        } else if *self == *other {
            Some(Order::Equal)
        } else {
            Some(Order::Greater)
        }
    }
}

/// The order of `usize` is lawful.
pub proof fn lemma_ranked_usize()
    ensures
        rank_lawful::<usize>(),
{
}

impl Ranked for i8 {
    open spec fn rank(a: i8, b: i8) -> Option<Order> {
        Some(rank_of(a as int, b as int))
    }

    fn compare(&self, other: &Self) -> (o: Option<Order>) {
        if *self < *other {
            Some(Order::Less)
        } else if *self == *other {
            Some(Order::Equal)
        } else {
            Some(Order::Greater)
        }
    }
}

/// The order of `i8` is lawful.
pub proof fn lemma_ranked_i8()
    ensures
        rank_lawful::<i8>(),
{
}

impl Ranked for i16 {
    open spec fn rank(a: i16, b: i16) -> Option<Order> {
        Some(rank_of(a as int, b as int))
    }

    fn compare(&self, other: &Self) -> (o: Option<Order>) {
        if *self < *other {
            Some(Order::Less)
        } else if *self == *other {
            Some(Order::Equal)
        } else {
            Some(Order::Greater)
        }
    }
}

/// The order of `i16` is lawful.
pub proof fn lemma_ranked_i16()
    ensures
        rank_lawful::<i16>(),
{
}

impl Ranked for i32 {
    open spec fn rank(a: i32, b: i32) -> Option<Order> {
        Some(rank_of(a as int, b as int))
    }

    fn compare(&self, other: &Self) -> (o: Option<Order>) {
        if *self < *other {
            Some(Order::Less)
        } else if *self == *other {
            Some(Order::Equal)
        } else {
            Some(Order::Greater)
        }
    }
}

/// The order of `i32` is lawful.
pub proof fn lemma_ranked_i32()
    ensures
        rank_lawful::<i32>(),
{
}

impl Ranked for i64 {
    open spec fn rank(a: i64, b: i64) -> Option<Order> {
        Some(rank_of(a as int, b as int))
    }

    fn compare(&self, other: &Self) -> (o: Option<Order>) {
        if *self < *other {
            Some(Order::Less)
        } else if *self == *other {
            Some(Order::Equal)
        } else {
            Some(Order::Greater)
        }
    }
}

/// The order of `i64` is lawful.
pub proof fn lemma_ranked_i64()
    ensures
        rank_lawful::<i64>(),
{
}

impl Ranked for i128 {
    open spec fn rank(a: i128, b: i128) -> Option<Order> {
        Some(rank_of(a as int, b as int))
    }

    fn compare(&self, other: &Self) -> (o: Option<Order>) {
        if *self < *other {
            Some(Order::Less)
        } else if *self == *other {
            Some(Order::Equal)
        } else {
            Some(Order::Greater)
        }
    }
}

/// The order of `i128` is lawful.
pub proof fn lemma_ranked_i128()
    ensures
        rank_lawful::<i128>(),
{
}

impl Ranked for isize {
    open spec fn rank(a: isize, b: isize) -> Option<Order> {
        Some(rank_of(a as int, b as int))
    }

    fn compare(&self, other: &Self) -> (o: Option<Order>) {
        if *self < *other {
            Some(Order::Less)
        } else if *self == *other {
            Some(Order::Equal)
        } else {
            Some(Order::Greater)
        }
    }
}

/// The order of `isize` is lawful.
pub proof fn lemma_ranked_isize()
    ensures
        rank_lawful::<isize>(),
{
}

} // verus!
