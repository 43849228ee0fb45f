//! Little-endian images of natural numbers, and two's complement.
//!
//! The image of `v` in `w` bytes lists the digits of `v` in base 256, least
//! significant first. Signed integers are stored in two's complement: a
//! negative `v` of `w` bytes is stored as `v + 256^w`.
use vstd::prelude::*;

verus! {

/// 256 to the power `w`: the number of values that `w` bytes can tell apart.
pub open spec fn pow256(w: nat) -> nat
    decreases w,
{
    if w == 0 {
        1
    } else {
        256 * pow256((w - 1) as nat)
    }
}

/// The `w` low-order bytes of `v`, least significant first.
pub open spec fn le_image(v: nat, w: nat) -> Seq<u8>
    decreases w,
{
    if w == 0 {
        Seq::empty()
    } else {
        seq![(v % 256) as u8] + le_image(v / 256, (w - 1) as nat)
    }
}

/// The number whose little-endian image is `bytes`.
pub open spec fn le_value(bytes: Seq<u8>) -> nat
    decreases bytes.len(),
{
    if bytes.len() == 0 {
        0
    } else {
        bytes[0] as nat + 256 * le_value(bytes.drop_first())
    }
}

/// The natural number that stands for `v` in two's complement of `w` bytes.
pub open spec fn twos(v: int, w: nat) -> nat {
    if v >= 0 {
        v as nat
    } else {
        (v + pow256(w)) as nat
    }
}

/// The signed integer that `u` stands for in two's complement of `w` bytes.
pub open spec fn untwos(u: nat, w: nat) -> int {
    if 2 * u < pow256(w) {
        u as int
    } else {
        u - pow256(w)
    }
}

/// The powers of 256 at the widths of the integer types.
pub proof fn lemma_pow256_values()
    ensures
        pow256(0) == 1,
        pow256(1) == 0x100,
        pow256(2) == 0x1_0000,
        pow256(4) == 0x1_0000_0000,
        pow256(8) == 0x1_0000_0000_0000_0000,
        pow256(16) == 0x1_0000_0000_0000_0000_0000_0000_0000_0000,
{
    assert(pow256(1) == 256 * pow256(0));
    assert(pow256(2) == 256 * pow256(1));
    assert(pow256(3) == 256 * pow256(2));
    assert(pow256(4) == 256 * pow256(3));
    assert(pow256(5) == 256 * pow256(4));
    assert(pow256(6) == 256 * pow256(5));
    assert(pow256(7) == 256 * pow256(6));
    assert(pow256(8) == 256 * pow256(7));
    assert(pow256(9) == 256 * pow256(8));
    assert(pow256(10) == 256 * pow256(9));
    assert(pow256(11) == 256 * pow256(10));
    assert(pow256(12) == 256 * pow256(11));
    assert(pow256(13) == 256 * pow256(12));
    assert(pow256(14) == 256 * pow256(13));
    assert(pow256(15) == 256 * pow256(14));
    assert(pow256(16) == 256 * pow256(15));
}

/// A power of 256 is positive and grows with the exponent.
pub proof fn lemma_pow256_grows(a: nat, b: nat)
    requires
        a <= b,
    ensures
        0 < pow256(a) <= pow256(b),
    decreases b,
{
    if b == 0 {
    } else if a == b {
        lemma_pow256_grows((a - 1) as nat, (b - 1) as nat);
    } else {
        lemma_pow256_grows(a, (b - 1) as nat);
    }
}

/// An image of `w` bytes has `w` bytes.
pub proof fn lemma_le_image_len(v: nat, w: nat)
    ensures
        le_image(v, w).len() == w,
    decreases w,
{
    if w > 0 {
        lemma_le_image_len(v / 256, (w - 1) as nat);
    }
}

/// The value of `w` bytes is below `256^w`.
pub proof fn lemma_le_value_bound(bytes: Seq<u8>)
    ensures
        le_value(bytes) < pow256(bytes.len()),
    decreases bytes.len(),
{
    if bytes.len() > 0 {
        lemma_le_value_bound(bytes.drop_first());
    }
}

/// Reading back the image of a number that fits gives the number.
pub proof fn lemma_le_value_of_image(v: nat, w: nat)
    requires
        v < pow256(w),
    ensures
        le_value(le_image(v, w)) == v,
    decreases w,
{
    if w > 0 {
        let rest = le_image(v / 256, (w - 1) as nat);
        let img = le_image(v, w);
        lemma_le_image_len(v / 256, (w - 1) as nat);
        assert(img.drop_first() =~= rest);
        lemma_le_value_of_image(v / 256, (w - 1) as nat);
    }
}

/// Writing the value of some bytes in as many bytes gives the bytes back.
pub proof fn lemma_le_image_of_value(bytes: Seq<u8>)
    ensures
        le_image(le_value(bytes), bytes.len()) == bytes,
    decreases bytes.len(),
{
    if bytes.len() > 0 {
        let rest = bytes.drop_first();
        lemma_le_image_of_value(rest);
        let v = le_value(bytes);
        assert(v % 256 == bytes[0] as nat);
        assert(v / 256 == le_value(rest));
        assert(le_image(v, bytes.len()) =~= bytes);
    }
}

/// Two's complement and its inverse cancel on the values of `w` bytes.
pub proof fn lemma_twos_round_trip(v: int, w: nat)
    requires
        w > 0,
        -(pow256(w) as int) <= 2 * v < pow256(w),
    ensures
        twos(v, w) < pow256(w),
        untwos(twos(v, w), w) == v,
{
}

/// The `w` low-order bytes of `v`, least significant first.
pub fn le_encode(v: u128, w: usize) -> (out: Vec<u8>)
    ensures
        out@ == le_image(v as nat, w as nat),
{
    let mut out: Vec<u8> = Vec::new();
    let mut rest: u128 = v;
    let mut i: usize = 0;
    while i < w
        invariant
            i <= w,
            out@ + le_image(rest as nat, (w - i) as nat) == le_image(v as nat, w as nat),
        decreases w - i,
    {
        let b: u8 = (rest % 256) as u8;
        proof {
            let tail = le_image((rest / 256) as nat, (w - i - 1) as nat);
            assert(le_image(rest as nat, (w - i) as nat) == seq![b] + tail);
            assert(out@.push(b) + tail =~= out@ + (seq![b] + tail));
        }
        out.push(b);
        rest = rest / 256;
        i += 1;
    }
    assert(out@ + Seq::<u8>::empty() =~= out@);
    out
}

/// The number whose little-endian image is the first `w` bytes of `data`.
pub fn le_decode(data: &[u8], w: usize) -> (v: u128)
    requires
        w <= 16,
        w <= data@.len(),
    ensures
        v == le_value(data@.subrange(0, w as int)),
{
    let mut acc: u128 = 0;
    let mut i: usize = w;
    while i > 0
        invariant
            i <= w <= 16,
            w <= data@.len(),
            acc == le_value(data@.subrange(i as int, w as int)),
        decreases i,
    {
        let b: u8 = data[i - 1];
        proof {
            let s = data@.subrange(i - 1, w as int);
            let t = data@.subrange(i as int, w as int);
            assert(s.drop_first() =~= t);
            assert(s[0] == b);
            lemma_le_value_bound(t);
            lemma_le_value_bound(s);
            lemma_pow256_grows(s.len(), 16);
            lemma_pow256_values();
        }
        acc = acc * 256 + b as u128;
        i -= 1;
    }
    acc
}

} // verus!
