//! Big-endian byte encoding of unsigned integer values.
//!
//! The store's fixed-width codec writes an integer as its big-endian bytes,
//! exactly as many bytes as the type is wide. These functions carry the
//! shared arithmetic: turning a value into bytes and bytes back into a value.
#![allow(unused_imports)]
use vstd::arithmetic::div_mod::{lemma_fundamental_div_mod, lemma_mod_bound, lemma_multiply_divide_lt};
use vstd::arithmetic::mul::lemma_mul_inequality;
use vstd::prelude::*;

verus! {

/// 256 to the power `w`: one more than the largest value `w` bytes can hold.
pub open spec fn pow256(w: nat) -> nat
    decreases w,
{
    if w == 0 {
        1
    } else {
        256 * pow256((w - 1) as nat)
    }
}

/// The `width` big-endian bytes of `v`, most significant byte first.
pub open spec fn be_bytes_of(v: nat, width: nat) -> Seq<u8>
    decreases width,
{
    if width == 0 {
        Seq::empty()
    } else {
        be_bytes_of(v / 256, (width - 1) as nat).push((v % 256) as u8)
    }
}

/// The value of a big-endian byte string.
pub open spec fn be_value_of(bytes: Seq<u8>) -> nat
    decreases bytes.len(),
{
    if bytes.len() == 0 {
        0
    } else {
        be_value_of(bytes.drop_last()) * 256 + (bytes.last() as nat)
    }
}

/// `pow256` at the widths the codec uses.
pub proof fn lemma_pow256_values()
    ensures
        pow256(1) == 0x100,
        pow256(2) == 0x1_0000,
        pow256(4) == 0x1_0000_0000,
        pow256(8) == 0x1_0000_0000_0000_0000,
        pow256(16) == 0x1_0000_0000_0000_0000_0000_0000_0000_0000,
{
    assert(pow256(0) == 1);
    assert(pow256(1) == 0x100);
    assert(pow256(2) == 0x1_0000);
    assert(pow256(3) == 0x100_0000);
    assert(pow256(4) == 0x1_0000_0000);
    assert(pow256(5) == 0x100_0000_0000);
    assert(pow256(6) == 0x1_0000_0000_0000);
    assert(pow256(7) == 0x100_0000_0000_0000);
    assert(pow256(8) == 0x1_0000_0000_0000_0000);
    assert(pow256(9) == 0x100_0000_0000_0000_0000);
    assert(pow256(10) == 0x1_0000_0000_0000_0000_0000);
    assert(pow256(11) == 0x100_0000_0000_0000_0000_0000);
    assert(pow256(12) == 0x1_0000_0000_0000_0000_0000_0000);
    assert(pow256(13) == 0x100_0000_0000_0000_0000_0000_0000);
    assert(pow256(14) == 0x1_0000_0000_0000_0000_0000_0000_0000);
    assert(pow256(15) == 0x100_0000_0000_0000_0000_0000_0000_0000);
    assert(pow256(16) == 0x1_0000_0000_0000_0000_0000_0000_0000_0000);
}

pub proof fn lemma_pow256_pos(w: nat)
    ensures
        pow256(w) >= 1,
    decreases w,
{
    if w > 0 {
        lemma_pow256_pos((w - 1) as nat);
    }
}

pub proof fn lemma_pow256_mono(a: nat, b: nat)
    requires
        a <= b,
    ensures
        pow256(a) <= pow256(b),
    decreases b,
{
    if a < b {
        lemma_pow256_mono(a, (b - 1) as nat);
        lemma_pow256_pos((b - 1) as nat);
    }
}

/// An encoding is exactly as long as the requested width.
pub proof fn lemma_be_bytes_len(v: nat, width: nat)
    ensures
        be_bytes_of(v, width).len() == width,
    decreases width,
{
    if width > 0 {
        lemma_be_bytes_len(v / 256, (width - 1) as nat);
    }
}

/// Reading back the big-endian bytes of a value small enough for the width
/// yields the value again.
pub proof fn lemma_be_round_trip(v: nat, width: nat)
    requires
        v < pow256(width),
    ensures
        be_value_of(be_bytes_of(v, width)) == v,
    decreases width,
{
    if width == 0 {
        assert(v == 0);
    } else {
        let rest = be_bytes_of(v / 256, (width - 1) as nat);
        lemma_be_bytes_len(v / 256, (width - 1) as nat);
        assert(rest.push((v % 256) as u8).drop_last() =~= rest);
        lemma_multiply_divide_lt(v as int, pow256((width - 1) as nat) as int, 256);
        lemma_be_round_trip(v / 256, (width - 1) as nat);
        lemma_mod_bound(v as int, 256);
        lemma_fundamental_div_mod(v as int, 256);
    }
}

/// The value of a byte string fits in its own width.
pub proof fn lemma_be_value_bound(bytes: Seq<u8>)
    ensures
        be_value_of(bytes) < pow256(bytes.len()),
    decreases bytes.len(),
{
    if bytes.len() > 0 {
        let rest = bytes.drop_last();
        lemma_be_value_bound(rest);
        lemma_mul_inequality(
            be_value_of(rest) as int,
            pow256(rest.len()) as int - 1,
            256,
        );
    }
}

/// Write `v` as `width` big-endian bytes.
pub fn be_encode(v: u128, width: usize) -> (out: Vec<u8>)
    requires
        (v as nat) < pow256(width as nat),
    ensures
        out@ == be_bytes_of(v as nat, width as nat),
    decreases width,
{
    if width == 0 {
        Vec::new()
    } else {
        proof {
            lemma_multiply_divide_lt(v as int, pow256((width - 1) as nat) as int, 256);
            lemma_mod_bound(v as int, 256);
        }
        let mut out = be_encode(v / 256, width - 1);
        out.push((v % 256) as u8);
        out
    }
}

/// Read the first `width` bytes of `bytes` as a big-endian value.
pub fn be_decode(bytes: &[u8], width: usize) -> (r: u128)
    requires
        width <= 16,
        width as nat <= bytes@.len(),
    ensures
        r as nat == be_value_of(bytes@.take(width as int)),
{
    let mut r: u128 = 0;
    let mut i: usize = 0;
    proof {
        assert(bytes@.take(0) =~= Seq::<u8>::empty());
    }
    while i < width
        invariant
            i <= width,
            width <= 16,
            width as nat <= bytes@.len(),
            r as nat == be_value_of(bytes@.take(i as int)),
            (r as nat) < pow256(i as nat),
        decreases width - i,
    {
        let b = *vstd::slice::slice_index_get(bytes, i);
        proof {
            let prefix = bytes@.take(i as int + 1);
            assert(prefix.drop_last() =~= bytes@.take(i as int));
            assert(prefix.last() == bytes@[i as int]);
            lemma_mul_inequality(r as int, pow256(i as nat) as int - 1, 256);
            lemma_pow256_mono((i + 1) as nat, 16);
            lemma_pow256_values();
        }
        r = r * 256 + (b as u128);
        i = i + 1;
    }
    r
}

} // verus!
