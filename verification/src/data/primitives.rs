//! The fixed-width integer codec: each integer type is stored as its
//! big-endian bytes, exactly as many bytes as the type is wide. Decoding
//! reads the first bytes of the buffer and fails when the buffer is shorter
//! than the type's width; extra trailing bytes are ignored.
#![allow(unused_imports)]
use crate::data::big_endian::{
    be_bytes_of, be_decode, be_encode, be_value_of, lemma_be_bytes_len, lemma_be_round_trip,
    lemma_be_value_bound, lemma_pow256_values, pow256,
};
use crate::data::{Data, DataBytes};
use vstd::prelude::*;

verus! {

/// The error a fixed-width decode reports: the buffer held fewer bytes than
/// the type needs. The payload is the width the type expected.
#[derive(Clone, Copy, Debug, PartialEq, Eq, Structural)]
pub enum PrimitiveCastError {
    NotEnoughData(usize),
}

/// Read the first `width` bytes of `data` as a big-endian value, or report
/// how many bytes would have been needed.
pub fn integer_cast(data: &DataBytes, width: usize) -> (r: Result<u128, PrimitiveCastError>)
    requires
        1 <= width <= 16,
    ensures
        data@.len() >= width ==> (r matches Ok(v) && v as nat == be_value_of(
            data@.take(width as int),
        )),
        data@.len() < width ==> (r matches Err(e) && e == PrimitiveCastError::NotEnoughData(
            width,
        )),
{
    let s = data.as_slice();
    if s.len() < width {
        Err(PrimitiveCastError::NotEnoughData(width))
    } else {
        Ok(be_decode(s, width))
    }
}

impl Data for u8 {
    type Error = PrimitiveCastError;

    open spec fn encoded(&self) -> Seq<u8> {
        be_bytes_of(*self as nat, 1)
    }

    open spec fn decodable(bytes: Seq<u8>) -> bool {
        bytes.len() >= 1
    }

    open spec fn decoded(bytes: Seq<u8>) -> u8 {
        be_value_of(bytes.take(1)) as u8
    }

    open spec fn decode_err(bytes: Seq<u8>) -> PrimitiveCastError {
        PrimitiveCastError::NotEnoughData(1)
    }

    proof fn lemma_round_trip(&self) {
        lemma_pow256_values();
        lemma_be_bytes_len(*self as nat, 1);
        assert(self.encoded().take(1) =~= self.encoded());
        lemma_be_round_trip(*self as nat, 1);
    }

    fn into_data(self) -> (d: DataBytes) {
        proof {
            lemma_pow256_values();
        }
        DataBytes::new(be_encode(self as u128, 1))
    }

    fn from_data(data: DataBytes) -> (r: Result<Self, PrimitiveCastError>) {
        match integer_cast(&data, 1) {
            Ok(v) => {
                proof {
                    lemma_be_value_bound(data@.take(1));
                    lemma_pow256_values();
                }
                Ok(v as u8)
            },
            Err(e) => Err(e),
        }
    }
}

impl Data for u16 {
    type Error = PrimitiveCastError;

    open spec fn encoded(&self) -> Seq<u8> {
        be_bytes_of(*self as nat, 2)
    }

    open spec fn decodable(bytes: Seq<u8>) -> bool {
        bytes.len() >= 2
    }

    open spec fn decoded(bytes: Seq<u8>) -> u16 {
        be_value_of(bytes.take(2)) as u16
    }

    open spec fn decode_err(bytes: Seq<u8>) -> PrimitiveCastError {
        PrimitiveCastError::NotEnoughData(2)
    }

    proof fn lemma_round_trip(&self) {
        lemma_pow256_values();
        lemma_be_bytes_len(*self as nat, 2);
        assert(self.encoded().take(2) =~= self.encoded());
        lemma_be_round_trip(*self as nat, 2);
    }

    fn into_data(self) -> (d: DataBytes) {
        proof {
            lemma_pow256_values();
        }
        DataBytes::new(be_encode(self as u128, 2))
    }

    fn from_data(data: DataBytes) -> (r: Result<Self, PrimitiveCastError>) {
        match integer_cast(&data, 2) {
            Ok(v) => {
                proof {
                    lemma_be_value_bound(data@.take(2));
                    lemma_pow256_values();
                }
                Ok(v as u16)
            },
            Err(e) => Err(e),
        }
    }
}

impl Data for u32 {
    type Error = PrimitiveCastError;

    open spec fn encoded(&self) -> Seq<u8> {
        be_bytes_of(*self as nat, 4)
    }

    open spec fn decodable(bytes: Seq<u8>) -> bool {
        bytes.len() >= 4
    }

    open spec fn decoded(bytes: Seq<u8>) -> u32 {
        be_value_of(bytes.take(4)) as u32
    }

    open spec fn decode_err(bytes: Seq<u8>) -> PrimitiveCastError {
        PrimitiveCastError::NotEnoughData(4)
    }

    proof fn lemma_round_trip(&self) {
        lemma_pow256_values();
        lemma_be_bytes_len(*self as nat, 4);
        assert(self.encoded().take(4) =~= self.encoded());
        lemma_be_round_trip(*self as nat, 4);
    }

    fn into_data(self) -> (d: DataBytes) {
        proof {
            lemma_pow256_values();
        }
        DataBytes::new(be_encode(self as u128, 4))
    }

    fn from_data(data: DataBytes) -> (r: Result<Self, PrimitiveCastError>) {
        match integer_cast(&data, 4) {
            Ok(v) => {
                proof {
                    lemma_be_value_bound(data@.take(4));
                    lemma_pow256_values();
                }
                Ok(v as u32)
            },
            Err(e) => Err(e),
        }
    }
}

impl Data for u64 {
    type Error = PrimitiveCastError;

    open spec fn encoded(&self) -> Seq<u8> {
        be_bytes_of(*self as nat, 8)
    }

    open spec fn decodable(bytes: Seq<u8>) -> bool {
        bytes.len() >= 8
    }

    open spec fn decoded(bytes: Seq<u8>) -> u64 {
        be_value_of(bytes.take(8)) as u64
    }

    open spec fn decode_err(bytes: Seq<u8>) -> PrimitiveCastError {
        PrimitiveCastError::NotEnoughData(8)
    }

    proof fn lemma_round_trip(&self) {
        lemma_pow256_values();
        lemma_be_bytes_len(*self as nat, 8);
        assert(self.encoded().take(8) =~= self.encoded());
        lemma_be_round_trip(*self as nat, 8);
    }

    fn into_data(self) -> (d: DataBytes) {
        proof {
            lemma_pow256_values();
        }
        DataBytes::new(be_encode(self as u128, 8))
    }

    fn from_data(data: DataBytes) -> (r: Result<Self, PrimitiveCastError>) {
        match integer_cast(&data, 8) {
            Ok(v) => {
                proof {
                    lemma_be_value_bound(data@.take(8));
                    lemma_pow256_values();
                }
                Ok(v as u64)
            },
            Err(e) => Err(e),
        }
    }
}

impl Data for u128 {
    type Error = PrimitiveCastError;

    open spec fn encoded(&self) -> Seq<u8> {
        be_bytes_of(*self as nat, 16)
    }

    open spec fn decodable(bytes: Seq<u8>) -> bool {
        bytes.len() >= 16
    }

    open spec fn decoded(bytes: Seq<u8>) -> u128 {
        be_value_of(bytes.take(16)) as u128
    }

    open spec fn decode_err(bytes: Seq<u8>) -> PrimitiveCastError {
        PrimitiveCastError::NotEnoughData(16)
    }

    proof fn lemma_round_trip(&self) {
        lemma_pow256_values();
        lemma_be_bytes_len(*self as nat, 16);
        assert(self.encoded().take(16) =~= self.encoded());
        lemma_be_round_trip(*self as nat, 16);
    }

    fn into_data(self) -> (d: DataBytes) {
        proof {
            lemma_pow256_values();
        }
        DataBytes::new(be_encode(self as u128, 16))
    }

    fn from_data(data: DataBytes) -> (r: Result<Self, PrimitiveCastError>) {
        match integer_cast(&data, 16) {
            Ok(v) => {
                proof {
                    lemma_be_value_bound(data@.take(16));
                    lemma_pow256_values();
                }
                Ok(v as u128)
            },
            Err(e) => Err(e),
        }
    }
}

impl Data for i8 {
    type Error = PrimitiveCastError;

    open spec fn encoded(&self) -> Seq<u8> {
        be_bytes_of((*self as u8) as nat, 1)
    }

    open spec fn decodable(bytes: Seq<u8>) -> bool {
        bytes.len() >= 1
    }

    open spec fn decoded(bytes: Seq<u8>) -> i8 {
        (be_value_of(bytes.take(1)) as u8) as i8
    }

    open spec fn decode_err(bytes: Seq<u8>) -> PrimitiveCastError {
        PrimitiveCastError::NotEnoughData(1)
    }

    proof fn lemma_round_trip(&self) {
        lemma_pow256_values();
        lemma_be_bytes_len((*self as u8) as nat, 1);
        assert(self.encoded().take(1) =~= self.encoded());
        lemma_be_round_trip((*self as u8) as nat, 1);
        let x: i8 = *self;
        assert(((x as u8) as i8) == x) by (bit_vector);
    }

    fn into_data(self) -> (d: DataBytes) {
        proof {
            lemma_pow256_values();
        }
        DataBytes::new(be_encode((self as u8) as u128, 1))
    }

    fn from_data(data: DataBytes) -> (r: Result<Self, PrimitiveCastError>) {
        match integer_cast(&data, 1) {
            Ok(v) => {
                proof {
                    lemma_be_value_bound(data@.take(1));
                    lemma_pow256_values();
                }
                Ok((v as u8) as i8)
            },
            Err(e) => Err(e),
        }
    }
}

impl Data for i16 {
    type Error = PrimitiveCastError;

    open spec fn encoded(&self) -> Seq<u8> {
        be_bytes_of((*self as u16) as nat, 2)
    }

    open spec fn decodable(bytes: Seq<u8>) -> bool {
        bytes.len() >= 2
    }

    open spec fn decoded(bytes: Seq<u8>) -> i16 {
        (be_value_of(bytes.take(2)) as u16) as i16
    }

    open spec fn decode_err(bytes: Seq<u8>) -> PrimitiveCastError {
        PrimitiveCastError::NotEnoughData(2)
    }

    proof fn lemma_round_trip(&self) {
        lemma_pow256_values();
        lemma_be_bytes_len((*self as u16) as nat, 2);
        assert(self.encoded().take(2) =~= self.encoded());
        lemma_be_round_trip((*self as u16) as nat, 2);
        let x: i16 = *self;
        assert(((x as u16) as i16) == x) by (bit_vector);
    }

    fn into_data(self) -> (d: DataBytes) {
        proof {
            lemma_pow256_values();
        }
        DataBytes::new(be_encode((self as u16) as u128, 2))
    }

    fn from_data(data: DataBytes) -> (r: Result<Self, PrimitiveCastError>) {
        match integer_cast(&data, 2) {
            Ok(v) => {
                proof {
                    lemma_be_value_bound(data@.take(2));
                    lemma_pow256_values();
                }
                Ok((v as u16) as i16)
            },
            Err(e) => Err(e),
        }
    }
}

impl Data for i32 {
    type Error = PrimitiveCastError;

    open spec fn encoded(&self) -> Seq<u8> {
        be_bytes_of((*self as u32) as nat, 4)
    }

    open spec fn decodable(bytes: Seq<u8>) -> bool {
        bytes.len() >= 4
    }

    open spec fn decoded(bytes: Seq<u8>) -> i32 {
        (be_value_of(bytes.take(4)) as u32) as i32
    }

    open spec fn decode_err(bytes: Seq<u8>) -> PrimitiveCastError {
        PrimitiveCastError::NotEnoughData(4)
    }

    proof fn lemma_round_trip(&self) {
        lemma_pow256_values();
        lemma_be_bytes_len((*self as u32) as nat, 4);
        assert(self.encoded().take(4) =~= self.encoded());
        lemma_be_round_trip((*self as u32) as nat, 4);
        let x: i32 = *self;
        assert(((x as u32) as i32) == x) by (bit_vector);
    }

    fn into_data(self) -> (d: DataBytes) {
        proof {
            lemma_pow256_values();
        }
        DataBytes::new(be_encode((self as u32) as u128, 4))
    }

    fn from_data(data: DataBytes) -> (r: Result<Self, PrimitiveCastError>) {
        match integer_cast(&data, 4) {
            Ok(v) => {
                proof {
                    lemma_be_value_bound(data@.take(4));
                    lemma_pow256_values();
                }
                Ok((v as u32) as i32)
            },
            Err(e) => Err(e),
        }
    }
}

impl Data for i64 {
    type Error = PrimitiveCastError;

    open spec fn encoded(&self) -> Seq<u8> {
        be_bytes_of((*self as u64) as nat, 8)
    }

    open spec fn decodable(bytes: Seq<u8>) -> bool {
        bytes.len() >= 8
    }

    open spec fn decoded(bytes: Seq<u8>) -> i64 {
        (be_value_of(bytes.take(8)) as u64) as i64
    }

    open spec fn decode_err(bytes: Seq<u8>) -> PrimitiveCastError {
        PrimitiveCastError::NotEnoughData(8)
    }

    proof fn lemma_round_trip(&self) {
        lemma_pow256_values();
        lemma_be_bytes_len((*self as u64) as nat, 8);
        assert(self.encoded().take(8) =~= self.encoded());
        lemma_be_round_trip((*self as u64) as nat, 8);
        let x: i64 = *self;
        assert(((x as u64) as i64) == x) by (bit_vector);
    }

    fn into_data(self) -> (d: DataBytes) {
        proof {
            lemma_pow256_values();
        }
        DataBytes::new(be_encode((self as u64) as u128, 8))
    }

    fn from_data(data: DataBytes) -> (r: Result<Self, PrimitiveCastError>) {
        match integer_cast(&data, 8) {
            Ok(v) => {
                proof {
                    lemma_be_value_bound(data@.take(8));
                    lemma_pow256_values();
                }
                Ok((v as u64) as i64)
            },
            Err(e) => Err(e),
        }
    }
}

impl Data for i128 {
    type Error = PrimitiveCastError;

    open spec fn encoded(&self) -> Seq<u8> {
        be_bytes_of((*self as u128) as nat, 16)
    }

    open spec fn decodable(bytes: Seq<u8>) -> bool {
        bytes.len() >= 16
    }

    open spec fn decoded(bytes: Seq<u8>) -> i128 {
        (be_value_of(bytes.take(16)) as u128) as i128
    }

    open spec fn decode_err(bytes: Seq<u8>) -> PrimitiveCastError {
        PrimitiveCastError::NotEnoughData(16)
    }

    proof fn lemma_round_trip(&self) {
        lemma_pow256_values();
        lemma_be_bytes_len((*self as u128) as nat, 16);
        assert(self.encoded().take(16) =~= self.encoded());
        lemma_be_round_trip((*self as u128) as nat, 16);
        let x: i128 = *self;
        assert(((x as u128) as i128) == x) by (bit_vector);
    }

    fn into_data(self) -> (d: DataBytes) {
        proof {
            lemma_pow256_values();
        }
        DataBytes::new(be_encode((self as u128) as u128, 16))
    }

    fn from_data(data: DataBytes) -> (r: Result<Self, PrimitiveCastError>) {
        match integer_cast(&data, 16) {
            Ok(v) => {
                proof {
                    lemma_be_value_bound(data@.take(16));
                    lemma_pow256_values();
                }
                Ok((v as u128) as i128)
            },
            Err(e) => Err(e),
        }
    }
}


/// The width in bytes of the machine word: `usize` and `isize` are stored at
/// the platform's native width.
pub open spec fn word_width() -> nat {
    (usize::BITS / 8) as nat
}

/// The machine word holds exactly the values of its width's byte strings.
proof fn lemma_word_width()
    ensures
        word_width() == 4 || word_width() == 8,
        (usize::MAX as nat) + 1 == pow256(word_width()),
{
    lemma_pow256_values();
}

impl Data for usize {
    type Error = PrimitiveCastError;

    open spec fn encoded(&self) -> Seq<u8> {
        be_bytes_of(*self as nat, word_width())
    }

    open spec fn decodable(bytes: Seq<u8>) -> bool {
        bytes.len() >= word_width()
    }

    open spec fn decoded(bytes: Seq<u8>) -> usize {
        be_value_of(bytes.take(word_width() as int)) as usize
    }

    open spec fn decode_err(bytes: Seq<u8>) -> PrimitiveCastError {
        PrimitiveCastError::NotEnoughData(word_width() as usize)
    }

    proof fn lemma_round_trip(&self) {
        lemma_word_width();
        lemma_be_bytes_len(*self as nat, word_width());
        assert(self.encoded().take(word_width() as int) =~= self.encoded());
        lemma_be_round_trip(*self as nat, word_width());
    }

    fn into_data(self) -> (d: DataBytes) {
        proof {
            lemma_word_width();
        }
        let w = (usize::BITS / 8) as usize;
        DataBytes::new(be_encode(self as u128, w))
    }

    fn from_data(data: DataBytes) -> (r: Result<Self, PrimitiveCastError>) {
        let w = (usize::BITS / 8) as usize;
        match integer_cast(&data, w) {
            Ok(v) => {
                proof {
                    lemma_be_value_bound(data@.take(word_width() as int));
                    lemma_word_width();
                }
                Ok(v as usize)
            },
            Err(e) => Err(e),
        }
    }
}

impl Data for isize {
    type Error = PrimitiveCastError;

    open spec fn encoded(&self) -> Seq<u8> {
        be_bytes_of((*self as usize) as nat, word_width())
    }

    open spec fn decodable(bytes: Seq<u8>) -> bool {
        bytes.len() >= word_width()
    }

    open spec fn decoded(bytes: Seq<u8>) -> isize {
        (be_value_of(bytes.take(word_width() as int)) as usize) as isize
    }

    open spec fn decode_err(bytes: Seq<u8>) -> PrimitiveCastError {
        PrimitiveCastError::NotEnoughData(word_width() as usize)
    }

    proof fn lemma_round_trip(&self) {
        lemma_word_width();
        lemma_be_bytes_len((*self as usize) as nat, word_width());
        assert(self.encoded().take(word_width() as int) =~= self.encoded());
        lemma_be_round_trip((*self as usize) as nat, word_width());
        lemma_isize_cast_round_trip(*self);
    }

    fn into_data(self) -> (d: DataBytes) {
        proof {
            lemma_word_width();
        }
        let w = (usize::BITS / 8) as usize;
        DataBytes::new(be_encode((self as usize) as u128, w))
    }

    fn from_data(data: DataBytes) -> (r: Result<Self, PrimitiveCastError>) {
        let w = (usize::BITS / 8) as usize;
        match integer_cast(&data, w) {
            Ok(v) => {
                proof {
                    lemma_be_value_bound(data@.take(word_width() as int));
                    lemma_word_width();
                }
                Ok((v as usize) as isize)
            },
            Err(e) => Err(e),
        }
    }
}


/// Casting a machine-word integer to unsigned and back returns the value.
proof fn lemma_isize_cast_round_trip(x: isize)
    ensures
        (x as usize) as isize == x,
{
    if usize::BITS == 32 {
        let y: i32 = x as i32;
        assert(y == x);
        assert(x as usize == y as u32);
        assert(((y as u32) as i32) == y) by (bit_vector);
        assert((x as usize) as isize == (y as u32) as i32);
    } else {
        let y: i64 = x as i64;
        assert(y == x);
        assert(x as usize == y as u64);
        assert(((y as u64) as i64) == y) by (bit_vector);
        assert((x as usize) as isize == (y as u64) as i64);
    }
}

} // verus!
