//! The stored representation of values, and the conversion trait into it.
//!
//! Every value lives in the store as an opaque byte buffer. The [`Data`]
//! trait is the typed codec over that buffer: fixed-width integers are
//! written as their big-endian bytes, text as its UTF-8 bytes.
#![allow(unused_imports)]
use vstd::prelude::*;

pub mod arc_str;
pub mod big_endian;
pub mod primitives;

verus! {

/// Data stored in the storage - kept as a plain sequence of bytes. Only the
/// byte content matters; cloning copies the bytes.
pub struct DataBytes {
    bytes: Vec<u8>,
}

impl View for DataBytes {
    type V = Seq<u8>;

    closed spec fn view(&self) -> Seq<u8> {
        self.bytes@
    }
}

impl DataBytes {
    pub fn new(bytes: Vec<u8>) -> (d: Self)
        ensures
            d@ == bytes@,
    {
        DataBytes { bytes }
    }

    pub fn as_slice(&self) -> (s: &[u8])
        ensures
            s@ == self@,
    {
        self.bytes.as_slice()
    }

    pub fn len(&self) -> (n: usize)
        ensures
            n == self@.len(),
    {
        self.bytes.len()
    }
}

impl Clone for DataBytes {
    fn clone(&self) -> (d: Self)
        ensures
            d@ == self@,
    {
        let bytes = self.bytes.clone();
        proof {
            assert forall|i: int| 0 <= i < self.bytes@.len() implies bytes@[i]
                == self.bytes@[i] by {}
            assert(bytes@ =~= self.bytes@);
        }
        DataBytes { bytes }
    }
}

/// Ability to convert a data type into the internal data representation in
/// the storage and back.
///
/// `encoded` is the byte image of a value; `decodable`, `decoded` and
/// `decode_err` describe what reading a buffer back yields. The executable
/// conversions are bound to those descriptions, and `lemma_round_trip`
/// states the law the codec lives by: decoding an encoding succeeds and
/// returns the value that was encoded.
pub trait Data: Sized + DeepView {
    type Error;

    /// The byte encoding of this value.
    spec fn encoded(&self) -> Seq<u8>;

    /// Whether this buffer can be read back as a value of this type.
    spec fn decodable(bytes: Seq<u8>) -> bool;

    /// The value a decodable buffer holds, as the type's abstract view.
    spec fn decoded(bytes: Seq<u8>) -> Self::V;

    /// The error reported for a buffer that does not decode.
    spec fn decode_err(bytes: Seq<u8>) -> Self::Error;

    /// Round trip: a value's own encoding decodes, back to the same value.
    proof fn lemma_round_trip(&self)
        ensures
            Self::decodable(self.encoded()),
            Self::decoded(self.encoded()) == self.deep_view(),
    ;

    fn into_data(self) -> (d: DataBytes)
        ensures
            d@ == self.encoded(),
    ;

    fn from_data(data: DataBytes) -> (r: Result<Self, Self::Error>)
        ensures
            Self::decodable(data@) ==> (r matches Ok(v) && v.deep_view() == Self::decoded(data@)),
            !Self::decodable(data@) ==> (r matches Err(e) && e == Self::decode_err(data@)),
    ;
}

/// Round trip for every supported type `T` and value `v`: the encoding of
/// `v` is decodable and decodes to `v` itself.
pub proof fn lemma_data_round_trip<T: Data>(v: T)
    ensures
        T::decodable(v.encoded()),
        T::decoded(v.encoded()) == v.deep_view(),
{
    v.lemma_round_trip();
}

} // verus!
