//! Text values: a stored string, encoded as its UTF-8 bytes with no length
//! prefix — the whole buffer is the string.
#![allow(unused_imports)]
use crate::data::{Data, DataBytes};
use vstd::prelude::*;
use vstd::slice::slice_to_vec;
use vstd::string::StrSliceExecFns;
use vstd::utf8::{
    decode_utf8, encode_utf8, encode_utf8_decode_utf8, encode_utf8_valid_utf8, valid_utf8,
};

verus! {

/// The error a text decode reports: the stored bytes are not valid UTF-8.
#[derive(Clone, Copy, Debug, PartialEq, Eq, Structural)]
pub enum StringCastError {
    InvalidUtf8,
}

/// A stored string. Only its characters matter.
#[derive(Clone, Debug)]
pub struct ArcString(String);

impl View for ArcString {
    type V = Seq<char>;

    closed spec fn view(&self) -> Seq<char> {
        self.0@
    }
}

impl DeepView for ArcString {
    type V = Seq<char>;

    open spec fn deep_view(&self) -> Seq<char> {
        self@
    }
}

impl ArcString {
    pub fn new(s: String) -> (r: Self)
        ensures
            r@ == s@,
    {
        ArcString(s)
    }

    /// The characters of the string.
    pub fn as_str(&self) -> (r: &str)
        ensures
            r@ == self@,
    {
        self.0.as_str()
    }
}

impl PartialEq for ArcString {
    fn eq(&self, other: &Self) -> (r: bool) {
        self.0.eq(&other.0)
    }
}

impl vstd::std_specs::cmp::PartialEqSpecImpl for ArcString {
    open spec fn obeys_eq_spec() -> bool {
        true
    }

    open spec fn eq_spec(&self, other: &Self) -> bool {
        self@ == other@
    }
}

/// Relies on `String::from_utf8`: returns the string read from the given
/// bytes when they are valid UTF-8, and nothing when they are not.
#[verifier::external_body]
fn string_from_utf8(bytes: Vec<u8>) -> (r: Option<String>)
    ensures
        match r {
            Some(s) => valid_utf8(bytes@) && s@ == decode_utf8(bytes@),
            None => !valid_utf8(bytes@),
        },
{
    String::from_utf8(bytes).ok()
}

impl Data for ArcString {
    type Error = StringCastError;

    open spec fn encoded(&self) -> Seq<u8> {
        encode_utf8(self@)
    }

    open spec fn decodable(bytes: Seq<u8>) -> bool {
        valid_utf8(bytes)
    }

    open spec fn decoded(bytes: Seq<u8>) -> Seq<char> {
        decode_utf8(bytes)
    }

    open spec fn decode_err(bytes: Seq<u8>) -> StringCastError {
        StringCastError::InvalidUtf8
    }

    proof fn lemma_round_trip(&self) {
        encode_utf8_valid_utf8(self@);
        encode_utf8_decode_utf8(self@);
    }

    fn into_data(self) -> (d: DataBytes) {
        DataBytes::new(self.0.as_str().as_bytes_vec())
    }

    fn from_data(data: DataBytes) -> (r: Result<Self, StringCastError>) {
        let bytes = slice_to_vec(data.as_slice());
        match string_from_utf8(bytes) {
            Some(s) => Ok(ArcString::new(s)),
            None => Err(StringCastError::InvalidUtf8),
        }
    }
}

} // verus!
