//! Payload codecs: how a value, or its absence, becomes one record payload.

use vstd::prelude::*;

use crate::model::NL;

verus! {

/// A value type the store can hold.
///
/// `encoded` and `decoded` are the type's wire functions at the level of
/// the model; `encode` and `decode` realize them. An implementation must
/// guarantee that encoding is loss-less (decoding an encoded payload yields
/// the value back) and that a payload holds no raw line feed, so that it
/// fits on one record line.
pub trait StoreValue: DeepView + Sized {
    /// The payload bytes that encode the presence (`Some`) or absence
    /// (`None`, a tombstone) of a value.
    spec fn encoded(v: Option<Self::V>) -> Seq<u8>;

    /// What payload bytes decode to: `None` when they are no valid
    /// encoding at all.
    spec fn decoded(s: Seq<u8>) -> Option<Option<Self::V>>;

    /// Encodes a value or a tombstone as one payload.
    fn encode(v: Option<&Self>) -> (r: Vec<u8>)
        ensures
            r@ == Self::encoded(v.deep_view()),
            Self::decoded(r@) == Some(v.deep_view()),
            forall|i: int| 0 <= i < r@.len() ==> r@[i] != NL,
    ;

    /// Decodes one payload; a failure carries a rendered reason.
    fn decode(s: &[u8]) -> (r: Result<Option<Self>, String>)
        ensures
            match r {
                Ok(v) => Self::decoded(s@) == Some(v.deep_view()),
                Err(_) => Self::decoded(s@) is None,
            },
    ;
}

/// A value whose encoding round-trips and stays on one line: exactly what
/// the executable `encode` guarantees, spelled out so that pure proofs can
/// assume it of the payloads the store itself wrote.
pub open spec fn codec_ok<T: StoreValue>(v: Option<T::V>) -> bool {
    &&& T::decoded(T::encoded(v)) == Some(v)
    &&& forall|i: int| 0 <= i < T::encoded(v).len() ==> T::encoded(v)[i] != NL
}

/// The JSON text of an optional string.
pub uninterp spec fn json_str_encoding(v: Option<Seq<char>>) -> Seq<u8>;

/// The optional string that JSON text parses to, or `None` when it does
/// not parse as one.
pub uninterp spec fn json_str_decoding(s: Seq<u8>) -> Option<Option<Seq<char>>>;

/// The JSON text of an optional byte-sized integer.
pub uninterp spec fn json_u8_encoding(v: Option<u8>) -> Seq<u8>;

/// The optional byte-sized integer that JSON text parses to, or `None`
/// when it does not parse as one.
pub uninterp spec fn json_u8_decoding(s: Seq<u8>) -> Option<Option<u8>>;

/// Relies on serde_json::to_vec for an optional string: the output is a
/// function of the value alone, holds no raw line feed (serde_json escapes
/// every control character inside a JSON string, and `None` serializes as
/// `null`), parses back to the given value, and cannot fail for strings.
#[verifier::external_body]
fn encode_json_str(v: Option<&String>) -> (r: Vec<u8>)
    ensures
        r@ == json_str_encoding(v.deep_view()),
        json_str_decoding(r@) == Some(v.deep_view()),
        forall|i: int| 0 <= i < r@.len() ==> r@[i] != NL,
{
    serde_json::to_vec(&v).unwrap()
}

/// Relies on serde_json::from_slice for an optional string: whether bytes
/// parse, and the value they parse to, is a function of the bytes alone;
/// the failure branch carries serde_json's rendered message.
#[verifier::external_body]
fn decode_json_str(s: &[u8]) -> (r: Result<Option<String>, String>)
    ensures
        match r {
            Ok(v) => json_str_decoding(s@) == Some(v.deep_view()),
            Err(_) => json_str_decoding(s@) is None,
        },
{
    serde_json::from_slice::<Option<String>>(s).map_err(|e| e.to_string())
}

/// Relies on serde_json::to_vec for an optional byte-sized integer: the
/// output is a function of the value alone, is a decimal numeral or `null`
/// and so holds no raw line feed, parses back to the given value, and
/// cannot fail for integers.
#[verifier::external_body]
fn encode_json_u8(v: Option<&u8>) -> (r: Vec<u8>)
    ensures
        r@ == json_u8_encoding(v.deep_view()),
        json_u8_decoding(r@) == Some(v.deep_view()),
        forall|i: int| 0 <= i < r@.len() ==> r@[i] != NL,
{
    serde_json::to_vec(&v).unwrap()
}

/// Relies on serde_json::from_slice for an optional byte-sized integer:
/// whether bytes parse, and the value they parse to, is a function of the
/// bytes alone; the failure branch carries serde_json's rendered message.
#[verifier::external_body]
fn decode_json_u8(s: &[u8]) -> (r: Result<Option<u8>, String>)
    ensures
        match r {
            Ok(v) => json_u8_decoding(s@) == Some(v.deep_view()),
            Err(_) => json_u8_decoding(s@) is None,
        },
{
    serde_json::from_slice::<Option<u8>>(s).map_err(|e| e.to_string())
}

impl StoreValue for String {
    open spec fn encoded(v: Option<Seq<char>>) -> Seq<u8> {
        json_str_encoding(v)
    }

    open spec fn decoded(s: Seq<u8>) -> Option<Option<Seq<char>>> {
        json_str_decoding(s)
    }

    fn encode(v: Option<&String>) -> (r: Vec<u8>) {
        encode_json_str(v)
    }

    fn decode(s: &[u8]) -> (r: Result<Option<String>, String>) {
        decode_json_str(s)
    }
}

impl StoreValue for u8 {
    open spec fn encoded(v: Option<u8>) -> Seq<u8> {
        json_u8_encoding(v)
    }

    open spec fn decoded(s: Seq<u8>) -> Option<Option<u8>> {
        json_u8_decoding(s)
    }

    fn encode(v: Option<&u8>) -> (r: Vec<u8>) {
        encode_json_u8(v)
    }

    fn decode(s: &[u8]) -> (r: Result<Option<u8>, String>) {
        decode_json_u8(s)
    }
}

} // verus!
