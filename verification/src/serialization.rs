//! Typed binary responses.
//!
//! A response body is one tag byte followed by a payload:
//! `Null` carries nothing, `Err` a `u32` code and a length-prefixed
//! message, `Integer` a signed 64-bit value, `String` length-prefixed
//! bytes, and `Array` an element count.  All integers are little-endian.

use crate::wire::{le32_bytes, le64_bytes, put_le32, put_le64};
use vstd::prelude::*;
use vstd::string::StringSliceAdditionalSpecFns;

verus! {

#[derive(Debug, Clone, Copy, PartialEq, Eq, Structural)]
pub enum SerializationType {
    Null,
    Error,
    Integer,
    String,
    Array,
}

impl SerializationType {
    /// The human-readable name of the tag.
    pub open spec fn spec_name(self) -> Seq<char> {
        match self {
            SerializationType::Null => "null"@,
            SerializationType::Error => "err"@,
            SerializationType::Integer => "integer"@,
            SerializationType::String => "string"@,
            SerializationType::Array => "array"@,
        }
    }

    /// The tag byte that opens a response body.
    pub open spec fn spec_num(self) -> u8 {
        match self {
            SerializationType::Null => 0,
            SerializationType::Error => 1,
            SerializationType::Integer => 2,
            SerializationType::String => 3,
            SerializationType::Array => 4,
        }
    }

    pub fn as_str(&self) -> (r: &'static str)
        ensures
            r@ == self.spec_name(),
    {
        match self {
            SerializationType::Null => "null",
            SerializationType::Error => "err",
            SerializationType::Integer => "integer",
            SerializationType::String => "string",
            SerializationType::Array => "array",
        }
    }

    pub fn as_num(&self) -> (r: u8)
        ensures
            r == self.spec_num(),
    {
        match self {
            SerializationType::Null => 0,
            SerializationType::Error => 1,
            SerializationType::Integer => 2,
            SerializationType::String => 3,
            SerializationType::Array => 4,
        }
    }
}

/// Body of a `Null` response.
pub open spec fn spec_response_nil() -> Seq<u8> {
    seq![0u8]
}

/// Body of an `Err` response: tag, code, then the length-prefixed message.
pub open spec fn spec_response_err(code: u32, msg: Seq<u8>) -> Seq<u8> {
    seq![1u8] + le32_bytes(code) + le32_bytes(msg.len() as u32) + msg
}

/// Body of an `Integer` response: tag, then the value's eight bytes.
pub open spec fn spec_response_integer(value: i64) -> Seq<u8> {
    seq![2u8] + le64_bytes(value as u64)
}

/// Body of a `String` response: tag, then the length-prefixed bytes.
pub open spec fn spec_response_string(value: Seq<u8>) -> Seq<u8> {
    seq![3u8] + le32_bytes(value.len() as u32) + value
}

/// Body of an `Array` response header: tag, then the element count.
pub open spec fn spec_response_array(n: u32) -> Seq<u8> {
    seq![4u8] + le32_bytes(n)
}

/// Appends a `Null` response body to `out`.
pub fn response_nil(out: &mut Vec<u8>)
    ensures
        final(out)@ == old(out)@ + spec_response_nil(),
{
    out.push(SerializationType::Null.as_num());
    assert(out@ =~= old(out)@ + spec_response_nil());
}

/// Appends an `Err` response body to `out`.
pub fn response_err(out: &mut Vec<u8>, code: u32, message: &str)
    requires
        message.spec_bytes().len() <= u32::MAX,
    ensures
        final(out)@ == old(out)@ + spec_response_err(code, message.spec_bytes()),
{
    out.push(SerializationType::Error.as_num());
    put_le32(out, code);
    let bytes = message.as_bytes();
    put_le32(out, bytes.len() as u32);
    out.extend_from_slice(bytes);
    assert(out@ =~= old(out)@ + spec_response_err(code, message.spec_bytes()));
}

/// Appends an `Integer` response body to `out`.
pub fn response_integer(out: &mut Vec<u8>, value: i64)
    ensures
        final(out)@ == old(out)@ + spec_response_integer(value),
{
    out.push(SerializationType::Integer.as_num());
    put_le64(out, value as u64);
    assert(out@ =~= old(out)@ + spec_response_integer(value));
}

/// Appends a `String` response body to `out`.
pub fn response_string(out: &mut Vec<u8>, value: &[u8])
    requires
        value@.len() <= u32::MAX,
    ensures
        final(out)@ == old(out)@ + spec_response_string(value@),
{
    out.push(SerializationType::String.as_num());
    put_le32(out, value.len() as u32);
    out.extend_from_slice(value);
    assert(out@ =~= old(out)@ + spec_response_string(value@));
}

/// Appends an `Array` response header to `out`.
pub fn response_array(out: &mut Vec<u8>, n: u32)
    ensures
        final(out)@ == old(out)@ + spec_response_array(n),
{
    out.push(SerializationType::Array.as_num());
    put_le32(out, n);
    assert(out@ =~= old(out)@ + spec_response_array(n));
}

/// Serialization is canonical: a response body is a function of the value
/// alone, so equal values yield equal byte strings, and distinct integer or
/// string values yield distinct byte strings.
#[verifier::rlimit(60)]
pub proof fn lemma_response_canonical(a: i64, b: i64, s: Seq<u8>, t: Seq<u8>)
    requires
        s.len() <= u32::MAX,
        t.len() <= u32::MAX,
    ensures
        (spec_response_integer(a) == spec_response_integer(b)) <==> a == b,
        s == t ==> spec_response_string(s) == spec_response_string(t),
        spec_response_string(s) == spec_response_string(t) ==> s == t,
{
    if spec_response_integer(a) == spec_response_integer(b) {
        let x = a as u64;
        let y = b as u64;
        assert forall|i: int| 0 <= i < 8 implies le64_bytes(x)[i] == le64_bytes(y)[i] by {
            assert(spec_response_integer(a)[i + 1] == le64_bytes(x)[i]);
            assert(spec_response_integer(b)[i + 1] == le64_bytes(y)[i]);
        }
        crate::wire::lemma_le64_roundtrip(x);
        crate::wire::lemma_le64_roundtrip(y);
        assert(a == b) by (bit_vector)
            requires
                a as u64 == b as u64,
        ;
    }
    if spec_response_string(s) == spec_response_string(t) {
        assert(s.len() == t.len()) by {
            let u = spec_response_string(s);
            assert(u.len() == 5 + s.len());
            assert(u.len() == 5 + t.len());
        }
        assert(s =~= t) by {
            assert forall|i: int| 0 <= i < s.len() implies s[i] == t[i] by {
                assert(spec_response_string(s)[5 + i] == s[i]);
                assert(spec_response_string(t)[5 + i] == t[i]);
            }
        }
    }
}

} // verus!
