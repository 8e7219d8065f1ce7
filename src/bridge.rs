//! Calls into byteorder, uuid and std whose contracts the codec relies on.
use vstd::prelude::*;

use byteorder::{BigEndian, ByteOrder};

use crate::integer::{be_bytes, be_value};
use vstd::utf8::{decode_utf8, valid_utf8};

verus! {

/// Relies on byteorder's `BigEndian::write_u64`: the eight bytes of `n`, most
/// significant first.
#[verifier::external_body]
pub(crate) fn be_u64_bytes(n: u64) -> (r: Vec<u8>)
    ensures
        r@ == be_bytes(n as nat, 8),
{
    let mut buf = vec![0u8; 8];
    BigEndian::write_u64(&mut buf, n);
    buf
}

/// Relies on byteorder's `BigEndian::read_u64`: the number that eight bytes
/// spell, most significant first.
#[verifier::external_body]
pub(crate) fn be_u64_value(b: &[u8]) -> (r: u64)
    requires
        b@.len() == 8,
    ensures
        r as nat == be_value(b@),
{
    BigEndian::read_u64(b)
}

/// Relies on byteorder's `BigEndian::write_u32`: the four bytes of `n`, most
/// significant first.
#[verifier::external_body]
pub(crate) fn be_u32_bytes(n: u32) -> (r: Vec<u8>)
    ensures
        r@ == be_bytes(n as nat, 4),
{
    let mut buf = vec![0u8; 4];
    BigEndian::write_u32(&mut buf, n);
    buf
}

/// Relies on byteorder's `BigEndian::read_u32`: the number that four bytes
/// spell, most significant first.
#[verifier::external_body]
pub(crate) fn be_u32_value(b: &[u8]) -> (r: u32)
    requires
        b@.len() == 4,
    ensures
        r as nat == be_value(b@),
{
    BigEndian::read_u32(b)
}

/// Relies on std's `String::from_utf8`: it succeeds exactly on valid UTF-8,
/// and the string then holds the characters that the bytes encode.
#[verifier::external_body]
pub(crate) fn utf8_string(b: Vec<u8>) -> (r: Option<String>)
    ensures
        r is Some <==> valid_utf8(b@),
        r matches Some(s) ==> s@ == decode_utf8(b@),
{
    match String::from_utf8(b) {
        Ok(s) => Some(s),
        Err(_) => None,
    }
}

/// Relies on uuid's `Uuid::from_slice` and `Uuid::as_bytes`: a slice of
/// exactly 16 bytes is taken as they stand, any other length is refused.
#[verifier::external_body]
pub(crate) fn uuid_from_slice(b: &[u8]) -> (r: Option<[u8; 16]>)
    ensures
        r is Some <==> b@.len() == 16,
        r matches Some(u) ==> u@ == b@,
{
    match uuid::Uuid::from_slice(b) {
        Ok(u) => Some(*u.as_bytes()),
        Err(_) => None,
    }
}

} // verus!
