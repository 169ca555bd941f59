//! The wire format of the channels between the manager and its workers.
//!
//! Every message is one 32-bit unsigned integer, written as four bytes in the
//! byte order of the machine. Both ends of a channel run on the same machine,
//! so a word that one end writes is the word that the other end reads.

use vstd::endian::{endianness, Endian};
use vstd::prelude::*;

verus! {

/// The four bytes of `value`, least significant byte first.
pub open spec fn little_endian(value: u32) -> [u8; 4] {
    [
        (value & 0xff) as u8,
        ((value >> 8) & 0xff) as u8,
        ((value >> 16) & 0xff) as u8,
        ((value >> 24) & 0xff) as u8,
    ]
}

/// The four bytes of `value`, most significant byte first.
pub open spec fn big_endian(value: u32) -> [u8; 4] {
    [
        ((value >> 24) & 0xff) as u8,
        ((value >> 16) & 0xff) as u8,
        ((value >> 8) & 0xff) as u8,
        (value & 0xff) as u8,
    ]
}

/// The integer whose bytes, least significant first, are `b0 b1 b2 b3`.
pub open spec fn compose(b0: u8, b1: u8, b2: u8, b3: u8) -> u32 {
    (b0 as u32) | ((b1 as u32) << 8) | ((b2 as u32) << 16) | ((b3 as u32) << 24)
}

/// The message that carries `value`: its four bytes in the byte order of the
/// machine.
pub open spec fn word(value: u32) -> [u8; 4] {
    match endianness() {
        Endian::Little => little_endian(value),
        Endian::Big => big_endian(value),
    }
}

/// The integer that the message `bytes` carries.
pub open spec fn value(bytes: [u8; 4]) -> u32 {
    match endianness() {
        Endian::Little => compose(bytes[0], bytes[1], bytes[2], bytes[3]),
        Endian::Big => compose(bytes[3], bytes[2], bytes[1], bytes[0]),
    }
}

/// Calls `u32::to_ne_bytes`. Trusted: the result holds the bytes of `value`
/// in the byte order of the machine, which is either little or big endian.
#[verifier::external_body]
pub(crate) fn to_native_bytes(value: u32) -> (bytes: [u8; 4])
    ensures
        bytes == word(value),
{
    value.to_ne_bytes()
}

/// Calls `u32::from_ne_bytes`. Trusted: the result is the integer whose bytes,
/// in the byte order of the machine, are `bytes`.
#[verifier::external_body]
pub(crate) fn from_native_bytes(bytes: [u8; 4]) -> (result: u32)
    ensures
        result == value(bytes),
{
    u32::from_ne_bytes(bytes)
}

/// Splitting an integer into bytes and composing them again gives it back.
proof fn lemma_compose_split(v: u32)
    ensures
        compose(
            (v & 0xff) as u8,
            ((v >> 8) & 0xff) as u8,
            ((v >> 16) & 0xff) as u8,
            ((v >> 24) & 0xff) as u8,
        ) == v,
{
    assert((((v & 0xff) as u8) as u32) | ((((v >> 8) & 0xff) as u8) as u32) << 8 | ((((v >> 16)
        & 0xff) as u8) as u32) << 16 | ((((v >> 24) & 0xff) as u8) as u32) << 24 == v)
        by (bit_vector);
}

/// A word carries its value unchanged: what is decoded from the bytes that
/// encode `v` is `v`, whatever the byte order of the machine.
pub proof fn lemma_word_round_trip(v: u32)
    ensures
        value(word(v)) == v,
{
    lemma_compose_split(v);
    let le = little_endian(v);
    let be = big_endian(v);
    assert(le[0] == (v & 0xff) as u8 && le[1] == ((v >> 8) & 0xff) as u8 && le[2] == ((v >> 16)
        & 0xff) as u8 && le[3] == ((v >> 24) & 0xff) as u8);
    assert(be[3] == (v & 0xff) as u8 && be[2] == ((v >> 8) & 0xff) as u8 && be[1] == ((v >> 16)
        & 0xff) as u8 && be[0] == ((v >> 24) & 0xff) as u8);
}

} // verus!
