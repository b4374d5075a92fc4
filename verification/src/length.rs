//! The length field that stands on both sides of every stored payload: a `u32` in the byte order
//! of the machine.

use vstd::endian::Endian;
use vstd::prelude::*;

verus! {

/// The four bytes of `x`, least significant first.
pub open spec fn little_endian(x: u32) -> Seq<u8> {
    seq![
        (x % 256) as u8,
        (x / 256 % 256) as u8,
        (x / 65536 % 256) as u8,
        (x / 16777216) as u8,
    ]
}

/// The four bytes of `x`, most significant first.
pub open spec fn big_endian(x: u32) -> Seq<u8> {
    seq![
        (x / 16777216) as u8,
        (x / 65536 % 256) as u8,
        (x / 256 % 256) as u8,
        (x % 256) as u8,
    ]
}

/// The four bytes of `x` in the byte order of the machine that runs the code.
pub open spec fn native_endian(x: u32) -> Seq<u8> {
    match vstd::endian::endianness() {
        Endian::Little => little_endian(x),
        Endian::Big => big_endian(x),
    }
}

/// Distinct lengths have distinct fields, so a field determines the length it was made from.
pub proof fn lemma_native_endian_injective(x: u32, y: u32)
    requires
        native_endian(x) == native_endian(y),
    ensures
        x == y,
{
    let s = native_endian(x);
    let t = native_endian(y);
    assert(s[0] == t[0] && s[1] == t[1] && s[2] == t[2] && s[3] == t[3]);
}

/// Calls `u32::to_ne_bytes`, which returns the memory representation of the integer in native
/// byte order. Trusted: the result is the little-endian or the big-endian form of `x`, whichever
/// the machine uses.
#[verifier::external_body]
pub(crate) fn to_ne_bytes(x: u32) -> (bytes: [u8; 4])
    ensures
        bytes@ == native_endian(x),
{
    x.to_ne_bytes()
}

/// Calls `u32::from_ne_bytes`, which reads an integer back from its memory representation in
/// native byte order. Trusted: `bytes` is the native form of the result.
#[verifier::external_body]
pub(crate) fn from_ne_bytes(bytes: [u8; 4]) -> (x: u32)
    ensures
        native_endian(x) == bytes@,
{
    u32::from_ne_bytes(bytes)
}

} // verus!
