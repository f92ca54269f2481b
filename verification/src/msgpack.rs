//! The few MessagePack items the graph format is made of, written and read
//! through `rmp`: array headers, `u32` and `u64` values.
//!
//! Writing goes into an `rmp::encode::ByteBuf`, reading comes from an
//! `rmp::decode::Bytes`; the contracts below say which bytes each call
//! appends or consumes.
use vstd::prelude::*;

use rmp::decode::Bytes;
use rmp::encode::ByteBuf;

verus! {

#[verifier::external_type_specification]
#[verifier::external_body]
pub struct ExByteBuf(ByteBuf);

#[verifier::external_type_specification]
#[verifier::external_body]
pub struct ExBytes<'a>(Bytes<'a>);

/// The bytes a `ByteBuf` holds.
pub uninterp spec fn buf_bytes(buf: ByteBuf) -> Seq<u8>;

/// The bytes a `Bytes` reader has yet to read.
pub uninterp spec fn unread(src: Bytes<'_>) -> Seq<u8>;

/// The `n` low bytes of `v`, most significant first.
pub open spec fn be_bytes(v: nat, n: nat) -> Seq<u8>
    decreases n,
{
    if n == 0 {
        Seq::empty()
    } else {
        be_bytes(v / 256, (n - 1) as nat).push((v % 256) as u8)
    }
}

/// The number written by `s`, most significant byte first.
pub open spec fn be_value(s: Seq<u8>) -> nat
    decreases s.len(),
{
    if s.len() == 0 {
        0
    } else {
        be_value(s.drop_last()) * 256 + s.last() as nat
    }
}

/// The shortest array header for `len` elements: one byte below 16, else a
/// marker and the length in two or four bytes.
pub open spec fn array_len_bytes(len: u32) -> Seq<u8> {
    if len < 16 {
        seq![(0x90 + len) as u8]
    } else if len < 0x10000 {
        seq![0xdcu8] + be_bytes(len as nat, 2)
    } else {
        seq![0xddu8] + be_bytes(len as nat, 4)
    }
}

/// A `u32` as a marker and four bytes.
pub open spec fn u32_bytes(v: u32) -> Seq<u8> {
    seq![0xceu8] + be_bytes(v as nat, 4)
}

/// A `u64` as a marker and eight bytes.
pub open spec fn u64_bytes(v: u64) -> Seq<u8> {
    seq![0xcfu8] + be_bytes(v as nat, 8)
}

/// The array length at the front of `s` and the number of bytes it takes,
/// if `s` starts with an array header.
pub open spec fn array_len_read(s: Seq<u8>) -> Option<(u32, nat)> {
    if s.len() == 0 {
        None
    } else if 0x90 <= s[0] <= 0x9f {
        Some(((s[0] - 0x90) as u32, 1))
    } else if s[0] == 0xdc && s.len() >= 3 {
        Some((be_value(s.subrange(1, 3)) as u32, 3))
    } else if s[0] == 0xdd && s.len() >= 5 {
        Some((be_value(s.subrange(1, 5)) as u32, 5))
    } else {
        None
    }
}

/// The `u32` at the front of `s` and the number of bytes it takes, if `s`
/// starts with one.
pub open spec fn u32_read(s: Seq<u8>) -> Option<(u32, nat)> {
    if s.len() >= 5 && s[0] == 0xce {
        Some((be_value(s.subrange(1, 5)) as u32, 5))
    } else {
        None
    }
}

/// The `u64` at the front of `s` and the number of bytes it takes, if `s`
/// starts with one.
pub open spec fn u64_read(s: Seq<u8>) -> Option<(u64, nat)> {
    if s.len() >= 9 && s[0] == 0xcf {
        Some((be_value(s.subrange(1, 9)) as u64, 9))
    } else {
        None
    }
}

/// `256` to the power `n`: the numbers that `n` bytes can hold.
pub open spec fn byte_limit(n: nat) -> nat
    decreases n,
{
    if n == 0 {
        1
    } else {
        256 * byte_limit((n - 1) as nat)
    }
}

/// A number that fits in `n` bytes is read back from its `n` bytes.
pub proof fn lemma_be_roundtrip(v: nat, n: nat)
    requires
        v < byte_limit(n),
    ensures
        be_bytes(v, n).len() == n,
        be_value(be_bytes(v, n)) == v,
    decreases n,
{
    if n > 0 {
        let q = v / 256;
        let r = v % 256;
        let b = byte_limit((n - 1) as nat);
        assert(q < b && v == q * 256 + r) by (nonlinear_arith)
            requires
                v < 256 * b,
                q == v / 256,
                r == v % 256,
        ;
        lemma_be_roundtrip(q, (n - 1) as nat);
        let s = be_bytes(q, (n - 1) as nat).push(r as u8);
        assert(s.drop_last() =~= be_bytes(q, (n - 1) as nat));
    }
}

pub proof fn lemma_byte_limits()
    ensures
        byte_limit(2) == 0x10000,
        byte_limit(4) == 0x1_0000_0000,
        byte_limit(8) == 0x1_0000_0000_0000_0000,
{
    reveal_with_fuel(byte_limit, 9);
}

/// An array header is read back as the length it was written for, followed
/// by whatever came after it.
pub proof fn lemma_array_len_roundtrip(len: u32, rest: Seq<u8>)
    ensures
        array_len_read(array_len_bytes(len) + rest) == Some((len, array_len_bytes(len).len())),
        (array_len_bytes(len) + rest).skip(array_len_bytes(len).len() as int) == rest,
{
    lemma_byte_limits();
    let b = array_len_bytes(len);
    let s = b + rest;
    if len < 16 {
        assert(s[0] == (0x90 + len) as u8);
    } else if len < 0x10000 {
        lemma_be_roundtrip(len as nat, 2);
        assert(s.subrange(1, 3) =~= be_bytes(len as nat, 2));
    } else {
        lemma_be_roundtrip(len as nat, 4);
        assert(s.subrange(1, 5) =~= be_bytes(len as nat, 4));
    }
    assert(s.skip(b.len() as int) =~= rest);
}

/// A `u32` item is read back as its value, followed by whatever came after.
pub proof fn lemma_u32_roundtrip(v: u32, rest: Seq<u8>)
    ensures
        u32_read(u32_bytes(v) + rest) == Some((v, 5nat)),
        (u32_bytes(v) + rest).skip(5) == rest,
{
    lemma_byte_limits();
    lemma_be_roundtrip(v as nat, 4);
    let s = u32_bytes(v) + rest;
    assert(s.subrange(1, 5) =~= be_bytes(v as nat, 4));
    assert(s.skip(5) =~= rest);
}

/// A `u64` item is read back as its value, followed by whatever came after.
pub proof fn lemma_u64_roundtrip(v: u64, rest: Seq<u8>)
    ensures
        u64_read(u64_bytes(v) + rest) == Some((v, 9nat)),
        (u64_bytes(v) + rest).skip(9) == rest,
{
    lemma_byte_limits();
    lemma_be_roundtrip(v as nat, 8);
    let s = u64_bytes(v) + rest;
    assert(s.subrange(1, 9) =~= be_bytes(v as nat, 8));
    assert(s.skip(9) =~= rest);
}

/// `rmp::encode::write_array_len` into a `ByteBuf`: appends the shortest
/// array header for `len`. Writing into a `ByteBuf` cannot fail: its error
/// type is `Infallible`, so the result is always `Some`.
#[verifier::external_body]
pub(crate) fn write_array_len(buf: &mut ByteBuf, len: u32) -> (r: Option<()>)
    ensures
        r is Some,
        buf_bytes(*final(buf)) == buf_bytes(*old(buf)) + array_len_bytes(len),
{
    match rmp::encode::write_array_len(buf, len) {
        Ok(_) => Some(()),
        Err(_) => None,
    }
}

/// `rmp::encode::write_u32` into a `ByteBuf`: appends the `u32` marker and
/// the value in four bytes, most significant first. Cannot fail.
#[verifier::external_body]
pub(crate) fn write_u32(buf: &mut ByteBuf, v: u32) -> (r: Option<()>)
    ensures
        r is Some,
        buf_bytes(*final(buf)) == buf_bytes(*old(buf)) + u32_bytes(v),
{
    match rmp::encode::write_u32(buf, v) {
        Ok(_) => Some(()),
        Err(_) => None,
    }
}

/// `rmp::encode::write_u64` into a `ByteBuf`: appends the `u64` marker and
/// the value in eight bytes, most significant first. Cannot fail.
#[verifier::external_body]
pub(crate) fn write_u64(buf: &mut ByteBuf, v: u64) -> (r: Option<()>)
    ensures
        r is Some,
        buf_bytes(*final(buf)) == buf_bytes(*old(buf)) + u64_bytes(v),
{
    match rmp::encode::write_u64(buf, v) {
        Ok(_) => Some(()),
        Err(_) => None,
    }
}

/// `rmp::decode::read_array_len` from `Bytes`: reads an array header and
/// consumes it; `None` when the bytes left do not start with one, and then
/// nothing is said of what was consumed.
#[verifier::external_body]
pub(crate) fn read_array_len(src: &mut Bytes<'_>) -> (r: Option<u32>)
    ensures
        match array_len_read(unread(*old(src))) {
            Some((v, n)) => r == Some(v) && unread(*final(src))
                == unread(*old(src)).skip(n as int),
            None => r is None,
        },
{
    match rmp::decode::read_array_len(src) {
        Ok(v) => Some(v),
        Err(_) => None,
    }
}

/// `rmp::decode::read_u32` from `Bytes`: reads a `u32` item and consumes
/// it; `None` when the bytes left do not start with one, and then
/// nothing is said of what was consumed.
#[verifier::external_body]
pub(crate) fn read_u32(src: &mut Bytes<'_>) -> (r: Option<u32>)
    ensures
        match u32_read(unread(*old(src))) {
            Some((v, n)) => r == Some(v) && unread(*final(src))
                == unread(*old(src)).skip(n as int),
            None => r is None,
        },
{
    match rmp::decode::read_u32(src) {
        Ok(v) => Some(v),
        Err(_) => None,
    }
}

/// `rmp::decode::read_u64` from `Bytes`: reads a `u64` item and consumes
/// it; `None` when the bytes left do not start with one, and then
/// nothing is said of what was consumed.
#[verifier::external_body]
pub(crate) fn read_u64(src: &mut Bytes<'_>) -> (r: Option<u64>)
    ensures
        match u64_read(unread(*old(src))) {
            Some((v, n)) => r == Some(v) && unread(*final(src))
                == unread(*old(src)).skip(n as int),
            None => r is None,
        },
{
    match rmp::decode::read_u64(src) {
        Ok(v) => Some(v),
        Err(_) => None,
    }
}

/// `rmp::decode::Bytes::new`: a reader at the start of `bytes`, with all
/// of them left to read.
#[verifier::external_body]
pub(crate) fn reader<'a>(bytes: &'a [u8]) -> (r: Bytes<'a>)
    ensures
        unread(r) == bytes@,
{
    Bytes::new(bytes)
}

/// `rmp::encode::ByteBuf::new`: an empty buffer.
#[verifier::external_body]
pub(crate) fn new_buf() -> (b: ByteBuf)
    ensures
        buf_bytes(b) == Seq::<u8>::empty(),
{
    ByteBuf::new()
}

/// `rmp::encode::ByteBuf::into_vec`: the bytes the buffer holds.
#[verifier::external_body]
pub(crate) fn buf_into_vec(b: ByteBuf) -> (v: Vec<u8>)
    ensures
        v@ == buf_bytes(b),
{
    b.into_vec()
}

} // verus!
