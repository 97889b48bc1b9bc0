//! Protocol-buffer wire framing: the byte sequences that fields of each wire
//! type produce, and the calls into prost's encoding primitives.
use vstd::prelude::*;

verus! {

/// Largest protocol-buffer field number.
pub const MAX_FIELD: u32 = 0x1fff_ffff;

/// LEB128 encoding of `v`: seven bits per byte, low bits first, the high bit
/// set on every byte but the last.
pub open spec fn varint(v: nat) -> Seq<u8>
    decreases v,
{
    if v < 128 {
        seq![v as u8]
    } else {
        seq![(v % 128 + 128) as u8] + varint(v / 128)
    }
}

/// Concatenated varints of `vals`.
pub open spec fn varints(vals: Seq<u32>) -> Seq<u8>
    decreases vals.len(),
{
    if vals.len() == 0 {
        Seq::empty()
    } else {
        varints(vals.drop_last()) + varint(vals.last() as nat)
    }
}

/// The `n` low bytes of `v`, least significant first.
pub open spec fn le_bytes(v: nat, n: nat) -> Seq<u8>
    decreases n,
{
    if n == 0 {
        Seq::empty()
    } else {
        seq![(v % 256) as u8] + le_bytes(v / 256, (n - 1) as nat)
    }
}

/// Key of a field: its number and wire type.
pub open spec fn field_key(field: nat, wire_type: nat) -> Seq<u8> {
    varint(field * 8 + wire_type)
}

/// A varint field (wire type 0).
pub open spec fn varint_field(field: nat, v: nat) -> Seq<u8> {
    field_key(field, 0) + varint(v)
}

/// A fixed 64-bit field (wire type 1).
pub open spec fn fixed64_field(field: nat, v: nat) -> Seq<u8> {
    field_key(field, 1) + le_bytes(v, 8)
}

/// A length-delimited field (wire type 2).
pub open spec fn bytes_field(field: nat, b: Seq<u8>) -> Seq<u8> {
    field_key(field, 2) + varint(b.len()) + b
}

/// A packed repeated `uint32` field; absent when there are no values.
pub open spec fn packed_field(field: nat, vals: Seq<u32>) -> Seq<u8> {
    if vals.len() == 0 {
        Seq::empty()
    } else {
        bytes_field(field, varints(vals))
    }
}

/// Relies on prost::encoding::encode_varint: appends the LEB128 encoding of `v`.
#[verifier::external_body]
pub(crate) fn put_varint(v: u64, buf: &mut Vec<u8>)
    ensures
        final(buf)@ == old(buf)@ + varint(v as nat),
{
    prost::encoding::encode_varint(v, buf)
}

/// Relies on prost::encoding::uint64::encode: appends the key of `field` with
/// wire type 0, then the varint of `v`.
#[verifier::external_body]
pub(crate) fn put_varint_field(field: u32, v: u64, buf: &mut Vec<u8>)
    requires
        1 <= field <= MAX_FIELD,
    ensures
        final(buf)@ == old(buf)@ + varint_field(field as nat, v as nat),
{
    prost::encoding::uint64::encode(field, &v, buf)
}

/// Relies on prost::encoding::fixed64::encode: appends the key of `field` with
/// wire type 1, then the eight bytes of `v`, least significant first.
#[verifier::external_body]
pub(crate) fn put_fixed64_field(field: u32, v: u64, buf: &mut Vec<u8>)
    requires
        1 <= field <= MAX_FIELD,
    ensures
        final(buf)@ == old(buf)@ + fixed64_field(field as nat, v as nat),
{
    prost::encoding::fixed64::encode(field, &v, buf)
}

/// Relies on prost::encoding::bytes::encode: appends the key of `field` with
/// wire type 2, the varint of the length of `b`, then `b`.
#[verifier::external_body]
pub(crate) fn put_bytes_field(field: u32, b: &Vec<u8>, buf: &mut Vec<u8>)
    requires
        1 <= field <= MAX_FIELD,
    ensures
        final(buf)@ == old(buf)@ + bytes_field(field as nat, b@),
{
    prost::encoding::bytes::encode(field, b, buf)
}

/// Appends the packed field `field` holding `vals`; nothing when `vals` is empty.
pub fn put_packed_field(field: u32, vals: &Vec<u32>, buf: &mut Vec<u8>)
    requires
        1 <= field <= MAX_FIELD,
    ensures
        final(buf)@ == old(buf)@ + packed_field(field as nat, vals@),
{
    if vals.len() == 0 {
        assert(old(buf)@ + Seq::<u8>::empty() =~= old(buf)@);
        return ;
    }
    let mut payload: Vec<u8> = Vec::new();
    let mut i: usize = 0;
    while i < vals.len()
        invariant
            i <= vals.len(),
            payload@ == varints(vals@.take(i as int)),
        decreases vals.len() - i,
    {
        put_varint(vals[i] as u64, &mut payload);
        assert(vals@.take(i + 1).drop_last() =~= vals@.take(i as int));
        i += 1;
    }
    assert(vals@.take(vals.len() as int) =~= vals@);
    put_bytes_field(field, &payload, buf);
}

} // verus!
