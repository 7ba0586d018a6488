//! The protobuf primitives of `prost` that block classification steps
//! through fields with.
use vstd::prelude::*;

verus! {

/// `128^i`.
pub open spec fn pow128(i: nat) -> nat
    decreases i,
{
    if i == 0 { 1 } else { 128 * pow128((i - 1) as nat) }
}

/// A base-128 varint read from byte `i` on, `acc` holding the value of the
/// bytes before: seven bits per byte, lowest first, ended by a byte below
/// `0x80`; at most ten bytes, the tenth below `2`.
pub open spec fn varint_from(buf: Seq<u8>, i: nat, acc: nat) -> Option<(u64, nat)>
    decreases 10 - i,
{
    if i >= 10 || i >= buf.len() {
        None
    } else if buf[i as int] < 128 {
        if i == 9 && buf[i as int] >= 2 {
            None
        } else {
            Some(((acc + buf[i as int] * pow128(i)) as u64, i + 1))
        }
    } else {
        varint_from(buf, i + 1, acc + (buf[i as int] - 128) as nat * pow128(i))
    }
}

/// What `prost::encoding::decode_varint` reads from the front of `buf`: the
/// value and the number of bytes it took, or nothing where it fails.
pub open spec fn varint_of(buf: Seq<u8>) -> Option<(u64, nat)> {
    varint_from(buf, 0, 0)
}

/// What `prost::encoding::decode_key` reads from the front of `buf`: a
/// varint key of at most 32 bits, split into the field tag (at least 1) and
/// the wire type (at most 5), with the bytes it took.
pub open spec fn key_of(buf: Seq<u8>) -> Option<(u32, u8, nat)> {
    match varint_of(buf) {
        None => None,
        Some(v) => if v.0 > u32::MAX || v.0 % 8 > 5 || v.0 / 8 < 1 {
            None
        } else {
            Some(((v.0 / 8) as u32, (v.0 % 8) as u8, v.1))
        },
    }
}

/// How many bytes `prost::encoding::skip_field` skips at the front of `buf`
/// for a field of wire type `wire_type` and tag `tag`.
pub uninterp spec fn skip_of(wire_type: u8, tag: u32, buf: Seq<u8>) -> Option<nat>;

/// A varint takes at least one byte and no more than there are.
pub proof fn lemma_varint_len(buf: Seq<u8>, i: nat, acc: nat)
    requires
        varint_from(buf, i, acc) is Some,
    ensures
        i < varint_from(buf, i, acc)->Some_0.1 <= buf.len(),
    decreases 10 - i,
{
    if i < 10 && i < buf.len() && buf[i as int] >= 128 {
        lemma_varint_len(buf, i + 1, acc + (buf[i as int] - 128) as nat * pow128(i));
    }
}

/// A key takes at least one byte and no more than there are, and its wire
/// type is at most 5.
pub proof fn lemma_key_len(buf: Seq<u8>)
    requires
        key_of(buf) is Some,
    ensures
        1 <= key_of(buf)->Some_0.2 <= buf.len(),
        key_of(buf)->Some_0.1 <= 5,
{
    lemma_varint_len(buf, 0, 0);
}

/// Relies on `prost::encoding::decode_varint`: a varint of one to ten bytes
/// at the front of `buf`, see `varint_of`.
#[verifier::external_body]
pub(crate) fn decode_varint(buf: &[u8]) -> (r: Option<(u64, usize)>)
    ensures
        r == (match varint_of(buf@) { Some(v) => Some((v.0, v.1 as usize)), None => None::<(u64, usize)> }),
{
    let mut b = buf;
    let v = prost::encoding::decode_varint(&mut b).ok()?;
    Some((v, buf.len() - b.len()))
}

/// Relies on `prost::encoding::decode_key`: a varint key at the front of
/// `buf`, split into its tag and its wire type, see `key_of`.
#[verifier::external_body]
pub(crate) fn decode_key(buf: &[u8]) -> (r: Option<(u32, u8, usize)>)
    ensures
        r == (match key_of(buf@) { Some(k) => Some((k.0, k.1, k.2 as usize)), None => None::<(u32, u8, usize)> }),
{
    let mut b = buf;
    let (tag, wire_type) = prost::encoding::decode_key(&mut b).ok()?;
    Some((tag, wire_type as u8, buf.len() - b.len()))
}

/// Relies on `prost::encoding::skip_field`: the bytes of the rest of a field
/// whose key was read, within `buf`.
#[verifier::external_body]
pub(crate) fn skip_field(wire_type: u8, tag: u32, buf: &[u8]) -> (r: Option<usize>)
    requires
        wire_type <= 5,
    ensures
        r == (match skip_of(wire_type, tag, buf@) { Some(n) => Some(n as usize), None => None::<usize> }),
        r is Some ==> skip_of(wire_type, tag, buf@)->Some_0 <= buf@.len(),
{
    let wt = prost::encoding::WireType::try_from(wire_type as u64).ok()?;
    let mut b = buf;
    prost::encoding::skip_field(wt, tag, &mut b, prost::encoding::DecodeContext::default()).ok()?;
    Some(buf.len() - b.len())
}

} // verus!
