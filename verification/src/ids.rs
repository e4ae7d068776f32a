//! Sixteen-byte identifiers.

use vstd::prelude::*;

verus! {

/// The number that the bytes spell, most significant byte first.
pub open spec fn big_endian(bytes: Seq<u8>) -> nat
    decreases bytes.len(),
{
    if bytes.len() == 0 {
        0
    } else {
        big_endian(bytes.drop_last()) * 256 + bytes.last() as nat
    }
}

/// `uuid::Uuid::from_slice`, read back with `as_u128`: succeeds exactly on
/// sixteen bytes and gives the number they spell, most significant byte first.
#[verifier::external_body]
pub(crate) fn uuid_from_slice(bytes: &[u8]) -> (id: Option<u128>)
    ensures
        id is Some <==> bytes@.len() == 16,
        id matches Some(n) ==> n == big_endian(bytes@),
{
    uuid::Uuid::from_slice(bytes).ok().map(|id| id.as_u128())
}

/// `uuid::Uuid::as_bytes` of the identifier with this number: sixteen bytes that
/// spell it, most significant byte first.
#[verifier::external_body]
pub(crate) fn uuid_as_bytes(id: u128) -> (bytes: Vec<u8>)
    ensures
        bytes@.len() == 16,
        big_endian(bytes@) == id,
{
    uuid::Uuid::from_u128(id).as_bytes().to_vec()
}

/// `uuid::Uuid::new_v4`: some identifier.  Nothing is said of its value, which is
/// random.
#[verifier::external_body]
pub(crate) fn uuid_random() -> (id: u128) {
    uuid::Uuid::new_v4().as_u128()
}

/// Byte strings of one length that spell the same number are the same.
pub proof fn lemma_big_endian_injective(a: Seq<u8>, b: Seq<u8>)
    requires
        a.len() == b.len(),
        big_endian(a) == big_endian(b),
    ensures
        a == b,
    decreases a.len(),
{
    if a.len() > 0 {
        let x = big_endian(a.drop_last());
        let y = big_endian(b.drop_last());
        assert(x == y && a.last() == b.last());
        lemma_big_endian_injective(a.drop_last(), b.drop_last());
        assert(a =~= a.drop_last().push(a.last()));
        assert(b =~= b.drop_last().push(b.last()));
    } else {
        assert(a =~= b);
    }
}

/// Reads an identifier out of request bytes; `None` unless there are sixteen.
pub fn parse_id(bytes: &Vec<u8>) -> (id: Option<u128>)
    ensures
        id is Some <==> bytes@.len() == 16,
        id matches Some(n) ==> n == big_endian(bytes@),
{
    uuid_from_slice(bytes.as_slice())
}

/// The sixteen bytes of an identifier.
pub fn id_bytes(id: u128) -> (bytes: Vec<u8>)
    ensures
        bytes@.len() == 16,
        big_endian(bytes@) == id,
{
    uuid_as_bytes(id)
}

/// Reading the bytes of an identifier gives it back, and writing what was read
/// gives the bytes back.
pub proof fn law_id_round_trip(id: u128, bytes: Seq<u8>, written: Seq<u8>)
    requires
        bytes.len() == 16,
        written.len() == 16,
        big_endian(written) == id,
    ensures
        big_endian(bytes) == id <==> written == bytes,
{
    if big_endian(bytes) == id {
        lemma_big_endian_injective(written, bytes);
    }
}

} // verus!
