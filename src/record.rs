//! The mutation record shared by the log and the sorted table:
//! byte 0 is the operation (1 = put, 2 = delete), then a 32-bit key length,
//! the key, and for a put a 32-bit value length and the value.
use vstd::prelude::*;
use crate::bytes::{le32, u32_le, lemma_le32_of_u32_le, push_u32_le, read_u32_le, push_bytes, copy_range};

verus! {

/// Why bytes could not be decoded.
#[derive(Clone, Copy, Debug, PartialEq, Eq, Structural)]
pub enum DecodeError {
    /// A length field or the bytes it announces run past the end of the input.
    Truncated,
    /// A record starts with an operation byte other than put or delete.
    UnknownOperation,
    /// An immutable-file entry has a negative value length other than the tombstone mark.
    BadValueLength,
}

/// The operation byte of a put record.
pub const OP_PUT: u8 = 1;

/// The operation byte of a delete record.
pub const OP_DELETE: u8 = 2;

/// What a record does: the key it touches and the slot it leaves there
/// (`Some(value)` for a put, `None`, a tombstone, for a delete).
pub type Mutation = (Seq<u8>, Option<Seq<u8>>);

/// The bytes of a put record.
pub open spec fn put_record(key: Seq<u8>, value: Seq<u8>) -> Seq<u8>
    recommends
        key.len() <= u32::MAX,
        value.len() <= u32::MAX,
{
    seq![OP_PUT] + u32_le(key.len() as u32) + key + u32_le(value.len() as u32) + value
}

/// The bytes of a delete record.
pub open spec fn delete_record(key: Seq<u8>) -> Seq<u8>
    recommends
        key.len() <= u32::MAX,
{
    seq![OP_DELETE] + u32_le(key.len() as u32) + key
}

/// The bytes of the record for a mutation.
pub open spec fn mutation_record(key: Seq<u8>, slot: Option<Seq<u8>>) -> Seq<u8> {
    match slot {
        Some(v) => put_record(key, v),
        None => delete_record(key),
    }
}

/// What a record means. Bytes after a complete record are ignored.
pub open spec fn parse_record(s: Seq<u8>) -> Result<Mutation, DecodeError> {
    if s.len() < 5 {
        Err(DecodeError::Truncated)
    } else {
        let klen = le32(s.subrange(1, 5)) as int;
        if s.len() < 5 + klen {
            Err(DecodeError::Truncated)
        } else {
            let key = s.subrange(5, 5 + klen);
            if s[0] == OP_DELETE {
                Ok((key, None))
            } else if s[0] != OP_PUT {
                Err(DecodeError::UnknownOperation)
            } else if s.len() < 9 + klen {
                Err(DecodeError::Truncated)
            } else {
                let vlen = le32(s.subrange(5 + klen, 9 + klen)) as int;
                if s.len() < 9 + klen + vlen {
                    Err(DecodeError::Truncated)
                } else {
                    Ok((key, Some(s.subrange(9 + klen, 9 + klen + vlen))))
                }
            }
        }
    }
}

/// Decoding a record gives back the mutation it was written for.
pub proof fn lemma_parse_mutation_record(key: Seq<u8>, slot: Option<Seq<u8>>)
    requires
        key.len() <= u32::MAX,
        slot is Some ==> slot->0.len() <= u32::MAX,
    ensures
        parse_record(mutation_record(key, slot)) == Ok::<Mutation, DecodeError>((key, slot)),
{
    lemma_le32_of_u32_le(key.len() as u32);
    let s = mutation_record(key, slot);
    let kl = key.len() as int;
    assert(s.subrange(1, 5) =~= u32_le(key.len() as u32));
    assert(s.subrange(5, 5 + kl) =~= key);
    match slot {
        Some(v) => {
            lemma_le32_of_u32_le(v.len() as u32);
            assert(s.subrange(5 + kl, 9 + kl) =~= u32_le(v.len() as u32));
            assert(s.subrange(9 + kl, 9 + kl + v.len() as int) =~= v);
        },
        None => {},
    }
}

/// Encodes a put record.
pub fn encode_put(key: &[u8], value: &[u8]) -> (r: Vec<u8>)
    requires
        key@.len() <= u32::MAX,
        value@.len() <= u32::MAX,
    ensures
        r@ == put_record(key@, value@),
{
    let mut r: Vec<u8> = Vec::new();
    r.push(OP_PUT);
    push_u32_le(&mut r, key.len() as u32);
    push_bytes(&mut r, key);
    push_u32_le(&mut r, value.len() as u32);
    push_bytes(&mut r, value);
    r
}

/// Encodes a delete record.
pub fn encode_delete(key: &[u8]) -> (r: Vec<u8>)
    requires
        key@.len() <= u32::MAX,
    ensures
        r@ == delete_record(key@),
{
    let mut r: Vec<u8> = Vec::new();
    r.push(OP_DELETE);
    push_u32_le(&mut r, key.len() as u32);
    push_bytes(&mut r, key);
    r
}

/// Decodes a record into the key it touches and the slot it leaves there.
pub fn decode_record(rec: &[u8]) -> (r: Result<(Vec<u8>, Option<Vec<u8>>), DecodeError>)
    ensures
        match (r, parse_record(rec@)) {
            (Ok((k, Some(v))), Ok((sk, Some(sv)))) => k@ == sk && v@ == sv,
            (Ok((k, None)), Ok((sk, None))) => k@ == sk,
            (Err(e), Err(se)) => e == se,
            _ => false,
        },
{
    let n = rec.len();
    if n < 5 {
        return Err(DecodeError::Truncated);
    }
    let op = rec[0];
    let klen = read_u32_le(rec, 1) as usize;
    if n - 5 < klen {
        return Err(DecodeError::Truncated);
    }
    let key = copy_range(rec, 5, 5 + klen);
    if op == OP_DELETE {
        return Ok((key, None));
    }
    if op != OP_PUT {
        return Err(DecodeError::UnknownOperation);
    }
    if n - 5 - klen < 4 {
        return Err(DecodeError::Truncated);
    }
    let vlen = read_u32_le(rec, 5 + klen) as usize;
    if n - 9 - klen < vlen {
        return Err(DecodeError::Truncated);
    }
    let value = copy_range(rec, 9 + klen, 9 + klen + vlen);
    Ok((key, Some(value)))
}

} // verus!
