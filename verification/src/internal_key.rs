//! Versioned, ordered key encoding.
//!
//! An `InternalKey` augments a user key with a sequence number and an
//! operation tag. Keys sort by user key ascending, then by sequence number
//! descending (the newest write sorts first), then by tag with `Delete`
//! before `Put`. The binary encoding is the user key followed by the
//! sequence number as 8 big-endian bytes and one tag byte (0 for `Delete`,
//! 1 for `Put`).

use vstd::prelude::*;
use vstd::slice::{slice_subrange, slice_to_vec};

use crate::encoding::{
    bytes_lt, get_u64_be, lemma_bytes_lt_connex, lemma_bytes_lt_irreflexive,
    lemma_bytes_lt_transitive, lemma_u64_be_bytes_roundtrip, put_u64_be, spec_u64_from_be_bytes,
    spec_u64_to_be_bytes,
};
use crate::encoding::{bytes_equal, bytes_less_than};
use crate::storage_errors::StorageError;

verus! {

/// The operation recorded by a key: a deletion tombstone or a put.
#[derive(Debug, Clone, Copy, PartialEq, Eq, Structural)]
pub enum KeyType {
    Delete,
    Put,
}

/// The mathematical value of an `InternalKey`.
#[verifier::ext_equal]
pub struct KeyModel {
    pub user_key: Seq<u8>,
    pub sequence_number: u64,
    pub key_type: KeyType,
}

/// The tag byte of the key encoding: 0 for `Delete`, 1 for `Put`.
pub open spec fn spec_tag_byte(t: KeyType) -> u8 {
    match t {
        KeyType::Delete => 0,
        KeyType::Put => 1,
    }
}

/// The strict total order on keys: user key ascending, then sequence number
/// descending, then `Delete` before `Put`.
pub open spec fn key_model_lt(a: KeyModel, b: KeyModel) -> bool {
    ||| bytes_lt(a.user_key, b.user_key)
    ||| (a.user_key == b.user_key && a.sequence_number > b.sequence_number)
    ||| (a.user_key == b.user_key && a.sequence_number == b.sequence_number
        && a.key_type is Delete && b.key_type is Put)
}

/// No key sorts before itself.
pub proof fn lemma_key_lt_irreflexive(a: KeyModel)
    ensures
        !key_model_lt(a, a),
{
    lemma_bytes_lt_irreflexive(a.user_key);
}

/// Two keys that neither sorts before the other are equal.
pub proof fn lemma_key_lt_connex(a: KeyModel, b: KeyModel)
    requires
        !key_model_lt(a, b),
        !key_model_lt(b, a),
    ensures
        a == b,
{
    lemma_bytes_lt_connex(a.user_key, b.user_key);
    assert(a =~= b);
}

/// The key order is transitive.
pub proof fn lemma_key_lt_transitive(a: KeyModel, b: KeyModel, c: KeyModel)
    requires
        key_model_lt(a, b),
        key_model_lt(b, c),
    ensures
        key_model_lt(a, c),
{
    if bytes_lt(a.user_key, b.user_key) && bytes_lt(b.user_key, c.user_key) {
        lemma_bytes_lt_transitive(a.user_key, b.user_key, c.user_key);
    }
}

/// Among keys with equal user keys, the one with the larger sequence
/// number sorts first; with equal sequence numbers a deletion sorts before
/// a put.
pub proof fn lemma_key_order_same_user_key(a: KeyModel, b: KeyModel)
    requires
        a.user_key == b.user_key,
    ensures
        a.sequence_number > b.sequence_number ==> key_model_lt(a, b),
        (a.sequence_number == b.sequence_number && a.key_type is Delete && b.key_type is Put)
            ==> key_model_lt(a, b),
{
}

/// The binary encoding of a key: user key, 8 big-endian bytes of the
/// sequence number, one tag byte.
pub open spec fn spec_encode_key(k: KeyModel) -> Seq<u8> {
    k.user_key + spec_u64_to_be_bytes(k.sequence_number) + seq![spec_tag_byte(k.key_type)]
}

/// The key read back from an encoding, or `None` when the input is shorter
/// than 9 bytes or its tag byte is unrecognized.
pub open spec fn spec_decode_key(data: Seq<u8>) -> Option<KeyModel> {
    if data.len() < 9 {
        None
    } else if data.last() == 0 || data.last() == 1 {
        Some(
            KeyModel {
                user_key: data.take(data.len() - 9),
                sequence_number: spec_u64_from_be_bytes(
                    data.subrange(data.len() - 9, data.len() - 1),
                ),
                key_type: if data.last() == 0 {
                    KeyType::Delete
                } else {
                    KeyType::Put
                },
            },
        )
    } else {
        None
    }
}

/// Decoding an encoded key restores it exactly.
pub proof fn lemma_key_roundtrip(k: KeyModel)
    ensures
        spec_decode_key(spec_encode_key(k)) == Some(k),
{
    let e = spec_encode_key(k);
    assert(e.len() == k.user_key.len() + 9);
    assert(e.last() == spec_tag_byte(k.key_type));
    assert(e.take(e.len() - 9) =~= k.user_key);
    assert(e.subrange(e.len() - 9, e.len() - 1) =~= spec_u64_to_be_bytes(k.sequence_number));
    lemma_u64_be_bytes_roundtrip(k.sequence_number);
    assert(spec_decode_key(e) == Some(k)) by {
        let d = spec_decode_key(e).unwrap();
        assert(d =~= k);
    }
}

/// A user key together with the sequence number and operation tag of one
/// write, giving the write a unique, totally ordered identity.
#[derive(Debug, Clone)]
pub struct InternalKey {
    pub user_key: Vec<u8>,
    pub sequence_number: u64,
    pub key_type: KeyType,
}

impl View for InternalKey {
    type V = KeyModel;

    open spec fn view(&self) -> KeyModel {
        KeyModel {
            user_key: self.user_key@,
            sequence_number: self.sequence_number,
            key_type: self.key_type,
        }
    }
}

impl InternalKey {
    /// Builds a key from its parts.
    pub fn new(user_key: Vec<u8>, sequence_number: u64, key_type: KeyType) -> (r: InternalKey)
        ensures
            r@ == (KeyModel { user_key: user_key@, sequence_number, key_type }),
    {
        InternalKey { user_key, sequence_number, key_type }
    }

    /// True iff this key is a deletion tombstone.
    pub fn is_deletion(&self) -> (r: bool)
        ensures
            r == (self@.key_type is Delete),
    {
        matches!(self.key_type, KeyType::Delete)
    }

    /// Serializes the key into its binary encoding.
    pub fn encode(&self) -> (r: Vec<u8>)
        ensures
            r@ == spec_encode_key(self@),
    {
        let mut result: Vec<u8> = slice_to_vec(self.user_key.as_slice());
        put_u64_be(&mut result, self.sequence_number);
        let tag: u8 = match self.key_type {
            KeyType::Delete => 0,
            KeyType::Put => 1,
        };
        result.push(tag);
        proof {
            assert(result@ =~= spec_encode_key(self@));
        }
        result
    }

    /// Parses a key from its binary encoding. Fails with a `DecodeError`
    /// when the input is shorter than 9 bytes or the tag byte is
    /// unrecognized.
    pub fn decode(data: &[u8]) -> (r: Result<InternalKey, StorageError>)
        ensures
            match r {
                Ok(k) => spec_decode_key(data@) == Some(k@),
                Err(e) => spec_decode_key(data@) is None && e is DecodeError,
            },
    {
        let dl = data.len();
        if dl < 9 {
            return Err(
                StorageError::DecodeError(
                    "expected minimum 9 bytes [8 sequence_number, 1 key_type]".to_string(),
                ),
            );
        }
        let seq_u64 = get_u64_be(data, dl - 9);
        let kt = *vstd::slice::slice_index_get(data, dl - 1);
        let key_type = match kt {
            0u8 => KeyType::Delete,
            1u8 => KeyType::Put,
            _ => {
                return Err(
                    StorageError::DecodeError(
                        "could not parse key type from last byte".to_string(),
                    ),
                );
            },
        };
        let user_key = slice_to_vec(slice_subrange(data, 0, dl - 9));
        let k = InternalKey { user_key, sequence_number: seq_u64, key_type };
        proof {
            assert(data@.last() == kt);
            assert(data@.take(data@.len() - 9) =~= data@.subrange(0, data@.len() - 9));
            assert(spec_decode_key(data@).unwrap() =~= k@);
        }
        Ok(k)
    }

    /// Decides whether this key sorts strictly before `other`.
    pub fn precedes(&self, other: &InternalKey) -> (r: bool)
        ensures
            r == key_model_lt(self@, other@),
    {
        if bytes_less_than(self.user_key.as_slice(), other.user_key.as_slice()) {
            return true;
        }
        if !bytes_equal(self.user_key.as_slice(), other.user_key.as_slice()) {
            return false;
        }
        if self.sequence_number > other.sequence_number {
            return true;
        }
        if self.sequence_number < other.sequence_number {
            return false;
        }
        matches!(self.key_type, KeyType::Delete) && matches!(other.key_type, KeyType::Put)
    }

    /// Decides exact equality of two keys: user key, sequence number and
    /// tag all match.
    pub fn key_eq(&self, other: &InternalKey) -> (r: bool)
        ensures
            r == (self@ == other@),
    {
        let r = bytes_equal(self.user_key.as_slice(), other.user_key.as_slice())
            && self.sequence_number == other.sequence_number && self.key_type == other.key_type;
        proof {
            if r {
                assert(self@ =~= other@);
            }
        }
        r
    }
}

} // verus!
