//! Binary format of the write-ahead log.
//!
//! One record is written as a single contiguous append:
//! a tag byte (0 for a put, 1 for a delete), the key length as 4
//! big-endian bytes, the encoded key, the value length as 4 big-endian
//! bytes, the value (empty for a delete), and a CRC-32 checksum over all
//! of the preceding bytes, again as 4 big-endian bytes.
//!
//! Replay scans the log from the start, one record at a time; a short or
//! truncated read, an unrecognized tag, or a checksum mismatch ends the
//! valid log, it is not a fatal error.

use vstd::prelude::*;
use vstd::slice::{slice_index_get, slice_subrange};

use crate::encoding::{
    append_bytes, get_u32_be, lemma_u32_be_bytes_roundtrip, put_u32_be, spec_u32_from_be_bytes,
    spec_u32_to_be_bytes,
};
use crate::internal_key::{spec_encode_key, InternalKey};
use crate::logentry::{EntryType, LogEntry, LogEntryModel};

verus! {

/// What `crc32fast::hash` returns for a byte string: a function of those
/// bytes alone.
pub uninterp spec fn crc32_of(data: Seq<u8>) -> u32;

/// Relies on crc32fast::hash: computes the CRC-32 checksum of the bytes.
#[verifier::external_body]
fn crc32(data: &[u8]) -> (r: u32)
    ensures
        r == crc32_of(data@),
{
    crc32fast::hash(data)
}

/// The tag byte of a log record: 0 for a put, 1 for a delete.
pub open spec fn spec_wal_tag(t: EntryType) -> u8 {
    match t {
        EntryType::Put => 0,
        EntryType::Delete => 1,
    }
}

/// An entry whose lengths fit the 4-byte length fields.
pub open spec fn wal_entry_wf(e: LogEntryModel) -> bool {
    e.key.len() <= u32::MAX && e.value.len() <= u32::MAX
}

/// The checksummed region of a record: everything before the checksum.
pub open spec fn spec_record_payload(e: LogEntryModel) -> Seq<u8> {
    seq![spec_wal_tag(e.entry_type)] + spec_u32_to_be_bytes(e.key.len() as u32) + e.key
        + spec_u32_to_be_bytes(e.value.len() as u32) + e.value
}

/// The full on-disk bytes of one record.
pub open spec fn spec_record_bytes(e: LogEntryModel) -> Seq<u8> {
    spec_record_payload(e) + spec_u32_to_be_bytes(crc32_of(spec_record_payload(e)))
}

/// The on-disk bytes of a whole log: the records, concatenated in order.
pub open spec fn spec_wal_encode(entries: Seq<LogEntryModel>) -> Seq<u8>
    decreases entries.len(),
{
    if entries.len() == 0 {
        Seq::empty()
    } else {
        spec_record_bytes(entries[0]) + spec_wal_encode(entries.drop_first())
    }
}

// ---------------------------------------------------------------------------
// Reading one record off the front of a byte string
// ---------------------------------------------------------------------------

/// The key length read from the front record's length field.
pub open spec fn front_klen(data: Seq<u8>) -> int {
    spec_u32_from_be_bytes(data.subrange(1, 5)) as int
}

/// The value length read from the front record's length field.
pub open spec fn front_vlen(data: Seq<u8>) -> int {
    spec_u32_from_be_bytes(data.subrange(5 + front_klen(data), 9 + front_klen(data))) as int
}

/// The total byte length of the front record, checksum included.
pub open spec fn front_total(data: Seq<u8>) -> int {
    13 + front_klen(data) + front_vlen(data)
}

/// A full, well-tagged, checksum-correct record starts the byte string.
pub open spec fn front_valid(data: Seq<u8>) -> bool {
    &&& data.len() >= 13
    &&& (data[0] == 0 || data[0] == 1)
    &&& data.len() >= 9 + front_klen(data)
    &&& data.len() >= front_total(data)
    &&& spec_u32_from_be_bytes(data.subrange(front_total(data) - 4, front_total(data)))
        == crc32_of(data.take(front_total(data) - 4))
}

/// The entry carried by the front record.
pub open spec fn front_entry(data: Seq<u8>) -> LogEntryModel {
    LogEntryModel {
        entry_type: if data[0] == 0 {
            EntryType::Put
        } else {
            EntryType::Delete
        },
        key: data.subrange(5, 5 + front_klen(data)),
        value: data.subrange(9 + front_klen(data), 9 + front_klen(data) + front_vlen(data)),
    }
}

/// The sequence of valid records read off the front of a byte string,
/// stopping at the first spot where no full valid record starts.
pub open spec fn spec_replay(data: Seq<u8>) -> Seq<LogEntryModel>
    decreases data.len(),
{
    if front_valid(data) {
        seq![front_entry(data)] + spec_replay(data.skip(front_total(data)))
    } else {
        Seq::empty()
    }
}

/// A record followed by anything reads back as itself.
pub proof fn lemma_record_front(e: LogEntryModel, rest: Seq<u8>)
    requires
        wal_entry_wf(e),
    ensures
        ({
            let d = spec_record_bytes(e) + rest;
            &&& front_valid(d)
            &&& front_total(d) == spec_record_bytes(e).len()
            &&& front_entry(d) == e
            &&& d.skip(front_total(d)) == rest
        }),
{
    let p = spec_record_payload(e);
    let r = spec_record_bytes(e);
    let d = r + rest;
    let kl = e.key.len() as int;
    let vl = e.value.len() as int;
    assert(p.len() == 9 + kl + vl);
    assert(r.len() == 13 + kl + vl);
    lemma_u32_be_bytes_roundtrip(e.key.len() as u32);
    lemma_u32_be_bytes_roundtrip(e.value.len() as u32);
    assert(d.subrange(1, 5) =~= spec_u32_to_be_bytes(e.key.len() as u32));
    assert(front_klen(d) == kl);
    assert(d.subrange(5 + kl, 9 + kl) =~= spec_u32_to_be_bytes(e.value.len() as u32));
    assert(front_vlen(d) == vl);
    assert(front_total(d) == r.len());
    assert(d.take(front_total(d) - 4) =~= p);
    assert(d.subrange(front_total(d) - 4, front_total(d)) =~= spec_u32_to_be_bytes(crc32_of(p)));
    lemma_u32_be_bytes_roundtrip(crc32_of(p));
    assert(front_valid(d));
    assert(front_entry(d).key =~= e.key);
    assert(front_entry(d).value =~= e.value);
    assert(front_entry(d) =~= e);
    assert(d.skip(front_total(d)) =~= rest);
}

/// A strict prefix of a record starts no valid record: the length fields
/// that are present are the true ones, so the prefix is always too short.
pub proof fn lemma_record_prefix_invalid(e: LogEntryModel, t: int)
    requires
        wal_entry_wf(e),
        0 <= t < spec_record_bytes(e).len(),
    ensures
        !front_valid(spec_record_bytes(e).take(t)),
{
    let r = spec_record_bytes(e);
    let d = r.take(t);
    let kl = e.key.len() as int;
    let vl = e.value.len() as int;
    assert(r.len() == 13 + kl + vl);
    if t >= 13 {
        lemma_u32_be_bytes_roundtrip(e.key.len() as u32);
        assert(d.subrange(1, 5) =~= spec_u32_to_be_bytes(e.key.len() as u32));
        assert(front_klen(d) == kl);
        if t >= 9 + kl {
            lemma_u32_be_bytes_roundtrip(e.value.len() as u32);
            assert(d.subrange(5 + kl, 9 + kl) =~= spec_u32_to_be_bytes(e.value.len() as u32));
            assert(front_vlen(d) == vl);
            assert(front_total(d) == r.len() > t == d.len());
        }
    }
}

/// The number of leading records whose full encodings fit within the
/// first `t` bytes of the log.
pub open spec fn count_complete(entries: Seq<LogEntryModel>, t: int) -> int
    decreases entries.len(),
{
    if entries.len() == 0 {
        0
    } else if t >= spec_record_bytes(entries[0]).len() {
        1 + count_complete(entries.drop_first(), t - spec_record_bytes(entries[0]).len())
    } else {
        0
    }
}

/// The count of complete records never exceeds the record count.
pub proof fn lemma_count_complete_bounds(entries: Seq<LogEntryModel>, t: int)
    ensures
        0 <= count_complete(entries, t) <= entries.len(),
    decreases entries.len(),
{
    if entries.len() > 0 && t >= spec_record_bytes(entries[0]).len() {
        lemma_count_complete_bounds(entries.drop_first(), t - spec_record_bytes(entries[0]).len());
    }
}

/// Durability under truncation: cutting an encoded log at any byte
/// offset and replaying it yields exactly the records that fit whole
/// before the cut, with the torn tail ending the log silently.
#[verifier::rlimit(60)]
pub proof fn lemma_replay_of_truncated_log(entries: Seq<LogEntryModel>, t: int)
    requires
        forall|i: int| 0 <= i < entries.len() ==> wal_entry_wf(#[trigger] entries[i]),
        0 <= t <= spec_wal_encode(entries).len(),
    ensures
        spec_replay(spec_wal_encode(entries).take(t)) == entries.take(count_complete(entries, t)),
    decreases entries.len(),
{
    if entries.len() == 0 {
        assert(spec_wal_encode(entries).take(t) =~= Seq::<u8>::empty());
        assert(entries.take(0) =~= Seq::<LogEntryModel>::empty());
    } else {
        let e0 = entries[0];
        let r0 = spec_record_bytes(e0);
        let rest = entries.drop_first();
        let enc = spec_wal_encode(entries);
        let rest_enc = spec_wal_encode(rest);
        assert(enc == r0 + rest_enc);
        let d = enc.take(t);
        if t >= r0.len() {
            assert(d =~= r0 + rest_enc.take(t - r0.len()));
            lemma_record_front(e0, rest_enc.take(t - r0.len()));
            assert(front_valid(d) && front_total(d) == r0.len() && front_entry(d) == e0);
            assert(d.skip(front_total(d)) == rest_enc.take(t - r0.len()));
            lemma_replay_of_truncated_log(rest, t - r0.len());
            let c = count_complete(rest, t - r0.len());
            lemma_count_complete_bounds(rest, t - r0.len());
            assert(spec_replay(d) == seq![e0] + rest.take(c));
            assert(count_complete(entries, t) == 1 + c);
            assert(entries.take(1 + c) =~= seq![e0] + rest.take(c));
        } else {
            assert(d =~= r0.take(t));
            lemma_record_prefix_invalid(e0, t);
            assert(spec_replay(d) =~= Seq::<LogEntryModel>::empty());
            assert(count_complete(entries, t) == 0);
            assert(entries.take(0) =~= Seq::<LogEntryModel>::empty());
        }
    }
}

/// Round trip: replaying an untruncated log yields exactly the records
/// written to it, in order.
pub proof fn lemma_replay_of_encoded_log(entries: Seq<LogEntryModel>)
    requires
        forall|i: int| 0 <= i < entries.len() ==> wal_entry_wf(#[trigger] entries[i]),
    ensures
        spec_replay(spec_wal_encode(entries)) == entries,
    decreases entries.len(),
{
    if entries.len() == 0 {
        assert(spec_replay(spec_wal_encode(entries)) =~= entries);
    } else {
        let rest = entries.drop_first();
        lemma_record_front(entries[0], spec_wal_encode(rest));
        lemma_replay_of_encoded_log(rest);
        assert(seq![entries[0]] + rest =~= entries);
    }
}

// ---------------------------------------------------------------------------
// Executable encoding and replay
// ---------------------------------------------------------------------------

/// Builds the record bytes for one entry: the shared body of the put and
/// delete encoders.
fn encode_record(tag: u8, key_bytes: &Vec<u8>, value: &[u8]) -> (r: Vec<u8>)
    requires
        tag == 0 || tag == 1,
        key_bytes@.len() <= u32::MAX,
        value@.len() <= u32::MAX,
    ensures
        r@ == spec_record_bytes(
            LogEntryModel {
                entry_type: if tag == 0 {
                    EntryType::Put
                } else {
                    EntryType::Delete
                },
                key: key_bytes@,
                value: value@,
            },
        ),
{
    let ghost e = LogEntryModel {
        entry_type: if tag == 0 {
            EntryType::Put
        } else {
            EntryType::Delete
        },
        key: key_bytes@,
        value: value@,
    };
    let mut payload: Vec<u8> = Vec::new();
    payload.push(tag);
    let k_len: u32 = key_bytes.len() as u32;
    put_u32_be(&mut payload, k_len);
    append_bytes(&mut payload, key_bytes.as_slice());
    let v_len: u32 = value.len() as u32;
    put_u32_be(&mut payload, v_len);
    append_bytes(&mut payload, value);
    proof {
        assert(payload@ =~= spec_record_payload(e));
    }
    let crc = crc32(payload.as_slice());
    let mut out = payload;
    put_u32_be(&mut out, crc);
    proof {
        assert(out@ =~= spec_record_bytes(e));
    }
    out
}

/// The bytes appended to the log for a put of `key` and `value`.
pub fn encode_put(key: &InternalKey, value: &[u8]) -> (r: Vec<u8>)
    requires
        key@.user_key.len() + 9 <= u32::MAX,
        value@.len() <= u32::MAX,
    ensures
        r@ == spec_record_bytes(
            LogEntryModel {
                entry_type: EntryType::Put,
                key: spec_encode_key(key@),
                value: value@,
            },
        ),
{
    let k_bytes = key.encode();
    encode_record(0, &k_bytes, value)
}

/// The bytes appended to the log for a delete of `key`; the value field
/// is empty.
pub fn encode_delete(key: &InternalKey) -> (r: Vec<u8>)
    requires
        key@.user_key.len() + 9 <= u32::MAX,
    ensures
        r@ == spec_record_bytes(
            LogEntryModel {
                entry_type: EntryType::Delete,
                key: spec_encode_key(key@),
                value: Seq::empty(),
            },
        ),
{
    let k_bytes = key.encode();
    let empty: Vec<u8> = Vec::new();
    let r = encode_record(1, &k_bytes, empty.as_slice());
    proof {
        assert(empty@ =~= Seq::<u8>::empty());
    }
    r
}

/// Scans a log image from the start and returns the ordered sequence of
/// fully valid, checksum-correct records. A short or truncated tail, an
/// unrecognized tag, or a checksum mismatch ends the scan silently.
#[verifier::rlimit(60)]
pub fn replay(data: &[u8]) -> (r: Vec<LogEntry>)
    ensures
        r@.map_values(|e: LogEntry| e@) == spec_replay(data@),
{
    let len = data.len();
    let mut out: Vec<LogEntry> = Vec::new();
    let mut at: usize = 0;
    proof {
        assert(data@.skip(0) =~= data@);
        assert(out@.map_values(|e: LogEntry| e@) =~= Seq::<LogEntryModel>::empty());
    }
    loop
        invariant
            0 <= at <= len,
            len == data@.len(),
            spec_replay(data@) == out@.map_values(|e: LogEntry| e@) + spec_replay(
                data@.skip(at as int),
            ),
        ensures
            spec_replay(data@) == out@.map_values(|e: LogEntry| e@),
        decreases len - at,
    {
        let ghost tail = data@.skip(at as int);
        let rem: u64 = (len - at) as u64;
        if rem < 13 {
            proof {
                assert(!front_valid(tail));
                assert(spec_replay(data@) =~= out@.map_values(|e: LogEntry| e@));
            }
            break;
        }
        let tag = *slice_index_get(data, at);
        if tag > 1 {
            proof {
                assert(tail[0] == tag);
                assert(!front_valid(tail));
                assert(spec_replay(data@) =~= out@.map_values(|e: LogEntry| e@));
            }
            break;
        }
        let klen32 = get_u32_be(data, at + 1);
        proof {
            assert(tail.subrange(1, 5) =~= data@.subrange(at + 1, at + 5));
            assert(front_klen(tail) == klen32 as int);
        }
        let klen64: u64 = klen32 as u64;
        if 9 + klen64 > rem {
            proof {
                assert(!front_valid(tail));
                assert(spec_replay(data@) =~= out@.map_values(|e: LogEntry| e@));
            }
            break;
        }
        let klen: usize = klen32 as usize;
        let vlen32 = get_u32_be(data, at + 5 + klen);
        proof {
            assert(tail.subrange(5 + front_klen(tail), 9 + front_klen(tail)) =~= data@.subrange(
                at + 5 + klen,
                at + 9 + klen,
            ));
            assert(front_vlen(tail) == vlen32 as int);
        }
        let vlen64: u64 = vlen32 as u64;
        if 13 + klen64 + vlen64 > rem {
            proof {
                assert(front_total(tail) > tail.len());
                assert(!front_valid(tail));
                assert(spec_replay(data@) =~= out@.map_values(|e: LogEntry| e@));
            }
            break;
        }
        let vlen: usize = vlen32 as usize;
        let payload_len: usize = 9 + klen + vlen;
        let payload = slice_subrange(data, at, at + payload_len);
        let crc_computed = crc32(payload);
        let crc_stored = get_u32_be(data, at + payload_len);
        proof {
            assert(payload@ =~= tail.take(front_total(tail) - 4));
            assert(tail.subrange(front_total(tail) - 4, front_total(tail)) =~= data@.subrange(
                at + payload_len,
                at + payload_len + 4,
            ));
        }
        if crc_computed != crc_stored {
            proof {
                assert(!front_valid(tail));
                assert(spec_replay(data@) =~= out@.map_values(|e: LogEntry| e@));
            }
            break;
        }
        proof {
            assert(front_valid(tail));
        }
        let entry_type = if tag == 0 {
            EntryType::Put
        } else {
            EntryType::Delete
        };
        let key_slice = slice_subrange(data, at + 5, at + 5 + klen);
        let value_slice = slice_subrange(data, at + 9 + klen, at + 9 + klen + vlen);
        let entry = LogEntry::new(entry_type, key_slice, value_slice);
        proof {
            assert(key_slice@ =~= tail.subrange(5, 5 + front_klen(tail)));
            assert(value_slice@ =~= tail.subrange(
                9 + front_klen(tail),
                9 + front_klen(tail) + front_vlen(tail),
            ));
            assert(entry@ =~= front_entry(tail));
        }
        let ghost old_out = out@;
        out.push(entry);
        let next_at = at + 4 + payload_len;
        proof {
            assert(data@.skip(next_at as int) =~= tail.skip(front_total(tail)));
            assert(out@.map_values(|e: LogEntry| e@) =~= old_out.map_values(|e: LogEntry| e@)
                + seq![front_entry(tail)]);
            assert(spec_replay(tail) == seq![front_entry(tail)] + spec_replay(
                tail.skip(front_total(tail)),
            ));
            assert(out@.map_values(|e: LogEntry| e@) + spec_replay(data@.skip(next_at as int))
                =~= old_out.map_values(|e: LogEntry| e@) + spec_replay(tail));
        }
        at = next_at;
    }
    out
}

} // verus!
