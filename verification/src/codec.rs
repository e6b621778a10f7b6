//! The persisted form of the hash cache.
//!
//! Each entry is laid out as five fields: the byte length of the UTF-8 path
//! as a little-endian u64, the path bytes, the modification time as a u64,
//! the byte length of the hash as a u64, and the hash bytes. Entries follow
//! one another until the end of the input; any malformation makes the whole
//! input invalid, which a loader treats as a cold cache.

use crate::cache::distinct_paths;
use crate::cache::EntryModel;
use vstd::bytes::lemma_auto_spec_u64_to_from_le_bytes;
use vstd::bytes::spec_u64_from_le_bytes;
use vstd::bytes::spec_u64_to_le_bytes;
use vstd::prelude::*;
use vstd::utf8::decode_utf8;
use vstd::utf8::encode_utf8;
use vstd::utf8::encode_utf8_decode_utf8;
use vstd::utf8::encode_utf8_valid_utf8;
use vstd::utf8::valid_utf8;

verus! {

/// Whether an entry's variable parts fit their length fields.
pub open spec fn entry_lengths_ok(e: EntryModel) -> bool {
    encode_utf8(e.path).len() <= u64::MAX && e.hash.len() <= u64::MAX
}

/// Serialized form of one entry.
pub open spec fn encode_entry(e: EntryModel) -> Seq<u8> {
    let pb = encode_utf8(e.path);
    spec_u64_to_le_bytes(pb.len() as u64) + pb + spec_u64_to_le_bytes(e.mtime)
        + spec_u64_to_le_bytes(e.hash.len() as u64) + e.hash
}

/// Serialized form of a table, entry by entry in storage order.
pub open spec fn encode_log(log: Seq<EntryModel>) -> Seq<u8>
    decreases log.len(),
{
    if log.len() == 0 {
        Seq::empty()
    } else {
        encode_entry(log.first()) + encode_log(log.drop_first())
    }
}

/// Decoding of a serialized table; `None` on any malformation.
pub open spec fn decode_log(bs: Seq<u8>) -> Option<Seq<EntryModel>>
    decreases bs.len(),
{
    if bs.len() == 0 {
        Some(Seq::empty())
    } else if bs.len() < 8 {
        None
    } else {
        let plen = spec_u64_from_le_bytes(bs.subrange(0, 8)) as int;
        if bs.len() < 24 + plen {
            None
        } else {
            let pb = bs.subrange(8, 8 + plen);
            if !valid_utf8(pb) {
                None
            } else {
                let mtime = spec_u64_from_le_bytes(bs.subrange(8 + plen, 16 + plen));
                let hlen = spec_u64_from_le_bytes(bs.subrange(16 + plen, 24 + plen)) as int;
                if bs.len() < 24 + plen + hlen {
                    None
                } else {
                    let hash = bs.subrange(24 + plen, 24 + plen + hlen);
                    let rest = decode_log(bs.subrange(24 + plen + hlen, bs.len() as int));
                    match rest {
                        None => None,
                        Some(es) => Some(
                            seq![EntryModel { path: decode_utf8(pb), mtime, hash }] + es,
                        ),
                    }
                }
            }
        }
    }
}

/// The table a loader accepts from serialized bytes: the decoded entries
/// when they decode cleanly and no path repeats, the empty table otherwise.
/// Corruption means a cold cache, never a failure.
pub open spec fn accepted_log(bs: Seq<u8>) -> Seq<EntryModel> {
    match decode_log(bs) {
        Some(es) => if distinct_paths(es) {
            es
        } else {
            Seq::empty()
        },
        None => Seq::empty(),
    }
}

/// Joins already-decoded entries with the decoding of the remaining bytes.
pub open spec fn glue(prefix: Seq<EntryModel>, rest: Option<Seq<EntryModel>>) -> Option<
    Seq<EntryModel>,
> {
    match rest {
        None => None,
        Some(es) => Some(prefix + es),
    }
}

/// An encoded entry occupies its three length fields plus its two variable
/// parts.
pub proof fn lemma_encode_entry_len(e: EntryModel)
    ensures
        encode_entry(e).len() == 24 + encode_utf8(e.path).len() + e.hash.len(),
{
    lemma_auto_spec_u64_to_from_le_bytes();
}

/// Decoding inverts encoding: a table serialized entry by entry is read back
/// exactly.
pub proof fn lemma_decode_encode_log(log: Seq<EntryModel>)
    requires
        forall|i: int| 0 <= i < log.len() ==> entry_lengths_ok(#[trigger] log[i]),
    ensures
        decode_log(encode_log(log)) == Some(log),
    decreases log.len(),
{
    lemma_auto_spec_u64_to_from_le_bytes();
    if log.len() == 0 {
        assert(decode_log(encode_log(log)) == Some(Seq::<EntryModel>::empty()));
        assert(log =~= Seq::<EntryModel>::empty());
    } else {
        let e = log.first();
        assert(entry_lengths_ok(e));
        let pb = encode_utf8(e.path);
        let head = encode_entry(e);
        let tail = encode_log(log.drop_first());
        let bs = encode_log(log);
        assert(bs == head + tail);
        lemma_encode_entry_len(e);
        let plen = pb.len() as int;
        let hlen = e.hash.len() as int;
        encode_utf8_valid_utf8(e.path);
        encode_utf8_decode_utf8(e.path);
        assert(bs.len() >= 24 + plen + hlen);
        assert(bs.subrange(0, 8) =~= spec_u64_to_le_bytes(pb.len() as u64));
        assert(spec_u64_from_le_bytes(bs.subrange(0, 8)) == pb.len() as u64);
        assert(bs.subrange(8, 8 + plen) =~= pb);
        assert(bs.subrange(8 + plen, 16 + plen) =~= spec_u64_to_le_bytes(e.mtime));
        assert(bs.subrange(16 + plen, 24 + plen) =~= spec_u64_to_le_bytes(e.hash.len() as u64));
        assert(bs.subrange(24 + plen, 24 + plen + hlen) =~= e.hash);
        assert(bs.subrange(24 + plen + hlen, bs.len() as int) =~= tail);
        lemma_decode_encode_log(log.drop_first());
        assert(decode_log(tail) == Some(log.drop_first()));
        assert(decode_utf8(pb) == e.path);
        assert(seq![EntryModel { path: e.path, mtime: e.mtime, hash: e.hash }] + log.drop_first()
            =~= log);
        assert(EntryModel { path: e.path, mtime: e.mtime, hash: e.hash } == e);
    }
}

/// Persistence round trip: a well-formed table, serialized and loaded back,
/// is accepted unchanged — nothing is lost between two runs.
pub proof fn lemma_persist_roundtrip(log: Seq<EntryModel>)
    requires
        distinct_paths(log),
        forall|i: int| 0 <= i < log.len() ==> entry_lengths_ok(#[trigger] log[i]),
    ensures
        accepted_log(encode_log(log)) == log,
{
    lemma_decode_encode_log(log);
}

} // verus!
