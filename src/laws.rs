//! Laws of the store's state and of the record format.
//!
//! A store's state changes only by records: a successful `set` turns `m` into
//! `apply_entry(m, (k, Some(v)))`, a successful `delete` into
//! `apply_entry(m, (k, None))`, and `get`, `list_keys`, `stats`, `compact`
//! and failed writes leave it as it was. So any run of calls after a write is
//! a sequence of entries `later`, and the laws over `replay_entries` below
//! speak of every such run.
use crate::codec::{
    crc32_of, decode_front, encodable, header_checksum, header_key_len, header_value_len,
    put_bytes, Decoding, HEADER_SIZE,
};
use crate::log::{apply_entry, replay_entries, Entry};
use vstd::bytes::{lemma_auto_spec_u32_to_from_le_bytes, lemma_auto_spec_u64_to_from_le_bytes};
use vstd::prelude::*;
use vstd::utf8::encode_utf8;

verus! {

/// Records for other keys leave a key's presence and value as they were.
pub proof fn lemma_other_keys_untouched(
    m: Map<Seq<char>, Seq<u8>>,
    key: Seq<char>,
    later: Seq<Entry>,
)
    requires
        forall|i: int| 0 <= i < later.len() ==> (#[trigger] later[i]).0 != key,
    ensures
        replay_entries(m, later).contains_key(key) == m.contains_key(key),
        m.contains_key(key) ==> replay_entries(m, later)[key] == m[key],
    decreases later.len(),
{
    if later.len() > 0 {
        assert(later[0].0 != key);
        assert forall|i: int| 0 <= i < later.drop_first().len() implies (
        #[trigger] later.drop_first()[i]).0 != key by {
            assert(later.drop_first()[i] == later[i + 1]);
        }
        lemma_other_keys_untouched(apply_entry(m, later[0]), key, later.drop_first());
    }
}

/// Read-your-writes: once `key` is set to `value`, reading `key` gives
/// `value` until `key` itself is set or deleted again, whatever happens to
/// other keys meanwhile.
pub proof fn lemma_read_your_writes(
    m: Map<Seq<char>, Seq<u8>>,
    key: Seq<char>,
    value: Seq<u8>,
    later: Seq<Entry>,
)
    requires
        forall|i: int| 0 <= i < later.len() ==> (#[trigger] later[i]).0 != key,
    ensures
        replay_entries(apply_entry(m, (key, Some(value))), later).contains_key(key),
        replay_entries(apply_entry(m, (key, Some(value))), later)[key] == value,
{
    lemma_other_keys_untouched(apply_entry(m, (key, Some(value))), key, later);
}

/// A tombstone hides the key: after `key` is deleted, reading it finds
/// nothing, however often it was set before, until it is set again.
pub proof fn lemma_tombstone_hides(m: Map<Seq<char>, Seq<u8>>, key: Seq<char>, later: Seq<Entry>)
    requires
        forall|i: int| 0 <= i < later.len() ==> (#[trigger] later[i]).0 != key,
    ensures
        !replay_entries(apply_entry(m, (key, None)), later).contains_key(key),
{
    lemma_other_keys_untouched(apply_entry(m, (key, None)), key, later);
}

/// Changing one byte of a put record's key or value makes the record fail
/// its checksum, reporting the stored and the recomputed checksum, whenever
/// the changed payload's checksum differs from the stored one.
pub proof fn lemma_changed_payload_fails_checksum(
    key: Seq<char>,
    value: Seq<u8>,
    p: int,
    b: u8,
)
    requires
        encodable(key, Some(value)),
        HEADER_SIZE <= p < put_bytes(key, value).len(),
        crc32_of((encode_utf8(key) + value).update(p - HEADER_SIZE, b)) != crc32_of(
            encode_utf8(key) + value,
        ),
    ensures
        decode_front(put_bytes(key, value).update(p, b)) == (Decoding::ChecksumMismatch {
            expected: crc32_of(encode_utf8(key) + value),
            computed: crc32_of((encode_utf8(key) + value).update(p - HEADER_SIZE, b)),
        }),
{
    lemma_auto_spec_u64_to_from_le_bytes();
    lemma_auto_spec_u32_to_from_le_bytes();
    let r = put_bytes(key, value);
    let t = r.update(p, b);
    let payload = encode_utf8(key) + value;
    assert(t.subrange(0, 8) =~= r.subrange(0, 8));
    assert(t.subrange(8, 16) =~= r.subrange(8, 16));
    assert(t.subrange(16, 20) =~= r.subrange(16, 20));
    assert(r.subrange(0, 8) =~= vstd::bytes::spec_u64_to_le_bytes(encode_utf8(key).len() as u64));
    assert(r.subrange(8, 16) =~= vstd::bytes::spec_u64_to_le_bytes(value.len() as u64));
    assert(r.subrange(16, 20) =~= vstd::bytes::spec_u32_to_le_bytes(crc32_of(payload)));
    assert(header_key_len(t) == encode_utf8(key).len());
    assert(header_value_len(t) == value.len());
    assert(header_checksum(t) == crc32_of(payload));
    assert(t.subrange(20, 20 + payload.len() as int) =~= payload.update(p - HEADER_SIZE, b));
}

} // verus!
