//! Where a blob lives under a data directory.
use vstd::prelude::*;
use vstd::string::{StringExecFns, StringSliceAdditionalSpecFns};
use vstd::utf8::{decode_utf8, encode_utf8_decode_utf8, is_char_boundary};

verus! {

/// The shard directory of a key: the text of its first two bytes, or `xx`
/// for a shorter key.
pub open spec fn blob_shard(key: &str) -> Seq<char> {
    if key.spec_bytes().len() >= 2 {
        decode_utf8(key.spec_bytes().subrange(0, 2))
    } else {
        "xx"@
    }
}

/// Maps a key to its blob path within the data directory:
/// `<data_dir>/blobs/<shard>/<key>`, where the shard is the key's first two
/// bytes (`xx` for a shorter key).
pub fn key_to_blob_path(data_dir: &str, key: &str) -> (r: String)
    requires
        key.spec_bytes().len() >= 2 ==> is_char_boundary(key.spec_bytes(), 2),
    ensures
        r@ == data_dir@ + "/blobs/"@ + blob_shard(key) + "/"@ + key@,
{
    let mut s = String::from_str(data_dir);
    s.append("/blobs/");
    if key.as_bytes().len() >= 2 {
        let (shard, _) = key.split_at(2);
        proof {
            encode_utf8_decode_utf8(shard@);
        }
        s.append(shard);
    } else {
        s.append("xx");
    }
    s.append("/");
    s.append(key);
    s
}

} // verus!
