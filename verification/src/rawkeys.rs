//! The raw keys under which the backing store holds a vault's records.
//!
//! Each raw key is a kind byte, then the length-prefixed UTF-8 bytes of the
//! vault key, then what the kind needs: a version number for version and
//! content records, the tag name for tag pointers, nothing for the
//! latest-version marker. The framing makes distinct records map to distinct
//! raw keys, which the lemmas below establish.

use vstd::prelude::*;
use vstd::bytes::{
    lemma_auto_spec_u64_to_from_le_bytes, spec_u64_to_le_bytes, u64_to_le_bytes,
};
use vstd::utf8::{encode_utf8, encode_utf8_decode_utf8};

verus! {

/// Kind byte of a version metadata record.
pub open spec fn kind_version() -> u8 {
    1u8
}

/// Kind byte of a content record.
pub open spec fn kind_content() -> u8 {
    2u8
}

/// Kind byte of the latest-version marker.
pub open spec fn kind_latest() -> u8 {
    3u8
}

/// Kind byte of a tag pointer.
pub open spec fn kind_tag() -> u8 {
    4u8
}

/// The raw key of the metadata record of version `n` of `k`.
pub open spec fn version_key(k: Seq<char>, n: u64) -> Seq<u8> {
    seq![kind_version()] + spec_u64_to_le_bytes(encode_utf8(k).len() as u64) + encode_utf8(k)
        + spec_u64_to_le_bytes(n)
}

/// The raw key of the content of version `n` of `k`.
pub open spec fn content_key(k: Seq<char>, n: u64) -> Seq<u8> {
    seq![kind_content()] + spec_u64_to_le_bytes(encode_utf8(k).len() as u64) + encode_utf8(k)
        + spec_u64_to_le_bytes(n)
}

/// The raw key of the latest-version marker of `k`.
pub open spec fn latest_key(k: Seq<char>) -> Seq<u8> {
    seq![kind_latest()] + spec_u64_to_le_bytes(encode_utf8(k).len() as u64) + encode_utf8(k)
}

/// The raw key of the pointer of tag `t` of `k`.
pub open spec fn tag_key(k: Seq<char>, t: Seq<char>) -> Seq<u8> {
    seq![kind_tag()] + spec_u64_to_le_bytes(encode_utf8(k).len() as u64) + encode_utf8(k)
        + encode_utf8(t)
}

/// UTF-8 encoding is injective on character sequences.
pub broadcast proof fn lemma_utf8_injective(a: Seq<char>, b: Seq<char>)
    requires
        #[trigger] encode_utf8(a) == #[trigger] encode_utf8(b),
    ensures
        a == b,
{
    encode_utf8_decode_utf8(a);
    encode_utf8_decode_utf8(b);
}

/// Version raw keys collide only for the same key and version.
pub broadcast proof fn lemma_version_key_injective(k1: Seq<char>, n1: u64, k2: Seq<char>, n2: u64)
    requires
        #[trigger] version_key(k1, n1) == #[trigger] version_key(k2, n2),
    ensures
        k1 == k2 && n1 == n2,
{
    lemma_auto_spec_u64_to_from_le_bytes();
    let s = version_key(k1, n1);
    let l1 = encode_utf8(k1).len() as int;
    let l2 = encode_utf8(k2).len() as int;
    assert(s.len() == 17 + l1);
    assert(version_key(k2, n2).len() == 17 + l2);
    assert(l1 == l2);
    assert(s.subrange(9, 9 + l1) =~= encode_utf8(k1));
    assert(s.subrange(9, 9 + l2) =~= encode_utf8(k2));
    lemma_utf8_injective(k1, k2);
    assert(s.subrange(9 + l1, 17 + l1) =~= spec_u64_to_le_bytes(n1));
    assert(s.subrange(9 + l2, 17 + l2) =~= spec_u64_to_le_bytes(n2));
}

/// Content raw keys collide only for the same key and version.
pub broadcast proof fn lemma_content_key_injective(k1: Seq<char>, n1: u64, k2: Seq<char>, n2: u64)
    requires
        #[trigger] content_key(k1, n1) == #[trigger] content_key(k2, n2),
    ensures
        k1 == k2 && n1 == n2,
{
    lemma_auto_spec_u64_to_from_le_bytes();
    let s = content_key(k1, n1);
    let l1 = encode_utf8(k1).len() as int;
    let l2 = encode_utf8(k2).len() as int;
    assert(s.len() == 17 + l1);
    assert(content_key(k2, n2).len() == 17 + l2);
    assert(l1 == l2);
    assert(s.subrange(9, 9 + l1) =~= encode_utf8(k1));
    assert(s.subrange(9, 9 + l2) =~= encode_utf8(k2));
    lemma_utf8_injective(k1, k2);
    assert(s.subrange(9 + l1, 17 + l1) =~= spec_u64_to_le_bytes(n1));
    assert(s.subrange(9 + l2, 17 + l2) =~= spec_u64_to_le_bytes(n2));
}

/// Latest-version raw keys collide only for the same key.
pub broadcast proof fn lemma_latest_key_injective(k1: Seq<char>, k2: Seq<char>)
    requires
        #[trigger] latest_key(k1) == #[trigger] latest_key(k2),
    ensures
        k1 == k2,
{
    lemma_auto_spec_u64_to_from_le_bytes();
    let s = latest_key(k1);
    let l1 = encode_utf8(k1).len() as int;
    let l2 = encode_utf8(k2).len() as int;
    assert(s.len() == 9 + l1);
    assert(latest_key(k2).len() == 9 + l2);
    assert(l1 == l2);
    assert(s.subrange(9, 9 + l1) =~= encode_utf8(k1));
    assert(s.subrange(9, 9 + l2) =~= encode_utf8(k2));
    lemma_utf8_injective(k1, k2);
}

/// Tag raw keys collide only for the same key and tag name, as long as the
/// key's byte length is written faithfully into the length field.
pub broadcast proof fn lemma_tag_key_injective(k1: Seq<char>, t1: Seq<char>, k2: Seq<char>, t2: Seq<char>)
    requires
        encode_utf8(k1).len() <= u64::MAX,
        encode_utf8(k2).len() <= u64::MAX,
        #[trigger] tag_key(k1, t1) == #[trigger] tag_key(k2, t2),
    ensures
        k1 == k2 && t1 == t2,
{
    lemma_auto_spec_u64_to_from_le_bytes();
    let s = tag_key(k1, t1);
    let l1 = encode_utf8(k1).len() as int;
    let l2 = encode_utf8(k2).len() as int;
    assert(s.subrange(1, 9) =~= spec_u64_to_le_bytes(encode_utf8(k1).len() as u64));
    assert(s.subrange(1, 9) =~= spec_u64_to_le_bytes(encode_utf8(k2).len() as u64));
    assert(encode_utf8(k1).len() as u64 == encode_utf8(k2).len() as u64);
    assert(l1 == l2);
    assert(s.subrange(9, 9 + l1) =~= encode_utf8(k1));
    assert(s.subrange(9, 9 + l2) =~= encode_utf8(k2));
    lemma_utf8_injective(k1, k2);
    assert(s.len() == 9 + l1 + encode_utf8(t1).len());
    assert(tag_key(k2, t2).len() == 9 + l2 + encode_utf8(t2).len());
    assert(s.subrange(9 + l1, s.len() as int) =~= encode_utf8(t1));
    assert(s.subrange(9 + l2, s.len() as int) =~= encode_utf8(t2));
    lemma_utf8_injective(t1, t2);
}

/// Raw keys of different kinds never collide.
pub broadcast group group_kinds_distinct {
    lemma_version_content_distinct,
    lemma_version_latest_distinct,
    lemma_version_tag_distinct,
    lemma_content_latest_distinct,
    lemma_content_tag_distinct,
    lemma_latest_tag_distinct,
}

pub broadcast proof fn lemma_version_content_distinct(k1: Seq<char>, n1: u64, k2: Seq<char>, n2: u64)
    ensures
        #[trigger] version_key(k1, n1) != #[trigger] content_key(k2, n2),
{
    assert(version_key(k1, n1)[0] == kind_version());
    assert(content_key(k2, n2)[0] == kind_content());
}

pub broadcast proof fn lemma_version_latest_distinct(k1: Seq<char>, n1: u64, k2: Seq<char>)
    ensures
        #[trigger] version_key(k1, n1) != #[trigger] latest_key(k2),
{
    assert(version_key(k1, n1)[0] == kind_version());
    assert(latest_key(k2)[0] == kind_latest());
}

pub broadcast proof fn lemma_version_tag_distinct(k1: Seq<char>, n1: u64, k2: Seq<char>, t: Seq<char>)
    ensures
        #[trigger] version_key(k1, n1) != #[trigger] tag_key(k2, t),
{
    assert(version_key(k1, n1)[0] == kind_version());
    assert(tag_key(k2, t)[0] == kind_tag());
}

pub broadcast proof fn lemma_content_latest_distinct(k1: Seq<char>, n1: u64, k2: Seq<char>)
    ensures
        #[trigger] content_key(k1, n1) != #[trigger] latest_key(k2),
{
    assert(content_key(k1, n1)[0] == kind_content());
    assert(latest_key(k2)[0] == kind_latest());
}

pub broadcast proof fn lemma_content_tag_distinct(k1: Seq<char>, n1: u64, k2: Seq<char>, t: Seq<char>)
    ensures
        #[trigger] content_key(k1, n1) != #[trigger] tag_key(k2, t),
{
    assert(content_key(k1, n1)[0] == kind_content());
    assert(tag_key(k2, t)[0] == kind_tag());
}

pub broadcast proof fn lemma_latest_tag_distinct(k1: Seq<char>, k2: Seq<char>, t: Seq<char>)
    ensures
        #[trigger] latest_key(k1) != #[trigger] tag_key(k2, t),
{
    assert(latest_key(k1)[0] == kind_latest());
    assert(tag_key(k2, t)[0] == kind_tag());
}

/// Every injectivity and disjointness fact about raw keys.
pub broadcast group group_raw_keys {
    group_kinds_distinct,
    lemma_version_key_injective,
    lemma_content_key_injective,
    lemma_latest_key_injective,
    lemma_tag_key_injective,
}

// ---------------------------------------------------------------------------
// Executable constructors.
// ---------------------------------------------------------------------------

/// Appends the little-endian encoding of `v` to `out`.
fn push_u64(out: &mut Vec<u8>, v: u64)
    ensures
        final(out)@ == old(out)@ + spec_u64_to_le_bytes(v),
{
    let bytes = u64_to_le_bytes(v);
    out.extend_from_slice(bytes.as_slice());
    proof {
        assert(out@ =~= old(out)@ + spec_u64_to_le_bytes(v));
    }
}

/// Builds the raw key `kind ++ len(key) ++ key ++ suffix` shared by every
/// kind; the version suffix is appended by the callers that need one.
fn keyed_prefix(kind: u8, key: &str) -> (r: Vec<u8>)
    ensures
        r@ == seq![kind] + spec_u64_to_le_bytes(encode_utf8(key@).len() as u64) + encode_utf8(
            key@,
        ),
        encode_utf8(key@).len() <= u64::MAX,
{
    let mut out: Vec<u8> = Vec::new();
    out.push(kind);
    let key_bytes = key.as_bytes();
    let key_len = key_bytes.len();
    proof {
        assert(encode_utf8(key@).len() == key_len);
    }
    push_u64(&mut out, key_len as u64);
    out.extend_from_slice(key_bytes);
    proof {
        assert(out@ =~= seq![kind] + spec_u64_to_le_bytes(encode_utf8(key@).len() as u64)
            + encode_utf8(key@));
    }
    out
}

/// Builds `version_key(key@, n)`.
pub fn version_key_exec(key: &str, n: u64) -> (r: Vec<u8>)
    ensures
        r@ == version_key(key@, n),
        encode_utf8(key@).len() <= u64::MAX,
{
    let mut out = keyed_prefix(1u8, key);
    push_u64(&mut out, n);
    proof {
        assert(out@ =~= version_key(key@, n));
    }
    out
}

/// Builds `content_key(key@, n)`.
pub fn content_key_exec(key: &str, n: u64) -> (r: Vec<u8>)
    ensures
        r@ == content_key(key@, n),
        encode_utf8(key@).len() <= u64::MAX,
{
    let mut out = keyed_prefix(2u8, key);
    push_u64(&mut out, n);
    proof {
        assert(out@ =~= content_key(key@, n));
    }
    out
}

/// Builds `latest_key(key@)`.
pub fn latest_key_exec(key: &str) -> (r: Vec<u8>)
    ensures
        r@ == latest_key(key@),
        encode_utf8(key@).len() <= u64::MAX,
{
    let out = keyed_prefix(3u8, key);
    proof {
        assert(out@ =~= latest_key(key@));
    }
    out
}

/// Builds `tag_key(key@, tag@)`.
pub fn tag_key_exec(key: &str, tag: &str) -> (r: Vec<u8>)
    ensures
        r@ == tag_key(key@, tag@),
        encode_utf8(key@).len() <= u64::MAX,
        encode_utf8(tag@).len() <= u64::MAX,
{
    let mut out = keyed_prefix(4u8, key);
    let tag_bytes = tag.as_bytes();
    let tag_byte_len = tag_bytes.len();
    out.extend_from_slice(tag_bytes);
    proof {
        assert(encode_utf8(tag@).len() == tag_byte_len);
        assert(out@ =~= tag_key(key@, tag@));
    }
    out
}

} // verus!
