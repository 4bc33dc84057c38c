//! The mathematical model of a vault: what the raw contents of the backing
//! store mean, the well-formedness invariant every operation preserves, and
//! the transition function of each mutating operation.

use vstd::prelude::*;
use vstd::bytes::{spec_u64_from_le_bytes, spec_u64_to_le_bytes};
use vstd::utf8::{decode_utf8, encode_utf8, valid_utf8};
use crate::codec::len_ok;
use crate::rawkeys::{content_key, latest_key, tag_key, version_key};
use crate::errors::VaultError;
use crate::types::{dec_meta, enc_meta, hash_hex, meta_ok, MetaView, SelView};

verus! {

/// The full contents of the backing store: raw keys to raw values.
pub type RawMap = Map<Seq<u8>, Seq<u8>>;

/// A key short enough for its byte length to be written into a raw key.
pub open spec fn real_key(k: Seq<char>) -> bool {
    encode_utf8(k).len() <= u64::MAX
}

/// The latest version number recorded for `k`, when its marker is present
/// and well-formed.
pub open spec fn latest_of(m: RawMap, k: Seq<char>) -> Option<u64> {
    if m.contains_key(latest_key(k)) && m[latest_key(k)].len() == 8 {
        Some(spec_u64_from_le_bytes(m[latest_key(k)]))
    } else {
        None
    }
}

/// The decoded metadata record of version `n` of `k`.
pub open spec fn meta_at(m: RawMap, k: Seq<char>, n: u64) -> Option<MetaView> {
    if m.contains_key(version_key(k, n)) {
        dec_meta(m[version_key(k, n)])
    } else {
        None
    }
}

/// The raw content bytes of version `n` of `k`.
pub open spec fn content_at(m: RawMap, k: Seq<char>, n: u64) -> Option<Seq<u8>> {
    if m.contains_key(content_key(k, n)) {
        Some(m[content_key(k, n)])
    } else {
        None
    }
}

/// The characters of the content of version `n` of `k`.
pub open spec fn content_chars(m: RawMap, k: Seq<char>, n: u64) -> Seq<char> {
    decode_utf8(content_at(m, k, n)->0)
}

/// The version that tag `t` of `k` points at, when its pointer is present
/// and well-formed.
pub open spec fn tag_at(m: RawMap, k: Seq<char>, t: Seq<char>) -> Option<u64> {
    if m.contains_key(tag_key(k, t)) && m[tag_key(k, t)].len() == 8 {
        Some(spec_u64_from_le_bytes(m[tag_key(k, t)]))
    } else {
        None
    }
}

/// What must hold of version `n` of key `k` in a well-formed store.
pub open spec fn version_wf(m: RawMap, k: Seq<char>, n: u64) -> bool {
    &&& meta_at(m, k, n) is Some
    &&& {
        let mv = meta_at(m, k, n)->0;
        &&& mv.key == k
        &&& mv.version == n
        &&& mv.parent == (if n == 1 {
            None::<u64>
        } else {
            Some((n - 1) as u64)
        })
        &&& meta_ok(mv)
        &&& forall|t: Seq<char>|
            #[trigger] mv.tags.contains(t) ==> len_ok(encode_utf8(t)) && tag_at(m, k, t) == Some(
                n,
            )
    }
    &&& content_at(m, k, n) is Some
    &&& valid_utf8(content_at(m, k, n)->0)
}

/// Well-formedness of everything the store holds for key `k`.
pub open spec fn key_wf(m: RawMap, k: Seq<char>) -> bool {
    match latest_of(m, k) {
        None => {
            &&& !m.contains_key(latest_key(k))
            &&& forall|n: u64| !m.contains_key(#[trigger] version_key(k, n))
            &&& forall|n: u64| !m.contains_key(#[trigger] content_key(k, n))
            &&& forall|t: Seq<char>| !m.contains_key(#[trigger] tag_key(k, t))
        },
        Some(l) => {
            &&& l >= 1
            &&& forall|n: u64| 1 <= n <= l ==> #[trigger] version_wf(m, k, n)
            &&& forall|n: u64|
                n == 0 || n > l ==> !m.contains_key(#[trigger] version_key(k, n))
                    && !m.contains_key(content_key(k, n))
            &&& forall|t: Seq<char>|
                #[trigger] m.contains_key(tag_key(k, t)) ==> {
                    &&& m[tag_key(k, t)].len() == 8
                    &&& 1 <= spec_u64_from_le_bytes(m[tag_key(k, t)]) <= l
                    &&& meta_at(m, k, spec_u64_from_le_bytes(m[tag_key(k, t)]))->0.tags.contains(
                        t,
                    )
                }
        },
    }
}

/// Well-formedness of the whole store: every key that could be stored is
/// well-formed.
pub open spec fn vault_wf(m: RawMap) -> bool {
    forall|k: Seq<char>| real_key(k) ==> #[trigger] key_wf(m, k)
}

/// The empty store is well-formed.
pub proof fn lemma_empty_wf()
    ensures
        vault_wf(Map::<Seq<u8>, Seq<u8>>::empty()),
{
    assert forall|k: Seq<char>| real_key(k) implies #[trigger] key_wf(
        Map::<Seq<u8>, Seq<u8>>::empty(),
        k,
    ) by {
        assert(latest_of(Map::<Seq<u8>, Seq<u8>>::empty(), k) is None);
    }
}

// ---------------------------------------------------------------------------
// Tag-list surgery.
// ---------------------------------------------------------------------------

/// `ts` with every occurrence of `t` removed, order otherwise kept.
pub open spec fn remove_name(ts: Seq<Seq<char>>, t: Seq<char>) -> Seq<Seq<char>>
    decreases ts.len(),
{
    if ts.len() == 0 {
        Seq::empty()
    } else if ts[0] == t {
        remove_name(ts.drop_first(), t)
    } else {
        seq![ts[0]] + remove_name(ts.drop_first(), t)
    }
}

/// What `remove_name` keeps: everything but `t`.
pub proof fn lemma_remove_name_membership(ts: Seq<Seq<char>>, t: Seq<char>, x: Seq<char>)
    ensures
        remove_name(ts, t).contains(x) <==> (ts.contains(x) && x != t),
    decreases ts.len(),
{
    if ts.len() > 0 {
        lemma_remove_name_membership(ts.drop_first(), t, x);
        if ts[0] != t {
            assert(remove_name(ts, t) == seq![ts[0]] + remove_name(ts.drop_first(), t));
            if remove_name(ts, t).contains(x) {
                let i = choose|i: int| 0 <= i < remove_name(ts, t).len() && remove_name(ts, t)[i]
                    == x;
                if i == 0 {
                    assert(ts.contains(ts[0])) by {
                        assert(ts[0] == ts[0]);
                    }
                } else {
                    assert(remove_name(ts.drop_first(), t)[i - 1] == x);
                    assert(remove_name(ts.drop_first(), t).contains(x));
                }
            }
            if ts.contains(x) && x != t {
                let i = choose|i: int| 0 <= i < ts.len() && ts[i] == x;
                if i == 0 {
                    assert(remove_name(ts, t)[0] == x);
                } else {
                    assert(ts.drop_first()[i - 1] == x);
                    assert(ts.drop_first().contains(x));
                    let j = choose|j: int|
                        0 <= j < remove_name(ts.drop_first(), t).len() && remove_name(
                            ts.drop_first(),
                            t,
                        )[j] == x;
                    assert(remove_name(ts, t)[j + 1] == x);
                }
            }
        } else {
            if ts.contains(x) && x != t {
                let i = choose|i: int| 0 <= i < ts.len() && ts[i] == x;
                assert(i != 0);
                assert(ts.drop_first()[i - 1] == x);
                assert(ts.drop_first().contains(x));
            }
            if remove_name(ts, t).contains(x) {
                assert(ts.drop_first().contains(x));
                let i = choose|i: int| 0 <= i < ts.drop_first().len() && ts.drop_first()[i] == x;
                assert(ts[i + 1] == x);
            }
        }
    }
}

/// Removing a name from a list and then appending something else commutes.
pub proof fn lemma_remove_name_snoc(ts: Seq<Seq<char>>, t: Seq<char>, x: Seq<char>)
    ensures
        remove_name(ts.push(x), t) == (if x == t {
            remove_name(ts, t)
        } else {
            remove_name(ts, t).push(x)
        }),
    decreases ts.len(),
{
    if ts.len() == 0 {
        let q = ts.push(x);
        assert(q[0] == x);
        assert(q.drop_first() =~= Seq::<Seq<char>>::empty());
        assert(remove_name(q.drop_first(), t) == Seq::<Seq<char>>::empty());
        assert(remove_name(ts, t) == Seq::<Seq<char>>::empty());
        if x == t {
            assert(remove_name(q, t) =~= remove_name(ts, t));
        } else {
            assert(remove_name(q, t) =~= remove_name(ts, t).push(x));
        }
    } else {
        assert(ts.push(x).drop_first() =~= ts.drop_first().push(x));
        lemma_remove_name_snoc(ts.drop_first(), t, x);
        if x == t {
            assert(remove_name(ts.push(x), t) =~= remove_name(ts, t));
        } else if ts[0] == t {
            assert(remove_name(ts.push(x), t) =~= remove_name(ts, t).push(x));
        } else {
            assert(remove_name(ts.push(x), t) =~= remove_name(ts, t).push(x));
        }
    }
}

// ---------------------------------------------------------------------------
// Transitions.
// ---------------------------------------------------------------------------

/// The metadata record a fresh version carries.
pub open spec fn fresh_meta(
    k: Seq<char>,
    n: u64,
    c: Seq<char>,
    parent: Option<u64>,
    msg: Option<Seq<char>>,
    ts: i64,
) -> MetaView {
    MetaView {
        key: k,
        version: n,
        timestamp: ts,
        parent,
        message: msg,
        object_hash: hash_hex(c),
        tags: Seq::empty(),
    }
}

/// The store after the first version of `k` is created with content `c` at
/// time `ts`.
pub open spec fn spec_create(m: RawMap, k: Seq<char>, c: Seq<char>, ts: i64) -> RawMap {
    m.insert(version_key(k, 1), enc_meta(fresh_meta(k, 1, c, None, None, ts))).insert(
        content_key(k, 1),
        encode_utf8(c),
    ).insert(latest_key(k), spec_u64_to_le_bytes(1))
}

/// The store after version `n` of `k` is appended with content `c`, parent
/// `n - 1`, message `msg` and time `ts`; the `"dev"` tag has not moved yet.
pub open spec fn spec_append_version(
    m: RawMap,
    k: Seq<char>,
    n: u64,
    c: Seq<char>,
    msg: Option<Seq<char>>,
    ts: i64,
) -> RawMap {
    m.insert(
        version_key(k, n),
        enc_meta(fresh_meta(k, n, c, Some((n - 1) as u64), msg, ts)),
    ).insert(content_key(k, n), encode_utf8(c)).insert(latest_key(k), spec_u64_to_le_bytes(n))
}

/// `mv` with the tag name `t` removed from its tag set.
pub open spec fn tag_removed_meta(mv: MetaView, t: Seq<char>) -> MetaView {
    MetaView {
        key: mv.key,
        version: mv.version,
        timestamp: mv.timestamp,
        parent: mv.parent,
        message: mv.message,
        object_hash: mv.object_hash,
        tags: remove_name(mv.tags, t),
    }
}

/// `mv` with the tag name `t` appended to its tag set.
pub open spec fn tag_added_meta(mv: MetaView, t: Seq<char>) -> MetaView {
    MetaView {
        key: mv.key,
        version: mv.version,
        timestamp: mv.timestamp,
        parent: mv.parent,
        message: mv.message,
        object_hash: mv.object_hash,
        tags: mv.tags.push(t),
    }
}

/// The store after the pointer of tag `t` of `k` moves to version `v`:
/// first the old holder's record loses the name, then the pointer is set,
/// then the new holder's record gains the name if it lacks it.
pub open spec fn spec_tag(m: RawMap, k: Seq<char>, t: Seq<char>, v: u64) -> RawMap {
    let m1 = if tag_at(m, k, t) is Some && tag_at(m, k, t)->0 != v && meta_at(
        m,
        k,
        tag_at(m, k, t)->0,
    ) is Some {
        let o = tag_at(m, k, t)->0;
        m.insert(version_key(k, o), enc_meta(tag_removed_meta(meta_at(m, k, o)->0, t)))
    } else {
        m
    };
    let m2 = m1.insert(tag_key(k, t), spec_u64_to_le_bytes(v));
    if meta_at(m1, k, v) is Some && !meta_at(m1, k, v)->0.tags.contains(t) {
        m2.insert(version_key(k, v), enc_meta(tag_added_meta(meta_at(m1, k, v)->0, t)))
    } else {
        m2
    }
}

/// The store after a successful write to `k`: a version appended, then the
/// `"dev"` tag moved onto it.
pub open spec fn spec_write(
    m: RawMap,
    k: Seq<char>,
    n: u64,
    c: Seq<char>,
    msg: Option<Seq<char>>,
    ts: i64,
) -> RawMap {
    spec_tag(spec_append_version(m, k, n, c, msg, ts), k, "dev"@, n)
}

/// Every raw key that deleting `k` removes, with `l` its latest version.
pub open spec fn deleted_keys(m: RawMap, k: Seq<char>, l: u64) -> Set<Seq<u8>> {
    Set::new(
        |rk: Seq<u8>|
            {
                ||| rk == latest_key(k)
                ||| (exists|n: u64| 1 <= n <= l && rk == #[trigger] version_key(k, n))
                ||| (exists|n: u64| 1 <= n <= l && rk == #[trigger] content_key(k, n))
                ||| (exists|t: Seq<char>|
                    m.contains_key(#[trigger] tag_key(k, t)) && rk == tag_key(k, t))
            },
    )
}

/// The store after every record of `k` is removed.
pub open spec fn spec_delete(m: RawMap, k: Seq<char>) -> RawMap {
    match latest_of(m, k) {
        None => m,
        Some(l) => m.remove_keys(deleted_keys(m, k, l)),
    }
}

// ---------------------------------------------------------------------------
// Preservation of well-formedness.
// ---------------------------------------------------------------------------

/// The two maps agree at one raw key.
pub open spec fn agree_at(m1: RawMap, m2: RawMap, rk: Seq<u8>) -> bool {
    &&& m1.contains_key(rk) == m2.contains_key(rk)
    &&& (m1.contains_key(rk) ==> m1[rk] == m2[rk])
}

/// The two maps agree at every raw key that belongs to `k`.
pub open spec fn agree_on_key(m1: RawMap, m2: RawMap, k: Seq<char>) -> bool {
    &&& agree_at(m1, m2, latest_key(k))
    &&& forall|n: u64| agree_at(m1, m2, #[trigger] version_key(k, n))
    &&& forall|n: u64| agree_at(m1, m2, #[trigger] content_key(k, n))
    &&& forall|t: Seq<char>| agree_at(m1, m2, #[trigger] tag_key(k, t))
}

/// Well-formedness of a key depends only on the raw keys that belong to it.
pub proof fn lemma_key_wf_agree(m1: RawMap, m2: RawMap, k: Seq<char>)
    requires
        agree_on_key(m1, m2, k),
        key_wf(m1, k),
    ensures
        key_wf(m2, k),
{
    assert(latest_of(m2, k) == latest_of(m1, k));
    match latest_of(m1, k) {
        None => {
            assert forall|n: u64| !m2.contains_key(#[trigger] version_key(k, n)) by {
                assert(agree_at(m1, m2, version_key(k, n)));
            }
            assert forall|n: u64| !m2.contains_key(#[trigger] content_key(k, n)) by {
                assert(agree_at(m1, m2, content_key(k, n)));
            }
            assert forall|t: Seq<char>| !m2.contains_key(#[trigger] tag_key(k, t)) by {
                assert(agree_at(m1, m2, tag_key(k, t)));
            }
        },
        Some(l) => {
            assert forall|n: u64| 1 <= n <= l implies #[trigger] version_wf(m2, k, n) by {
                assert(version_wf(m1, k, n));
                assert(agree_at(m1, m2, version_key(k, n)));
                assert(agree_at(m1, m2, content_key(k, n)));
                assert(meta_at(m2, k, n) == meta_at(m1, k, n));
                assert(content_at(m2, k, n) == content_at(m1, k, n));
                let mv = meta_at(m1, k, n)->0;
                assert forall|t: Seq<char>| #[trigger] mv.tags.contains(t) implies len_ok(
                    encode_utf8(t),
                ) && tag_at(m2, k, t) == Some(n) by {
                    assert(agree_at(m1, m2, tag_key(k, t)));
                    assert(tag_at(m2, k, t) == tag_at(m1, k, t));
                }
            }
            assert forall|n: u64| n == 0 || n > l implies !m2.contains_key(
                #[trigger] version_key(k, n),
            ) && !m2.contains_key(content_key(k, n)) by {
                assert(agree_at(m1, m2, version_key(k, n)));
                assert(agree_at(m1, m2, content_key(k, n)));
            }
            assert forall|t: Seq<char>| #[trigger] m2.contains_key(tag_key(k, t)) implies {
                &&& m2[tag_key(k, t)].len() == 8
                &&& 1 <= spec_u64_from_le_bytes(m2[tag_key(k, t)]) <= l
                &&& meta_at(m2, k, spec_u64_from_le_bytes(m2[tag_key(k, t)]))->0.tags.contains(t)
            } by {
                assert(agree_at(m1, m2, tag_key(k, t)));
                assert(m1.contains_key(tag_key(k, t)));
                let v = spec_u64_from_le_bytes(m1[tag_key(k, t)]);
                assert(1 <= v <= l);
                assert(agree_at(m1, m2, version_key(k, v)));
                assert(meta_at(m2, k, v) == meta_at(m1, k, v));
            }
        },
    }
}

/// A UTF-8 encoding takes at most four bytes per character.
pub proof fn lemma_encode_utf8_len(s: Seq<char>)
    ensures
        encode_utf8(s).len() <= 4 * s.len(),
    decreases s.len(),
{
    if s.len() > 0 {
        lemma_encode_utf8_len(s.drop_first());
    }
}

/// Creating the first version of a key preserves well-formedness.
pub proof fn lemma_create_wf(m: RawMap, k: Seq<char>, c: Seq<char>, ts: i64)
    requires
        vault_wf(m),
        real_key(k),
        latest_of(m, k) is None,
        meta_ok(fresh_meta(k, 1, c, None, None, ts)),
    ensures
        vault_wf(spec_create(m, k, c, ts)),
        latest_of(spec_create(m, k, c, ts), k) == Some(1u64),
        meta_at(spec_create(m, k, c, ts), k, 1) == Some(fresh_meta(k, 1, c, None, None, ts)),
        content_at(spec_create(m, k, c, ts), k, 1) == Some(encode_utf8(c)),
        forall|k2: Seq<char>| k2 != k ==> #[trigger] agree_on_key(m, spec_create(m, k, c, ts), k2),
{
    broadcast use crate::rawkeys::group_raw_keys;

    vstd::bytes::lemma_auto_spec_u64_to_from_le_bytes();
    let m2 = spec_create(m, k, c, ts);
    let fm = fresh_meta(k, 1, c, None, None, ts);
    assert(key_wf(m, k));
    assert(m2[latest_key(k)] == spec_u64_to_le_bytes(1u64));
    assert(latest_of(m2, k) == Some(1u64));
    assert(m2[version_key(k, 1)] == enc_meta(fm));
    crate::types::lemma_meta_round_trip(fm);
    assert(meta_at(m2, k, 1) == Some(fm));
    assert(m2[content_key(k, 1)] == encode_utf8(c));
    vstd::utf8::encode_utf8_valid_utf8(c);
    assert(version_wf(m2, k, 1)) by {
        assert(forall|t: Seq<char>| !(#[trigger] fm.tags.contains(t)));
    }
    assert(key_wf(m2, k)) by {
        assert forall|n: u64| 1 <= n <= 1 implies #[trigger] version_wf(m2, k, n) by {
            assert(version_wf(m2, k, 1));
        }
        assert forall|n: u64| n == 0 || n > 1 implies !m2.contains_key(
            #[trigger] version_key(k, n),
        ) && !m2.contains_key(content_key(k, n)) by {
            assert(!m.contains_key(version_key(k, n)));
            assert(!m.contains_key(content_key(k, n)));
        }
        assert forall|t: Seq<char>| !(#[trigger] m2.contains_key(tag_key(k, t))) by {
            assert(!m.contains_key(tag_key(k, t)));
        }
    }
    assert forall|k2: Seq<char>| k2 != k implies #[trigger] agree_on_key(m, m2, k2) by {
        assert(agree_on_key(m, m2, k2)) by {
            assert(agree_at(m, m2, latest_key(k2)));
            assert forall|n: u64| agree_at(m, m2, #[trigger] version_key(k2, n)) by {
                assert(version_key(k2, n) != version_key(k, 1));
                assert(version_key(k2, n) != content_key(k, 1));
                assert(version_key(k2, n) != latest_key(k));
            }
            assert forall|n: u64| agree_at(m, m2, #[trigger] content_key(k2, n)) by {
                assert(content_key(k2, n) != content_key(k, 1));
            }
            assert forall|t: Seq<char>| agree_at(m, m2, #[trigger] tag_key(k2, t)) by {
                assert(tag_key(k2, t) != version_key(k, 1));
            }
        }
    }
    assert forall|k2: Seq<char>| real_key(k2) && k2 != k implies #[trigger] key_wf(m2, k2) by {
        assert(key_wf(m, k2));
        assert(agree_on_key(m, m2, k2));
        lemma_key_wf_agree(m, m2, k2);
    }
    assert(vault_wf(m2));
}

/// The highest version of `k` that is at most `n` and has a timestamp at or
/// before `ts`.
pub open spec fn version_at_time(m: RawMap, k: Seq<char>, n: u64, ts: i64) -> Option<u64>
    decreases n,
{
    if n == 0 {
        None
    } else if meta_at(m, k, n) is Some && meta_at(m, k, n)->0.timestamp <= ts {
        Some(n)
    } else {
        version_at_time(m, k, (n - 1) as u64, ts)
    }
}

/// The version number a selector resolves to.
pub open spec fn spec_resolve(m: RawMap, k: Seq<char>, sel: SelView) -> Result<u64, VaultError> {
    match sel {
        SelView::Latest => match latest_of(m, k) {
            None => Err(VaultError::NotFound),
            Some(l) => Ok(l),
        },
        SelView::Version(v) => Ok(v),
        SelView::Tag(t) => match tag_at(m, k, t) {
            None => Err(VaultError::TagNotFound),
            Some(v) => Ok(v),
        },
        SelView::Time(ts) => match latest_of(m, k) {
            None => Err(VaultError::NoVersionAtTime),
            Some(l) => match version_at_time(m, k, l, ts) {
                None => Err(VaultError::NoVersionAtTime),
                Some(v) => Ok(v),
            },
        },
    }
}

/// What reading `k` through a selector returns: the stored content of the
/// resolved version, verbatim.
pub open spec fn spec_read(m: RawMap, k: Seq<char>, sel: SelView) -> Result<Seq<char>, VaultError> {
    match spec_resolve(m, k, sel) {
        Err(e) => Err(e),
        Ok(n) => if meta_at(m, k, n) is Some {
            Ok(content_chars(m, k, n))
        } else {
            Err(VaultError::VersionNotFound)
        },
    }
}

/// Removing a name never lengthens a tag list.
pub proof fn lemma_remove_name_len(ts: Seq<Seq<char>>, t: Seq<char>)
    ensures
        remove_name(ts, t).len() <= ts.len(),
    decreases ts.len(),
{
    if ts.len() > 0 {
        lemma_remove_name_len(ts.drop_first(), t);
    }
}

/// Removing a tag name keeps a record encodable.
pub proof fn lemma_meta_ok_remove(mv: MetaView, t: Seq<char>)
    requires
        meta_ok(mv),
    ensures
        meta_ok(tag_removed_meta(mv, t)),
{
    lemma_remove_name_len(mv.tags, t);
    let ts2 = remove_name(mv.tags, t);
    assert forall|j: int| 0 <= j < ts2.len() implies len_ok(encode_utf8(#[trigger] ts2[j])) by {
        assert(ts2.contains(ts2[j]));
        lemma_remove_name_membership(mv.tags, t, ts2[j]);
        let i = choose|i: int| 0 <= i < mv.tags.len() && mv.tags[i] == ts2[j];
        assert(len_ok(encode_utf8(mv.tags[i])));
    }
}

/// Adding a short tag name to a short tag list keeps a record encodable.
pub proof fn lemma_meta_ok_add(mv: MetaView, t: Seq<char>)
    requires
        meta_ok(mv),
        len_ok(encode_utf8(t)),
        mv.tags.len() + 1 <= u64::MAX,
    ensures
        meta_ok(tag_added_meta(mv, t)),
{
    let ts2 = mv.tags.push(t);
    assert forall|j: int| 0 <= j < ts2.len() implies len_ok(encode_utf8(#[trigger] ts2[j])) by {
        if j < mv.tags.len() {
            assert(ts2[j] == mv.tags[j]);
        } else {
            assert(ts2[j] == t);
        }
    }
}

/// Appending a fresh version on top of the current latest one preserves
/// well-formedness; the `"dev"` tag has not moved yet.
pub proof fn lemma_append_wf(m: RawMap, k: Seq<char>, n: u64, c: Seq<char>, msg: Option<Seq<char>>, ts: i64)
    requires
        vault_wf(m),
        real_key(k),
        latest_of(m, k) is Some,
        n == latest_of(m, k)->0 + 1,
        meta_ok(fresh_meta(k, n, c, Some((n - 1) as u64), msg, ts)),
    ensures
        vault_wf(spec_append_version(m, k, n, c, msg, ts)),
        latest_of(spec_append_version(m, k, n, c, msg, ts), k) == Some(n),
        meta_at(spec_append_version(m, k, n, c, msg, ts), k, n) == Some(
            fresh_meta(k, n, c, Some((n - 1) as u64), msg, ts),
        ),
        content_at(spec_append_version(m, k, n, c, msg, ts), k, n) == Some(encode_utf8(c)),
        forall|n2: u64| n2 != n ==> #[trigger] meta_at(spec_append_version(m, k, n, c, msg, ts), k, n2)
            == meta_at(m, k, n2),
        forall|n2: u64| n2 != n ==> #[trigger] content_at(spec_append_version(m, k, n, c, msg, ts), k, n2)
            == content_at(m, k, n2),
        forall|t: Seq<char>| #[trigger] tag_at(spec_append_version(m, k, n, c, msg, ts), k, t)
            == tag_at(m, k, t),
        forall|k2: Seq<char>| k2 != k ==> #[trigger] agree_on_key(
            m,
            spec_append_version(m, k, n, c, msg, ts),
            k2,
        ),
{
    broadcast use crate::rawkeys::group_raw_keys;

    vstd::bytes::lemma_auto_spec_u64_to_from_le_bytes();
    let l = latest_of(m, k)->0;
    let m2 = spec_append_version(m, k, n, c, msg, ts);
    let fm = fresh_meta(k, n, c, Some((n - 1) as u64), msg, ts);
    assert(key_wf(m, k));
    assert(m2[latest_key(k)] == spec_u64_to_le_bytes(n));
    assert(latest_of(m2, k) == Some(n));
    assert(m2[version_key(k, n)] == enc_meta(fm));
    crate::types::lemma_meta_round_trip(fm);
    assert(meta_at(m2, k, n) == Some(fm));
    assert(m2[content_key(k, n)] == encode_utf8(c));
    vstd::utf8::encode_utf8_valid_utf8(c);
    assert forall|t: Seq<char>| #[trigger] tag_at(m2, k, t) == tag_at(m, k, t) by {
        assert(agree_at(m, m2, tag_key(k, t)));
    }
    assert(key_wf(m2, k)) by {
        assert forall|n2: u64| 1 <= n2 <= n implies #[trigger] version_wf(m2, k, n2) by {
            if n2 == n {
                assert(forall|t: Seq<char>| !(#[trigger] fm.tags.contains(t)));
            } else {
                assert(version_wf(m, k, n2));
                assert(meta_at(m2, k, n2) == meta_at(m, k, n2));
                assert(content_at(m2, k, n2) == content_at(m, k, n2));
            }
        }
        assert forall|n2: u64| n2 == 0 || n2 > n implies !m2.contains_key(
            #[trigger] version_key(k, n2),
        ) && !m2.contains_key(content_key(k, n2)) by {
            assert(!m.contains_key(version_key(k, n2)));
            assert(!m.contains_key(content_key(k, n2)));
        }
        assert forall|t: Seq<char>| #[trigger] m2.contains_key(tag_key(k, t)) implies {
            &&& m2[tag_key(k, t)].len() == 8
            &&& 1 <= spec_u64_from_le_bytes(m2[tag_key(k, t)]) <= n
            &&& meta_at(m2, k, spec_u64_from_le_bytes(m2[tag_key(k, t)]))->0.tags.contains(t)
        } by {
            assert(m.contains_key(tag_key(k, t)));
            assert(m2[tag_key(k, t)] == m[tag_key(k, t)]);
            let h = spec_u64_from_le_bytes(m[tag_key(k, t)]);
            assert(1 <= h <= l);
            assert(meta_at(m2, k, h) == meta_at(m, k, h));
        }
    }
    assert forall|k2: Seq<char>| k2 != k implies #[trigger] agree_on_key(m, m2, k2) by {
        assert(agree_at(m, m2, latest_key(k2)));
        assert forall|n2: u64| agree_at(m, m2, #[trigger] version_key(k2, n2)) by {
            assert(version_key(k2, n2) != version_key(k, n));
        }
        assert forall|n2: u64| agree_at(m, m2, #[trigger] content_key(k2, n2)) by {
            assert(content_key(k2, n2) != content_key(k, n));
        }
        assert forall|t: Seq<char>| agree_at(m, m2, #[trigger] tag_key(k2, t)) by {
            assert(tag_key(k2, t) != version_key(k, n));
        }
    }
    assert forall|k2: Seq<char>| real_key(k2) && k2 != k implies #[trigger] key_wf(m2, k2) by {
        assert(key_wf(m, k2));
        lemma_key_wf_agree(m, m2, k2);
    }
    assert(vault_wf(m2));
}

/// Moving a tag pointer preserves well-formedness.
#[verifier::rlimit(100)]
pub proof fn lemma_tag_wf(m: RawMap, k: Seq<char>, t: Seq<char>, v: u64)
    requires
        vault_wf(m),
        real_key(k),
        len_ok(encode_utf8(t)),
        latest_of(m, k) is Some,
        1 <= v <= latest_of(m, k)->0,
        (!meta_at(m, k, v)->0.tags.contains(t) ==> meta_ok(
            tag_added_meta(meta_at(m, k, v)->0, t),
        )),
    ensures
        vault_wf(spec_tag(m, k, t, v)),
        latest_of(spec_tag(m, k, t, v), k) == latest_of(m, k),
        tag_at(spec_tag(m, k, t, v), k, t) == Some(v),
        meta_at(spec_tag(m, k, t, v), k, v) is Some,
        meta_at(spec_tag(m, k, t, v), k, v)->0.tags.contains(t),
        forall|n: u64|
            1 <= n <= latest_of(m, k)->0 && n != v ==> !(#[trigger] meta_at(
                spec_tag(m, k, t, v),
                k,
                n,
            )->0.tags.contains(t)),
        forall|t2: Seq<char>|
            t2 != t ==> #[trigger] tag_at(spec_tag(m, k, t, v), k, t2) == tag_at(m, k, t2),
        forall|n: u64| #[trigger] content_at(spec_tag(m, k, t, v), k, n) == content_at(m, k, n),
        forall|n: u64, t2: Seq<char>|
            1 <= n <= latest_of(m, k)->0 && t2 != t ==> (#[trigger] meta_at(
                spec_tag(m, k, t, v),
                k,
                n,
            )->0.tags.contains(t2) <==> meta_at(m, k, n)->0.tags.contains(t2)),
        forall|n: u64|
            1 <= n <= latest_of(m, k)->0 ==> {
                &&& #[trigger] meta_at(spec_tag(m, k, t, v), k, n) is Some
                &&& meta_at(spec_tag(m, k, t, v), k, n)->0.version == meta_at(m, k, n)->0.version
                &&& meta_at(spec_tag(m, k, t, v), k, n)->0.parent == meta_at(m, k, n)->0.parent
                &&& meta_at(spec_tag(m, k, t, v), k, n)->0.timestamp == meta_at(m, k, n)->0.timestamp
                &&& meta_at(spec_tag(m, k, t, v), k, n)->0.message == meta_at(m, k, n)->0.message
                &&& meta_at(spec_tag(m, k, t, v), k, n)->0.object_hash == meta_at(m, k, n)->0.object_hash
                &&& (n != v ==> meta_at(spec_tag(m, k, t, v), k, n)->0.tags.len() <= meta_at(
                    m,
                    k,
                    n,
                )->0.tags.len())
            },
        forall|k2: Seq<char>|
            real_key(k2) && k2 != k ==> #[trigger] agree_on_key(m, spec_tag(m, k, t, v), k2),
{
    broadcast use crate::rawkeys::group_raw_keys;

    vstd::bytes::lemma_auto_spec_u64_to_from_le_bytes();
    let l = latest_of(m, k)->0;
    assert(key_wf(m, k));
    assert(version_wf(m, k, v));
    let nm = meta_at(m, k, v)->0;
    let moved = tag_at(m, k, t) is Some && tag_at(m, k, t)->0 != v;
    let m3 = spec_tag(m, k, t, v);
    // The old holder, when the pointer moves, is a well-formed version.
    if moved {
        let o = tag_at(m, k, t)->0;
        assert(m.contains_key(tag_key(k, t)));
        assert(1 <= o <= l);
        assert(version_wf(m, k, o));
        assert(meta_at(m, k, o) is Some);
    }
    let m1 = if moved {
        m.insert(
            version_key(k, tag_at(m, k, t)->0),
            enc_meta(tag_removed_meta(meta_at(m, k, tag_at(m, k, t)->0)->0, t)),
        )
    } else {
        m
    };
    assert(m1 == (if tag_at(m, k, t) is Some && tag_at(m, k, t)->0 != v && meta_at(
        m,
        k,
        tag_at(m, k, t)->0,
    ) is Some {
        m.insert(version_key(k, tag_at(m, k, t)->0), enc_meta(tag_removed_meta(meta_at(m, k, tag_at(m, k, t)->0)->0, t)))
    } else {
        m
    }));
    // Version v's record is untouched by the first stage.
    assert(meta_at(m1, k, v) == Some(nm));
    // Whether the name must be added to v's record.
    let added = !nm.tags.contains(t);
    if !added {
        // v already holds the name, so the old pointer already points at v.
        assert(tag_at(m, k, t) == Some(v));
        assert(!moved);
    }
    let m2 = m1.insert(tag_key(k, t), spec_u64_to_le_bytes(v));
    assert(m3 == (if added {
        m2.insert(version_key(k, v), enc_meta(tag_added_meta(nm, t)))
    } else {
        m2
    }));
    // Decoded records in the final state.
    if moved {
        let o = tag_at(m, k, t)->0;
        let om2 = tag_removed_meta(meta_at(m, k, o)->0, t);
        lemma_meta_ok_remove(meta_at(m, k, o)->0, t);
        crate::types::lemma_meta_round_trip(om2);
        assert(m3[version_key(k, o)] == enc_meta(om2));
        assert(meta_at(m3, k, o) == Some(om2));
    }
    if added {
        let nm2 = tag_added_meta(nm, t);
        crate::types::lemma_meta_round_trip(nm2);
        assert(m3[version_key(k, v)] == enc_meta(nm2));
        assert(meta_at(m3, k, v) == Some(nm2));
        assert(nm2.tags[nm2.tags.len() - 1] == t);
        assert(nm2.tags.contains(t));
    } else {
        assert(meta_at(m3, k, v) == Some(nm));
    }
    assert(m3[tag_key(k, t)] == spec_u64_to_le_bytes(v));
    assert(tag_at(m3, k, t) == Some(v));
    assert(latest_of(m3, k) == Some(l));
    // Metas of versions other than v and the old holder are untouched.
    assert forall|n: u64|
        n != v && (!moved || n != tag_at(m, k, t)->0) implies #[trigger] meta_at(m3, k, n)
        == meta_at(m, k, n) by {
        assert(agree_at(m, m3, version_key(k, n)));
    }
    assert forall|n: u64| #[trigger] content_at(m3, k, n) == content_at(m, k, n) by {
        assert(agree_at(m, m3, content_key(k, n)));
    }
    assert forall|t2: Seq<char>| t2 != t implies #[trigger] tag_at(m3, k, t2) == tag_at(
        m,
        k,
        t2,
    ) by {
        assert(agree_at(m, m3, tag_key(k, t2)));
    }
    // Well-formedness of every version of k in the final state.
    assert forall|n: u64| 1 <= n <= l implies #[trigger] version_wf(m3, k, n) by {
        assert(version_wf(m, k, n));
        if moved && n == tag_at(m, k, t)->0 {
            let om = meta_at(m, k, n)->0;
            let om2 = tag_removed_meta(om, t);
            lemma_meta_ok_remove(om, t);
            lemma_remove_name_len(om.tags, t);
            assert forall|x: Seq<char>| #[trigger] om2.tags.contains(x) implies len_ok(
                encode_utf8(x),
            ) && tag_at(m3, k, x) == Some(n) by {
                lemma_remove_name_membership(om.tags, t, x);
                assert(om.tags.contains(x) && x != t);
                assert(tag_at(m, k, x) == Some(n));
            }
        } else if n == v {
            if added {
                let nm2 = tag_added_meta(nm, t);
                assert forall|x: Seq<char>| #[trigger] nm2.tags.contains(x) implies len_ok(
                    encode_utf8(x),
                ) && tag_at(m3, k, x) == Some(n) by {
                    let i = choose|i: int| 0 <= i < nm2.tags.len() && nm2.tags[i] == x;
                    if i < nm.tags.len() {
                        assert(nm.tags[i] == x);
                        assert(nm.tags.contains(x));
                        assert(tag_at(m, k, x) == Some(v));
                        assert(x != t);
                    } else {
                        assert(x == t);
                    }
                }
            } else {
                assert forall|x: Seq<char>| #[trigger] nm.tags.contains(x) implies len_ok(
                    encode_utf8(x),
                ) && tag_at(m3, k, x) == Some(n) by {
                    assert(tag_at(m, k, x) == Some(v));
                    if x != t {
                    } else {
                        assert(tag_at(m3, k, t) == Some(v));
                    }
                }
            }
        } else {
            let mv = meta_at(m, k, n)->0;
            assert(meta_at(m3, k, n) == Some(mv));
            assert forall|x: Seq<char>| #[trigger] mv.tags.contains(x) implies len_ok(
                encode_utf8(x),
            ) && tag_at(m3, k, x) == Some(n) by {
                assert(tag_at(m, k, x) == Some(n));
                if x == t {
                    // n would be the old holder of t, handled above.
                    assert(tag_at(m, k, t) == Some(n));
                    assert(moved && n == tag_at(m, k, t)->0);
                    assert(false);
                }
            }
        }
    }
    // Fields other than the tag set are untouched everywhere.
    assert forall|n: u64| 1 <= n <= l implies {
        &&& #[trigger] meta_at(m3, k, n) is Some
        &&& meta_at(m3, k, n)->0.version == meta_at(m, k, n)->0.version
        &&& meta_at(m3, k, n)->0.parent == meta_at(m, k, n)->0.parent
        &&& meta_at(m3, k, n)->0.timestamp == meta_at(m, k, n)->0.timestamp
        &&& meta_at(m3, k, n)->0.message == meta_at(m, k, n)->0.message
        &&& meta_at(m3, k, n)->0.object_hash == meta_at(m, k, n)->0.object_hash
        &&& (n != v ==> meta_at(m3, k, n)->0.tags.len() <= meta_at(m, k, n)->0.tags.len())
    } by {
        assert(version_wf(m, k, n));
        if moved && n == tag_at(m, k, t)->0 {
            lemma_remove_name_len(meta_at(m, k, n)->0.tags, t);
            assert(meta_at(m3, k, n) == Some(tag_removed_meta(meta_at(m, k, n)->0, t)));
        } else if n == v {
            if added {
                assert(meta_at(m3, k, v) == Some(tag_added_meta(nm, t)));
            } else {
                assert(meta_at(m3, k, v) == Some(nm));
            }
        } else {
            assert(meta_at(m3, k, n) == meta_at(m, k, n));
        }
    }
    // Nobody but v lists t afterwards.
    assert forall|n: u64| 1 <= n <= l && n != v implies !(#[trigger] meta_at(
        m3,
        k,
        n,
    )->0.tags.contains(t)) by {
        if moved && n == tag_at(m, k, t)->0 {
            let om = meta_at(m, k, n)->0;
            lemma_remove_name_membership(om.tags, t, t);
        } else {
            assert(meta_at(m3, k, n) == meta_at(m, k, n));
            if meta_at(m, k, n)->0.tags.contains(t) {
                assert(version_wf(m, k, n));
                assert(tag_at(m, k, t) == Some(n));
                assert(moved && n == tag_at(m, k, t)->0);
                assert(false);
            }
        }
    }
    // Tag names other than t keep their sets.
    assert forall|n: u64, t2: Seq<char>| 1 <= n <= l && t2 != t implies (#[trigger] meta_at(
        m3,
        k,
        n,
    )->0.tags.contains(t2) <==> meta_at(m, k, n)->0.tags.contains(t2)) by {
        if moved && n == tag_at(m, k, t)->0 {
            let om = meta_at(m, k, n)->0;
            lemma_remove_name_membership(om.tags, t, t2);
        } else if n == v && added {
            let nm2 = tag_added_meta(nm, t);
            if nm2.tags.contains(t2) {
                let i = choose|i: int| 0 <= i < nm2.tags.len() && nm2.tags[i] == t2;
                assert(i < nm.tags.len());
                assert(nm.tags.contains(t2));
            }
            if nm.tags.contains(t2) {
                let i = choose|i: int| 0 <= i < nm.tags.len() && nm.tags[i] == t2;
                assert(nm2.tags[i] == t2);
            }
        } else {
            assert(meta_at(m3, k, n) == meta_at(m, k, n));
        }
    }
    // The tag table stays consistent.
    assert(key_wf(m3, k)) by {
        assert forall|n: u64| n == 0 || n > l implies !m3.contains_key(
            #[trigger] version_key(k, n),
        ) && !m3.contains_key(content_key(k, n)) by {
            assert(agree_at(m, m3, version_key(k, n)));
            assert(agree_at(m, m3, content_key(k, n)));
        }
        assert forall|t2: Seq<char>| #[trigger] m3.contains_key(tag_key(k, t2)) implies {
            &&& m3[tag_key(k, t2)].len() == 8
            &&& 1 <= spec_u64_from_le_bytes(m3[tag_key(k, t2)]) <= l
            &&& meta_at(m3, k, spec_u64_from_le_bytes(m3[tag_key(k, t2)]))->0.tags.contains(t2)
        } by {
            if t2 == t {
                assert(m3[tag_key(k, t)] == spec_u64_to_le_bytes(v));
                assert(meta_at(m3, k, v)->0.tags.contains(t));
            } else {
                assert(agree_at(m, m3, tag_key(k, t2)));
                assert(m.contains_key(tag_key(k, t2)));
                let h = spec_u64_from_le_bytes(m[tag_key(k, t2)]);
                assert(1 <= h <= l);
                assert(meta_at(m, k, h)->0.tags.contains(t2));
                assert(version_wf(m, k, h));
                assert((meta_at(m3, k, h))->0.tags.contains(t2) <==> meta_at(
                    m,
                    k,
                    h,
                )->0.tags.contains(t2));
            }
        }
    }
    // Other keys are untouched.
    assert forall|k2: Seq<char>| real_key(k2) && k2 != k implies #[trigger] agree_on_key(
        m,
        m3,
        k2,
    ) by {
        assert(agree_at(m, m3, latest_key(k2)));
        assert forall|n2: u64| agree_at(m, m3, #[trigger] version_key(k2, n2)) by {
            if moved {
                assert(version_key(k2, n2) != version_key(k, tag_at(m, k, t)->0));
            }
            if added {
                assert(version_key(k2, n2) != version_key(k, v));
            }
        }
        assert(forall|n2: u64| agree_at(m, m3, #[trigger] content_key(k2, n2)));
        assert forall|t2: Seq<char>| agree_at(m, m3, #[trigger] tag_key(k2, t2)) by {
            assert(tag_key(k2, t2) != tag_key(k, t));
        }
    }
    assert forall|k2: Seq<char>| real_key(k2) && k2 != k implies #[trigger] key_wf(m3, k2) by {
        assert(key_wf(m, k2));
        lemma_key_wf_agree(m, m3, k2);
    }
    assert(vault_wf(m3));
}

/// Deleting a key removes exactly its records and preserves well-formedness.
pub proof fn lemma_delete_wf(m: RawMap, k: Seq<char>)
    requires
        vault_wf(m),
        real_key(k),
    ensures
        vault_wf(spec_delete(m, k)),
        latest_of(spec_delete(m, k), k) is None,
        forall|n: u64| !spec_delete(m, k).contains_key(#[trigger] version_key(k, n)),
        forall|n: u64| !spec_delete(m, k).contains_key(#[trigger] content_key(k, n)),
        forall|t: Seq<char>| !spec_delete(m, k).contains_key(#[trigger] tag_key(k, t)),
        forall|k2: Seq<char>|
            real_key(k2) && k2 != k ==> #[trigger] agree_on_key(m, spec_delete(m, k), k2),
{
    broadcast use crate::rawkeys::group_raw_keys;

    assert(key_wf(m, k));
    let md = spec_delete(m, k);
    match latest_of(m, k) {
        None => {
            assert(md == m);
        },
        Some(l) => {
            let ks = deleted_keys(m, k, l);
            assert(ks.contains(latest_key(k)));
            assert(!md.contains_key(latest_key(k)));
            assert forall|n: u64| !md.contains_key(#[trigger] version_key(k, n)) by {
                if m.contains_key(version_key(k, n)) {
                    assert(1 <= n <= l) by {
                        if n == 0 || n > l {
                            assert(!m.contains_key(version_key(k, n)));
                        }
                    }
                    assert(ks.contains(version_key(k, n)));
                }
            }
            assert forall|n: u64| !md.contains_key(#[trigger] content_key(k, n)) by {
                if m.contains_key(content_key(k, n)) {
                    assert(1 <= n <= l) by {
                        if n == 0 || n > l {
                            assert(!m.contains_key(version_key(k, n)));
                            assert(!m.contains_key(content_key(k, n)));
                        }
                    }
                    assert(ks.contains(content_key(k, n)));
                }
            }
            assert forall|t: Seq<char>| !md.contains_key(#[trigger] tag_key(k, t)) by {
                if m.contains_key(tag_key(k, t)) {
                    assert(ks.contains(tag_key(k, t)));
                }
            }
            assert(latest_of(md, k) is None);
            assert(key_wf(md, k));
            assert forall|k2: Seq<char>| real_key(k2) && k2 != k implies #[trigger] agree_on_key(
                m,
                md,
                k2,
            ) by {
                assert forall|rk: Seq<u8>| #[trigger] ks.contains(rk) implies {
                    &&& rk != latest_key(k2)
                    &&& forall|n2: u64| rk != #[trigger] version_key(k2, n2)
                    &&& forall|n2: u64| rk != #[trigger] content_key(k2, n2)
                    &&& forall|t2: Seq<char>| rk != #[trigger] tag_key(k2, t2)
                } by {
                    if rk == latest_key(k) {
                    } else if exists|n: u64| 1 <= n <= l && rk == #[trigger] version_key(k, n) {
                        let n = choose|n: u64| 1 <= n <= l && rk == #[trigger] version_key(k, n);
                    } else if exists|n: u64| 1 <= n <= l && rk == #[trigger] content_key(k, n) {
                        let n = choose|n: u64| 1 <= n <= l && rk == #[trigger] content_key(k, n);
                    } else {
                        let t = choose|t: Seq<char>|
                            m.contains_key(#[trigger] tag_key(k, t)) && rk == tag_key(k, t);
                    }
                }
                assert(agree_at(m, md, latest_key(k2))) by {
                    if ks.contains(latest_key(k2)) {
                    }
                }
                assert forall|n2: u64| agree_at(m, md, #[trigger] version_key(k2, n2)) by {
                    if ks.contains(version_key(k2, n2)) {
                    }
                }
                assert forall|n2: u64| agree_at(m, md, #[trigger] content_key(k2, n2)) by {
                    if ks.contains(content_key(k2, n2)) {
                    }
                }
                assert forall|t2: Seq<char>| agree_at(m, md, #[trigger] tag_key(k2, t2)) by {
                    if ks.contains(tag_key(k2, t2)) {
                    }
                }
            }
            assert forall|k2: Seq<char>| real_key(k2) && k2 != k implies #[trigger] key_wf(
                md,
                k2,
            ) by {
                assert(key_wf(m, k2));
                lemma_key_wf_agree(m, md, k2);
            }
            assert(vault_wf(md));
        },
    }
}

} // verus!
