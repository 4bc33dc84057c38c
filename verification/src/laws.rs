//! Laws of the vault, stated and proved over the transition functions of
//! [`crate::model`]. Each is a property that holds of every well-formed
//! store, not just of the scenarios the tests run.

use vstd::prelude::*;
use vstd::utf8::{encode_utf8, encode_utf8_decode_utf8, decode_utf8_encode_utf8};
use crate::codec::len_ok;
use crate::errors::VaultError;
use crate::model::{
    content_at, content_chars, fresh_meta, latest_of, lemma_append_wf, lemma_create_wf,
    lemma_delete_wf, lemma_encode_utf8_len, lemma_meta_ok_add, lemma_tag_wf, meta_at, real_key,
    spec_create, spec_delete, spec_read, spec_tag, spec_write, tag_at, vault_wf,
    RawMap,
};
use crate::store::{lemma_pairs_match_to_map, pairs_match_view, pairs_to_map};
use crate::types::{meta_ok, SelView};

verus! {

/// After a key is created with content `c`, reading its version 1 yields
/// exactly `c`.
pub proof fn lemma_create_then_read(m: RawMap, k: Seq<char>, c: Seq<char>, ts: i64)
    requires
        vault_wf(m),
        real_key(k),
        latest_of(m, k) is None,
        meta_ok(fresh_meta(k, 1, c, None, None, ts)),
    ensures
        spec_read(spec_create(m, k, c, ts), k, SelView::Version(1)) == Ok::<
            Seq<char>,
            VaultError,
        >(c),
        vault_wf(spec_create(m, k, c, ts)),
        latest_of(spec_create(m, k, c, ts), k) == Some(1u64),
{
    lemma_create_wf(m, k, c, ts);
    encode_utf8_decode_utf8(c);
}

/// Writing on top of latest version `l` assigns exactly version `l + 1`,
/// with `l` as its parent; `l + 1` becomes the latest version. Version
/// numbers of successive writes are therefore consecutive.
pub proof fn lemma_write_versions_sequential(
    m: RawMap,
    k: Seq<char>,
    c: Seq<char>,
    msg: Option<Seq<char>>,
    ts: i64,
)
    requires
        vault_wf(m),
        real_key(k),
        latest_of(m, k) is Some,
        latest_of(m, k)->0 < u64::MAX,
        meta_ok(
            fresh_meta(k, (latest_of(m, k)->0 + 1) as u64, c, Some(latest_of(m, k)->0), msg, ts),
        ),
    ensures
        ({
            let l = latest_of(m, k)->0;
            let n = (l + 1) as u64;
            let m2 = spec_write(m, k, n, c, msg, ts);
            &&& latest_of(m2, k) == Some(n)
            &&& meta_at(m2, k, n) is Some
            &&& meta_at(m2, k, n)->0.version == n
            &&& meta_at(m2, k, n)->0.parent == Some(l)
            &&& vault_wf(m2)
        }),
{
    let l = latest_of(m, k)->0;
    let n = (l + 1) as u64;
    lemma_append_wf(m, k, n, c, msg, ts);
    let ma = crate::model::spec_append_version(m, k, n, c, msg, ts);
    let fm = fresh_meta(k, n, c, Some(l), msg, ts);
    lemma_dev_name_len();
    assert(!fm.tags.contains("dev"@));
    lemma_meta_ok_add(fm, "dev"@);
    lemma_tag_wf(ma, k, "dev"@, n);
}

/// The `"dev"` tag name is short enough to be framed into a raw key.
proof fn lemma_dev_name_len()
    ensures
        len_ok(encode_utf8("dev"@)),
{
    reveal_strlit("dev");
    lemma_encode_utf8_len("dev"@);
}

/// One write of a sequence: content, optional message, and timestamp.
pub type WriteArgs = (Seq<char>, Option<Seq<char>>, i64);

/// The store after one successful write of `w` to `k`: the version after
/// the current latest one is appended and `"dev"` moves onto it.
pub open spec fn write_step(m: RawMap, k: Seq<char>, w: WriteArgs) -> RawMap {
    spec_write(m, k, (latest_of(m, k)->0 + 1) as u64, w.0, w.1, w.2)
}

/// The store after a whole sequence of successful writes to `k`, in order.
pub open spec fn apply_writes(m: RawMap, k: Seq<char>, ws: Seq<WriteArgs>) -> RawMap
    decreases ws.len(),
{
    if ws.len() == 0 {
        m
    } else {
        apply_writes(write_step(m, k, ws[0]), k, ws.drop_first())
    }
}

/// A sequence of successful writes assigns exactly the consecutive version
/// numbers after the current latest one, in order; every version's parent
/// is the version written just before it.
pub proof fn lemma_writes_sequential(m: RawMap, k: Seq<char>, ws: Seq<WriteArgs>)
    requires
        vault_wf(m),
        real_key(k),
        latest_of(m, k) is Some,
        latest_of(m, k)->0 + ws.len() <= u64::MAX,
        forall|i: int|
            0 <= i < ws.len() ==> meta_ok(
                #[trigger] fresh_meta(
                    k,
                    (latest_of(m, k)->0 + 1 + i) as u64,
                    ws[i].0,
                    Some((latest_of(m, k)->0 + i) as u64),
                    ws[i].1,
                    ws[i].2,
                ),
            ),
    ensures
        ({
            let l = latest_of(m, k)->0;
            let mf = apply_writes(m, k, ws);
            &&& vault_wf(mf)
            &&& latest_of(mf, k) == Some((l + ws.len()) as u64)
            &&& forall|n: u64|
                1 <= n <= l + ws.len() ==> {
                    &&& #[trigger] meta_at(mf, k, n) is Some
                    &&& meta_at(mf, k, n)->0.version == n
                    &&& meta_at(mf, k, n)->0.parent == (if n == 1 {
                        None::<u64>
                    } else {
                        Some((n - 1) as u64)
                    })
                }
        }),
    decreases ws.len(),
{
    let l = latest_of(m, k)->0;
    let mf = apply_writes(m, k, ws);
    if ws.len() == 0 {
        assert(crate::model::key_wf(m, k));
        assert forall|n: u64| 1 <= n <= l + ws.len() implies {
            &&& #[trigger] meta_at(mf, k, n) is Some
            &&& meta_at(mf, k, n)->0.version == n
            &&& meta_at(mf, k, n)->0.parent == (if n == 1 {
                None::<u64>
            } else {
                Some((n - 1) as u64)
            })
        } by {
            assert(crate::model::version_wf(m, k, n));
        }
    } else {
        assert(meta_ok(fresh_meta(
            k,
            (l + 1 + 0) as u64,
            ws[0].0,
            Some((l + 0) as u64),
            ws[0].1,
            ws[0].2,
        )));
        lemma_write_versions_sequential(m, k, ws[0].0, ws[0].1, ws[0].2);
        let m1 = write_step(m, k, ws[0]);
        assert(latest_of(m1, k) == Some((l + 1) as u64));
        let rest = ws.drop_first();
        assert forall|i: int|
            0 <= i < rest.len() implies meta_ok(
            #[trigger] fresh_meta(
                k,
                (latest_of(m1, k)->0 + 1 + i) as u64,
                rest[i].0,
                Some((latest_of(m1, k)->0 + i) as u64),
                rest[i].1,
                rest[i].2,
            ),
        ) by {
            assert(rest[i] == ws[i + 1]);
            assert(meta_ok(fresh_meta(
                k,
                (l + 1 + (i + 1)) as u64,
                ws[i + 1].0,
                Some((l + (i + 1)) as u64),
                ws[i + 1].1,
                ws[i + 1].2,
            )));
        }
        lemma_writes_sequential(m1, k, rest);
        assert(mf == apply_writes(m1, k, rest));
    }
}

/// Under well-formedness, rejecting a write for identical content is the
/// same test whether made on the stored bytes or on the characters: the
/// stored content bytes equal the encoding of `c` exactly when the stored
/// text is `c`.
pub proof fn lemma_nochange_is_char_equality(m: RawMap, k: Seq<char>, c: Seq<char>)
    requires
        vault_wf(m),
        real_key(k),
        latest_of(m, k) is Some,
    ensures
        content_at(m, k, latest_of(m, k)->0) == Some(encode_utf8(c)) <==> content_chars(
            m,
            k,
            latest_of(m, k)->0,
        ) == c,
{
    let l = latest_of(m, k)->0;
    assert(crate::model::key_wf(m, k));
    assert(crate::model::version_wf(m, k, l));
    let b = content_at(m, k, l)->0;
    decode_utf8_encode_utf8(b);
    encode_utf8_decode_utf8(c);
}

/// After a successful write, reading through the `"dev"` tag yields the
/// written content, and no older version lists `"dev"` in its tag set.
pub proof fn lemma_write_moves_dev(
    m: RawMap,
    k: Seq<char>,
    c: Seq<char>,
    msg: Option<Seq<char>>,
    ts: i64,
)
    requires
        vault_wf(m),
        real_key(k),
        latest_of(m, k) is Some,
        latest_of(m, k)->0 < u64::MAX,
        meta_ok(
            fresh_meta(k, (latest_of(m, k)->0 + 1) as u64, c, Some(latest_of(m, k)->0), msg, ts),
        ),
    ensures
        ({
            let l = latest_of(m, k)->0;
            let n = (l + 1) as u64;
            let m2 = spec_write(m, k, n, c, msg, ts);
            &&& spec_read(m2, k, SelView::Tag("dev"@)) == Ok::<Seq<char>, VaultError>(c)
            &&& meta_at(m2, k, n)->0.tags.contains("dev"@)
            &&& forall|j: u64|
                1 <= j <= l ==> !(#[trigger] meta_at(m2, k, j)->0.tags.contains("dev"@))
        }),
{
    let l = latest_of(m, k)->0;
    let n = (l + 1) as u64;
    lemma_append_wf(m, k, n, c, msg, ts);
    let ma = crate::model::spec_append_version(m, k, n, c, msg, ts);
    let fm = fresh_meta(k, n, c, Some(l), msg, ts);
    lemma_dev_name_len();
    assert(!fm.tags.contains("dev"@));
    lemma_meta_ok_add(fm, "dev"@);
    lemma_tag_wf(ma, k, "dev"@, n);
    let m2 = spec_tag(ma, k, "dev"@, n);
    assert(tag_at(m2, k, "dev"@) == Some(n));
    assert(content_at(m2, k, n) == content_at(ma, k, n));
    assert(content_at(ma, k, n) == Some(encode_utf8(c)));
    encode_utf8_decode_utf8(c);
    assert forall|j: u64| 1 <= j <= l implies !(#[trigger] meta_at(m2, k, j)->0.tags.contains(
        "dev"@,
    )) by {
        assert(1 <= j <= latest_of(ma, k)->0 && j != n);
    }
}

/// Retagging: after name `t` points at `v1` and then at `v2`, only `v2`'s
/// record lists `t`, and the pointer reads `v2`.
pub proof fn lemma_retag_single_owner(m: RawMap, k: Seq<char>, t: Seq<char>, v1: u64, v2: u64)
    requires
        vault_wf(m),
        real_key(k),
        len_ok(encode_utf8(t)),
        latest_of(m, k) is Some,
        1 <= v1 <= latest_of(m, k)->0,
        1 <= v2 <= latest_of(m, k)->0,
        v1 != v2,
        meta_at(m, k, v1)->0.tags.len() < u64::MAX,
        meta_at(m, k, v2)->0.tags.len() < u64::MAX,
    ensures
        ({
            let m2 = spec_tag(spec_tag(m, k, t, v1), k, t, v2);
            &&& tag_at(m2, k, t) == Some(v2)
            &&& meta_at(m2, k, v2)->0.tags.contains(t)
            &&& forall|j: u64|
                1 <= j <= latest_of(m, k)->0 && j != v2 ==> !(#[trigger] meta_at(
                    m2,
                    k,
                    j,
                )->0.tags.contains(t))
            &&& vault_wf(m2)
        }),
{
    let l = latest_of(m, k)->0;
    assert(crate::model::key_wf(m, k));
    assert(crate::model::version_wf(m, k, v1));
    assert(crate::model::version_wf(m, k, v2));
    if !meta_at(m, k, v1)->0.tags.contains(t) {
        lemma_meta_ok_add(meta_at(m, k, v1)->0, t);
    }
    lemma_tag_wf(m, k, t, v1);
    let m1 = spec_tag(m, k, t, v1);
    assert(latest_of(m1, k) == Some(l));
    assert(!(meta_at(m1, k, v2)->0.tags.contains(t)));
    assert(meta_at(m1, k, v2)->0.tags.len() <= meta_at(m, k, v2)->0.tags.len());
    assert(crate::model::key_wf(m1, k));
    assert(crate::model::version_wf(m1, k, v2));
    lemma_meta_ok_add(meta_at(m1, k, v2)->0, t);
    lemma_tag_wf(m1, k, t, v2);
}

/// Re-tagging a version with a name it already holds changes nothing.
pub proof fn lemma_retag_idempotent(m: RawMap, k: Seq<char>, t: Seq<char>, v: u64)
    requires
        vault_wf(m),
        real_key(k),
        latest_of(m, k) is Some,
        1 <= v <= latest_of(m, k)->0,
        tag_at(m, k, t) == Some(v),
        meta_at(m, k, v)->0.tags.contains(t),
    ensures
        spec_tag(m, k, t, v) == m,
{
    vstd::bytes::lemma_auto_spec_u64_to_from_le_bytes();
    assert(crate::model::key_wf(m, k));
    assert(m.contains_key(crate::rawkeys::tag_key(k, t)));
    assert(m[crate::rawkeys::tag_key(k, t)] == vstd::bytes::spec_u64_to_le_bytes(v));
    assert(spec_tag(m, k, t, v) =~= m);
}

/// Round trip: the record listing of a store, recovered from a backup blob,
/// rebuilds exactly that store's contents, whatever password was involved.
pub proof fn lemma_backup_round_trip(
    m: RawMap,
    blob: Seq<u8>,
    ps: Seq<(Seq<u8>, Seq<u8>)>,
    pw: Option<Seq<char>>,
)
    requires
        pairs_match_view(ps, m),
        crate::storage::spec_parse_backup(blob, pw) == Ok::<Seq<(Seq<u8>, Seq<u8>)>, VaultError>(
            ps,
        ),
    ensures
        pairs_to_map(crate::storage::spec_parse_backup(blob, pw)->Ok_0) == m,
{
    lemma_pairs_match_to_map(ps, m);
}

/// After a key is deleted its history is gone: it has no latest version,
/// reading it fails with `NotFound`, and the store stays well-formed.
pub proof fn lemma_delete_clears_key(m: RawMap, k: Seq<char>)
    requires
        vault_wf(m),
        real_key(k),
    ensures
        latest_of(spec_delete(m, k), k) is None,
        spec_read(spec_delete(m, k), k, SelView::Latest) == Err::<Seq<char>, VaultError>(
            VaultError::NotFound,
        ),
        vault_wf(spec_delete(m, k)),
{
    lemma_delete_wf(m, k);
}

} // verus!

