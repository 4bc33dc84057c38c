//! The trusted boundary to the backing key-value store (sled).
//!
//! The contents of an open store are named by [`db_view`]: a map from raw
//! keys to raw values. Every wrapper below states what the sled call it
//! makes does to that map, as sled's own documentation gives it; nothing
//! else in the crate is trusted about the backing store.

use vstd::prelude::*;

verus! {

#[verifier::external_type_specification]
#[verifier::external_body]
pub struct ExDb(sled::Db);

#[verifier::external_type_specification]
#[verifier::external_body]
pub struct ExSledError(sled::Error);

/// The name of what an open store holds: its full contents as a map from raw
/// keys to raw values.
pub uninterp spec fn db_view(db: sled::Db) -> Map<Seq<u8>, Seq<u8>>;

/// Relies on `sled::open`: opens (creating if absent) the store kept under
/// `path`. Nothing is promised of the contents found there.
#[verifier::external_body]
pub(crate) fn db_open(path: &str) -> (r: Result<sled::Db, sled::Error>) {
    sled::open(path)
}

/// Relies on `sled::Tree::get`: a point read of one raw key.
#[verifier::external_body]
pub(crate) fn db_get(db: &sled::Db, key: &[u8]) -> (r: Result<Option<Vec<u8>>, sled::Error>)
    ensures
        match r {
            Ok(Some(v)) => db_view(*db).contains_key(key@) && db_view(*db)[key@] == v@,
            Ok(None) => !db_view(*db).contains_key(key@),
            Err(_) => true,
        },
{
    match db.get(key) {
        Ok(Some(v)) => Ok(Some(v.to_vec())),
        Ok(None) => Ok(None),
        Err(e) => Err(e),
    }
}

/// Relies on `sled::Tree::insert`: sets one raw key to one value. Nothing is
/// promised of the contents after a failure.
#[verifier::external_body]
pub(crate) fn db_insert(db: &mut sled::Db, key: &[u8], value: &[u8]) -> (r: Result<
    (),
    sled::Error,
>)
    ensures
        r is Ok ==> db_view(*final(db)) == db_view(*old(db)).insert(key@, value@),
{
    db.insert(key, value).map(|_| ())
}

/// Relies on `sled::Tree::remove`: deletes one raw key. Nothing is promised
/// of the contents after a failure.
#[verifier::external_body]
pub(crate) fn db_remove(db: &mut sled::Db, key: &[u8]) -> (r: Result<(), sled::Error>)
    ensures
        r is Ok ==> db_view(*final(db)) == db_view(*old(db)).remove(key@),
{
    db.remove(key).map(|_| ())
}

/// The empty store contents.
pub open spec fn empty_view() -> Map<Seq<u8>, Seq<u8>> {
    Map::empty()
}

/// Relies on `sled::Tree::clear`: removes every record. Nothing is promised
/// of the contents after a failure.
#[verifier::external_body]
pub(crate) fn db_clear(db: &mut sled::Db) -> (r: Result<(), sled::Error>)
    ensures
        r is Ok ==> db_view(*final(db)) == empty_view(),
{
    db.clear()
}

/// Relies on `sled::Tree::flush`: writes pending changes to disk. The
/// contents do not change.
#[verifier::external_body]
pub(crate) fn db_flush(db: &sled::Db) -> (r: Result<(), sled::Error>) {
    db.flush().map(|_| ())
}

/// `a` sorts strictly before `b` in lexicographic byte order.
pub open spec fn lex_lt(a: Seq<u8>, b: Seq<u8>) -> bool
    decreases a.len(),
{
    if b.len() == 0 {
        false
    } else if a.len() == 0 {
        true
    } else if a[0] < b[0] {
        true
    } else if a[0] > b[0] {
        false
    } else {
        lex_lt(a.drop_first(), b.drop_first())
    }
}

/// Nothing sorts strictly before itself.
pub proof fn lemma_lex_lt_irreflexive(a: Seq<u8>)
    ensures
        !lex_lt(a, a),
    decreases a.len(),
{
    if a.len() > 0 {
        lemma_lex_lt_irreflexive(a.drop_first());
    }
}

/// `ps` lists exactly the records of `m`, in strictly ascending raw key
/// order.
pub open spec fn pairs_match_view(ps: Seq<(Seq<u8>, Seq<u8>)>, m: Map<Seq<u8>, Seq<u8>>) -> bool {
    &&& forall|i: int|
        0 <= i < ps.len() ==> m.contains_key(#[trigger] ps[i].0) && m[ps[i].0] == ps[i].1
    &&& forall|k: Seq<u8>|
        #[trigger] m.contains_key(k) ==> exists|i: int| 0 <= i < ps.len() && ps[i].0 == k
    &&& forall|i: int, j: int| 0 <= i < j < ps.len() ==> lex_lt(#[trigger] ps[i].0, #[trigger] ps[j].0)
}

/// The map a pair sequence builds up, later pairs winning.
pub open spec fn pairs_to_map(ps: Seq<(Seq<u8>, Seq<u8>)>) -> Map<Seq<u8>, Seq<u8>>
    decreases ps.len(),
{
    if ps.len() == 0 {
        Map::empty()
    } else {
        pairs_to_map(ps.drop_last()).insert(ps.last().0, ps.last().1)
    }
}

/// A listing of a map rebuilds that map.
pub proof fn lemma_pairs_match_to_map(ps: Seq<(Seq<u8>, Seq<u8>)>, m: Map<Seq<u8>, Seq<u8>>)
    requires
        pairs_match_view(ps, m),
    ensures
        pairs_to_map(ps) == m,
    decreases ps.len(),
{
    if ps.len() == 0 {
        assert forall|k: Seq<u8>| !(#[trigger] m.contains_key(k)) by {
            if m.contains_key(k) {
                let i = choose|i: int| 0 <= i < ps.len() && ps[i].0 == k;
            }
        }
        assert(pairs_to_map(ps) =~= m);
    } else {
        let prefix = ps.drop_last();
        let kl = ps.last().0;
        let vl = ps.last().1;
        let m2 = m.remove(kl);
        assert forall|i: int| 0 <= i < prefix.len() implies m2.contains_key(
            #[trigger] prefix[i].0,
        ) && m2[prefix[i].0] == prefix[i].1 by {
            assert(ps[i] == prefix[i]);
            assert(lex_lt(ps[i].0, ps[ps.len() - 1].0));
            lemma_lex_lt_irreflexive(ps[i].0);
            assert(ps[i].0 != kl);
        }
        assert forall|k: Seq<u8>| #[trigger] m2.contains_key(k) implies exists|i: int|
            0 <= i < prefix.len() && prefix[i].0 == k by {
            assert(m.contains_key(k));
            let i = choose|i: int| 0 <= i < ps.len() && ps[i].0 == k;
            assert(k != kl);
            assert(i < ps.len() - 1);
            assert(prefix[i].0 == k);
        }
        assert forall|i: int, j: int| 0 <= i < j < prefix.len() implies lex_lt(
            #[trigger] prefix[i].0,
            #[trigger] prefix[j].0,
        ) by {
            assert(prefix[i] == ps[i] && prefix[j] == ps[j]);
        }
        lemma_pairs_match_to_map(prefix, m2);
        assert(m.contains_key(kl) && m[kl] == vl);
        assert(pairs_to_map(ps) == pairs_to_map(prefix).insert(kl, vl));
        assert(m2.insert(kl, vl) =~= m);
    }
}

/// One more pair extends the built-up map by one insertion.
pub proof fn lemma_pairs_to_map_take_snoc(ps: Seq<(Seq<u8>, Seq<u8>)>, i: int)
    requires
        0 <= i < ps.len(),
    ensures
        pairs_to_map(ps.take(i + 1)) == pairs_to_map(ps.take(i)).insert(ps[i].0, ps[i].1),
{
    assert(ps.take(i + 1).drop_last() =~= ps.take(i));
    assert(ps.take(i + 1).last() == ps[i]);
}

/// Relies on `sled::Tree::iter`: yields every record of the store, in
/// ascending lexicographic order of raw key.
#[verifier::external_body]
pub(crate) fn db_export(db: &sled::Db) -> (r: Result<Vec<(Vec<u8>, Vec<u8>)>, sled::Error>)
    ensures
        match r {
            Ok(pairs) => pairs_match_view(pairs.deep_view(), db_view(*db)),
            Err(_) => true,
        },
{
    let mut out: Vec<(Vec<u8>, Vec<u8>)> = Vec::new();
    for item in db.iter() {
        let (k, v) = item?;
        out.push((k.to_vec(), v.to_vec()));
    }
    Ok(out)
}

} // verus!
