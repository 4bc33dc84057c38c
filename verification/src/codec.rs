//! Length-prefixed binary encoding of byte strings and of sequences of
//! `(key, value)` byte pairs: the payload format of a vault backup.
//!
//! Layout: a `u64` little-endian count, then for each pair the key and the
//! value, each written as a `u64` little-endian length followed by the bytes.

use vstd::prelude::*;
use vstd::bytes::{
    lemma_auto_spec_u64_to_from_le_bytes, spec_u64_from_le_bytes, spec_u64_to_le_bytes,
    u64_from_le_bytes, u64_to_le_bytes,
};

verus! {

/// A byte string short enough for its length to be written as a `u64`.
pub open spec fn len_ok(b: Seq<u8>) -> bool {
    b.len() <= u64::MAX
}

/// One length-prefixed byte string.
pub open spec fn enc_bytes(b: Seq<u8>) -> Seq<u8>
    recommends
        len_ok(b),
{
    spec_u64_to_le_bytes(b.len() as u64) + b
}

/// Reads one length-prefixed byte string at position `i`; yields the string
/// and the position just after it.
pub open spec fn dec_bytes_at(s: Seq<u8>, i: int) -> Option<(Seq<u8>, int)> {
    if 0 <= i && i + 8 <= s.len() {
        let n = spec_u64_from_le_bytes(s.subrange(i, i + 8)) as int;
        if i + 8 + n <= s.len() {
            Some((s.subrange(i + 8, i + 8 + n), i + 8 + n))
        } else {
            None
        }
    } else {
        None
    }
}

/// The concatenation of the encodings of every pair, in order.
pub open spec fn enc_pairs(ps: Seq<(Seq<u8>, Seq<u8>)>) -> Seq<u8>
    decreases ps.len(),
{
    if ps.len() == 0 {
        Seq::empty()
    } else {
        enc_bytes(ps[0].0) + enc_bytes(ps[0].1) + enc_pairs(ps.drop_first())
    }
}

/// Every pair short enough to be length-prefixed.
pub open spec fn pairs_ok(ps: Seq<(Seq<u8>, Seq<u8>)>) -> bool {
    &&& ps.len() <= u64::MAX
    &&& forall|j: int| 0 <= j < ps.len() ==> len_ok(#[trigger] ps[j].0) && len_ok(ps[j].1)
}

/// The full blob: pair count, then the pairs.
pub open spec fn enc_pair_blob(ps: Seq<(Seq<u8>, Seq<u8>)>) -> Seq<u8>
    recommends
        pairs_ok(ps),
{
    spec_u64_to_le_bytes(ps.len() as u64) + enc_pairs(ps)
}

/// Reads `count` pairs starting at position `i`.
pub open spec fn dec_pairs_at(s: Seq<u8>, i: int, count: nat) -> Option<
    (Seq<(Seq<u8>, Seq<u8>)>, int),
>
    decreases count,
{
    if count == 0 {
        Some((Seq::empty(), i))
    } else {
        match dec_bytes_at(s, i) {
            Some((k, j)) => match dec_bytes_at(s, j) {
                Some((v, j2)) => match dec_pairs_at(s, j2, (count - 1) as nat) {
                    Some((rest, end)) => Some((seq![(k, v)] + rest, end)),
                    None => None,
                },
                None => None,
            },
            None => None,
        }
    }
}

/// Parses a whole blob; every byte must be consumed.
pub open spec fn dec_pair_blob(s: Seq<u8>) -> Option<Seq<(Seq<u8>, Seq<u8>)>> {
    if s.len() >= 8 {
        let count = spec_u64_from_le_bytes(s.subrange(0, 8));
        match dec_pairs_at(s, 8, count as nat) {
            Some((ps, end)) => if end == s.len() {
                Some(ps)
            } else {
                None
            },
            None => None,
        }
    } else {
        None
    }
}

/// Appending one more pair extends the encoding on the right.
pub proof fn lemma_enc_pairs_snoc(ps: Seq<(Seq<u8>, Seq<u8>)>, p: (Seq<u8>, Seq<u8>))
    ensures
        enc_pairs(ps.push(p)) == enc_pairs(ps) + enc_bytes(p.0) + enc_bytes(p.1),
    decreases ps.len(),
{
    if ps.len() == 0 {
        let q = ps.push(p);
        assert(q[0] == p);
        assert(q.drop_first() =~= Seq::<(Seq<u8>, Seq<u8>)>::empty());
        assert(enc_pairs(q.drop_first()) == Seq::<u8>::empty());
        assert(enc_pairs(q) == enc_bytes(p.0) + enc_bytes(p.1) + enc_pairs(q.drop_first()));
        assert(enc_pairs(q) =~= enc_bytes(p.0) + enc_bytes(p.1));
        assert(enc_pairs(ps) + enc_bytes(p.0) + enc_bytes(p.1) =~= enc_bytes(p.0) + enc_bytes(
            p.1,
        ));
    } else {
        assert(ps.push(p).drop_first() =~= ps.drop_first().push(p));
        lemma_enc_pairs_snoc(ps.drop_first(), p);
        assert(enc_pairs(ps.push(p)) =~= enc_pairs(ps) + enc_bytes(p.0) + enc_bytes(p.1));
    }
}

/// A length-prefixed byte string parses back to itself, whatever follows it.
pub proof fn lemma_dec_bytes_at_enc(s: Seq<u8>, i: int, b: Seq<u8>)
    requires
        len_ok(b),
        0 <= i <= s.len(),
        i + 8 + b.len() <= s.len(),
        s.subrange(i, i + 8 + b.len()) == enc_bytes(b),
    ensures
        dec_bytes_at(s, i) == Some((b, i + 8 + b.len())),
{
    lemma_auto_spec_u64_to_from_le_bytes();
    assert(s.subrange(i, i + 8) =~= enc_bytes(b).subrange(0, 8));
    assert(enc_bytes(b).subrange(0, 8) =~= spec_u64_to_le_bytes(b.len() as u64));
    assert(spec_u64_from_le_bytes(s.subrange(i, i + 8)) == b.len() as u64);
    assert(s.subrange(i + 8, i + 8 + b.len()) =~= enc_bytes(b).subrange(8, 8 + b.len() as int));
    assert(enc_bytes(b).subrange(8, 8 + b.len() as int) =~= b);
}

/// A sequence of encoded pairs parses back to itself when it fills the rest
/// of the input.
pub proof fn lemma_dec_pairs_at_enc(s: Seq<u8>, i: int, ps: Seq<(Seq<u8>, Seq<u8>)>)
    requires
        pairs_ok(ps),
        0 <= i <= s.len(),
        s.subrange(i, s.len() as int) == enc_pairs(ps),
    ensures
        dec_pairs_at(s, i, ps.len()) == Some((ps, s.len() as int)),
    decreases ps.len(),
{
    lemma_auto_spec_u64_to_from_le_bytes();
    if ps.len() == 0 {
        assert(s.subrange(i, s.len() as int).len() == 0);
        assert(i == s.len());
    } else {
        let k = ps[0].0;
        let v = ps[0].1;
        let rest = ps.drop_first();
        assert(len_ok(k) && len_ok(v));
        let j = i + 8 + k.len();
        let j2 = j + 8 + v.len();
        assert(s.subrange(i, s.len() as int) == enc_bytes(k) + enc_bytes(v) + enc_pairs(rest));
        assert(i + (enc_bytes(k) + enc_bytes(v) + enc_pairs(rest)).len() == s.len());
        assert(j2 <= s.len());
        assert(s.subrange(i, i + 8 + k.len()) =~= (enc_bytes(k) + enc_bytes(v) + enc_pairs(
            rest,
        )).subrange(0, 8 + k.len() as int));
        assert((enc_bytes(k) + enc_bytes(v) + enc_pairs(rest)).subrange(0, 8 + k.len() as int)
            =~= enc_bytes(k));
        lemma_dec_bytes_at_enc(s, i, k);
        assert(s.subrange(j, j + 8 + v.len()) =~= (enc_bytes(k) + enc_bytes(v) + enc_pairs(
            rest,
        )).subrange(8 + k.len() as int, (16 + k.len() + v.len()) as int));
        assert((enc_bytes(k) + enc_bytes(v) + enc_pairs(rest)).subrange(
            8 + k.len() as int,
            ((16 + k.len() + v.len()) as int) as int,
        ) =~= enc_bytes(v));
        lemma_dec_bytes_at_enc(s, j, v);
        assert(forall|x: int| 0 <= x < rest.len() ==> rest[x] == ps[x + 1]);
        assert(pairs_ok(rest));
        assert(s.subrange(j2, s.len() as int) =~= (enc_bytes(k) + enc_bytes(v) + enc_pairs(
            rest,
        )).subrange(((16 + k.len() + v.len()) as int) as int, (enc_bytes(k) + enc_bytes(v) + enc_pairs(
            rest,
        )).len() as int));
        assert((enc_bytes(k) + enc_bytes(v) + enc_pairs(rest)).subrange(
            ((16 + k.len() + v.len()) as int) as int,
            (enc_bytes(k) + enc_bytes(v) + enc_pairs(rest)).len() as int,
        ) =~= enc_pairs(rest));
        lemma_dec_pairs_at_enc(s, j2, rest);
        assert(seq![(k, v)] + rest =~= ps);
    }
}

/// Round trip: a well-formed pair sequence is recovered exactly from its blob.
pub proof fn lemma_pair_blob_round_trip(ps: Seq<(Seq<u8>, Seq<u8>)>)
    requires
        pairs_ok(ps),
    ensures
        dec_pair_blob(enc_pair_blob(ps)) == Some(ps),
{
    lemma_auto_spec_u64_to_from_le_bytes();
    let s = enc_pair_blob(ps);
    assert(s.subrange(0, 8) =~= spec_u64_to_le_bytes(ps.len() as u64));
    assert(spec_u64_from_le_bytes(s.subrange(0, 8)) == ps.len() as u64);
    assert(s.subrange(8, s.len() as int) =~= enc_pairs(ps));
    lemma_dec_pairs_at_enc(s, 8, ps);
}

/// Appends the length-prefixed encoding of `b` to `out`.
pub fn put_bytes(out: &mut Vec<u8>, b: &[u8])
    ensures
        final(out)@ == old(out)@ + enc_bytes(b@),
        len_ok(b@),
{
    let len_bytes = u64_to_le_bytes(b.len() as u64);
    out.extend_from_slice(len_bytes.as_slice());
    out.extend_from_slice(b);
    proof {
        assert(out@ =~= old(out)@ + enc_bytes(b@));
    }
}

/// Reads one length-prefixed byte string at `pos`, as `dec_bytes_at` does.
pub fn take_bytes(data: &[u8], pos: usize) -> (r: Option<(Vec<u8>, usize)>)
    ensures
        match r {
            Some((b, end)) => {
                &&& dec_bytes_at(data@, pos as int) == Some((b@, end as int))
                &&& pos < end <= data@.len()
            },
            None => dec_bytes_at(data@, pos as int) is None,
        },
{
    proof {
        lemma_auto_spec_u64_to_from_le_bytes();
    }
    if pos >= data.len() || data.len() - pos < 8 {
        return None;
    }
    let n = u64_from_le_bytes(&data[pos..pos + 8]);
    let avail = data.len() - pos - 8;
    if n > avail as u64 {
        return None;
    }
    let n_us = n as usize;
    let body = &data[pos + 8..pos + 8 + n_us];
    let mut out: Vec<u8> = Vec::new();
    out.extend_from_slice(body);
    proof {
        assert(data@.subrange(pos as int, pos + 8) =~= data@.subrange(pos as int, pos + 8));
        assert(out@ =~= data@.subrange(pos + 8, pos + 8 + n as int));
    }
    Some((out, pos + 8 + n_us))
}

/// Encodes a pair sequence into one blob.
pub fn encode_pairs(pairs: &Vec<(Vec<u8>, Vec<u8>)>) -> (r: Vec<u8>)
    ensures
        r@ == enc_pair_blob(pairs.deep_view()),
        pairs_ok(pairs.deep_view()),
{
    let ghost ps = pairs.deep_view();
    proof {
        assert(ps.len() == pairs@.len());
        assert(forall|j: int| 0 <= j < ps.len() ==> #[trigger] ps[j] == (
            pairs@[j].0@,
            pairs@[j].1@,
        ));
    }
    let mut out: Vec<u8> = Vec::new();
    let count_bytes = u64_to_le_bytes(pairs.len() as u64);
    out.extend_from_slice(count_bytes.as_slice());
    let mut i: usize = 0;
    while i < pairs.len()
        invariant
            i <= pairs.len(),
            ps == pairs.deep_view(),
            ps.len() == pairs@.len(),
            forall|j: int| 0 <= j < ps.len() ==> #[trigger] ps[j] == (pairs@[j].0@, pairs@[j].1@),
            forall|j: int| 0 <= j < i ==> len_ok(#[trigger] ps[j].0) && len_ok(ps[j].1),
            out@ == spec_u64_to_le_bytes(pairs@.len() as u64) + enc_pairs(ps.take(i as int)),
        decreases pairs.len() - i,
    {
        let pair = &pairs[i];
        put_bytes(&mut out, pair.0.as_slice());
        put_bytes(&mut out, pair.1.as_slice());
        proof {
            assert(ps[i as int] == (pairs@[i as int].0@, pairs@[i as int].1@));
            assert(len_ok(ps[i as int].0) && len_ok(ps[i as int].1));
            assert forall|j: int| 0 <= j < i + 1 implies len_ok(#[trigger] ps[j].0) && len_ok(
                ps[j].1,
            ) by {
                if j == i as int {
                    assert(len_ok(ps[i as int].0) && len_ok(ps[i as int].1));
                }
            }
            lemma_enc_pairs_snoc(ps.take(i as int), ps[i as int]);
            assert(ps.take(i + 1) =~= ps.take(i as int).push(ps[i as int]));
            assert(out@ =~= spec_u64_to_le_bytes(pairs@.len() as u64) + enc_pairs(
                ps.take(i + 1),
            ));
        }
        i += 1;
    }
    let n = pairs.len();
    proof {
        assert(ps.len() == n);
        assert(ps.len() <= u64::MAX);
        assert(forall|j: int| 0 <= j < ps.len() ==> len_ok(#[trigger] ps[j].0) && len_ok(
            ps[j].1,
        ));
        assert(pairs_ok(ps));
        assert(ps.take(ps.len() as int) =~= ps);
    }
    out
}

/// Decodes a blob back into its pair sequence; `None` on any malformed input.
pub fn decode_pairs(data: &[u8]) -> (r: Option<Vec<(Vec<u8>, Vec<u8>)>>)
    ensures
        match r {
            Some(ps) => dec_pair_blob(data@) == Some(ps.deep_view()),
            None => dec_pair_blob(data@) is None,
        },
{
    proof {
        lemma_auto_spec_u64_to_from_le_bytes();
    }
    if data.len() < 8 {
        return None;
    }
    let count = u64_from_le_bytes(&data[0..8]);
    proof {
        assert(data@.subrange(0, 8) =~= data@.subrange(0, 8));
    }
    let mut acc: Vec<(Vec<u8>, Vec<u8>)> = Vec::new();
    let mut pos: usize = 0 + 8;
    let mut done: u64 = 0;
    while done < count
        invariant
            data@.len() >= 8,
            count == spec_u64_from_le_bytes(data@.subrange(0, 8)),
            done <= count,
            pos <= data@.len(),
            dec_pairs_at(data@, 8, count as nat) == (match dec_pairs_at(
                data@,
                pos as int,
                (count - done) as nat,
            ) {
                Some((tail, end)) => Some((acc.deep_view() + tail, end)),
                None => None::<(Seq<(Seq<u8>, Seq<u8>)>, int)>,
            }),
        decreases count - done,
    {
        let ghost remaining = (count - done) as nat;
        let ghost old_acc = acc.deep_view();
        let kr = take_bytes(data, pos);
        let (kvec, mid) = match kr {
            Some(x) => x,
            None => {
                return None;
            },
        };
        let vr = take_bytes(data, mid);
        let (vvec, next) = match vr {
            Some(x) => x,
            None => {
                return None;
            },
        };
        acc.push((kvec, vvec));
        proof {
            assert(acc.deep_view() =~~= old_acc.push((kvec@, vvec@)));
            match dec_pairs_at(data@, next as int, (remaining - 1) as nat) {
                Some((tail, end)) => {
                    assert(dec_pairs_at(data@, pos as int, remaining) == Some(
                        (seq![(kvec@, vvec@)] + tail, end),
                    ));
                    assert(old_acc + (seq![(kvec@, vvec@)] + tail) =~= acc.deep_view() + tail);
                },
                None => {
                    assert(dec_pairs_at(data@, pos as int, remaining) is None);
                },
            }
        }
        pos = next;
        done += 1;
    }
    if pos != data.len() {
        proof {
            assert(dec_pairs_at(data@, pos as int, 0) == Some(
                (Seq::<(Seq<u8>, Seq<u8>)>::empty(), pos as int),
            ));
            assert(acc.deep_view() + Seq::<(Seq<u8>, Seq<u8>)>::empty() =~= acc.deep_view());
        }
        return None;
    }
    proof {
        assert(dec_pairs_at(data@, pos as int, 0) == Some(
            (Seq::<(Seq<u8>, Seq<u8>)>::empty(), pos as int),
        ));
        assert(acc.deep_view() + Seq::<(Seq<u8>, Seq<u8>)>::empty() =~= acc.deep_view());
    }
    Some(acc)
}

} // verus!
