//! Version metadata: the record stored for every version of a key, its
//! mathematical view, and its binary encoding.

use vstd::prelude::*;
use vstd::bytes::{
    lemma_auto_spec_u64_to_from_le_bytes, spec_u64_from_le_bytes, spec_u64_to_le_bytes,
    u64_from_le_bytes, u64_to_le_bytes,
};
use vstd::utf8::{decode_utf8, encode_utf8, encode_utf8_decode_utf8, encode_utf8_valid_utf8, valid_utf8};
use crate::codec::{dec_bytes_at, enc_bytes, len_ok, put_bytes, take_bytes};

verus! {

/// The name a result of `blake3::hash` rendered as lowercase hex: a function
/// of the hashed characters alone.
pub uninterp spec fn hash_hex(content: Seq<char>) -> Seq<char>;

/// Relies on `blake3::hash` and the hex `Display` of its digest: the result
/// depends on the input characters alone, and a 32-byte digest renders as 64
/// hex characters.
#[verifier::external_body]
pub fn calculate_hash(content: &str) -> (r: String)
    ensures
        r@ == hash_hex(content@),
        r@.len() == 64,
{
    blake3::hash(content.as_bytes()).to_string()
}

/// Relies on `chrono::Utc::now`: the current time as non-leap seconds since
/// the Unix epoch. Nothing is promised of the value.
#[verifier::external_body]
pub(crate) fn now_timestamp() -> i64 {
    chrono::Utc::now().timestamp()
}

/// Relies on `String::from_utf8`: succeeds exactly on valid UTF-8 input and
/// returns the characters that the bytes encode.
#[verifier::external_body]
pub(crate) fn string_from_utf8(v: Vec<u8>) -> (r: Option<String>)
    ensures
        r is Some <==> valid_utf8(v@),
        r is Some ==> r->0@ == decode_utf8(v@) && encode_utf8(r->0@) == v@,
{
    String::from_utf8(v).ok()
}

/// Which version of a key an operation should resolve to.
#[derive(Debug, Clone)]
pub enum VersionSelector<'a> {
    /// The highest existing version number.
    Latest,
    /// An explicit version number.
    Version(u64),
    /// The version the named tag points at.
    Tag(&'a str),
    /// The highest version whose timestamp is at or before the given time
    /// (seconds since the Unix epoch).
    Time(i64),
}

/// The view of an optional string.
pub open spec fn opt_str_view(o: Option<String>) -> Option<Seq<char>> {
    match o {
        Some(s) => Some(s@),
        None => None,
    }
}

/// The mathematical view of a [`VersionSelector`].
pub enum SelView {
    Latest,
    Version(u64),
    Tag(Seq<char>),
    Time(i64),
}

impl<'a> View for VersionSelector<'a> {
    type V = SelView;

    open spec fn view(&self) -> SelView {
        match self {
            VersionSelector::Latest => SelView::Latest,
            VersionSelector::Version(v) => SelView::Version(*v),
            VersionSelector::Tag(t) => SelView::Tag(t@),
            VersionSelector::Time(ts) => SelView::Time(*ts),
        }
    }
}

/// The mathematical view of a [`VersionMeta`].
pub struct MetaView {
    pub key: Seq<char>,
    pub version: u64,
    pub timestamp: i64,
    pub parent: Option<u64>,
    pub message: Option<Seq<char>>,
    pub object_hash: Seq<char>,
    pub tags: Seq<Seq<char>>,
}

/// Metadata for one version of a key.
#[derive(Debug, Clone)]
pub struct VersionMeta {
    /// The key this version belongs to.
    pub key: String,
    /// The version number, starting at 1 for a key's first version.
    pub version: u64,
    /// Creation time, seconds since the Unix epoch.
    pub timestamp: i64,
    /// The version this one was written against; `None` only for version 1.
    pub parent: Option<u64>,
    /// An optional annotation given at write time.
    pub message: Option<String>,
    /// Hex digest of the content of this version.
    pub object_hash: String,
    /// The tag names currently pointing at this version.
    pub tags: Vec<String>,
}

impl DeepView for VersionMeta {
    type V = MetaView;

    open spec fn deep_view(&self) -> MetaView {
        self.view()
    }
}

impl View for VersionMeta {
    type V = MetaView;

    open spec fn view(&self) -> MetaView {
        MetaView {
            key: self.key@,
            version: self.version,
            timestamp: self.timestamp,
            parent: self.parent,
            message: match self.message {
                Some(ref m) => Some(m@),
                None => None,
            },
            object_hash: self.object_hash@,
            tags: self.tags.deep_view(),
        }
    }
}

impl VersionMeta {
    /// Builds the metadata record for a fresh version: no tags yet, the
    /// digest of `content` as its hash, and the current time as timestamp.
    pub fn new(
        key: String,
        version: u64,
        content: &str,
        parent: Option<u64>,
        message: Option<String>,
    ) -> (r: VersionMeta)
        ensures
            r@.key == key@,
            r@.version == version,
            r@.parent == parent,
            r@.message == (match message {
                Some(m) => Some::<Seq<char>>(m@),
                None => None::<Seq<char>>,
            }),
            r@.object_hash == hash_hex(content@),
            r@.tags == Seq::<Seq<char>>::empty(),
    {
        let object_hash = calculate_hash(content);
        let timestamp = now_timestamp();
        let r = VersionMeta {
            key,
            version,
            timestamp,
            parent,
            message,
            object_hash,
            tags: Vec::new(),
        };
        proof {
            assert(r@.tags =~= Seq::<Seq<char>>::empty());
        }
        r
    }
}

// ---------------------------------------------------------------------------
// Encoding of the metadata record.
// ---------------------------------------------------------------------------

/// A length-prefixed UTF-8 string.
pub open spec fn enc_str(s: Seq<char>) -> Seq<u8> {
    enc_bytes(encode_utf8(s))
}

/// A signed timestamp: a sign byte, then the magnitude. Negative values
/// store `-(t + 1)` so that `i64::MIN` has an in-range magnitude.
pub open spec fn enc_i64(t: i64) -> Seq<u8> {
    if t >= 0 {
        seq![0u8] + spec_u64_to_le_bytes(t as u64)
    } else {
        seq![1u8] + spec_u64_to_le_bytes((-(t + 1)) as u64)
    }
}

/// An optional version number: a presence byte, then the number if present.
pub open spec fn enc_opt_u64(o: Option<u64>) -> Seq<u8> {
    match o {
        None => seq![0u8],
        Some(v) => seq![1u8] + spec_u64_to_le_bytes(v),
    }
}

/// An optional string: a presence byte, then the string if present.
pub open spec fn enc_opt_str(o: Option<Seq<char>>) -> Seq<u8> {
    match o {
        None => seq![0u8],
        Some(s) => seq![1u8] + enc_str(s),
    }
}

/// The concatenation of the encodings of every tag name, in order.
pub open spec fn enc_tags(ts: Seq<Seq<char>>) -> Seq<u8>
    decreases ts.len(),
{
    if ts.len() == 0 {
        Seq::empty()
    } else {
        enc_str(ts[0]) + enc_tags(ts.drop_first())
    }
}

/// The full record: key, version, timestamp, parent, message, hash, then the
/// tag count and the tags.
pub open spec fn enc_meta(m: MetaView) -> Seq<u8> {
    enc_str(m.key) + spec_u64_to_le_bytes(m.version) + enc_i64(m.timestamp) + enc_opt_u64(m.parent)
        + enc_opt_str(m.message) + enc_str(m.object_hash) + spec_u64_to_le_bytes(
        m.tags.len() as u64,
    ) + enc_tags(m.tags)
}

/// Every piece of the record short enough to be length-prefixed.
pub open spec fn meta_ok(m: MetaView) -> bool {
    &&& len_ok(encode_utf8(m.key))
    &&& (m.message is Some ==> len_ok(encode_utf8(m.message->0)))
    &&& len_ok(encode_utf8(m.object_hash))
    &&& m.tags.len() <= u64::MAX
    &&& forall|j: int| 0 <= j < m.tags.len() ==> len_ok(encode_utf8(#[trigger] m.tags[j]))
}

// ---------------------------------------------------------------------------
// Parsing of the metadata record.
// ---------------------------------------------------------------------------

/// Reads one length-prefixed UTF-8 string at `i`.
pub open spec fn dec_str_at(s: Seq<u8>, i: int) -> Option<(Seq<char>, int)> {
    match dec_bytes_at(s, i) {
        Some((b, j)) => if valid_utf8(b) {
            Some((decode_utf8(b), j))
        } else {
            None
        },
        None => None,
    }
}

/// Reads a `u64` at `i`.
pub open spec fn dec_u64_at(s: Seq<u8>, i: int) -> Option<(u64, int)> {
    if 0 <= i && i + 8 <= s.len() {
        Some((spec_u64_from_le_bytes(s.subrange(i, i + 8)), i + 8))
    } else {
        None
    }
}

/// Reads a signed timestamp at `i`.
pub open spec fn dec_i64_at(s: Seq<u8>, i: int) -> Option<(i64, int)> {
    if 0 <= i && i + 9 <= s.len() {
        let tag = s[i];
        let m = spec_u64_from_le_bytes(s.subrange(i + 1, i + 9));
        if m > i64::MAX as u64 {
            None
        } else if tag == 0u8 {
            Some((m as i64, i + 9))
        } else if tag == 1u8 {
            Some(((-1 - m as int) as i64, i + 9))
        } else {
            None
        }
    } else {
        None
    }
}

/// Reads an optional version number at `i`.
pub open spec fn dec_opt_u64_at(s: Seq<u8>, i: int) -> Option<(Option<u64>, int)> {
    if 0 <= i && i < s.len() {
        let tag = s[i];
        if tag == 0u8 {
            Some((None, i + 1))
        } else if tag == 1u8 {
            match dec_u64_at(s, i + 1) {
                Some((v, j)) => Some((Some(v), j)),
                None => None,
            }
        } else {
            None
        }
    } else {
        None
    }
}

/// Reads an optional string at `i`.
pub open spec fn dec_opt_str_at(s: Seq<u8>, i: int) -> Option<(Option<Seq<char>>, int)> {
    if 0 <= i && i < s.len() {
        let tag = s[i];
        if tag == 0u8 {
            Some((None, i + 1))
        } else if tag == 1u8 {
            match dec_str_at(s, i + 1) {
                Some((v, j)) => Some((Some(v), j)),
                None => None,
            }
        } else {
            None
        }
    } else {
        None
    }
}

/// Reads `count` tag names starting at `i`.
pub open spec fn dec_tags_at(s: Seq<u8>, i: int, count: nat) -> Option<(Seq<Seq<char>>, int)>
    decreases count,
{
    if count == 0 {
        Some((Seq::empty(), i))
    } else {
        match dec_str_at(s, i) {
            Some((t, j)) => match dec_tags_at(s, j, (count - 1) as nat) {
                Some((rest, end)) => Some((seq![t] + rest, end)),
                None => None,
            },
            None => None,
        }
    }
}

/// Parses a whole metadata record; every byte must be consumed.
pub open spec fn dec_meta(s: Seq<u8>) -> Option<MetaView> {
    match dec_str_at(s, 0) {
        Some((key, i1)) => match dec_u64_at(s, i1) {
            Some((version, i2)) => match dec_i64_at(s, i2) {
                Some((timestamp, i3)) => match dec_opt_u64_at(s, i3) {
                    Some((parent, i4)) => match dec_opt_str_at(s, i4) {
                        Some((message, i5)) => match dec_str_at(s, i5) {
                            Some((object_hash, i6)) => match dec_u64_at(s, i6) {
                                Some((count, i7)) => match dec_tags_at(s, i7, count as nat) {
                                    Some((tags, end)) => if end == s.len() {
                                        Some(
                                            MetaView {
                                                key,
                                                version,
                                                timestamp,
                                                parent,
                                                message,
                                                object_hash,
                                                tags,
                                            },
                                        )
                                    } else {
                                        None
                                    },
                                    None => None,
                                },
                                None => None,
                            },
                            None => None,
                        },
                        None => None,
                    },
                    None => None,
                },
                None => None,
            },
            None => None,
        },
        None => None,
    }
}

// ---------------------------------------------------------------------------
// Executable encoder.
// ---------------------------------------------------------------------------

/// Appending one more tag extends the encoding on the right.
pub proof fn lemma_enc_tags_snoc(ts: Seq<Seq<char>>, t: Seq<char>)
    ensures
        enc_tags(ts.push(t)) == enc_tags(ts) + enc_str(t),
    decreases ts.len(),
{
    if ts.len() == 0 {
        let q = ts.push(t);
        assert(q[0] == t);
        assert(q.drop_first() =~= Seq::<Seq<char>>::empty());
        assert(enc_tags(q.drop_first()) == Seq::<u8>::empty());
        assert(enc_tags(q) =~= enc_str(t));
        assert(enc_tags(ts) + enc_str(t) =~= enc_str(t));
    } else {
        assert(ts.push(t).drop_first() =~= ts.drop_first().push(t));
        lemma_enc_tags_snoc(ts.drop_first(), t);
        assert(enc_tags(ts.push(t)) =~= enc_tags(ts) + enc_str(t));
    }
}

/// Appends the little-endian encoding of `v` to `out`.
fn put_u64(out: &mut Vec<u8>, v: u64)
    ensures
        final(out)@ == old(out)@ + spec_u64_to_le_bytes(v),
{
    let bytes = u64_to_le_bytes(v);
    out.extend_from_slice(bytes.as_slice());
    proof {
        assert(out@ =~= old(out)@ + spec_u64_to_le_bytes(v));
    }
}

/// Encodes one metadata record.
pub fn encode_meta(meta: &VersionMeta) -> (r: Vec<u8>)
    ensures
        r@ == enc_meta(meta@),
        meta_ok(meta@),
{
    let ghost m = meta@;
    let mut out: Vec<u8> = Vec::new();
    put_bytes(&mut out, meta.key.as_str().as_bytes());
    proof {
        assert(out@ =~= enc_str(m.key));
    }
    put_u64(&mut out, meta.version);
    let ghost pre_ts = out@;
    if meta.timestamp >= 0 {
        out.push(0u8);
        put_u64(&mut out, meta.timestamp as u64);
        proof {
            assert(out@ =~= pre_ts + enc_i64(m.timestamp));
        }
    } else {
        out.push(1u8);
        let mag = -(meta.timestamp + 1);
        put_u64(&mut out, mag as u64);
        proof {
            assert(out@ =~= pre_ts + enc_i64(m.timestamp));
        }
    }
    let ghost pre_parent = out@;
    match meta.parent {
        None => {
            out.push(0u8);
            proof {
                assert(out@ =~= pre_parent + enc_opt_u64(m.parent));
            }
        },
        Some(p) => {
            out.push(1u8);
            put_u64(&mut out, p);
            proof {
                assert(out@ =~= pre_parent + enc_opt_u64(m.parent));
            }
        },
    }
    let ghost pre_msg = out@;
    match &meta.message {
        None => {
            out.push(0u8);
            proof {
                assert(out@ =~= pre_msg + enc_opt_str(m.message));
            }
        },
        Some(msg) => {
            out.push(1u8);
            put_bytes(&mut out, msg.as_str().as_bytes());
            proof {
                assert(out@ =~= pre_msg + enc_opt_str(m.message));
            }
        },
    }
    put_bytes(&mut out, meta.object_hash.as_str().as_bytes());
    put_u64(&mut out, meta.tags.len() as u64);
    let ghost pre_tags = out@;
    let ghost tags = m.tags;
    proof {
        assert(tags.len() == meta.tags@.len());
        assert(forall|j: int| 0 <= j < tags.len() ==> #[trigger] tags[j] == meta.tags@[j]@);
    }
    let mut i: usize = 0;
    while i < meta.tags.len()
        invariant
            i <= meta.tags.len(),
            tags == meta@.tags,
            tags.len() == meta.tags@.len(),
            forall|j: int| 0 <= j < tags.len() ==> #[trigger] tags[j] == meta.tags@[j]@,
            forall|j: int| 0 <= j < i ==> len_ok(encode_utf8(#[trigger] tags[j])),
            out@ == pre_tags + enc_tags(tags.take(i as int)),
        decreases meta.tags.len() - i,
    {
        put_bytes(&mut out, meta.tags[i].as_str().as_bytes());
        proof {
            assert(tags[i as int] == meta.tags@[i as int]@);
            assert(len_ok(encode_utf8(tags[i as int])));
            assert forall|j: int| 0 <= j < i + 1 implies len_ok(
                encode_utf8(#[trigger] tags[j]),
            ) by {
                if j == i as int {
                    assert(len_ok(encode_utf8(tags[i as int])));
                }
            }
            lemma_enc_tags_snoc(tags.take(i as int), tags[i as int]);
            assert(tags.take(i + 1) =~= tags.take(i as int).push(tags[i as int]));
            assert(out@ =~= pre_tags + enc_tags(tags.take(i + 1)));
        }
        i += 1;
    }
    let n = meta.tags.len();
    proof {
        assert(tags.len() == n);
        assert(tags.len() <= u64::MAX);
        assert(forall|j: int| 0 <= j < tags.len() ==> len_ok(encode_utf8(#[trigger] tags[j])));
        assert(tags.take(tags.len() as int) =~= tags);
        assert(out@ =~= enc_meta(m));
        assert(meta_ok(m));
    }
    out
}

// ---------------------------------------------------------------------------
// Executable parser.
// ---------------------------------------------------------------------------

/// Reads a `u64` at `pos`, as `dec_u64_at` does.
fn take_u64(data: &[u8], pos: usize) -> (r: Option<(u64, usize)>)
    ensures
        match r {
            Some((v, end)) => {
                &&& dec_u64_at(data@, pos as int) == Some((v, end as int))
                &&& pos < end <= data@.len()
            },
            None => dec_u64_at(data@, pos as int) is None,
        },
{
    if pos >= data.len() || data.len() - pos < 8 {
        return None;
    }
    let v = u64_from_le_bytes(&data[pos..pos + 8]);
    Some((v, pos + 8))
}

/// Reads a length-prefixed UTF-8 string at `pos`, as `dec_str_at` does.
fn take_string(data: &[u8], pos: usize) -> (r: Option<(String, usize)>)
    ensures
        match r {
            Some((s, end)) => {
                &&& dec_str_at(data@, pos as int) == Some((s@, end as int))
                &&& pos < end <= data@.len()
                &&& len_ok(encode_utf8(s@))
            },
            None => dec_str_at(data@, pos as int) is None,
        },
{
    let br = take_bytes(data, pos);
    match br {
        Some((bytes, end)) => {
            let ghost bv = bytes@;
            proof {
                assert(bv.len() <= usize::MAX);
            }
            match string_from_utf8(bytes) {
                Some(s) => Some((s, end)),
                None => None,
            }
        },
        None => None,
    }
}

/// Reads a signed timestamp at `pos`, as `dec_i64_at` does.
fn take_i64(data: &[u8], pos: usize) -> (r: Option<(i64, usize)>)
    ensures
        match r {
            Some((v, end)) => {
                &&& dec_i64_at(data@, pos as int) == Some((v, end as int))
                &&& pos < end <= data@.len()
            },
            None => dec_i64_at(data@, pos as int) is None,
        },
{
    if pos >= data.len() || data.len() - pos < 9 {
        return None;
    }
    let tag = data[pos];
    let m = u64_from_le_bytes(&data[pos + 1..pos + 9]);
    if m > i64::MAX as u64 {
        return None;
    }
    if tag == 0u8 {
        Some((m as i64, pos + 9))
    } else if tag == 1u8 {
        let v = -(m as i64) - 1;
        Some((v, pos + 9))
    } else {
        None
    }
}

/// Reads an optional version number at `pos`, as `dec_opt_u64_at` does.
fn take_opt_u64(data: &[u8], pos: usize) -> (r: Option<(Option<u64>, usize)>)
    ensures
        match r {
            Some((v, end)) => {
                &&& dec_opt_u64_at(data@, pos as int) == Some((v, end as int))
                &&& pos < end <= data@.len()
            },
            None => dec_opt_u64_at(data@, pos as int) is None,
        },
{
    if pos >= data.len() {
        return None;
    }
    let tag = data[pos];
    if tag == 0u8 {
        Some((None, pos + 1))
    } else if tag == 1u8 {
        match take_u64(data, pos + 1) {
            Some((v, end)) => Some((Some(v), end)),
            None => None,
        }
    } else {
        None
    }
}

/// Reads an optional string at `pos`, as `dec_opt_str_at` does.
fn take_opt_string(data: &[u8], pos: usize) -> (r: Option<(Option<String>, usize)>)
    ensures
        match r {
            Some((v, end)) => {
                &&& pos < end <= data@.len()
                &&& (match v {
                    Some(s) => dec_opt_str_at(data@, pos as int) == Some(
                        (Some(s@), end as int),
                    ),
                    None => dec_opt_str_at(data@, pos as int) == Some(
                        (None::<Seq<char>>, end as int),
                    ),
                })
            },
            None => dec_opt_str_at(data@, pos as int) is None,
        },
{
    if pos >= data.len() {
        return None;
    }
    let tag = data[pos];
    if tag == 0u8 {
        Some((None, pos + 1))
    } else if tag == 1u8 {
        match take_string(data, pos + 1) {
            Some((s, end)) => Some((Some(s), end)),
            None => None,
        }
    } else {
        None
    }
}

/// Decodes one metadata record; `None` on any malformed input.
#[verifier::loop_isolation(false)]
pub fn decode_meta(data: &[u8]) -> (r: Option<VersionMeta>)
    ensures
        match r {
            Some(meta) => dec_meta(data@) == Some(meta@),
            None => dec_meta(data@) is None,
        },
{
    let (key, i1) = match take_string(data, 0) {
        Some(x) => x,
        None => {
            return None;
        },
    };
    let (version, i2) = match take_u64(data, i1) {
        Some(x) => x,
        None => {
            return None;
        },
    };
    let (timestamp, i3) = match take_i64(data, i2) {
        Some(x) => x,
        None => {
            return None;
        },
    };
    let (parent, i4) = match take_opt_u64(data, i3) {
        Some(x) => x,
        None => {
            return None;
        },
    };
    let (message, i5) = match take_opt_string(data, i4) {
        Some(x) => x,
        None => {
            return None;
        },
    };
    let (object_hash, i6) = match take_string(data, i5) {
        Some(x) => x,
        None => {
            return None;
        },
    };
    let (count, i7) = match take_u64(data, i6) {
        Some(x) => x,
        None => {
            return None;
        },
    };
    let mut tags: Vec<String> = Vec::new();
    let mut pos: usize = i7;
    let mut done: u64 = 0;
    while done < count
        invariant
            done <= count,
            pos <= data@.len(),
            dec_tags_at(data@, i7 as int, count as nat) == (match dec_tags_at(
                data@,
                pos as int,
                (count - done) as nat,
            ) {
                Some((tail, end)) => Some((tags.deep_view() + tail, end)),
                None => None::<(Seq<Seq<char>>, int)>,
            }),
        decreases count - done,
    {
        let ghost remaining = (count - done) as nat;
        let ghost old_tags = tags.deep_view();
        let (t, next) = match take_string(data, pos) {
            Some(x) => x,
            None => {
                proof {
                    assert(dec_tags_at(data@, pos as int, remaining) is None);
                }
                return None;
            },
        };
        tags.push(t);
        proof {
            assert(tags.deep_view() =~~= old_tags.push(t@));
            match dec_tags_at(data@, next as int, (remaining - 1) as nat) {
                Some((tail, end)) => {
                    assert(dec_tags_at(data@, pos as int, remaining) == Some(
                        (seq![t@] + tail, end),
                    ));
                    assert(old_tags + (seq![t@] + tail) =~= tags.deep_view() + tail);
                },
                None => {
                    assert(dec_tags_at(data@, pos as int, remaining) is None);
                },
            }
        }
        pos = next;
        done += 1;
    }
    proof {
        assert(dec_tags_at(data@, pos as int, 0) == Some(
            (Seq::<Seq<char>>::empty(), pos as int),
        ));
        assert(tags.deep_view() + Seq::<Seq<char>>::empty() =~= tags.deep_view());
    }
    if pos != data.len() {
        return None;
    }
    let meta = VersionMeta { key, version, timestamp, parent, message, object_hash, tags };
    proof {
        assert(dec_meta(data@) == Some(meta@));
    }
    Some(meta)
}

// ---------------------------------------------------------------------------
// Round trip: an encoded record parses back to itself.
// ---------------------------------------------------------------------------

/// An encoded string parses back to itself, whatever follows it.
pub proof fn lemma_dec_str_at_enc(s: Seq<u8>, i: int, t: Seq<char>)
    requires
        len_ok(encode_utf8(t)),
        0 <= i <= s.len(),
        i + enc_str(t).len() <= s.len(),
        s.subrange(i, i + enc_str(t).len()) == enc_str(t),
    ensures
        dec_str_at(s, i) == Some((t, i + enc_str(t).len())),
{
    lemma_auto_spec_u64_to_from_le_bytes();
    crate::codec::lemma_dec_bytes_at_enc(s, i, encode_utf8(t));
    encode_utf8_valid_utf8(t);
    encode_utf8_decode_utf8(t);
}

/// An encoded `u64` parses back to itself.
pub proof fn lemma_dec_u64_at_enc(s: Seq<u8>, i: int, v: u64)
    requires
        0 <= i,
        i + 8 <= s.len(),
        s.subrange(i, i + 8) == spec_u64_to_le_bytes(v),
    ensures
        dec_u64_at(s, i) == Some((v, i + 8)),
{
    lemma_auto_spec_u64_to_from_le_bytes();
}

/// An encoded timestamp parses back to itself.
pub proof fn lemma_dec_i64_at_enc(s: Seq<u8>, i: int, t: i64)
    requires
        0 <= i,
        i + 9 <= s.len(),
        s.subrange(i, i + 9) == enc_i64(t),
    ensures
        dec_i64_at(s, i) == Some((t, i + 9)),
{
    lemma_auto_spec_u64_to_from_le_bytes();
    if t >= 0 {
        assert(s[i] == enc_i64(t)[0]);
        assert(s.subrange(i + 1, i + 9) =~= enc_i64(t).subrange(1, 9));
        assert(enc_i64(t).subrange(1, 9) =~= spec_u64_to_le_bytes(t as u64));
        assert(spec_u64_from_le_bytes(s.subrange(i + 1, i + 9)) == t as u64);
    } else {
        assert(s[i] == enc_i64(t)[0]);
        assert(s.subrange(i + 1, i + 9) =~= enc_i64(t).subrange(1, 9));
        assert(enc_i64(t).subrange(1, 9) =~= spec_u64_to_le_bytes((-(t + 1)) as u64));
        assert(spec_u64_from_le_bytes(s.subrange(i + 1, i + 9)) == (-(t + 1)) as u64);
    }
}

/// An encoded optional `u64` parses back to itself.
pub proof fn lemma_dec_opt_u64_at_enc(s: Seq<u8>, i: int, o: Option<u64>)
    requires
        0 <= i,
        i + enc_opt_u64(o).len() <= s.len(),
        s.subrange(i, i + enc_opt_u64(o).len()) == enc_opt_u64(o),
    ensures
        dec_opt_u64_at(s, i) == Some((o, i + enc_opt_u64(o).len())),
{
    lemma_auto_spec_u64_to_from_le_bytes();
    match o {
        None => {
            assert(s[i] == enc_opt_u64(o)[0]);
        },
        Some(v) => {
            assert(s[i] == enc_opt_u64(o)[0]);
            assert(s.subrange(i + 1, i + 9) =~= enc_opt_u64(o).subrange(1, 9));
            assert(enc_opt_u64(o).subrange(1, 9) =~= spec_u64_to_le_bytes(v));
            lemma_dec_u64_at_enc(s, i + 1, v);
        },
    }
}

/// An encoded optional string parses back to itself.
pub proof fn lemma_dec_opt_str_at_enc(s: Seq<u8>, i: int, o: Option<Seq<char>>)
    requires
        (o is Some ==> len_ok(encode_utf8(o->0))),
        0 <= i,
        i + enc_opt_str(o).len() <= s.len(),
        s.subrange(i, i + enc_opt_str(o).len()) == enc_opt_str(o),
    ensures
        dec_opt_str_at(s, i) == Some((o, i + enc_opt_str(o).len())),
{
    match o {
        None => {
            assert(s[i] == enc_opt_str(o)[0]);
        },
        Some(t) => {
            assert(s[i] == enc_opt_str(o)[0]);
            assert(s.subrange(i + 1, i + 1 + enc_str(t).len() as int) =~= enc_opt_str(
                o,
            ).subrange(1, 1 + enc_str(t).len() as int));
            assert(enc_opt_str(o).subrange(1, 1 + enc_str(t).len() as int) =~= enc_str(t));
            lemma_dec_str_at_enc(s, i + 1, t);
        },
    }
}

/// An encoded tag list parses back to itself when it fills the rest of the
/// input.
pub proof fn lemma_dec_tags_at_enc(s: Seq<u8>, i: int, ts: Seq<Seq<char>>)
    requires
        forall|j: int| 0 <= j < ts.len() ==> len_ok(encode_utf8(#[trigger] ts[j])),
        0 <= i <= s.len(),
        s.subrange(i, s.len() as int) == enc_tags(ts),
    ensures
        dec_tags_at(s, i, ts.len()) == Some((ts, s.len() as int)),
    decreases ts.len(),
{
    lemma_auto_spec_u64_to_from_le_bytes();
    if ts.len() == 0 {
        assert(s.subrange(i, s.len() as int).len() == 0);
        assert(i == s.len());
    } else {
        let t = ts[0];
        let rest = ts.drop_first();
        let j = i + enc_str(t).len();
        assert(s.subrange(i, s.len() as int) == enc_str(t) + enc_tags(rest));
        assert(i + (enc_str(t) + enc_tags(rest)).len() == s.len());
        assert(j <= s.len());
        assert(s.subrange(i, j) =~= (enc_str(t) + enc_tags(rest)).subrange(
            0,
            enc_str(t).len() as int,
        ));
        assert((enc_str(t) + enc_tags(rest)).subrange(0, enc_str(t).len() as int) =~= enc_str(
            t,
        ));
        lemma_dec_str_at_enc(s, i, t);
        assert(s.subrange(j, s.len() as int) =~= (enc_str(t) + enc_tags(rest)).subrange(
            enc_str(t).len() as int,
            (enc_str(t) + enc_tags(rest)).len() as int,
        ));
        assert((enc_str(t) + enc_tags(rest)).subrange(
            enc_str(t).len() as int,
            (enc_str(t) + enc_tags(rest)).len() as int,
        ) =~= enc_tags(rest));
        assert(forall|x: int| 0 <= x < rest.len() ==> rest[x] == ts[x + 1]);
        lemma_dec_tags_at_enc(s, j, rest);
        assert(seq![t] + rest =~= ts);
    }
}

/// Round trip: a well-formed metadata record is recovered exactly from its
/// encoding.
pub proof fn lemma_meta_round_trip(m: MetaView)
    requires
        meta_ok(m),
    ensures
        dec_meta(enc_meta(m)) == Some(m),
{
    lemma_auto_spec_u64_to_from_le_bytes();
    let s = enc_meta(m);
    let c1 = enc_str(m.key);
    let c2 = spec_u64_to_le_bytes(m.version);
    let c3 = enc_i64(m.timestamp);
    let c4 = enc_opt_u64(m.parent);
    let c5 = enc_opt_str(m.message);
    let c6 = enc_str(m.object_hash);
    let c7 = spec_u64_to_le_bytes(m.tags.len() as u64);
    let c8 = enc_tags(m.tags);
    let i1 = c1.len() as int;
    let i2 = i1 + 8;
    let i3 = i2 + 9;
    let i4 = i3 + c4.len();
    let i5 = i4 + c5.len();
    let i6 = i5 + c6.len();
    let i7 = i6 + 8;
    assert(c3.len() == 9) by {
        if m.timestamp >= 0 {
            assert(c3 =~= seq![0u8] + spec_u64_to_le_bytes(m.timestamp as u64));
        } else {
            assert(c3 =~= seq![1u8] + spec_u64_to_le_bytes((-(m.timestamp + 1)) as u64));
        }
    }
    assert(s.len() == i7 + c8.len());
    assert(s.subrange(0, i1) =~= c1);
    lemma_dec_str_at_enc(s, 0, m.key);
    assert(s.subrange(i1, i2) =~= c2);
    lemma_dec_u64_at_enc(s, i1, m.version);
    assert(s.subrange(i2, i3) =~= c3);
    lemma_dec_i64_at_enc(s, i2, m.timestamp);
    assert(s.subrange(i3, i4 as int) =~= c4);
    lemma_dec_opt_u64_at_enc(s, i3, m.parent);
    assert(s.subrange(i4 as int, i5 as int) =~= c5);
    lemma_dec_opt_str_at_enc(s, i4 as int, m.message);
    assert(s.subrange(i5 as int, i6 as int) =~= c6);
    lemma_dec_str_at_enc(s, i5 as int, m.object_hash);
    assert(s.subrange(i6 as int, i7 as int) =~= c7);
    lemma_dec_u64_at_enc(s, i6 as int, m.tags.len() as u64);
    assert(s.subrange(i7 as int, s.len() as int) =~= c8);
    lemma_dec_tags_at_enc(s, i7 as int, m.tags);
    assert(dec_meta(s) == Some(
        MetaView {
            key: m.key,
            version: m.version,
            timestamp: m.timestamp,
            parent: m.parent,
            message: m.message,
            object_hash: m.object_hash,
            tags: m.tags,
        },
    ));
    assert(MetaView {
        key: m.key,
        version: m.version,
        timestamp: m.timestamp,
        parent: m.parent,
        message: m.message,
        object_hash: m.object_hash,
        tags: m.tags,
    } == m);
}

} // verus!
