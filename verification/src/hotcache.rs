//! The hotcache: the split's sidecar metadata and its binary format.
//!
//! A hotcache names the split, counts its documents, records its overall
//! byte range and size, and maps field names to the byte ranges of their
//! posting and fast-field data. It is serialized into a deterministic,
//! length-prefixed binary payload (a leading format-version byte, then
//! each field in a fixed order) so that every well-formed value decodes
//! back to itself exactly; `lemma_hotcache_round_trip` proves that.

use crate::codec::{
    dec_str, dec_u32, dec_u64, enc_str, enc_u32, enc_u64, lemma_dec_str_of_enc,
    lemma_dec_u32_of_enc, lemma_dec_u64_of_enc, lemma_enc_str_len, lemma_subrange_of_concat,
    spec_dec_str, spec_dec_u32, spec_dec_u64, spec_enc_str, spec_enc_u32, spec_enc_u64,
};
use crate::error::SplitsError;
use vstd::bytes::{lemma_auto_spec_u64_to_from_le_bytes, spec_u64_to_le_bytes};
use vstd::prelude::*;
use vstd::slice::slice_index_get;
use vstd::string::StringExecFns;

verus! {

/// A half-open byte range `[start, end)` within some file.
#[derive(Debug, Clone, Copy, PartialEq, Eq, Structural)]
pub struct ByteRange {
    pub start: u64,
    pub end: u64,
}

impl ByteRange {
    /// A range is well-formed when it does not end before it starts.
    pub open spec fn wf(self) -> bool {
        self.start <= self.end
    }

    pub fn new(start: u64, end: u64) -> (r: ByteRange)
        requires
            start <= end,
        ensures
            r == (ByteRange { start, end }),
    {
        ByteRange { start, end }
    }

    /// The number of bytes the range covers.
    pub fn size(&self) -> (r: u64)
        requires
            self.wf(),
        ensures
            r == self.end - self.start,
    {
        self.end - self.start
    }
}

/// Per-field byte ranges recorded in the hotcache: where the field's
/// posting data and fast-field data lie, when the field has them.
#[derive(Debug, Clone, Copy, PartialEq, Eq)]
pub struct FieldMetadata {
    pub posting_range: Option<ByteRange>,
    pub fast_field_range: Option<ByteRange>,
}

pub open spec fn wf_opt_range(o: Option<ByteRange>) -> bool {
    o matches Some(r) ==> r.wf()
}

pub open spec fn wf_field(f: FieldMetadata) -> bool {
    wf_opt_range(f.posting_range) && wf_opt_range(f.fast_field_range)
}

/// The mathematical value of a hotcache: every string as a character
/// sequence, every table as a sequence of entries in stored order.
pub struct HotcacheView {
    pub split_id: Seq<char>,
    pub num_docs: u32,
    pub size_bytes: u64,
    pub byte_range: ByteRange,
    pub metadata: Seq<(Seq<char>, Seq<char>)>,
    pub schema_hash: Seq<char>,
    pub field_metadata: Seq<(Seq<char>, FieldMetadata)>,
}

pub open spec fn wf_pairs(ps: Seq<(Seq<char>, Seq<char>)>) -> bool {
    forall|j: int|
        0 <= j < ps.len() ==> (#[trigger] ps[j]).0.len() <= u64::MAX && ps[j].1.len() <= u64::MAX
}

pub open spec fn wf_fields(fs: Seq<(Seq<char>, FieldMetadata)>) -> bool {
    forall|j: int|
        0 <= j < fs.len() ==> (#[trigger] fs[j]).0.len() <= u64::MAX && wf_field(fs[j].1)
}

impl HotcacheView {
    /// Validity of a hotcache value: ranges are ordered, and every string
    /// and table is small enough for its length prefix. Every value built
    /// by executable code satisfies this.
    pub open spec fn wf(self) -> bool {
        &&& self.byte_range.wf()
        &&& self.split_id.len() <= u64::MAX
        &&& self.schema_hash.len() <= u64::MAX
        &&& self.metadata.len() <= u64::MAX
        &&& wf_pairs(self.metadata)
        &&& self.field_metadata.len() <= u64::MAX
        &&& wf_fields(self.field_metadata)
    }
}

// ---------------------------------------------------------------------------
// Spec-level encoding.
// ---------------------------------------------------------------------------
/// The format-version byte that every payload starts with.
pub open spec fn spec_version_byte() -> u8 {
    1u8
}

pub open spec fn spec_enc_opt_range(o: Option<ByteRange>) -> Seq<u8> {
    match o {
        None => seq![0u8],
        Some(r) => seq![1u8] + spec_enc_u64(r.start) + spec_enc_u64(r.end),
    }
}

pub open spec fn spec_enc_pair(p: (Seq<char>, Seq<char>)) -> Seq<u8> {
    spec_enc_str(p.0) + spec_enc_str(p.1)
}

pub open spec fn spec_enc_pairs(ps: Seq<(Seq<char>, Seq<char>)>) -> Seq<u8>
    decreases ps.len(),
{
    if ps.len() == 0 {
        Seq::empty()
    } else {
        spec_enc_pair(ps[0]) + spec_enc_pairs(ps.drop_first())
    }
}

pub open spec fn spec_enc_field(f: (Seq<char>, FieldMetadata)) -> Seq<u8> {
    spec_enc_str(f.0) + spec_enc_opt_range(f.1.posting_range) + spec_enc_opt_range(
        f.1.fast_field_range,
    )
}

pub open spec fn spec_enc_fields(fs: Seq<(Seq<char>, FieldMetadata)>) -> Seq<u8>
    decreases fs.len(),
{
    if fs.len() == 0 {
        Seq::empty()
    } else {
        spec_enc_field(fs[0]) + spec_enc_fields(fs.drop_first())
    }
}

/// The fixed-order scalar prefix of the payload, through the metadata count.
pub open spec fn spec_enc_head(h: HotcacheView) -> Seq<u8> {
    seq![spec_version_byte()] + spec_enc_str(h.split_id) + spec_enc_u32(h.num_docs)
        + spec_enc_u64(h.size_bytes) + spec_enc_u64(h.byte_range.start) + spec_enc_u64(
        h.byte_range.end,
    ) + spec_enc_str(h.schema_hash) + spec_enc_u64(h.metadata.len() as u64)
}

/// The complete hotcache payload.
pub open spec fn spec_enc_hotcache(h: HotcacheView) -> Seq<u8> {
    spec_enc_head(h) + spec_enc_pairs(h.metadata) + spec_enc_u64(h.field_metadata.len() as u64)
        + spec_enc_fields(h.field_metadata)
}

// ---------------------------------------------------------------------------
// Spec-level decoding.
// ---------------------------------------------------------------------------
pub open spec fn spec_dec_opt_range(d: Seq<u8>, i: int) -> Option<(Option<ByteRange>, int)> {
    if 0 <= i && i < d.len() {
        if d[i] == 0u8 {
            Some((None, i + 1))
        } else if d[i] == 1u8 {
            match spec_dec_u64(d, i + 1) {
                None => None,
                Some((s, j)) => match spec_dec_u64(d, j) {
                    None => None,
                    Some((e, k)) => if s <= e {
                        Some((Some(ByteRange { start: s, end: e }), k))
                    } else {
                        None
                    },
                },
            }
        } else {
            None
        }
    } else {
        None
    }
}

pub open spec fn spec_dec_pair(d: Seq<u8>, i: int) -> Option<((Seq<char>, Seq<char>), int)> {
    match spec_dec_str(d, i) {
        None => None,
        Some((a, j)) => match spec_dec_str(d, j) {
            None => None,
            Some((b, k)) => Some(((a, b), k)),
        },
    }
}

pub open spec fn spec_dec_pairs(d: Seq<u8>, i: int, count: int) -> Option<
    (Seq<(Seq<char>, Seq<char>)>, int),
>
    decreases count,
{
    if count <= 0 {
        Some((Seq::empty(), i))
    } else {
        match spec_dec_pair(d, i) {
            None => None,
            Some((p, j)) => match spec_dec_pairs(d, j, count - 1) {
                None => None,
                Some((ps, k)) => Some((seq![p] + ps, k)),
            },
        }
    }
}

pub open spec fn spec_dec_field(d: Seq<u8>, i: int) -> Option<((Seq<char>, FieldMetadata), int)> {
    match spec_dec_str(d, i) {
        None => None,
        Some((name, j)) => match spec_dec_opt_range(d, j) {
            None => None,
            Some((posting, k)) => match spec_dec_opt_range(d, k) {
                None => None,
                Some((fast, m)) => Some(
                    ((name, FieldMetadata { posting_range: posting, fast_field_range: fast }), m),
                ),
            },
        },
    }
}

pub open spec fn spec_dec_fields(d: Seq<u8>, i: int, count: int) -> Option<
    (Seq<(Seq<char>, FieldMetadata)>, int),
>
    decreases count,
{
    if count <= 0 {
        Some((Seq::empty(), i))
    } else {
        match spec_dec_field(d, i) {
            None => None,
            Some((f, j)) => match spec_dec_fields(d, j, count - 1) {
                None => None,
                Some((fs, k)) => Some((seq![f] + fs, k)),
            },
        }
    }
}

/// Decoding of a whole payload: every component in order, the whole buffer
/// consumed, ranges ordered. `None` on any violation.
pub open spec fn spec_dec_hotcache(d: Seq<u8>) -> Option<HotcacheView> {
    if d.len() < 1 || d[0] != spec_version_byte() {
        None
    } else {
        match spec_dec_str(d, 1) {
            None => None,
            Some((split_id, i1)) => match spec_dec_u32(d, i1) {
                None => None,
                Some((num_docs, i2)) => match spec_dec_u64(d, i2) {
                    None => None,
                    Some((size_bytes, i3)) => match spec_dec_u64(d, i3) {
                        None => None,
                        Some((brs, i4)) => match spec_dec_u64(d, i4) {
                            None => None,
                            Some((bre, i5)) => if brs <= bre {
                                match spec_dec_str(d, i5) {
                                    None => None,
                                    Some((schema_hash, i6)) => match spec_dec_u64(d, i6) {
                                        None => None,
                                        Some((mcount, i7)) => match spec_dec_pairs(
                                            d,
                                            i7,
                                            mcount as int,
                                        ) {
                                            None => None,
                                            Some((metadata, i8)) => match spec_dec_u64(d, i8) {
                                                None => None,
                                                Some((fcount, i9)) => match spec_dec_fields(
                                                    d,
                                                    i9,
                                                    fcount as int,
                                                ) {
                                                    None => None,
                                                    Some((fields, i10)) => if i10 == d.len() {
                                                        Some(
                                                            HotcacheView {
                                                                split_id,
                                                                num_docs,
                                                                size_bytes,
                                                                byte_range: ByteRange {
                                                                    start: brs,
                                                                    end: bre,
                                                                },
                                                                metadata,
                                                                schema_hash,
                                                                field_metadata: fields,
                                                            },
                                                        )
                                                    } else {
                                                        None
                                                    },
                                                },
                                            },
                                        },
                                    },
                                }
                            } else {
                                None
                            },
                        },
                    },
                },
            },
        }
    }
}

// ---------------------------------------------------------------------------
// Lemmas about the table encodings.
// ---------------------------------------------------------------------------
pub proof fn lemma_enc_pairs_push(ps: Seq<(Seq<char>, Seq<char>)>, p: (Seq<char>, Seq<char>))
    ensures
        spec_enc_pairs(ps.push(p)) == spec_enc_pairs(ps) + spec_enc_pair(p),
    decreases ps.len(),
{
    if ps.len() == 0 {
        assert(ps.push(p)[0] == p);
        assert(ps.push(p).drop_first() =~= ps);
        assert(spec_enc_pairs(ps.push(p)) == spec_enc_pair(p) + spec_enc_pairs(ps));
        assert(spec_enc_pair(p) + Seq::<u8>::empty() =~= spec_enc_pair(p));
        assert(spec_enc_pairs(ps) + spec_enc_pair(p) =~= spec_enc_pair(p));
    } else {
        assert(ps.push(p).drop_first() =~= ps.drop_first().push(p));
        lemma_enc_pairs_push(ps.drop_first(), p);
        assert(spec_enc_pairs(ps.push(p)) =~= spec_enc_pairs(ps) + spec_enc_pair(p));
    }
}

pub proof fn lemma_enc_fields_push(fs: Seq<(Seq<char>, FieldMetadata)>, f: (Seq<char>, FieldMetadata))
    ensures
        spec_enc_fields(fs.push(f)) == spec_enc_fields(fs) + spec_enc_field(f),
    decreases fs.len(),
{
    if fs.len() == 0 {
        assert(fs.push(f)[0] == f);
        assert(fs.push(f).drop_first() =~= fs);
        assert(spec_enc_fields(fs.push(f)) == spec_enc_field(f) + spec_enc_fields(fs));
        assert(spec_enc_field(f) + Seq::<u8>::empty() =~= spec_enc_field(f));
        assert(spec_enc_fields(fs) + spec_enc_field(f) =~= spec_enc_field(f));
    } else {
        assert(fs.push(f).drop_first() =~= fs.drop_first().push(f));
        lemma_enc_fields_push(fs.drop_first(), f);
        assert(spec_enc_fields(fs.push(f)) =~= spec_enc_fields(fs) + spec_enc_field(f));
    }
}

pub proof fn lemma_dec_pairs_split(d: Seq<u8>, i: int, k: int, count: int)
    requires
        0 <= k <= count,
    ensures
        spec_dec_pairs(d, i, count) == match spec_dec_pairs(d, i, k) {
            None => None::<(Seq<(Seq<char>, Seq<char>)>, int)>,
            Some((p, m)) => match spec_dec_pairs(d, m, count - k) {
                None => None,
                Some((rest, e)) => Some((p + rest, e)),
            },
        },
    decreases k,
{
    if k == 0 {
        if spec_dec_pairs(d, i, count) is Some {
            let (s, e) = spec_dec_pairs(d, i, count)->Some_0;
            assert(Seq::<(Seq<char>, Seq<char>)>::empty() + s =~= s);
        }
    } else {
        match spec_dec_pair(d, i) {
            None => {},
            Some((c, j)) => {
                lemma_dec_pairs_split(d, j, k - 1, count - 1);
                match spec_dec_pairs(d, j, k - 1) {
                    None => {},
                    Some((p, m)) => {
                        match spec_dec_pairs(d, m, count - k) {
                            None => {},
                            Some((rest, e)) => {
                                assert(seq![c] + (p + rest) =~= (seq![c] + p) + rest);
                            },
                        }
                    },
                }
            },
        }
    }
}

pub proof fn lemma_dec_fields_split(d: Seq<u8>, i: int, k: int, count: int)
    requires
        0 <= k <= count,
    ensures
        spec_dec_fields(d, i, count) == match spec_dec_fields(d, i, k) {
            None => None::<(Seq<(Seq<char>, FieldMetadata)>, int)>,
            Some((p, m)) => match spec_dec_fields(d, m, count - k) {
                None => None,
                Some((rest, e)) => Some((p + rest, e)),
            },
        },
    decreases k,
{
    if k == 0 {
        if spec_dec_fields(d, i, count) is Some {
            let (s, e) = spec_dec_fields(d, i, count)->Some_0;
            assert(Seq::<(Seq<char>, FieldMetadata)>::empty() + s =~= s);
        }
    } else {
        match spec_dec_field(d, i) {
            None => {},
            Some((c, j)) => {
                lemma_dec_fields_split(d, j, k - 1, count - 1);
                match spec_dec_fields(d, j, k - 1) {
                    None => {},
                    Some((p, m)) => {
                        match spec_dec_fields(d, m, count - k) {
                            None => {},
                            Some((rest, e)) => {
                                assert(seq![c] + (p + rest) =~= (seq![c] + p) + rest);
                            },
                        }
                    },
                }
            },
        }
    }
}

// ---------------------------------------------------------------------------
// Inversion lemmas.
// ---------------------------------------------------------------------------
pub proof fn lemma_dec_opt_range_of_enc(d: Seq<u8>, i: int, o: Option<ByteRange>)
    requires
        wf_opt_range(o),
        0 <= i,
        i + spec_enc_opt_range(o).len() <= d.len(),
        d.subrange(i, i + spec_enc_opt_range(o).len()) == spec_enc_opt_range(o),
    ensures
        spec_dec_opt_range(d, i) == Some((o, i + spec_enc_opt_range(o).len())),
{
    lemma_auto_spec_u64_to_from_le_bytes();
    match o {
        None => {
            assert(d.subrange(i, i + 1)[0] == seq![0u8][0]);
        },
        Some(r) => {
            let tag = seq![1u8];
            let es = spec_enc_u64(r.start);
            let ee = spec_enc_u64(r.end);
            assert(spec_u64_to_le_bytes(r.start).len() == 8);
            assert(spec_u64_to_le_bytes(r.end).len() == 8);
            lemma_subrange_of_concat(d, i, tag + es, ee);
            lemma_subrange_of_concat(d, i, tag, es);
            assert(d.subrange(i, i + 1)[0] == seq![1u8][0]);
            lemma_dec_u64_of_enc(d, i + 1, r.start);
            lemma_dec_u64_of_enc(d, i + 9, r.end);
        },
    }
}

pub proof fn lemma_dec_pair_of_enc(d: Seq<u8>, i: int, p: (Seq<char>, Seq<char>))
    requires
        p.0.len() <= u64::MAX,
        p.1.len() <= u64::MAX,
        0 <= i,
        i + spec_enc_pair(p).len() <= d.len(),
        d.subrange(i, i + spec_enc_pair(p).len()) == spec_enc_pair(p),
    ensures
        spec_dec_pair(d, i) == Some((p, i + spec_enc_pair(p).len())),
{
    let e0 = spec_enc_str(p.0);
    let e1 = spec_enc_str(p.1);
    lemma_enc_str_len(p.0);
    lemma_enc_str_len(p.1);
    lemma_subrange_of_concat(d, i, e0, e1);
    lemma_dec_str_of_enc(d, i, p.0);
    lemma_dec_str_of_enc(d, i + e0.len(), p.1);
}

pub proof fn lemma_dec_pairs_of_enc(d: Seq<u8>, i: int, ps: Seq<(Seq<char>, Seq<char>)>)
    requires
        wf_pairs(ps),
        0 <= i,
        i + spec_enc_pairs(ps).len() <= d.len(),
        d.subrange(i, i + spec_enc_pairs(ps).len()) == spec_enc_pairs(ps),
    ensures
        spec_dec_pairs(d, i, ps.len() as int) == Some((ps, i + spec_enc_pairs(ps).len())),
    decreases ps.len(),
{
    if ps.len() == 0 {
        assert(ps =~= Seq::<(Seq<char>, Seq<char>)>::empty());
    } else {
        let p0 = spec_enc_pair(ps[0]);
        let rest = spec_enc_pairs(ps.drop_first());
        lemma_subrange_of_concat(d, i, p0, rest);
        lemma_dec_pair_of_enc(d, i, ps[0]);
        assert(wf_pairs(ps.drop_first())) by {
            assert forall|j: int| 0 <= j < ps.drop_first().len() implies (#[trigger] ps.drop_first()[j]).0.len()
                <= u64::MAX && ps.drop_first()[j].1.len() <= u64::MAX by {
                assert(ps.drop_first()[j] == ps[j + 1]);
            }
        }
        lemma_dec_pairs_of_enc(d, i + p0.len(), ps.drop_first());
        assert(seq![ps[0]] + ps.drop_first() =~= ps);
    }
}

pub proof fn lemma_dec_field_of_enc(d: Seq<u8>, i: int, f: (Seq<char>, FieldMetadata))
    requires
        f.0.len() <= u64::MAX,
        wf_field(f.1),
        0 <= i,
        i + spec_enc_field(f).len() <= d.len(),
        d.subrange(i, i + spec_enc_field(f).len()) == spec_enc_field(f),
    ensures
        spec_dec_field(d, i) == Some((f, i + spec_enc_field(f).len())),
{
    let en = spec_enc_str(f.0);
    let ep = spec_enc_opt_range(f.1.posting_range);
    let ef = spec_enc_opt_range(f.1.fast_field_range);
    lemma_enc_str_len(f.0);
    lemma_subrange_of_concat(d, i, en + ep, ef);
    lemma_subrange_of_concat(d, i, en, ep);
    lemma_dec_str_of_enc(d, i, f.0);
    lemma_dec_opt_range_of_enc(d, i + en.len(), f.1.posting_range);
    lemma_dec_opt_range_of_enc(d, i + en.len() + ep.len(), f.1.fast_field_range);
}

pub proof fn lemma_dec_fields_of_enc(d: Seq<u8>, i: int, fs: Seq<(Seq<char>, FieldMetadata)>)
    requires
        wf_fields(fs),
        0 <= i,
        i + spec_enc_fields(fs).len() <= d.len(),
        d.subrange(i, i + spec_enc_fields(fs).len()) == spec_enc_fields(fs),
    ensures
        spec_dec_fields(d, i, fs.len() as int) == Some((fs, i + spec_enc_fields(fs).len())),
    decreases fs.len(),
{
    if fs.len() == 0 {
        assert(fs =~= Seq::<(Seq<char>, FieldMetadata)>::empty());
    } else {
        let f0 = spec_enc_field(fs[0]);
        let rest = spec_enc_fields(fs.drop_first());
        lemma_subrange_of_concat(d, i, f0, rest);
        lemma_dec_field_of_enc(d, i, fs[0]);
        assert(wf_fields(fs.drop_first())) by {
            assert forall|j: int| 0 <= j < fs.drop_first().len() implies (#[trigger] fs.drop_first()[j]).0.len()
                <= u64::MAX && wf_field(fs.drop_first()[j].1) by {
                assert(fs.drop_first()[j] == fs[j + 1]);
            }
        }
        lemma_dec_fields_of_enc(d, i + f0.len(), fs.drop_first());
        assert(seq![fs[0]] + fs.drop_first() =~= fs);
    }
}

// ---------------------------------------------------------------------------
// The executable hotcache value and its (de)serialization.
// ---------------------------------------------------------------------------
/// The view of a metadata table: each entry's strings as character sequences.
pub open spec fn pairs_view(v: Seq<(String, String)>) -> Seq<(Seq<char>, Seq<char>)> {
    Seq::new(v.len(), |i: int| (v[i].0@, v[i].1@))
}

/// The view of a field table: each field name as a character sequence.
pub open spec fn fields_view(v: Seq<(String, FieldMetadata)>) -> Seq<(Seq<char>, FieldMetadata)> {
    Seq::new(v.len(), |i: int| (v[i].0@, v[i].1))
}

/// The hotcache: the sidecar metadata a split carries in its store-file
/// footer. Tables keep their entries in insertion order; a lookup takes
/// the first entry with the requested name.
#[derive(Debug, Clone, PartialEq)]
pub struct HotcacheInfo {
    pub split_id: String,
    pub num_docs: u32,
    pub size_bytes: u64,
    pub byte_range: ByteRange,
    pub metadata: Vec<(String, String)>,
    pub schema_hash: String,
    pub field_metadata: Vec<(String, FieldMetadata)>,
}

impl View for HotcacheInfo {
    type V = HotcacheView;

    open spec fn view(&self) -> HotcacheView {
        HotcacheView {
            split_id: self.split_id@,
            num_docs: self.num_docs,
            size_bytes: self.size_bytes,
            byte_range: self.byte_range,
            metadata: pairs_view(self.metadata@),
            schema_hash: self.schema_hash@,
            field_metadata: fields_view(self.field_metadata@),
        }
    }
}

/// First-match lookup in a field table.
pub open spec fn spec_lookup_field(fs: Seq<(Seq<char>, FieldMetadata)>, name: Seq<char>) -> Option<
    FieldMetadata,
>
    decreases fs.len(),
{
    if fs.len() == 0 {
        None
    } else if fs[0].0 == name {
        Some(fs[0].1)
    } else {
        spec_lookup_field(fs.drop_first(), name)
    }
}

fn enc_opt_range(out: &mut Vec<u8>, o: &Option<ByteRange>)
    ensures
        final(out)@ == old(out)@ + spec_enc_opt_range(*o),
{
    match o {
        None => {
            out.push(0u8);
            proof {
                assert(old(out)@.push(0u8) =~= old(out)@ + seq![0u8]);
            }
        },
        Some(r) => {
            out.push(1u8);
            enc_u64(out, r.start);
            enc_u64(out, r.end);
            proof {
                assert(out@ =~= old(out)@ + spec_enc_opt_range(*o));
            }
        },
    }
}

fn dec_opt_range(d: &[u8], i: usize) -> (r: Option<(Option<ByteRange>, usize)>)
    ensures
        match r {
            Some((o, j)) => spec_dec_opt_range(d@, i as int) == Some((o, j as int)),
            None => spec_dec_opt_range(d@, i as int) is None,
        },
{
    if i >= d.len() {
        return None;
    }
    let tag = *slice_index_get(d, i);
    if tag == 0 {
        Some((None, i + 1))
    } else if tag == 1 {
        match dec_u64(d, i + 1) {
            None => None,
            Some((s, j)) => match dec_u64(d, j) {
                None => None,
                Some((e, k)) => if s <= e {
                    Some((Some(ByteRange { start: s, end: e }), k))
                } else {
                    None
                },
            },
        }
    } else {
        None
    }
}

fn dec_pair(d: &[u8], i: usize) -> (r: Option<((String, String), usize)>)
    ensures
        match r {
            Some((p, j)) => spec_dec_pair(d@, i as int) == Some(((p.0@, p.1@), j as int)),
            None => spec_dec_pair(d@, i as int) is None,
        },
{
    match dec_str(d, i) {
        None => None,
        Some((a, j)) => match dec_str(d, j) {
            None => None,
            Some((b, k)) => Some(((a, b), k)),
        },
    }
}

fn dec_field(d: &[u8], i: usize) -> (r: Option<((String, FieldMetadata), usize)>)
    ensures
        match r {
            Some((f, j)) => spec_dec_field(d@, i as int) == Some(((f.0@, f.1), j as int)),
            None => spec_dec_field(d@, i as int) is None,
        },
{
    match dec_str(d, i) {
        None => None,
        Some((name, j)) => match dec_opt_range(d, j) {
            None => None,
            Some((posting, k)) => match dec_opt_range(d, k) {
                None => None,
                Some((fast, m)) => Some(
                    ((name, FieldMetadata { posting_range: posting, fast_field_range: fast }), m),
                ),
            },
        },
    }
}

fn dec_pairs(d: &[u8], i: usize, count: u64) -> (r: Option<(Vec<(String, String)>, usize)>)
    ensures
        match r {
            Some((v, j)) => spec_dec_pairs(d@, i as int, count as int) == Some(
                (pairs_view(v@), j as int),
            ),
            None => spec_dec_pairs(d@, i as int, count as int) is None,
        },
{
    let mut v: Vec<(String, String)> = Vec::new();
    let mut k: u64 = 0;
    let mut cur: usize = i;
    proof {
        assert(pairs_view(v@) =~= Seq::<(Seq<char>, Seq<char>)>::empty());
    }
    while k < count
        invariant
            k <= count,
            spec_dec_pairs(d@, i as int, k as int) == Some((pairs_view(v@), cur as int)),
        decreases count - k,
    {
        let ghost pre = pairs_view(v@);
        match dec_pair(d, cur) {
            None => {
                proof {
                    lemma_dec_pairs_split(d@, i as int, k as int, count as int);
                }
                return None;
            },
            Some((p, j)) => {
                let ghost pv = (p.0@, p.1@);
                v.push(p);
                proof {
                    assert(spec_dec_pairs(d@, j as int, 0) == Some(
                        (Seq::<(Seq<char>, Seq<char>)>::empty(), j as int),
                    ));
                    assert(seq![pv] + Seq::<(Seq<char>, Seq<char>)>::empty() =~= seq![pv]);
                    assert(spec_dec_pairs(d@, cur as int, 1) == Some((seq![pv], j as int)));
                    lemma_dec_pairs_split(d@, i as int, k as int, k + 1);
                    assert(pairs_view(v@) =~= pre + seq![pv]);
                }
                cur = j;
            },
        }
        k = k + 1;
    }
    Some((v, cur))
}

fn dec_fields(d: &[u8], i: usize, count: u64) -> (r: Option<(Vec<(String, FieldMetadata)>, usize)>)
    ensures
        match r {
            Some((v, j)) => spec_dec_fields(d@, i as int, count as int) == Some(
                (fields_view(v@), j as int),
            ),
            None => spec_dec_fields(d@, i as int, count as int) is None,
        },
{
    let mut v: Vec<(String, FieldMetadata)> = Vec::new();
    let mut k: u64 = 0;
    let mut cur: usize = i;
    proof {
        assert(fields_view(v@) =~= Seq::<(Seq<char>, FieldMetadata)>::empty());
    }
    while k < count
        invariant
            k <= count,
            spec_dec_fields(d@, i as int, k as int) == Some((fields_view(v@), cur as int)),
        decreases count - k,
    {
        let ghost pre = fields_view(v@);
        match dec_field(d, cur) {
            None => {
                proof {
                    lemma_dec_fields_split(d@, i as int, k as int, count as int);
                }
                return None;
            },
            Some((f, j)) => {
                let ghost fv = (f.0@, f.1);
                v.push(f);
                proof {
                    assert(spec_dec_fields(d@, j as int, 0) == Some(
                        (Seq::<(Seq<char>, FieldMetadata)>::empty(), j as int),
                    ));
                    assert(seq![fv] + Seq::<(Seq<char>, FieldMetadata)>::empty() =~= seq![fv]);
                    assert(spec_dec_fields(d@, cur as int, 1) == Some((seq![fv], j as int)));
                    lemma_dec_fields_split(d@, i as int, k as int, k + 1);
                    assert(fields_view(v@) =~= pre + seq![fv]);
                }
                cur = j;
            },
        }
        k = k + 1;
    }
    Some((v, cur))
}

impl HotcacheInfo {
    /// A hotcache with the given identity and counts, everything else empty.
    pub fn new(split_id: String, num_docs: u32, size_bytes: u64) -> (r: HotcacheInfo)
        ensures
            r.split_id == split_id,
            r.num_docs == num_docs,
            r.size_bytes == size_bytes,
            r.byte_range == (ByteRange { start: 0, end: 0 }),
            r.metadata@ =~= Seq::<(String, String)>::empty(),
            r.schema_hash@ =~= Seq::<char>::empty(),
            r.field_metadata@ =~= Seq::<(String, FieldMetadata)>::empty(),
    {
        HotcacheInfo {
            split_id,
            num_docs,
            size_bytes,
            byte_range: ByteRange { start: 0, end: 0 },
            metadata: Vec::new(),
            schema_hash: String::new(),
            field_metadata: Vec::new(),
        }
    }

    /// The hotcache of a split with no documents: only the schema hash is
    /// carried; every count and range is zero.
    pub fn empty(schema_hash: String) -> (r: HotcacheInfo)
        ensures
            r.split_id@ =~= Seq::<char>::empty(),
            r.num_docs == 0,
            r.size_bytes == 0,
            r.byte_range == (ByteRange { start: 0, end: 0 }),
            r.metadata@ =~= Seq::<(String, String)>::empty(),
            r.schema_hash == schema_hash,
            r.field_metadata@ =~= Seq::<(String, FieldMetadata)>::empty(),
    {
        HotcacheInfo {
            split_id: String::new(),
            num_docs: 0,
            size_bytes: 0,
            byte_range: ByteRange { start: 0, end: 0 },
            metadata: Vec::new(),
            schema_hash,
            field_metadata: Vec::new(),
        }
    }

    /// The byte range this hotcache covers, as a `(start, end)` pair.
    pub fn get_byte_range(&self) -> (r: (u64, u64))
        ensures
            r.0 == self.byte_range.start,
            r.1 == self.byte_range.end,
    {
        (self.byte_range.start, self.byte_range.end)
    }

    /// Replaces the byte range; the range must be ordered.
    pub fn set_byte_range(&mut self, start: u64, end: u64)
        requires
            start <= end,
        ensures
            *final(self) == (HotcacheInfo { byte_range: ByteRange { start, end }, ..*old(self) }),
    {
        self.byte_range = ByteRange { start, end };
    }

    /// The metadata of `field`, when the field table has an entry for it.
    pub fn get_field_metadata(&self, field: &str) -> (r: Option<FieldMetadata>)
        ensures
            r == spec_lookup_field(self@.field_metadata, field@),
    {
        let ghost full = fields_view(self.field_metadata@);
        proof {
            assert(full.skip(0) =~= full);
        }
        let mut k: usize = 0;
        while k < self.field_metadata.len()
            invariant
                k <= self.field_metadata.len(),
                full == fields_view(self.field_metadata@),
                spec_lookup_field(full, field@) == spec_lookup_field(
                    full.skip(k as int),
                    field@,
                ),
            decreases self.field_metadata.len() - k,
        {
            proof {
                assert(full.skip(k as int)[0] == full[k as int]);
            }
            if crate::text::str_eq(self.field_metadata[k].0.as_str(), field) {
                return Some(self.field_metadata[k].1);
            }
            proof {
                assert(full.skip(k as int).drop_first() =~= full.skip(k + 1));
            }
            k = k + 1;
        }
        proof {
            assert(full.skip(k as int).len() == 0);
        }
        None
    }

    /// Serializes this hotcache into its binary payload. Encoding never
    /// fails; the `Result` mirrors the operation set's shape.
    pub fn to_bytes(&self) -> (r: Result<Vec<u8>, SplitsError>)
        ensures
            r matches Ok(b) && b@ == spec_enc_hotcache(self@),
    {
        let mut out: Vec<u8> = Vec::new();
        out.push(1u8);
        proof {
            assert(out@ =~= seq![spec_version_byte()]);
        }
        enc_str(&mut out, self.split_id.as_str());
        enc_u32(&mut out, self.num_docs);
        enc_u64(&mut out, self.size_bytes);
        enc_u64(&mut out, self.byte_range.start);
        enc_u64(&mut out, self.byte_range.end);
        enc_str(&mut out, self.schema_hash.as_str());
        enc_u64(&mut out, self.metadata.len() as u64);
        proof {
            assert(out@ =~= spec_enc_head(self@));
        }
        let mut i: usize = 0;
        while i < self.metadata.len()
            invariant
                i <= self.metadata.len(),
                out@ == spec_enc_head(self@) + spec_enc_pairs(
                    pairs_view(self.metadata@).take(i as int),
                ),
            decreases self.metadata.len() - i,
        {
            let ghost pre = out@;
            let ghost pv = pairs_view(self.metadata@);
            enc_str(&mut out, self.metadata[i].0.as_str());
            enc_str(&mut out, self.metadata[i].1.as_str());
            proof {
                assert(out@ =~= pre + spec_enc_pair(pv[i as int]));
                assert(pv.take(i + 1) =~= pv.take(i as int).push(pv[i as int]));
                lemma_enc_pairs_push(pv.take(i as int), pv[i as int]);
                assert(out@ =~= spec_enc_head(self@) + spec_enc_pairs(pv.take(i + 1)));
            }
            i = i + 1;
        }
        proof {
            assert(pairs_view(self.metadata@).take(i as int) =~= pairs_view(self.metadata@));
        }
        enc_u64(&mut out, self.field_metadata.len() as u64);
        let ghost mid = spec_enc_head(self@) + spec_enc_pairs(self@.metadata) + spec_enc_u64(
            self@.field_metadata.len() as u64,
        );
        proof {
            assert(out@ =~= mid);
        }
        let mut j: usize = 0;
        while j < self.field_metadata.len()
            invariant
                j <= self.field_metadata.len(),
                mid == spec_enc_head(self@) + spec_enc_pairs(self@.metadata) + spec_enc_u64(
                    self@.field_metadata.len() as u64,
                ),
                out@ == mid + spec_enc_fields(fields_view(self.field_metadata@).take(j as int)),
            decreases self.field_metadata.len() - j,
        {
            let ghost pre = out@;
            let ghost fv = fields_view(self.field_metadata@);
            enc_str(&mut out, self.field_metadata[j].0.as_str());
            enc_opt_range(&mut out, &self.field_metadata[j].1.posting_range);
            enc_opt_range(&mut out, &self.field_metadata[j].1.fast_field_range);
            proof {
                assert(out@ =~= pre + spec_enc_field(fv[j as int]));
                assert(fv.take(j + 1) =~= fv.take(j as int).push(fv[j as int]));
                lemma_enc_fields_push(fv.take(j as int), fv[j as int]);
                assert(out@ =~= mid + spec_enc_fields(fv.take(j + 1)));
            }
            j = j + 1;
        }
        proof {
            assert(fields_view(self.field_metadata@).take(j as int) =~= fields_view(
                self.field_metadata@,
            ));
            assert(out@ =~= spec_enc_hotcache(self@));
        }
        Ok(out)
    }

    /// Parses a binary payload back into a hotcache. Succeeds exactly on
    /// the payloads the format decodes; anything malformed is a
    /// `Serialization` error.
    pub fn from_bytes(data: &[u8]) -> (r: Result<HotcacheInfo, SplitsError>)
        ensures
            match spec_dec_hotcache(data@) {
                Some(hv) => r matches Ok(h) && h@ == hv,
                None => r matches Err(SplitsError::Serialization(_)),
            },
    {
        if data.len() < 1 {
            return Err(SplitsError::Serialization(String::from_str("empty hotcache payload")));
        }
        let version = *slice_index_get(data, 0);
        if version != 1u8 {
            return Err(
                SplitsError::Serialization(String::from_str("unknown hotcache format version")),
            );
        }
        let (split_id, i1) = match dec_str(data, 1) {
            None => {
                return Err(SplitsError::Serialization(String::from_str("bad split id")));
            },
            Some(p) => p,
        };
        let (num_docs, i2) = match dec_u32(data, i1) {
            None => {
                return Err(SplitsError::Serialization(String::from_str("bad document count")));
            },
            Some(p) => p,
        };
        let (size_bytes, i3) = match dec_u64(data, i2) {
            None => {
                return Err(SplitsError::Serialization(String::from_str("bad size")));
            },
            Some(p) => p,
        };
        let (brs, i4) = match dec_u64(data, i3) {
            None => {
                return Err(SplitsError::Serialization(String::from_str("bad byte range start")));
            },
            Some(p) => p,
        };
        let (bre, i5) = match dec_u64(data, i4) {
            None => {
                return Err(SplitsError::Serialization(String::from_str("bad byte range end")));
            },
            Some(p) => p,
        };
        if brs > bre {
            return Err(SplitsError::Serialization(String::from_str("unordered byte range")));
        }
        let (schema_hash, i6) = match dec_str(data, i5) {
            None => {
                return Err(SplitsError::Serialization(String::from_str("bad schema hash")));
            },
            Some(p) => p,
        };
        let (mcount, i7) = match dec_u64(data, i6) {
            None => {
                return Err(SplitsError::Serialization(String::from_str("bad metadata count")));
            },
            Some(p) => p,
        };
        let (metadata, i8) = match dec_pairs(data, i7, mcount) {
            None => {
                return Err(SplitsError::Serialization(String::from_str("bad metadata table")));
            },
            Some(p) => p,
        };
        let (fcount, i9) = match dec_u64(data, i8) {
            None => {
                return Err(SplitsError::Serialization(String::from_str("bad field count")));
            },
            Some(p) => p,
        };
        let (field_metadata, i10) = match dec_fields(data, i9, fcount) {
            None => {
                return Err(SplitsError::Serialization(String::from_str("bad field table")));
            },
            Some(p) => p,
        };
        if i10 != data.len() {
            return Err(
                SplitsError::Serialization(String::from_str("trailing bytes after hotcache")),
            );
        }
        let h = HotcacheInfo {
            split_id,
            num_docs,
            size_bytes,
            byte_range: ByteRange { start: brs, end: bre },
            metadata,
            schema_hash,
            field_metadata,
        };
        Ok(h)
    }
}

/// Builds a hotcache from basic split information.
pub fn create_hotcache(split_id: String, num_docs: u32, size_bytes: u64) -> (r: Result<
    HotcacheInfo,
    SplitsError,
>)
    ensures
        r matches Ok(h) && h.split_id == split_id && h.num_docs == num_docs && h.size_bytes
            == size_bytes && h.byte_range == (ByteRange { start: 0, end: 0 })
            && h.metadata@.len() == 0 && h.schema_hash@.len() == 0 && h.field_metadata@.len() == 0,
{
    Ok(HotcacheInfo::new(split_id, num_docs, size_bytes))
}

/// Round trip of the hotcache format: decoding an encoded well-formed
/// hotcache yields exactly that hotcache.
#[verifier::rlimit(100)]
pub proof fn lemma_hotcache_round_trip(h: HotcacheView)
    requires
        h.wf(),
    ensures
        spec_dec_hotcache(spec_enc_hotcache(h)) == Some(h),
{
    lemma_auto_spec_u64_to_from_le_bytes();
    vstd::bytes::lemma_auto_spec_u32_to_from_le_bytes();
    let d = spec_enc_hotcache(h);
    let a1 = seq![spec_version_byte()];
    let a2 = spec_enc_str(h.split_id);
    let a3 = spec_enc_u32(h.num_docs);
    let a4 = spec_enc_u64(h.size_bytes);
    let a5 = spec_enc_u64(h.byte_range.start);
    let a6 = spec_enc_u64(h.byte_range.end);
    let a7 = spec_enc_str(h.schema_hash);
    let a8 = spec_enc_u64(h.metadata.len() as u64);
    let a9 = spec_enc_pairs(h.metadata);
    let a10 = spec_enc_u64(h.field_metadata.len() as u64);
    let a11 = spec_enc_fields(h.field_metadata);
    assert(d == a1 + a2 + a3 + a4 + a5 + a6 + a7 + a8 + a9 + a10 + a11);
    assert(d.subrange(0, d.len() as int) =~= d);
    lemma_subrange_of_concat(d, 0, a1 + a2 + a3 + a4 + a5 + a6 + a7 + a8 + a9 + a10, a11);
    lemma_subrange_of_concat(d, 0, a1 + a2 + a3 + a4 + a5 + a6 + a7 + a8 + a9, a10);
    lemma_subrange_of_concat(d, 0, a1 + a2 + a3 + a4 + a5 + a6 + a7 + a8, a9);
    lemma_subrange_of_concat(d, 0, a1 + a2 + a3 + a4 + a5 + a6 + a7, a8);
    lemma_subrange_of_concat(d, 0, a1 + a2 + a3 + a4 + a5 + a6, a7);
    lemma_subrange_of_concat(d, 0, a1 + a2 + a3 + a4 + a5, a6);
    lemma_subrange_of_concat(d, 0, a1 + a2 + a3 + a4, a5);
    lemma_subrange_of_concat(d, 0, a1 + a2 + a3, a4);
    lemma_subrange_of_concat(d, 0, a1 + a2, a3);
    lemma_subrange_of_concat(d, 0, a1, a2);
    lemma_enc_str_len(h.split_id);
    lemma_enc_str_len(h.schema_hash);
    let o1 = a1.len();
    let o2 = o1 + a2.len();
    let o3 = o2 + a3.len();
    let o4 = o3 + a4.len();
    let o5 = o4 + a5.len();
    let o6 = o5 + a6.len();
    let o7 = o6 + a7.len();
    let o8 = o7 + a8.len();
    let o9 = o8 + a9.len();
    let o10 = o9 + a10.len();
    assert(d[0] == spec_version_byte()) by {
        assert(d.subrange(0, 1)[0] == a1[0]);
    }
    lemma_dec_str_of_enc(d, o1 as int, h.split_id);
    lemma_dec_u32_of_enc(d, o2 as int, h.num_docs);
    lemma_dec_u64_of_enc(d, o3 as int, h.size_bytes);
    lemma_dec_u64_of_enc(d, o4 as int, h.byte_range.start);
    lemma_dec_u64_of_enc(d, o5 as int, h.byte_range.end);
    lemma_dec_str_of_enc(d, o6 as int, h.schema_hash);
    lemma_dec_u64_of_enc(d, o7 as int, h.metadata.len() as u64);
    lemma_dec_pairs_of_enc(d, o8 as int, h.metadata);
    lemma_dec_u64_of_enc(d, o9 as int, h.field_metadata.len() as u64);
    lemma_dec_fields_of_enc(d, o10 as int, h.field_metadata);
}

} // verus!
