//! Generating a split: deciding the merge, computing the hotcache,
//! assembling the output files, and embedding the footer.
//!
//! The generator works on a model of the caller's index — per-segment
//! statistics and a schema hash — and on in-memory images of the merged
//! segment's files. The embedding application performs the merge and the
//! file reads and writes through the external index library, and hands
//! the results in as plain values; every decision and every byte of the
//! output is computed here.

use crate::codec::spec_enc_u64;
use crate::error::SplitsError;
use crate::footer::{embed_footer, spec_extract_footer, spec_footer};
use crate::hotcache::{
    fields_view, spec_dec_hotcache, spec_enc_hotcache, ByteRange, FieldMetadata, HotcacheInfo,
    HotcacheView, lemma_hotcache_round_trip,
};
use crate::footer::lemma_footer_round_trip;
use crate::split_reader::{spec_first_with_suffix, SplitDirEntry};
use crate::text::count_occ;
use vstd::prelude::*;
use vstd::slice::slice_to_vec;
use vstd::string::{StrSliceExecFns, StringExecFns};

verus! {

/// Relies on `uuid::Uuid::new_v4` and its `Display` form: a version-4
/// UUID rendered in the canonical hyphenated format, which is 36
/// characters long with exactly 4 hyphens. The value is random, so
/// nothing else is assumed about it.
#[verifier::external_body]
pub fn new_split_id() -> (r: String)
    ensures
        r@.len() == 36,
        count_occ(r@, '-') == 4,
{
    uuid::Uuid::new_v4().to_string()
}

/// What the generator reads of one segment: its identity, its document
/// counts, and the per-field byte ranges the index library reports for
/// its files.
#[derive(Debug, Clone)]
pub struct SegmentStats {
    pub segment_id: String,
    pub num_docs: u32,
    pub num_alive_docs: u32,
    pub max_doc: u32,
    pub field_ranges: Vec<(String, FieldMetadata)>,
}

/// What the generator reads of the caller's index: its segments and its
/// schema hash.
#[derive(Debug, Clone)]
pub struct IndexModel {
    pub segments: Vec<SegmentStats>,
    pub schema_hash: String,
}

/// Metadata describing a generated split.
#[derive(Debug, Clone, PartialEq)]
pub struct SplitMetadata {
    /// Unique identifier for the split.
    pub split_id: String,
    /// Number of documents in the split.
    pub num_docs: u32,
    /// Total size of split files in bytes.
    pub size_bytes: u64,
    /// Byte range where hotcache metadata is stored.
    pub hotcache_start: u64,
    pub hotcache_end: u64,
}

/// The merge decision for the index's current segments.
#[derive(Debug, PartialEq)]
pub enum MergePlan {
    /// No segments: produce an empty split.
    EmptySplit,
    /// One segment: use it as is, no merge needed.
    UseSegment(String),
    /// Several segments: merge them all into one.
    MergeAll(Vec<String>),
}

/// What the merge produced, as the embedding application observed it:
/// either the index had no segments, or a single merged segment with
/// its statistics and its files read from disk.
pub enum MergeOutcome {
    NoSegments,
    Merged { stats: SegmentStats, files: Vec<SplitDirEntry> },
}

/// The first segment whose identifier is `id`.
pub open spec fn spec_find_stats(segs: Seq<SegmentStats>, id: Seq<char>) -> Option<SegmentStats>
    decreases segs.len(),
{
    if segs.len() == 0 {
        None
    } else if segs[0].segment_id@ == id {
        Some(segs[0])
    } else {
        spec_find_stats(segs.drop_first(), id)
    }
}

/// The total document count over all segments.
pub open spec fn spec_total_docs(segs: Seq<SegmentStats>) -> int
    decreases segs.len(),
{
    if segs.len() == 0 {
        0
    } else {
        spec_total_docs(segs.drop_last()) + segs.last().num_docs
    }
}

/// The total size in bytes of a set of file images.
pub open spec fn spec_size_sum(files: Seq<SplitDirEntry>) -> int
    decreases files.len(),
{
    if files.len() == 0 {
        0
    } else {
        spec_size_sum(files.drop_last()) + files.last().bytes@.len()
    }
}

/// The documented size heuristic for a segment whose files are not
/// locatable: a 1024-byte baseline per alive document, 512 bytes of
/// field overhead per document, and 256 bytes of index structures per
/// document slot.
pub open spec fn spec_heuristic_size(st: SegmentStats) -> int {
    1024 * st.num_alive_docs + 512 * st.num_docs + 256 * st.max_doc
}

/// The hotcache of an empty split: only the schema hash is carried.
pub open spec fn spec_empty_hotcache(schema_hash: Seq<char>) -> HotcacheView {
    HotcacheView {
        split_id: Seq::empty(),
        num_docs: 0,
        size_bytes: 0,
        byte_range: ByteRange { start: 0, end: 0 },
        metadata: Seq::empty(),
        schema_hash,
        field_metadata: Seq::empty(),
    }
}

/// The hotcache computed for a merged segment.
pub open spec fn spec_merged_hotcache(
    stats: SegmentStats,
    schema_hash: Seq<char>,
    est: u64,
) -> HotcacheView {
    HotcacheView {
        split_id: stats.segment_id@,
        num_docs: stats.num_docs,
        size_bytes: est,
        byte_range: ByteRange { start: 0, end: 0 },
        metadata: Seq::empty(),
        schema_hash,
        field_metadata: fields_view(stats.field_ranges@),
    }
}

fn sum_file_sizes(files: &Vec<SplitDirEntry>) -> (r: u128)
    ensures
        r == spec_size_sum(files@),
        r >= 0,
{
    let mut sum: u128 = 0;
    let mut k: usize = 0;
    proof {
        assert(files@.take(0) =~= Seq::<SplitDirEntry>::empty());
    }
    while k < files.len()
        invariant
            k <= files@.len(),
            sum == spec_size_sum(files@.take(k as int)),
            sum <= k * 0x1_0000_0000_0000_0000,
        decreases files@.len() - k,
    {
        proof {
            assert(files@.take(k + 1).drop_last() =~= files@.take(k as int));
            assert(files@.take(k + 1).last() == files@[k as int]);
        }
        sum = sum + files[k].bytes.len() as u128;
        k = k + 1;
    }
    proof {
        assert(files@.take(k as int) =~= files@);
    }
    sum
}

/// Generator for creating splits from an index.
pub struct QuickwitSplitGenerator {
    index: IndexModel,
    target_docs_per_split: usize,
}

impl QuickwitSplitGenerator {
    /// The index model this generator was created over.
    pub closed spec fn spec_index(&self) -> IndexModel {
        self.index
    }

    /// The configured target document count per split.
    pub closed spec fn spec_target(&self) -> usize {
        self.target_docs_per_split
    }

    /// Creates a generator over the given index model. A target of zero
    /// documents per split is rejected as an `InvalidOperation`.
    pub fn new(index: IndexModel, target_docs_per_split: usize) -> (r: Result<
        QuickwitSplitGenerator,
        SplitsError,
    >)
        ensures
            target_docs_per_split == 0 ==> r matches Err(SplitsError::InvalidOperation(_)),
            target_docs_per_split > 0 ==> (r matches Ok(g) && g.spec_index() == index
                && g.spec_target() == target_docs_per_split),
    {
        if target_docs_per_split == 0 {
            return Err(
                SplitsError::InvalidOperation(
                    String::from_str("Target docs per split must be greater than 0"),
                ),
            );
        }
        Ok(QuickwitSplitGenerator { index, target_docs_per_split })
    }

    /// The target document count per split; always positive.
    pub fn target_docs_per_split(&self) -> (r: usize)
        ensures
            r == self.spec_target(),
    {
        self.target_docs_per_split
    }

    /// The identifiers of all segments in the index model.
    pub fn get_all_segments(&self) -> (r: Vec<String>)
        ensures
            r@.len() == self.spec_index().segments@.len(),
            forall|i: int|
                0 <= i < r@.len() ==> (#[trigger] r@[i])@
                    == self.spec_index().segments@[i].segment_id@,
    {
        let mut ids: Vec<String> = Vec::new();
        let mut k: usize = 0;
        while k < self.index.segments.len()
            invariant
                k <= self.index.segments@.len(),
                ids@.len() == k,
                forall|i: int|
                    0 <= i < k ==> (#[trigger] ids@[i])@ == self.index.segments@[i].segment_id@,
            decreases self.index.segments@.len() - k,
        {
            ids.push(self.index.segments[k].segment_id.clone());
            k = k + 1;
        }
        ids
    }

    /// The merge decision: no segments calls for an empty split, one
    /// segment needs no merge, and several must be merged into one.
    pub fn merge_plan(&self) -> (r: MergePlan)
        ensures
            self.spec_index().segments@.len() == 0 ==> r == MergePlan::EmptySplit,
            self.spec_index().segments@.len() == 1 ==> (r matches MergePlan::UseSegment(id) && id@
                == self.spec_index().segments@[0].segment_id@),
            self.spec_index().segments@.len() > 1 ==> (r matches MergePlan::MergeAll(ids)
                && ids@.len() == self.spec_index().segments@.len() && (forall|i: int|
                0 <= i < ids@.len() ==> (#[trigger] ids@[i])@
                    == self.spec_index().segments@[i].segment_id@)),
    {
        if self.index.segments.len() == 0 {
            MergePlan::EmptySplit
        } else if self.index.segments.len() == 1 {
            MergePlan::UseSegment(self.index.segments[0].segment_id.clone())
        } else {
            MergePlan::MergeAll(self.get_all_segments())
        }
    }

    /// The model's statistics for the given segment, if it is known.
    pub fn get_segment_stats(&self, segment_id: &str) -> (r: Option<&SegmentStats>)
        ensures
            match r {
                Some(st) => spec_find_stats(self.spec_index().segments@, segment_id@) == Some(*st),
                None => spec_find_stats(self.spec_index().segments@, segment_id@) is None,
            },
    {
        let ghost full = self.index.segments@;
        proof {
            assert(full.skip(0) =~= full);
        }
        let mut k: usize = 0;
        while k < self.index.segments.len()
            invariant
                k <= self.index.segments@.len(),
                full == self.index.segments@,
                spec_find_stats(full, segment_id@) == spec_find_stats(
                    full.skip(k as int),
                    segment_id@,
                ),
            decreases self.index.segments@.len() - k,
        {
            proof {
                assert(full.skip(k as int)[0] == full[k as int]);
            }
            if crate::text::str_eq(self.index.segments[k].segment_id.as_str(), segment_id) {
                return Some(&self.index.segments[k]);
            }
            proof {
                assert(full.skip(k as int).drop_first() =~= full.skip(k + 1));
            }
            k = k + 1;
        }
        proof {
            assert(full.skip(k as int).len() == 0);
        }
        None
    }

    fn total_docs(&self) -> (r: u128)
        ensures
            r == spec_total_docs(self.spec_index().segments@),
    {
        let mut sum: u128 = 0;
        let mut k: usize = 0;
        proof {
            assert(self.index.segments@.take(0) =~= Seq::<SegmentStats>::empty());
        }
        while k < self.index.segments.len()
            invariant
                k <= self.index.segments@.len(),
                sum == spec_total_docs(self.index.segments@.take(k as int)),
                sum <= k * 0x1_0000_0000,
            decreases self.index.segments@.len() - k,
        {
            proof {
                assert(self.index.segments@.take(k + 1).drop_last() =~= self.index.segments@.take(
                    k as int,
                ));
                assert(self.index.segments@.take(k + 1).last() == self.index.segments@[k as int]);
            }
            sum = sum + self.index.segments[k].num_docs as u128;
            k = k + 1;
        }
        proof {
            assert(self.index.segments@.take(k as int) =~= self.index.segments@);
        }
        sum
    }

    /// The estimated on-disk size of a segment, from its statistics: the
    /// documented heuristic when the segment is known, else the
    /// last-resort index-wide estimate of 2048 bytes per document.
    pub fn estimate_segment_size(&self, segment_id: &str) -> (r: u64)
        requires
            spec_find_stats(self.spec_index().segments@, segment_id@) is None ==> 2048
                * spec_total_docs(self.spec_index().segments@) <= u64::MAX,
        ensures
            r == match spec_find_stats(self.spec_index().segments@, segment_id@) {
                Some(st) => spec_heuristic_size(st),
                None => 2048 * spec_total_docs(self.spec_index().segments@),
            },
    {
        match self.get_segment_stats(segment_id) {
            Some(st) => 1024 * (st.num_alive_docs as u64) + 512 * (st.num_docs as u64) + 256 * (
            st.max_doc as u64),
            None => {
                let total = self.total_docs();
                2048 * (total as u64)
            },
        }
    }

    /// The actual size of a segment from its files' sizes when any are
    /// present, else the estimate.
    pub fn calculate_actual_segment_size(&self, segment_id: &str, file_sizes: &Vec<u64>) -> (r:
        u64)
        requires
            spec_u64_sum(file_sizes@) <= u64::MAX,
            spec_u64_sum(file_sizes@) == 0 && spec_find_stats(
                self.spec_index().segments@,
                segment_id@,
            ) is None ==> 2048 * spec_total_docs(self.spec_index().segments@) <= u64::MAX,
        ensures
            spec_u64_sum(file_sizes@) > 0 ==> r == spec_u64_sum(file_sizes@),
            spec_u64_sum(file_sizes@) == 0 ==> r == match spec_find_stats(
                self.spec_index().segments@,
                segment_id@,
            ) {
                Some(st) => spec_heuristic_size(st),
                None => 2048 * spec_total_docs(self.spec_index().segments@),
            },
    {
        let mut sum: u64 = 0;
        let mut k: usize = 0;
        proof {
            assert(file_sizes@.take(0) =~= Seq::<u64>::empty());
        }
        while k < file_sizes.len()
            invariant
                k <= file_sizes@.len(),
                sum == spec_u64_sum(file_sizes@.take(k as int)),
                spec_u64_sum(file_sizes@) <= u64::MAX,
                file_sizes@.take(k as int).len() == k,
            decreases file_sizes@.len() - k,
        {
            proof {
                assert(file_sizes@.take(k + 1).drop_last() =~= file_sizes@.take(k as int));
                assert(file_sizes@.take(k + 1).last() == file_sizes@[k as int]);
                lemma_u64_sum_prefix_le(file_sizes@, k + 1);
            }
            sum = sum + file_sizes[k];
            k = k + 1;
        }
        proof {
            assert(file_sizes@.take(k as int) =~= file_sizes@);
        }
        if sum > 0 {
            sum
        } else {
            self.estimate_segment_size(segment_id)
        }
    }

    /// The number of documents in the given segment; an unknown segment
    /// is an `InvalidOperation`.
    pub fn count_documents(&self, segment_id: &str) -> (r: Result<u32, SplitsError>)
        ensures
            match spec_find_stats(self.spec_index().segments@, segment_id@) {
                Some(st) => r matches Ok(n) && n == st.num_docs,
                None => r matches Err(SplitsError::InvalidOperation(_)),
            },
    {
        match self.get_segment_stats(segment_id) {
            Some(st) => Ok(st.num_docs),
            None => Err(
                SplitsError::InvalidOperation(String::from_str("segment not found in the index model")),
            ),
        }
    }

    /// The hotcache computed for a segment of the model: the schema
    /// hash, the segment's field ranges, the index-wide document count,
    /// and the estimated size.
    pub fn generate_hotcache(&self, segment_id: &str) -> (r: Result<HotcacheInfo, SplitsError>)
        ensures
            match spec_find_stats(self.spec_index().segments@, segment_id@) {
                Some(st) => r matches Ok(h) && h@ == spec_merged_hotcache(
                    st,
                    self.spec_index().schema_hash@,
                    spec_heuristic_size(st) as u64,
                ),
                None => r matches Err(SplitsError::InvalidOperation(_)),
            },
    {
        let st = match self.get_segment_stats(segment_id) {
            Some(st) => st,
            None => {
                return Err(
                    SplitsError::InvalidOperation(
                        String::from_str("segment not found in the index model"),
                    ),
                );
            },
        };
        let est: u64 = 1024 * (st.num_alive_docs as u64) + 512 * (st.num_docs as u64) + 256 * (
        st.max_doc as u64);
        let mut fields: Vec<(String, FieldMetadata)> = Vec::new();
        let mut k: usize = 0;
        proof {
            assert(fields_view(fields@) =~= fields_view(st.field_ranges@).take(0));
        }
        while k < st.field_ranges.len()
            invariant
                k <= st.field_ranges@.len(),
                st == spec_find_stats(self.spec_index().segments@, segment_id@)->Some_0,
                fields_view(fields@) == fields_view(st.field_ranges@).take(k as int),
            decreases st.field_ranges@.len() - k,
        {
            let ghost pre = fields_view(fields@);
            fields.push((st.field_ranges[k].0.clone(), st.field_ranges[k].1));
            proof {
                assert(fields_view(fields@) =~= pre.push(
                    (st.field_ranges@[k as int].0@, st.field_ranges@[k as int].1),
                ));
                assert(fields_view(st.field_ranges@).take(k + 1) =~= fields_view(
                    st.field_ranges@,
                ).take(k as int).push(
                    (st.field_ranges@[k as int].0@, st.field_ranges@[k as int].1),
                ));
            }
            k = k + 1;
        }
        proof {
            assert(fields_view(st.field_ranges@).take(k as int) =~= fields_view(st.field_ranges@));
        }
        let h = HotcacheInfo {
            split_id: st.segment_id.clone(),
            num_docs: st.num_docs,
            size_bytes: est,
            byte_range: ByteRange { start: 0, end: 0 },
            metadata: Vec::new(),
            schema_hash: self.index.schema_hash.clone(),
            field_metadata: fields,
        };
        proof {
            assert(h@.metadata =~= Seq::<(Seq<char>, Seq<char>)>::empty());
        }
        Ok(h)
    }

    /// The names of a segment's files: the segment identifier with each
    /// of the seven segment-file extensions.
    pub fn list_segment_files(&self, segment_id: &str) -> (r: Vec<String>)
        ensures
            r@.len() == 7,
            r@[0]@ == segment_id@ + ".store"@,
            r@[1]@ == segment_id@ + ".term"@,
            r@[2]@ == segment_id@ + ".idx"@,
            r@[3]@ == segment_id@ + ".fast"@,
            r@[4]@ == segment_id@ + ".pos"@,
            r@[5]@ == segment_id@ + ".fieldnorm"@,
            r@[6]@ == segment_id@ + ".del"@,
    {
        let mut names: Vec<String> = Vec::new();
        names.push(String::from_str(segment_id).concat(".store"));
        names.push(String::from_str(segment_id).concat(".term"));
        names.push(String::from_str(segment_id).concat(".idx"));
        names.push(String::from_str(segment_id).concat(".fast"));
        names.push(String::from_str(segment_id).concat(".pos"));
        names.push(String::from_str(segment_id).concat(".fieldnorm"));
        names.push(String::from_str(segment_id).concat(".del"));
        names
    }

    /// Serializes `hotcache` and embeds it as a footer in the single
    /// `.store` file among `files`, leaving every other file unchanged.
    /// Fails with `InvalidSplit` when no `.store` file is present, or
    /// when the store file and payload together would overflow the
    /// 64-bit offset space.
    pub fn embed_hotcache(files: Vec<SplitDirEntry>, hotcache: &HotcacheInfo) -> (r: Result<
        (Vec<SplitDirEntry>, u64, u64),
        SplitsError,
    >)
        ensures
            ({
                let pl = spec_enc_hotcache(hotcache@);
                match spec_first_with_suffix(files@, ".store"@) {
                    None => r matches Err(SplitsError::InvalidSplit(_)),
                    Some(si) => if files@[si].bytes@.len() + pl.len() + 8 > u64::MAX {
                        r matches Err(SplitsError::InvalidSplit(_))
                    } else {
                        r matches Ok(out) && out.0@.len() == files@.len() && (forall|k: int|
                            0 <= k < files@.len() && k != si ==> (#[trigger] out.0@[k]).name@
                                == files@[k].name@ && out.0@[k].bytes@ == files@[k].bytes@)
                            && out.0@[si].name@ == files@[si].name@ && out.0@[si].bytes@
                            == spec_footer(files@[si].bytes@, pl) && out.1
                            == files@[si].bytes@.len() && out.2 == files@[si].bytes@.len()
                            + pl.len()
                    },
                }
            }),
    {
        let si = match crate::split_reader::find_store_entry(&files) {
            None => {
                return Err(
                    SplitsError::InvalidSplit(
                        String::from_str("No store file found to embed hotcache"),
                    ),
                );
            },
            Some(i) => i,
        };
        let payload = match hotcache.to_bytes() {
            Ok(p) => p,
            Err(e) => {
                return Err(e);
            },
        };
        if files[si].bytes.len() as u128 + payload.len() as u128 + 8 > u64::MAX as u128 {
            return Err(
                SplitsError::InvalidSplit(String::from_str("store file too large to extend")),
            );
        }
        let mut out: Vec<SplitDirEntry> = Vec::new();
        let mut k: usize = 0;
        let mut start: u64 = 0;
        let mut end: u64 = 0;
        while k < files.len()
            invariant
                k <= files@.len(),
                out@.len() == k,
                si < files@.len(),
                spec_first_with_suffix(files@, ".store"@) == Some(si as int),
                files@[si as int].bytes@.len() + spec_enc_hotcache(hotcache@).len() + 8
                    <= u64::MAX,
                payload@ == spec_enc_hotcache(hotcache@),
                forall|j: int|
                    0 <= j < k && j != si ==> (#[trigger] out@[j]).name@ == files@[j].name@
                        && out@[j].bytes@ == files@[j].bytes@,
                k > si ==> out@[si as int].name@ == files@[si as int].name@
                    && out@[si as int].bytes@ == spec_footer(files@[si as int].bytes@, payload@)
                    && start == files@[si as int].bytes@.len() && end
                    == files@[si as int].bytes@.len() + payload@.len(),
            decreases files@.len() - k,
        {
            if k == si {
                let mut store_bytes = slice_to_vec(files[k].bytes.as_slice());
                let (s, e) = embed_footer(&mut store_bytes, &payload);
                start = s;
                end = e;
                out.push(SplitDirEntry { name: files[k].name.clone(), bytes: store_bytes });
            } else {
                out.push(
                    SplitDirEntry {
                        name: files[k].name.clone(),
                        bytes: slice_to_vec(files[k].bytes.as_slice()),
                    },
                );
            }
            k = k + 1;
        }
        Ok((out, start, end))
    }

    /// Produces an empty split: a single fresh `.store` file holding
    /// only the serialized empty hotcache and its footer. The metadata
    /// reports no documents, a hotcache starting at offset zero, and a
    /// hotcache end equal to the file's total size.
    pub fn create_empty_split(&self) -> (r: Result<
        (Vec<SplitDirEntry>, SplitMetadata),
        SplitsError,
    >)
        ensures
            ({
                let hv = spec_empty_hotcache(self.spec_index().schema_hash@);
                let pl = spec_enc_hotcache(hv);
                if pl.len() + 8 > u64::MAX {
                    r matches Err(SplitsError::InvalidSplit(_))
                } else {
                    r matches Ok(out) && out.0@.len() == 1 && out.0@[0].bytes@ == spec_footer(
                        Seq::empty(),
                        pl,
                    ) && out.0@[0].name@ == out.1.split_id@ + ".store"@ && out.1.num_docs == 0
                        && out.1.size_bytes == pl.len() + 8 && out.1.hotcache_start == 0
                        && out.1.hotcache_end == out.1.size_bytes && out.1.split_id@.len() == 36
                        && count_occ(out.1.split_id@, '-') == 4
                        && crate::split_reader::spec_is_segment_file(out.0@[0].name@)
                        && spec_extract_footer(out.0@[0].bytes@) == Some(pl)
                        && spec_dec_hotcache(pl) == Some(hv)
                }
            }),
    {
        let _schema_len = self.index.schema_hash.as_str().unicode_len();
        let hotcache = HotcacheInfo::empty(self.index.schema_hash.clone());
        let ghost hv = spec_empty_hotcache(self.spec_index().schema_hash@);
        proof {
            assert(hotcache@.split_id =~= hv.split_id);
            assert(hotcache@.metadata =~= hv.metadata);
            assert(hotcache@.field_metadata =~= hv.field_metadata);
            assert(hotcache@ == hv);
        }
        let payload = match hotcache.to_bytes() {
            Ok(p) => p,
            Err(e) => {
                return Err(e);
            },
        };
        if payload.len() as u128 + 8 > u64::MAX as u128 {
            return Err(
                SplitsError::InvalidSplit(String::from_str("hotcache payload too large")),
            );
        }
        let split_id = new_split_id();
        let mut store_bytes: Vec<u8> = Vec::new();
        let (_s, _e) = embed_footer(&mut store_bytes, &payload);
        let size_bytes = store_bytes.len() as u64;
        let store_name = String::from_str(split_id.as_str()).concat(".store");
        let mut files: Vec<SplitDirEntry> = Vec::new();
        files.push(SplitDirEntry { name: store_name, bytes: store_bytes });
        proof {
            vstd::bytes::lemma_auto_spec_u64_to_from_le_bytes();
            assert(spec_enc_u64((spec_enc_hotcache(hv).len() + 8) as u64).len() == 8);
            assert(hv.wf());
            lemma_footer_round_trip(Seq::empty(), spec_enc_hotcache(hv));
            lemma_hotcache_round_trip(hv);
            assert(Seq::<u8>::empty() + spec_enc_hotcache(hv) =~= spec_enc_hotcache(hv));
            crate::split_reader::lemma_uuid_named_segment_file(split_id@, ".store"@);
        }
        let meta = SplitMetadata {
            split_id,
            num_docs: 0,
            size_bytes,
            hotcache_start: 0,
            hotcache_end: size_bytes,
        };
        Ok((files, meta))
    }

    /// Generates the split from the merge's outcome: an empty split when
    /// the index had no segments, else the merged segment's files with
    /// the hotcache footer embedded in its `.store` file, together with
    /// the split's metadata.
    pub fn generate_split(&self, outcome: MergeOutcome) -> (r: Result<
        (Vec<SplitDirEntry>, SplitMetadata),
        SplitsError,
    >)
        ensures
            ({
                match outcome {
                    MergeOutcome::NoSegments => {
                        let hv = spec_empty_hotcache(self.spec_index().schema_hash@);
                        let pl = spec_enc_hotcache(hv);
                        if pl.len() + 8 > u64::MAX {
                            r matches Err(SplitsError::InvalidSplit(_))
                        } else {
                            r matches Ok(out) && out.0@.len() == 1 && out.0@[0].bytes@
                                == spec_footer(Seq::empty(), pl) && out.0@[0].name@
                                == out.1.split_id@ + ".store"@ && out.1.num_docs == 0
                                && out.1.size_bytes == pl.len() + 8 && out.1.hotcache_start == 0
                                && out.1.hotcache_end == out.1.size_bytes && out.1.split_id@.len()
                                == 36 && count_occ(out.1.split_id@, '-') == 4
                                && crate::split_reader::spec_is_segment_file(out.0@[0].name@)
                                && spec_extract_footer(out.0@[0].bytes@) == Some(pl)
                                && spec_dec_hotcache(pl) == Some(hv)
                        }
                    },
                    MergeOutcome::Merged { stats, files } => {
                        let sum = spec_size_sum(files@);
                        match spec_first_with_suffix(files@, ".store"@) {
                            None => r matches Err(SplitsError::InvalidSplit(_)),
                            Some(si) => if sum > u64::MAX {
                                r matches Err(SplitsError::InvalidSplit(_))
                            } else {
                                let est = if sum > 0 {
                                    sum
                                } else {
                                    spec_heuristic_size(stats)
                                };
                                let hv = spec_merged_hotcache(
                                    stats,
                                    self.spec_index().schema_hash@,
                                    est as u64,
                                );
                                let pl = spec_enc_hotcache(hv);
                                if sum + pl.len() + 8 > u64::MAX {
                                    r matches Err(SplitsError::InvalidSplit(_))
                                } else {
                                    r matches Ok(out) && out.0@.len() == files@.len() && (
                                    forall|k: int|
                                        0 <= k < files@.len() && k != si
                                            ==> (#[trigger] out.0@[k]).name@ == files@[k].name@
                                            && out.0@[k].bytes@ == files@[k].bytes@)
                                        && out.0@[si].name@ == files@[si].name@
                                        && out.0@[si].bytes@ == spec_footer(files@[si].bytes@, pl)
                                        && out.1.split_id@ == stats.segment_id@
                                        && out.1.num_docs == stats.num_docs && out.1.size_bytes
                                        == sum + pl.len() + 8 && out.1.hotcache_start
                                        == files@[si].bytes@.len() && out.1.hotcache_end
                                        == files@[si].bytes@.len() + pl.len()
                                }
                            },
                        }
                    },
                }
            }),
    {
        let (stats, files) = match outcome {
            MergeOutcome::NoSegments => {
                return self.create_empty_split();
            },
            MergeOutcome::Merged { stats, files } => (stats, files),
        };
        let si = match crate::split_reader::find_store_entry(&files) {
            None => {
                return Err(
                    SplitsError::InvalidSplit(
                        String::from_str("No store file found to embed hotcache"),
                    ),
                );
            },
            Some(i) => i,
        };
        let sum128 = sum_file_sizes(&files);
        if sum128 > u64::MAX as u128 {
            return Err(SplitsError::InvalidSplit(String::from_str("split files too large")));
        }
        let sum = sum128 as u64;
        let est: u64 = if sum > 0 {
            sum
        } else {
            1024 * (stats.num_alive_docs as u64) + 512 * (stats.num_docs as u64) + 256 * (
            stats.max_doc as u64)
        };
        let mut fields: Vec<(String, FieldMetadata)> = Vec::new();
        let mut k: usize = 0;
        proof {
            assert(fields_view(fields@) =~= fields_view(stats.field_ranges@).take(0));
        }
        while k < stats.field_ranges.len()
            invariant
                k <= stats.field_ranges@.len(),
                fields_view(fields@) == fields_view(stats.field_ranges@).take(k as int),
            decreases stats.field_ranges@.len() - k,
        {
            let ghost pre = fields_view(fields@);
            fields.push((stats.field_ranges[k].0.clone(), stats.field_ranges[k].1));
            proof {
                assert(fields_view(fields@) =~= pre.push(
                    (stats.field_ranges@[k as int].0@, stats.field_ranges@[k as int].1),
                ));
                assert(fields_view(stats.field_ranges@).take(k + 1) =~= fields_view(
                    stats.field_ranges@,
                ).take(k as int).push(
                    (stats.field_ranges@[k as int].0@, stats.field_ranges@[k as int].1),
                ));
            }
            k = k + 1;
        }
        proof {
            assert(fields_view(stats.field_ranges@).take(k as int) =~= fields_view(
                stats.field_ranges@,
            ));
        }
        let hotcache = HotcacheInfo {
            split_id: stats.segment_id.clone(),
            num_docs: stats.num_docs,
            size_bytes: est,
            byte_range: ByteRange { start: 0, end: 0 },
            metadata: Vec::new(),
            schema_hash: self.index.schema_hash.clone(),
            field_metadata: fields,
        };
        let ghost hv = spec_merged_hotcache(stats, self.spec_index().schema_hash@, est);
        proof {
            assert(hotcache@.metadata =~= hv.metadata);
            assert(hotcache@ == hv);
        }
        let payload = match hotcache.to_bytes() {
            Ok(p) => p,
            Err(e) => {
                return Err(e);
            },
        };
        if sum128 + payload.len() as u128 + 8 > u64::MAX as u128 {
            return Err(SplitsError::InvalidSplit(String::from_str("split files too large")));
        }
        proof {
            lemma_size_sum_entry_le(files@, si as int);
        }
        let (out, start, end) = match Self::embed_hotcache(files, &hotcache) {
            Ok(t) => t,
            Err(e) => {
                return Err(e);
            },
        };
        let size_bytes = (sum128 + payload.len() as u128 + 8) as u64;
        let meta = SplitMetadata {
            split_id: stats.segment_id,
            num_docs: stats.num_docs,
            size_bytes,
            hotcache_start: start,
            hotcache_end: end,
        };
        Ok((out, meta))
    }
}

/// The sum of a sequence of sizes.
pub open spec fn spec_u64_sum(s: Seq<u64>) -> int
    decreases s.len(),
{
    if s.len() == 0 {
        0
    } else {
        spec_u64_sum(s.drop_last()) + s.last()
    }
}

proof fn lemma_u64_sum_prefix_le(s: Seq<u64>, k: int)
    requires
        0 <= k <= s.len(),
    ensures
        spec_u64_sum(s.take(k)) <= spec_u64_sum(s),
        spec_u64_sum(s.take(k)) >= 0,
    decreases s.len() - k,
{
    lemma_u64_sum_nonneg(s.take(k));
    if k < s.len() {
        lemma_u64_sum_prefix_le(s, k + 1);
        assert(s.take(k + 1).drop_last() =~= s.take(k));
        lemma_u64_sum_nonneg(s.take(k + 1));
    } else {
        assert(s.take(k) =~= s);
    }
}

proof fn lemma_u64_sum_nonneg(s: Seq<u64>)
    ensures
        spec_u64_sum(s) >= 0,
    decreases s.len(),
{
    if s.len() > 0 {
        lemma_u64_sum_nonneg(s.drop_last());
    }
}

/// Each entry's size is at most the total.
proof fn lemma_size_sum_entry_le(files: Seq<SplitDirEntry>, i: int)
    requires
        0 <= i < files.len(),
    ensures
        files[i].bytes@.len() <= spec_size_sum(files),
    decreases files.len(),
{
    lemma_size_sum_nonneg(files.drop_last());
    if i == files.len() - 1 {
    } else {
        lemma_size_sum_entry_le(files.drop_last(), i);
        assert(files.drop_last()[i] == files[i]);
    }
}

proof fn lemma_size_sum_nonneg(files: Seq<SplitDirEntry>)
    ensures
        spec_size_sum(files) >= 0,
    decreases files.len(),
{
    if files.len() > 0 {
        lemma_size_sum_nonneg(files.drop_last());
    }
}

} // verus!
