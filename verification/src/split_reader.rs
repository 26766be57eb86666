//! Reading a split: locating and validating the hotcache footer and
//! serving field-scoped byte-range queries.
//!
//! A reader works on an in-memory image of the split directory — the
//! file names and their bytes — supplied by the embedding application
//! when it opens the split. Opening validates the path's status, locates
//! the single `.store` file, and eagerly loads the hotcache from its
//! footer; a split whose footer cannot be located or parsed never yields
//! a reader.

use crate::error::SplitsError;
use crate::footer::{extract_footer, spec_extract_footer};
use crate::hotcache::{spec_dec_hotcache, spec_lookup_field, ByteRange, HotcacheInfo};
use crate::posting::{ascending, read_posting_list_from_range, spec_lookup_posting,
    spec_posting_table};
use crate::text::{
    count_occ, ends_with, lemma_lex_le_total, lemma_lex_le_trans, lex_le, str_ends_with, str_le,
};
use core::ops::Range;
use vstd::prelude::*;
use vstd::slice::{slice_subrange, slice_to_vec};
use vstd::string::{StrSliceExecFns, StringExecFns};

verus! {

broadcast use vstd::seq_lib::group_to_multiset_ensures;

/// One file of a split directory: its name and its contents.
#[derive(Debug, Clone)]
pub struct SplitDirEntry {
    pub name: String,
    pub bytes: Vec<u8>,
}

/// What the filesystem reports about a split path, as the embedding
/// application observed it.
pub enum PathStatus {
    /// The path does not exist.
    Missing,
    /// The path exists but is not a directory.
    NotDirectory,
    /// The path is a directory holding these files.
    Directory(Vec<SplitDirEntry>),
}

/// The first index at or after `k` whose file name ends with `suffix`.
pub open spec fn spec_first_with_suffix_at(
    entries: Seq<SplitDirEntry>,
    suffix: Seq<char>,
    k: int,
) -> Option<int>
    decreases entries.len() - k,
{
    if k < 0 || k >= entries.len() {
        None
    } else if str_ends_with(entries[k].name@, suffix) {
        Some(k)
    } else {
        spec_first_with_suffix_at(entries, suffix, k + 1)
    }
}

/// The first index whose file name ends with `suffix`.
pub open spec fn spec_first_with_suffix(entries: Seq<SplitDirEntry>, suffix: Seq<char>) -> Option<
    int,
> {
    spec_first_with_suffix_at(entries, suffix, 0)
}

fn find_entry_with_suffix(entries: &Vec<SplitDirEntry>, dot_ext: &str) -> (r: Option<usize>)
    ensures
        match r {
            Some(i) => spec_first_with_suffix(entries@, dot_ext@) == Some(i as int) && i
                < entries@.len(),
            None => spec_first_with_suffix(entries@, dot_ext@) is None,
        },
{
    let mut k: usize = 0;
    while k < entries.len()
        invariant
            k <= entries@.len(),
            spec_first_with_suffix(entries@, dot_ext@) == spec_first_with_suffix_at(
                entries@,
                dot_ext@,
                k as int,
            ),
        decreases entries@.len() - k,
    {
        if ends_with(entries[k].name.as_str(), dot_ext) {
            return Some(k);
        }
        k = k + 1;
    }
    None
}

/// Locates the first `.store` file in a directory image.
pub(crate) fn find_store_entry(files: &Vec<SplitDirEntry>) -> (r: Option<usize>)
    ensures
        match r {
            Some(i) => spec_first_with_suffix(files@, ".store"@) == Some(i as int) && i
                < files@.len(),
            None => spec_first_with_suffix(files@, ".store"@) is None,
        },
{
    find_entry_with_suffix(files, ".store")
}

/// Whether a file name has the shape of a segment file: a 36-character
/// stem holding exactly 4 hyphens, then one of the seven segment-file
/// extensions.
pub open spec fn spec_matches_ext(s: Seq<char>, dot_ext: Seq<char>) -> bool {
    &&& str_ends_with(s, dot_ext)
    &&& s.len() - dot_ext.len() == 36
    &&& count_occ(s.subrange(0, 36), '-') == 4
}

pub open spec fn spec_is_segment_file(s: Seq<char>) -> bool {
    ||| spec_matches_ext(s, ".store"@)
    ||| spec_matches_ext(s, ".term"@)
    ||| spec_matches_ext(s, ".idx"@)
    ||| spec_matches_ext(s, ".fast"@)
    ||| spec_matches_ext(s, ".pos"@)
    ||| spec_matches_ext(s, ".fieldnorm"@)
    ||| spec_matches_ext(s, ".del"@)
}

/// A 36-character, 4-hyphen stem followed by any of the extensions
/// matches; generated segment-file names therefore always do.
pub proof fn lemma_uuid_named_segment_file(id: Seq<char>, dot_ext: Seq<char>)
    requires
        id.len() == 36,
        count_occ(id, '-') == 4,
    ensures
        spec_matches_ext(id + dot_ext, dot_ext),
{
    let s = id + dot_ext;
    assert(s.subrange(s.len() - dot_ext.len(), s.len() as int) =~= dot_ext);
    assert(s.subrange(0, 36) =~= id);
}

fn matches_ext(name: &str, dot_ext: &str) -> (r: bool)
    ensures
        r == spec_matches_ext(name@, dot_ext@),
{
    if !ends_with(name, dot_ext) {
        return false;
    }
    let nl = name.unicode_len();
    let el = dot_ext.unicode_len();
    if nl - el != 36 {
        return false;
    }
    let hy = crate::text::count_char_prefix(name, 36, '-');
    proof {
        assert(name@.take(36) =~= name@.subrange(0, 36));
    }
    hy == 4
}

/// The names of the segment files among `files`, in directory order.
pub open spec fn spec_segment_file_names(files: Seq<SplitDirEntry>) -> Seq<Seq<char>>
    decreases files.len(),
{
    if files.len() == 0 {
        Seq::empty()
    } else {
        let front = spec_segment_file_names(files.drop_last());
        if spec_is_segment_file(files.last().name@) {
            front.push(files.last().name@)
        } else {
            front
        }
    }
}

/// The character sequences of a sequence of strings.
pub open spec fn strings_view(v: Seq<String>) -> Seq<Seq<char>> {
    Seq::new(v.len(), |i: int| v[i]@)
}

fn insert_pos(out: &Vec<String>, x: &String) -> (j: usize)
    requires
        forall|a: int, b: int| 0 <= a < b < out@.len() ==> lex_le(#[trigger] out@[a]@, #[trigger] out@[b]@),
    ensures
        j <= out@.len(),
        forall|k: int| 0 <= k < j ==> lex_le(#[trigger] out@[k]@, x@),
        j < out@.len() ==> lex_le(x@, out@[j as int]@),
    decreases out@.len(),
{
    let mut j: usize = 0;
    loop
        invariant
            j <= out@.len(),
            forall|k: int| 0 <= k < j ==> lex_le(#[trigger] out@[k]@, x@),
        decreases out@.len() - j,
    {
        if j == out.len() {
            return j;
        }
        if !str_le(out[j].as_str(), x.as_str()) {
            proof {
                lemma_lex_le_total(out@[j as int]@, x@);
            }
            return j;
        }
        j = j + 1;
    }
}

fn sort_strings(input: Vec<String>) -> (r: Vec<String>)
    ensures
        strings_view(r@).to_multiset() == strings_view(input@).to_multiset(),
        forall|a: int, b: int| 0 <= a < b < r@.len() ==> lex_le(#[trigger] r@[a]@, #[trigger] r@[b]@),
{
    let mut out: Vec<String> = Vec::new();
    proof {
        assert(strings_view(out@) =~= Seq::<Seq<char>>::empty());
        assert(strings_view(input@.take(0)) =~= Seq::<Seq<char>>::empty());
    }
    let mut i: usize = 0;
    while i < input.len()
        invariant
            i <= input@.len(),
            strings_view(out@).to_multiset() == strings_view(input@.take(i as int)).to_multiset(),
            forall|a: int, b: int| 0 <= a < b < out@.len() ==> lex_le(#[trigger] out@[a]@, #[trigger] out@[b]@),
        decreases input@.len() - i,
    {
        let x = input[i].clone();
        let j = insert_pos(&out, &x);
        let ghost ob = out@;
        let ghost vb = strings_view(out@);
        out.insert(j, x);
        proof {
            ob.insert_ensures(j as int, x);
            let va = strings_view(out@);
            assert(va.len() == vb.len() + 1);
            assert forall|c: int| 0 <= c < j implies va[c] == vb[c] by {
                assert(out@[c] == ob[c]);
            }
            assert(va[j as int] == x@) by {
                assert(out@[j as int] == x);
            }
            assert forall|c: int| j < c < va.len() implies va[c] == vb[c - 1] by {
                assert(out@[c] == ob[c - 1]);
            }
            assert(va.remove(j as int) =~= vb);
            assert(va.contains(x@));
            assert(va.remove(j as int).to_multiset() =~= va.to_multiset().remove(x@));
            assert(va.to_multiset() =~= vb.to_multiset().insert(x@)) by {
                assert(va.to_multiset().remove(x@) =~= vb.to_multiset());
                assert(va.to_multiset().count(x@) >= 1);
                assert forall|y: Seq<char>| va.to_multiset().count(y) == vb.to_multiset().insert(
                    x@,
                ).count(y) by {
                    assert(va.to_multiset().remove(x@).count(y) == vb.to_multiset().count(y));
                }
            }
            assert(strings_view(input@.take(i + 1)) =~= strings_view(input@.take(i as int)).push(
                input@[i as int]@,
            ));
            assert(strings_view(input@.take(i + 1)).to_multiset() =~= strings_view(
                input@.take(i as int),
            ).to_multiset().insert(x@));
            assert forall|a: int, b: int| 0 <= a < b < out@.len() implies lex_le(
                #[trigger] out@[a]@,
                #[trigger] out@[b]@,
            ) by {
                assert(out@[a]@ == va[a]);
                assert(out@[b]@ == va[b]);
                if b < j {
                    assert(va[a] == vb[a] && va[b] == vb[b]);
                } else if b == j {
                    assert(va[a] == vb[a] && va[b] == x@);
                } else if a < j {
                    assert(va[a] == vb[a] && va[b] == vb[b - 1]);
                    assert(lex_le(vb[a], vb[b - 1]));
                } else if a == j {
                    assert(va[a] == x@ && va[b] == vb[b - 1]);
                    if b - 1 == j {
                        assert(lex_le(x@, vb[j as int]));
                    } else {
                        lemma_lex_le_trans(x@, vb[j as int], vb[b - 1]);
                    }
                } else {
                    assert(va[a] == vb[a - 1] && va[b] == vb[b - 1]);
                }
            }
        }
        i = i + 1;
    }
    proof {
        assert(input@.take(i as int) =~= input@);
    }
    out
}

/// A reader over one split directory. After a successful `open` the
/// hotcache is always loaded.
pub struct QuickwitSplitReader {
    split_path: String,
    files: Vec<SplitDirEntry>,
    hotcache: Option<HotcacheInfo>,
}

impl QuickwitSplitReader {
    /// The path this reader was opened on.
    pub closed spec fn spec_path(&self) -> Seq<char> {
        self.split_path@
    }

    /// The directory image this reader serves queries from.
    pub closed spec fn spec_files(&self) -> Seq<SplitDirEntry> {
        self.files@
    }

    /// The loaded hotcache.
    pub closed spec fn spec_hotcache(&self) -> Option<HotcacheInfo> {
        self.hotcache
    }

    /// Loads the hotcache out of a directory image: the first `.store`
    /// file's footer is located and its payload parsed.
    fn load_from(files: &Vec<SplitDirEntry>) -> (r: Result<HotcacheInfo, SplitsError>)
        ensures
            match spec_first_with_suffix(files@, ".store"@) {
                None => r matches Err(SplitsError::InvalidSplit(_)),
                Some(i) => match spec_extract_footer(files@[i].bytes@) {
                    None => r matches Err(SplitsError::InvalidSplit(_)),
                    Some(p) => match spec_dec_hotcache(p) {
                        None => r matches Err(SplitsError::Serialization(_)),
                        Some(hv) => r matches Ok(h) && h@ == hv,
                    },
                },
            },
    {
        let si = match find_entry_with_suffix(files, ".store") {
            None => {
                return Err(
                    SplitsError::InvalidSplit(
                        String::from_str("no store file found in split directory"),
                    ),
                );
            },
            Some(i) => i,
        };
        let payload = match extract_footer(files[si].bytes.as_slice()) {
            Err(e) => {
                return Err(e);
            },
            Ok(p) => p,
        };
        HotcacheInfo::from_bytes(payload.as_slice())
    }

    /// Opens a split given its path and what the filesystem reports
    /// there. A missing path, a non-directory, a directory without a
    /// `.store` file, and a file without a locatable footer all fail with
    /// `InvalidSplit`; a footer whose payload does not parse fails with
    /// `Serialization`. On success the hotcache is loaded.
    pub fn open(split_path: String, status: PathStatus) -> (r: Result<
        QuickwitSplitReader,
        SplitsError,
    >)
        ensures
            match status {
                PathStatus::Missing => r matches Err(SplitsError::InvalidSplit(_)),
                PathStatus::NotDirectory => r matches Err(SplitsError::InvalidSplit(_)),
                PathStatus::Directory(files) => match spec_first_with_suffix(files@, ".store"@) {
                    None => r matches Err(SplitsError::InvalidSplit(_)),
                    Some(i) => match spec_extract_footer(files@[i].bytes@) {
                        None => r matches Err(SplitsError::InvalidSplit(_)),
                        Some(p) => match spec_dec_hotcache(p) {
                            None => r matches Err(SplitsError::Serialization(_)),
                            Some(hv) => r matches Ok(rd) && rd.spec_path() == split_path@
                                && rd.spec_files() == files@ && (rd.spec_hotcache() matches Some(
                                h,
                            ) && h@ == hv),
                        },
                    },
                },
            },
    {
        let files = match status {
            PathStatus::Missing => {
                return Err(
                    SplitsError::InvalidSplit(String::from_str("split path does not exist")),
                );
            },
            PathStatus::NotDirectory => {
                return Err(
                    SplitsError::InvalidSplit(String::from_str("split path is not a directory")),
                );
            },
            PathStatus::Directory(files) => files,
        };
        match Self::load_from(&files) {
            Err(e) => Err(e),
            Ok(h) => Ok(QuickwitSplitReader { split_path, files, hotcache: Some(h) }),
        }
    }

    /// Reloads the hotcache from the stored directory image. On failure
    /// the previously loaded hotcache is kept.
    pub fn load_hotcache(&mut self) -> (r: Result<(), SplitsError>)
        ensures
            final(self).spec_path() == old(self).spec_path(),
            final(self).spec_files() == old(self).spec_files(),
            match spec_first_with_suffix(old(self).spec_files(), ".store"@) {
                None => r matches Err(SplitsError::InvalidSplit(_)) && final(self).spec_hotcache()
                    == old(self).spec_hotcache(),
                Some(i) => match spec_extract_footer(old(self).spec_files()[i].bytes@) {
                    None => r matches Err(SplitsError::InvalidSplit(_))
                        && final(self).spec_hotcache() == old(self).spec_hotcache(),
                    Some(p) => match spec_dec_hotcache(p) {
                        None => r matches Err(SplitsError::Serialization(_))
                            && final(self).spec_hotcache() == old(self).spec_hotcache(),
                        Some(hv) => r matches Ok(u) && (final(self).spec_hotcache() matches Some(
                            h,
                        ) && h@ == hv),
                    },
                },
            },
    {
        match Self::load_from(&self.files) {
            Err(e) => Err(e),
            Ok(h) => {
                self.hotcache = Some(h);
                Ok(())
            },
        }
    }

    /// The loaded hotcache; present after every successful `open`.
    pub fn get_hotcache_info(&self) -> (r: Option<&HotcacheInfo>)
        ensures
            match r {
                Some(h) => self.spec_hotcache() == Some(*h),
                None => self.spec_hotcache() is None,
            },
    {
        self.hotcache.as_ref()
    }

    /// The split path this reader was opened on.
    pub fn get_split_path(&self) -> (r: &String)
        ensures
            r@ == self.spec_path(),
    {
        &self.split_path
    }

    /// Whether `filename` names a segment file: a 36-character stem with
    /// exactly 4 hyphens and one of the extensions `store`, `term`,
    /// `idx`, `fast`, `pos`, `fieldnorm`, `del`.
    pub fn is_segment_file(filename: &str) -> (r: bool)
        ensures
            r == spec_is_segment_file(filename@),
    {
        matches_ext(filename, ".store") || matches_ext(filename, ".term") || matches_ext(
            filename,
            ".idx",
        ) || matches_ext(filename, ".fast") || matches_ext(filename, ".pos") || matches_ext(
            filename,
            ".fieldnorm",
        ) || matches_ext(filename, ".del")
    }

    /// Every segment-file name in the split directory, in ascending
    /// lexical order. Non-matching files are silently excluded.
    pub fn list_segment_files(&self) -> (r: Result<Vec<String>, SplitsError>)
        ensures
            r matches Ok(v) && strings_view(v@).to_multiset() == spec_segment_file_names(
                self.spec_files(),
            ).to_multiset() && (forall|a: int, b: int|
                0 <= a < b < v@.len() ==> lex_le(#[trigger] v@[a]@, #[trigger] v@[b]@)),
    {
        let mut names: Vec<String> = Vec::new();
        proof {
            assert(strings_view(names@) =~= Seq::<Seq<char>>::empty());
            assert(spec_segment_file_names(self.files@.take(0)) =~= Seq::<Seq<char>>::empty());
        }
        let mut k: usize = 0;
        while k < self.files.len()
            invariant
                k <= self.files@.len(),
                strings_view(names@) == spec_segment_file_names(self.files@.take(k as int)),
            decreases self.files@.len() - k,
        {
            let ghost pre = strings_view(names@);
            let keep = Self::is_segment_file(self.files[k].name.as_str());
            if keep {
                names.push(self.files[k].name.clone());
            }
            proof {
                assert(self.files@.take(k + 1).drop_last() =~= self.files@.take(k as int));
                assert(self.files@.take(k + 1).last() == self.files@[k as int]);
                if keep {
                    assert(strings_view(names@) =~= pre.push(self.files@[k as int].name@));
                }
            }
            k = k + 1;
        }
        proof {
            assert(self.files@.take(k as int) =~= self.files@);
        }
        Ok(sort_strings(names))
    }

    /// The document identifiers matching `term` in `field`'s posting
    /// data. The field must be present and have a posting range; the
    /// split must hold a `.term` file whose bytes at that range form a
    /// valid posting table.
    pub fn read_posting_list(&self, field: &str, term: &str) -> (r: Result<Vec<u32>, SplitsError>)
        ensures
            match self.spec_hotcache() {
                None => r matches Err(SplitsError::InvalidOperation(_)),
                Some(h) => match spec_lookup_field(h@.field_metadata, field@) {
                    None => r matches Err(SplitsError::FieldError(_)),
                    Some(fm) => match fm.posting_range {
                        None => r matches Err(SplitsError::FieldError(_)),
                        Some(pr) => match spec_first_with_suffix(self.spec_files(), ".term"@) {
                            None => r matches Err(SplitsError::InvalidSplit(_)),
                            Some(i) => match spec_posting_table(
                                self.spec_files()[i].bytes@,
                                pr,
                            ) {
                                None => r matches Err(SplitsError::InvalidSplit(_)),
                                Some(table) => r matches Ok(v) && v@ == spec_lookup_posting(
                                    table,
                                    term@,
                                ) && ascending(v@),
                            },
                        },
                    },
                },
            },
    {
        let h = match &self.hotcache {
            None => {
                return Err(SplitsError::InvalidOperation(String::from_str("hotcache not loaded")));
            },
            Some(h) => h,
        };
        let fm = match h.get_field_metadata(field) {
            None => {
                return Err(
                    SplitsError::FieldError(String::from_str("field not found: ").concat(field)),
                );
            },
            Some(fm) => fm,
        };
        let pr = match fm.posting_range {
            None => {
                return Err(
                    SplitsError::FieldError(
                        String::from_str("no posting data for field: ").concat(field),
                    ),
                );
            },
            Some(pr) => pr,
        };
        let ti = match find_entry_with_suffix(&self.files, ".term") {
            None => {
                return Err(
                    SplitsError::InvalidSplit(
                        String::from_str("no term file found in split directory"),
                    ),
                );
            },
            Some(i) => i,
        };
        read_posting_list_from_range(self.files[ti].bytes.as_slice(), &pr, term)
    }

    /// The raw fast-field bytes for `field` over `doc_range`, at the
    /// fixed stride of 8 bytes per document. The field must be present
    /// and have a fast-field range; a reversed document range is an
    /// `InvalidOperation`; a computed byte range past the end of the
    /// `.fast` file is an `Io` failure.
    pub fn get_fast_field_data(&self, field: &str, doc_range: Range<u32>) -> (r: Result<
        Vec<u8>,
        SplitsError,
    >)
        ensures
            match self.spec_hotcache() {
                None => r matches Err(SplitsError::InvalidOperation(_)),
                Some(h) => match spec_lookup_field(h@.field_metadata, field@) {
                    None => r matches Err(SplitsError::FieldError(_)),
                    Some(fm) => match fm.fast_field_range {
                        None => r matches Err(SplitsError::FieldError(_)),
                        Some(fr) => if doc_range.end < doc_range.start {
                            r matches Err(SplitsError::InvalidOperation(_))
                        } else {
                            match spec_first_with_suffix(self.spec_files(), ".fast"@) {
                                None => r matches Err(SplitsError::InvalidSplit(_)),
                                Some(i) => {
                                    let lo = fr.start + doc_range.start * 8;
                                    let hi = fr.start + doc_range.end * 8;
                                    if hi > self.spec_files()[i].bytes@.len() {
                                        r matches Err(SplitsError::Io(_))
                                    } else {
                                        r matches Ok(v) && v@ == self.spec_files()[i].bytes@
                                            .subrange(lo as int, hi as int)
                                    }
                                },
                            }
                        },
                    },
                },
            },
    {
        let h = match &self.hotcache {
            None => {
                return Err(SplitsError::InvalidOperation(String::from_str("hotcache not loaded")));
            },
            Some(h) => h,
        };
        let fm = match h.get_field_metadata(field) {
            None => {
                return Err(
                    SplitsError::FieldError(String::from_str("field not found: ").concat(field)),
                );
            },
            Some(fm) => fm,
        };
        let fr = match fm.fast_field_range {
            None => {
                return Err(
                    SplitsError::FieldError(
                        String::from_str("no fast field data for field: ").concat(field),
                    ),
                );
            },
            Some(fr) => fr,
        };
        if doc_range.end < doc_range.start {
            return Err(SplitsError::InvalidOperation(String::from_str("invalid document range")));
        }
        let fi = match find_entry_with_suffix(&self.files, ".fast") {
            None => {
                return Err(
                    SplitsError::InvalidSplit(
                        String::from_str("no fast file found in split directory"),
                    ),
                );
            },
            Some(i) => i,
        };
        let lo: u128 = fr.start as u128 + (doc_range.start as u128) * 8;
        let hi: u128 = fr.start as u128 + (doc_range.end as u128) * 8;
        let flen: u128 = self.files[fi].bytes.len() as u128;
        if hi > flen {
            return Err(
                SplitsError::Io(String::from_str("fast field range past end of fast file")),
            );
        }
        let data = slice_to_vec(
            slice_subrange(self.files[fi].bytes.as_slice(), lo as usize, hi as usize),
        );
        Ok(data)
    }

    /// The absolute byte range covering `doc_range` within a fast-field
    /// base range, at 8 bytes per document.
    pub fn calculate_doc_range_bytes(base_range: &ByteRange, doc_range: Range<u32>) -> (r: Result<
        ByteRange,
        SplitsError,
    >)
        requires
            doc_range.start <= doc_range.end,
            base_range.start + doc_range.end * 8 <= u64::MAX,
        ensures
            r matches Ok(br) && br.start == base_range.start + doc_range.start * 8 && br.end
                == base_range.start + doc_range.end * 8,
    {
        let start_offset: u64 = (doc_range.start as u64) * 8;
        let doc_count: u64 = ((doc_range.end - doc_range.start) as u64) * 8;
        Ok(
            ByteRange {
                start: base_range.start + start_offset,
                end: base_range.start + start_offset + doc_count,
            },
        )
    }

    /// The bytes of `data` at `range`; a range past the end of the data
    /// is an `Io` failure.
    pub fn read_byte_range(data: &[u8], range: &ByteRange) -> (r: Result<Vec<u8>, SplitsError>)
        requires
            range.wf(),
        ensures
            if range.end <= data@.len() {
                r matches Ok(v) && v@ == data@.subrange(range.start as int, range.end as int)
            } else {
                r matches Err(SplitsError::Io(_))
            },
    {
        if range.end > data.len() as u64 {
            return Err(SplitsError::Io(String::from_str("byte range past end of file")));
        }
        Ok(slice_to_vec(slice_subrange(data, range.start as usize, range.end as usize)))
    }
}

} // verus!
