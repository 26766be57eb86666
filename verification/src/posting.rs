//! The posting table: term-to-document-list resolution inside a split's
//! `.term` file.
//!
//! The hotcache's `posting_range` for a field points at a table within
//! the `.term` file, laid out with this crate's binary primitives: a
//! `u64` entry count, then per entry a term string, a `u64` document
//! count, and that many `u32` little-endian document identifiers in
//! strictly ascending order. Resolving a term scans the table in order
//! and returns the first matching entry's identifiers, or an empty list
//! when no entry matches. A table that does not decode, or whose
//! identifiers are not ascending, is rejected.

use crate::codec::{dec_str, dec_u32, dec_u64, spec_dec_str, spec_dec_u32, spec_dec_u64};
use crate::error::SplitsError;
use crate::hotcache::ByteRange;
use crate::text::str_eq;
use vstd::prelude::*;
use vstd::slice::slice_subrange;
use vstd::string::StringExecFns;

verus! {

/// Each identifier is greater than the one before it.
pub open spec fn ascending(s: Seq<u32>) -> bool {
    forall|j: int| 0 < j < s.len() ==> #[trigger] s[j] > s[j - 1]
}

pub open spec fn spec_dec_doc_ids(d: Seq<u8>, i: int, count: int) -> Option<(Seq<u32>, int)>
    decreases count,
{
    if count <= 0 {
        Some((Seq::empty(), i))
    } else {
        match spec_dec_u32(d, i) {
            None => None,
            Some((v, j)) => match spec_dec_doc_ids(d, j, count - 1) {
                None => None,
                Some((s, k)) => Some((seq![v] + s, k)),
            },
        }
    }
}

pub open spec fn spec_dec_entry(d: Seq<u8>, i: int) -> Option<((Seq<char>, Seq<u32>), int)> {
    match spec_dec_str(d, i) {
        None => None,
        Some((t, j)) => match spec_dec_u64(d, j) {
            None => None,
            Some((n, k)) => match spec_dec_doc_ids(d, k, n as int) {
                None => None,
                Some((ids, m)) => if ascending(ids) {
                    Some(((t, ids), m))
                } else {
                    None
                },
            },
        },
    }
}

pub open spec fn spec_dec_entries(d: Seq<u8>, i: int, count: int) -> Option<
    (Seq<(Seq<char>, Seq<u32>)>, int),
>
    decreases count,
{
    if count <= 0 {
        Some((Seq::empty(), i))
    } else {
        match spec_dec_entry(d, i) {
            None => None,
            Some((e, j)) => match spec_dec_entries(d, j, count - 1) {
                None => None,
                Some((es, k)) => Some((seq![e] + es, k)),
            },
        }
    }
}

/// The table held by `range` within a `.term` file image, when the range
/// is in bounds and its bytes decode completely.
pub open spec fn spec_posting_table(file: Seq<u8>, range: ByteRange) -> Option<
    Seq<(Seq<char>, Seq<u32>)>,
> {
    if !(range.wf() && range.end <= file.len()) {
        None
    } else {
        let d = file.subrange(range.start as int, range.end as int);
        match spec_dec_u64(d, 0) {
            None => None,
            Some((n, j)) => match spec_dec_entries(d, j, n as int) {
                None => None,
                Some((t, m)) => if m == d.len() {
                    Some(t)
                } else {
                    None
                },
            },
        }
    }
}

/// First-match resolution of a term against a table; no match yields an
/// empty list.
pub open spec fn spec_lookup_posting(table: Seq<(Seq<char>, Seq<u32>)>, term: Seq<char>) -> Seq<
    u32,
>
    decreases table.len(),
{
    if table.len() == 0 {
        Seq::empty()
    } else if table[0].0 == term {
        table[0].1
    } else {
        spec_lookup_posting(table.drop_first(), term)
    }
}

// ---------------------------------------------------------------------------
// Lemmas.
// ---------------------------------------------------------------------------
proof fn lemma_dec_doc_ids_split(d: Seq<u8>, i: int, k: int, count: int)
    requires
        0 <= k <= count,
    ensures
        spec_dec_doc_ids(d, i, count) == match spec_dec_doc_ids(d, i, k) {
            None => None::<(Seq<u32>, int)>,
            Some((p, m)) => match spec_dec_doc_ids(d, m, count - k) {
                None => None,
                Some((rest, e)) => Some((p + rest, e)),
            },
        },
    decreases k,
{
    if k == 0 {
        if spec_dec_doc_ids(d, i, count) is Some {
            let (s, e) = spec_dec_doc_ids(d, i, count)->Some_0;
            assert(Seq::<u32>::empty() + s =~= s);
        }
    } else {
        match spec_dec_u32(d, i) {
            None => {},
            Some((c, j)) => {
                lemma_dec_doc_ids_split(d, j, k - 1, count - 1);
                match spec_dec_doc_ids(d, j, k - 1) {
                    None => {},
                    Some((p, m)) => {
                        match spec_dec_doc_ids(d, m, count - k) {
                            None => {},
                            Some((rest, e)) => {
                                assert(seq![c] + (p + rest) =~= (seq![c] + p) + rest);
                            },
                        }
                    },
                }
            },
        }
    }
}

proof fn lemma_dec_entries_split(d: Seq<u8>, i: int, k: int, count: int)
    requires
        0 <= k <= count,
    ensures
        spec_dec_entries(d, i, count) == match spec_dec_entries(d, i, k) {
            None => None::<(Seq<(Seq<char>, Seq<u32>)>, int)>,
            Some((p, m)) => match spec_dec_entries(d, m, count - k) {
                None => None,
                Some((rest, e)) => Some((p + rest, e)),
            },
        },
    decreases k,
{
    if k == 0 {
        if spec_dec_entries(d, i, count) is Some {
            let (s, e) = spec_dec_entries(d, i, count)->Some_0;
            assert(Seq::<(Seq<char>, Seq<u32>)>::empty() + s =~= s);
        }
    } else {
        match spec_dec_entry(d, i) {
            None => {},
            Some((c, j)) => {
                lemma_dec_entries_split(d, j, k - 1, count - 1);
                match spec_dec_entries(d, j, k - 1) {
                    None => {},
                    Some((p, m)) => {
                        match spec_dec_entries(d, m, count - k) {
                            None => {},
                            Some((rest, e)) => {
                                assert(seq![c] + (p + rest) =~= (seq![c] + p) + rest);
                            },
                        }
                    },
                }
            },
        }
    }
}

/// Every entry a table decode yields has ascending identifiers.
proof fn lemma_dec_entries_ascending(d: Seq<u8>, i: int, count: int)
    ensures
        spec_dec_entries(d, i, count) matches Some((t, m)) ==> forall|e: int|
            0 <= e < t.len() ==> ascending((#[trigger] t[e]).1),
    decreases count,
{
    if count > 0 {
        match spec_dec_entry(d, i) {
            None => {},
            Some((c, j)) => {
                lemma_dec_entries_ascending(d, j, count - 1);
                match spec_dec_entries(d, j, count - 1) {
                    None => {},
                    Some((es, k)) => {
                        assert forall|e: int| 0 <= e < (seq![c] + es).len() implies ascending(
                            (#[trigger] (seq![c] + es)[e]).1,
                        ) by {
                            if e == 0 {
                                assert((seq![c] + es)[0] == c);
                            } else {
                                assert((seq![c] + es)[e] == es[e - 1]);
                            }
                        }
                    },
                }
            },
        }
    }
}

/// The resolution of any term against a valid table is ascending.
proof fn lemma_lookup_posting_ascending(table: Seq<(Seq<char>, Seq<u32>)>, term: Seq<char>)
    requires
        forall|e: int| 0 <= e < table.len() ==> ascending((#[trigger] table[e]).1),
    ensures
        ascending(spec_lookup_posting(table, term)),
    decreases table.len(),
{
    if table.len() == 0 {
    } else if table[0].0 == term {
    } else {
        assert forall|e: int| 0 <= e < table.drop_first().len() implies ascending(
            (#[trigger] table.drop_first()[e]).1,
        ) by {
            assert(table.drop_first()[e] == table[e + 1]);
        }
        lemma_lookup_posting_ascending(table.drop_first(), term);
    }
}

// ---------------------------------------------------------------------------
// Executable decoding and resolution.
// ---------------------------------------------------------------------------
fn dec_doc_ids(d: &[u8], i: usize, count: u64) -> (r: Option<(Vec<u32>, usize)>)
    ensures
        match r {
            Some((v, j)) => spec_dec_doc_ids(d@, i as int, count as int) == Some((v@, j as int)),
            None => spec_dec_doc_ids(d@, i as int, count as int) is None,
        },
{
    let mut v: Vec<u32> = Vec::new();
    let mut k: u64 = 0;
    let mut cur: usize = i;
    proof {
        assert(v@ =~= Seq::<u32>::empty());
    }
    while k < count
        invariant
            k <= count,
            spec_dec_doc_ids(d@, i as int, k as int) == Some((v@, cur as int)),
        decreases count - k,
    {
        let ghost pre = v@;
        match dec_u32(d, cur) {
            None => {
                proof {
                    lemma_dec_doc_ids_split(d@, i as int, k as int, count as int);
                }
                return None;
            },
            Some((x, j)) => {
                v.push(x);
                proof {
                    assert(spec_dec_doc_ids(d@, j as int, 0) == Some(
                        (Seq::<u32>::empty(), j as int),
                    ));
                    assert(seq![x] + Seq::<u32>::empty() =~= seq![x]);
                    assert(spec_dec_doc_ids(d@, cur as int, 1) == Some((seq![x], j as int)));
                    lemma_dec_doc_ids_split(d@, i as int, k as int, k + 1);
                    assert(pre + seq![x] =~= pre.push(x));
                }
                cur = j;
            },
        }
        k = k + 1;
    }
    Some((v, cur))
}

fn is_ascending(v: &Vec<u32>) -> (r: bool)
    ensures
        r == ascending(v@),
{
    let mut j: usize = 1;
    while j < v.len()
        invariant
            1 <= j,
            j <= v.len() || v.len() == 0,
            forall|a: int| 0 < a < j && a < v@.len() ==> #[trigger] v@[a] > v@[a - 1],
        decreases v.len() - j,
    {
        if v[j] <= v[j - 1] {
            return false;
        }
        j = j + 1;
    }
    true
}

fn dec_entry(d: &[u8], i: usize) -> (r: Option<((String, Vec<u32>), usize)>)
    ensures
        match r {
            Some((e, j)) => spec_dec_entry(d@, i as int) == Some(((e.0@, e.1@), j as int)),
            None => spec_dec_entry(d@, i as int) is None,
        },
{
    match dec_str(d, i) {
        None => None,
        Some((t, j)) => match dec_u64(d, j) {
            None => None,
            Some((n, k)) => match dec_doc_ids(d, k, n) {
                None => None,
                Some((ids, m)) => if is_ascending(&ids) {
                    Some(((t, ids), m))
                } else {
                    None
                },
            },
        },
    }
}

/// The view of a decoded table: each entry's term and identifier list.
pub open spec fn entries_view(v: Seq<(String, Vec<u32>)>) -> Seq<(Seq<char>, Seq<u32>)> {
    Seq::new(v.len(), |i: int| (v[i].0@, v[i].1@))
}

fn dec_entries(d: &[u8], i: usize, count: u64) -> (r: Option<(Vec<(String, Vec<u32>)>, usize)>)
    ensures
        match r {
            Some((v, j)) => spec_dec_entries(d@, i as int, count as int) == Some(
                (entries_view(v@), j as int),
            ),
            None => spec_dec_entries(d@, i as int, count as int) is None,
        },
{
    let mut v: Vec<(String, Vec<u32>)> = Vec::new();
    let mut k: u64 = 0;
    let mut cur: usize = i;
    proof {
        assert(entries_view(v@) =~= Seq::<(Seq<char>, Seq<u32>)>::empty());
    }
    while k < count
        invariant
            k <= count,
            spec_dec_entries(d@, i as int, k as int) == Some((entries_view(v@), cur as int)),
        decreases count - k,
    {
        let ghost pre = entries_view(v@);
        match dec_entry(d, cur) {
            None => {
                proof {
                    lemma_dec_entries_split(d@, i as int, k as int, count as int);
                }
                return None;
            },
            Some((e, j)) => {
                let ghost ev = (e.0@, e.1@);
                v.push(e);
                proof {
                    assert(spec_dec_entries(d@, j as int, 0) == Some(
                        (Seq::<(Seq<char>, Seq<u32>)>::empty(), j as int),
                    ));
                    assert(seq![ev] + Seq::<(Seq<char>, Seq<u32>)>::empty() =~= seq![ev]);
                    assert(spec_dec_entries(d@, cur as int, 1) == Some((seq![ev], j as int)));
                    lemma_dec_entries_split(d@, i as int, k as int, k + 1);
                    assert(entries_view(v@) =~= pre + seq![ev]);
                }
                cur = j;
            },
        }
        k = k + 1;
    }
    Some((v, cur))
}

/// Resolves `term` against the posting table that `posting_range` locates
/// inside a `.term` file image. Fails with `InvalidSplit` exactly when the
/// range is out of bounds or its bytes are not a valid table; a term with
/// no entry resolves to an empty list.
pub fn read_posting_list_from_range(data: &[u8], posting_range: &ByteRange, term: &str) -> (r:
    Result<Vec<u32>, SplitsError>)
    ensures
        match spec_posting_table(data@, *posting_range) {
            None => r matches Err(SplitsError::InvalidSplit(_)),
            Some(table) => r matches Ok(v) && v@ == spec_lookup_posting(table, term@) && ascending(
                v@,
            ),
        },
{
    if !(posting_range.start <= posting_range.end && posting_range.end <= data.len() as u64) {
        return Err(SplitsError::InvalidSplit(String::from_str("posting range out of bounds")));
    }
    let d = slice_subrange(data, posting_range.start as usize, posting_range.end as usize);
    let (n, j) = match dec_u64(d, 0) {
        None => {
            return Err(
                SplitsError::InvalidSplit(String::from_str("unreadable posting table size")),
            );
        },
        Some(p) => p,
    };
    let (table, m) = match dec_entries(d, j, n) {
        None => {
            return Err(SplitsError::InvalidSplit(String::from_str("malformed posting table")));
        },
        Some(p) => p,
    };
    if m != d.len() {
        return Err(
            SplitsError::InvalidSplit(String::from_str("trailing bytes in posting table")),
        );
    }
    proof {
        lemma_dec_entries_ascending(d@, j as int, n as int);
        lemma_lookup_posting_ascending(entries_view(table@), term@);
    }
    let ghost full = entries_view(table@);
    proof {
        assert(full.skip(0) =~= full);
    }
    let mut k: usize = 0;
    while k < table.len()
        invariant
            k <= table.len(),
            full == entries_view(table@),
            spec_posting_table(data@, *posting_range) == Some(full),
            forall|e: int| 0 <= e < full.len() ==> ascending((#[trigger] full[e]).1),
            spec_lookup_posting(full, term@) == spec_lookup_posting(full.skip(k as int), term@),
        decreases table.len() - k,
    {
        proof {
            assert(full.skip(k as int)[0] == full[k as int]);
        }
        if str_eq(table[k].0.as_str(), term) {
            let ids = vstd::slice::slice_to_vec(table[k].1.as_slice());
            proof {
                assert(full[k as int] == (table@[k as int].0@, table@[k as int].1@));
                assert(full.skip(k as int)[0].0 == term@);
                assert(spec_lookup_posting(full.skip(k as int), term@) == full[k as int].1);
            }
            return Ok(ids);
        }
        proof {
            assert(full.skip(k as int).drop_first() =~= full.skip(k + 1));
        }
        k = k + 1;
    }
    proof {
        assert(full.skip(k as int).len() == 0);
    }
    Ok(Vec::new())
}

} // verus!
