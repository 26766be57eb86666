//! Binary encoding primitives for the hotcache format.
//!
//! Everything the hotcache stores is reduced to four primitives, each with
//! a fixed, deterministic byte layout so that encoded values are
//! bit-reproducible across implementations:
//! - `u32` and `u64`: little-endian, 4 and 8 bytes;
//! - `char`: its Unicode scalar value as a little-endian `u32`;
//! - strings: a `u64` character count followed by each character.
//!
//! Every decoder is total over arbitrary bytes (malformed input yields
//! `None`) and exactly inverts the matching encoder; the `lemma_dec_*_of_enc`
//! lemmas state that inversion.

use vstd::bytes::{
    spec_u32_from_le_bytes, spec_u32_to_le_bytes, spec_u64_from_le_bytes, spec_u64_to_le_bytes,
    u32_from_le_bytes, u32_to_le_bytes, u64_from_le_bytes, u64_to_le_bytes,
    lemma_auto_spec_u32_to_from_le_bytes, lemma_auto_spec_u64_to_from_le_bytes,
};
use vstd::prelude::*;
use vstd::slice::slice_subrange;
use vstd::string::StrSliceExecFns;

verus! {

// ---------------------------------------------------------------------------
// Trusted declarations for std functions that vstd does not specify.
// ---------------------------------------------------------------------------
/// Relies on `char::from_u32`: it returns `Some` exactly on Unicode scalar
/// values (code points outside the surrogate range `0xD800..=0xDFFF` and at
/// most `0x10FFFF`), and the returned `char` has that scalar value.
pub assume_specification [ char::from_u32 ](v: u32) -> (r: Option<char>)
    ensures
        is_unicode_scalar(v) ==> r == Some(v as char),
        !is_unicode_scalar(v) ==> r is None,
;

/// Relies on `String::push`: it appends exactly the given character.
pub assume_specification [ String::push ](s: &mut String, c: char)
    ensures
        final(s)@ == old(s)@.push(c),
;

/// Whether `v` is a Unicode scalar value, i.e. the numeric value of some `char`.
pub open spec fn is_unicode_scalar(v: u32) -> bool {
    v <= 0xD7FF || (0xE000 <= v && v <= 0x10FFFF)
}

// ---------------------------------------------------------------------------
// Spec-level encoders.
// ---------------------------------------------------------------------------
pub open spec fn spec_enc_u32(v: u32) -> Seq<u8> {
    spec_u32_to_le_bytes(v)
}

pub open spec fn spec_enc_u64(v: u64) -> Seq<u8> {
    spec_u64_to_le_bytes(v)
}

pub open spec fn spec_enc_char(c: char) -> Seq<u8> {
    spec_enc_u32(c as u32)
}

/// The characters of `s`, each as 4 little-endian bytes, in order.
pub open spec fn spec_enc_chars(s: Seq<char>) -> Seq<u8>
    decreases s.len(),
{
    if s.len() == 0 {
        Seq::empty()
    } else {
        spec_enc_char(s[0]) + spec_enc_chars(s.drop_first())
    }
}

/// A string: its character count as a `u64`, then its characters.
pub open spec fn spec_enc_str(s: Seq<char>) -> Seq<u8> {
    spec_enc_u64(s.len() as u64) + spec_enc_chars(s)
}

// ---------------------------------------------------------------------------
// Spec-level decoders. Each takes the whole buffer and a position and yields
// the decoded value with the position just past it, or `None` if the bytes
// at that position do not hold one.
// ---------------------------------------------------------------------------
pub open spec fn spec_dec_u32(d: Seq<u8>, i: int) -> Option<(u32, int)> {
    if 0 <= i && i + 4 <= d.len() {
        Some((spec_u32_from_le_bytes(d.subrange(i, i + 4)), i + 4))
    } else {
        None
    }
}

pub open spec fn spec_dec_u64(d: Seq<u8>, i: int) -> Option<(u64, int)> {
    if 0 <= i && i + 8 <= d.len() {
        Some((spec_u64_from_le_bytes(d.subrange(i, i + 8)), i + 8))
    } else {
        None
    }
}

pub open spec fn spec_dec_char(d: Seq<u8>, i: int) -> Option<(char, int)> {
    match spec_dec_u32(d, i) {
        None => None,
        Some((v, j)) => if is_unicode_scalar(v) {
            Some((v as char, j))
        } else {
            None
        },
    }
}

pub open spec fn spec_dec_chars(d: Seq<u8>, i: int, count: int) -> Option<(Seq<char>, int)>
    decreases count,
{
    if count <= 0 {
        Some((Seq::empty(), i))
    } else {
        match spec_dec_char(d, i) {
            None => None,
            Some((c, j)) => match spec_dec_chars(d, j, count - 1) {
                None => None,
                Some((s, k)) => Some((seq![c] + s, k)),
            },
        }
    }
}

pub open spec fn spec_dec_str(d: Seq<u8>, i: int) -> Option<(Seq<char>, int)> {
    match spec_dec_u64(d, i) {
        None => None,
        Some((n, j)) => spec_dec_chars(d, j, n as int),
    }
}

// ---------------------------------------------------------------------------
// Shape lemmas.
// ---------------------------------------------------------------------------
pub proof fn lemma_enc_chars_len(s: Seq<char>)
    ensures
        spec_enc_chars(s).len() == 4 * s.len(),
    decreases s.len(),
{
    lemma_auto_spec_u32_to_from_le_bytes();
    if s.len() > 0 {
        lemma_enc_chars_len(s.drop_first());
    }
}

pub proof fn lemma_enc_str_len(s: Seq<char>)
    ensures
        spec_enc_str(s).len() == 8 + 4 * s.len(),
{
    lemma_auto_spec_u64_to_from_le_bytes();
    lemma_enc_chars_len(s);
}

/// Appending a character extends the character encoding on the right.
pub proof fn lemma_enc_chars_push(s: Seq<char>, c: char)
    ensures
        spec_enc_chars(s.push(c)) == spec_enc_chars(s) + spec_enc_char(c),
    decreases s.len(),
{
    lemma_auto_spec_u32_to_from_le_bytes();
    if s.len() == 0 {
        assert(s.push(c).drop_first() =~= s);
        assert(spec_enc_chars(s.push(c)) =~= spec_enc_char(c));
        assert(spec_enc_chars(s) + spec_enc_char(c) =~= spec_enc_char(c));
    } else {
        assert(s.push(c).drop_first() =~= s.drop_first().push(c));
        lemma_enc_chars_push(s.drop_first(), c);
        assert(spec_enc_chars(s.push(c)) =~= spec_enc_chars(s) + spec_enc_char(c));
    }
}

// ---------------------------------------------------------------------------
// Inversion lemmas: a decoder applied where the matching encoder wrote
// recovers the value and stops just past it.
// ---------------------------------------------------------------------------
pub proof fn lemma_dec_u32_of_enc(d: Seq<u8>, i: int, v: u32)
    requires
        0 <= i,
        i + 4 <= d.len(),
        d.subrange(i, i + 4) == spec_enc_u32(v),
    ensures
        spec_dec_u32(d, i) == Some((v, i + 4)),
{
    lemma_auto_spec_u32_to_from_le_bytes();
    assert(spec_u32_to_le_bytes(v).len() == 4);
}

pub proof fn lemma_dec_u64_of_enc(d: Seq<u8>, i: int, v: u64)
    requires
        0 <= i,
        i + 8 <= d.len(),
        d.subrange(i, i + 8) == spec_enc_u64(v),
    ensures
        spec_dec_u64(d, i) == Some((v, i + 8)),
{
    lemma_auto_spec_u64_to_from_le_bytes();
    assert(spec_u64_to_le_bytes(v).len() == 8);
}

pub proof fn lemma_dec_char_of_enc(d: Seq<u8>, i: int, c: char)
    requires
        0 <= i,
        i + 4 <= d.len(),
        d.subrange(i, i + 4) == spec_enc_char(c),
    ensures
        spec_dec_char(d, i) == Some((c, i + 4)),
{
    lemma_dec_u32_of_enc(d, i, c as u32);
}

pub proof fn lemma_dec_chars_of_enc(d: Seq<u8>, i: int, s: Seq<char>)
    requires
        0 <= i,
        i + 4 * s.len() <= d.len(),
        d.subrange(i, i + 4 * s.len()) == spec_enc_chars(s),
    ensures
        spec_dec_chars(d, i, s.len() as int) == Some((s, i + 4 * s.len())),
    decreases s.len(),
{
    if s.len() == 0 {
        assert(spec_dec_chars(d, i, 0) == Some((Seq::<char>::empty(), i)));
        assert(s =~= Seq::<char>::empty());
    } else {
        lemma_enc_chars_len(s.drop_first());
        lemma_auto_spec_u32_to_from_le_bytes();
        assert(d.subrange(i, i + 4) =~= spec_enc_char(s[0])) by {
            assert forall|k: int| 0 <= k < 4 implies #[trigger] d.subrange(i, i + 4)[k]
                == spec_enc_char(s[0])[k] by {
                assert(d.subrange(i, i + 4 * s.len())[k] == spec_enc_chars(s)[k]);
            }
        }
        lemma_dec_char_of_enc(d, i, s[0]);
        assert(d.subrange(i + 4, i + 4 + 4 * s.drop_first().len()) =~= spec_enc_chars(
            s.drop_first(),
        )) by {
            assert forall|k: int| 0 <= k < 4 * s.drop_first().len() implies #[trigger] d.subrange(
                i + 4,
                i + 4 + 4 * s.drop_first().len(),
            )[k] == spec_enc_chars(s.drop_first())[k] by {
                assert(d.subrange(i, i + 4 * s.len())[k + 4] == spec_enc_chars(s)[k + 4]);
            }
        }
        lemma_dec_chars_of_enc(d, i + 4, s.drop_first());
        assert(seq![s[0]] + s.drop_first() =~= s);
    }
}

pub proof fn lemma_dec_str_of_enc(d: Seq<u8>, i: int, s: Seq<char>)
    requires
        0 <= i,
        s.len() <= u64::MAX,
        i + 8 + 4 * s.len() <= d.len(),
        d.subrange(i, i + 8 + 4 * s.len()) == spec_enc_str(s),
    ensures
        spec_dec_str(d, i) == Some((s, i + 8 + 4 * s.len())),
{
    lemma_auto_spec_u64_to_from_le_bytes();
    lemma_enc_chars_len(s);
    assert(d.subrange(i, i + 8) =~= spec_enc_u64(s.len() as u64)) by {
        assert forall|k: int| 0 <= k < 8 implies #[trigger] d.subrange(i, i + 8)[k]
            == spec_enc_u64(s.len() as u64)[k] by {
            assert(d.subrange(i, i + 8 + 4 * s.len())[k] == spec_enc_str(s)[k]);
        }
    }
    lemma_dec_u64_of_enc(d, i, s.len() as u64);
    assert(d.subrange(i + 8, i + 8 + 4 * s.len()) =~= spec_enc_chars(s)) by {
        assert forall|k: int| 0 <= k < 4 * s.len() implies #[trigger] d.subrange(
            i + 8,
            i + 8 + 4 * s.len(),
        )[k] == spec_enc_chars(s)[k] by {
            assert(d.subrange(i, i + 8 + 4 * s.len())[k + 8] == spec_enc_str(s)[k + 8]);
        }
    }
    lemma_dec_chars_of_enc(d, i + 8, s);
}

/// Splitting a buffer region known to hold a concatenation: each part is
/// the matching subrange.
pub proof fn lemma_subrange_of_concat(d: Seq<u8>, i: int, a: Seq<u8>, b: Seq<u8>)
    requires
        0 <= i,
        i + a.len() + b.len() <= d.len(),
        d.subrange(i, i + a.len() + b.len()) == a + b,
    ensures
        d.subrange(i, i + a.len()) == a,
        d.subrange(i + a.len(), i + a.len() + b.len()) == b,
{
    assert(d.subrange(i, i + a.len()) =~= a) by {
        assert forall|k: int| 0 <= k < a.len() implies #[trigger] d.subrange(i, i + a.len())[k]
            == a[k] by {
            assert(d.subrange(i, i + a.len() + b.len())[k] == (a + b)[k]);
        }
    }
    assert(d.subrange(i + a.len(), i + a.len() + b.len()) =~= b) by {
        assert forall|k: int| 0 <= k < b.len() implies #[trigger] d.subrange(
            i + a.len(),
            i + a.len() + b.len(),
        )[k] == b[k] by {
            assert(d.subrange(i + a.len(), i + a.len() + b.len())[k] == d[i + a.len() + k]);
            assert(d.subrange(i, i + a.len() + b.len())[k + a.len()] == d[i + a.len() + k]);
            assert((a + b)[k + a.len()] == b[k]);
            assert(d.subrange(i, i + a.len() + b.len())[k + a.len()] == (a + b)[k + a.len()]);
        }
    }
}

/// Splitting a character-sequence decode: decoding `count` characters is
/// decoding the first `k`, then the remaining `count - k` from where the
/// first part stopped.
pub proof fn lemma_dec_chars_split(d: Seq<u8>, i: int, k: int, count: int)
    requires
        0 <= k <= count,
    ensures
        spec_dec_chars(d, i, count) == match spec_dec_chars(d, i, k) {
            None => None::<(Seq<char>, int)>,
            Some((p, m)) => match spec_dec_chars(d, m, count - k) {
                None => None,
                Some((rest, e)) => Some((p + rest, e)),
            },
        },
    decreases k,
{
    if k == 0 {
        assert(spec_dec_chars(d, i, 0) == Some((Seq::<char>::empty(), i)));
        if spec_dec_chars(d, i, count) is Some {
            let (s, e) = spec_dec_chars(d, i, count)->Some_0;
            assert(Seq::<char>::empty() + s =~= s);
        }
    } else {
        match spec_dec_char(d, i) {
            None => {
            },
            Some((c, j)) => {
                lemma_dec_chars_split(d, j, k - 1, count - 1);
                match spec_dec_chars(d, j, k - 1) {
                    None => {
                    },
                    Some((p, m)) => {
                        match spec_dec_chars(d, m, count - k) {
                            None => {
                            },
                            Some((rest, e)) => {
                                assert(seq![c] + (p + rest) =~= (seq![c] + p) + rest);
                            },
                        }
                    },
                }
            },
        }
    }
}

// ---------------------------------------------------------------------------
// Executable encoders. Each appends its encoding to `out`.
// ---------------------------------------------------------------------------
pub fn enc_u32(out: &mut Vec<u8>, v: u32)
    ensures
        final(out)@ == old(out)@ + spec_enc_u32(v),
{
    let b = u32_to_le_bytes(v);
    out.extend_from_slice(b.as_slice());
}

pub fn enc_u64(out: &mut Vec<u8>, v: u64)
    ensures
        final(out)@ == old(out)@ + spec_enc_u64(v),
{
    let b = u64_to_le_bytes(v);
    out.extend_from_slice(b.as_slice());
}

pub fn enc_str(out: &mut Vec<u8>, s: &str)
    ensures
        final(out)@ == old(out)@ + spec_enc_str(s@),
{
    let n = s.unicode_len();
    enc_u64(out, n as u64);
    let mut i: usize = 0;
    while i < n
        invariant
            i <= n,
            n == s@.len(),
            out@ == old(out)@ + spec_enc_u64(n as u64) + spec_enc_chars(s@.take(i as int)),
        decreases n - i,
    {
        let c = s.get_char(i);
        enc_u32(out, c as u32);
        proof {
            assert(s@.take(i + 1 as int) =~= s@.take(i as int).push(s@[i as int]));
            lemma_enc_chars_push(s@.take(i as int), s@[i as int]);
        }
        i = i + 1;
    }
    proof {
        assert(s@.take(n as int) =~= s@);
    }
}

// ---------------------------------------------------------------------------
// Executable decoders. Each agrees exactly with its spec-level decoder.
// ---------------------------------------------------------------------------
pub fn dec_u32(d: &[u8], i: usize) -> (r: Option<(u32, usize)>)
    ensures
        match r {
            Some((v, j)) => spec_dec_u32(d@, i as int) == Some((v, j as int)),
            None => spec_dec_u32(d@, i as int) is None,
        },
{
    if d.len() >= 4 && i <= d.len() - 4 {
        let v = u32_from_le_bytes(slice_subrange(d, i, i + 4));
        Some((v, i + 4))
    } else {
        None
    }
}

pub fn dec_u64(d: &[u8], i: usize) -> (r: Option<(u64, usize)>)
    ensures
        match r {
            Some((v, j)) => spec_dec_u64(d@, i as int) == Some((v, j as int)),
            None => spec_dec_u64(d@, i as int) is None,
        },
{
    if d.len() >= 8 && i <= d.len() - 8 {
        let v = u64_from_le_bytes(slice_subrange(d, i, i + 8));
        Some((v, i + 8))
    } else {
        None
    }
}

pub fn dec_char(d: &[u8], i: usize) -> (r: Option<(char, usize)>)
    ensures
        match r {
            Some((c, j)) => spec_dec_char(d@, i as int) == Some((c, j as int)),
            None => spec_dec_char(d@, i as int) is None,
        },
{
    match dec_u32(d, i) {
        None => None,
        Some((v, j)) => match char::from_u32(v) {
            None => None,
            Some(c) => Some((c, j)),
        },
    }
}

pub fn dec_str(d: &[u8], i: usize) -> (r: Option<(String, usize)>)
    ensures
        match r {
            Some((s, j)) => spec_dec_str(d@, i as int) == Some((s@, j as int)),
            None => spec_dec_str(d@, i as int) is None,
        },
{
    let (n, start) = match dec_u64(d, i) {
        None => {
            return None;
        },
        Some(p) => p,
    };
    let mut s = String::new();
    let mut k: u64 = 0;
    let mut cur: usize = start;
    while k < n
        invariant
            k <= n,
            spec_dec_u64(d@, i as int) == Some((n, start as int)),
            spec_dec_chars(d@, start as int, k as int) == Some((s@, cur as int)),
        decreases n - k,
    {
        let ghost pre = s@;
        match dec_char(d, cur) {
            None => {
                proof {
                    lemma_dec_chars_split(d@, start as int, k as int, n as int);
                    assert(spec_dec_chars(d@, cur as int, n - k) is None);
                }
                return None;
            },
            Some((c, j)) => {
                s.push(c);
                proof {
                    assert(spec_dec_chars(d@, j as int, 0) == Some(
                        (Seq::<char>::empty(), j as int),
                    ));
                    assert(seq![c] + Seq::<char>::empty() =~= seq![c]);
                    assert(spec_dec_chars(d@, cur as int, 1) == Some((seq![c], j as int)));
                    lemma_dec_chars_split(d@, start as int, k as int, k + 1);
                    assert(pre + seq![c] =~= pre.push(c));
                }
                cur = j;
            },
        }
        k = k + 1;
    }
    Some((s, cur))
}

} // verus!
