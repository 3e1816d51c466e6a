//! The dictionary codec.
//!
//! Tokens are ranked by descending frequency (ties by first occurrence) and
//! token `i` of that ranking gets code `i`. Payload, integers little-endian:
//! the dictionary size (4 bytes); per entry the token's UTF-8 length (4
//! bytes), its bytes and its code (4 bytes); the token count (4 bytes); then
//! one variable-length code per token:
//! - below 128: one byte, high bit clear;
//! - below 16384: low 7 bits with the high bit set, then the rest (high bit clear);
//! - otherwise: low 7 bits with the high bit set, the next 7 bits with the high
//!   bit set, then the remaining bits as two bytes.
//!
//! A decoder reads the high bits of the first two bytes to tell the three
//! forms apart. The payload holds its own dictionary, so any compressor can
//! decode it.
use vstd::prelude::*;
use vstd::bytes::{spec_u32_to_le_bytes, spec_u32_from_le_bytes, u32_to_le_bytes, u32_from_le_bytes, lemma_auto_spec_u32_to_from_le_bytes};
use vstd::slice::slice_subrange;
use vstd::utf8::{encode_utf8, decode_utf8, valid_utf8};
use crate::error::CodecError;
use crate::frequency::{texts, distinct, occurrences, lemma_distinct, position_of, FrequencyTable};
use crate::bits::append;

verus! {

/// Codes are below this bound, so that the longest form holds them.
pub const MAX_CODES: usize = 1073741824;

/// Largest value of a four-byte length or count.
pub const U32_LIMIT: usize = 4294967295;

/// Four little-endian bytes of `n`.
pub open spec fn le32(n: int) -> Seq<u8> {
    spec_u32_to_le_bytes(n as u32)
}

/// The variable-length form of code `c`.
pub open spec fn varcode(c: int) -> Seq<u8> {
    if c < 128 {
        seq![c as u8]
    } else if c < 16384 {
        seq![(128 + c % 128) as u8, (c / 128) as u8]
    } else {
        seq![(128 + c % 128) as u8, (128 + (c / 128) % 128) as u8, ((c / 128 / 128) % 256) as u8, (c / 128 / 128 / 256) as u8]
    }
}

/// One dictionary entry: the token's byte length, its bytes and its code.
pub open spec fn entry_bytes(t: Seq<char>, code: int) -> Seq<u8> {
    le32(encode_utf8(t).len() as int) + encode_utf8(t) + le32(code)
}

/// The entries of dictionary `m`, token `i` with code `i`.
pub open spec fn entries_bytes(m: Seq<Seq<char>>) -> Seq<u8>
    decreases m.len(),
{
    if m.len() == 0 {
        Seq::empty()
    } else {
        entries_bytes(m.drop_last()) + entry_bytes(m.last(), m.len() - 1)
    }
}

/// The codes of `ts` under dictionary `m`.
pub open spec fn codes_bytes(m: Seq<Seq<char>>, ts: Seq<Seq<char>>) -> Seq<u8>
    decreases ts.len(),
{
    if ts.len() == 0 {
        Seq::empty()
    } else {
        codes_bytes(m, ts.drop_last()) + varcode(m.index_of(ts.last()))
    }
}

/// The payload for `ts` under dictionary `m`.
pub open spec fn encoded(m: Seq<Seq<char>>, ts: Seq<Seq<char>>) -> Seq<u8> {
    le32(m.len() as int) + entries_bytes(m) + le32(ts.len() as int) + codes_bytes(m, ts)
}

/// The four-byte integer at `pos`.
pub open spec fn read_u32(data: Seq<u8>, pos: int) -> Option<u32> {
    if 0 <= pos && pos + 4 <= data.len() {
        Some(spec_u32_from_le_bytes(data.subrange(pos, pos + 4)))
    } else {
        None
    }
}

/// The entry at `pos` (token and code) and the position after it.
pub open spec fn read_entry(data: Seq<u8>, pos: int) -> Option<((Seq<char>, u32), int)> {
    match read_u32(data, pos) {
        None => None,
        Some(n) => {
            let start = pos + 4;
            let end = start + n;
            if end > data.len() || !valid_utf8(data.subrange(start, end)) {
                None
            } else {
                match read_u32(data, end) {
                    None => None,
                    Some(c) => Some(((decode_utf8(data.subrange(start, end)), c), end + 4)),
                }
            }
        },
    }
}

/// The first `k` entries, read from position 4 on, and the position after them.
pub open spec fn read_entries(data: Seq<u8>, k: nat) -> Option<(Seq<(Seq<char>, u32)>, int)>
    decreases k,
{
    if k == 0 {
        Some((Seq::empty(), 4))
    } else {
        match read_entries(data, (k - 1) as nat) {
            None => None,
            Some((es, pos)) => match read_entry(data, pos) {
                None => None,
                Some((e, next)) => Some((es.push(e), next)),
            },
        }
    }
}

/// The variable-length code at `pos` and the position after it.
pub open spec fn read_varcode(data: Seq<u8>, pos: int) -> Option<(int, int)> {
    if pos < 0 || pos >= data.len() {
        None
    } else if data[pos] < 128 {
        Some((data[pos] as int, pos + 1))
    } else if pos + 1 >= data.len() {
        None
    } else if data[pos + 1] < 128 {
        Some(((data[pos] - 128) + 128 * data[pos + 1], pos + 2))
    } else if pos + 3 >= data.len() {
        None
    } else {
        Some((
            (data[pos] - 128) + 128 * (data[pos + 1] - 128) + 16384 * data[pos + 2] + 4194304 * data[pos + 3],
            pos + 4,
        ))
    }
}

/// The token of the last entry with code `c`.
pub open spec fn lookup(es: Seq<(Seq<char>, u32)>, c: int) -> Option<Seq<char>>
    decreases es.len(),
{
    if es.len() == 0 {
        None
    } else if es.last().1 == c {
        Some(es.last().0)
    } else {
        lookup(es.drop_last(), c)
    }
}

/// The first `k` tokens of the code section from `start` on, and the position after them.
pub open spec fn read_codes(data: Seq<u8>, es: Seq<(Seq<char>, u32)>, start: int, k: nat) -> Option<(Seq<Seq<char>>, int)>
    decreases k,
{
    if k == 0 {
        Some((Seq::empty(), start))
    } else {
        match read_codes(data, es, start, (k - 1) as nat) {
            None => None,
            Some((ts, pos)) => match read_varcode(data, pos) {
                None => None,
                Some((c, next)) => match lookup(es, c) {
                    None => None,
                    Some(t) => Some((ts.push(t), next)),
                },
            },
        }
    }
}

/// The tokens that a payload holds, if it can be read.
pub open spec fn decoded(data: Seq<u8>) -> Option<Seq<Seq<char>>> {
    match read_u32(data, 0) {
        None => None,
        Some(size) => match read_entries(data, size as nat) {
            None => None,
            Some((es, pos)) => match read_u32(data, pos) {
                None => None,
                Some(count) => match read_codes(data, es, pos + 4, count as nat) {
                    None => None,
                    Some((ts, _)) => Some(ts),
                },
            },
        },
    }
}

/// `x` comes before `y` in the ranking: more frequent, or as frequent and first seen earlier.
pub open spec fn ranks_before(counts: Seq<usize>, x: int, y: int) -> bool {
    counts[x] > counts[y] || (counts[x] == counts[y] && x < y)
}

/// `r` lists `0..counts.len()` ordered by `ranks_before`.
pub open spec fn is_ranking(counts: Seq<usize>, r: Seq<usize>) -> bool {
    &&& r.len() == counts.len()
    &&& forall|i: usize| i < counts.len() ==> #[trigger] r.contains(i)
    &&& forall|p: int| 0 <= p < r.len() ==> (#[trigger] r[p]) < counts.len()
    &&& forall|p: int, q: int| 0 <= p < q < r.len() ==> ranks_before(counts, #[trigger] r[p] as int, #[trigger] r[q] as int)
}

/// Orders the indices of `counts` by descending count, ties by index.
pub fn rank_by_count(counts: &Vec<usize>) -> (r: Vec<usize>)
    ensures
        is_ranking(counts@, r@),
{
    let d: usize = counts.len();
    let mut r: Vec<usize> = Vec::new();
    let mut k: usize = 0;
    while k < d
        invariant
            d == counts@.len(),
            k <= d,
            r@.len() == k,
            forall|i: usize| i < k ==> #[trigger] r@.contains(i),
            forall|p: int| 0 <= p < r@.len() ==> (#[trigger] r@[p]) < k,
            forall|p: int, q: int| 0 <= p < q < r@.len() ==> ranks_before(counts@, #[trigger] r@[p] as int, #[trigger] r@[q] as int),
        decreases d - k,
    {
        let mut p: usize = 0;
        while p < r.len() && counts[r[p]] >= counts[k]
            invariant
                d == counts@.len(),
                k < d,
                p <= r@.len(),
                forall|q: int| 0 <= q < r@.len() ==> (#[trigger] r@[q]) < k,
                forall|q: int| 0 <= q < p ==> counts@[#[trigger] r@[q] as int] >= counts@[k as int],
            decreases r@.len() - p,
        {
            p = p + 1;
        }
        let ghost r0 = r@;
        r.insert(p, k);
        proof {
            assert forall|q: int| 0 <= q < r@.len() implies (#[trigger] r@[q]) < k + 1 by {
                if q < p {
                    assert(r@[q] == r0[q]);
                } else if q > p {
                    assert(r@[q] == r0[q - 1]);
                }
            }
            assert forall|i: usize| i < k + 1 implies #[trigger] r@.contains(i) by {
                if i == k {
                    assert(r@[p as int] == k);
                } else {
                    assert(r0.contains(i));
                    let q = choose|q: int| 0 <= q < r0.len() && r0[q] == i;
                    if q < p {
                        assert(r@[q] == i);
                    } else {
                        assert(r@[q + 1] == i);
                    }
                }
            }
            assert forall|a: int, b: int| 0 <= a < b < r@.len() implies ranks_before(counts@, #[trigger] r@[a] as int, #[trigger] r@[b] as int) by {
                if b < p {
                    assert(r@[a] == r0[a] && r@[b] == r0[b]);
                } else if b == p {
                    assert(r@[a] == r0[a]);
                } else if a == p {
                    assert(r@[b] == r0[b - 1]);
                    if p < r0.len() {
                        assert(counts@[r0[p as int] as int] < counts@[k as int]);
                        if b - 1 > p {
                            assert(ranks_before(counts@, r0[p as int] as int, r0[b - 1] as int));
                        }
                    }
                } else if a < p {
                    assert(r@[a] == r0[a] && r@[b] == r0[b - 1]);
                } else {
                    assert(r@[a] == r0[a - 1] && r@[b] == r0[b - 1]);
                }
            }
        }
        k = k + 1;
    }
    r
}

/// Relies on std's `String::from_utf8`: it succeeds exactly on valid UTF-8,
/// and the string it returns holds the characters that the bytes encode.
#[verifier::external_body]
fn string_from_utf8(bytes: &[u8]) -> (r: Option<String>)
    ensures
        match r {
            Some(s) => valid_utf8(bytes@) && s@ == decode_utf8(bytes@),
            None => !valid_utf8(bytes@),
        },
{
    String::from_utf8(bytes.to_vec()).ok()
}

/// The four-byte integer at `pos`, if the bytes are there.
pub fn read_u32_at(data: &[u8], pos: usize) -> (r: Option<u32>)
    ensures
        r == read_u32(data@, pos as int),
{
    if pos > data.len() || data.len() - pos < 4 {
        return None;
    }
    let b = slice_subrange(data, pos, pos + 4);
    Some(u32_from_le_bytes(b))
}

/// The variable-length code at `pos` and the position after it.
fn read_varcode_at(data: &[u8], pos: usize) -> (r: Option<(u32, usize)>)
    ensures
        match r {
            Some((c, next)) => read_varcode(data@, pos as int) == Some((c as int, next as int)),
            None => read_varcode(data@, pos as int) is None,
        },
{
    let n: usize = data.len();
    if pos >= n {
        return None;
    }
    let b1: u8 = data[pos];
    if b1 < 128 {
        return Some((b1 as u32, pos + 1));
    }
    if pos + 1 >= n {
        return None;
    }
    let b2: u8 = data[pos + 1];
    if b2 < 128 {
        return Some((((b1 - 128) as u32) + 128 * (b2 as u32), pos + 2));
    }
    if n - pos <= 3 {
        return None;
    }
    let b3: u8 = data[pos + 2];
    let b4: u8 = data[pos + 3];
    Some((
        ((b1 - 128) as u32) + 128 * ((b2 - 128) as u32) + 16384 * (b3 as u32) + 4194304 * (b4 as u32),
        pos + 4,
    ))
}

/// Appends the variable-length form of `c`.
pub fn write_varcode(out: &mut Vec<u8>, c: u32)
    requires
        c < MAX_CODES,
    ensures
        final(out)@ == old(out)@ + varcode(c as int),
{
    if c < 128 {
        out.push(c as u8);
    } else if c < 16384 {
        out.push((128 + c % 128) as u8);
        out.push((c / 128) as u8);
    } else {
        out.push((128 + c % 128) as u8);
        out.push((128 + (c / 128) % 128) as u8);
        out.push(((c / 128 / 128) % 256) as u8);
        out.push((c / 128 / 128 / 256) as u8);
    }
    assert(final(out)@ =~= old(out)@ + varcode(c as int));
}

/// The token of the last entry with code `c`.
fn lookup_code(names: &Vec<String>, codes: &Vec<u32>, c: u32) -> (r: Option<usize>)
    requires
        names@.len() == codes@.len(),
    ensures
        match r {
            Some(k) => k < names@.len() && lookup(entry_view(names@, codes@), c as int) == Some(names@[k as int]@),
            None => lookup(entry_view(names@, codes@), c as int) is None,
        },
{
    let ghost es = entry_view(names@, codes@);
    let mut k: usize = codes.len();
    assert(es.take(k as int) =~= es);
    while k > 0
        invariant
            names@.len() == codes@.len(),
            es == entry_view(names@, codes@),
            k <= codes@.len(),
            lookup(es, c as int) == lookup(es.take(k as int), c as int),
        decreases k,
    {
        let ghost t = es.take(k as int);
        assert(t.drop_last() =~= es.take(k - 1));
        if codes[k - 1] == c {
            return Some(k - 1);
        }
        k = k - 1;
    }
    None
}

/// Entries as (token, code) pairs.
pub open spec fn entry_view(names: Seq<String>, codes: Seq<u32>) -> Seq<(Seq<char>, u32)> {
    Seq::new(names.len(), |i: int| (names[i]@, codes[i]))
}

/// Every token of `ts` is one of `m`.
pub open spec fn all_known(m: Seq<Seq<char>>, ts: Seq<Seq<char>>) -> bool {
    forall|k: int| 0 <= k < ts.len() ==> m.contains(#[trigger] ts[k])
}

/// `m` can serve as a dictionary: distinct tokens, codes in range, each
/// token's byte length fits four bytes.
pub open spec fn dictionary_ok(m: Seq<Seq<char>>) -> bool {
    &&& m.no_duplicates()
    &&& m.len() <= MAX_CODES
    &&& forall|i: int| 0 <= i < m.len() ==> encode_utf8(#[trigger] m[i]).len() <= U32_LIMIT
}

/// A dictionary can be built from corpus `c`.
pub open spec fn buildable(c: Seq<Seq<char>>) -> bool {
    &&& c.len() > 0
    &&& distinct(c).len() <= MAX_CODES
    &&& forall|k: int| 0 <= k < c.len() ==> encode_utf8(#[trigger] c[k]).len() <= U32_LIMIT
}

/// `m` lists the distinct tokens of `c` by descending number of occurrences,
/// tokens seen as often in order of first occurrence.
pub open spec fn ranked_by_frequency(c: Seq<Seq<char>>, m: Seq<Seq<char>>) -> bool {
    &&& m.len() == distinct(c).len()
    &&& m.no_duplicates()
    &&& forall|t: Seq<char>| #[trigger] m.contains(t) <==> c.contains(t)
    &&& forall|p: int, q: int|
        0 <= p < q < m.len() ==> occurrences(c, #[trigger] m[p]) > occurrences(c, #[trigger] m[q]) || (
        occurrences(c, m[p]) == occurrences(c, m[q]) && distinct(c).index_of(m[p]) < distinct(
            c,
        ).index_of(m[q]))
}

/// Dictionary compressor: tokens ranked by frequency, token `i` with code `i`.
pub struct DictionaryCompressor {
    tokens: Vec<String>,
}

impl DictionaryCompressor {
    /// The dictionary, in code order.
    pub closed spec fn model_tokens(&self) -> Seq<Seq<char>> {
        texts(self.tokens@)
    }

    #[verifier::type_invariant]
    closed spec fn inv(&self) -> bool {
        dictionary_ok(self.model_tokens())
    }

    /// A compressor with an empty dictionary.
    pub fn new() -> (r: DictionaryCompressor)
        ensures
            r.model_tokens().len() == 0,
    {
        let r = DictionaryCompressor { tokens: Vec::new() };
        assert(r.model_tokens() =~= Seq::empty());
        r
    }

    /// The name of this compression strategy.
    pub fn algorithm_name(&self) -> (r: &'static str)
        ensures
            r@ == "dictionary"@,
    {
        "dictionary"
    }

    /// The dictionary meets its invariant.
    pub fn model_ok(&self)
        ensures
            dictionary_ok(self.model_tokens()),
    {
        proof { use_type_invariant(self); }
    }

    /// The code of `token`: its rank in the dictionary, if it is there.
    pub fn code_for(&self, token: &String) -> (r: Option<u32>)
        ensures
            match r {
                Some(c) => self.model_tokens().contains(token@) && c as int == self.model_tokens().index_of(token@),
                None => !self.model_tokens().contains(token@),
            },
    {
        proof { use_type_invariant(self); }
        match position_of(&self.tokens, token) {
            Some(k) => {
                assert(self.model_tokens()[k as int] == token@);
                assert(self.model_tokens().contains(token@));
                Some(k as u32)
            },
            None => {
                assert(!self.model_tokens().contains(token@)) by {
                    if self.model_tokens().contains(token@) {
                        let q = choose|q: int| 0 <= q < self.model_tokens().len() && self.model_tokens()[q] == token@;
                        assert(self.tokens@[q]@ == token@);
                    }
                }
                None
            },
        }
    }

    /// Ranks the distinct tokens of `corpus`; fails on an empty corpus, on
    /// more distinct tokens than codes, or on a token too long to record.
    fn build(corpus: &[String]) -> (r: Result<DictionaryCompressor, CodecError>)
        ensures
            buildable(texts(corpus@)) <==> r is Ok,
            r is Err ==> r == Err::<DictionaryCompressor, CodecError>(CodecError::ModelConstruction),
            r is Ok ==> ranked_by_frequency(texts(corpus@), r->Ok_0.model_tokens()),
    {
        let ghost c = texts(corpus@);
        if corpus.len() == 0 {
            return Err(CodecError::ModelConstruction);
        }
        let table = FrequencyTable::count(corpus);
        proof { lemma_distinct(c); }
        let ghost dd = distinct(c);
        if table.tokens.len() > MAX_CODES {
            return Err(CodecError::ModelConstruction);
        }
        let mut i: usize = 0;
        while i < table.tokens.len()
            invariant
                texts(table.tokens@) == dd,
                c == texts(corpus@),
                dd == distinct(c),
                forall|t: Seq<char>| distinct(c).contains(t) <==> c.contains(t),
                i <= dd.len(),
                forall|q: int| 0 <= q < i ==> encode_utf8(#[trigger] dd[q]).len() <= U32_LIMIT,
            decreases dd.len() - i,
        {
            assert(dd[i as int] == table.tokens@[i as int]@);
            let tb: &[u8] = table.tokens[i].as_str().as_bytes();
            assert(tb@ == encode_utf8(dd[i as int]));
            if tb.len() > U32_LIMIT {
                proof {
                    assert(dd[i as int] == table.tokens@[i as int]@);
                    assert(c.contains(dd[i as int]));
                    let k = choose|k: int| 0 <= k < c.len() && c[k] == dd[i as int];
                    assert(encode_utf8(c[k]).len() > U32_LIMIT);
                    assert(!buildable(c));
                }
                return Err(CodecError::ModelConstruction);
            }
            i = i + 1;
        }
        proof {
            assert forall|k: int| 0 <= k < c.len() implies encode_utf8(#[trigger] c[k]).len() <= U32_LIMIT by {
                assert(c.contains(c[k]));
                assert(dd.contains(c[k]));
                let q = choose|q: int| 0 <= q < dd.len() && dd[q] == c[k];
            }
        }
        let r = rank_by_count(&table.counts);
        let mut tokens: Vec<String> = Vec::new();
        let mut p: usize = 0;
        while p < r.len()
            invariant
                texts(table.tokens@) == dd,
                table.counts@.len() == dd.len(),
                is_ranking(table.counts@, r@),
                p <= r@.len(),
                tokens@.len() == p,
                forall|q: int| 0 <= q < p ==> (#[trigger] tokens@[q])@ == dd[r@[q] as int],
            decreases r@.len() - p,
        {
            tokens.push(table.tokens[r[p]].clone());
            p = p + 1;
        }
        let ghost m = texts(tokens@);
        proof {
            assert forall|p: int| 0 <= p < m.len() implies #[trigger] m[p] == dd[r@[p] as int] && dd.index_of(m[p]) == r@[p] as int by {
                assert(dd.contains(dd[r@[p] as int]));
            }
            assert forall|p: int, q: int| 0 <= p < m.len() && 0 <= q < m.len() && p != q implies m[p] != m[q] by {
                if p < q {
                    assert(ranks_before(table.counts@, r@[p] as int, r@[q] as int));
                } else {
                    assert(ranks_before(table.counts@, r@[q] as int, r@[p] as int));
                }
                assert(m[p] == dd[r@[p] as int]);
                assert(m[q] == dd[r@[q] as int]);
            }
            assert forall|t: Seq<char>| #[trigger] m.contains(t) <==> c.contains(t) by {
                if m.contains(t) {
                    let p = choose|p: int| 0 <= p < m.len() && m[p] == t;
                    assert(dd.contains(dd[r@[p] as int]));
                }
                if c.contains(t) {
                    assert(dd.contains(t));
                    let i = choose|i: int| 0 <= i < dd.len() && dd[i] == t;
                    assert(r@.contains(i as usize));
                    let p = choose|p: int| 0 <= p < r@.len() && r@[p] == i as usize;
                    assert(m[p] == t);
                }
            }
            assert forall|p: int, q: int| 0 <= p < q < m.len() implies occurrences(c, #[trigger] m[p]) > occurrences(c, #[trigger] m[q]) || (
                occurrences(c, m[p]) == occurrences(c, m[q]) && dd.index_of(m[p]) < dd.index_of(m[q])) by {
                assert(ranks_before(table.counts@, r@[p] as int, r@[q] as int));
                assert(table.counts@[r@[p] as int] as nat == occurrences(c, table.tokens@[r@[p] as int]@));
                assert(table.counts@[r@[q] as int] as nat == occurrences(c, table.tokens@[r@[q] as int]@));
                assert(texts(table.tokens@)[r@[p] as int] == table.tokens@[r@[p] as int]@);
                assert(texts(table.tokens@)[r@[q] as int] == table.tokens@[r@[q] as int]@);
            }
            assert forall|i: int| 0 <= i < m.len() implies encode_utf8(#[trigger] m[i]).len() <= U32_LIMIT by {
                assert(m.contains(m[i]));
                let k = choose|k: int| 0 <= k < c.len() && c[k] == m[i];
            }
        }
        Ok(DictionaryCompressor { tokens })
    }

    /// Builds the dictionary from `corpus`, replacing any earlier one. On
    /// failure the dictionary is left as it was.
    pub fn build_from_corpus(&mut self, corpus: &[String]) -> (r: Result<(), CodecError>)
        ensures
            buildable(texts(corpus@)) <==> r is Ok,
            r is Err ==> r == Err::<(), CodecError>(CodecError::ModelConstruction) && *final(self)
                == *old(self),
            r is Ok ==> ranked_by_frequency(texts(corpus@), final(self).model_tokens()),
    {
        match Self::build(corpus) {
            Ok(m) => {
                *self = m;
                Ok(())
            },
            Err(e) => Err(e),
        }
    }

    /// Encodes `tokens` with this dictionary.
    fn encode(&self, tokens: &[String]) -> (r: Result<Vec<u8>, CodecError>)
        requires
            tokens@.len() <= U32_LIMIT,
        ensures
            all_known(self.model_tokens(), texts(tokens@)) <==> r is Ok,
            r is Ok ==> r->Ok_0@ == encoded(self.model_tokens(), texts(tokens@)),
            r is Err ==> r == Err::<Vec<u8>, CodecError>(CodecError::UnknownToken),
    {
        proof { use_type_invariant(self); }
        let ghost m = self.model_tokens();
        let ghost ts = texts(tokens@);
        let d: usize = self.tokens.len();
        let mut out = u32_to_le_bytes(d as u32);
        let mut i: usize = 0;
        assert(m.take(0) =~= Seq::<Seq<char>>::empty());
        assert(out@ =~= le32(d as int) + entries_bytes(m.take(0)));
        while i < d
            invariant
                dictionary_ok(m),
                m == self.model_tokens(),
                d == m.len(),
                i <= d,
                out@ == le32(d as int) + entries_bytes(m.take(i as int)),
            decreases d - i,
        {
            let s: &str = self.tokens[i].as_str();
            let b: &[u8] = s.as_bytes();
            assert(m[i as int] == s@);
            assert(b@ == encode_utf8(m[i as int]));
            let len_bytes = u32_to_le_bytes(b.len() as u32);
            append(&mut out, len_bytes.as_slice());
            append(&mut out, b);
            let code_bytes = u32_to_le_bytes(i as u32);
            append(&mut out, code_bytes.as_slice());
            proof {
                let next = m.take(i + 1);
                assert(next.drop_last() =~= m.take(i as int));
                assert(next.last() == m[i as int]);
                assert(out@ =~= le32(d as int) + entries_bytes(next));
            }
            i = i + 1;
        }
        assert(m.take(d as int) =~= m);
        let count_bytes = u32_to_le_bytes(tokens.len() as u32);
        append(&mut out, count_bytes.as_slice());
        let ghost head = out@;
        let mut j: usize = 0;
        assert(ts.take(0) =~= Seq::<Seq<char>>::empty());
        assert(out@ =~= head + codes_bytes(m, ts.take(0)));
        while j < tokens.len()
            invariant
                dictionary_ok(m),
                m == self.model_tokens(),
                ts == texts(tokens@),
                j <= tokens@.len(),
                all_known(m, ts.take(j as int)),
                out@ == head + codes_bytes(m, ts.take(j as int)),
            decreases tokens@.len() - j,
        {
            match position_of(&self.tokens, &tokens[j]) {
                None => {
                    assert(!all_known(m, ts)) by {
                        if all_known(m, ts) {
                            assert(m.contains(ts[j as int]));
                            let q = choose|q: int| 0 <= q < m.len() && m[q] == ts[j as int];
                            assert(self.tokens@[q]@ == m[q]);
                        }
                    }
                    return Err(CodecError::UnknownToken);
                },
                Some(k) => {
                    write_varcode(&mut out, k as u32);
                    proof {
                        let next = ts.take(j + 1);
                        assert(next.drop_last() =~= ts.take(j as int));
                        assert(m[k as int] == ts[j as int]);
                        assert(m.contains(ts[j as int]));
                        assert(m.index_of(ts[j as int]) == k as int);
                        assert(out@ =~= head + codes_bytes(m, next));
                        assert forall|q: int| 0 <= q < next.len() implies m.contains(#[trigger] next[q]) by {
                            if q == j {
                                assert(m[k as int] == next[q]);
                            } else {
                                assert(ts.take(j as int)[q] == next[q]);
                            }
                        }
                    }
                },
            }
            j = j + 1;
        }
        assert(ts.take(tokens@.len() as int) =~= ts);
        Ok(out)
    }

    /// What `compress` returns for tokens `ts`.
    pub open spec fn compress_outcome(&self, ts: Seq<Seq<char>>, r: Result<Vec<u8>, CodecError>) -> bool {
        &&& self.model_tokens().len() > 0 ==> {
            &&& all_known(self.model_tokens(), ts) <==> r is Ok
            &&& r is Ok ==> r->Ok_0@ == encoded(self.model_tokens(), ts)
            &&& r is Err ==> r == Err::<Vec<u8>, CodecError>(CodecError::UnknownToken)
        }
        &&& self.model_tokens().len() == 0 ==> {
            &&& buildable(ts) <==> r is Ok
            &&& r is Err ==> r == Err::<Vec<u8>, CodecError>(CodecError::ModelConstruction)
            &&& r is Ok ==> exists|m: Seq<Seq<char>>| {
                &&& ranked_by_frequency(ts, m)
                &&& r->Ok_0@ == #[trigger] encoded(m, ts)
            }
        }
    }

    /// What `decompress` returns for payload `data`.
    pub open spec fn decompress_outcome(&self, data: Seq<u8>, r: Result<Vec<String>, CodecError>) -> bool {
        match decoded(data) {
            Some(ts) => r is Ok && texts(r->Ok_0@) == ts,
            None => r == Err::<Vec<String>, CodecError>(CodecError::MalformedPayload),
        }
    }

    /// Compresses `tokens`. With an empty dictionary, one built from `tokens`
    /// themselves serves for this call alone.
    pub fn compress(&self, tokens: &[String]) -> (r: Result<Vec<u8>, CodecError>)
        requires
            tokens@.len() <= U32_LIMIT,
        ensures
            self.compress_outcome(texts(tokens@), r),
    {
        if self.tokens.len() > 0 {
            self.encode(tokens)
        } else {
            match Self::build(tokens) {
                Err(e) => Err(e),
                Ok(m) => {
                    proof {
                        assert forall|k: int| 0 <= k < texts(tokens@).len() implies m.model_tokens().contains(#[trigger] texts(tokens@)[k]) by {
                            assert(texts(tokens@).contains(texts(tokens@)[k]));
                        }
                    }
                    let r = m.encode(tokens);
                    proof {
                        let ghost b = r->Ok_0@;
                        assert(encoded(m.model_tokens(), texts(tokens@)) == b);
                    }
                    r
                },
            }
        }
    }

    /// Decodes a payload made by `compress`, reading the dictionary that it
    /// holds; this compressor's own dictionary plays no part.
    pub fn decompress(&self, data: &[u8]) -> (r: Result<Vec<String>, CodecError>)
        ensures
            self.decompress_outcome(data@, r),
    {
        let dl: usize = data.len();
        let size = match read_u32_at(data, 0) {
            None => return Err(CodecError::MalformedPayload),
            Some(v) => v,
        };
        let (names, codes, mut pos) = match read_entry_list(data, size) {
            None => return Err(CodecError::MalformedPayload),
            Some(t) => t,
        };
        let count = match read_u32_at(data, pos) {
            None => return Err(CodecError::MalformedPayload),
            Some(v) => v,
        };
        let ghost es = entry_view(names@, codes@);
        let ghost pos0 = pos as int;
        assert(pos + 4 <= dl);
        let start: usize = pos + 4;
        pos = start;
        let mut out: Vec<String> = Vec::new();
        let mut k: u32 = 0;
        assert(texts(out@) =~= Seq::empty());
        while k < count
            invariant
                es == entry_view(names@, codes@),
                names@.len() == codes@.len(),
                read_u32(data@, 0) == Some(size),
                read_entries(data@, size as nat) == Some((es, pos0)),
                read_u32(data@, pos0) == Some(count),
                start == pos0 + 4,
                k <= count,
                read_codes(data@, es, start as int, k as nat) == Some((texts(out@), pos as int)),
            decreases count - k,
        {
            let (c, next) = match read_varcode_at(data, pos) {
                None => {
                    proof { lemma_codes_none(data@, es, start as int, (k + 1) as nat, count as nat); }
                    return Err(CodecError::MalformedPayload);
                },
                Some(v) => v,
            };
            let q = match lookup_code(&names, &codes, c) {
                None => {
                    proof { lemma_codes_none(data@, es, start as int, (k + 1) as nat, count as nat); }
                    return Err(CodecError::MalformedPayload);
                },
                Some(q) => q,
            };
            let ghost before = texts(out@);
            out.push(names[q].clone());
            assert(texts(out@) =~= before.push(names@[q as int]@));
            pos = next;
            k = k + 1;
        }
        Ok(out)
    }
}

/// Reads `size` entries from position 4 on: their tokens, their codes and
/// the position after them.
pub fn read_entry_list(data: &[u8], size: u32) -> (r: Option<(Vec<String>, Vec<u32>, usize)>)
    ensures
        match r {
            Some((names, codes, pos)) => names@.len() == codes@.len()
                && read_entries(data@, size as nat) == Some((entry_view(names@, codes@), pos as int)),
            None => read_entries(data@, size as nat) is None,
        },
{
    let dl: usize = data.len();
    let mut names: Vec<String> = Vec::new();
    let mut codes: Vec<u32> = Vec::new();
    let mut pos: usize = 4;
    let mut e: u32 = 0;
    assert(entry_view(names@, codes@) =~= Seq::empty());
    while e < size
        invariant
            dl == data@.len(),
            e <= size,
            names@.len() == codes@.len(),
            read_entries(data@, e as nat) == Some((entry_view(names@, codes@), pos as int)),
        decreases size - e,
    {
        let n = match read_u32_at(data, pos) {
            None => {
                proof { lemma_entries_none(data@, (e + 1) as nat, size as nat); }
                return None;
            },
            Some(v) => v,
        };
        assert(pos + 4 <= dl);
        let start: usize = pos + 4;
        if n as usize > data.len() - start {
            proof { lemma_entries_none(data@, (e + 1) as nat, size as nat); }
            return None;
        }
        let end: usize = start + n as usize;
        let bytes = slice_subrange(data, start, end);
        let name = match string_from_utf8(bytes) {
            None => {
                proof { lemma_entries_none(data@, (e + 1) as nat, size as nat); }
                return None;
            },
            Some(t) => t,
        };
        let code = match read_u32_at(data, end) {
            None => {
                proof { lemma_entries_none(data@, (e + 1) as nat, size as nat); }
                return None;
            },
            Some(v) => v,
        };
        let ghost before = entry_view(names@, codes@);
        names.push(name);
        codes.push(code);
        assert(entry_view(names@, codes@) =~= before.push((decode_utf8(data@.subrange(start as int, end as int)), code)));
        pos = end + 4;
        e = e + 1;
    }
    Some((names, codes, pos))
}

/// Reading `k` entries yields `k` of them.
pub proof fn lemma_entries_len(data: Seq<u8>, k: nat)
    ensures
        read_entries(data, k) is Some ==> read_entries(data, k)->Some_0.0.len() == k,
    decreases k,
{
    if k > 0 {
        lemma_entries_len(data, (k - 1) as nat);
    }
}

/// Once reading an entry fails, reading more fails too.
proof fn lemma_entries_none(data: Seq<u8>, i: nat, n: nat)
    requires
        i <= n,
        read_entries(data, i) is None,
    ensures
        read_entries(data, n) is None,
    decreases n - i,
{
    if i < n {
        lemma_entries_none(data, i + 1, n);
    }
}

/// Once reading a code fails, reading more fails too.
proof fn lemma_codes_none(data: Seq<u8>, es: Seq<(Seq<char>, u32)>, start: int, i: nat, n: nat)
    requires
        i <= n,
        read_codes(data, es, start, i) is None,
    ensures
        read_codes(data, es, start, n) is None,
    decreases n - i,
{
    if i < n {
        lemma_codes_none(data, es, start, i + 1, n);
    }
}

/// Dictionary `m` as the entries its payload holds: token `i` with code `i`.
pub open spec fn numbered(m: Seq<Seq<char>>) -> Seq<(Seq<char>, u32)> {
    Seq::new(m.len(), |i: int| (m[i], i as u32))
}

/// Reading the variable-length form of a code gives the code back.
proof fn lemma_varcode(data: Seq<u8>, pos: int, c: int)
    requires
        0 <= c < MAX_CODES,
        0 <= pos,
        pos + varcode(c).len() <= data.len(),
        data.subrange(pos, pos + varcode(c).len()) == varcode(c),
    ensures
        read_varcode(data, pos) == Some((c, pos + varcode(c).len())),
{
    let v = varcode(c);
    assert forall|i: int| 0 <= i < v.len() implies data[pos + i] == v[i] by {
        assert(data.subrange(pos, pos + v.len())[i] == data[pos + i]);
    }
    if c >= 16384 {
        let q1 = c / 128;
        let q2 = q1 / 128;
        let q3 = q2 / 256;
        assert(c == 128 * q1 + c % 128);
        assert(q1 == 128 * q2 + q1 % 128);
        assert(q2 == 256 * q3 + q2 % 256);
        assert(q3 < 256);
        assert(data.subrange(pos, pos + v.len())[0] == data[pos]);
        assert(data.subrange(pos, pos + v.len())[1] == data[pos + 1]);
        assert(data.subrange(pos, pos + v.len())[2] == data[pos + 2]);
        assert(data.subrange(pos, pos + v.len())[3] == data[pos + 3]);
        assert(data[pos] as int == 128 + c % 128);
        assert(data[pos + 1] as int == 128 + q1 % 128);
        assert(data[pos + 2] as int == q2 % 256);
        assert(data[pos + 3] as int == q3);
        assert((data[pos] - 128) + 128 * (data[pos + 1] - 128) + 16384 * data[pos + 2] + 4194304 * data[pos + 3] == c) by (nonlinear_arith)
            requires
                c == 128 * q1 + c % 128,
                q1 == 128 * q2 + q1 % 128,
                q2 == 256 * q3 + q2 % 256,
                data[pos] as int == 128 + c % 128,
                data[pos + 1] as int == 128 + q1 % 128,
                data[pos + 2] as int == q2 % 256,
                data[pos + 3] as int == q3,
        ;
    } else if c >= 128 {
        assert(c == 128 * (c / 128) + c % 128);
        assert(data.subrange(pos, pos + v.len())[0] == data[pos]);
        assert(data.subrange(pos, pos + v.len())[1] == data[pos + 1]);
        assert(data[pos] as int == 128 + c % 128);
        assert(data[pos + 1] as int == c / 128);
    } else {
        assert(data.subrange(pos, pos + v.len())[0] == data[pos]);
        assert(data[pos] as int == c);
    }
}

/// Bytes at `pos` that equal `x` can be read piecewise.
proof fn lemma_sub(data: Seq<u8>, pos: int, x: Seq<u8>, a: int, b: int)
    requires
        0 <= pos,
        pos + x.len() <= data.len(),
        data.subrange(pos, pos + x.len()) == x,
        0 <= a <= b <= x.len(),
    ensures
        data.subrange(pos + a, pos + b) == x.subrange(a, b),
{
    assert(data.subrange(pos + a, pos + b) =~= x.subrange(a, b)) by {
        assert forall|i: int| 0 <= i < b - a implies data.subrange(pos + a, pos + b)[i] == x.subrange(a, b)[i] by {
            assert(data.subrange(pos, pos + x.len())[a + i] == data[pos + a + i]);
        }
    }
}

/// Reading an entry written at `pos` gives back its token and code.
pub proof fn lemma_read_entry(data: Seq<u8>, pos: int, t: Seq<char>, code: int)
    requires
        0 <= pos,
        0 <= code <= u32::MAX,
        encode_utf8(t).len() <= U32_LIMIT,
        pos + entry_bytes(t, code).len() <= data.len(),
        data.subrange(pos, pos + entry_bytes(t, code).len()) == entry_bytes(t, code),
    ensures
        read_entry(data, pos) == Some(((t, code as u32), pos + entry_bytes(t, code).len())),
{
    lemma_auto_spec_u32_to_from_le_bytes();
    let u = encode_utf8(t);
    let x = entry_bytes(t, code);
    let n = u.len() as int;
    assert(x.len() == 8 + n);
    lemma_sub(data, pos, x, 0, 4);
    assert(x.subrange(0, 4) =~= le32(n));
    lemma_sub(data, pos, x, 4, 4 + n);
    assert(x.subrange(4, 4 + n) =~= u);
    lemma_sub(data, pos, x, 4 + n, 8 + n);
    assert(x.subrange(4 + n, 8 + n) =~= le32(code));
    vstd::utf8::encode_utf8_valid_utf8(t);
    vstd::utf8::encode_utf8_decode_utf8(t);
}

/// The entries of the first `k` tokens start the entries of all of them.
proof fn lemma_entries_prefix(m: Seq<Seq<char>>, k: int)
    requires
        0 <= k <= m.len(),
    ensures
        entries_bytes(m.take(k)).is_prefix_of(entries_bytes(m)),
    decreases m.len(),
{
    let whole = entries_bytes(m);
    if k == m.len() {
        assert(m.take(k) =~= m);
        assert(whole.subrange(0, whole.len() as int) =~= whole);
    } else {
        let p = m.drop_last();
        assert(m.take(k) =~= p.take(k));
        lemma_entries_prefix(p, k);
        let a = entries_bytes(p.take(k));
        let b = entries_bytes(p);
        assert(a =~= whole.subrange(0, a.len() as int)) by {
            assert forall|r: int| 0 <= r < a.len() implies a[r] == whole.subrange(0, a.len() as int)[r] by {
                assert(a[r] == b.subrange(0, a.len() as int)[r]);
            }
        }
    }
}

/// The codes of the first `k` tokens start the codes of all of them.
proof fn lemma_codes_prefix(m: Seq<Seq<char>>, ts: Seq<Seq<char>>, k: int)
    requires
        0 <= k <= ts.len(),
    ensures
        codes_bytes(m, ts.take(k)).is_prefix_of(codes_bytes(m, ts)),
    decreases ts.len(),
{
    let whole = codes_bytes(m, ts);
    if k == ts.len() {
        assert(ts.take(k) =~= ts);
        assert(whole.subrange(0, whole.len() as int) =~= whole);
    } else {
        let p = ts.drop_last();
        assert(ts.take(k) =~= p.take(k));
        lemma_codes_prefix(m, p, k);
        let a = codes_bytes(m, p.take(k));
        let b = codes_bytes(m, p);
        assert(a =~= whole.subrange(0, a.len() as int)) by {
            assert forall|r: int| 0 <= r < a.len() implies a[r] == whole.subrange(0, a.len() as int)[r] by {
                assert(a[r] == b.subrange(0, a.len() as int)[r]);
            }
        }
    }
}

/// The code of token `c` finds it among numbered entries.
proof fn lemma_lookup(m: Seq<Seq<char>>, c: int)
    requires
        0 <= c < m.len(),
        m.len() <= MAX_CODES,
    ensures
        lookup(numbered(m), c) == Some(m[c]),
    decreases m.len(),
{
    let es = numbered(m);
    if c != m.len() - 1 {
        assert(es.drop_last() =~= numbered(m.drop_last()));
        lemma_lookup(m.drop_last(), c);
    }
}

/// A part that starts the bytes of a region stands at the region's start
/// plus the length of what precedes it.
pub proof fn lemma_piece(data: Seq<u8>, start: int, whole: Seq<u8>, pb: Seq<u8>, x: Seq<u8>)
    requires
        0 <= start,
        start + whole.len() <= data.len(),
        data.subrange(start, start + whole.len()) == whole,
        (pb + x).is_prefix_of(whole),
    ensures
        data.subrange(start + pb.len(), start + pb.len() + x.len()) == x,
{
    let pos = start + pb.len();
    assert(data.subrange(pos, pos + x.len()) =~= x) by {
        assert forall|i: int| 0 <= i < x.len() implies data.subrange(pos, pos + x.len())[i] == x[i] by {
            assert(whole.subrange(0, (pb + x).len() as int)[pb.len() + i] == (pb + x)[pb.len() + i]);
            assert(data.subrange(start, start + whole.len())[pb.len() + i] == whole[pb.len() + i]);
        }
    }
}

/// Where a payload's parts start.
proof fn lemma_layout(m: Seq<Seq<char>>, ts: Seq<Seq<char>>)
    ensures
        ({
            let data = encoded(m, ts);
            let e = entries_bytes(m);
            let cb = codes_bytes(m, ts);
            &&& data.len() == 8 + (e.len() as int) + cb.len()
            &&& data.subrange(0, 4) == le32(m.len() as int)
            &&& data.subrange(4, 4 + (e.len() as int)) == e
            &&& data.subrange(4 + (e.len() as int), 8 + (e.len() as int)) == le32(ts.len() as int)
            &&& data.subrange(8 + (e.len() as int), data.len() as int) == cb
        }),
{
    let data = encoded(m, ts);
    let e = entries_bytes(m);
    let cb = codes_bytes(m, ts);
    let a = le32(m.len() as int);
    let c = le32(ts.len() as int);
    lemma_auto_spec_u32_to_from_le_bytes();
    assert(data =~= a + e + c + cb);
    assert(data.subrange(0, 4) =~= a);
    assert(data.subrange(4, 4 + (e.len() as int)) =~= e);
    assert(data.subrange(4 + (e.len() as int), 8 + (e.len() as int)) =~= c);
    assert(data.subrange(8 + (e.len() as int), data.len() as int) =~= cb);
}

/// Reading `k` entries of a payload gives back the first `k` tokens with their codes.
#[verifier::rlimit(40)]
proof fn lemma_entries_read(m: Seq<Seq<char>>, ts: Seq<Seq<char>>, k: nat)
    requires
        dictionary_ok(m),
        k <= m.len(),
    ensures
        read_entries(encoded(m, ts), k) == Some((numbered(m).take(k as int), 4 + (entries_bytes(m.take(k as int)).len() as int))),
    decreases k,
{
    let data = encoded(m, ts);
    let e = entries_bytes(m);
    lemma_layout(m, ts);
    if k == 0 {
        assert(numbered(m).take(0) =~= Seq::<(Seq<char>, u32)>::empty());
        assert(m.take(0) =~= Seq::<Seq<char>>::empty());
    } else {
        lemma_entries_read(m, ts, (k - 1) as nat);
        let prev = m.take(k - 1);
        let cur = m.take(k as int);
        assert(cur.drop_last() =~= prev);
        let x = entry_bytes(m[k - 1], k - 1);
        let pb = entries_bytes(prev);
        assert(entries_bytes(cur) == pb + x);
        lemma_entries_prefix(m, k as int);
        let pos = 4 + (pb.len() as int);
        lemma_piece(data, 4, e, pb, x);
        lemma_read_entry(data, pos, m[k - 1], k - 1);
        assert(numbered(m).take(k as int) =~= numbered(m).take(k - 1).push((m[k - 1], (k - 1) as u32)));
    }
}

/// Reading `k` codes of a payload gives back the first `k` tokens.
#[verifier::rlimit(40)]
proof fn lemma_codes_read(m: Seq<Seq<char>>, ts: Seq<Seq<char>>, k: nat)
    requires
        dictionary_ok(m),
        all_known(m, ts),
        k <= ts.len(),
    ensures
        read_codes(encoded(m, ts), numbered(m), 8 + (entries_bytes(m).len() as int), k) == Some((ts.take(k as int), 8 + (entries_bytes(m).len() as int) + (codes_bytes(m, ts.take(k as int)).len() as int))),
    decreases k,
{
    let data = encoded(m, ts);
    let e = entries_bytes(m);
    let cb = codes_bytes(m, ts);
    let start = 8 + (e.len() as int);
    lemma_layout(m, ts);
    if k == 0 {
        assert(ts.take(0) =~= Seq::<Seq<char>>::empty());
    } else {
        lemma_codes_read(m, ts, (k - 1) as nat);
        let prev = ts.take(k - 1);
        let cur = ts.take(k as int);
        assert(cur.drop_last() =~= prev);
        let t = ts[k - 1];
        assert(m.contains(t));
        let c = m.index_of(t);
        let x = varcode(c);
        let pb = codes_bytes(m, prev);
        assert(codes_bytes(m, cur) == pb + x);
        lemma_codes_prefix(m, ts, k as int);
        let pos = start + (pb.len() as int);
        lemma_piece(data, start, cb, pb, x);
        lemma_varcode(data, pos, c);
        lemma_lookup(m, c);
        assert(cur =~= prev.push(m[c]));
    }
}

/// Round trip: decoding the payload of a token sequence, all of whose tokens
/// the dictionary holds, gives back that sequence, in order.
pub proof fn lemma_round_trip(m: Seq<Seq<char>>, ts: Seq<Seq<char>>)
    requires
        dictionary_ok(m),
        all_known(m, ts),
        ts.len() <= U32_LIMIT,
    ensures
        decoded(encoded(m, ts)) == Some(ts),
{
    let data = encoded(m, ts);
    let e = entries_bytes(m);
    lemma_layout(m, ts);
    lemma_auto_spec_u32_to_from_le_bytes();
    assert(read_u32(data, 0) == Some(m.len() as u32));
    lemma_entries_read(m, ts, m.len());
    assert(m.take(m.len() as int) =~= m);
    assert(numbered(m).take(m.len() as int) =~= numbered(m));
    assert(read_u32(data, 4 + (e.len() as int)) == Some(ts.len() as u32));
    lemma_codes_read(m, ts, ts.len());
    assert(ts.take(ts.len() as int) =~= ts);
}

/// Shorter codes go to more frequent tokens: with the dictionary of a
/// corpus, a token seen more often than another has a smaller code, whose
/// form is no longer; code 0, the most frequent token's, takes one byte.
pub proof fn lemma_frequent_codes_not_longer(c: Seq<Seq<char>>, m: Seq<Seq<char>>, p: int, q: int)
    requires
        ranked_by_frequency(c, m),
        0 <= p < m.len(),
        0 <= q < m.len(),
        occurrences(c, m[p]) > occurrences(c, m[q]),
    ensures
        p < q,
        varcode(p).len() <= varcode(q).len(),
        varcode(0).len() == 1,
{
    if q < p {
        assert(occurrences(c, m[q]) >= occurrences(c, m[p]));
    }
}

/// On a prefix of length `k`, a four-byte read gives the same value if its
/// bytes lie within the prefix, and fails otherwise.
proof fn lemma_prefix_u32(data: Seq<u8>, k: int, pos: int)
    requires
        0 <= k <= data.len(),
        0 <= pos,
    ensures
        read_u32(data.take(k), pos) == if pos + 4 <= k {
            read_u32(data, pos)
        } else {
            None
        },
{
    if pos + 4 <= k {
        assert(data.take(k).subrange(pos, pos + 4) =~= data.subrange(pos, pos + 4));
    }
}

/// On a prefix of length `k`, reading an entry that ends by `k` gives the
/// same entry, and reading one that ends past `k` fails.
proof fn lemma_prefix_entry(data: Seq<u8>, k: int, pos: int)
    requires
        0 <= k <= data.len(),
        0 <= pos,
        read_entry(data, pos) is Some,
    ensures
        read_entry(data.take(k), pos) == if read_entry(data, pos)->Some_0.1 <= k {
            read_entry(data, pos)
        } else {
            None
        },
{
    let p = data.take(k);
    lemma_prefix_u32(data, k, pos);
    let n = read_u32(data, pos)->Some_0 as int;
    let start = pos + 4;
    let end = start + n;
    if pos + 4 <= k {
        if end <= k {
            assert(p.subrange(start, end) =~= data.subrange(start, end));
            lemma_prefix_u32(data, k, end);
        }
    }
}

/// On a prefix of length `k`, at least 4, reading `j` entries gives the same
/// entries if they end by `k`, and fails otherwise.
proof fn lemma_prefix_entries(data: Seq<u8>, k: int, j: nat)
    requires
        4 <= k <= data.len(),
        read_entries(data, j) is Some,
    ensures
        read_entries(data.take(k), j) == if read_entries(data, j)->Some_0.1 <= k {
            read_entries(data, j)
        } else {
            None
        },
        read_entries(data, j)->Some_0.1 >= 4,
    decreases j,
{
    if j > 0 {
        lemma_prefix_entries(data, k, (j - 1) as nat);
        let prev = read_entries(data, (j - 1) as nat)->Some_0;
        lemma_prefix_entry(data, k, prev.1);
    }
}

/// A variable-length code read on a prefix of length `k`: the same code if
/// its bytes end by `k`, a failure otherwise.
proof fn lemma_prefix_varcode(data: Seq<u8>, k: int, pos: int)
    requires
        0 <= k <= data.len(),
        0 <= pos,
        read_varcode(data, pos) is Some,
    ensures
        read_varcode(data.take(k), pos) == if read_varcode(data, pos)->Some_0.1 <= k {
            read_varcode(data, pos)
        } else {
            None
        },
{
}

/// On a prefix of length `k`, reading `j` codes from `start` gives the same
/// tokens if they end by `k`, and fails otherwise.
proof fn lemma_prefix_codes(data: Seq<u8>, es: Seq<(Seq<char>, u32)>, start: int, k: int, j: nat)
    requires
        0 <= start <= k <= data.len(),
        read_codes(data, es, start, j) is Some,
    ensures
        read_codes(data.take(k), es, start, j) == if read_codes(data, es, start, j)->Some_0.1 <= k {
            read_codes(data, es, start, j)
        } else {
            None
        },
        read_codes(data, es, start, j)->Some_0.1 >= start,
    decreases j,
{
    if j > 0 {
        lemma_prefix_codes(data, es, start, k, (j - 1) as nat);
        let prev = read_codes(data, es, start, (j - 1) as nat)->Some_0;
        lemma_prefix_varcode(data, k, prev.1);
    }
}

/// A payload cut short fails: no strict prefix of the payload of a token
/// sequence decodes, whatever the sequence.
pub proof fn lemma_truncated_fails(m: Seq<Seq<char>>, ts: Seq<Seq<char>>, k: int)
    requires
        dictionary_ok(m),
        all_known(m, ts),
        ts.len() <= U32_LIMIT,
        0 <= k < encoded(m, ts).len(),
    ensures
        decoded(encoded(m, ts).take(k)) is None,
{
    let data = encoded(m, ts);
    let e = entries_bytes(m);
    let el = e.len() as int;
    lemma_layout(m, ts);
    lemma_auto_spec_u32_to_from_le_bytes();
    let p = data.take(k);
    if k >= 4 {
        lemma_prefix_u32(data, k, 0);
        assert(read_u32(data, 0) == Some(m.len() as u32));
        lemma_entries_read(m, ts, m.len());
        assert(m.take(m.len() as int) =~= m);
        assert(numbered(m).take(m.len() as int) =~= numbered(m));
        lemma_prefix_entries(data, k, m.len());
        if 4 + el <= k {
            lemma_prefix_u32(data, k, 4 + el);
            assert(read_u32(data, 4 + el) == Some(ts.len() as u32));
            if 8 + el <= k {
                lemma_codes_read(m, ts, ts.len());
                assert(ts.take(ts.len() as int) =~= ts);
                lemma_prefix_codes(data, numbered(m), 8 + el, k, ts.len());
            }
        }
    }
}

/// Determinism: with a built model, two compressions of the same tokens
/// give the same outcome, byte for byte.
pub proof fn lemma_compress_deterministic(
    c: DictionaryCompressor,
    ts: Seq<Seq<char>>,
    r1: Result<Vec<u8>, CodecError>,
    r2: Result<Vec<u8>, CodecError>,
)
    requires
        c.model_tokens().len() > 0,
        c.compress_outcome(ts, r1),
        c.compress_outcome(ts, r2),
    ensures
        r1 is Ok <==> r2 is Ok,
        r1 is Ok ==> r1->Ok_0@ == r2->Ok_0@,
        r1 is Err ==> r1 == r2,
{
}

/// Round trip through the two operations: when `compress` succeeds, with a
/// built dictionary or one made from `ts` itself, decompressing its bytes
/// gives `ts` back.
pub proof fn lemma_compress_decompress(
    c: DictionaryCompressor,
    ts: Seq<Seq<char>>,
    r1: Result<Vec<u8>, CodecError>,
    r2: Result<Vec<String>, CodecError>,
)
    requires
        dictionary_ok(c.model_tokens()),
        ts.len() <= U32_LIMIT,
        c.compress_outcome(ts, r1),
        r1 is Ok,
        c.decompress_outcome(r1->Ok_0@, r2),
    ensures
        r2 is Ok && texts(r2->Ok_0@) == ts,
{
    if c.model_tokens().len() > 0 {
        lemma_round_trip(c.model_tokens(), ts);
    } else {
        let m = choose|m: Seq<Seq<char>>| {
            &&& ranked_by_frequency(ts, m)
            &&& r1->Ok_0@ == #[trigger] encoded(m, ts)
        };
        lemma_distinct(ts);
        assert forall|k: int| 0 <= k < ts.len() implies m.contains(#[trigger] ts[k]) by {
            assert(ts.contains(ts[k]));
        }
        assert forall|i: int| 0 <= i < m.len() implies encode_utf8(#[trigger] m[i]).len() <= U32_LIMIT by {
            assert(m.contains(m[i]));
            let k = choose|k: int| 0 <= k < ts.len() && ts[k] == m[i];
        }
        lemma_round_trip(m, ts);
    }
}

} // verus!
