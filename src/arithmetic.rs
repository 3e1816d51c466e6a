//! The range codec: a token sequence becomes one point of the unit
//! interval, written as a 32-bit fixed-point number.
//!
//! Each model token owns a slice of the interval proportional to its count,
//! in model order. Encoding starts from `[0, 2^32)` and, token by token,
//! narrows the interval to that token's slice of it (integer arithmetic,
//! rounding down). Payload, integers little-endian: the token count (4
//! bytes), the midpoint of the final interval (4 bytes), the table's byte
//! length (4 bytes), then the table: its entry count (4 bytes) and per entry
//! the token's UTF-8 length (4 bytes), its bytes and its count (4 bytes).
//!
//! Decoding replays the narrowing, each time picking the slice that holds the
//! point. An interval narrower than the sum of the counts may hold empty
//! slices, where the point no longer tells tokens apart: decoding fails as
//! soon as it reaches one. So a payload of `compress` either reads back as
//! exactly the tokens compressed or is refused; long sequences are refused.
use vstd::prelude::*;
use vstd::bytes::{spec_u32_to_le_bytes, u32_to_le_bytes, lemma_auto_spec_u32_to_from_le_bytes};
use vstd::slice::slice_subrange;
use vstd::utf8::encode_utf8;
use crate::error::CodecError;
use crate::frequency::{texts, distinct, occurrences, lemma_distinct, position_of, FrequencyTable};
use crate::bits::append;
use crate::dictionary::{le32, entry_bytes, read_u32, read_entries, entry_view, read_entry_list, read_u32_at, lemma_entries_len, lemma_read_entry, lemma_piece, U32_LIMIT};

verus! {

/// Width of the initial interval.
pub const SCALE: u128 = 4294967296;

/// The sum of the first `i` counts.
pub open spec fn sum_to(cs: Seq<u32>, i: int) -> int
    decreases i,
{
    if i <= 0 || i > cs.len() {
        0
    } else {
        sum_to(cs, i - 1) + cs[i - 1]
    }
}

/// The sum of all counts.
pub open spec fn total(cs: Seq<u32>) -> int {
    sum_to(cs, cs.len() as int)
}

/// `[low, high)` narrowed to its slice `[lo, hi)` out of `t`.
pub open spec fn narrowed(low: int, high: int, lo: int, hi: int, t: int) -> (int, int) {
    (low + (high - low) * lo / t, low + (high - low) * hi / t)
}

/// The interval that `ts` narrows `[0, 2^32)` to.
pub open spec fn interval(toks: Seq<Seq<char>>, cs: Seq<u32>, ts: Seq<Seq<char>>) -> (int, int)
    decreases ts.len(),
{
    if ts.len() == 0 {
        (0, SCALE as int)
    } else {
        let p = interval(toks, cs, ts.drop_last());
        let i = toks.index_of(ts.last());
        narrowed(p.0, p.1, sum_to(cs, i), sum_to(cs, i + 1), total(cs))
    }
}

/// The point written for `ts`: the midpoint of its interval.
pub open spec fn midpoint(toks: Seq<Seq<char>>, cs: Seq<u32>, ts: Seq<Seq<char>>) -> int {
    (interval(toks, cs, ts).0 + interval(toks, cs, ts).1) / 2
}

/// The first `k` table entries.
pub open spec fn table_entries(toks: Seq<Seq<char>>, cs: Seq<u32>, k: int) -> Seq<u8>
    decreases k,
{
    if k <= 0 || k > toks.len() {
        Seq::empty()
    } else {
        table_entries(toks, cs, k - 1) + entry_bytes(toks[k - 1], cs[k - 1] as int)
    }
}

/// The table of a model: its size, then its entries.
pub open spec fn table_bytes(toks: Seq<Seq<char>>, cs: Seq<u32>) -> Seq<u8> {
    le32(toks.len() as int) + table_entries(toks, cs, toks.len() as int)
}

/// The byte length of a table holding the first `k` tokens.
pub open spec fn table_size(toks: Seq<Seq<char>>, k: int) -> int
    decreases k,
{
    if k <= 0 || k > toks.len() {
        4
    } else {
        table_size(toks, k - 1) + 8 + encode_utf8(toks[k - 1]).len()
    }
}

/// The payload for `ts`.
pub open spec fn encoded(toks: Seq<Seq<char>>, cs: Seq<u32>, ts: Seq<Seq<char>>) -> Seq<u8> {
    le32(ts.len() as int) + le32(midpoint(toks, cs, ts)) + le32(table_bytes(toks, cs).len() as int)
        + table_bytes(toks, cs)
}

/// A valid model: distinct tokens with positive counts whose table fits.
pub open spec fn model_ok(toks: Seq<Seq<char>>, cs: Seq<u32>) -> bool {
    &&& toks.len() == cs.len()
    &&& toks.no_duplicates()
    &&& forall|i: int| 0 <= i < cs.len() ==> #[trigger] cs[i] > 0
    &&& table_size(toks, toks.len() as int) <= U32_LIMIT
}

/// A model can be built from corpus `c`.
pub open spec fn buildable(c: Seq<Seq<char>>) -> bool {
    &&& c.len() > 0
    &&& forall|i: int| 0 <= i < distinct(c).len() ==> occurrences(c, #[trigger] distinct(c)[i]) <= u32::MAX
    &&& table_size(distinct(c), distinct(c).len() as int) <= U32_LIMIT
}

/// Every token of `ts` is one of `toks`.
pub open spec fn all_known(toks: Seq<Seq<char>>, ts: Seq<Seq<char>>) -> bool {
    forall|k: int| 0 <= k < ts.len() ==> toks.contains(#[trigger] ts[k])
}

/// The first slice, from index `from` on, of `[low, high)` that holds `value`.
pub open spec fn first_slice(cs: Seq<u32>, low: int, high: int, value: int, from: int) -> Option<int>
    decreases cs.len() - from,
{
    if from < 0 || from >= cs.len() {
        None
    } else if low + (high - low) * sum_to(cs, from) / total(cs) <= value && value < low + (high - low)
        * sum_to(cs, from + 1) / total(cs) {
        Some(from)
    } else {
        first_slice(cs, low, high, value, from + 1)
    }
}

/// The first `k` tokens read back from point `value`, and the interval after them.
pub open spec fn range_steps(names: Seq<Seq<char>>, cs: Seq<u32>, value: int, k: nat) -> Option<(Seq<Seq<char>>, int, int)>
    decreases k,
{
    if k == 0 {
        Some((Seq::empty(), 0, SCALE as int))
    } else {
        match range_steps(names, cs, value, (k - 1) as nat) {
            None => None,
            Some((ts, low, high)) => if total(cs) == 0 || high - low < total(cs) {
                None
            } else {
                match first_slice(cs, low, high, value, 0) {
                    None => None,
                    Some(i) => Some((
                        ts.push(names[i]),
                        narrowed(low, high, sum_to(cs, i), sum_to(cs, i + 1), total(cs)).0,
                        narrowed(low, high, sum_to(cs, i), sum_to(cs, i + 1), total(cs)).1,
                    )),
                }
            },
        }
    }
}

/// The tokens that a payload reads back as, if it can be read.
pub open spec fn decoded(data: Seq<u8>) -> Option<Seq<Seq<char>>> {
    match (read_u32(data, 0), read_u32(data, 4), read_u32(data, 8)) {
        (Some(count), Some(value), Some(tlen)) => if 12 + tlen > data.len() {
            None
        } else {
            let region = data.subrange(12, 12 + tlen);
            match read_u32(region, 0) {
                None => None,
                Some(n) => match read_entries(region, n as nat) {
                    None => None,
                    Some((es, _)) => match range_steps(
                        es.map_values(|e: (Seq<char>, u32)| e.0),
                        es.map_values(|e: (Seq<char>, u32)| e.1),
                        value as int,
                        count as nat,
                    ) {
                        None => None,
                        Some((ts, _, _)) => Some(ts),
                    },
                },
            }
        },
        _ => None,
    }
}

proof fn lemma_sum_bounds(cs: Seq<u32>, i: int, j: int)
    requires
        0 <= i <= j <= cs.len(),
    ensures
        0 <= sum_to(cs, i) <= sum_to(cs, j) <= j * 4294967295,
    decreases j,
{
    if j > 0 {
        let i2: int = if i < j { i } else { j - 1 };
        lemma_sum_bounds(cs, i2, j - 1);
    }
}

proof fn lemma_table_size(toks: Seq<Seq<char>>, i: int, j: int)
    requires
        0 <= i <= j <= toks.len(),
    ensures
        4 + 8 * j <= table_size(toks, j),
        table_size(toks, i) <= table_size(toks, j),
    decreases j,
{
    if j > 0 {
        let i2: int = if i < j { i } else { j - 1 };
        lemma_table_size(toks, i2, j - 1);
    }
}

/// Narrowing to a slice of a non-empty count keeps the interval inside the
/// old one, its low end below the scale.
proof fn lemma_narrow(low: int, high: int, lo: int, hi: int, t: int)
    requires
        0 <= low <= high <= SCALE,
        low < SCALE,
        0 <= lo < hi <= t,
    ensures
        ({
            let n = narrowed(low, high, lo, hi, t);
            &&& low <= n.0 <= n.1 <= high
            &&& n.0 < SCALE
        }),
{
    let r: int = high - low;
    assert(r * lo <= r * hi) by (nonlinear_arith)
        requires
            0 <= r,
            lo <= hi,
    ;
    assert(r * hi <= r * t) by (nonlinear_arith)
        requires
            0 <= r,
            hi <= t,
    ;
    assert(0 <= r * lo) by (nonlinear_arith)
        requires
            0 <= r,
            0 <= lo,
    ;
    vstd::arithmetic::div_mod::lemma_div_is_ordered(r * lo, r * hi, t);
    vstd::arithmetic::div_mod::lemma_div_is_ordered(r * hi, r * t, t);
    vstd::arithmetic::div_mod::lemma_div_by_multiple(r, t);
    vstd::arithmetic::div_mod::lemma_div_pos_is_pos(r * lo, t);
    if r > 0 {
        assert(r * lo < r * t) by (nonlinear_arith)
            requires
                0 < r,
                lo < t,
        ;
        vstd::arithmetic::div_mod::lemma_div_by_multiple_is_strongly_ordered(r * lo, r * t, r, t);
    }
}

/// Narrowing to any slice keeps the interval inside the old one.
proof fn lemma_narrow_within(low: int, high: int, lo: int, hi: int, t: int)
    requires
        0 <= low <= high,
        0 <= lo <= hi <= t,
        t > 0,
    ensures
        ({
            let n = narrowed(low, high, lo, hi, t);
            &&& low <= n.0 <= n.1 <= high
        }),
{
    let r: int = high - low;
    assert(r * lo <= r * hi) by (nonlinear_arith)
        requires
            0 <= r,
            lo <= hi,
    ;
    assert(r * hi <= r * t) by (nonlinear_arith)
        requires
            0 <= r,
            hi <= t,
    ;
    assert(0 <= r * lo) by (nonlinear_arith)
        requires
            0 <= r,
            0 <= lo,
    ;
    vstd::arithmetic::div_mod::lemma_div_is_ordered(r * lo, r * hi, t);
    vstd::arithmetic::div_mod::lemma_div_is_ordered(r * hi, r * t, t);
    vstd::arithmetic::div_mod::lemma_div_by_multiple(r, t);
    vstd::arithmetic::div_mod::lemma_div_pos_is_pos(r * lo, t);
}

/// Bound on a product of an interval width and a count sum.
proof fn lemma_product_bound(r: int, x: int)
    requires
        0 <= r <= SCALE,
        0 <= x <= 18446744073709551616,
    ensures
        0 <= r * x <= 79228162514264337593543950336,
{
    assert(0 <= r * x <= SCALE * 18446744073709551616) by (nonlinear_arith)
        requires
            0 <= r <= SCALE,
            0 <= x <= 18446744073709551616,
    ;
}

/// The sum of the first `k` counts.
fn sum_prefix(cs: &Vec<u32>, k: usize) -> (r: u128)
    requires
        k <= cs@.len(),
        cs@.len() <= U32_LIMIT,
    ensures
        r == sum_to(cs@, k as int),
        r <= 18446744073709551616,
{
    let mut r: u128 = 0;
    let mut q: usize = 0;
    while q < k
        invariant
            k <= cs@.len(),
            cs@.len() <= U32_LIMIT,
            q <= k,
            r == sum_to(cs@, q as int),
        decreases k - q,
    {
        proof { lemma_sum_bounds(cs@, q as int, q as int); }
        assert(r <= q * 4294967295);
        r = r + cs[q] as u128;
        q = q + 1;
    }
    proof { lemma_sum_bounds(cs@, k as int, k as int); }
    r
}

/// The first slice of `[low, high)` that holds `value`.
fn find_slice(cs: &Vec<u32>, t: u128, low: u128, high: u128, value: u32) -> (r: Option<usize>)
    requires
        cs@.len() <= U32_LIMIT,
        t == total(cs@),
        t > 0,
        low <= high <= SCALE,
    ensures
        match r {
            Some(i) => i < cs@.len() && first_slice(cs@, low as int, high as int, value as int, 0) == Some(i as int),
            None => first_slice(cs@, low as int, high as int, value as int, 0) is None,
        },
{
    let r: u128 = high - low;
    let mut cum: u128 = 0;
    let mut i: usize = 0;
    proof { lemma_sum_bounds(cs@, 0, cs@.len() as int); }
    while i < cs.len()
        invariant
            cs@.len() <= U32_LIMIT,
            t == total(cs@),
            t > 0,
            t <= 18446744073709551616,
            low <= high <= SCALE,
            r == high - low,
            i <= cs@.len(),
            cum == sum_to(cs@, i as int),
            first_slice(cs@, low as int, high as int, value as int, 0) == first_slice(cs@, low as int, high as int, value as int, i as int),
        decreases cs@.len() - i,
    {
        proof {
            lemma_sum_bounds(cs@, i as int, i as int + 1);
            lemma_sum_bounds(cs@, i as int + 1, cs@.len() as int);
            lemma_product_bound(r as int, cum as int);
            lemma_product_bound(r as int, cum as int + cs@[i as int]);
            lemma_narrow_within(low as int, high as int, cum as int, cum as int + cs@[i as int], t as int);
        }
        let next: u128 = cum + cs[i] as u128;
        let lo: u128 = low + r * cum / t;
        let hi: u128 = low + r * next / t;
        if lo <= value as u128 && (value as u128) < hi {
            return Some(i);
        }
        cum = next;
        i = i + 1;
    }
    None
}

/// Range compressor: token counts from a corpus.
pub struct ArithmeticCompressor {
    tokens: Vec<String>,
    counts: Vec<u32>,
}

impl ArithmeticCompressor {
    /// The model's tokens, in order of first occurrence in the corpus.
    pub closed spec fn model_tokens(&self) -> Seq<Seq<char>> {
        texts(self.tokens@)
    }

    /// The count of each model token.
    pub closed spec fn model_counts(&self) -> Seq<u32> {
        self.counts@
    }

    #[verifier::type_invariant]
    closed spec fn inv(&self) -> bool {
        model_ok(self.model_tokens(), self.model_counts())
    }

    /// A compressor with no model yet.
    pub fn new() -> (r: ArithmeticCompressor)
        ensures
            r.model_tokens().len() == 0,
    {
        let r = ArithmeticCompressor { tokens: Vec::new(), counts: Vec::new() };
        assert(r.model_tokens() =~= Seq::empty());
        r
    }

    /// The name of this compression strategy.
    pub fn algorithm_name(&self) -> (r: &'static str)
        ensures
            r@ == "arithmetic"@,
    {
        "arithmetic"
    }

    /// The model meets its invariant.
    pub fn model_ok(&self)
        ensures
            model_ok(self.model_tokens(), self.model_counts()),
    {
        proof { use_type_invariant(self); }
    }

    /// Counts the tokens of `corpus`; fails on an empty corpus, on a count
    /// above four bytes, or on a table too long to record.
    fn build(corpus: &[String]) -> (r: Result<ArithmeticCompressor, CodecError>)
        ensures
            buildable(texts(corpus@)) <==> r is Ok,
            r is Err ==> r == Err::<ArithmeticCompressor, CodecError>(CodecError::ModelConstruction),
            r is Ok ==> r->Ok_0.model_tokens() == distinct(texts(corpus@)) && forall|i: int|
                0 <= i < r->Ok_0.model_counts().len() ==> #[trigger] r->Ok_0.model_counts()[i] as nat
                    == occurrences(texts(corpus@), distinct(texts(corpus@))[i]),
    {
        let ghost c = texts(corpus@);
        if corpus.len() == 0 {
            return Err(CodecError::ModelConstruction);
        }
        let table = FrequencyTable::count(corpus);
        proof { lemma_distinct(c); }
        let ghost dd = distinct(c);
        let d: usize = table.tokens.len();
        let mut counts: Vec<u32> = Vec::new();
        let mut size: u128 = 4;
        let mut i: usize = 0;
        while i < d
            invariant
                c == texts(corpus@),
                texts(table.tokens@) == dd,
                dd == distinct(c),
                table.describes(c),
                d == dd.len(),
                i <= d,
                counts@.len() == i,
                forall|q: int| 0 <= q < i ==> (#[trigger] counts@[q]) as nat == occurrences(c, dd[q]),
                forall|q: int| 0 <= q < i ==> occurrences(c, #[trigger] dd[q]) <= u32::MAX,
                size == table_size(dd, i as int),
                size <= U32_LIMIT,
            decreases d - i,
        {
            assert(dd[i as int] == table.tokens@[i as int]@);
            let n: usize = table.counts[i];
            let tb: &[u8] = table.tokens[i].as_str().as_bytes();
            proof { lemma_table_size(dd, i as int + 1, d as int); }
            assert(n as nat == occurrences(c, dd[i as int]));
            assert(tb@ == encode_utf8(dd[i as int]));
            if n > U32_LIMIT || (tb.len() as u128) + 8 > (U32_LIMIT as u128) - size {
                proof {
                    if n <= U32_LIMIT {
                        assert(table_size(dd, i + 1) > U32_LIMIT);
                    }
                }
                return Err(CodecError::ModelConstruction);
            }
            counts.push(n as u32);
            size = size + 8 + tb.len() as u128;
            i = i + 1;
        }
        proof {
            assert forall|q: int| 0 <= q < counts@.len() implies #[trigger] counts@[q] > 0 by {
                assert(dd.contains(dd[q]));
                crate::frequency::lemma_occurrences_bound(c, dd[q]);
            }
        }
        let r = ArithmeticCompressor { tokens: table.tokens, counts };
        Ok(r)
    }
}

impl ArithmeticCompressor {
    /// Builds the model from `corpus`, replacing any earlier one. On failure
    /// the model is left as it was.
    pub fn build_from_corpus(&mut self, corpus: &[String]) -> (r: Result<(), CodecError>)
        ensures
            buildable(texts(corpus@)) <==> r is Ok,
            r is Err ==> r == Err::<(), CodecError>(CodecError::ModelConstruction) && *final(self)
                == *old(self),
            r is Ok ==> final(self).model_tokens() == distinct(texts(corpus@)) && forall|i: int|
                0 <= i < final(self).model_counts().len() ==> #[trigger] final(self).model_counts()[i] as nat
                    == occurrences(texts(corpus@), distinct(texts(corpus@))[i]),
    {
        match Self::build(corpus) {
            Ok(m) => {
                *self = m;
                Ok(())
            },
            Err(e) => Err(e),
        }
    }

    /// Encodes `tokens` with this model.
    fn encode(&self, tokens: &[String]) -> (r: Result<Vec<u8>, CodecError>)
        requires
            tokens@.len() <= U32_LIMIT,
        ensures
            all_known(self.model_tokens(), texts(tokens@)) <==> r is Ok,
            r is Ok ==> r->Ok_0@ == encoded(self.model_tokens(), self.model_counts(), texts(tokens@)),
            r is Err ==> r == Err::<Vec<u8>, CodecError>(CodecError::UnknownToken),
    {
        proof { use_type_invariant(self); }
        let ghost toks = self.model_tokens();
        let ghost cs = self.model_counts();
        let ghost ts = texts(tokens@);
        let d: usize = self.counts.len();
        proof {
            lemma_table_size(toks, 0, d as int);
            lemma_sum_bounds(cs, 0, d as int);
        }
        let t: u128 = sum_prefix(&self.counts, d);
        let mut low: u128 = 0;
        let mut high: u128 = SCALE;
        let mut j: usize = 0;
        assert(ts.take(0) =~= Seq::<Seq<char>>::empty());
        while j < tokens.len()
            invariant
                model_ok(toks, cs),
                toks == self.model_tokens(),
                cs == self.model_counts(),
                cs == self.counts@,
                d == cs.len(),
                d <= U32_LIMIT,
                t == total(cs),
                t <= 18446744073709551616,
                ts == texts(tokens@),
                j <= tokens@.len(),
                all_known(toks, ts.take(j as int)),
                (low as int, high as int) == interval(toks, cs, ts.take(j as int)),
                low <= high <= SCALE,
                low < SCALE,
            decreases tokens@.len() - j,
        {
            match position_of(&self.tokens, &tokens[j]) {
                None => {
                    assert(!all_known(toks, ts)) by {
                        if all_known(toks, ts) {
                            assert(toks.contains(ts[j as int]));
                            let q = choose|q: int| 0 <= q < toks.len() && toks[q] == ts[j as int];
                            assert(self.tokens@[q]@ == toks[q]);
                        }
                    }
                    return Err(CodecError::UnknownToken);
                },
                Some(k) => {
                    let lo: u128 = sum_prefix(&self.counts, k);
                    let hi: u128 = lo + self.counts[k] as u128;
                    proof {
                        lemma_sum_bounds(cs, k as int, k as int + 1);
                        lemma_sum_bounds(cs, k as int + 1, d as int);
                        assert(cs[k as int] > 0);
                        lemma_product_bound((high - low) as int, lo as int);
                        lemma_product_bound((high - low) as int, hi as int);
                        lemma_narrow(low as int, high as int, lo as int, hi as int, t as int);
                    }
                    let r: u128 = high - low;
                    let nh: u128 = low + r * hi / t;
                    let nl: u128 = low + r * lo / t;
                    high = nh;
                    low = nl;
                    proof {
                        let next = ts.take(j + 1);
                        assert(next.drop_last() =~= ts.take(j as int));
                        assert(toks[k as int] == ts[j as int]);
                        assert(toks.contains(ts[j as int]));
                        assert(toks.index_of(ts[j as int]) == k as int);
                        assert forall|q: int| 0 <= q < next.len() implies toks.contains(#[trigger] next[q]) by {
                            if q == j {
                                assert(toks[k as int] == next[q]);
                            } else {
                                assert(ts.take(j as int)[q] == next[q]);
                            }
                        }
                    }
                },
            }
            j = j + 1;
        }
        assert(ts.take(tokens@.len() as int) =~= ts);
        let value: u32 = ((low + high) / 2) as u32;
        let mut table = u32_to_le_bytes(d as u32);
        let mut i: usize = 0;
        proof { lemma_auto_spec_u32_to_from_le_bytes(); }
        while i < d
            invariant
                model_ok(toks, cs),
                toks == self.model_tokens(),
                cs == self.counts@,
                d == cs.len(),
                i <= d,
                table@ == le32(d as int) + table_entries(toks, cs, i as int),
                table@.len() == table_size(toks, i as int),
            decreases d - i,
        {
            let s: &str = self.tokens[i].as_str();
            let b: &[u8] = s.as_bytes();
            assert(toks[i as int] == s@);
            proof {
                lemma_auto_spec_u32_to_from_le_bytes();
                lemma_table_size(toks, i as int + 1, d as int);
            }
            let len_bytes = u32_to_le_bytes(b.len() as u32);
            append(&mut table, len_bytes.as_slice());
            append(&mut table, b);
            let count_bytes = u32_to_le_bytes(self.counts[i]);
            append(&mut table, count_bytes.as_slice());
            assert(table@ =~= le32(d as int) + table_entries(toks, cs, i + 1));
            i = i + 1;
        }
        proof { lemma_table_size(toks, d as int, d as int); }
        let mut out = u32_to_le_bytes(tokens.len() as u32);
        let value_bytes = u32_to_le_bytes(value);
        append(&mut out, value_bytes.as_slice());
        let len_bytes = u32_to_le_bytes(table.len() as u32);
        append(&mut out, len_bytes.as_slice());
        append(&mut out, table.as_slice());
        assert(out@ =~= encoded(toks, cs, ts));
        Ok(out)
    }

    /// What `compress` returns for tokens `ts`.
    pub open spec fn compress_outcome(&self, ts: Seq<Seq<char>>, r: Result<Vec<u8>, CodecError>) -> bool {
        &&& self.model_tokens().len() > 0 ==> {
            &&& all_known(self.model_tokens(), ts) <==> r is Ok
            &&& r is Ok ==> r->Ok_0@ == encoded(self.model_tokens(), self.model_counts(), ts)
            &&& r is Err ==> r == Err::<Vec<u8>, CodecError>(CodecError::UnknownToken)
        }
        &&& self.model_tokens().len() == 0 ==> {
            &&& buildable(ts) <==> r is Ok
            &&& r is Err ==> r == Err::<Vec<u8>, CodecError>(CodecError::ModelConstruction)
            &&& r is Ok ==> exists|cs: Seq<u32>| {
                &&& cs.len() == distinct(ts).len()
                &&& (forall|i: int| 0 <= i < cs.len() ==> #[trigger] cs[i] as nat == occurrences(ts, distinct(ts)[i]))
                &&& r->Ok_0@ == #[trigger] encoded(distinct(ts), cs, ts)
            }
        }
    }

    /// What `decompress` returns for payload `data`.
    pub open spec fn decompress_outcome(&self, data: Seq<u8>, r: Result<Vec<String>, CodecError>) -> bool {
        match decoded(data) {
            Some(ts) => r is Ok && texts(r->Ok_0@) == ts,
            None => r == Err::<Vec<String>, CodecError>(CodecError::MalformedPayload),
        }
    }

    /// Compresses `tokens`. With no model yet, one built from `tokens`
    /// themselves serves for this call alone; the payload holds the table.
    pub fn compress(&self, tokens: &[String]) -> (r: Result<Vec<u8>, CodecError>)
        requires
            tokens@.len() <= U32_LIMIT,
        ensures
            self.compress_outcome(texts(tokens@), r),
    {
        if self.tokens.len() > 0 {
            self.encode(tokens)
        } else {
            match Self::build(tokens) {
                Err(e) => Err(e),
                Ok(m) => {
                    proof {
                        use_type_invariant(&m);
                        lemma_distinct(texts(tokens@));
                        assert forall|k: int| 0 <= k < texts(tokens@).len() implies m.model_tokens().contains(#[trigger] texts(tokens@)[k]) by {
                            assert(texts(tokens@).contains(texts(tokens@)[k]));
                        }
                    }
                    let r = m.encode(tokens);
                    proof {
                        let ghost b = r->Ok_0@;
                        assert(encoded(distinct(texts(tokens@)), m.model_counts(), texts(tokens@)) == b);
                    }
                    r
                },
            }
        }
    }

    /// Reads a payload back by replaying the narrowing with the table it
    /// holds; this compressor's own model plays no part.
    pub fn decompress(&self, data: &[u8]) -> (r: Result<Vec<String>, CodecError>)
        ensures
            self.decompress_outcome(data@, r),
    {
        let count = match read_u32_at(data, 0) {
            None => return Err(CodecError::MalformedPayload),
            Some(v) => v,
        };
        let value = match read_u32_at(data, 4) {
            None => return Err(CodecError::MalformedPayload),
            Some(v) => v,
        };
        let tlen = match read_u32_at(data, 8) {
            None => return Err(CodecError::MalformedPayload),
            Some(v) => v,
        };
        if tlen as usize > data.len() - 12 {
            return Err(CodecError::MalformedPayload);
        }
        let region = slice_subrange(data, 12, 12 + tlen as usize);
        let n = match read_u32_at(region, 0) {
            None => return Err(CodecError::MalformedPayload),
            Some(v) => v,
        };
        let (names, cs, _) = match read_entry_list(region, n) {
            None => return Err(CodecError::MalformedPayload),
            Some(t) => t,
        };
        let ghost es = entry_view(names@, cs@);
        let ghost nv = es.map_values(|e: (Seq<char>, u32)| e.0);
        assert(es.map_values(|e: (Seq<char>, u32)| e.1) =~= cs@);
        assert(nv =~= texts(names@));
        assert(cs@.len() <= U32_LIMIT) by {
            lemma_entries_len(region@, n as nat);
            assert(es.len() == n as int);
        }
        proof { lemma_sum_bounds(cs@, 0, cs@.len() as int); }
        let t: u128 = sum_prefix(&cs, cs.len());
        let mut out: Vec<String> = Vec::new();
        let mut low: u128 = 0;
        let mut high: u128 = SCALE;
        let mut k: u32 = 0;
        assert(texts(out@) =~= Seq::empty());
        while k < count
            invariant
                decoded(data@) == match range_steps(nv, cs@, value as int, count as nat) {
                    None => None::<Seq<Seq<char>>>,
                    Some((ts, _, _)) => Some(ts),
                },
                nv == texts(names@),
                names@.len() == cs@.len(),
                cs@.len() <= U32_LIMIT,
                t == total(cs@),
                t <= 18446744073709551616,
                k <= count,
                low <= high <= SCALE,
                range_steps(nv, cs@, value as int, k as nat) == Some((texts(out@), low as int, high as int)),
            decreases count - k,
        {
            if t == 0 || high - low < t {
                proof { lemma_steps_none(nv, cs@, value as int, (k + 1) as nat, count as nat); }
                return Err(CodecError::MalformedPayload);
            }
            match find_slice(&cs, t, low, high, value) {
                None => {
                    proof { lemma_steps_none(nv, cs@, value as int, (k + 1) as nat, count as nat); }
                    return Err(CodecError::MalformedPayload);
                },
                Some(i) => {
                    let lo: u128 = sum_prefix(&cs, i);
                    let hi: u128 = lo + cs[i] as u128;
                    proof {
                        lemma_sum_bounds(cs@, i as int, i as int + 1);
                        lemma_sum_bounds(cs@, i as int + 1, cs@.len() as int);
                        lemma_product_bound((high - low) as int, lo as int);
                        lemma_product_bound((high - low) as int, hi as int);
                        lemma_narrow_within(low as int, high as int, lo as int, hi as int, t as int);
                    }
                    let r: u128 = high - low;
                    let nh: u128 = low + r * hi / t;
                    let nl: u128 = low + r * lo / t;
                    high = nh;
                    low = nl;
                    let ghost before = texts(out@);
                    out.push(names[i].clone());
                    assert(texts(out@) =~= before.push(nv[i as int]));
                },
            }
            k = k + 1;
        }
        Ok(out)
    }
}

/// Once a step fails, every later one fails too.
proof fn lemma_steps_none(names: Seq<Seq<char>>, cs: Seq<u32>, value: int, i: nat, n: nat)
    requires
        i <= n,
        range_steps(names, cs, value, i) is None,
    ensures
        range_steps(names, cs, value, n) is None,
    decreases n - i,
{
    if i < n {
        lemma_steps_none(names, cs, value, i + 1, n);
    }
}

/// A payload cut short fails: its table runs to its last byte, so no strict
/// prefix of the payload of a token sequence reads back.
pub proof fn lemma_truncated_fails(toks: Seq<Seq<char>>, cs: Seq<u32>, ts: Seq<Seq<char>>, m: int)
    requires
        model_ok(toks, cs),
        0 <= m < encoded(toks, cs, ts).len(),
    ensures
        decoded(encoded(toks, cs, ts).take(m)) is None,
{
    lemma_auto_spec_u32_to_from_le_bytes();
    let data = encoded(toks, cs, ts);
    let table = table_bytes(toks, cs);
    let cut = data.take(m);
    assert(data.len() == 12 + table.len());
    lemma_table_len(toks, cs, toks.len() as int);
    lemma_table_size(toks, toks.len() as int, toks.len() as int);
    if m >= 12 {
        assert(cut.subrange(8, 12) =~= data.subrange(8, 12));
        assert(data.subrange(8, 12) =~= le32(table.len() as int));
        assert(read_u32(cut, 8) == Some(table.len() as u32));
    }
}

/// The table's byte length is its size.
proof fn lemma_table_len(toks: Seq<Seq<char>>, cs: Seq<u32>, k: int)
    requires
        0 <= k <= toks.len(),
    ensures
        (le32(toks.len() as int) + table_entries(toks, cs, k)).len() == table_size(toks, k),
    decreases k,
{
    lemma_auto_spec_u32_to_from_le_bytes();
    if k > 0 {
        lemma_table_len(toks, cs, k - 1);
    }
}

/// Determinism: with a built model, two compressions of the same tokens
/// give the same outcome, byte for byte.
pub proof fn lemma_compress_deterministic(
    c: ArithmeticCompressor,
    ts: Seq<Seq<char>>,
    r1: Result<Vec<u8>, CodecError>,
    r2: Result<Vec<u8>, CodecError>,
)
    requires
        c.model_tokens().len() > 0,
        c.compress_outcome(ts, r1),
        c.compress_outcome(ts, r2),
    ensures
        r1 is Ok <==> r2 is Ok,
        r1 is Ok ==> r1->Ok_0@ == r2->Ok_0@,
        r1 is Err ==> r1 == r2,
{
}

/// Narrowing `[low, high)` to a slice of a non-empty count: the result lies
/// inside, starts below `high` unless the interval is empty, stays non-empty
/// when the interval is at least `t` wide, and stays `[low, low)` when empty.
proof fn lemma_narrow_strict(low: int, high: int, lo: int, hi: int, t: int)
    requires
        0 <= low <= high,
        0 <= lo < hi <= t,
    ensures
        ({
            let n = narrowed(low, high, lo, hi, t);
            &&& low <= n.0 <= n.1 <= high
            &&& high > low ==> n.0 < high
            &&& high - low >= t ==> n.1 - n.0 >= 1
            &&& high == low ==> n.0 == low && n.1 == low
        }),
{
    lemma_narrow_within(low, high, lo, hi, t);
    let r = high - low;
    if r > 0 {
        assert(r * lo < r * t) by (nonlinear_arith)
            requires
                0 < r,
                lo < t,
        ;
        vstd::arithmetic::div_mod::lemma_div_by_multiple_is_strongly_ordered(r * lo, r * t, r, t);
        vstd::arithmetic::div_mod::lemma_div_by_multiple(r, t);
    }
    if r >= t {
        assert(r * hi - r * lo >= t) by (nonlinear_arith)
            requires
                r >= t,
                hi - lo >= 1,
                t > 0,
        ;
        vstd::arithmetic::div_mod::lemma_div_is_ordered(t + r * lo, r * hi, t);
        vstd::arithmetic::div_mod::lemma_div_plus_one(r * lo, t);
    }
    if r == 0 {
        assert(r * lo == 0 && r * hi == 0) by (nonlinear_arith)
            requires
                r == 0,
        ;
        vstd::arithmetic::div_mod::lemma_div_multiples_vanish(0, t);
        assert(t * 0 == 0);
        assert(0int / t == 0);
    }

}

/// Step `k` of the narrowing for `ts`.
proof fn lemma_interval_step(toks: Seq<Seq<char>>, cs: Seq<u32>, ts: Seq<Seq<char>>, k: int)
    requires
        model_ok(toks, cs),
        all_known(toks, ts),
        0 <= k < ts.len(),
    ensures
        ({
            let p = interval(toks, cs, ts.take(k));
            let i = toks.index_of(ts[k]);
            &&& 0 <= i < toks.len()
            &&& toks[i] == ts[k]
            &&& 0 <= sum_to(cs, i) < sum_to(cs, i + 1) <= total(cs)
            &&& interval(toks, cs, ts.take(k + 1)) == narrowed(p.0, p.1, sum_to(cs, i), sum_to(cs, i + 1), total(cs))
        }),
{
    assert(ts.take(k + 1).drop_last() =~= ts.take(k));
    assert(ts.take(k + 1).last() == ts[k]);
    assert(toks.contains(ts[k]));
    let i = toks.index_of(ts[k]);
    assert(cs[i] > 0);
    lemma_sum_bounds(cs, i, i + 1);
    lemma_sum_bounds(cs, i + 1, cs.len() as int);
}

/// Every interval of the narrowing for `ts` lies in `[0, 2^32]` and starts below `2^32`.
proof fn lemma_interval_bounds(toks: Seq<Seq<char>>, cs: Seq<u32>, ts: Seq<Seq<char>>, k: int)
    requires
        model_ok(toks, cs),
        all_known(toks, ts),
        0 <= k <= ts.len(),
    ensures
        0 <= interval(toks, cs, ts.take(k)).0 <= interval(toks, cs, ts.take(k)).1 <= SCALE,
        interval(toks, cs, ts.take(k)).0 < SCALE,
    decreases k,
{
    if k == 0 {
        assert(ts.take(0) =~= Seq::<Seq<char>>::empty());
    } else {
        lemma_interval_bounds(toks, cs, ts, k - 1);
        lemma_interval_step(toks, cs, ts, k - 1);
        let p = interval(toks, cs, ts.take(k - 1));
        let i = toks.index_of(ts[k - 1]);
        lemma_narrow(p.0, p.1, sum_to(cs, i), sum_to(cs, i + 1), total(cs));
    }
}

/// Later intervals lie inside earlier ones.
proof fn lemma_interval_nested(toks: Seq<Seq<char>>, cs: Seq<u32>, ts: Seq<Seq<char>>, k: int, m: int)
    requires
        model_ok(toks, cs),
        all_known(toks, ts),
        0 <= k <= m <= ts.len(),
    ensures
        interval(toks, cs, ts.take(k)).0 <= interval(toks, cs, ts.take(m)).0,
        interval(toks, cs, ts.take(m)).1 <= interval(toks, cs, ts.take(k)).1,
    decreases m,
{
    if k < m {
        lemma_interval_nested(toks, cs, ts, k, m - 1);
        lemma_interval_step(toks, cs, ts, m - 1);
        lemma_interval_bounds(toks, cs, ts, m - 1);
        let p = interval(toks, cs, ts.take(m - 1));
        let i = toks.index_of(ts[m - 1]);
        lemma_narrow_strict(p.0, p.1, sum_to(cs, i), sum_to(cs, i + 1), total(cs));
    }
}

/// Once an interval is empty, every later one is the same point.
proof fn lemma_interval_collapsed(toks: Seq<Seq<char>>, cs: Seq<u32>, ts: Seq<Seq<char>>, j: int, m: int)
    requires
        model_ok(toks, cs),
        all_known(toks, ts),
        0 <= j <= m <= ts.len(),
        interval(toks, cs, ts.take(j)).0 == interval(toks, cs, ts.take(j)).1,
    ensures
        interval(toks, cs, ts.take(m)).0 == interval(toks, cs, ts.take(j)).0,
        interval(toks, cs, ts.take(m)).1 == interval(toks, cs, ts.take(j)).0,
    decreases m,
{
    if j < m {
        lemma_interval_collapsed(toks, cs, ts, j, m - 1);
        lemma_interval_step(toks, cs, ts, m - 1);
        lemma_interval_bounds(toks, cs, ts, m - 1);
        let p = interval(toks, cs, ts.take(m - 1));
        let i = toks.index_of(ts[m - 1]);
        lemma_narrow_strict(p.0, p.1, sum_to(cs, i), sum_to(cs, i + 1), total(cs));
    }
}

/// The point written for `ts` lies in every non-empty interval of its narrowing.
proof fn lemma_point_inside(toks: Seq<Seq<char>>, cs: Seq<u32>, ts: Seq<Seq<char>>, k: int)
    requires
        model_ok(toks, cs),
        all_known(toks, ts),
        0 <= k <= ts.len(),
        interval(toks, cs, ts.take(k)).0 < interval(toks, cs, ts.take(k)).1,
    ensures
        interval(toks, cs, ts.take(k)).0 <= midpoint(toks, cs, ts) < interval(toks, cs, ts.take(k)).1,
    decreases ts.len() - k,
{
    let n = ts.len() as int;
    assert(ts.take(n) =~= ts);
    lemma_interval_nested(toks, cs, ts, k, n);
    lemma_interval_bounds(toks, cs, ts, n);
    if k < n {
        let q = interval(toks, cs, ts.take(k + 1));
        lemma_interval_nested(toks, cs, ts, k, k + 1);
        if q.0 < q.1 {
            lemma_point_inside(toks, cs, ts, k + 1);
        } else {
            lemma_interval_bounds(toks, cs, ts, k + 1);
            lemma_interval_collapsed(toks, cs, ts, k + 1, n);
            lemma_interval_step(toks, cs, ts, k);
            lemma_interval_bounds(toks, cs, ts, k);
            let p = interval(toks, cs, ts.take(k));
            let i = toks.index_of(ts[k]);
            lemma_narrow_strict(p.0, p.1, sum_to(cs, i), sum_to(cs, i + 1), total(cs));
        }
    }
}

/// A point inside slice `i` of `[low, high)` is found there, the slices
/// before it ending where slice `i` starts or earlier.
proof fn lemma_first_slice_is(cs: Seq<u32>, low: int, high: int, value: int, from: int, i: int)
    requires
        0 <= from <= i < cs.len(),
        total(cs) > 0,
        0 <= low <= high,
        low + (high - low) * sum_to(cs, i) / total(cs) <= value,
        value < low + (high - low) * sum_to(cs, i + 1) / total(cs),
    ensures
        first_slice(cs, low, high, value, from) == Some(i),
    decreases i - from,
{
    if from < i {
        let r = high - low;
        lemma_sum_bounds(cs, from + 1, i);
        assert(r * sum_to(cs, from + 1) <= r * sum_to(cs, i)) by (nonlinear_arith)
            requires
                0 <= r,
                sum_to(cs, from + 1) <= sum_to(cs, i),
        ;
        vstd::arithmetic::div_mod::lemma_div_is_ordered(r * sum_to(cs, from + 1), r * sum_to(cs, i), total(cs));
        lemma_first_slice_is(cs, low, high, value, from + 1, i);
    }
}

/// While reading back the point of `ts` succeeds, it yields the tokens of
/// `ts` and replays their intervals.
proof fn lemma_steps_replay(toks: Seq<Seq<char>>, cs: Seq<u32>, ts: Seq<Seq<char>>, k: nat)
    requires
        model_ok(toks, cs),
        all_known(toks, ts),
        k <= ts.len(),
    ensures
        range_steps(toks, cs, midpoint(toks, cs, ts), k) is Some ==> range_steps(toks, cs, midpoint(toks, cs, ts), k)
            == Some((ts.take(k as int), interval(toks, cs, ts.take(k as int)).0, interval(toks, cs, ts.take(k as int)).1)),
    decreases k,
{
    let v = midpoint(toks, cs, ts);
    if k == 0 {
        assert(ts.take(0) =~= Seq::<Seq<char>>::empty());
    } else if range_steps(toks, cs, v, k) is Some {
        lemma_steps_replay(toks, cs, ts, (k - 1) as nat);
        let j = k - 1;
        lemma_interval_step(toks, cs, ts, j);
        lemma_interval_bounds(toks, cs, ts, j);
        let p = interval(toks, cs, ts.take(j));
        let i = toks.index_of(ts[j]);
        lemma_narrow_strict(p.0, p.1, sum_to(cs, i), sum_to(cs, i + 1), total(cs));
        lemma_point_inside(toks, cs, ts, k as int);
        lemma_first_slice_is(cs, p.0, p.1, v, 0, i);
        assert(ts.take(j).push(toks[i]) =~= ts.take(k as int));
    }
}

/// The table entries of the first `k` tokens start those of all of them.
proof fn lemma_table_prefix(toks: Seq<Seq<char>>, cs: Seq<u32>, k: int, m: int)
    requires
        0 <= k <= m <= toks.len(),
    ensures
        table_entries(toks, cs, k).is_prefix_of(table_entries(toks, cs, m)),
    decreases m,
{
    let whole = table_entries(toks, cs, m);
    if k == m {
        assert(whole.subrange(0, whole.len() as int) =~= whole);
    } else {
        lemma_table_prefix(toks, cs, k, m - 1);
        let a = table_entries(toks, cs, k);
        let b = table_entries(toks, cs, m - 1);
        assert(a =~= whole.subrange(0, a.len() as int)) by {
            assert forall|x: int| 0 <= x < a.len() implies a[x] == whole.subrange(0, a.len() as int)[x] by {
                assert(a[x] == b.subrange(0, a.len() as int)[x]);
            }
        }
    }
}

/// Reading `k` entries of a model's table gives back its first `k` tokens with their counts.
proof fn lemma_table_read(toks: Seq<Seq<char>>, cs: Seq<u32>, k: nat)
    requires
        model_ok(toks, cs),
        k <= toks.len(),
    ensures
        read_entries(table_bytes(toks, cs), k) == Some((
            Seq::new(toks.len(), |i: int| (toks[i], cs[i])).take(k as int),
            4 + table_entries(toks, cs, k as int).len() as int,
        )),
    decreases k,
{
    let region = table_bytes(toks, cs);
    let all = Seq::new(toks.len(), |i: int| (toks[i], cs[i]));
    let e = table_entries(toks, cs, toks.len() as int);
    lemma_auto_spec_u32_to_from_le_bytes();
    if k == 0 {
        assert(all.take(0) =~= Seq::<(Seq<char>, u32)>::empty());
    } else {
        lemma_table_read(toks, cs, (k - 1) as nat);
        let j = k - 1;
        let pb = table_entries(toks, cs, j);
        let x = entry_bytes(toks[j], cs[j] as int);
        assert(table_entries(toks, cs, k as int) == pb + x);
        lemma_table_prefix(toks, cs, k as int, toks.len() as int);
        assert(region.subrange(4, 4 + e.len() as int) =~= e);
        lemma_piece(region, 4, e, pb, x);
        lemma_table_size(toks, k as int, toks.len() as int);
        lemma_table_size(toks, j, j);
        assert(table_size(toks, k as int) == table_size(toks, j) + 8 + encode_utf8(toks[j]).len());
        lemma_read_entry(region, 4 + pb.len() as int, toks[j], cs[j] as int);
        assert(all.take(k as int) =~= all.take(j).push((toks[j], cs[j])));
    }
}

/// No wrong tokens: reading back the payload of a token sequence, all of
/// whose tokens the model holds, either fails or gives exactly that sequence.
pub proof fn lemma_decoded_is_original(toks: Seq<Seq<char>>, cs: Seq<u32>, ts: Seq<Seq<char>>)
    requires
        model_ok(toks, cs),
        all_known(toks, ts),
        ts.len() <= U32_LIMIT,
    ensures
        decoded(encoded(toks, cs, ts)) is Some ==> decoded(encoded(toks, cs, ts)) == Some(ts),
{
    lemma_auto_spec_u32_to_from_le_bytes();
    let data = encoded(toks, cs, ts);
    let tb = table_bytes(toks, cs);
    let v = midpoint(toks, cs, ts);
    let n = ts.len() as int;
    assert(ts.take(n) =~= ts);
    lemma_interval_bounds(toks, cs, ts, n);
    lemma_table_len(toks, cs, toks.len() as int);
    lemma_table_size(toks, toks.len() as int, toks.len() as int);
    assert(data.subrange(0, 4) =~= le32(n));
    assert(data.subrange(4, 8) =~= le32(v));
    assert(data.subrange(8, 12) =~= le32(tb.len() as int));
    assert(data.subrange(12, 12 + tb.len() as int) =~= tb);
    assert(tb.subrange(0, 4) =~= le32(toks.len() as int));
    lemma_table_read(toks, cs, toks.len());
    let all = Seq::new(toks.len(), |i: int| (toks[i], cs[i]));
    assert(all.take(toks.len() as int) =~= all);
    assert(all.map_values(|e: (Seq<char>, u32)| e.0) =~= toks);
    assert(all.map_values(|e: (Seq<char>, u32)| e.1) =~= cs);
    lemma_steps_replay(toks, cs, ts, ts.len());
}

/// No wrong tokens, through the two operations: when `compress` succeeds,
/// with a built model or one made from `ts` itself, and `decompress` of its
/// bytes succeeds too, it gives back `ts`.
pub proof fn lemma_compress_decompress(
    c: ArithmeticCompressor,
    ts: Seq<Seq<char>>,
    r1: Result<Vec<u8>, CodecError>,
    r2: Result<Vec<String>, CodecError>,
)
    requires
        model_ok(c.model_tokens(), c.model_counts()),
        ts.len() <= U32_LIMIT,
        c.compress_outcome(ts, r1),
        r1 is Ok,
        c.decompress_outcome(r1->Ok_0@, r2),
        r2 is Ok,
    ensures
        texts(r2->Ok_0@) == ts,
{
    if c.model_tokens().len() > 0 {
        lemma_decoded_is_original(c.model_tokens(), c.model_counts(), ts);
    } else {
        let d = distinct(ts);
        let cs = choose|cs: Seq<u32>| {
            &&& cs.len() == d.len()
            &&& (forall|i: int| 0 <= i < cs.len() ==> #[trigger] cs[i] as nat == occurrences(ts, d[i]))
            &&& r1->Ok_0@ == #[trigger] encoded(d, cs, ts)
        };
        lemma_distinct(ts);
        assert forall|k: int| 0 <= k < ts.len() implies d.contains(#[trigger] ts[k]) by {
            assert(ts.contains(ts[k]));
        }
        assert forall|i: int| 0 <= i < cs.len() implies #[trigger] cs[i] > 0 by {
            assert(d.contains(d[i]));
            crate::frequency::lemma_occurrences_bound(ts, d[i]);
        }
        lemma_decoded_is_original(d, cs, ts);
    }
}

} // verus!
