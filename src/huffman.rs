//! The prefix-code codec.
//!
//! Payload: the token count as four little-endian bytes, then the code of
//! each token in order, packed lowest bit first and padded to a byte. The
//! codebook is not embedded: the decoder must hold the same model.
use vstd::prelude::*;
use vstd::bytes::{spec_u32_to_le_bytes, spec_u32_from_le_bytes, u32_to_le_bytes, u32_from_le_bytes, lemma_auto_spec_u32_to_from_le_bytes};
use vstd::slice::slice_subrange;
use crate::bits::{bit_at, packed, get_bit, pack_bits, lemma_packed_bits, append};
use crate::error::CodecError;
use crate::frequency::{texts, distinct, occurrences, lemma_distinct, position_of, FrequencyTable};
use crate::prefix_code::{prefix_free, complete, code_bits, build_codes};

verus! {

/// `toks[i]` has code `codes[i]`: tokens are distinct, codes non-empty and prefix-free.
pub open spec fn codebook_ok(toks: Seq<Seq<char>>, codes: Seq<Seq<bool>>) -> bool {
    &&& toks.len() == codes.len()
    &&& toks.no_duplicates()
    &&& prefix_free(codes)
    &&& forall|i: int| 0 <= i < codes.len() ==> (#[trigger] codes[i]).len() > 0
}

/// No token of `toks` that occurs more often in `c` than another has a longer code.
pub open spec fn frequent_first(c: Seq<Seq<char>>, toks: Seq<Seq<char>>, codes: Seq<Seq<bool>>) -> bool {
    forall|i: int, j: int|
        0 <= i < toks.len() && 0 <= j < toks.len() && occurrences(c, toks[i]) > occurrences(c, toks[j])
            ==> (#[trigger] codes[i]).len() <= (#[trigger] codes[j]).len()
}

/// Every token of `ts` is one of `toks`.
pub open spec fn all_known(toks: Seq<Seq<char>>, ts: Seq<Seq<char>>) -> bool {
    forall|k: int| 0 <= k < ts.len() ==> toks.contains(#[trigger] ts[k])
}

/// The code of token `t`.
pub open spec fn code_of(toks: Seq<Seq<char>>, codes: Seq<Seq<bool>>, t: Seq<char>) -> Seq<bool> {
    codes[toks.index_of(t)]
}

/// The codes of `ts`, one after the other.
pub open spec fn code_stream(toks: Seq<Seq<char>>, codes: Seq<Seq<bool>>, ts: Seq<Seq<char>>) -> Seq<bool>
    decreases ts.len(),
{
    if ts.len() == 0 {
        Seq::empty()
    } else {
        code_stream(toks, codes, ts.drop_last()) + code_of(toks, codes, ts.last())
    }
}

/// The payload for `ts`: its count, then its packed code stream.
pub open spec fn encoded(toks: Seq<Seq<char>>, codes: Seq<Seq<bool>>, ts: Seq<Seq<char>>) -> Seq<u8> {
    spec_u32_to_le_bytes(ts.len() as u32) + packed(code_stream(toks, codes, ts))
}

/// `code` stands in the bits of `stream` from position `pos` on.
pub open spec fn matches_at(stream: Seq<u8>, pos: int, code: Seq<bool>) -> bool {
    &&& pos + code.len() <= stream.len() * 8
    &&& forall|q: int| 0 <= q < code.len() ==> bit_at(stream, pos + q) == #[trigger] code[q]
}

/// The first index from `from` on whose code stands at `pos`.
pub open spec fn first_match(codes: Seq<Seq<bool>>, stream: Seq<u8>, pos: int, from: int) -> Option<int>
    decreases codes.len() - from,
{
    if from < 0 || from >= codes.len() {
        None
    } else if matches_at(stream, pos, codes[from]) {
        Some(from)
    } else {
        first_match(codes, stream, pos, from + 1)
    }
}

/// The first `k` tokens read from `stream`, and the bit position after them.
pub open spec fn decode_steps(toks: Seq<Seq<char>>, codes: Seq<Seq<bool>>, stream: Seq<u8>, k: nat) -> Option<(Seq<Seq<char>>, int)>
    decreases k,
{
    if k == 0 {
        Some((Seq::empty(), 0))
    } else {
        match decode_steps(toks, codes, stream, (k - 1) as nat) {
            None => None,
            Some((ts, pos)) => match first_match(codes, stream, pos, 0) {
                None => None,
                Some(i) => Some((ts.push(toks[i]), pos + codes[i].len())),
            },
        }
    }
}

/// The tokens that a payload holds, if it can be read.
pub open spec fn decoded(toks: Seq<Seq<char>>, codes: Seq<Seq<bool>>, data: Seq<u8>) -> Option<Seq<Seq<char>>> {
    if data.len() < 4 {
        None
    } else {
        match decode_steps(toks, codes, data.skip(4), spec_u32_from_le_bytes(data.take(4)) as nat) {
            Some((ts, _)) => Some(ts),
            None => None,
        }
    }
}

proof fn lemma_index_of(s: Seq<Seq<char>>, k: int)
    requires
        s.no_duplicates(),
        0 <= k < s.len(),
    ensures
        s.index_of(s[k]) == k,
{
    assert(s.contains(s[k]));
}

/// Whether `code` stands in `stream` from bit `pos` on.
fn code_matches(stream: &[u8], pos: u128, code: &Vec<bool>) -> (r: bool)
    requires
        pos <= stream@.len() * 8,
    ensures
        r == matches_at(stream@, pos as int, code@),
{
    let avail: u128 = (stream.len() as u128) * 8;
    if code.len() as u128 > avail - pos {
        return false;
    }
    let n: usize = stream.len();
    let mut q: usize = 0;
    while q < code.len()
        invariant
            n == stream@.len(),
            pos + code@.len() <= stream@.len() * 8,
            q <= code@.len(),
            forall|p: int| 0 <= p < q ==> bit_at(stream@, pos + p) == #[trigger] code@[p],
        decreases code@.len() - q,
    {
        if get_bit(stream, pos + q as u128) != code[q] {
            return false;
        }
        q = q + 1;
    }
    true
}

/// Prefix-code compressor: a codebook built from a corpus.
pub struct HuffmanCompressor {
    tokens: Vec<String>,
    codes: Vec<Vec<bool>>,
}

impl HuffmanCompressor {
    /// The tokens of the model, in order of first occurrence in the corpus.
    pub closed spec fn model_tokens(&self) -> Seq<Seq<char>> {
        texts(self.tokens@)
    }

    /// The code of each model token.
    pub closed spec fn model_codes(&self) -> Seq<Seq<bool>> {
        code_bits(self.codes@)
    }

    #[verifier::type_invariant]
    closed spec fn inv(&self) -> bool {
        &&& codebook_ok(self.model_tokens(), self.model_codes())
        &&& complete(self.model_codes())
    }

    /// A compressor with no model yet.
    pub fn new() -> (r: HuffmanCompressor)
        ensures
            r.model_tokens().len() == 0,
    {
        let r = HuffmanCompressor { tokens: Vec::new(), codes: Vec::new() };
        assert(r.model_tokens() =~= Seq::empty());
        r
    }

    /// The name of this compression strategy.
    pub fn algorithm_name(&self) -> (r: &'static str)
        ensures
            r@ == "huffman"@,
    {
        "huffman"
    }

    /// The model holds a valid codebook that fills the code space.
    pub fn model_ok(&self)
        ensures
            codebook_ok(self.model_tokens(), self.model_codes()),
            complete(self.model_codes()),
    {
        proof { use_type_invariant(self); }
    }

    /// The code of `token`, if the model holds it.
    pub fn code_for(&self, token: &String) -> (r: Option<Vec<bool>>)
        ensures
            match r {
                Some(c) => self.model_tokens().contains(token@) && c@ == code_of(self.model_tokens(), self.model_codes(), token@),
                None => !self.model_tokens().contains(token@),
            },
    {
        proof { use_type_invariant(self); }
        match position_of(&self.tokens, token) {
            Some(k) => {
                proof {
                    assert(self.model_tokens()[k as int] == token@);
                    lemma_index_of(self.model_tokens(), k as int);
                    assert(self.model_codes()[k as int] == self.codes@[k as int]@);
                }
                Some(self.codes[k].clone())
            },
            None => {
                assert(!self.model_tokens().contains(token@)) by {
                    if self.model_tokens().contains(token@) {
                        let q = choose|q: int| 0 <= q < self.model_tokens().len() && self.model_tokens()[q] == token@;
                        assert(self.tokens@[q]@ == token@);
                    }
                }
                None
            },
        }
    }

    /// Builds the codebook of `corpus`; fails on an empty corpus.
    fn build(corpus: &[String]) -> (r: Result<HuffmanCompressor, CodecError>)
        ensures
            corpus@.len() == 0 <==> r is Err,
            r is Err ==> r == Err::<HuffmanCompressor, CodecError>(CodecError::ModelConstruction),
            r is Ok ==> r->Ok_0.model_tokens() == distinct(texts(corpus@)),
            r is Ok ==> frequent_first(texts(corpus@), r->Ok_0.model_tokens(), r->Ok_0.model_codes()),
    {
        if corpus.len() == 0 {
            return Err(CodecError::ModelConstruction);
        }
        let table = FrequencyTable::count(corpus);
        proof {
            lemma_distinct(texts(corpus@));
            assert(texts(corpus@).contains(texts(corpus@)[0]));
        }
        let codes = build_codes(&table.counts);
        proof {
            let toks = texts(table.tokens@);
            assert forall|i: int, j: int|
                0 <= i < toks.len() && 0 <= j < toks.len() && occurrences(texts(corpus@), toks[i]) > occurrences(texts(corpus@), toks[j])
                    implies (#[trigger] code_bits(codes@)[i]).len() <= (#[trigger] code_bits(codes@)[j]).len() by {
                assert(table.counts@[i] as nat == occurrences(texts(corpus@), table.tokens@[i]@));
                assert(table.counts@[j] as nat == occurrences(texts(corpus@), table.tokens@[j]@));
                assert(code_bits(codes@)[i] == codes@[i]@);
                assert(code_bits(codes@)[j] == codes@[j]@);
            }
        }
        let r = HuffmanCompressor { tokens: table.tokens, codes };
        Ok(r)
    }

    /// Builds the model from `corpus`, replacing any earlier one. An empty
    /// corpus is refused and leaves the model as it was.
    pub fn build_from_corpus(&mut self, corpus: &[String]) -> (r: Result<(), CodecError>)
        ensures
            corpus@.len() == 0 <==> r is Err,
            r is Err ==> r == Err::<(), CodecError>(CodecError::ModelConstruction) && *final(self)
                == *old(self),
            r is Ok ==> final(self).model_tokens() == distinct(texts(corpus@)),
            r is Ok ==> frequent_first(texts(corpus@), final(self).model_tokens(), final(self).model_codes()),
            codebook_ok(final(self).model_tokens(), final(self).model_codes()),
            complete(final(self).model_codes()),
    {
        match Self::build(corpus) {
            Ok(m) => {
                *self = m;
                proof { use_type_invariant(&*self); }
                Ok(())
            },
            Err(e) => {
                proof { use_type_invariant(&*self); }
                Err(e)
            },
        }
    }

    /// Encodes `tokens` with this model.
    fn encode(&self, tokens: &[String]) -> (r: Result<Vec<u8>, CodecError>)
        requires
            tokens@.len() <= u32::MAX,
        ensures
            all_known(self.model_tokens(), texts(tokens@)) <==> r is Ok,
            r is Ok ==> r->Ok_0@ == encoded(self.model_tokens(), self.model_codes(), texts(tokens@)),
            r is Err ==> r == Err::<Vec<u8>, CodecError>(CodecError::UnknownToken),
    {
        proof { use_type_invariant(self); }
        let ghost toks = self.model_tokens();
        let ghost codes = self.model_codes();
        let ghost ts = texts(tokens@);
        let mut bits: Vec<bool> = Vec::new();
        let mut j: usize = 0;
        while j < tokens.len()
            invariant
                codebook_ok(toks, codes),
                toks == self.model_tokens(),
                codes == self.model_codes(),
                ts == texts(tokens@),
                j <= tokens@.len(),
                all_known(toks, ts.take(j as int)),
                bits@ == code_stream(toks, codes, ts.take(j as int)),
            decreases tokens@.len() - j,
        {
            match position_of(&self.tokens, &tokens[j]) {
                None => {
                    assert(!all_known(toks, ts)) by {
                        if all_known(toks, ts) {
                            assert(toks.contains(ts[j as int]));
                            let q = choose|q: int| 0 <= q < toks.len() && toks[q] == ts[j as int];
                            assert(self.tokens@[q]@ == toks[q]);
                        }
                    }
                    return Err(CodecError::UnknownToken);
                },
                Some(k) => {
                    append(&mut bits, self.codes[k].as_slice());
                    proof {
                        let next = ts.take(j + 1);
                        assert(next.drop_last() =~= ts.take(j as int));
                        assert(toks[k as int] == ts[j as int]);
                        lemma_index_of(toks, k as int);
                        assert(codes[k as int] == self.codes@[k as int]@);
                        assert forall|q: int| 0 <= q < next.len() implies toks.contains(#[trigger] next[q]) by {
                            if q == j {
                                assert(toks[k as int] == next[q]);
                            } else {
                                assert(ts.take(j as int)[q] == next[q]);
                            }
                        }
                    }
                },
            }
            j = j + 1;
        }
        assert(ts.take(tokens@.len() as int) =~= ts);
        let mut out = u32_to_le_bytes(tokens.len() as u32);
        let packed_bits = pack_bits(&bits);
        append(&mut out, packed_bits.as_slice());
        Ok(out)
    }

    /// What `compress` returns for tokens `ts`.
    pub open spec fn compress_outcome(&self, ts: Seq<Seq<char>>, r: Result<Vec<u8>, CodecError>) -> bool {
        &&& self.model_tokens().len() > 0 ==> {
            &&& all_known(self.model_tokens(), ts) <==> r is Ok
            &&& r is Ok ==> r->Ok_0@ == encoded(self.model_tokens(), self.model_codes(), ts)
            &&& r is Err ==> r == Err::<Vec<u8>, CodecError>(CodecError::UnknownToken)
        }
        &&& self.model_tokens().len() == 0 ==> {
            &&& ts.len() == 0 <==> r is Err
            &&& r is Err ==> r == Err::<Vec<u8>, CodecError>(CodecError::ModelConstruction)
            &&& r is Ok ==> exists|codes: Seq<Seq<bool>>| {
                &&& codebook_ok(distinct(ts), codes)
                &&& complete(codes)
                &&& frequent_first(ts, distinct(ts), codes)
                &&& r->Ok_0@ == #[trigger] encoded(distinct(ts), codes, ts)
            }
        }
    }

    /// What `decompress` returns for payload `data`.
    pub open spec fn decompress_outcome(&self, data: Seq<u8>, r: Result<Vec<String>, CodecError>) -> bool {
        match decoded(self.model_tokens(), self.model_codes(), data) {
            Some(ts) => r is Ok && texts(r->Ok_0@) == ts,
            None => r == Err::<Vec<String>, CodecError>(CodecError::MalformedPayload),
        }
    }

    /// Compresses `tokens`. With no model yet, a model built from `tokens`
    /// themselves serves for this call alone (an empty sequence then fails).
    pub fn compress(&self, tokens: &[String]) -> (r: Result<Vec<u8>, CodecError>)
        requires
            tokens@.len() <= u32::MAX,
        ensures
            self.compress_outcome(texts(tokens@), r),
    {
        if self.tokens.len() > 0 {
            self.encode(tokens)
        } else {
            match Self::build(tokens) {
                Err(e) => Err(e),
                Ok(m) => {
                    proof {
                        use_type_invariant(&m);
                        lemma_distinct(texts(tokens@));
                        assert forall|k: int| 0 <= k < texts(tokens@).len() implies m.model_tokens().contains(#[trigger] texts(tokens@)[k]) by {
                            assert(texts(tokens@).contains(texts(tokens@)[k]));
                        }
                    }
                    let r = m.encode(tokens);
                    proof {
                        let ghost b = r->Ok_0@;
                        assert(encoded(distinct(texts(tokens@)), m.model_codes(), texts(tokens@)) == b);
                    }
                    r
                },
            }
        }
    }

    /// The first model code that stands in `stream` at bit `pos`.
    fn find_code(&self, stream: &[u8], pos: u128) -> (r: Option<usize>)
        requires
            pos <= stream@.len() * 8,
        ensures
            match r {
                Some(k) => k < self.codes@.len() && first_match(self.model_codes(), stream@, pos as int, 0) == Some(k as int),
                None => first_match(self.model_codes(), stream@, pos as int, 0) is None,
            },
    {
        let ghost codes = self.model_codes();
        let mut k: usize = 0;
        while k < self.codes.len()
            invariant
                pos <= stream@.len() * 8,
                codes == self.model_codes(),
                k <= codes.len(),
                codes.len() == self.codes@.len(),
                first_match(codes, stream@, pos as int, 0) == first_match(codes, stream@, pos as int, k as int),
            decreases codes.len() - k,
        {
            assert(codes[k as int] == self.codes@[k as int]@);
            if code_matches(stream, pos, &self.codes[k]) {
                return Some(k);
            }
            k = k + 1;
        }
        None
    }

    /// Decodes a payload made by `compress` under this model.
    pub fn decompress(&self, data: &[u8]) -> (r: Result<Vec<String>, CodecError>)
        ensures
            self.decompress_outcome(data@, r),
    {
        proof { use_type_invariant(self); }
        let ghost toks = self.model_tokens();
        let ghost codes = self.model_codes();
        if data.len() < 4 {
            return Err(CodecError::MalformedPayload);
        }
        let head = slice_subrange(data, 0, 4);
        let count: u32 = u32_from_le_bytes(head);
        let stream = slice_subrange(data, 4, data.len());
        assert(head@ =~= data@.take(4));
        assert(stream@ =~= data@.skip(4));
        let n: usize = stream.len();
        let mut out: Vec<String> = Vec::new();
        let mut pos: u128 = 0;
        let mut i: u32 = 0;
        assert(texts(out@) =~= Seq::empty());
        while i < count
            invariant
                codebook_ok(toks, codes),
                toks == self.model_tokens(),
                codes == self.model_codes(),
                i <= count,
                count == spec_u32_from_le_bytes(data@.take(4)),
                stream@ == data@.skip(4),
                n == stream@.len(),
                pos <= stream@.len() * 8,
                decode_steps(toks, codes, stream@, i as nat) == Some((texts(out@), pos as int)),
            decreases count - i,
        {
            match self.find_code(stream, pos) {
                None => {
                    assert(decode_steps(toks, codes, stream@, (i + 1) as nat) is None);
                    proof {
                        lemma_steps_none(toks, codes, stream@, (i + 1) as nat, count as nat);
                        assert(count == spec_u32_from_le_bytes(data@.take(4)));
                        assert(decode_steps(toks, codes, data@.skip(4), count as nat) is None);
                    }
                    return Err(CodecError::MalformedPayload);
                },
                Some(k) => {
                    proof { lemma_first_match_some(codes, stream@, pos as int, 0); }
                    let ghost before = texts(out@);
                    out.push(self.tokens[k].clone());
                    assert(texts(out@) =~= before.push(toks[k as int]));
                    assert(codes[k as int] == self.codes@[k as int]@);
                    pos = pos + self.codes[k].len() as u128;
                },
            }
            i = i + 1;
        }
        Ok(out)
    }
}

proof fn lemma_first_match_some(codes: Seq<Seq<bool>>, stream: Seq<u8>, pos: int, from: int)
    ensures
        match first_match(codes, stream, pos, from) {
            Some(k) => from <= k < codes.len() && 0 <= k && matches_at(stream, pos, codes[k]),
            None => true,
        },
    decreases codes.len() - from,
{
    if 0 <= from < codes.len() && !matches_at(stream, pos, codes[from]) {
        lemma_first_match_some(codes, stream, pos, from + 1);
    }
}

/// Once a step fails, every later one fails too.
proof fn lemma_steps_none(toks: Seq<Seq<char>>, codes: Seq<Seq<bool>>, stream: Seq<u8>, i: nat, n: nat)
    requires
        i <= n,
        decode_steps(toks, codes, stream, i) is None,
    ensures
        decode_steps(toks, codes, stream, n) is None,
    decreases n - i,
{
    if i < n {
        lemma_steps_none(toks, codes, stream, i + 1, n);
    }
}

proof fn lemma_first_match_found(codes: Seq<Seq<bool>>, stream: Seq<u8>, pos: int, from: int, i: int)
    requires
        0 <= from <= i < codes.len(),
        matches_at(stream, pos, codes[i]),
    ensures
        first_match(codes, stream, pos, from) is Some,
    decreases i - from,
{
    if from < i && !matches_at(stream, pos, codes[from]) {
        lemma_first_match_found(codes, stream, pos, from + 1, i);
    }
}

/// Two codes that both stand at one position: the shorter starts the longer.
proof fn lemma_two_matches(stream: Seq<u8>, pos: int, x: Seq<bool>, y: Seq<bool>)
    requires
        matches_at(stream, pos, x),
        matches_at(stream, pos, y),
        x.len() <= y.len(),
    ensures
        x.is_prefix_of(y),
{
    assert forall|r: int| 0 <= r < x.len() implies x[r] == y.subrange(0, x.len() as int)[r] by {
        assert(bit_at(stream, pos + r) == x[r]);
        assert(bit_at(stream, pos + r) == y[r]);
    }
    assert(x =~= y.subrange(0, x.len() as int));
}

/// The codes of the first `m` tokens start the codes of all of them.
proof fn lemma_stream_prefix(toks: Seq<Seq<char>>, codes: Seq<Seq<bool>>, ts: Seq<Seq<char>>, m: int)
    requires
        0 <= m <= ts.len(),
    ensures
        code_stream(toks, codes, ts.take(m)).is_prefix_of(code_stream(toks, codes, ts)),
    decreases ts.len(),
{
    let whole = code_stream(toks, codes, ts);
    if m == ts.len() {
        assert(ts.take(m) =~= ts);
        assert(whole.subrange(0, whole.len() as int) =~= whole);
    } else {
        let p = ts.drop_last();
        assert(ts.take(m) =~= p.take(m));
        lemma_stream_prefix(toks, codes, p, m);
        let a = code_stream(toks, codes, p.take(m));
        let b = code_stream(toks, codes, p);
        assert(whole == b + code_of(toks, codes, ts.last()));
        assert(a =~= whole.subrange(0, a.len() as int)) by {
            assert forall|r: int| 0 <= r < a.len() implies a[r] == whole.subrange(0, a.len() as int)[r] by {
                assert(a[r] == b.subrange(0, a.len() as int)[r]);
            }
        }
    }
}

/// Reading `k` tokens from bytes `q` whose bits agree with the code stream
/// of `ts`: the first `k` tokens of `ts` come back while their codes fit in
/// `q`, and reading fails once they do not.
proof fn lemma_steps(toks: Seq<Seq<char>>, codes: Seq<Seq<bool>>, ts: Seq<Seq<char>>, q: Seq<u8>, k: nat)
    requires
        codebook_ok(toks, codes),
        all_known(toks, ts),
        k <= ts.len(),
        forall|x: int|
            0 <= x < q.len() * 8 && x < code_stream(toks, codes, ts).len() ==> #[trigger] bit_at(q, x)
                == code_stream(toks, codes, ts)[x],
    ensures
        decode_steps(toks, codes, q, k) == if code_stream(toks, codes, ts.take(k as int)).len() <= q.len()
            * 8 {
            Some((ts.take(k as int), code_stream(toks, codes, ts.take(k as int)).len() as int))
        } else {
            None::<(Seq<Seq<char>>, int)>
        },
    decreases k,
{
    let whole = code_stream(toks, codes, ts);
    if k == 0 {
        assert(ts.take(0) =~= Seq::<Seq<char>>::empty());
    } else {
        lemma_steps(toks, codes, ts, q, (k - 1) as nat);
        let prev = ts.take(k - 1);
        let cur = ts.take(k as int);
        assert(cur.drop_last() =~= prev);
        let t = ts[k - 1];
        assert(toks.contains(t));
        let i = toks.index_of(t);
        let pre = code_stream(toks, codes, prev);
        let c = codes[i];
        assert(code_stream(toks, codes, cur) == pre + c);
        lemma_stream_prefix(toks, codes, ts, k as int);
        let now = pre + c;
        assert(now.len() <= whole.len());
        if pre.len() <= q.len() * 8 {
            let pos = pre.len() as int;
            assert forall|r: int| 0 <= r < c.len() && pos + r < q.len() * 8 implies bit_at(q, pos + r) == #[trigger] c[r] by {
                assert(whole.subrange(0, now.len() as int)[pos + r] == now[pos + r]);
                assert(bit_at(q, pos + r) == whole[pos + r]);
            }
            if now.len() <= q.len() * 8 {
                assert(matches_at(q, pos, c));
                lemma_first_match_found(codes, q, pos, 0, i);
                lemma_first_match_some(codes, q, pos, 0);
                let j = first_match(codes, q, pos, 0)->Some_0;
                if j != i {
                    if codes[j].len() <= c.len() {
                        lemma_two_matches(q, pos, codes[j], c);
                    } else {
                        lemma_two_matches(q, pos, c, codes[j]);
                    }
                }
                assert(cur =~= prev.push(toks[i]));
            } else {
                lemma_first_match_some(codes, q, pos, 0);
                if first_match(codes, q, pos, 0) is Some {
                    let j = first_match(codes, q, pos, 0)->Some_0;
                    let cj = codes[j];
                    assert(cj.len() < c.len());
                    assert(cj =~= c.subrange(0, cj.len() as int)) by {
                        assert forall|r: int| 0 <= r < cj.len() implies cj[r] == c.subrange(0, cj.len() as int)[r] by {
                            assert(bit_at(q, pos + r) == cj[r]);
                        }
                    }
                    assert(cj.is_prefix_of(c));
                }
            }
        }
    }
}

/// The payload of `ts` starts with its count and holds its code stream after that.
proof fn lemma_payload(toks: Seq<Seq<char>>, codes: Seq<Seq<bool>>, ts: Seq<Seq<char>>)
    requires
        ts.len() <= u32::MAX,
    ensures
        encoded(toks, codes, ts).len() == 4 + packed(code_stream(toks, codes, ts)).len(),
        encoded(toks, codes, ts).take(4) == spec_u32_to_le_bytes(ts.len() as u32),
        spec_u32_from_le_bytes(spec_u32_to_le_bytes(ts.len() as u32)) == ts.len(),
        encoded(toks, codes, ts).skip(4) == packed(code_stream(toks, codes, ts)),
        forall|x: int|
            0 <= x < code_stream(toks, codes, ts).len() ==> #[trigger] bit_at(packed(code_stream(toks, codes, ts)), x)
                == code_stream(toks, codes, ts)[x],
{
    lemma_auto_spec_u32_to_from_le_bytes();
    lemma_packed_bits(code_stream(toks, codes, ts));
    let head = spec_u32_to_le_bytes(ts.len() as u32);
    let body = packed(code_stream(toks, codes, ts));
    assert((head + body).take(4) =~= head);
    assert((head + body).skip(4) =~= body);
}

/// Round trip: decoding the payload of a token sequence, all of whose tokens
/// the codebook holds, gives back that sequence, in order.
pub proof fn lemma_round_trip(toks: Seq<Seq<char>>, codes: Seq<Seq<bool>>, ts: Seq<Seq<char>>)
    requires
        codebook_ok(toks, codes),
        all_known(toks, ts),
        ts.len() <= u32::MAX,
    ensures
        decoded(toks, codes, encoded(toks, codes, ts)) == Some(ts),
{
    let data = encoded(toks, codes, ts);
    lemma_payload(toks, codes, ts);
    let whole = code_stream(toks, codes, ts);
    let body = packed(whole);
    lemma_steps(toks, codes, ts, body, ts.len());
    assert(ts.take(ts.len() as int) =~= ts);
}

/// A payload cut short fails: no strict prefix of the payload of a token
/// sequence decodes, whatever the sequence.
pub proof fn lemma_truncated_fails(toks: Seq<Seq<char>>, codes: Seq<Seq<bool>>, ts: Seq<Seq<char>>, m: int)
    requires
        codebook_ok(toks, codes),
        all_known(toks, ts),
        ts.len() <= u32::MAX,
        0 <= m < encoded(toks, codes, ts).len(),
    ensures
        decoded(toks, codes, encoded(toks, codes, ts).take(m)) is None,
{
    let data = encoded(toks, codes, ts);
    lemma_payload(toks, codes, ts);
    let whole = code_stream(toks, codes, ts);
    let body = packed(whole);
    let cut = data.take(m);
    if m >= 4 {
        let q = cut.skip(4);
        assert(q =~= body.take(m - 4));
        assert(cut.take(4) =~= data.take(4));
        assert forall|x: int| 0 <= x < q.len() * 8 && x < whole.len() implies #[trigger] bit_at(q, x) == whole[x] by {
            assert(bit_at(body, x) == whole[x]);
            assert(q[x / 8] == body[x / 8]);
        }
        lemma_steps(toks, codes, ts, q, ts.len());
        assert(ts.take(ts.len() as int) =~= ts);
        assert(q.len() * 8 < whole.len());
    }
}

/// Determinism: with a built model, two compressions of the same tokens
/// give the same outcome, byte for byte.
pub proof fn lemma_compress_deterministic(
    c: HuffmanCompressor,
    ts: Seq<Seq<char>>,
    r1: Result<Vec<u8>, CodecError>,
    r2: Result<Vec<u8>, CodecError>,
)
    requires
        c.model_tokens().len() > 0,
        c.compress_outcome(ts, r1),
        c.compress_outcome(ts, r2),
    ensures
        r1 is Ok <==> r2 is Ok,
        r1 is Ok ==> r1->Ok_0@ == r2->Ok_0@,
        r1 is Err ==> r1 == r2,
{
}

/// Round trip through the two operations: with a built model holding every
/// token of `ts`, decompressing what `compress` returned gives `ts` back.
pub proof fn lemma_compress_decompress(
    c: HuffmanCompressor,
    ts: Seq<Seq<char>>,
    r1: Result<Vec<u8>, CodecError>,
    r2: Result<Vec<String>, CodecError>,
)
    requires
        codebook_ok(c.model_tokens(), c.model_codes()),
        c.model_tokens().len() > 0,
        all_known(c.model_tokens(), ts),
        ts.len() <= u32::MAX,
        c.compress_outcome(ts, r1),
        r1 is Ok ==> c.decompress_outcome(r1->Ok_0@, r2),
    ensures
        r1 is Ok,
        r2 is Ok && texts(r2->Ok_0@) == ts,
{
    lemma_round_trip(c.model_tokens(), c.model_codes(), ts);
}

} // verus!
