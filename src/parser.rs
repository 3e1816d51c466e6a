//! Parsers that turn tag text into token lists.
use vstd::prelude::*;
use vstd::string::{StrSliceExecFns, StringExecFns};
use crate::frequency::texts;

verus! {

/// Why a tag text could not be parsed or written.
#[derive(Debug, Clone, Copy, PartialEq, Eq, Structural)]
pub enum FormatError {
    /// The input is not in the parser's format.
    InvalidInput,
    /// The tags could not be written in the format.
    Serialization,
}

#[verifier::external_type_specification]
#[verifier::external_body]
pub struct ExJsonError(serde_json::Error);

/// The strings of a JSON array of strings, or `None` if `s` is not one.
pub uninterp spec fn json_string_list(s: Seq<char>) -> Option<Seq<Seq<char>>>;

/// `c` has the Unicode White_Space property.
pub open spec fn is_white(c: char) -> bool {
    let u = c as u32;
    (9 <= u && u <= 13) || u == 32 || u == 0x85 || u == 0xa0 || u == 0x1680 || (0x2000 <= u && u
        <= 0x200a) || u == 0x2028 || u == 0x2029 || u == 0x202f || u == 0x205f || u == 0x3000
}

/// The maximal runs of non-whitespace characters of `s`, in order.
pub open spec fn whitespace_fields(s: Seq<char>) -> Seq<Seq<char>>
    decreases s.len(),
{
    if s.len() == 0 {
        Seq::empty()
    } else {
        let f = whitespace_fields(s.drop_last());
        let c = s.last();
        if is_white(c) {
            f
        } else if s.len() >= 2 && !is_white(s[s.len() - 2]) {
            f.update(f.len() - 1, f.last().push(c))
        } else {
            f.push(seq![c])
        }
    }
}

/// `s` without its leading whitespace.
pub open spec fn trim_start(s: Seq<char>) -> Seq<char>
    decreases s.len(),
{
    if s.len() > 0 && is_white(s[0]) {
        trim_start(s.drop_first())
    } else {
        s
    }
}

/// `s` without its trailing whitespace.
pub open spec fn trim_end(s: Seq<char>) -> Seq<char>
    decreases s.len(),
{
    if s.len() > 0 && is_white(s.last()) {
        trim_end(s.drop_last())
    } else {
        s
    }
}

/// `s` without leading and trailing whitespace.
pub open spec fn trimmed(s: Seq<char>) -> Seq<char> {
    trim_end(trim_start(s))
}

/// The pieces of `s` between occurrences of `sep`; an empty `s` is one empty piece.
pub open spec fn split_fields(s: Seq<char>, sep: char) -> Seq<Seq<char>>
    decreases s.len(),
{
    if s.len() == 0 {
        seq![Seq::empty()]
    } else {
        let f = split_fields(s.drop_last(), sep);
        if s.last() == sep {
            f.push(Seq::empty())
        } else {
            f.update(f.len() - 1, f.last().push(s.last()))
        }
    }
}

/// The non-empty entries of `ts`, in order.
pub open spec fn non_empty(ts: Seq<Seq<char>>) -> Seq<Seq<char>>
    decreases ts.len(),
{
    if ts.len() == 0 {
        Seq::empty()
    } else if ts.last().len() > 0 {
        non_empty(ts.drop_last()).push(ts.last())
    } else {
        non_empty(ts.drop_last())
    }
}

/// The tags of a comma-separated text: each piece trimmed, empty ones dropped.
pub open spec fn comma_tags(s: Seq<char>) -> Seq<Seq<char>> {
    non_empty(split_fields(s, ',').map_values(|f: Seq<char>| trimmed(f)))
}

/// Relies on serde_json::from_str: reads a JSON array of strings; the
/// outcome depends on the text alone.
#[verifier::external_body]
fn json_from_str(input: &str) -> (r: Result<Vec<String>, serde_json::Error>)
    ensures
        match r {
            Ok(v) => json_string_list(input@) == Some(texts(v@)),
            Err(_) => json_string_list(input@) is None,
        },
{
    serde_json::from_str::<Vec<String>>(input)
}

/// Whether `c` has the Unicode White_Space property.
pub fn is_white_char(c: char) -> (r: bool)
    ensures
        r == is_white(c),
{
    let u: u32 = c as u32;
    (9 <= u && u <= 13) || u == 32 || u == 0x85 || u == 0xa0 || u == 0x1680 || (0x2000 <= u && u
        <= 0x200a) || u == 0x2028 || u == 0x2029 || u == 0x202f || u == 0x205f || u == 0x3000
}

/// The characters `from..to` of `input` as a string.
fn piece(input: &str, from: usize, to: usize) -> (r: String)
    requires
        from <= to <= input@.len(),
    ensures
        r@ == input@.subrange(from as int, to as int),
{
    String::from_str(input.substring_char(from, to))
}

/// The maximal runs of non-whitespace characters of `input`, in order.
pub fn split_whitespace(input: &str) -> (r: Vec<String>)
    ensures
        texts(r@) == whitespace_fields(input@),
{
    let ghost s = input@;
    let n: usize = input.unicode_len();
    let mut out: Vec<String> = Vec::new();
    let mut start: usize = 0;
    let mut in_field: bool = false;
    let mut k: usize = 0;
    assert(s.take(0) =~= Seq::<char>::empty());
    while k < n
        invariant
            s == input@,
            n == s.len(),
            k <= n,
            start <= k,
            in_field == (k > 0 && !is_white(s[k - 1])),
            in_field ==> whitespace_fields(s.take(k as int)) == texts(out@).push(s.subrange(start as int, k as int)),
            !in_field ==> whitespace_fields(s.take(k as int)) == texts(out@),
        decreases n - k,
    {
        let c: char = input.get_char(k);
        let ghost t = s.take(k + 1);
        assert(t.drop_last() =~= s.take(k as int));
        assert(t.last() == c);
        if is_white_char(c) {
            if in_field {
                let ghost before = texts(out@);
                out.push(piece(input, start, k));
                assert(texts(out@) =~= before.push(s.subrange(start as int, k as int)));
            }
            in_field = false;
        } else {
            if in_field {
                assert(t[t.len() - 2] == s[k - 1]);
                assert(s.subrange(start as int, k + 1) =~= s.subrange(start as int, k as int).push(c));
                assert(texts(out@).push(s.subrange(start as int, k as int)).update(texts(out@).len() as int, s.subrange(start as int, k + 1))
                    =~= texts(out@).push(s.subrange(start as int, k + 1)));
            } else {
                if k > 0 {
                    assert(t[t.len() - 2] == s[k - 1]);
                }
                start = k;
                assert(s.subrange(start as int, k + 1) =~= seq![c]);
            }
            in_field = true;
        }
        k = k + 1;
    }
    if in_field {
        let ghost before = texts(out@);
        out.push(piece(input, start, n));
        assert(texts(out@) =~= before.push(s.subrange(start as int, n as int)));
    }
    assert(s.take(n as int) =~= s);
    out
}

/// The pieces of `input` between occurrences of `sep`, in order, empty ones included.
pub fn split_on(input: &str, sep: char) -> (r: Vec<String>)
    ensures
        texts(r@) == split_fields(input@, sep),
{
    let ghost s = input@;
    let n: usize = input.unicode_len();
    let mut out: Vec<String> = Vec::new();
    let mut start: usize = 0;
    let mut k: usize = 0;
    assert(s.take(0) =~= Seq::<char>::empty());
    assert(s.subrange(0, 0) =~= Seq::<char>::empty());
    assert(texts(out@).push(s.subrange(0, 0)) =~= seq![Seq::<char>::empty()]);
    while k < n
        invariant
            s == input@,
            n == s.len(),
            k <= n,
            start <= k,
            split_fields(s.take(k as int), sep) == texts(out@).push(s.subrange(start as int, k as int)),
        decreases n - k,
    {
        let c: char = input.get_char(k);
        let ghost t = s.take(k + 1);
        assert(t.drop_last() =~= s.take(k as int));
        assert(t.last() == c);
        if c == sep {
            let ghost before = texts(out@);
            out.push(piece(input, start, k));
            assert(texts(out@) =~= before.push(s.subrange(start as int, k as int)));
            start = k + 1;
            assert(s.subrange(start as int, k + 1) =~= Seq::<char>::empty());
        } else {
            assert(s.subrange(start as int, k + 1) =~= s.subrange(start as int, k as int).push(c));
            assert(texts(out@).push(s.subrange(start as int, k as int)).update(texts(out@).len() as int, s.subrange(start as int, k + 1))
                =~= texts(out@).push(s.subrange(start as int, k + 1)));
        }
        k = k + 1;
    }
    let ghost before = texts(out@);
    out.push(piece(input, start, n));
    assert(texts(out@) =~= before.push(s.subrange(start as int, n as int)));
    assert(s.take(n as int) =~= s);
    out
}

proof fn lemma_trim_start(s: Seq<char>, a: int)
    requires
        0 <= a <= s.len(),
        forall|i: int| 0 <= i < a ==> is_white(#[trigger] s[i]),
        a == s.len() || !is_white(s[a]),
    ensures
        trim_start(s) == s.subrange(a, s.len() as int),
    decreases a,
{
    if a == 0 {
        assert(s.subrange(0, s.len() as int) =~= s);
    } else {
        let r = s.drop_first();
        assert forall|i: int| 0 <= i < a - 1 implies is_white(#[trigger] r[i]) by {
            assert(r[i] == s[i + 1]);
        }
        if a < s.len() {
            assert(r[a - 1] == s[a]);
        }
        lemma_trim_start(r, a - 1);
        assert(r.subrange(a - 1, r.len() as int) =~= s.subrange(a, s.len() as int));
    }
}

proof fn lemma_trim_end(s: Seq<char>, b: int)
    requires
        0 <= b <= s.len(),
        forall|i: int| b <= i < s.len() ==> is_white(#[trigger] s[i]),
        b == 0 || !is_white(s[b - 1]),
    ensures
        trim_end(s) == s.take(b),
    decreases s.len() - b,
{
    if b == s.len() {
        assert(s.take(b) =~= s);
    } else {
        let r = s.drop_last();
        assert forall|i: int| b <= i < r.len() implies is_white(#[trigger] r[i]) by {
            assert(r[i] == s[i]);
        }
        if b > 0 {
            assert(r[b - 1] == s[b - 1]);
        }
        assert(is_white(s[s.len() - 1]));
        lemma_trim_end(r, b);
        assert(r.take(b) =~= s.take(b));
    }
}

/// `s` without leading and trailing whitespace.
pub fn trim(s: &String) -> (r: String)
    ensures
        r@ == trimmed(s@),
{
    let input: &str = s.as_str();
    let ghost v = input@;
    let n: usize = input.unicode_len();
    let mut a: usize = 0;
    while a < n && is_white_char(input.get_char(a))
        invariant
            v == input@,
            n == v.len(),
            a <= n,
            forall|i: int| 0 <= i < a ==> is_white(#[trigger] v[i]),
        decreases n - a,
    {
        a = a + 1;
    }
    let mut b: usize = n;
    while b > a && is_white_char(input.get_char(b - 1))
        invariant
            v == input@,
            n == v.len(),
            a <= b <= n,
            forall|i: int| b <= i < n ==> is_white(#[trigger] v[i]),
        decreases b - a,
    {
        b = b - 1;
    }
    proof {
        lemma_trim_start(v, a as int);
        let u = v.subrange(a as int, n as int);
        assert forall|i: int| (b - a) <= i < u.len() implies is_white(#[trigger] u[i]) by {
            assert(u[i] == v[a + i]);
        }
        if b > a {
            assert(u[b - a - 1] == v[b - 1]);
        }
        lemma_trim_end(u, (b - a) as int);
        assert(u.take((b - a) as int) =~= v.subrange(a as int, b as int));
    }
    piece(input, a, b)
}

/// Keeps the non-empty entries of `ts`.
pub fn keep_non_empty(ts: Vec<String>) -> (r: Vec<String>)
    ensures
        texts(r@) == non_empty(texts(ts@)),
{
    let ghost all = texts(ts@);
    let mut r: Vec<String> = Vec::new();
    let mut k: usize = 0;
    assert(all.take(0) =~= Seq::<Seq<char>>::empty());
    assert(texts(r@) =~= Seq::<Seq<char>>::empty());
    while k < ts.len()
        invariant
            all == texts(ts@),
            k <= ts@.len(),
            texts(r@) == non_empty(all.take(k as int)),
        decreases ts@.len() - k,
    {
        let ghost next = all.take(k + 1);
        assert(next.drop_last() =~= all.take(k as int));
        assert(next.last() == ts@[k as int]@);
        if !ts[k].as_str().is_empty() {
            let ghost before = texts(r@);
            r.push(ts[k].clone());
            assert(texts(r@) =~= before.push(ts@[k as int]@));
        }
        k = k + 1;
    }
    assert(all.take(ts@.len() as int) =~= all);
    r
}

/// Parses a text into tags.
pub trait TagParser {
    /// The tags that `input` holds.
    fn parse(&self, input: &str) -> Result<Vec<String>, FormatError>;

    /// The name of the format.
    fn format_name(&self) -> &'static str;
}

/// Tags separated by whitespace.
pub struct SpaceSeparatedParser;

impl SpaceSeparatedParser {
    pub fn new() -> (r: SpaceSeparatedParser)
        ensures
            r == SpaceSeparatedParser,
    {
        SpaceSeparatedParser
    }
}

impl Default for SpaceSeparatedParser {
    fn default() -> (r: SpaceSeparatedParser)
        ensures
            r == SpaceSeparatedParser,
    {
        SpaceSeparatedParser::new()
    }
}

impl TagParser for SpaceSeparatedParser {
    /// The whitespace-separated words of `input`; never fails.
    fn parse(&self, input: &str) -> (r: Result<Vec<String>, FormatError>)
        ensures
            r is Ok,
            texts(r->Ok_0@) == non_empty(whitespace_fields(input@)),
    {
        Ok(keep_non_empty(split_whitespace(input)))
    }

    fn format_name(&self) -> (r: &'static str)
        ensures
            r@ == "space-separated"@,
    {
        "space-separated"
    }
}

/// Tags separated by commas, with whitespace around them ignored.
pub struct CommaSeparatedParser;

impl CommaSeparatedParser {
    pub fn new() -> (r: CommaSeparatedParser)
        ensures
            r == CommaSeparatedParser,
    {
        CommaSeparatedParser
    }
}

impl Default for CommaSeparatedParser {
    fn default() -> (r: CommaSeparatedParser)
        ensures
            r == CommaSeparatedParser,
    {
        CommaSeparatedParser::new()
    }
}

impl TagParser for CommaSeparatedParser {
    /// The trimmed, non-empty comma-separated pieces of `input`; never fails.
    fn parse(&self, input: &str) -> (r: Result<Vec<String>, FormatError>)
        ensures
            r is Ok,
            texts(r->Ok_0@) == comma_tags(input@),
    {
        let pieces = split_on(input, ',');
        let ghost ps = texts(pieces@);
        let mut out: Vec<String> = Vec::new();
        let mut k: usize = 0;
        assert(out@.len() == 0);
        while k < pieces.len()
            invariant
                ps == texts(pieces@),
                k <= pieces@.len(),
                out@.len() == k,
                forall|q: int| 0 <= q < k ==> (#[trigger] out@[q])@ == trimmed(ps[q]),
            decreases pieces@.len() - k,
        {
            out.push(trim(&pieces[k]));
            k = k + 1;
        }
        assert(texts(out@) =~= ps.map_values(|f: Seq<char>| trimmed(f)));
        Ok(keep_non_empty(out))
    }

    fn format_name(&self) -> (r: &'static str)
        ensures
            r@ == "comma-separated"@,
    {
        "comma-separated"
    }
}

/// Tags as a JSON array of strings.
pub struct JsonParser;

impl JsonParser {
    pub fn new() -> (r: JsonParser)
        ensures
            r == JsonParser,
    {
        JsonParser
    }
}

impl Default for JsonParser {
    fn default() -> (r: JsonParser)
        ensures
            r == JsonParser,
    {
        JsonParser::new()
    }
}

impl TagParser for JsonParser {
    /// The strings of the JSON array `input`; fails when `input` is not one.
    fn parse(&self, input: &str) -> (r: Result<Vec<String>, FormatError>)
        ensures
            match json_string_list(input@) {
                Some(ts) => r is Ok && texts(r->Ok_0@) == ts,
                None => r == Err::<Vec<String>, FormatError>(FormatError::InvalidInput),
            },
    {
        match json_from_str(input) {
            Ok(v) => Ok(v),
            Err(_) => Err(FormatError::InvalidInput),
        }
    }

    fn format_name(&self) -> (r: &'static str)
        ensures
            r@ == "json"@,
    {
        "json"
    }
}

} // verus!
