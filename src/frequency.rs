//! Token occurrence counts over a corpus.
use vstd::prelude::*;

verus! {

/// The text of each token of a sequence.
pub open spec fn texts(v: Seq<String>) -> Seq<Seq<char>> {
    v.map_values(|s: String| s@)
}

/// How often `t` occurs in `s`.
pub open spec fn occurrences(s: Seq<Seq<char>>, t: Seq<char>) -> nat
    decreases s.len(),
{
    if s.len() == 0 {
        0
    } else {
        occurrences(s.drop_last(), t) + if s.last() == t {
            1nat
        } else {
            0nat
        }
    }
}

/// The distinct tokens of `s`, in order of first occurrence.
pub open spec fn distinct(s: Seq<Seq<char>>) -> Seq<Seq<char>>
    decreases s.len(),
{
    if s.len() == 0 {
        Seq::empty()
    } else {
        let d = distinct(s.drop_last());
        if d.contains(s.last()) {
            d
        } else {
            d.push(s.last())
        }
    }
}

pub proof fn lemma_occurrences_bound(s: Seq<Seq<char>>, t: Seq<char>)
    ensures
        occurrences(s, t) <= s.len(),
        occurrences(s, t) > 0 <==> s.contains(t),
    decreases s.len(),
{
    if s.len() > 0 {
        lemma_occurrences_bound(s.drop_last(), t);
        if s.drop_last().contains(t) {
            let k = choose|k: int| 0 <= k < s.drop_last().len() && s.drop_last()[k] == t;
            assert(s[k] == t);
        }
        if s.contains(t) && s.last() != t {
            let k = choose|k: int| 0 <= k < s.len() && s[k] == t;
            assert(s.drop_last()[k] == t);
        }
        if s.last() == t {
            assert(s[s.len() - 1] == t);
        }
    }
}

/// `distinct(s)` holds each token of `s` once and nothing else.
pub proof fn lemma_distinct(s: Seq<Seq<char>>)
    ensures
        distinct(s).no_duplicates(),
        forall|t: Seq<char>| distinct(s).contains(t) <==> s.contains(t),
        distinct(s).len() <= s.len(),
    decreases s.len(),
{
    if s.len() > 0 {
        let p = s.drop_last();
        lemma_distinct(p);
        assert forall|t: Seq<char>| distinct(s).contains(t) <==> s.contains(t) by {
            if p.contains(t) {
                let k = choose|k: int| 0 <= k < p.len() && p[k] == t;
                assert(s[k] == t);
            }
            if s.contains(t) && s.last() != t {
                let k = choose|k: int| 0 <= k < s.len() && s[k] == t;
                assert(p[k] == t);
            }
            if s.last() == t {
                assert(s[s.len() - 1] == t);
            }
            if !distinct(p).contains(s.last()) {
                let d = distinct(p);
                if d.push(s.last()).contains(t) {
                    let k = choose|k: int| 0 <= k < d.len() + 1 && d.push(s.last())[k] == t;
                    if k < d.len() {
                        assert(d[k] == t);
                    }
                }
                if d.contains(t) {
                    let k = choose|k: int| 0 <= k < d.len() && d[k] == t;
                    assert(d.push(s.last())[k] == t);
                }
                assert(d.push(s.last())[d.len() as int] == s.last());
            }
        }
    }
}

/// The first index of a token whose text is `t`'s, if any.
pub fn position_of(tokens: &Vec<String>, t: &String) -> (r: Option<usize>)
    ensures
        match r {
            Some(k) => k < tokens@.len() && tokens@[k as int]@ == t@ && forall|q: int|
                0 <= q < k ==> tokens@[q]@ != t@,
            None => forall|q: int| 0 <= q < tokens@.len() ==> tokens@[q]@ != t@,
        },
{
    let mut k: usize = 0;
    while k < tokens.len()
        invariant
            k <= tokens@.len(),
            forall|q: int| 0 <= q < k ==> tokens@[q]@ != t@,
        decreases tokens@.len() - k,
    {
        if tokens[k] == *t {
            return Some(k);
        }
        k = k + 1;
    }
    None
}

/// Distinct tokens of a corpus in order of first occurrence, with their counts.
pub struct FrequencyTable {
    pub tokens: Vec<String>,
    pub counts: Vec<usize>,
}

impl FrequencyTable {
    /// The table describes `corpus`: its distinct tokens in order of first
    /// occurrence, each with its number of occurrences.
    pub open spec fn describes(&self, corpus: Seq<Seq<char>>) -> bool {
        &&& texts(self.tokens@) == distinct(corpus)
        &&& self.counts@.len() == self.tokens@.len()
        &&& forall|i: int|
            0 <= i < self.counts@.len() ==> #[trigger] self.counts@[i] as nat == occurrences(
                corpus,
                self.tokens@[i]@,
            )
    }

    /// Counts the occurrences of each distinct token of `corpus`.
    pub fn count(corpus: &[String]) -> (r: FrequencyTable)
        ensures
            r.describes(texts(corpus@)),
    {
        let ghost c = texts(corpus@);
        let mut tokens: Vec<String> = Vec::new();
        let mut counts: Vec<usize> = Vec::new();
        let mut j: usize = 0;
        while j < corpus.len()
            invariant
                c == texts(corpus@),
                j <= corpus@.len(),
                texts(tokens@) == distinct(c.take(j as int)),
                counts@.len() == tokens@.len(),
                forall|i: int|
                    0 <= i < counts@.len() ==> #[trigger] counts@[i] as nat == occurrences(
                        c.take(j as int),
                        tokens@[i]@,
                    ),
            decreases corpus@.len() - j,
        {
            let ghost pre = c.take(j as int);
            let ghost next = c.take(j as int + 1);
            assert(next.drop_last() == pre);
            assert(next.last() == corpus@[j as int]@);
            proof {
                lemma_distinct(pre);
                lemma_occurrences_bound(pre, corpus@[j as int]@);
            }
            let pos = position_of(&tokens, &corpus[j]);
            if let Some(k) = pos {
                assert(texts(tokens@)[k as int] == corpus@[j as int]@);
                assert(distinct(pre).contains(next.last()));
                assert(occurrences(pre, tokens@[k as int]@) <= pre.len());
                let v: usize = counts[k] + 1;
                counts.set(k, v);
                assert forall|i: int| 0 <= i < counts@.len() implies #[trigger] counts@[i] as nat
                    == occurrences(next, tokens@[i]@) by {
                    if i != k {
                        assert(texts(tokens@)[i] == distinct(pre)[i]);
                        assert(texts(tokens@)[k as int] == distinct(pre)[k as int]);
                    }
                }
            } else {
                assert(!distinct(pre).contains(next.last())) by {
                    if distinct(pre).contains(next.last()) {
                        let q = choose|q: int|
                            0 <= q < distinct(pre).len() && distinct(pre)[q] == next.last();
                        assert(texts(tokens@)[q] == tokens@[q]@);
                        assert(tokens@[q]@ == corpus@[j as int]@);
                    }
                }
                assert(occurrences(pre, next.last()) == 0);
                tokens.push(corpus[j].clone());
                counts.push(1);
                assert(texts(tokens@) =~= distinct(next));
                assert forall|i: int| 0 <= i < counts@.len() implies #[trigger] counts@[i] as nat
                    == occurrences(next, tokens@[i]@) by {
                    if i < counts@.len() - 1 {
                        assert(texts(tokens@)[i] == distinct(pre)[i]);
                        assert(distinct(pre).contains(tokens@[i]@));
                    }
                }
            }
            j = j + 1;
        }
        assert(c.take(corpus@.len() as int) =~= c);
        FrequencyTable { tokens, counts }
    }
}

} // verus!
