//! Prefix codes: each token gets a bit string that no other token's bit
//! string starts with, so a stream of codes decodes without separators.
use vstd::prelude::*;
use vstd::arithmetic::power2::{pow2, lemma_pow2_unfold};
use crate::bits::append;
use crate::dictionary::{rank_by_count, is_ranking, ranks_before};

verus! {

/// No code of `codes` starts another one.
pub open spec fn prefix_free(codes: Seq<Seq<bool>>) -> bool {
    forall|i: int, j: int|
        0 <= i < codes.len() && 0 <= j < codes.len() && i != j ==> !(#[trigger] codes[i]).is_prefix_of(
            #[trigger] codes[j],
        )
}

/// The share, out of `2^d`, of the code space that code `c` takes up.
pub open spec fn share(c: Seq<bool>, d: nat) -> int {
    pow2((d - c.len()) as nat) as int
}

/// The total share of the first `n` codes.
pub open spec fn kraft_sum(codes: Seq<Seq<bool>>, d: nat, n: int) -> int
    decreases n,
{
    if n <= 0 {
        0
    } else {
        kraft_sum(codes, d, n - 1) + share(codes[n - 1], d)
    }
}

/// The codes fill the code space: with two or more of them, each is shorter
/// than their number `d` and their shares add up to `2^d` (the leaves of a
/// full binary tree).
pub open spec fn complete(codes: Seq<Seq<bool>>) -> bool {
    codes.len() >= 2 ==> {
        &&& forall|i: int| 0 <= i < codes.len() ==> (#[trigger] codes[i]).len() < codes.len()
        &&& kraft_sum(codes, codes.len(), codes.len() as int) == pow2(codes.len())
    }
}

/// The total share of the first `n` codes whose owner is `g`.
spec fn group_sum(codes: Seq<Vec<bool>>, owner: Seq<int>, g: int, d: nat, n: int) -> int
    decreases n,
{
    if n <= 0 {
        0
    } else {
        group_sum(codes, owner, g, d, n - 1) + if owner[n - 1] == g {
            share(codes[n - 1]@, d)
        } else {
            0
        }
    }
}

proof fn lemma_group_sum_single(codes: Seq<Vec<bool>>, owner: Seq<int>, g: int, d: nat, n: int)
    requires
        0 <= n <= owner.len(),
        owner.len() == d,
        codes.len() == d,
        0 <= g < d,
        forall|t: int| 0 <= t < d ==> owner[t] == t,
        codes[g]@.len() == 0,
    ensures
        group_sum(codes, owner, g, d, n) == if n > g { pow2(d) as int } else { 0 },
    decreases n,
{
    if n > 0 {
        lemma_group_sum_single(codes, owner, g, d, n - 1);
    }
}

proof fn lemma_group_sum_merge(c0: Seq<Vec<bool>>, c1: Seq<Vec<bool>>, o0: Seq<int>, o1: Seq<int>, a: int, b: int, c: int, d: nat, n: int)
    requires
        0 <= n <= o0.len(),
        o0.len() == o1.len(),
        c0.len() == o0.len(),
        c1.len() == o0.len(),
        a != b,
        forall|t: int| 0 <= t < o0.len() ==> o0[t] != c,
        forall|t: int| 0 <= t < o0.len() ==> (#[trigger] o1[t] == c <==> (o0[t] == a || o0[t] == b)),
        forall|t: int| 0 <= t < o0.len() && (o0[t] == a || o0[t] == b) ==> (#[trigger] c1[t])@.len() == c0[t]@.len() + 1 && c0[t]@.len() < d,
    ensures
        2 * group_sum(c1, o1, c, d, n) == group_sum(c0, o0, a, d, n) + group_sum(c0, o0, b, d, n),
    decreases n,
{
    if n > 0 {
        lemma_group_sum_merge(c0, c1, o0, o1, a, b, c, d, n - 1);
        let t = n - 1;
        if o0[t] == a || o0[t] == b {
            assert(c1[t]@.len() == c0[t]@.len() + 1);
            lemma_pow2_unfold((d - c0[t]@.len()) as nat);
            assert((d - c0[t]@.len()) as nat - 1 == (d - c1[t]@.len()) as nat);
        }
    }
}

proof fn lemma_group_sum_same(c0: Seq<Vec<bool>>, c1: Seq<Vec<bool>>, o0: Seq<int>, o1: Seq<int>, g: int, d: nat, n: int)
    requires
        0 <= n <= o0.len(),
        o0.len() == o1.len(),
        c0.len() == o0.len(),
        c1.len() == o0.len(),
        forall|t: int| 0 <= t < o0.len() ==> (#[trigger] o1[t] == g <==> o0[t] == g),
        forall|t: int| 0 <= t < o0.len() && o0[t] == g ==> (#[trigger] c1[t])@ == c0[t]@,
    ensures
        group_sum(c1, o1, g, d, n) == group_sum(c0, o0, g, d, n),
    decreases n,
{
    if n > 0 {
        lemma_group_sum_same(c0, c1, o0, o1, g, d, n - 1);
    }
}

proof fn lemma_group_sum_all(codes: Seq<Vec<bool>>, owner: Seq<int>, g: int, d: nat, n: int)
    requires
        0 <= n <= owner.len(),
        codes.len() == owner.len(),
        forall|t: int| 0 <= t < owner.len() ==> owner[t] == g,
    ensures
        group_sum(codes, owner, g, d, n) == kraft_sum(code_bits(codes), d, n),
    decreases n,
{
    if n > 0 {
        lemma_group_sum_all(codes, owner, g, d, n - 1);
    }
}

/// The table with the codes at `x` and `y` exchanged.
pub open spec fn swapped(s: Seq<Seq<bool>>, x: int, y: int) -> Seq<Seq<bool>> {
    s.update(x, s[y]).update(y, s[x])
}

proof fn lemma_kraft_swap(s: Seq<Seq<bool>>, d: nat, x: int, y: int, n: int)
    requires
        0 <= x < s.len(),
        0 <= y < s.len(),
        x != y,
        0 <= n <= s.len(),
    ensures
        kraft_sum(swapped(s, x, y), d, n) == kraft_sum(s, d, n) + (if x < n { share(s[y], d) - share(s[x], d) } else { 0 }) + (if y < n { share(s[x], d) - share(s[y], d) } else { 0 }),
    decreases n,
{
    if n > 0 {
        lemma_kraft_swap(s, d, x, y, n - 1);
    }
}

/// Exchanging two codes keeps a table prefix-free, complete and free of empty codes.
proof fn lemma_swap_keeps(s: Seq<Seq<bool>>, x: int, y: int)
    requires
        0 <= x < s.len(),
        0 <= y < s.len(),
        x != y,
        prefix_free(s),
        complete(s),
        forall|i: int| 0 <= i < s.len() ==> (#[trigger] s[i]).len() > 0,
    ensures
        prefix_free(swapped(s, x, y)),
        complete(swapped(s, x, y)),
        forall|i: int| 0 <= i < s.len() ==> (#[trigger] swapped(s, x, y)[i]).len() > 0,
{
    let t = swapped(s, x, y);
    let pi = |i: int| if i == x { y } else if i == y { x } else { i };
    assert forall|i: int| 0 <= i < t.len() implies t[i] == s[pi(i)] by {}
    assert forall|i: int, j: int| 0 <= i < t.len() && 0 <= j < t.len() && i != j implies !(#[trigger] t[i]).is_prefix_of(#[trigger] t[j]) by {
        assert(t[i] == s[pi(i)]);
        assert(t[j] == s[pi(j)]);
    }
    assert forall|i: int| 0 <= i < s.len() implies (#[trigger] t[i]).len() > 0 by {
        assert(t[i] == s[pi(i)]);
    }
    if s.len() >= 2 {
        assert forall|i: int| 0 <= i < t.len() implies (#[trigger] t[i]).len() < t.len() by {
            assert(t[i] == s[pi(i)]);
        }
        lemma_kraft_swap(s, s.len(), x, y, s.len() as int);
    }
}

/// A copy of `code`.
fn copy_code(code: &Vec<bool>) -> (r: Vec<bool>)
    ensures
        r@ == code@,
{
    let mut r: Vec<bool> = Vec::new();
    append(&mut r, code.as_slice());
    assert(r@ =~= code@);
    r
}

/// Hands the shorter codes to the more frequent symbols: taking the symbols
/// from most to least frequent (ties by index), each gets the shortest code
/// left. The set of codes stays the same; a tree built by merging the two
/// lightest subtrees already has this order but for ties, so the exchanges
/// only reorder codes among equally frequent symbols.
fn order_by_frequency(counts: &Vec<usize>, codes: &mut Vec<Vec<bool>>)
    requires
        old(codes)@.len() == counts@.len(),
        prefix_free(code_bits(old(codes)@)),
        complete(code_bits(old(codes)@)),
        forall|i: int| 0 <= i < old(codes)@.len() ==> (#[trigger] old(codes)@[i])@.len() > 0,
    ensures
        final(codes)@.len() == counts@.len(),
        prefix_free(code_bits(final(codes)@)),
        complete(code_bits(final(codes)@)),
        forall|i: int| 0 <= i < final(codes)@.len() ==> (#[trigger] final(codes)@[i])@.len() > 0,
        forall|i: int, j: int|
            0 <= i < counts@.len() && 0 <= j < counts@.len() && counts@[i] > counts@[j] ==> (#[trigger] final(codes)@[i])@.len()
                <= (#[trigger] final(codes)@[j])@.len(),
{
    let order = rank_by_count(counts);
    let d: usize = counts.len();
    let mut p: usize = 0;
    while p < d
        invariant
            d == counts@.len(),
            codes@.len() == d,
            is_ranking(counts@, order@),
            p <= d,
            prefix_free(code_bits(codes@)),
            complete(code_bits(codes@)),
            forall|i: int| 0 <= i < codes@.len() ==> (#[trigger] codes@[i])@.len() > 0,
            forall|a: int, b: int|
                0 <= a < p && a < b < d ==> codes@[order@[a] as int]@.len() <= codes@[order@[b] as int]@.len(),
        decreases d - p,
    {
        let mut best: usize = p;
        let mut q: usize = p + 1;
        while q < d
            invariant
                d == counts@.len(),
                codes@.len() == d,
                is_ranking(counts@, order@),
                p <= best < q <= d,
                forall|r: int| p <= r < q ==> codes@[order@[best as int] as int]@.len() <= codes@[order@[r] as int]@.len(),
            decreases d - q,
        {
            if codes[order[q]].len() < codes[order[best]].len() {
                best = q;
            }
            q = q + 1;
        }
        if best != p {
            let x: usize = order[p];
            let y: usize = order[best];
            assert(ranks_before(counts@, order@[p as int] as int, order@[best as int] as int));
            let ghost before = codes@;
            let cx = copy_code(&codes[x]);
            let cy = copy_code(&codes[y]);
            codes.set(x, cy);
            codes.set(y, cx);
            proof {
                let sb = code_bits(before);
                assert(code_bits(codes@) =~= swapped(sb, x as int, y as int));
                lemma_swap_keeps(sb, x as int, y as int);
                assert forall|i: int| 0 <= i < codes@.len() implies (#[trigger] codes@[i])@.len() > 0 by {
                    assert(code_bits(codes@)[i] == codes@[i]@);
                }
                assert forall|a: int, b: int|
                    0 <= a < p + 1 && a < b < d implies codes@[order@[a] as int]@.len() <= codes@[order@[b] as int]@.len() by {
                    let len = |r: int| before[order@[r] as int]@.len();
                    let now = |r: int| if r == p { len(best as int) } else if r == best { len(p as int) } else { len(r) };
                    assert forall|r: int| 0 <= r < d implies codes@[order@[r] as int]@.len() == now(r) by {
                        if r != p && r != best {
                            assert(order@[r] != x && order@[r] != y) by {
                                if r < p {
                                    assert(ranks_before(counts@, order@[r] as int, order@[p as int] as int));
                                    assert(ranks_before(counts@, order@[r] as int, order@[best as int] as int));
                                } else if r < best {
                                    assert(ranks_before(counts@, order@[p as int] as int, order@[r] as int));
                                    assert(ranks_before(counts@, order@[r] as int, order@[best as int] as int));
                                } else {
                                    assert(ranks_before(counts@, order@[p as int] as int, order@[r] as int));
                                    assert(ranks_before(counts@, order@[best as int] as int, order@[r] as int));
                                }
                            }
                        }
                    }
                    assert(codes@[order@[a] as int]@.len() == now(a));
                    assert(codes@[order@[b] as int]@.len() == now(b));
                    if a < p {
                        assert(len(a) <= len(b));
                        assert(len(a) <= len(best as int));
                        assert(len(a) <= len(p as int));
                    }
                }
            }
        }
        p = p + 1;
    }
    proof {
        assert forall|i: int, j: int|
            0 <= i < counts@.len() && 0 <= j < counts@.len() && counts@[i] > counts@[j] implies (#[trigger] codes@[i])@.len()
                <= (#[trigger] codes@[j])@.len() by {
            assert(order@.contains(i as usize));
            assert(order@.contains(j as usize));
            let a = choose|a: int| 0 <= a < order@.len() && order@[a] == i as usize;
            let b = choose|b: int| 0 <= b < order@.len() && order@[b] == j as usize;
            if b < a {
                assert(ranks_before(counts@, order@[b] as int, order@[a] as int));
            }
            if a != b {
                assert(a < b);
            }
        }
    }
}

/// The bits of each code of a table.
pub open spec fn code_bits(codes: Seq<Vec<bool>>) -> Seq<Seq<bool>> {
    codes.map_values(|c: Vec<bool>| c@)
}

proof fn lemma_prefix_cons(b: bool, x: Seq<bool>, y: Seq<bool>)
    ensures
        (seq![b] + x).is_prefix_of(seq![b] + y) <==> x.is_prefix_of(y),
{
    let bx = seq![b] + x;
    let by = seq![b] + y;
    if x.is_prefix_of(y) {
        assert(bx =~= by.subrange(0, bx.len() as int));
    }
    if bx.is_prefix_of(by) {
        assert forall|k: int| 0 <= k < x.len() implies x[k] == y.subrange(0, x.len() as int)[k] by {
            assert(bx[k + 1] == by.subrange(0, bx.len() as int)[k + 1]);
        }
        assert(x =~= y.subrange(0, x.len() as int));
    }
}

proof fn lemma_prefix_first_bit(x: Seq<bool>, y: Seq<bool>)
    requires
        x.len() > 0,
        y.len() > 0,
        x[0] != y[0],
    ensures
        !x.is_prefix_of(y),
{
    if x.is_prefix_of(y) {
        assert(x[0] == y.subrange(0, x.len() as int)[0]);
    }
}

/// `code` with `bit` in front.
fn prepend(bit: bool, code: &Vec<bool>) -> (r: Vec<bool>)
    ensures
        r@ == seq![bit] + code@,
{
    let mut r: Vec<bool> = Vec::new();
    r.push(bit);
    let mut k: usize = 0;
    while k < code.len()
        invariant
            k <= code@.len(),
            r@ == seq![bit] + code@.take(k as int),
        decreases code@.len() - k,
    {
        r.push(code[k]);
        k = k + 1;
        assert(code@.take(k as int) =~= code@.take(k - 1) .push(code@[k - 1]));
    }
    assert(code@.take(code@.len() as int) =~= code@);
    r
}

/// Puts `bit` in front of the code of each member.
fn prepend_to_members(codes: &mut Vec<Vec<bool>>, members: &Vec<usize>, bit: bool)
    requires
        members@.no_duplicates(),
        forall|k: int| 0 <= k < members@.len() ==> members@[k] < old(codes)@.len(),
    ensures
        final(codes)@.len() == old(codes)@.len(),
        forall|i: int|
            0 <= i < old(codes)@.len() ==> (#[trigger] final(codes)@[i])@ == if members@.contains(
                i as usize,
            ) {
                seq![bit] + old(codes)@[i]@
            } else {
                old(codes)@[i]@
            },
{
    let ghost start = codes@;
    let n: usize = codes.len();
    let mut k: usize = 0;
    while k < members.len()
        invariant
            n == start.len(),
            members@.no_duplicates(),
            forall|q: int| 0 <= q < members@.len() ==> members@[q] < start.len(),
            k <= members@.len(),
            codes@.len() == start.len(),
            forall|i: int|
                0 <= i < start.len() ==> (#[trigger] codes@[i])@ == if members@.take(
                    k as int,
                ).contains(i as usize) {
                    seq![bit] + start[i]@
                } else {
                    start[i]@
                },
        decreases members@.len() - k,
    {
        let m: usize = members[k];
        let c = prepend(bit, &codes[m]);
        assert(!members@.take(k as int).contains(m)) by {
            if members@.take(k as int).contains(m) {
                let q = choose|q: int| 0 <= q < k && members@.take(k as int)[q] == m;
                assert(members@[q] == members@[k as int]);
            }
        }
        codes.set(m, c);
        assert forall|i: int| 0 <= i < start.len() implies (#[trigger] codes@[i])@ == if members@.take(
            k + 1,
        ).contains(i as usize) {
            seq![bit] + start[i]@
        } else {
            start[i]@
        } by {
            let t0 = members@.take(k as int);
            let t1 = members@.take(k + 1);
            assert(t1 =~= t0.push(m));
            if t0.contains(i as usize) {
                let q = choose|q: int| 0 <= q < t0.len() && t0[q] == i as usize;
                assert(t1[q] == i as usize);
            }
            if t1.contains(i as usize) && i != m as int {
                let q = choose|q: int| 0 <= q < t1.len() && t1[q] == i as usize;
                assert(t1[k as int] == m);
                assert(q != k);
                assert(t0[q] == i as usize);
            }
            if i == m as int {
                assert(t1[k as int] == m);
            }
        }
        k = k + 1;
    }
    assert(members@.take(members@.len() as int) =~= members@);
}

/// A subtree under construction: its total frequency and its leaves.
struct Group {
    freq: usize,
    members: Vec<usize>,
}

/// Position in `live` of the first live group of least frequency.
fn lightest(groups: &Vec<Group>, live: &Vec<usize>) -> (p: usize)
    requires
        live@.len() > 0,
        forall|q: int| 0 <= q < live@.len() ==> live@[q] < groups@.len(),
    ensures
        p < live@.len(),
        forall|q: int|
            0 <= q < live@.len() ==> groups@[live@[p as int] as int].freq <= groups@[live@[q] as int].freq,
{
    let mut p: usize = 0;
    let mut q: usize = 1;
    while q < live.len()
        invariant
            forall|r: int| 0 <= r < live@.len() ==> live@[r] < groups@.len(),
            p < q <= live@.len(),
            forall|r: int|
                0 <= r < q ==> groups@[live@[p as int] as int].freq <= groups@[live@[r] as int].freq,
        decreases live@.len() - q,
    {
        if groups[live[q]].freq < groups[live[p]].freq {
            p = q;
        }
        q = q + 1;
    }
    p
}

/// A prefix-free code for each of `counts.len()` symbols, built by merging
/// the two lightest subtrees until one tree is left: the first one taken
/// becomes the left branch (bit `false`), the second the right (bit `true`).
/// A lone symbol gets the one-bit code `false`. The codes are then handed
/// out so that a more frequent symbol never has a longer code.
pub fn build_codes(counts: &Vec<usize>) -> (codes: Vec<Vec<bool>>)
    requires
        counts@.len() > 0,
    ensures
        codes@.len() == counts@.len(),
        prefix_free(code_bits(codes@)),
        complete(code_bits(codes@)),
        forall|i: int| 0 <= i < codes@.len() ==> (#[trigger] codes@[i])@.len() > 0,
        forall|i: int, j: int|
            0 <= i < counts@.len() && 0 <= j < counts@.len() && counts@[i] > counts@[j] ==> (#[trigger] codes@[i])@.len()
                <= (#[trigger] codes@[j])@.len(),
{
    let d: usize = counts.len();
    let mut codes: Vec<Vec<bool>> = Vec::new();
    let mut groups: Vec<Group> = Vec::new();
    let mut live: Vec<usize> = Vec::new();
    let mut i: usize = 0;
    while i < d
        invariant
            d == counts@.len(),
            i <= d,
            codes@.len() == i,
            groups@.len() == i,
            live@ == Seq::new(i as nat, |g: int| g as usize),
            forall|g: int| 0 <= g < i ==> (#[trigger] groups@[g]).members@ == seq![g as usize],
            forall|g: int| 0 <= g < i ==> (#[trigger] codes@[g])@.len() == 0,
        decreases d - i,
    {
        let mut members: Vec<usize> = Vec::new();
        members.push(i);
        groups.push(Group { freq: counts[i], members });
        codes.push(Vec::new());
        live.push(i);
        i = i + 1;
        assert(live@ =~= Seq::new(i as nat, |g: int| g as usize));
    }
    let ghost mut owner: Seq<int> = Seq::new(d as nat, |t: int| t);
    assert forall|g: int| 0 <= g < live@.len() implies (#[trigger] live@[g]) < groups@.len() by {}
    assert forall|t: int| 0 <= t < d implies 0 <= #[trigger] owner[t] < groups@.len() && live@.contains(
        owner[t] as usize,
    ) && groups@[owner[t]].members@.contains(t as usize) by {
        assert(live@[t] == t as usize);
        assert(groups@[t].members@[0] == t as usize);
    }
    assert forall|g: int| live@.contains(g as usize) && 0 <= g < d implies group_sum(codes@, owner, g, d as nat, d as int) == pow2(d as nat) by {
        lemma_group_sum_single(codes@, owner, g, d as nat, d as int);
    }
    while live.len() > 1
        invariant
            codes@.len() == d,
            owner.len() == d,
            live@.no_duplicates(),
            forall|q: int| 0 <= q < live@.len() ==> (#[trigger] live@[q]) < groups@.len(),
            forall|t: int|
                0 <= t < d ==> 0 <= #[trigger] owner[t] < groups@.len() && live@.contains(
                    owner[t] as usize,
                ) && groups@[owner[t]].members@.contains(t as usize),
            forall|g: int, k: int|
                live@.contains(g as usize) && 0 <= g < groups@.len() && 0 <= k
                    < groups@[g].members@.len() ==> #[trigger] groups@[g].members@[k] < d
                    && owner[groups@[g].members@[k] as int] == g,
            forall|g: int|
                live@.contains(g as usize) && 0 <= g < groups@.len() ==> (#[trigger] groups@[g]).members@.no_duplicates(),
            forall|s: int, t: int|
                0 <= s < d && 0 <= t < d && s != t && owner[s] == owner[t] ==> !(#[trigger] codes@[s])@.is_prefix_of(
                    (#[trigger] codes@[t])@,
                ),
            live@.len() <= d,
            forall|t: int| 0 <= t < d ==> (#[trigger] codes@[t])@.len() + live@.len() <= d,
            forall|g: int|
                live@.contains(g as usize) && 0 <= g < groups@.len() ==> group_sum(codes@, owner, g, d as nat, d as int) == pow2(d as nat),
        decreases live@.len(),
    {
        let ghost l0 = live@;
        let pos_a = lightest(&groups, &live);
        let a: usize = live.remove(pos_a);
        let ghost l1 = live@;
        proof { lemma_remove_contains(l0, pos_a as int); }
        assert forall|q: int| 0 <= q < live@.len() implies (#[trigger] live@[q]) < groups@.len() by {
            assert(l0.contains(live@[q]));
            let r = choose|r: int| 0 <= r < l0.len() && l0[r] == live@[q];
        }
        let pos_b = lightest(&groups, &live);
        let b: usize = live.remove(pos_b);
        let ghost l2 = live@;
        proof {
            lemma_remove_contains(l1, pos_b as int);
            assert(l0[pos_a as int] == a);
            assert(l0.contains(a));
            assert(l1[pos_b as int] == b);
            assert(l1.contains(b));
        }
        let ghost c0 = codes@;
        let ghost g0 = groups@;
        let ghost ma = g0[a as int].members@;
        let ghost mb = g0[b as int].members@;
        proof {
            assert forall|t: int| 0 <= t < d implies (ma.contains(t as usize) <==> owner[t] == a as int)
                && (mb.contains(t as usize) <==> owner[t] == b as int) by {
                if ma.contains(t as usize) {
                    let k = choose|k: int| 0 <= k < ma.len() && ma[k] == t as usize;
                    assert(g0[a as int].members@[k] == t as usize);
                }
                if mb.contains(t as usize) {
                    let k = choose|k: int| 0 <= k < mb.len() && mb[k] == t as usize;
                    assert(g0[b as int].members@[k] == t as usize);
                }
            }
            assert forall|k: int| 0 <= k < ma.len() implies ma[k] < d && owner[ma[k] as int] == a as int by {
                assert(g0[a as int].members@[k] == ma[k]);
            }
            assert forall|k: int| 0 <= k < mb.len() implies mb[k] < d && owner[mb[k] as int] == b as int by {
                assert(g0[b as int].members@[k] == mb[k]);
            }
            assert(g0[a as int].members@.no_duplicates());
            assert(g0[b as int].members@.no_duplicates());
        }
        prepend_to_members(&mut codes, &groups[a].members, false);
        prepend_to_members(&mut codes, &groups[b].members, true);
        let mut merged: Vec<usize> = Vec::new();
        let mut k: usize = 0;
        while k < groups[a].members.len()
            invariant
                groups@ == g0,
                ma == g0[a as int].members@,
                a < groups@.len(),
                k <= ma.len(),
                merged@ == ma.take(k as int),
            decreases ma.len() - k,
        {
            merged.push(groups[a].members[k]);
            k = k + 1;
            assert(ma.take(k as int) =~= ma.take(k - 1).push(ma[k - 1]));
        }
        let mut k: usize = 0;
        while k < groups[b].members.len()
            invariant
                groups@ == g0,
                ma == g0[a as int].members@,
                mb == g0[b as int].members@,
                a < groups@.len(),
                b < groups@.len(),
                k <= mb.len(),
                merged@ == ma + mb.take(k as int),
            decreases mb.len() - k,
        {
            merged.push(groups[b].members[k]);
            k = k + 1;
            assert(mb.take(k as int) =~= mb.take(k - 1).push(mb[k - 1]));
        }
        assert(ma.take(ma.len() as int) =~= ma);
        assert(mb.take(mb.len() as int) =~= mb);
        assert(merged@ =~= ma + mb);
        let freq: usize = groups[a].freq.saturating_add(groups[b].freq);
        let c: usize = groups.len();
        groups.push(Group { freq, members: merged });
        live.push(c);
        proof {
            let o0 = owner;
            owner = Seq::new(d as nat, |t: int| if o0[t] == a || o0[t] == b { c as int } else { o0[t] });
            let mc = ma + mb;
            assert(groups@[c as int].members@ == mc);
            assert(live@ == l2.push(c));
            assert(live@.contains(c)) by { assert(live@[l2.len() as int] == c); }
            assert forall|x: usize| #[trigger] l2.contains(x) implies live@.contains(x) by {
                let r = choose|r: int| 0 <= r < l2.len() && l2[r] == x;
                assert(live@[r] == x);
            }
            assert forall|x: usize| #[trigger] live@.contains(x) implies l2.contains(x) || x == c by {
                let r = choose|r: int| 0 <= r < live@.len() && live@[r] == x;
                if r < l2.len() {
                    assert(l2[r] == x);
                }
            }
            assert forall|x: usize| #[trigger] mc.contains(x) <==> ma.contains(x) || mb.contains(x) by {
                if mc.contains(x) {
                    let r = choose|r: int| 0 <= r < mc.len() && mc[r] == x;
                    if r < ma.len() {
                        assert(ma[r] == x);
                    } else {
                        assert(mb[r - ma.len()] == x);
                    }
                }
                if ma.contains(x) {
                    let r = choose|r: int| 0 <= r < ma.len() && ma[r] == x;
                    assert(mc[r] == x);
                }
                if mb.contains(x) {
                    let r = choose|r: int| 0 <= r < mb.len() && mb[r] == x;
                    assert(mc[ma.len() + r] == x);
                }
            }
            assert(!l2.contains(c)) by {
                if l2.contains(c) {
                    let r = choose|r: int| 0 <= r < l2.len() && l2[r] == c;
                    assert(l1.contains(c));
                    assert(l0.contains(c));
                    let r0 = choose|r0: int| 0 <= r0 < l0.len() && l0[r0] == c;
                }
            }
            assert(live@.no_duplicates()) by {
                assert forall|i: int, j: int| 0 <= i < live@.len() && 0 <= j < live@.len() && i != j implies live@[i] != live@[j] by {
                    if i < l2.len() && j < l2.len() {
                        assert(l2[i] != l2[j]);
                    } else if i < l2.len() {
                        assert(l2.contains(live@[i]));
                    } else if j < l2.len() {
                        assert(l2.contains(live@[j]));
                    }
                }
            }
            assert forall|q: int| 0 <= q < live@.len() implies (#[trigger] live@[q]) < groups@.len() by {
                if q < l2.len() {
                    assert(l2.contains(live@[q]));
                    assert(l0.contains(live@[q]));
                    let r = choose|r: int| 0 <= r < l0.len() && l0[r] == live@[q];
                }
            }
            assert forall|t: int| 0 <= t < d implies 0 <= #[trigger] owner[t] < groups@.len() && live@.contains(
                owner[t] as usize,
            ) && groups@[owner[t]].members@.contains(t as usize) by {
                if o0[t] == a || o0[t] == b {
                    assert(mc.contains(t as usize));
                } else {
                    assert(l0.contains(o0[t] as usize));
                    assert(l2.contains(o0[t] as usize));
                    assert(groups@[o0[t]] == g0[o0[t]]);
                }
            }
            assert forall|g: int, k: int|
                live@.contains(g as usize) && 0 <= g < groups@.len() && 0 <= k
                    < groups@[g].members@.len() implies #[trigger] groups@[g].members@[k] < d
                    && owner[groups@[g].members@[k] as int] == g by {
                if g == c {
                    if k < ma.len() {
                        assert(mc[k] == ma[k]);
                    } else {
                        assert(mc[k] == mb[k - ma.len()]);
                    }
                } else {
                    assert(l2.contains(g as usize));
                    assert(l0.contains(g as usize));
                    assert(groups@[g] == g0[g]);
                    assert(g0[g].members@[k] < d && o0[g0[g].members@[k] as int] == g);
                }
            }
            assert forall|g: int|
                live@.contains(g as usize) && 0 <= g < groups@.len() implies (#[trigger] groups@[g]).members@.no_duplicates() by {
                if g == c {
                    assert forall|i: int, j: int| 0 <= i < mc.len() && 0 <= j < mc.len() && i != j implies mc[i] != mc[j] by {
                        if i < ma.len() && j < ma.len() {
                            assert(ma[i] != ma[j]);
                        } else if i >= ma.len() && j >= ma.len() {
                            assert(mb[i - ma.len()] != mb[j - ma.len()]);
                        } else if i < ma.len() {
                            assert(o0[ma[i] as int] == a as int);
                            assert(o0[mb[j - ma.len()] as int] == b as int);
                        } else {
                            assert(o0[ma[j] as int] == a as int);
                            assert(o0[mb[i - ma.len()] as int] == b as int);
                        }
                    }
                } else {
                    assert(l2.contains(g as usize));
                    assert(l0.contains(g as usize));
                    assert(groups@[g] == g0[g]);
                }
            }
            assert forall|s: int, t: int|
                0 <= s < d && 0 <= t < d && s != t && owner[s] == owner[t] implies !(#[trigger] codes@[s])@.is_prefix_of(
                    (#[trigger] codes@[t])@,
                ) by {
                let bs = if o0[s] == a { false } else { true };
                let bt = if o0[t] == a { false } else { true };
                if owner[s] == c as int {
                    assert(codes@[s]@ == seq![bs] + c0[s]@);
                    assert(codes@[t]@ == seq![bt] + c0[t]@);
                    if bs == bt {
                        lemma_prefix_cons(bs, c0[s]@, c0[t]@);
                    } else {
                        assert((seq![bs] + c0[s]@)[0] == bs);
                        assert((seq![bt] + c0[t]@)[0] == bt);
                        lemma_prefix_first_bit(codes@[s]@, codes@[t]@);
                    }
                } else {
                    assert(codes@[s]@ == c0[s]@);
                    assert(codes@[t]@ == c0[t]@);
                }
            }
            assert forall|t: int| 0 <= t < d implies (#[trigger] codes@[t])@.len() + live@.len() <= d by {
                if o0[t] == a || o0[t] == b {
                    assert(codes@[t]@.len() == c0[t]@.len() + 1);
                } else {
                    assert(codes@[t]@ == c0[t]@);
                }
            }
            assert forall|g: int|
                live@.contains(g as usize) && 0 <= g < groups@.len() implies group_sum(codes@, owner, g, d as nat, d as int) == pow2(d as nat) by {
                assert forall|t: int| 0 <= t < d implies o0[t] != c as int by {}
                if g == c {
                    assert forall|t: int| 0 <= t < d && (o0[t] == a || o0[t] == b) implies (#[trigger] codes@[t])@.len() == c0[t]@.len() + 1 && c0[t]@.len() < d by {}
                    lemma_group_sum_merge(c0, codes@, o0, owner, a as int, b as int, c as int, d as nat, d as int);
                } else {
                    assert(l2.contains(g as usize));
                    assert(l0.contains(g as usize));
                    assert(g != a && g != b);
                    assert forall|t: int| 0 <= t < d && o0[t] == g implies (#[trigger] codes@[t])@ == c0[t]@ by {}
                    lemma_group_sum_same(c0, codes@, o0, owner, g, d as nat, d as int);
                }
            }
        }
    }
    let ghost last = codes@;
    let ng: usize = groups.len();
    if d == 1 {
        let mut one: Vec<bool> = Vec::new();
        one.push(false);
        codes.set(0, one);
    }
    proof {
        assert(live@.len() == 1) by {
            assert(live@.contains(owner[0] as usize));
        }
        assert forall|s: int, t: int| 0 <= s < d && 0 <= t < d implies owner[s] == owner[t] by {
            assert(live@.contains(owner[s] as usize));
            assert(live@.contains(owner[t] as usize));
            let rs = choose|r: int| 0 <= r < live@.len() && live@[r] == owner[s] as usize;
            let rt = choose|r: int| 0 <= r < live@.len() && live@[r] == owner[t] as usize;
            assert(rs == 0 && rt == 0);
            assert(owner[s] < ng && owner[t] < ng);
        }
        assert forall|i: int| 0 <= i < codes@.len() implies (#[trigger] codes@[i])@.len() > 0 by {
            if d > 1 {
                let j: int = if i == 0 { 1 } else { 0 };
                if last[i]@.len() == 0 {
                    assert(last[i]@ =~= last[j]@.subrange(0, 0));
                    assert(!last[i]@.is_prefix_of(last[j]@));
                }
            }
        }
        let cb = code_bits(codes@);
        if d >= 2 {
            let r = owner[0];
            assert forall|t: int| 0 <= t < d implies owner[t] == r by {}
            assert(live@[0] as int == r);
            lemma_group_sum_all(codes@, owner, r, d as nat, d as int);
            assert forall|i: int| 0 <= i < cb.len() implies (#[trigger] cb[i]).len() < cb.len() by {
                assert(cb[i] == codes@[i]@);
            }
        }
        assert forall|i: int, j: int|
            0 <= i < cb.len() && 0 <= j < cb.len() && i != j implies !(#[trigger] cb[i]).is_prefix_of(
                #[trigger] cb[j],
            ) by {
            assert(cb[i] == codes@[i]@);
            assert(cb[j] == codes@[j]@);
        }
    }
    order_by_frequency(counts, &mut codes);
    codes
}

/// Removing an entry of a sequence without duplicates keeps every other entry.
proof fn lemma_remove_contains(s: Seq<usize>, i: int)
    requires
        s.no_duplicates(),
        0 <= i < s.len(),
    ensures
        s.remove(i).no_duplicates(),
        forall|x: usize| #[trigger] s.remove(i).contains(x) <==> (s.contains(x) && x != s[i]),
{
    let r = s.remove(i);
    assert forall|x: usize| #[trigger] r.contains(x) <==> (s.contains(x) && x != s[i]) by {
        if r.contains(x) {
            let k = choose|k: int| 0 <= k < r.len() && r[k] == x;
            if k < i {
                assert(s[k] == x);
            } else {
                assert(s[k + 1] == x);
            }
        }
        if s.contains(x) && x != s[i] {
            let k = choose|k: int| 0 <= k < s.len() && s[k] == x;
            if k < i {
                assert(r[k] == x);
            } else {
                assert(k != i);
                assert(r[k - 1] == x);
            }
        }
    }
    assert forall|p: int, q: int| 0 <= p < r.len() && 0 <= q < r.len() && p != q implies r[p] != r[q] by {
        let sp = if p < i { p } else { p + 1 };
        let sq = if q < i { q } else { q + 1 };
        assert(r[p] == s[sp]);
        assert(r[q] == s[sq]);
    }
}

} // verus!
