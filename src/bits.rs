//! Bit streams packed into bytes, least significant bit first.
//!
//! Bit `i` of a byte sequence is bit `i % 8` of byte `i / 8`. Packing fills
//! each byte from its lowest bit up and pads the last byte with zeros. Also
//! the vector append that the payload writers share.
use vstd::prelude::*;

verus! {

/// Bit `i` of `bytes`, counting from the lowest bit of the first byte.
pub open spec fn bit_at(bytes: Seq<u8>, i: int) -> bool {
    (bytes[i / 8] >> ((i % 8) as u8)) & 1u8 == 1u8
}

/// The byte whose bits `0..k` are `bits[start..start + k]`, zeros past the end
/// of `bits` and above `k`.
pub open spec fn byte_prefix(bits: Seq<bool>, start: int, k: int) -> u8
    decreases k,
{
    if k <= 0 {
        0u8
    } else {
        let lower = byte_prefix(bits, start, k - 1);
        if start + k - 1 < bits.len() && bits[start + k - 1] {
            lower | (1u8 << ((k - 1) as u8))
        } else {
            lower
        }
    }
}

/// Number of bytes needed to hold `n` bits.
pub open spec fn byte_len(n: int) -> int {
    (n + 7) / 8
}

/// `bits` packed into bytes, the last one padded with zeros.
pub open spec fn packed(bits: Seq<bool>) -> Seq<u8> {
    Seq::new(byte_len(bits.len() as int) as nat, |j: int| byte_prefix(bits, 8 * j, 8))
}

proof fn lemma_set_bit(x: u8, m: u8, r: u8)
    requires
        m < 8,
        r < 8,
    ensures
        ((x | (1u8 << m)) >> r) & 1u8 == 1u8 <==> (r == m || (x >> r) & 1u8 == 1u8),
{
    assert(((x | (1u8 << m)) >> r) & 1u8 == 1u8 <==> (r == m || (x >> r) & 1u8 == 1u8))
        by (bit_vector)
        requires
            m < 8,
            r < 8,
    ;
}

proof fn lemma_zero_bits(r: u8)
    requires
        r < 8,
    ensures
        (0u8 >> r) & 1u8 != 1u8,
{
    assert((0u8 >> r) & 1u8 != 1u8) by (bit_vector);
}

/// Bit `r` of `byte_prefix(bits, start, k)` is `bits[start + r]` below `k`
/// and zero from `k` on.
proof fn lemma_byte_prefix_bit(bits: Seq<bool>, start: int, k: int, r: int)
    requires
        0 <= k <= 8,
        0 <= r < 8,
    ensures
        (byte_prefix(bits, start, k) >> (r as u8)) & 1u8 == 1u8 <==> (r < k && start + r
            < bits.len() && bits[start + r]),
    decreases k,
{
    if k == 0 {
        lemma_zero_bits(r as u8);
    } else {
        lemma_byte_prefix_bit(bits, start, k - 1, r);
        let lower = byte_prefix(bits, start, k - 1);
        if start + k - 1 < bits.len() && bits[start + k - 1] {
            lemma_set_bit(lower, (k - 1) as u8, r as u8);
        }
    }
}

/// Reading back a packed bit sequence yields it.
pub proof fn lemma_packed_bits(bits: Seq<bool>)
    ensures
        packed(bits).len() == byte_len(bits.len() as int),
        forall|i: int| 0 <= i < bits.len() ==> #[trigger] bit_at(packed(bits), i) == bits[i],
{
    assert forall|i: int| 0 <= i < bits.len() implies #[trigger] bit_at(packed(bits), i)
        == bits[i] by {
        let j: int = i / 8;
        let r: int = i % 8;
        assert(0 <= j < byte_len(bits.len() as int));
        lemma_byte_prefix_bit(bits, 8 * j, 8, r);
        assert(8 * j + r == i);
    }
}

/// The bit of `bytes` at position `i`.
pub fn get_bit(bytes: &[u8], i: u128) -> (r: bool)
    requires
        i < bytes@.len() * 8,
    ensures
        r == bit_at(bytes@, i as int),
{
    let b: u8 = bytes[(i / 8) as usize];
    let s: u8 = (i % 8) as u8;
    (b >> s) & 1u8 == 1u8
}

/// Packs `bits` into bytes, lowest bit first, padding the last byte with zeros.
pub fn pack_bits(bits: &Vec<bool>) -> (r: Vec<u8>)
    ensures
        r@ == packed(bits@),
{
    let n: usize = bits.len();
    let nbytes: usize = n / 8 + if n % 8 == 0 { 0 } else { 1 };
    assert(nbytes == byte_len(n as int));
    let mut out: Vec<u8> = Vec::new();
    let mut j: usize = 0;
    while j < nbytes
        invariant
            n == bits@.len(),
            nbytes == byte_len(n as int),
            j <= nbytes,
            out@.len() == j,
            forall|q: int| 0 <= q < j ==> out@[q] == byte_prefix(bits@, 8 * q, 8),
        decreases nbytes - j,
    {
        let mut byte: u8 = 0;
        let mut k: usize = 0;
        while k < 8
            invariant
                n == bits@.len(),
                j < nbytes,
                nbytes == byte_len(n as int),
                k <= 8,
                byte == byte_prefix(bits@, 8 * j, k as int),
            decreases 8 - k,
        {
            let idx: usize = 8 * j + k;
            if idx < n && bits[idx] {
                byte = byte | (1u8 << (k as u8));
            }
            k = k + 1;
        }
        out.push(byte);
        j = j + 1;
    }
    assert(out@ =~= packed(bits@));
    out
}

/// Appends `src` to `dst`.
pub fn append<T: Copy>(dst: &mut Vec<T>, src: &[T])
    ensures
        final(dst)@ == old(dst)@ + src@,
{
    let mut k: usize = 0;
    while k < src.len()
        invariant
            k <= src@.len(),
            dst@ == old(dst)@ + src@.take(k as int),
        decreases src@.len() - k,
    {
        dst.push(src[k]);
        k = k + 1;
        assert(src@.take(k as int) =~= src@.take(k - 1).push(src@[k - 1]));
    }
    assert(src@.take(src@.len() as int) =~= src@);
}

} // verus!
