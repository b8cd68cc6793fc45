//! Per-chunk nonce derivation.
use vstd::prelude::*;

verus! {

/// Byte `k` of the index, counted from the least significant end (zero past the eighth).
pub open spec fn index_byte(index: u64, k: int) -> u8 {
    if 0 <= k < 8 {
        ((index >> ((8 * k) as u64)) & 0xff) as u8
    } else {
        0
    }
}

/// The nonce of chunk `index`: the big-endian index XORed into the low-order
/// bytes of the base nonce; the length of the base nonce is kept.
pub open spec fn derived_nonce(base: Seq<u8>, index: u64) -> Seq<u8> {
    Seq::new(base.len(), |i: int| base[i] ^ index_byte(index, base.len() - 1 - i))
}

/// Derives the nonce of chunk `index` from the stream's base nonce.
pub fn derive_nonce(base_nonce: &[u8], index: u64) -> (r: Vec<u8>)
    ensures
        r@ == derived_nonce(base_nonce@, index),
{
    let len = base_nonce.len();
    let mut out: Vec<u8> = Vec::with_capacity(len);
    let mut i: usize = 0;
    while i < len
        invariant
            i <= len,
            len == base_nonce@.len(),
            out@.len() == i,
            forall|j: int| 0 <= j < i ==> out@[j] == base_nonce@[j] ^ index_byte(index, len - 1 - j),
        decreases len - i,
    {
        let k: usize = len - 1 - i;
        let b: u8 = if k < 8 {
            ((index >> ((8 * k) as u64)) & 0xff) as u8
        } else {
            0
        };
        out.push(base_nonce[i] ^ b);
        i = i + 1;
    }
    assert(out@ =~= derived_nonce(base_nonce@, index));
    out
}

proof fn lemma_xor_cancel(b: u8, x: u8, y: u8)
    requires
        b ^ x == b ^ y,
    ensures
        x == y,
{
    assert(b ^ x == b ^ y ==> x == y) by (bit_vector);
}

proof fn lemma_bytes_determine(a: u64, b: u64)
    requires
        forall|k: int| 0 <= k < 8 ==> index_byte(a, k) == index_byte(b, k),
    ensures
        a == b,
{
    assert(index_byte(a, 0) == index_byte(b, 0));
    assert(index_byte(a, 1) == index_byte(b, 1));
    assert(index_byte(a, 2) == index_byte(b, 2));
    assert(index_byte(a, 3) == index_byte(b, 3));
    assert(index_byte(a, 4) == index_byte(b, 4));
    assert(index_byte(a, 5) == index_byte(b, 5));
    assert(index_byte(a, 6) == index_byte(b, 6));
    assert(index_byte(a, 7) == index_byte(b, 7));
    assert((((a >> 0u64) & 0xff) as u8 == ((b >> 0u64) & 0xff) as u8 && ((a >> 8u64) & 0xff) as u8
        == ((b >> 8u64) & 0xff) as u8 && ((a >> 16u64) & 0xff) as u8 == ((b >> 16u64) & 0xff) as u8
        && ((a >> 24u64) & 0xff) as u8 == ((b >> 24u64) & 0xff) as u8 && ((a >> 32u64) & 0xff) as u8
        == ((b >> 32u64) & 0xff) as u8 && ((a >> 40u64) & 0xff) as u8 == ((b >> 40u64) & 0xff) as u8
        && ((a >> 48u64) & 0xff) as u8 == ((b >> 48u64) & 0xff) as u8 && ((a >> 56u64) & 0xff) as u8
        == ((b >> 56u64) & 0xff) as u8) ==> a == b) by (bit_vector);
}

/// For a base nonce of at least eight bytes, distinct chunk indices give
/// distinct nonces.
pub proof fn lemma_derived_nonce_injective(base: Seq<u8>, a: u64, b: u64)
    requires
        base.len() >= 8,
        a != b,
    ensures
        derived_nonce(base, a) != derived_nonce(base, b),
{
    if derived_nonce(base, a) == derived_nonce(base, b) {
        assert forall|k: int| 0 <= k < 8 implies index_byte(a, k) == index_byte(b, k) by {
            let i = base.len() - 1 - k;
            assert(derived_nonce(base, a)[i] == derived_nonce(base, b)[i]);
            lemma_xor_cancel(base[i], index_byte(a, k), index_byte(b, k));
        }
        lemma_bytes_determine(a, b);
    }
}

/// The nonces of the first `n` chunks of a stream are pairwise distinct.
pub proof fn lemma_stream_nonces_distinct(base: Seq<u8>, n: nat)
    requires
        base.len() >= 8,
        n <= u64::MAX as nat + 1,
    ensures
        forall|i: int, j: int|
            0 <= i < n && 0 <= j < n && i != j ==> #[trigger] derived_nonce(base, i as u64)
                != #[trigger] derived_nonce(base, j as u64),
{
    assert forall|i: int, j: int| 0 <= i < n && 0 <= j < n && i != j implies #[trigger] derived_nonce(
        base,
        i as u64,
    ) != #[trigger] derived_nonce(base, j as u64) by {
        lemma_derived_nonce_injective(base, i as u64, j as u64);
    }
}

} // verus!
