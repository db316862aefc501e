use vstd::prelude::*;

verus! {

/// Bit `i` of a byte string, bit 0 being the lowest bit of the first byte.
pub open spec fn bit_is_set(bytes: Seq<u8>, i: int) -> bool {
    (bytes[i / 8] >> ((i % 8) as u8)) & 1u8 == 1u8
}

/// The byte string with bit `i` set.
pub open spec fn with_bit_set(bytes: Seq<u8>, i: int) -> Seq<u8> {
    bytes.update(i / 8, bytes[i / 8] | (1u8 << ((i % 8) as u8)))
}

/// Bytewise exclusive or.
pub open spec fn xor_bytes(a: Seq<u8>, b: Seq<u8>) -> Seq<u8> {
    Seq::new(a.len(), |k: int| a[k] ^ b[k])
}

proof fn lemma_u8_or_bit(b: u8, k: u8, m: u8)
    requires
        k < 8,
        m < 8,
    ensures
        ((b | (1u8 << k)) >> m) & 1u8 == 1u8 <==> (m == k || (b >> m) & 1u8 == 1u8),
{
    assert(((b | (1u8 << k)) >> m) & 1u8 == 1u8 <==> (m == k || (b >> m) & 1u8 == 1u8)) by (bit_vector)
        requires
            k < 8,
            m < 8,
    ;
}

/// Setting bit `i` sets it and leaves every other bit as it was.
pub proof fn lemma_with_bit_set(bytes: Seq<u8>, i: int, j: int)
    requires
        0 <= i < bytes.len() * 8,
        0 <= j < bytes.len() * 8,
    ensures
        bit_is_set(with_bit_set(bytes, i), j) <==> (j == i || bit_is_set(bytes, j)),
{
    let nb = with_bit_set(bytes, i);
    if i / 8 == j / 8 {
        lemma_u8_or_bit(bytes[i / 8], (i % 8) as u8, (j % 8) as u8);
        assert(j == i <==> j % 8 == i % 8);
    } else {
        assert(nb[j / 8] == bytes[j / 8]);
    }
}

/// Clearing a bit and then setting it is setting it.
pub proof fn lemma_clear_then_set(b: u8, k: u8)
    requires
        k < 8,
    ensures
        (b & !(1u8 << k)) | (1u8 << k) == b | (1u8 << k),
{
    assert((b & !(1u8 << k)) | (1u8 << k) == b | (1u8 << k)) by (bit_vector)
        requires
            k < 8,
    ;
}

/// The cumulative hash does not depend on the order in which hashes are folded in.
pub proof fn lemma_xor_bytes_commute(c: Seq<u8>, h1: Seq<u8>, h2: Seq<u8>)
    ensures
        xor_bytes(xor_bytes(c, h1), h2) == xor_bytes(xor_bytes(c, h2), h1),
{
    assert forall|k: int| 0 <= k < c.len() implies #[trigger] xor_bytes(xor_bytes(c, h1), h2)[k] == xor_bytes(xor_bytes(c, h2), h1)[k] by {
        let (a, x, y) = (c[k], h1[k], h2[k]);
        assert((a ^ x) ^ y == (a ^ y) ^ x) by (bit_vector);
    }
    assert(xor_bytes(xor_bytes(c, h1), h2) =~= xor_bytes(xor_bytes(c, h2), h1));
}

/// Folding a hash in twice leaves the cumulative hash as it was; so the exclusive or
/// of two cumulative hashes is the exclusive or of the hashes in which they differ.
pub proof fn lemma_xor_bytes_cancel(c: Seq<u8>, h: Seq<u8>)
    ensures
        xor_bytes(xor_bytes(c, h), h) == c,
        forall|k: int| 0 <= k < c.len() ==> #[trigger] xor_bytes(xor_bytes(c, h), c)[k] == h[k],
{
    assert forall|k: int| 0 <= k < c.len() implies #[trigger] xor_bytes(xor_bytes(c, h), h)[k] == c[k] by {
        let (a, x) = (c[k], h[k]);
        assert((a ^ x) ^ x == a) by (bit_vector);
    }
    assert forall|k: int| 0 <= k < c.len() implies #[trigger] xor_bytes(xor_bytes(c, h), c)[k] == h[k] by {
        let (a, x) = (c[k], h[k]);
        assert((a ^ x) ^ a == x) by (bit_vector);
    }
    assert(xor_bytes(xor_bytes(c, h), h) =~= c);
}

} // verus!
