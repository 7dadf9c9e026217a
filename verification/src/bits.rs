//! Byte strings seen as bit strings. Bit 0 is the most significant bit of the
//! first byte, bit 7 its least significant bit, bit 8 the most significant
//! bit of the second byte, and so on.

use vstd::prelude::*;

verus! {

/// Bit `i` of a byte string.
pub open spec fn bit_at(bytes: Seq<u8>, i: int) -> bool {
    (bytes[i / 8] >> ((7 - i % 8) as u8)) & 1 == 1
}

/// The bits of a byte string, eight for each byte.
pub open spec fn bits_of(bytes: Seq<u8>) -> Seq<bool> {
    Seq::new(8 * bytes.len(), |i: int| bit_at(bytes, i))
}

/// The byte whose bits, most significant first, are the eight given ones.
pub open spec fn pack_byte(
    b0: bool,
    b1: bool,
    b2: bool,
    b3: bool,
    b4: bool,
    b5: bool,
    b6: bool,
    b7: bool,
) -> u8 {
    (if b0 { 0x80u8 } else { 0u8 }) | (if b1 { 0x40u8 } else { 0u8 }) | (if b2 { 0x20u8 } else { 0u8 })
        | (if b3 { 0x10u8 } else { 0u8 }) | (if b4 { 0x08u8 } else { 0u8 }) | (if b5 { 0x04u8 } else { 0u8 })
        | (if b6 { 0x02u8 } else { 0u8 }) | (if b7 { 0x01u8 } else { 0u8 })
}

/// The byte string with the given bits; bits beyond the last full byte are dropped.
pub open spec fn bytes_of(bits: Seq<bool>) -> Seq<u8> {
    Seq::new(
        (bits.len() / 8) as nat,
        |k: int|
            pack_byte(
                bits[8 * k],
                bits[8 * k + 1],
                bits[8 * k + 2],
                bits[8 * k + 3],
                bits[8 * k + 4],
                bits[8 * k + 5],
                bits[8 * k + 6],
                bits[8 * k + 7],
            ),
    )
}

proof fn lemma_pack_byte_bits(
    b0: bool,
    b1: bool,
    b2: bool,
    b3: bool,
    b4: bool,
    b5: bool,
    b6: bool,
    b7: bool,
)
    by (bit_vector)
    ensures
        ((pack_byte(b0, b1, b2, b3, b4, b5, b6, b7) >> 7u8) & 1 == 1) == b0,
        ((pack_byte(b0, b1, b2, b3, b4, b5, b6, b7) >> 6u8) & 1 == 1) == b1,
        ((pack_byte(b0, b1, b2, b3, b4, b5, b6, b7) >> 5u8) & 1 == 1) == b2,
        ((pack_byte(b0, b1, b2, b3, b4, b5, b6, b7) >> 4u8) & 1 == 1) == b3,
        ((pack_byte(b0, b1, b2, b3, b4, b5, b6, b7) >> 3u8) & 1 == 1) == b4,
        ((pack_byte(b0, b1, b2, b3, b4, b5, b6, b7) >> 2u8) & 1 == 1) == b5,
        ((pack_byte(b0, b1, b2, b3, b4, b5, b6, b7) >> 1u8) & 1 == 1) == b6,
        ((pack_byte(b0, b1, b2, b3, b4, b5, b6, b7) >> 0u8) & 1 == 1) == b7,
{
}

proof fn lemma_unpack_byte(x: u8)
    by (bit_vector)
    ensures
        pack_byte(
            (x >> 7u8) & 1 == 1,
            (x >> 6u8) & 1 == 1,
            (x >> 5u8) & 1 == 1,
            (x >> 4u8) & 1 == 1,
            (x >> 3u8) & 1 == 1,
            (x >> 2u8) & 1 == 1,
            (x >> 1u8) & 1 == 1,
            (x >> 0u8) & 1 == 1,
        ) == x,
{
}

proof fn lemma_or_shifted_bit(b: u8, v: u8, q: u8, r: u8)
    by (bit_vector)
    requires
        v <= 1,
        q < 8,
        r < 8,
    ensures
        (((b | (v << q)) >> r) & 1 == 1) == (if r == q {
            ((b >> r) & 1 == 1) || v == 1
        } else {
            (b >> r) & 1 == 1
        }),
{
}

/// A byte string is given by its bits.
pub proof fn lemma_bytes_of_bits_of(bytes: Seq<u8>)
    ensures
        bytes_of(bits_of(bytes)) == bytes,
{
    let back = bytes_of(bits_of(bytes));
    assert(back.len() == bytes.len());
    assert forall|k: int| 0 <= k < bytes.len() implies back[k] == bytes[k] by {
        lemma_unpack_byte(bytes[k]);
        assert(bit_at(bytes, 8 * k) == ((bytes[k] >> 7u8) & 1 == 1));
        assert(bit_at(bytes, 8 * k + 1) == ((bytes[k] >> 6u8) & 1 == 1));
        assert(bit_at(bytes, 8 * k + 2) == ((bytes[k] >> 5u8) & 1 == 1));
        assert(bit_at(bytes, 8 * k + 3) == ((bytes[k] >> 4u8) & 1 == 1));
        assert(bit_at(bytes, 8 * k + 4) == ((bytes[k] >> 3u8) & 1 == 1));
        assert(bit_at(bytes, 8 * k + 5) == ((bytes[k] >> 2u8) & 1 == 1));
        assert(bit_at(bytes, 8 * k + 6) == ((bytes[k] >> 1u8) & 1 == 1));
        assert(bit_at(bytes, 8 * k + 7) == ((bytes[k] >> 0u8) & 1 == 1));
    }
    assert(back =~= bytes);
}

/// A bit string of whole bytes is given by its bytes.
pub proof fn lemma_bits_of_bytes_of(bits: Seq<bool>)
    requires
        bits.len() % 8 == 0,
    ensures
        bits_of(bytes_of(bits)) == bits,
{
    let bytes = bytes_of(bits);
    let back = bits_of(bytes);
    assert(back.len() == bits.len());
    assert forall|i: int| 0 <= i < bits.len() implies back[i] == bits[i] by {
        let k = i / 8;
        lemma_pack_byte_bits(
            bits[8 * k],
            bits[8 * k + 1],
            bits[8 * k + 2],
            bits[8 * k + 3],
            bits[8 * k + 4],
            bits[8 * k + 5],
            bits[8 * k + 6],
            bits[8 * k + 7],
        );
    }
    assert(back =~= bits);
}

/// What setting one bit of a byte string by `|` does to its bits: bit `i`
/// becomes set if `v` is 1, and no other bit changes.
pub proof fn lemma_or_bit(bytes: Seq<u8>, i: int, v: u8)
    requires
        0 <= i < 8 * bytes.len(),
        v <= 1,
    ensures
        ({
            let after = bytes.update(i / 8, bytes[i / 8] | (v << ((7 - i % 8) as u8)));
            forall|k: int|
                0 <= k < 8 * bytes.len() ==> #[trigger] bit_at(after, k) == (if k == i {
                    bit_at(bytes, i) || v == 1
                } else {
                    bit_at(bytes, k)
                })
        }),
{
    let q = (7 - i % 8) as u8;
    let before = bytes[i / 8];
    let after = bytes.update(i / 8, before | (v << q));
    assert forall|k: int| 0 <= k < 8 * bytes.len() implies #[trigger] bit_at(after, k) == (if k
        == i {
        bit_at(bytes, i) || v == 1
    } else {
        bit_at(bytes, k)
    }) by {
        let r = (7 - k % 8) as u8;
        if k / 8 == i / 8 {
            lemma_or_shifted_bit(before, v, q, r);
            assert((r == q) == (k == i));
        }
    }
}

} // verus!
