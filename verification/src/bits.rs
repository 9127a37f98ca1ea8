//! Bits of bytes, most significant bit first, and the packing of a bit
//! sequence into bytes.

use vstd::prelude::*;

verus! {

/// Bit `i` (0 = most significant) of the byte `b`.
pub open spec fn bit_of(b: u8, i: int) -> bool {
    ((b >> ((7 - i) as u8)) & 1u8) == 1u8
}

/// The eight bits of a byte, most significant first.
pub open spec fn byte_to_bits(b: u8) -> Seq<bool> {
    Seq::new(8, |i: int| bit_of(b, i))
}

/// The bits of a byte sequence, each byte most significant bit first.
pub open spec fn bytes_to_bits(s: Seq<u8>) -> Seq<bool>
    decreases s.len(),
{
    if s.len() == 0 {
        Seq::empty()
    } else {
        bytes_to_bits(s.drop_last()) + byte_to_bits(s.last())
    }
}

pub proof fn lemma_bytes_to_bits_len(s: Seq<u8>)
    ensures
        bytes_to_bits(s).len() == 8 * s.len(),
    decreases s.len(),
{
    if s.len() > 0 {
        lemma_bytes_to_bits_len(s.drop_last());
    }
}

/// Appends the eight bits of `byte`, most significant first.
pub fn byte_bits_into(byte: u8, bits: &mut Vec<bool>)
    ensures
        final(bits)@ == old(bits)@ + byte_to_bits(byte),
{
    let ghost start = bits@;
    let mut i: u8 = 0;
    while i < 8
        invariant
            0 <= i <= 8,
            bits@ == start + byte_to_bits(byte).take(i as int),
        decreases 8 - i,
    {
        let bit = (byte >> (7 - i)) & 1 == 1;
        bits.push(bit);
        assert(byte_to_bits(byte).take(i + 1) =~= byte_to_bits(byte).take(i as int).push(bit));
        i = i + 1;
    }
    assert(byte_to_bits(byte).take(8) =~= byte_to_bits(byte));
}


/// The byte with only bit `j` (0 = most significant) set.
pub open spec fn bit_mask(j: int) -> u8 {
    1u8 << ((7 - j) as u8)
}

/// The byte whose first `m` bits (most significant first) are `b[off..off + m]`
/// and whose other bits are zero.
pub open spec fn pack_byte(b: Seq<bool>, off: int, m: int) -> u8
    decreases m,
{
    if m <= 0 {
        0
    } else {
        pack_byte(b, off, m - 1) | (if b[off + m - 1] {
            bit_mask(m - 1)
        } else {
            0u8
        })
    }
}

/// The whole bytes that the bits `b` fill.
pub open spec fn full_bytes(b: Seq<bool>) -> Seq<u8> {
    Seq::new((b.len() / 8) as nat, |k: int| pack_byte(b, 8 * k, 8))
}

/// The bits `b` packed into bytes, most significant bit first, the last byte
/// padded with zero bits.
pub open spec fn pack_bits(b: Seq<bool>) -> Seq<u8> {
    if b.len() % 8 == 0 {
        full_bytes(b)
    } else {
        full_bytes(b).push(pack_byte(b, 8 * (b.len() / 8) as int, (b.len() % 8) as int))
    }
}

/// Number of zero bits that pad `n` bits to whole bytes.
pub open spec fn padding(n: int) -> int {
    if n % 8 == 0 {
        0
    } else {
        8 - n % 8
    }
}

proof fn lemma_bit_or(x: u8, m: u8, i: u8)
    by (bit_vector)
    requires
        m < 8,
        i < 8,
    ensures
        (((x | (1u8 << ((7u8 - m) as u8))) >> ((7u8 - i) as u8)) & 1u8 == 1u8) == ((((x >> ((7u8 - i) as u8)) & 1u8)
            == 1u8) || i == m),
        (((x | 0u8) >> ((7u8 - i) as u8)) & 1u8 == 1u8) == (((x >> ((7u8 - i) as u8)) & 1u8) == 1u8),
        ((0u8 >> ((7u8 - i) as u8)) & 1u8) != 1u8,
{
}

/// The bits of a packed byte are the bits packed, then zeros.
pub proof fn lemma_pack_byte_bits(b: Seq<bool>, off: int, m: int)
    requires
        0 <= m <= 8,
        0 <= off,
        off + m <= b.len(),
    ensures
        forall|i: int| 0 <= i < 8 ==> #[trigger] bit_of(pack_byte(b, off, m), i) == (i < m && b[off + i]),
    decreases m,
{
    assert forall|i: int| 0 <= i < 8 implies #[trigger] bit_of(pack_byte(b, off, m), i) == (i < m
        && b[off + i]) by {
        let iu = i as u8;
        assert((7 - i) as u8 == (7u8 - iu) as u8);
        if m == 0 {
            lemma_bit_or(0, 0, iu);
        } else {
            lemma_pack_byte_bits(b, off, m - 1);
            let x = pack_byte(b, off, m - 1);
            let mu = (m - 1) as u8;
            assert((7 - (m - 1)) as u8 == (7u8 - mu) as u8);
            lemma_bit_or(x, mu, iu);
            assert(bit_of(x, i) == (i < m - 1 && b[off + i]));
        }
    }
}

/// Packing ignores the bits after the ones it packs.
pub proof fn lemma_pack_byte_prefix(b: Seq<bool>, c: Seq<bool>, off: int, m: int)
    requires
        0 <= off,
        0 <= m,
        off + m <= b.len(),
        off + m <= c.len(),
        forall|i: int| off <= i < off + m ==> b[i] == c[i],
    ensures
        pack_byte(b, off, m) == pack_byte(c, off, m),
    decreases m,
{
    if m > 0 {
        lemma_pack_byte_prefix(b, c, off, m - 1);
    }
}

/// Unpacking packed bits gives the bits back, then the padding zeros.
pub proof fn lemma_pack_bits_round_trip(b: Seq<bool>)
    ensures
        bytes_to_bits(pack_bits(b)) == b + Seq::new(padding(b.len() as int) as nat, |i: int| false),
{
    let p = pack_bits(b);
    let pad = Seq::new(padding(b.len() as int) as nat, |i: int| false);
    let target = b + pad;
    lemma_bytes_to_bits_len(p);
    assert(p.len() * 8 == target.len());
    lemma_bytes_to_bits_index(p);
    assert forall|n: int| 0 <= n < target.len() implies bytes_to_bits(p)[n] == target[n] by {
        let k = n / 8;
        let i = n % 8;
        assert(n == 8 * k + i);
        let m = if 8 * k + 8 <= b.len() {
            8
        } else {
            b.len() - 8 * k
        };
        lemma_pack_byte_bits(b, 8 * k, m);
        assert(p[k] == pack_byte(b, 8 * k, m));
        assert(bit_of(p[k], i) == (i < m && b[8 * k + i]));
    }
    assert(bytes_to_bits(p) =~= target);
}

/// Bit `8 * k + i` of a byte sequence is bit `i` of byte `k`.
pub proof fn lemma_bytes_to_bits_index(s: Seq<u8>)
    ensures
        bytes_to_bits(s).len() == 8 * s.len(),
        forall|k: int, i: int| 0 <= k < s.len() && 0 <= i < 8 ==> #[trigger] bytes_to_bits(s)[8 * k + i] == bit_of(#[trigger] s[k], i),
    decreases s.len(),
{
    lemma_bytes_to_bits_len(s);
    if s.len() > 0 {
        lemma_bytes_to_bits_index(s.drop_last());
        let t = s.drop_last();
        assert forall|k: int, i: int| 0 <= k < s.len() && 0 <= i < 8 implies #[trigger] bytes_to_bits(s)[8 * k + i] == bit_of(#[trigger] s[k], i) by {
            if k < s.len() - 1 {
                assert(s[k] == t[k]);
                assert(bytes_to_bits(s)[8 * k + i] == bytes_to_bits(t)[8 * k + i]);
            }
        }
    }
}
} // verus!
