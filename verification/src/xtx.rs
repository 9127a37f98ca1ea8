//! Decryption of the game's `.xtx` data files.

use vstd::prelude::*;

verus! {

/// The repeating key of the `.xtx` files.
pub open spec fn xtx_key(i: int) -> u8 {
    if i == 0 {
        175
    } else if i == 1 {
        222
    } else if i == 2 {
        222
    } else {
        250
    }
}

/// The length of the part of `n` bytes that is decrypted with the key: `n`
/// with its two lowest bits (and any above bit 31) cleared.
pub open spec fn xtx_rounded_len(n: usize) -> usize {
    n & 0xFFFF_FFFCusize
}

/// The decryption of `data`: every byte of the rounded part XORed with the
/// key; where the length is odd, the first byte after it inverted; the rest
/// as it is.
pub open spec fn xtx_decrypt(data: Seq<u8>) -> Seq<u8> {
    let r = xtx_rounded_len(data.len() as usize) as int;
    Seq::new(
        data.len(),
        |i: int|
            if i < r {
                data[i] ^ xtx_key(i % 4)
            } else if i == r && data.len() % 2 == 1 {
                data[i] ^ 0xFFu8
            } else {
                data[i]
            },
    )
}

proof fn lemma_rounded_len(n: usize)
    by (bit_vector)
    ensures
        n & 0xFFFF_FFFCusize <= n,
        n % 2 == 1 ==> n & 0xFFFF_FFFCusize < n,
{
}

proof fn lemma_xor_twice(a: u8, k: u8)
    by (bit_vector)
    ensures
        (a ^ k) ^ k == a,
{
}

/// Decrypting twice gives the data back: the same operation encrypts.
pub proof fn lemma_xtx_decrypt_involution(data: Seq<u8>)
    requires
        data.len() <= usize::MAX,
    ensures
        xtx_decrypt(xtx_decrypt(data)) == data,
{
    let d1 = xtx_decrypt(data);
    assert forall|i: int| 0 <= i < data.len() implies xtx_decrypt(d1)[i] == data[i] by {
        lemma_xor_twice(data[i], xtx_key(i % 4));
        lemma_xor_twice(data[i], 0xFFu8);
    }
    assert(xtx_decrypt(d1) =~= data);
}

proof fn lemma_rounded_len_value(n: usize)
    by (bit_vector)
    requires
        n <= 0xFFFF_FFFFusize,
    ensures
        n & 0xFFFF_FFFCusize == n - n % 4,
{
}

/// Decryption keeps the length; XORs each byte before the length rounded
/// down to a multiple of four with the key 175, 222, 222, 250, repeated from
/// the first byte on; where the length is odd, inverts the byte just after
/// that part; and keeps every other byte. This holds for data shorter than
/// 2^32 bytes (the length mask keeps the low 32 bits).
pub proof fn lemma_xtx_decrypt_bytes(data: Seq<u8>)
    requires
        data.len() < 0x1_0000_0000,
    ensures
        xtx_decrypt(data).len() == data.len(),
        forall|i: int|
            0 <= i < 4 * (data.len() / 4) ==> #[trigger] xtx_decrypt(data)[i] == data[i]
                ^ seq![175u8, 222u8, 222u8, 250u8][i % 4],
        data.len() % 2 == 1 ==> xtx_decrypt(data)[4 * (data.len() / 4) as int] == data[4 * (
        data.len() / 4) as int] ^ 0xFFu8,
        forall|i: int|
            4 * (data.len() / 4) + data.len() % 2 <= i < data.len() ==> #[trigger] xtx_decrypt(
                data,
            )[i] == data[i],
{
    let n = data.len() as usize;
    lemma_rounded_len_value(n);
    assert(xtx_rounded_len(n) as int == 4 * (data.len() / 4));
    assert forall|i: int| 0 <= i < 4 * (data.len() / 4) implies #[trigger] xtx_decrypt(data)[i]
        == data[i] ^ seq![175u8, 222u8, 222u8, 250u8][i % 4] by {
        let k = i % 4;
        assert(xtx_key(k) == seq![175u8, 222u8, 222u8, 250u8][k]);
    }
}

pub struct XTX {}

impl XTX {
    /// Decrypts the contents of an `.xtx` file (see `xtx_decrypt`).
    pub fn decrypt(data: &Vec<u8>) -> (decrypted: Vec<u8>)
        ensures
            decrypted@ == xtx_decrypt(data@),
            data@.len() < 0x1_0000_0000 ==> forall|i: int|
                0 <= i < 4 * (data@.len() / 4) ==> #[trigger] decrypted@[i] == data@[i]
                    ^ seq![175u8, 222u8, 222u8, 250u8][i % 4],
    {
        let key: Vec<u8> = vec![175, 222, 222, 250];
        let mut decrypted = data.clone();
        assert(decrypted@ =~= data@);
        let rounded_len = data.len() & 0xFFFF_FFFC;
        proof {
            lemma_rounded_len(data.len());
        }
        let mut i: usize = 0;
        while i < rounded_len
            invariant
                rounded_len == xtx_rounded_len(data@.len() as usize),
                rounded_len <= data@.len(),
                key@ == seq![175u8, 222u8, 222u8, 250u8],
                i <= rounded_len,
                decrypted@.len() == data@.len(),
                forall|k: int|
                    0 <= k < data@.len() ==> #[trigger] decrypted@[k] == if k < i {
                        data@[k] ^ xtx_key(k % 4)
                    } else {
                        data@[k]
                    },
            decreases rounded_len - i,
        {
            let value = data[i] ^ key[i % 4];
            decrypted.set(i, value);
            i = i + 1;
        }
        if data.len() % 2 == 1 {
            let last = decrypted[rounded_len] ^ 0xFF;
            decrypted.set(rounded_len, last);
        }
        assert(decrypted@ =~= xtx_decrypt(data@));
        proof {
            if data@.len() < 0x1_0000_0000 {
                lemma_xtx_decrypt_bytes(data@);
            }
        }
        decrypted
    }
}

} // verus!
