//! Save compression: run-length encoding followed by Huffman coding.

pub mod huffman;
pub mod rle;

use vstd::prelude::*;
use crate::bits::padding;
use crate::huffman_node::{symbols, well_formed, lemma_huffman_tree_symbols, occurring};
use crate::huffman_table::{leftmost_depth, leftmost_symbol, lemma_leftmost_symbol};
use self::huffman::{
    Huffman, byte_frequencies, data_bits, data_tree, huffman_decode, huffman_encode,
    lemma_huffman_round_trip, lemma_occurring_bytes,
};
use self::rle::{RLE, lemma_rle_round_trip_tail, rle_decode, rle_encode};

verus! {

/// What `decompress` gives for `data`: the run-length decoding of the
/// Huffman decoding; `None` where either fails.
pub open spec fn decompress_spec(data: Seq<u8>) -> Option<Seq<u8>> {
    match huffman_decode(data) {
        Some(r) => rle_decode(r),
        None => None,
    }
}

/// The number of extra symbols that the padding of the last byte of
/// `compress(x)` decodes to (see `huffman_round_trip`).
pub open spec fn padding_symbols(r: Seq<u8>) -> nat {
    (padding(data_bits(r).len() as int) as nat) / leftmost_depth(data_tree(r))
}

proof fn lemma_rle_encode_not_empty(s: Seq<u8>)
    requires
        s.len() > 0,
    ensures
        rle_encode(s).len() > 0,
{
    rle::lemma_run_end_bounds(s, 2);
    rle::lemma_distinct_end_bounds(s, 2);
}

/// Compresses a save: run-length encoding, then Huffman coding.
pub fn compress(data: &Vec<u8>) -> (compressed: Vec<u8>)
    requires
        data@.len() > 0,
    ensures
        compressed@ == huffman_encode(rle_encode(data@)),
{
    let rle_data = RLE::encode(data);
    proof {
        lemma_rle_encode_not_empty(data@);
    }
    let compressed_data = Huffman::encode(&rle_data);
    compressed_data
}

/// Decompresses a save: Huffman decoding, then run-length decoding; `None`
/// where either fails.
pub fn decompress(data: &Vec<u8>) -> (res: Option<Vec<u8>>)
    requires
        data@.len() < usize::MAX,
    ensures
        match res {
            Some(out) => decompress_spec(data@) == Some(out@),
            None => decompress_spec(data@) is None,
        },
{
    match Huffman::decode(data) {
        Some(rle_data) => {
            let decompressed_data = RLE::decode(&rle_data);
            decompressed_data
        },
        None => None,
    }
}

/// A non-empty input whose bytes are not all equal gets a tree that is no
/// single leaf.
proof fn lemma_two_bytes_tree(r: Seq<u8>)
    requires
        r.len() <= usize::MAX,
        exists|i: int, j: int| 0 <= i < r.len() && 0 <= j < r.len() && r[i] != r[j],
    ensures
        data_tree(r).symbol is None,
        well_formed(data_tree(r)),
        leftmost_depth(data_tree(r)) >= 1,
{
    let f = byte_frequencies(r);
    let (i, j) = choose|i: int, j: int| 0 <= i < r.len() && 0 <= j < r.len() && r[i] != r[j];
    lemma_occurring_bytes(r);
    lemma_huffman_tree_symbols(f);
    assert(occurring(f).contains(r[i]));
    assert(occurring(f).contains(r[j]));
    let t = data_tree(r);
    if t.symbol is Some {
        assert(t.left is None && t.right is None);
        assert(symbols(t) =~= set![t.symbol.unwrap()]);
        assert(false);
    }
    assert(t.left is Some);
}

/// Decompressing the compression of `x` gives `x` back. This holds where
/// `x` is not empty, the bytes of its run-length encoding are not all equal,
/// and the zero bits that pad the last byte decode to at most one extra
/// symbol, which then is no zero byte.
pub proof fn lemma_compress_round_trip(x: Seq<u8>)
    requires
        0 < x.len() <= usize::MAX,
        rle_encode(x).len() <= usize::MAX,
        exists|i: int, j: int|
            0 <= i < rle_encode(x).len() && 0 <= j < rle_encode(x).len() && rle_encode(x)[i]
                != rle_encode(x)[j],
        padding_symbols(rle_encode(x)) == 0 || (padding_symbols(rle_encode(x)) == 1
            && leftmost_symbol(data_tree(rle_encode(x))) != Some(0u8)),
    ensures
        decompress_spec(huffman_encode(rle_encode(x))) == Some(x),
{
    let r = rle_encode(x);
    lemma_rle_encode_not_empty(x);
    lemma_two_bytes_tree(r);
    lemma_huffman_round_trip(r);
    let t = data_tree(r);
    lemma_leftmost_symbol(t);
    let k = padding_symbols(r);
    let sym = leftmost_symbol(t).unwrap();
    let extra = Seq::new(k, |i: int| sym);
    lemma_rle_round_trip_tail(x, false, extra);
    assert(huffman::huffman_round_trip(r) == r + extra);
    if k == 0 {
        assert(extra =~= Seq::<u8>::empty());
    } else {
        assert(extra.len() == 1);
        assert(extra[0] != 0u8);
        assert(extra.skip(1) =~= Seq::<u8>::empty());
        assert(extra.subrange(1, 1) =~= Seq::<u8>::empty());
        assert(rle_decode(extra.skip(1)) == Some(Seq::<u8>::empty()));
    }
    assert(rle_decode(extra) == Some(Seq::<u8>::empty()));
    assert(x + Seq::<u8>::empty() =~= x);
}

} // verus!
