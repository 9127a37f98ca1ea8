//! The Huffman stage of save compression: the tree, written as bytes, then
//! the codes of the data bytes packed into bytes.

use vstd::prelude::*;
use crate::bits::{bytes_to_bits, lemma_pack_bits_round_trip, pack_bits, padding};
use crate::huffman_code::{
    HuffmanCode, code_path, code_table, codes_of, tree_codes, has_code_path, lemma_code_table_entry,
    lemma_codes_of_paths, lemma_node_at_height, lemma_path_value_bits, reaches,
};
use crate::huffman_node::{
    HuffmanNode, freq_sum, height, huffman_tree, lemma_huffman_tree_height,
    lemma_huffman_tree_symbols, lemma_tree_bytes_parse,
    node_at, occurring, parse_node, symbols, tree_bytes, unweighted, well_formed,
};
use crate::huffman_table::{
    HuffmanTable, code_bits, encoded_bits, leftmost_depth, leftmost_symbol, lemma_walk_encoded,
    lemma_walk_zeros_root, walk, walk_ok,
};
use crate::read_buffer::ReadBuffer;

verus! {

/// Number of occurrences of the byte `b` in `data`.
pub open spec fn count_byte(data: Seq<u8>, b: u8) -> int
    decreases data.len(),
{
    if data.len() == 0 {
        0
    } else {
        count_byte(data.drop_last(), b) + if data.last() == b {
            1int
        } else {
            0
        }
    }
}

/// The frequency table of `data`, indexed by byte value.
pub open spec fn byte_frequencies(data: Seq<u8>) -> Seq<usize> {
    Seq::new(256, |i: int| count_byte(data, i as u8) as usize)
}

/// The Huffman tree built for `data`.
pub open spec fn data_tree(data: Seq<u8>) -> HuffmanNode {
    huffman_tree(byte_frequencies(data)).unwrap()
}

/// The code table of the tree built for `data`.
pub open spec fn data_code_table(data: Seq<u8>) -> Seq<HuffmanCode> {
    code_table(codes_of(data_tree(data), 0, 0))
}

/// The code bits of `data` under its own tree.
pub open spec fn data_bits(data: Seq<u8>) -> Seq<bool> {
    encoded_bits(data_code_table(data), data)
}

/// What `Huffman::encode` produces from `data`: the tree's bytes, then the
/// packed code bits.
pub open spec fn huffman_encode(data: Seq<u8>) -> Seq<u8> {
    tree_bytes(data_tree(data)) + pack_bits(data_bits(data))
}

/// What `Huffman::decode` produces from `s`: `None` where no tree can be
/// read, or where the bits after the tree meet a `0` bit at a node without a
/// left child (see `walk_ok`); else the symbols decoded from all those bits.
pub open spec fn huffman_decode(s: Seq<u8>) -> Option<Seq<u8>> {
    match parse_node(s, 0, true) {
        (Some(root), p) => if walk_ok(root, root, bytes_to_bits(s.skip(p))) {
            Some(walk(root, root, bytes_to_bits(s.skip(p))))
        } else {
            None
        },
        _ => None,
    }
}

proof fn lemma_count_byte_bounds(data: Seq<u8>, b: u8)
    ensures
        0 <= count_byte(data, b) <= data.len(),
        count_byte(data, b) > 0 <==> exists|k: int| 0 <= k < data.len() && data[k] == b,
    decreases data.len(),
{
    if data.len() > 0 {
        let init = data.drop_last();
        lemma_count_byte_bounds(init, b);
        if exists|k: int| 0 <= k < data.len() && data[k] == b {
            let k = choose|k: int| 0 <= k < data.len() && data[k] == b;
            if k < data.len() - 1 {
                assert(init[k] == b);
            }
        }
        if exists|k: int| 0 <= k < init.len() && init[k] == b {
            let k = choose|k: int| 0 <= k < init.len() && init[k] == b;
            assert(data[k] == b);
        }
    }
}

proof fn lemma_freq_sum_update(f: Seq<usize>, g: Seq<usize>, b: int, n: int)
    requires
        0 <= n <= f.len(),
        f.len() == g.len(),
        0 <= b < f.len(),
        g[b] == f[b] + 1,
        forall|i: int| 0 <= i < f.len() && i != b ==> g[i] == f[i],
    ensures
        freq_sum(g, n) == freq_sum(f, n) + if b < n {
            1int
        } else {
            0
        },
    decreases n,
{
    if n > 0 {
        lemma_freq_sum_update(f, g, b, n - 1);
    }
}

proof fn lemma_byte_frequencies_sum(data: Seq<u8>)
    requires
        data.len() <= usize::MAX,
    ensures
        freq_sum(byte_frequencies(data), 256) == data.len(),
    decreases data.len(),
{
    if data.len() == 0 {
        assert forall|n: int| 0 <= n <= 256 implies freq_sum(byte_frequencies(data), n) == 0 by {
            lemma_freq_sum_zero(byte_frequencies(data), n);
        }
    } else {
        let init = data.drop_last();
        lemma_byte_frequencies_sum(init);
        let f = byte_frequencies(init);
        let g = byte_frequencies(data);
        let b = data.last() as int;
        lemma_count_byte_bounds(init, data.last());
        lemma_count_byte_bounds(data, data.last());
        assert(b as u8 == data.last());
        assert forall|i: int| 0 <= i < 256 && i != b implies g[i] == f[i] by {
            assert(i as u8 != data.last());
        }
        lemma_freq_sum_update(f, g, b, 256);
    }
}

proof fn lemma_freq_sum_zero(f: Seq<usize>, n: int)
    requires
        0 <= n <= f.len(),
        forall|i: int| 0 <= i < f.len() ==> f[i] == 0,
    ensures
        freq_sum(f, n) == 0,
    decreases n,
{
    if n > 0 {
        lemma_freq_sum_zero(f, n - 1);
    }
}

/// The bytes that occur in `data` are exactly those of positive frequency.
pub proof fn lemma_occurring_bytes(data: Seq<u8>)
    requires
        data.len() <= usize::MAX,
    ensures
        forall|s: u8|
            #![trigger occurring(byte_frequencies(data)).contains(s)]
            occurring(byte_frequencies(data)).contains(s) <==> exists|k: int|
                0 <= k < data.len() && data[k] == s,
{
    assert forall|s: u8| occurring(byte_frequencies(data)).contains(s) <==> exists|k: int|
        0 <= k < data.len() && data[k] == s by {
        lemma_count_byte_bounds(data, s);
        assert(s as int as u8 == s);
        assert(byte_frequencies(data)[s as int] == count_byte(data, s) as usize);
    }
}

proof fn lemma_unweighted(n: HuffmanNode, q: Seq<bool>)
    ensures
        well_formed(n) ==> well_formed(unweighted(n)),
        leftmost_depth(unweighted(n)) == leftmost_depth(n),
        forall|s: u8| reaches(n, q, s) ==> reaches(unweighted(n), q, s),
    decreases n, q.len(),
{
    match n.left {
        Some(l) => {
            lemma_unweighted(*l, Seq::empty());
        },
        None => {},
    }
    match n.right {
        Some(r) => {
            lemma_unweighted(*r, Seq::empty());
        },
        None => {},
    }
    if q.len() > 0 {
        let child = if q[0] {
            n.right
        } else {
            n.left
        };
        match child {
            Some(c) => {
                lemma_unweighted(*c, q.drop_first());
                let uchild = if q[0] {
                    unweighted(n).right
                } else {
                    unweighted(n).left
                };
                assert(uchild == Some(Box::new(unweighted(*c))));
                assert(node_at(unweighted(n), q) == node_at(unweighted(*c), q.drop_first()));
                assert(node_at(n, q) == node_at(*c, q.drop_first()));
                assert forall|s: u8| reaches(n, q, s) implies reaches(unweighted(n), q, s) by {
                    assert(reaches(*c, q.drop_first(), s));
                }
            },
            None => {},
        }
    } else {
        assert(node_at(unweighted(n), q) == Some(unweighted(n)));
        assert(node_at(n, q) == Some(n));
    }
}

/// The code that the table built from a well-formed tree at most 128 levels
/// deep gives a symbol of the tree is a path from the root to a leaf of that
/// symbol: as many bits as the leaf is deep, at most 128, and at least one
/// where the tree is no single leaf.
pub proof fn lemma_table_code_is_path(t: HuffmanNode, s: u8)
    requires
        well_formed(t),
        height(t) <= 128,
        symbols(t).contains(s),
    ensures
        reaches(t, code_bits(code_table(codes_of(t, 0, 0))[s as int]), s),
        code_table(codes_of(t, 0, 0))[s as int].length <= 128,
        t.symbol is None ==> code_bits(code_table(codes_of(t, 0, 0))[s as int]).len() >= 1,
{
    let empty = Seq::<bool>::empty();
    let codes = codes_of(t, 0, 0);
    lemma_codes_of_paths(t, empty);
    lemma_code_table_entry(codes, s);
    let k = choose|k: int|
        0 <= k < codes.len() && #[trigger] codes[k] == code_table(codes)[s as int] && codes[k].symbol
            == s;
    let c = codes[k];
    assert(has_code_path(t, empty, c));
    let q = choose|q: Seq<bool>| #[trigger] code_path(t, empty, c, q);
    assert(empty + q =~= q);
    lemma_node_at_height(t, q);
    lemma_path_value_bits(q);
    assert(code_bits(c) =~= q);
    if q.len() == 0 {
        assert(node_at(t, q) == Some(t));
    }
}

/// Walking the code bits that the code table of a tree gives a sequence of
/// its symbols through that tree gives the sequence back, and never meets a
/// `0` bit at a node without a left child. This holds for every well-formed
/// tree that is no single leaf and at most 128 levels deep (the codes hold at
/// most 128 bits).
pub proof fn lemma_table_decode_round_trip(t: HuffmanNode, data: Seq<u8>)
    requires
        well_formed(t),
        t.symbol is None,
        height(t) <= 128,
        forall|k: int| 0 <= k < data.len() ==> symbols(t).contains(#[trigger] data[k]),
    ensures
        walk_ok(t, t, encoded_bits(code_table(tree_codes(Some(t))), data)),
        walk(t, t, encoded_bits(code_table(tree_codes(Some(t))), data)) == data,
{
    let table = code_table(codes_of(t, 0, 0));
    lemma_code_table_entry(codes_of(t, 0, 0), 0);
    assert forall|k: int| 0 <= k < data.len() implies code_bits(
        table[#[trigger] data[k] as int],
    ).len() >= 1 && reaches(t, code_bits(table[data[k] as int]), data[k]) by {
        lemma_table_code_is_path(t, data[k]);
    }
    let empty = Seq::<bool>::empty();
    lemma_walk_encoded(t, table, data, empty);
    assert(encoded_bits(table, data) + empty =~= encoded_bits(table, data));
    assert(data + Seq::<u8>::empty() =~= data);
}

/// What decoding the Huffman encoding of `data` gives: nothing where the
/// tree is a single leaf (all bytes of `data` are equal and get no bits);
/// else `data`, then one copy of the leftmost symbol of the tree for every
/// full walk down its left edge that the zero bits padding the last byte
/// make.
pub open spec fn huffman_round_trip(data: Seq<u8>) -> Seq<u8> {
    let t = data_tree(data);
    if t.symbol is Some {
        Seq::empty()
    } else {
        data + Seq::new(
            (padding(data_bits(data).len() as int) as nat) / leftmost_depth(t),
            |i: int| leftmost_symbol(t).unwrap(),
        )
    }
}

proof fn lemma_encoded_bits_empty(table: Seq<HuffmanCode>, data: Seq<u8>)
    requires
        forall|k: int| 0 <= k < data.len() ==> table[#[trigger] data[k] as int].length == 0,
    ensures
        encoded_bits(table, data) == Seq::<bool>::empty(),
    decreases data.len(),
{
    if data.len() > 0 {
        let init = data.drop_last();
        assert forall|k: int| 0 <= k < init.len() implies table[#[trigger] init[k] as int].length
            == 0 by {
            assert(init[k] == data[k]);
        }
        lemma_encoded_bits_empty(table, init);
        assert(data[data.len() - 1] == data.last());
        assert(code_bits(table[data.last() as int]) =~= Seq::<bool>::empty());
        assert(encoded_bits(table, data) =~= Seq::<bool>::empty());
    }
}

/// Decoding the Huffman encoding of non-empty `data` succeeds and gives
/// `huffman_round_trip(data)`: `data` itself where it holds two different
/// bytes and the padding bits are fewer than the steps down the left edge of
/// its tree.
pub proof fn lemma_huffman_round_trip(data: Seq<u8>)
    requires
        0 < data.len() <= usize::MAX,
    ensures
        huffman_decode(huffman_encode(data)) == Some(huffman_round_trip(data)),
{
    let f = byte_frequencies(data);
    lemma_occurring_bytes(data);
    lemma_huffman_tree_symbols(f);
    lemma_byte_frequencies_sum(data);
    lemma_huffman_tree_height(f);
    assert(occurring(f).contains(data[0]));
    let t = data_tree(data);
    assert(well_formed(t));
    assert(symbols(t) == occurring(f));
    let table = data_code_table(data);
    let r = unweighted(t);
    lemma_unweighted(t, Seq::empty());
    lemma_code_table_entry(codes_of(t, 0, 0), 0);
    let tb = tree_bytes(t);
    let pk = pack_bits(data_bits(data));
    let enc = huffman_encode(data);
    assert(enc.subrange(0, tb.len() as int) =~= tb);
    lemma_tree_bytes_parse(t, enc, 0, true);
    assert(enc.skip(tb.len() as int) =~= pk);
    lemma_pack_bits_round_trip(data_bits(data));
    let pad = padding(data_bits(data).len() as int) as nat;
    let zeros = Seq::new(pad, |k: int| false);
    if t.symbol is Some {
        // a single leaf: every byte is its symbol and gets no bits
        let s = t.symbol.unwrap();
        assert(t.left is None && t.right is None);
        assert(symbols(t) =~= set![s]);
        assert forall|k: int| 0 <= k < data.len() implies table[#[trigger] data[k] as int].length
            == 0 by {
            assert(occurring(f).contains(data[k]));
            lemma_table_code_is_path(t, data[k]);
            let q = code_bits(table[data[k] as int]);
            if q.len() > 0 {
                assert(node_at(t, q) is None);
            }
        }
        lemma_encoded_bits_empty(table, data);
        assert(pad == 0);
        assert(bytes_to_bits(pk) =~= Seq::<bool>::empty());
    } else {
        assert forall|k: int| 0 <= k < data.len() implies code_bits(
            table[#[trigger] data[k] as int],
        ).len() >= 1 && reaches(r, code_bits(table[data[k] as int]), data[k]) by {
            assert(occurring(f).contains(data[k]));
            lemma_table_code_is_path(t, data[k]);
            lemma_unweighted(t, code_bits(table[data[k] as int]));
        }
        lemma_walk_encoded(r, table, data, zeros);
        assert(t.left is Some);
        lemma_unweighted_leftmost(t);
        lemma_walk_zeros_root(r, pad);
    }
}

proof fn lemma_unweighted_leftmost(n: HuffmanNode)
    ensures
        leftmost_symbol(unweighted(n)) == leftmost_symbol(n),
        leftmost_depth(unweighted(n)) == leftmost_depth(n),
    decreases n,
{
    match n.left {
        Some(l) => {
            lemma_unweighted_leftmost(*l);
        },
        None => {},
    }
}

pub struct Huffman {}

impl Huffman {
    /// Huffman-codes `data`: the tree built from its byte frequencies,
    /// written as bytes, then the code bits of its bytes packed into bytes.
    pub fn encode(data: &Vec<u8>) -> (encoded: Vec<u8>)
        requires
            data@.len() > 0,
        ensures
            encoded@ == huffman_encode(data@),
    {
        let mut frequencies: [usize; 256] = [0; 256];
        let mut i: usize = 0;
        assert(data@.take(0) =~= Seq::<u8>::empty());
        assert(frequencies@ =~= byte_frequencies(Seq::<u8>::empty()));
        while i < data.len()
            invariant
                i <= data@.len(),
                frequencies@ == byte_frequencies(data@.take(i as int)),
            decreases data@.len() - i,
        {
            let key = data[i];
            let ghost prefix = data@.take(i + 1);
            proof {
                assert(prefix.drop_last() =~= data@.take(i as int));
                lemma_count_byte_bounds(data@.take(i as int), key);
            }
            frequencies[key as usize] = frequencies[key as usize] + 1;
            i = i + 1;
            proof {
                assert forall|b: int| 0 <= b < 256 implies #[trigger] frequencies@[b]
                    == byte_frequencies(prefix)[b] by {
                    lemma_count_byte_bounds(data@.take(i - 1), b as u8);
                    lemma_count_byte_bounds(prefix, b as u8);
                }
                assert(frequencies@ =~= byte_frequencies(prefix));
            }
        }
        assert(data@.take(i as int) =~= data@);
        proof {
            lemma_byte_frequencies_sum(data@);
            lemma_huffman_tree_height(frequencies@);
            lemma_occurring_bytes(data@);
            lemma_huffman_tree_symbols(frequencies@);
            assert(occurring(frequencies@).contains(data@[0]));
        }
        let tree = HuffmanNode::from_frequencies(frequencies);
        let codes = HuffmanCode::from_tree(&tree);
        let codes_array = HuffmanCode::as_array(&codes);
        match tree {
            Some(root) => {
                let ghost t = *root;
                proof {
                    lemma_code_table_entry(codes@, 0);
                    assert forall|k: int| 0 <= k < data@.len() implies codes_array@[#[trigger] data@[k] as int].length
                        <= 128 by {
                        assert(occurring(frequencies@).contains(data@[k]));
                        lemma_table_code_is_path(t, data@[k]);
                    }
                }
                let mut encoded_data = HuffmanTable::encode_tree(&root);
                let data_copy = data.clone();
                assert(data_copy@ =~= data@);
                let mut body = HuffmanTable::encode(codes_array, data_copy);
                encoded_data.append(&mut body);
                encoded_data
            },
            None => Vec::new(),
        }
    }

    /// Decodes Huffman-coded bytes: reads the tree, then decodes every bit
    /// after it (see `huffman_decode`); `None` where no tree can be read or
    /// the bits cannot be walked through it.
    pub fn decode(data: &Vec<u8>) -> (res: Option<Vec<u8>>)
        requires
            data@.len() < usize::MAX,
        ensures
            match res {
                Some(out) => huffman_decode(data@) == Some(out@),
                None => huffman_decode(data@) is None,
            },
    {
        let data_copy = data.clone();
        assert(data_copy@ =~= data@);
        let mut stream = ReadBuffer::new(data_copy);
        let root = HuffmanNode::from_stream_strict(&mut stream);
        match root {
            None => None,
            Some(root) => {
                let bits = stream.remaining_bits();
                if HuffmanTable::can_decode(&root, &bits) {
                    Some(HuffmanTable::decode(&root, bits))
                } else {
                    None
                }
            },
        }
    }
}
} // verus!
