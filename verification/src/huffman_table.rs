//! Writing a Huffman tree as bytes, coding data with a table of codes, and
//! decoding bits by walking a tree.

use vstd::prelude::*;
use crate::bits::{bit_mask, full_bytes, lemma_pack_byte_prefix, pack_bits, pack_byte};
use crate::huffman_code::HuffmanCode;
use crate::huffman_code::reaches;
use crate::huffman_node::{HuffmanNode, LEFT, RIGHT, node_at, tree_bytes, well_formed};

verus! {

/// Bit `i` (0 = first) of a code.
pub open spec fn code_bit(c: HuffmanCode, i: int) -> bool {
    ((c.bits >> ((c.length - 1 - i) as usize)) & 1u128) == 1u128
}

/// The bits of a code, first step first.
pub open spec fn code_bits(c: HuffmanCode) -> Seq<bool> {
    Seq::new(c.length as nat, |i: int| code_bit(c, i))
}

/// The codes of the bytes of `data`, taken from `table` by byte value, one
/// after the other.
pub open spec fn encoded_bits(table: Seq<HuffmanCode>, data: Seq<u8>) -> Seq<bool>
    decreases data.len(),
{
    if data.len() == 0 {
        Seq::empty()
    } else {
        encoded_bits(table, data.drop_last()) + code_bits(table[data.last() as int])
    }
}

/// The total length of the codes of the bytes of `data`, taken from `table`
/// by byte value.
pub open spec fn code_length_sum(table: Seq<HuffmanCode>, data: Seq<u8>) -> int
    decreases data.len(),
{
    if data.len() == 0 {
        0
    } else {
        code_length_sum(table, data.drop_last()) + table[data.last() as int].length
    }
}

/// The coded bits of `data` are as many as the lengths of its codes add up
/// to.
pub proof fn lemma_encoded_bits_len(table: Seq<HuffmanCode>, data: Seq<u8>)
    ensures
        encoded_bits(table, data).len() == code_length_sum(table, data),
    decreases data.len(),
{
    if data.len() > 0 {
        lemma_encoded_bits_len(table, data.drop_last());
    }
}

/// The node the decoder moves to from `cur` on a bit: the right child on
/// `1`, the left child on `0`; it stays where that child is missing.
pub open spec fn step(cur: HuffmanNode, bit: bool) -> HuffmanNode {
    let child = if bit {
        cur.right
    } else {
        cur.left
    };
    match child {
        Some(c) => *c,
        None => cur,
    }
}

/// The symbols decoded from `bits`, starting at node `cur` of the tree under
/// `root`: each time the decoder reaches a node with a symbol it emits the
/// symbol and goes back to the root.
pub open spec fn walk(root: HuffmanNode, cur: HuffmanNode, bits: Seq<bool>) -> Seq<u8>
    decreases bits.len(),
{
    if bits.len() == 0 {
        Seq::empty()
    } else {
        let next = step(cur, bits[0]);
        match next.symbol {
            Some(s) => seq![s] + walk(root, root, bits.drop_first()),
            None => walk(root, next, bits.drop_first()),
        }
    }
}

/// Decoding from the root, a `0` bit goes to the left child and a `1` bit
/// to the right child; where that child is a leaf, its symbol is emitted and
/// decoding goes on from the root with the remaining bits.
pub proof fn lemma_walk_to_leaf(root: HuffmanNode, bit: bool, rest: Seq<bool>)
    requires
        (if bit { root.right } else { root.left }) is Some,
        (if bit { root.right } else { root.left }).unwrap().symbol is Some,
    ensures
        !bit ==> walk(root, root, seq![false] + rest) == seq![
            root.left.unwrap().symbol.unwrap(),
        ] + walk(root, root, rest),
        bit ==> walk(root, root, seq![true] + rest) == seq![
            root.right.unwrap().symbol.unwrap(),
        ] + walk(root, root, rest),
{
    let bits = seq![bit] + rest;
    assert(bits.drop_first() =~= rest);
    assert(bits.len() > 0 && bits[0] == bit);
    assert(step(root, bit) == *(if bit { root.right } else { root.left }).unwrap());
}

/// The decoder never meets a `0` bit at a node without a left child, where
/// it would stop on an invalid tree.
pub open spec fn walk_ok(root: HuffmanNode, cur: HuffmanNode, bits: Seq<bool>) -> bool
    decreases bits.len(),
{
    if bits.len() == 0 {
        true
    } else {
        let next = step(cur, bits[0]);
        &&& (bits[0] || cur.left is Some)
        &&& match next.symbol {
            Some(s) => walk_ok(root, root, bits.drop_first()),
            None => walk_ok(root, next, bits.drop_first()),
        }
    }
}

/// Number of steps from `n` down its left edge to a leaf.
pub open spec fn leftmost_depth(n: HuffmanNode) -> nat
    decreases n,
{
    match n.left {
        Some(l) => 1 + leftmost_depth(*l),
        None => 0,
    }
}

/// Decoding the path to a symbol's leaf, from a node above it, emits the
/// symbol and goes back to the root.
pub proof fn lemma_walk_path(root: HuffmanNode, n: HuffmanNode, q: Seq<bool>, s: u8, tail: Seq<bool>)
    requires
        well_formed(n),
        q.len() >= 1,
        reaches(n, q, s),
    ensures
        walk(root, n, q + tail) == seq![s] + walk(root, root, tail),
        walk_ok(root, n, q + tail) == walk_ok(root, root, tail),
    decreases q.len(),
{
    let bits = q + tail;
    let d = q[0];
    let q1 = q.drop_first();
    assert(bits[0] == d);
    assert(bits.drop_first() =~= q1 + tail);
    let child = if d {
        n.right
    } else {
        n.left
    };
    let c = *child.unwrap();
    assert(step(n, d) == c);
    assert(n.left is Some && n.right is Some);
    assert(well_formed(c));
    match c.symbol {
        Some(x) => {
            assert(c.left is None && c.right is None);
            if q1.len() > 0 {
                assert(node_at(c, q1) is None);
            }
            assert(q1 + tail =~= tail);
        },
        None => {
            if q1.len() == 0 {
                assert(node_at(n, q) == node_at(c, q1));
            }
            lemma_walk_path(root, c, q1, s, tail);
        },
    }
}

/// Decoding the codes of `data` one after the other from the root emits
/// `data` and comes back to the root.
pub proof fn lemma_walk_encoded(root: HuffmanNode, table: Seq<HuffmanCode>, data: Seq<u8>, tail: Seq<bool>)
    requires
        well_formed(root),
        table.len() == 256,
        forall|k: int|
            0 <= k < data.len() ==> code_bits(table[#[trigger] data[k] as int]).len() >= 1 && reaches(
                root,
                code_bits(table[data[k] as int]),
                data[k],
            ),
    ensures
        walk(root, root, encoded_bits(table, data) + tail) == data + walk(root, root, tail),
        walk_ok(root, root, encoded_bits(table, data) + tail) == walk_ok(root, root, tail),
    decreases data.len(),
{
    if data.len() == 0 {
        assert(encoded_bits(table, data) + tail =~= tail);
        assert(data + walk(root, root, tail) =~= walk(root, root, tail));
    } else {
        let init = data.drop_last();
        let last = data.last();
        let c = code_bits(table[last as int]);
        assert(data[data.len() - 1] == last);
        assert forall|k: int| 0 <= k < init.len() implies code_bits(
            table[#[trigger] init[k] as int],
        ).len() >= 1 && reaches(root, code_bits(table[init[k] as int]), init[k]) by {
            assert(init[k] == data[k]);
        }
        lemma_walk_encoded(root, table, init, c + tail);
        lemma_walk_path(root, root, c, last, tail);
        assert(encoded_bits(table, data) + tail =~= encoded_bits(table, init) + (c + tail));
        assert(init + (seq![last] + walk(root, root, tail)) =~= data + walk(root, root, tail));
    }
}

/// The symbol at the end of the left edge under `n`.
pub open spec fn leftmost_symbol(n: HuffmanNode) -> Option<u8>
    decreases n,
{
    match n.left {
        Some(l) => leftmost_symbol(*l),
        None => n.symbol,
    }
}

/// A well-formed tree has a symbol at the end of its left edge.
pub proof fn lemma_leftmost_symbol(n: HuffmanNode)
    requires
        well_formed(n),
    ensures
        leftmost_symbol(n) is Some,
    decreases n,
{
    match n.left {
        Some(l) => {
            lemma_leftmost_symbol(*l);
        },
        None => {},
    }
}

/// From a node of a well-formed tree with a left child, zero bits walk down
/// the left edge: fewer zeros than its steps decode to nothing; as many emit
/// the leftmost symbol and go back to the root.
pub proof fn lemma_walk_zeros(root: HuffmanNode, n: HuffmanNode, p: nat)
    requires
        well_formed(n),
        leftmost_depth(n) >= 1,
    ensures
        p < leftmost_depth(n) ==> walk(root, n, Seq::new(p, |i: int| false)) == Seq::<u8>::empty()
            && walk_ok(root, n, Seq::new(p, |i: int| false)),
        p >= leftmost_depth(n) ==> walk(root, n, Seq::new(p, |i: int| false)) == seq![
            leftmost_symbol(n).unwrap(),
        ] + walk(root, root, Seq::new((p - leftmost_depth(n)) as nat, |i: int| false))
            && walk_ok(root, n, Seq::new(p, |i: int| false)) == walk_ok(
            root,
            root,
            Seq::new((p - leftmost_depth(n)) as nat, |i: int| false),
        ),
    decreases p,
{
    let z = Seq::new(p, |i: int| false);
    if p > 0 {
        let c = *n.left.unwrap();
        assert(step(n, false) == c);
        assert(n.right is Some);
        assert(well_formed(c));
        assert(z[0] == false);
        assert(z.drop_first() =~= Seq::new((p - 1) as nat, |i: int| false));
        if leftmost_depth(c) == 0 {
            assert(c.left is None && c.right is None);
            assert(c.symbol is Some);
            assert(leftmost_symbol(c) == c.symbol);
            assert(leftmost_symbol(n) == c.symbol);
        } else {
            assert(c.left is Some);
            assert(c.symbol is None);
            lemma_walk_zeros(root, c, (p - 1) as nat);
        }
    }
}

/// Zero bits from the root of a well-formed tree with a left child decode to
/// one leftmost symbol for every full walk down the left edge.
pub proof fn lemma_walk_zeros_root(root: HuffmanNode, p: nat)
    requires
        well_formed(root),
        leftmost_depth(root) >= 1,
    ensures
        walk(root, root, Seq::new(p, |i: int| false)) == Seq::new(
            p / leftmost_depth(root),
            |i: int| leftmost_symbol(root).unwrap(),
        ),
        walk_ok(root, root, Seq::new(p, |i: int| false)),
    decreases p,
{
    let d = leftmost_depth(root);
    let sym = leftmost_symbol(root).unwrap();
    lemma_walk_zeros(root, root, p);
    if p < d {
        vstd::arithmetic::div_mod::lemma_basic_div_specific_divisor(d as int);
        assert(p / d == 0);
        assert(Seq::new(p / d, |i: int| sym) =~= Seq::<u8>::empty());
    } else {
        let p2 = (p - d) as nat;
        lemma_walk_zeros_root(root, p2);
        vstd::arithmetic::div_mod::lemma_div_plus_one(p2 as int, d as int);
        assert(d + p2 == p);
        assert(seq![sym] + Seq::new(p2 / d, |i: int| sym) =~= Seq::new(p / d, |i: int| sym));
    }
}

/// Number of codes of each length.
pub open spec fn count_length(codes: Seq<HuffmanCode>, l: int) -> int
    decreases codes.len(),
{
    if codes.len() == 0 {
        0
    } else {
        count_length(codes.drop_last(), l) + if codes.last().length == l {
            1int
        } else {
            0
        }
    }
}

/// Code lengths and symbols of a code table.
#[derive(Debug)]
pub struct HuffmanTable {
    pub counts: [u8; 16],
    pub symbols: [u8; 256],
}

impl HuffmanTable {
    /// How many codes have each length, and the symbols in the order of the
    /// codes (zero after the last code).
    pub fn from_codes(codes: &Vec<HuffmanCode>) -> (table: Self)
        requires
            codes@.len() <= 256,
            forall|k: int| 0 <= k < codes@.len() ==> #[trigger] codes@[k].length < 16,
            forall|l: int| 0 <= l < 16 ==> count_length(codes@, l) <= 255,
        ensures
            table.counts@ == Seq::new(16, |l: int| count_length(codes@, l) as u8),
            table.symbols@ == Seq::new(
                256,
                |i: int|
                    if i < codes@.len() {
                        codes@[i].symbol
                    } else {
                        0u8
                    },
            ),
    {
        let mut counts: [u8; 16] = [0; 16];
        let mut symbols: [u8; 256] = [0; 256];
        let mut offset: usize = 0;
        while offset < codes.len()
            invariant
                offset <= codes@.len() <= 256,
                forall|k: int| 0 <= k < codes@.len() ==> #[trigger] codes@[k].length < 16,
                forall|l: int| 0 <= l < 16 ==> count_length(codes@, l) <= 255,
                counts@ == Seq::new(16, |l: int| count_length(codes@.take(offset as int), l) as u8),
                symbols@ == Seq::new(
                    256,
                    |i: int|
                        if i < offset {
                            codes@[i].symbol
                        } else {
                            0u8
                        },
                ),
            decreases codes@.len() - offset,
        {
            let code = &codes[offset];
            let ghost prefix = codes@.take(offset + 1);
            assert(prefix.drop_last() =~= codes@.take(offset as int));
            proof {
                lemma_count_length_prefix(codes@, offset + 1, code.length as int);
                lemma_count_length_mono(codes@, offset + 1, code.length as int);
                lemma_count_length_nonneg(codes@.take(offset as int));
                let c = code.length as int;
                assert(counts@[c] == count_length(codes@.take(offset as int), c) as u8);
                assert(0 <= count_length(codes@.take(offset as int), c) < 255);
            }
            counts[code.length] = counts[code.length] + 1;
            symbols[offset] = code.symbol;
            offset = offset + 1;
            assert(counts@ =~= Seq::new(16, |l: int| count_length(codes@.take(offset as int), l) as u8));
            assert(symbols@ =~= Seq::new(
                256,
                |i: int|
                    if i < offset {
                        codes@[i].symbol
                    } else {
                        0u8
                    },
            ));
        }
        assert(codes@.take(offset as int) =~= codes@);
        Self { counts: counts, symbols: symbols }
    }

    /// The bytes of the tree under `root` (see `tree_bytes`).
    pub fn encode_tree(root: &HuffmanNode) -> (bytes: Vec<u8>)
        ensures
            bytes@ == tree_bytes(*root),
    {
        let mut encoded_tree: Vec<u8> = Vec::new();
        Self::serialize_node(root, &mut encoded_tree);
        assert(encoded_tree@ =~= tree_bytes(*root));
        encoded_tree
    }

    fn serialize_node(node: &HuffmanNode, encoded_tree: &mut Vec<u8>)
        ensures
            final(encoded_tree)@ == old(encoded_tree)@ + tree_bytes(*node),
        decreases node,
    {
        let ghost start = encoded_tree@;
        match node.symbol {
            Some(symbol) => {
                encoded_tree.push(0);
                encoded_tree.push(symbol);
                assert(encoded_tree@ =~= start + tree_bytes(*node));
            },
            None => {
                encoded_tree.push(2);
                let ghost after_count = encoded_tree@;
                match &node.left {
                    Some(left) => {
                        encoded_tree.push(LEFT);
                        Self::serialize_node(left, encoded_tree);
                        assert(encoded_tree@ =~= after_count + (seq![LEFT] + tree_bytes(**left)));
                    },
                    None => {
                        assert(encoded_tree@ =~= after_count + Seq::<u8>::empty());
                    },
                }
                let ghost after_left = encoded_tree@;
                match &node.right {
                    Some(right) => {
                        encoded_tree.push(RIGHT);
                        Self::serialize_node(right, encoded_tree);
                        assert(encoded_tree@ =~= after_left + (seq![RIGHT] + tree_bytes(**right)));
                    },
                    None => {
                        assert(encoded_tree@ =~= after_left + Seq::<u8>::empty());
                    },
                }
                encoded_tree.push(0);
                assert(encoded_tree@ =~= start + tree_bytes(*node));
            },
        }
    }

    /// Codes `data` with the codes of `codesheet` (indexed by byte value):
    /// the bits of the codes one after the other, packed into bytes most
    /// significant bit first, the last byte padded with zero bits.
    pub fn encode(codesheet: [HuffmanCode; 256], data: Vec<u8>) -> (encoded: Vec<u8>)
        requires
            forall|k: int| 0 <= k < data@.len() ==> codesheet@[#[trigger] data@[k] as int].length
                <= 128,
        ensures
            encoded@ == pack_bits(encoded_bits(codesheet@, data@)),
    {
        let mut encoded_data: Vec<u8> = Vec::new();
        let mut byte: u8 = 0;
        let mut bits_written: usize = 0;
        let mut k: usize = 0;
        assert(data@.take(0) =~= Seq::<u8>::empty());
        assert(full_bytes(Seq::<bool>::empty()) =~= Seq::<u8>::empty());
        while k < data.len()
            invariant
                forall|m: int| 0 <= m < data@.len() ==> codesheet@[#[trigger] data@[m] as int].length
                    <= 128,
                k <= data@.len(),
                ({
                    let t = encoded_bits(codesheet@, data@.take(k as int));
                    &&& encoded_data@ == full_bytes(t)
                    &&& bits_written == t.len() % 8
                    &&& byte == pack_byte(t, 8 * (t.len() / 8) as int, bits_written as int)
                }),
            decreases data@.len() - k,
        {
            let ghost t0 = encoded_bits(codesheet@, data@.take(k as int));
            let symbol = data[k];
            let code = &codesheet[symbol as usize];
            assert(code.length <= 128);
            let mut i: usize = 0;
            while i < code.length
                invariant
                    code.length <= 128,
                    i <= code.length,
                    ({
                        let t = t0 + code_bits(*code).take(i as int);
                        &&& encoded_data@ == full_bytes(t)
                        &&& bits_written == t.len() % 8
                        &&& byte == pack_byte(t, 8 * (t.len() / 8) as int, bits_written as int)
                    }),
                decreases code.length - i,
            {
                let ghost t = t0 + code_bits(*code).take(i as int);
                let bit = (code.bits >> (code.length - 1 - i)) & 1 == 1;
                let ghost t2 = t.push(bit);
                assert(t2 =~= t0 + code_bits(*code).take(i + 1));
                let ghost off: int = 8 * (t.len() / 8) as int;
                proof {
                    lemma_pack_byte_prefix(t, t2, off, bits_written as int);
                    assert forall|q: int| 0 <= q < t.len() / 8 implies #[trigger] pack_byte(t, 8 * q, 8)
                        == pack_byte(t2, 8 * q, 8) by {
                        lemma_pack_byte_prefix(t, t2, 8 * q, 8);
                    }
                }
                let mask: u8 = if bit {
                    1u8 << (7 - bits_written)
                } else {
                    0u8
                };
                assert(mask == if t2[off + bits_written] {
                    bit_mask(bits_written as int)
                } else {
                    0u8
                });
                byte = byte | mask;
                bits_written = bits_written + 1;
                if bits_written == 8 {
                    encoded_data.push(byte);
                    byte = 0;
                    bits_written = 0;
                    assert(encoded_data@ =~= full_bytes(t2));
                } else {
                    assert(encoded_data@ =~= full_bytes(t2));
                }
                i = i + 1;
            }
            assert(code_bits(*code).take(code.length as int) =~= code_bits(*code));
            assert(data@.take(k + 1).drop_last() =~= data@.take(k as int));
            k = k + 1;
        }
        assert(data@.take(k as int) =~= data@);
        if bits_written > 0 {
            encoded_data.push(byte);
        }
        encoded_data
    }

    /// Decodes `bits` by walking the tree under `root` (see `walk`).
    pub fn decode(root: &HuffmanNode, bits: Vec<bool>) -> (decoded: Vec<u8>)
        requires
            walk_ok(*root, *root, bits@),
        ensures
            decoded@ == walk(*root, *root, bits@),
    {
        let mut decoded_data: Vec<u8> = Vec::new();
        let mut current_node: &HuffmanNode = root;
        let mut i: usize = 0;
        assert(bits@.skip(0) =~= bits@);
        while i < bits.len()
            invariant
                i <= bits@.len(),
                walk_ok(*root, *current_node, bits@.skip(i as int)),
                walk(*root, *root, bits@) == decoded_data@ + walk(
                    *root,
                    *current_node,
                    bits@.skip(i as int),
                ),
            decreases bits@.len() - i,
        {
            let ghost rest = bits@.skip(i as int);
            let bit = bits[i];
            if bit {
                match &current_node.right {
                    Some(right) => {
                        current_node = right;
                    },
                    None => {},
                }
            } else {
                match &current_node.left {
                    Some(left) => {
                        current_node = left;
                    },
                    None => {},
                }
            }
            assert(rest.drop_first() =~= bits@.skip(i + 1));
            match current_node.symbol {
                Some(symbol) => {
                    let ghost d0 = decoded_data@;
                    decoded_data.push(symbol);
                    current_node = root;
                    assert(d0 + (seq![symbol] + walk(*root, *root, rest.drop_first())) =~= decoded_data@
                        + walk(*root, *root, rest.drop_first()));
                },
                None => {},
            }
            i = i + 1;
        }
        assert(bits@.skip(i as int) =~= Seq::<bool>::empty());
        assert(decoded_data@ + Seq::<u8>::empty() =~= decoded_data@);
        decoded_data
    }
}

impl HuffmanTable {
    /// Whether `decode` can walk `bits` through the tree under `root` without
    /// meeting a `0` bit at a node without a left child (see `walk_ok`).
    pub fn can_decode(root: &HuffmanNode, bits: &Vec<bool>) -> (ok: bool)
        ensures
            ok == walk_ok(*root, *root, bits@),
    {
        let mut current_node: &HuffmanNode = root;
        let mut i: usize = 0;
        assert(bits@.skip(0) =~= bits@);
        while i < bits.len()
            invariant
                i <= bits@.len(),
                walk_ok(*root, *root, bits@) == walk_ok(*root, *current_node, bits@.skip(i as int)),
            decreases bits@.len() - i,
        {
            let ghost rest = bits@.skip(i as int);
            let bit = bits[i];
            if bit {
                match &current_node.right {
                    Some(right) => {
                        current_node = right;
                    },
                    None => {},
                }
            } else {
                match &current_node.left {
                    Some(left) => {
                        current_node = left;
                    },
                    None => {
                        return false;
                    },
                }
            }
            assert(rest.drop_first() =~= bits@.skip(i + 1));
            if current_node.symbol.is_some() {
                current_node = root;
            }
            i = i + 1;
        }
        true
    }
}

proof fn lemma_count_length_nonneg(codes: Seq<HuffmanCode>)
    ensures
        forall|l: int| #[trigger] count_length(codes, l) >= 0,
    decreases codes.len(),
{
    if codes.len() > 0 {
        lemma_count_length_nonneg(codes.drop_last());
        assert forall|l: int| #[trigger] count_length(codes, l) >= 0 by {
            assert(count_length(codes.drop_last(), l) >= 0);
        }
    }
}

proof fn lemma_count_length_mono(codes: Seq<HuffmanCode>, n: int, l: int)
    requires
        0 <= n <= codes.len(),
    ensures
        count_length(codes.take(n), l) <= count_length(codes, l),
    decreases codes.len(),
{
    if n < codes.len() {
        lemma_count_length_mono(codes.drop_last(), n, l);
        assert(codes.drop_last().take(n) =~= codes.take(n));
    } else {
        assert(codes.take(n) =~= codes);
    }
}

proof fn lemma_count_length_prefix(codes: Seq<HuffmanCode>, n: int, l: int)
    requires
        0 < n <= codes.len(),
    ensures
        forall|m: int|
            count_length(codes.take(n), m) == count_length(codes.take(n - 1), m) + if codes[n
                - 1].length == m {
                1int
            } else {
                0
            },
{
    assert(codes.take(n).drop_last() =~= codes.take(n - 1));
}

} // verus!
