//! The code of each symbol of a Huffman tree: the path from the root to the
//! symbol's leaf, as a bit count and the bits (`0` = left, `1` = right, the
//! first step in the highest of the `length` low bits).

use vstd::prelude::*;
use crate::huffman_node::{HuffmanNode, height, node_at, symbols, unbox};

verus! {

/// The code of one symbol.
#[derive(Debug, Clone, Copy, PartialEq, Eq)]
pub struct HuffmanCode {
    pub symbol: u8,
    pub frequency: usize,
    pub length: usize,
    pub bits: u128,
}

/// The entry of a symbol that has no code.
pub open spec fn default_code() -> HuffmanCode {
    HuffmanCode { symbol: 0, frequency: 0, length: 0, bits: 0 }
}

/// The codes of the symbols under `n`, where `n` is reached from the root by
/// `depth` steps that make up `bits`: a depth-first walk, the node itself
/// first, then the left subtree, then the right. Bits shifted past the top of
/// a `u128` are lost.
pub open spec fn codes_of(n: HuffmanNode, depth: int, bits: u128) -> Seq<HuffmanCode>
    decreases n,
{
    let own = match n.symbol {
        Some(s) => seq![HuffmanCode { symbol: s, frequency: n.frequency, length: depth as usize, bits: bits }],
        None => Seq::empty(),
    };
    let l = match n.left {
        Some(l) => codes_of(*l, depth + 1, bits << 1u32),
        None => Seq::empty(),
    };
    let r = match n.right {
        Some(r) => codes_of(*r, depth + 1, (bits << 1u32) | 1u128),
        None => Seq::empty(),
    };
    own + l + r
}

/// The codes of a whole tree; none for an absent tree.
pub open spec fn tree_codes(tree: Option<HuffmanNode>) -> Seq<HuffmanCode> {
    match tree {
        Some(n) => codes_of(n, 0, 0),
        None => Seq::empty(),
    }
}

/// The codes indexed by symbol: for each byte value the last code with that
/// symbol, or the all-zero entry where there is none.
pub open spec fn code_table(codes: Seq<HuffmanCode>) -> Seq<HuffmanCode>
    decreases codes.len(),
{
    if codes.len() == 0 {
        Seq::new(256, |i: int| default_code())
    } else {
        code_table(codes.drop_last()).update(codes.last().symbol as int, codes.last())
    }
}

pub proof fn lemma_code_table_len(codes: Seq<HuffmanCode>)
    ensures
        code_table(codes).len() == 256,
    decreases codes.len(),
{
    if codes.len() > 0 {
        lemma_code_table_len(codes.drop_last());
    }
}

/// `a` sorts before `b` in canonical order: shorter first, then by symbol.
pub open spec fn canonical_lt(a: HuffmanCode, b: HuffmanCode) -> bool {
    a.length < b.length || (a.length == b.length && a.symbol < b.symbol)
}

/// Where `x` goes into the sorted `s` so that the sort is stable: after every
/// entry that does not sort after it.
pub open spec fn insert_pos(s: Seq<HuffmanCode>, x: HuffmanCode, k: int) -> int
    decreases s.len() - k,
{
    if k >= s.len() || canonical_lt(x, s[k]) {
        k
    } else {
        insert_pos(s, x, k + 1)
    }
}

/// `codes` sorted into canonical order, keeping the order of equal entries.
pub open spec fn canonical_sort(codes: Seq<HuffmanCode>) -> Seq<HuffmanCode>
    decreases codes.len(),
{
    if codes.len() == 0 {
        Seq::empty()
    } else {
        let s = canonical_sort(codes.drop_last());
        s.insert(insert_pos(s, codes.last(), 0), codes.last())
    }
}

/// `bits` shifted left once for each step from length `from` up to `to`.
pub open spec fn widen(bits: u128, from: int, to: int) -> u128
    decreases to - from,
{
    if from >= to {
        bits
    } else {
        widen(bits << 1u32, from + 1, to)
    }
}

/// Canonical codes for sorted entries: each entry gets the next code
/// value, widened to its length; `bits` and `length` are the next value and
/// the length reached so far.
pub open spec fn canonical_bits(s: Seq<HuffmanCode>, bits: u128, length: int) -> Seq<HuffmanCode>
    decreases s.len(),
{
    if s.len() == 0 {
        Seq::empty()
    } else {
        let len2 = if length < s[0].length {
            s[0].length as int
        } else {
            length
        };
        let b = widen(bits, length, len2);
        seq![HuffmanCode { bits: b, ..s[0] }] + canonical_bits(s.drop_first(), (b + 1) as u128, len2)
    }
}

/// No code value of `canonical_bits` is the largest `u128`, so that the next
/// value can be counted.
pub open spec fn canonical_fits(s: Seq<HuffmanCode>, bits: u128, length: int) -> bool
    decreases s.len(),
{
    if s.len() == 0 {
        true
    } else {
        let len2 = if length < s[0].length {
            s[0].length as int
        } else {
            length
        };
        let b = widen(bits, length, len2);
        b < u128::MAX && canonical_fits(s.drop_first(), (b + 1) as u128, len2)
    }
}

/// The longest path below `n`, counted from depth `indent`, stays below the
/// largest `usize`.
pub open spec fn depth_fits(n: Option<HuffmanNode>, indent: int) -> bool {
    match n {
        Some(n) => indent + height(n) < usize::MAX,
        None => indent <= usize::MAX,
    }
}

/// The code bits of a path (`true` = right), first step highest.
pub open spec fn path_value(path: Seq<bool>) -> u128
    decreases path.len(),
{
    if path.len() == 0 {
        0
    } else if path.last() {
        (path_value(path.drop_last()) << 1u32) | 1u128
    } else {
        path_value(path.drop_last()) << 1u32
    }
}

/// `c` is the code of the path `prefix + q`, and `q` leads from `n` to a
/// node with the code's symbol.
pub open spec fn code_path(n: HuffmanNode, prefix: Seq<bool>, c: HuffmanCode, q: Seq<bool>) -> bool {
    &&& c.length == prefix.len() + q.len()
    &&& c.bits == path_value(prefix + q)
    &&& reaches(n, q, c.symbol)
}

/// Some path below `n` makes `c` a code of it (see `code_path`).
pub open spec fn has_code_path(n: HuffmanNode, prefix: Seq<bool>, c: HuffmanCode) -> bool {
    exists|q: Seq<bool>| #[trigger] code_path(n, prefix, c, q)
}

/// A path leads from `n` to a node holding `symbol`.
pub open spec fn reaches(n: HuffmanNode, path: Seq<bool>, symbol: u8) -> bool {
    node_at(n, path) matches Some(m) && m.symbol == Some(symbol)
}

proof fn lemma_node_at_prepend(n: HuffmanNode, c: HuffmanNode, d: bool, path: Seq<bool>)
    requires
        (if d {
            n.right
        } else {
            n.left
        }) == Some(Box::new(c)),
    ensures
        node_at(n, seq![d] + path) == node_at(c, path),
{
    assert((seq![d] + path).drop_first() =~= path);
}

/// Each code of `codes_of(n, |prefix|, path_value(prefix))` is the path from
/// the root, `prefix` and then a path below `n` to a node with the code's
/// symbol; and every symbol under `n` has a code.
pub proof fn lemma_codes_of_paths(n: HuffmanNode, prefix: Seq<bool>)
    requires
        prefix.len() + height(n) <= usize::MAX,
    ensures
        forall|k: int|
            0 <= k < codes_of(n, prefix.len() as int, path_value(prefix)).len() ==> has_code_path(
                n,
                prefix,
                #[trigger] codes_of(n, prefix.len() as int, path_value(prefix))[k],
            ),
        forall|s: u8|
            symbols(n).contains(s) ==> exists|k: int|
                0 <= k < codes_of(n, prefix.len() as int, path_value(prefix)).len()
                    && (#[trigger] codes_of(n, prefix.len() as int, path_value(prefix))[k]).symbol
                    == s,
    decreases n,
{
    let d = prefix.len() as int;
    let b = path_value(prefix);
    let cs = codes_of(n, d, b);
    let own = match n.symbol {
        Some(s) => seq![HuffmanCode { symbol: s, frequency: n.frequency, length: d as usize, bits: b }],
        None => Seq::empty(),
    };
    let pl = prefix.push(false);
    let pr = prefix.push(true);
    assert(pl.drop_last() =~= prefix);
    assert(pr.drop_last() =~= prefix);
    assert(path_value(pl) == b << 1u32);
    assert(path_value(pr) == (b << 1u32) | 1u128);
    let l = match n.left {
        Some(l) => codes_of(*l, d + 1, b << 1u32),
        None => Seq::empty(),
    };
    let r = match n.right {
        Some(r) => codes_of(*r, d + 1, (b << 1u32) | 1u128),
        None => Seq::empty(),
    };
    assert(cs == own + l + r);
    match n.left {
        Some(x) => {
            lemma_codes_of_paths(*x, pl);
        },
        None => {},
    }
    match n.right {
        Some(x) => {
            lemma_codes_of_paths(*x, pr);
        },
        None => {},
    }
    assert forall|k: int| 0 <= k < cs.len() implies has_code_path(n, prefix, #[trigger] cs[k]) by {
        let c = cs[k];
        if k < own.len() {
            let q = Seq::<bool>::empty();
            assert(prefix + q =~= prefix);
            assert(node_at(n, q) == Some(n));
            assert(code_path(n, prefix, c, q));
        } else if k < own.len() + l.len() {
            let x = *n.left.unwrap();
            assert(c == l[k - own.len()]);
            assert(has_code_path(x, pl, l[k - own.len()]));
            let q1 = choose|q: Seq<bool>| #[trigger] code_path(x, pl, c, q);
            let q = seq![false] + q1;
            assert(prefix + q =~= pl + q1);
            lemma_node_at_prepend(n, x, false, q1);
            assert(code_path(n, prefix, c, q));
        } else {
            let x = *n.right.unwrap();
            assert(c == r[k - own.len() - l.len()]);
            assert(has_code_path(x, pr, r[k - own.len() - l.len()]));
            let q1 = choose|q: Seq<bool>| #[trigger] code_path(x, pr, c, q);
            let q = seq![true] + q1;
            assert(prefix + q =~= pr + q1);
            lemma_node_at_prepend(n, x, true, q1);
            assert(code_path(n, prefix, c, q));
        }
    }
    assert forall|s: u8| symbols(n).contains(s) implies exists|k: int|
        0 <= k < cs.len() && (#[trigger] cs[k]).symbol == s by {
        if n.symbol == Some(s) {
            assert(cs[0].symbol == s);
        } else if n.left is Some && symbols(*n.left.unwrap()).contains(s) {
            let k1 = choose|k: int|
                0 <= k < l.len() && (#[trigger] l[k]).symbol == s;
            assert(cs[own.len() + k1] == l[k1]);
        } else {
            assert(n.right is Some && symbols(*n.right.unwrap()).contains(s));
            let k1 = choose|k: int|
                0 <= k < r.len() && (#[trigger] r[k]).symbol == s;
            assert(cs[own.len() + l.len() + k1] == r[k1]);
        }
    }
}

/// Entry `s` of a code table is a code of the list with symbol `s`, where
/// the list has one; else it is the all-zero entry.
pub proof fn lemma_code_table_entry(codes: Seq<HuffmanCode>, s: u8)
    ensures
        code_table(codes).len() == 256,
        (exists|k: int| 0 <= k < codes.len() && (#[trigger] codes[k]).symbol == s) ==> exists|k: int|
            0 <= k < codes.len() && #[trigger] codes[k] == code_table(codes)[s as int] && codes[k].symbol
                == s,
        !(exists|k: int| 0 <= k < codes.len() && (#[trigger] codes[k]).symbol == s) ==> code_table(
            codes,
        )[s as int] == default_code(),
    decreases codes.len(),
{
    lemma_code_table_len(codes);
    if codes.len() > 0 {
        let t = codes.drop_last();
        lemma_code_table_entry(t, s);
        lemma_code_table_len(t);
        if codes.last().symbol == s {
            assert(codes[codes.len() - 1] == code_table(codes)[s as int]);
        } else {
            assert(code_table(codes)[s as int] == code_table(t)[s as int]);
            if exists|k: int| 0 <= k < codes.len() && (#[trigger] codes[k]).symbol == s {
                let k = choose|k: int| 0 <= k < codes.len() && (#[trigger] codes[k]).symbol == s;
                assert(t[k].symbol == s);
                let k2 = choose|k2: int|
                    0 <= k2 < t.len() && #[trigger] t[k2] == code_table(t)[s as int] && t[k2].symbol
                        == s;
                assert(codes[k2] == t[k2]);
            } else {
                assert forall|k: int| 0 <= k < t.len() implies (#[trigger] t[k]).symbol != s by {
                    assert(codes[k] == t[k]);
                }
            }
        }
    }
}

proof fn lemma_shift_bit(x: u128, k: usize)
    by (bit_vector)
    requires
        1 <= k <= 127,
    ensures
        ((((x << 1u32) | 1u128) >> k) & 1u128 == 1u128) == (((x >> ((k - 1) as usize)) & 1u128)
            == 1u128),
        (((x << 1u32) >> k) & 1u128 == 1u128) == (((x >> ((k - 1) as usize)) & 1u128) == 1u128),
        ((((x << 1u32) | 1u128) >> 0usize) & 1u128 == 1u128),
        !(((x << 1u32) >> 0usize) & 1u128 == 1u128),
{
}

/// Reading a path's value back bit by bit, first step from the highest of its
/// `path.len()` bits, gives the path, for paths of at most 128 steps.
pub proof fn lemma_path_value_bits(path: Seq<bool>)
    requires
        path.len() <= 128,
    ensures
        forall|i: int|
            0 <= i < path.len() ==> (((path_value(path) >> ((path.len() - 1 - i) as usize))
                & 1u128) == 1u128) == #[trigger] path[i],
    decreases path.len(),
{
    if path.len() > 0 {
        let p0 = path.drop_last();
        lemma_path_value_bits(p0);
        let x = path_value(p0);
        assert forall|i: int| 0 <= i < path.len() implies (((path_value(path) >> ((path.len()
            - 1 - i) as usize)) & 1u128) == 1u128) == #[trigger] path[i] by {
            let k = (path.len() - 1 - i) as usize;
            lemma_shift_bit(x, if k == 0 { 1 } else { k });
            if k == 0 {
                assert(i == path.len() - 1);
            } else {
                assert(p0[i] == path[i]);
                assert((p0.len() - 1 - i) as usize == (k - 1) as usize);
            }
        }
    }
}

/// A node reached by a path lies no deeper than the height of the tree.
pub proof fn lemma_node_at_height(n: HuffmanNode, path: Seq<bool>)
    requires
        node_at(n, path) is Some,
    ensures
        path.len() <= height(n),
    decreases path.len(),
{
    if path.len() > 0 {
        let child = if path[0] {
            n.right
        } else {
            n.left
        };
        lemma_node_at_height(*child.unwrap(), path.drop_first());
    }
}

/// No entry of `s` sorts before an earlier one.
pub open spec fn canonical_sorted(s: Seq<HuffmanCode>) -> bool {
    forall|i: int, j: int| 0 <= i < j < s.len() ==> !canonical_lt(#[trigger] s[j], #[trigger] s[i])
}

proof fn lemma_insert_pos(s: Seq<HuffmanCode>, x: HuffmanCode, k: int)
    requires
        0 <= k <= s.len(),
        forall|m: int| 0 <= m < k ==> !canonical_lt(x, #[trigger] s[m]),
    ensures
        k <= insert_pos(s, x, k) <= s.len(),
        forall|m: int| 0 <= m < insert_pos(s, x, k) ==> !canonical_lt(x, #[trigger] s[m]),
        insert_pos(s, x, k) < s.len() ==> canonical_lt(x, s[insert_pos(s, x, k)]),
    decreases s.len() - k,
{
    if !(k >= s.len() || canonical_lt(x, s[k])) {
        lemma_insert_pos(s, x, k + 1);
    }
}

/// The canonical sort puts the codes in canonical order (by length, then by
/// symbol) and keeps every code: its result is a permutation of its input.
pub proof fn lemma_canonical_sort(codes: Seq<HuffmanCode>)
    ensures
        canonical_sorted(canonical_sort(codes)),
        canonical_sort(codes).to_multiset() == codes.to_multiset(),
    decreases codes.len(),
{
    broadcast use vstd::seq_lib::group_to_multiset_ensures;

    if codes.len() == 0 {
        assert(canonical_sort(codes) =~= codes);
    } else {
        let init = codes.drop_last();
        let x = codes.last();
        lemma_canonical_sort(init);
        let s = canonical_sort(init);
        lemma_insert_pos(s, x, 0);
        let p = insert_pos(s, x, 0);
        let t = s.insert(p, x);
        assert(t == canonical_sort(codes));
        assert forall|i: int, j: int| 0 <= i < j < t.len() implies !canonical_lt(
            #[trigger] t[j],
            #[trigger] t[i],
        ) by {
            if j < p {
                assert(t[i] == s[i] && t[j] == s[j]);
            } else if j == p {
                assert(t[i] == s[i]);
            } else if i == p {
                assert(t[j] == s[j - 1]);
                if p < s.len() {
                    if j - 1 > p {
                        assert(!canonical_lt(s[j - 1], s[p]));
                    }
                }
            } else if i < p {
                assert(t[i] == s[i] && t[j] == s[j - 1]);
            } else {
                assert(t[i] == s[i - 1] && t[j] == s[j - 1]);
            }
        }
        assert(t.remove(p) =~= s);
        assert(codes =~= init.push(x));
        assert(t[p] == x);
        assert(t.to_multiset().count(x) > 0) by {
            assert(t.contains(x));
        }
        assert(t.to_multiset() =~= s.to_multiset().insert(x));
    }
}

impl HuffmanCode {
    fn collect(
        output: &mut Vec<HuffmanCode>,
        node: &Option<Box<HuffmanNode>>,
        indent: usize,
        bits: u128,
    )
        requires
            depth_fits(unbox(*node), indent as int),
        ensures
            final(output)@ == old(output)@ + match unbox(*node) {
                Some(n) => codes_of(n, indent as int, bits),
                None => Seq::empty(),
            },
        decreases node,
    {
        match node {
            Some(n) => {
                let ghost out0 = output@;
                match n.symbol {
                    Some(symbol) => {
                        output.push(
                            HuffmanCode {
                                symbol: symbol,
                                frequency: n.frequency,
                                length: indent,
                                bits: bits,
                            },
                        );
                    },
                    None => {},
                }
                let ghost out1 = output@;
                Self::collect(output, &n.left, indent + 1, bits << 1u32);
                let ghost out2 = output@;
                Self::collect(output, &n.right, indent + 1, (bits << 1u32) | 1u128);
                proof {
                    let nn = **n;
                    let own = match nn.symbol {
                        Some(s) => seq![HuffmanCode { symbol: s, frequency: nn.frequency, length: indent, bits: bits }],
                        None => Seq::empty(),
                    };
                    assert(out1 == out0 + own);
                    assert(output@ =~= out0 + codes_of(nn, indent as int, bits));
                }
            },
            None => {
                assert(output@ =~= output@ + Seq::<HuffmanCode>::empty());
            },
        }
    }

    /// The codes of the tree's symbols, in depth-first order with the left
    /// subtree first (see `codes_of`).
    pub fn from_tree(tree: &Option<Box<HuffmanNode>>) -> (codes: Vec<Self>)
        requires
            depth_fits(unbox(*tree), 0),
        ensures
            codes@ == tree_codes(unbox(*tree)),
    {
        let mut result: Vec<Self> = Vec::with_capacity(256);
        Self::collect(&mut result, tree, 0, 0);
        assert(result@ =~= tree_codes(unbox(*tree)));
        result
    }

    /// The codes indexed by symbol: entry `s` is the last code for symbol `s`,
    /// or all zero where there is none.
    pub fn as_array(codes: &Vec<Self>) -> (table: [Self; 256])
        ensures
            table@ == code_table(codes@),
    {
        let mut table: [Self; 256] = [HuffmanCode { symbol: 0, frequency: 0, length: 0, bits: 0 }; 256];
        assert(table@ =~= code_table(Seq::<HuffmanCode>::empty()));
        let mut k: usize = 0;
        assert(codes@.take(0).len() == 0);
        while k < codes.len()
            invariant
                k <= codes@.len(),
                table@ == code_table(codes@.take(k as int)),
            decreases codes@.len() - k,
        {
            proof {
                lemma_code_table_len(codes@.take(k as int));
            }
            let code = codes[k];
            table[code.symbol as usize] = code;
            assert(codes@.take(k + 1).drop_last() =~= codes@.take(k as int));
            k = k + 1;
        }
        assert(codes@.take(k as int) =~= codes@);
        table
    }

    /// The codes sorted by length and then symbol (a stable sort), with
    /// canonical bits: each code is the one before plus one, shifted left by
    /// the growth in length.
    pub fn as_canonical(codes: &Vec<Self>) -> (res: Vec<Self>)
        requires
            canonical_fits(canonical_sort(codes@), 0, 0),
        ensures
            res@ == canonical_bits(canonical_sort(codes@), 0, 0),
    {
        let mut sorted: Vec<Self> = Vec::new();
        let mut k: usize = 0;
        assert(codes@.take(0) =~= Seq::<HuffmanCode>::empty());
        while k < codes.len()
            invariant
                k <= codes@.len(),
                sorted@ == canonical_sort(codes@.take(k as int)),
            decreases codes@.len() - k,
        {
            let code = &codes[k];
            let ghost s = sorted@;
            let mut p: usize = 0;
            while p < sorted.len() && !(code.length < sorted[p].length || (code.length
                == sorted[p].length && code.symbol < sorted[p].symbol))
                invariant
                    sorted@ == s,
                    k < codes@.len(),
                    *code == codes@[k as int],
                    p <= s.len(),
                    insert_pos(s, codes@[k as int], p as int) == insert_pos(s, codes@[k as int], 0),
                decreases s.len() - p,
            {
                p = p + 1;
            }
            sorted.insert(
                p,
                HuffmanCode {
                    symbol: code.symbol,
                    frequency: code.frequency,
                    length: code.length,
                    bits: code.bits,
                },
            );
            assert(codes@.take(k + 1).drop_last() =~= codes@.take(k as int));
            assert(codes@.take(k + 1).last() == codes@[k as int]);
            k = k + 1;
        }
        assert(codes@.take(k as int) =~= codes@);

        let ghost sorted0 = sorted@;
        let mut bits: u128 = 0;
        let mut length: usize = 0;
        let mut i: usize = 0;
        assert(sorted0.skip(0) =~= sorted0);
        while i < sorted.len()
            invariant
                sorted@.len() == sorted0.len(),
                i <= sorted0.len(),
                forall|m: int| i <= m < sorted0.len() ==> sorted@[m] == sorted0[m],
                canonical_fits(sorted0.skip(i as int), bits, length as int),
                sorted@.take(i as int) + canonical_bits(sorted0.skip(i as int), bits, length as int)
                    == canonical_bits(sorted0, 0, 0),
            decreases sorted0.len() - i,
        {
            let ghost rest = sorted0.skip(i as int);
            let ghost b0 = bits;
            let ghost l0 = length as int;
            let target = sorted[i].length;
            while length < target
                invariant
                    length <= target || length == l0,
                    l0 <= length,
                    widen(bits, length as int, if l0 < target { target as int } else { l0 })
                        == widen(b0, l0, if l0 < target { target as int } else { l0 }),
                decreases target - length,
            {
                bits = bits << 1u32;
                length = length + 1;
            }
            let code = &sorted[i];
            let updated = HuffmanCode {
                symbol: code.symbol,
                frequency: code.frequency,
                length: code.length,
                bits: bits,
            };
            proof {
                assert(rest[0] == sorted0[i as int]);
                assert(bits == widen(b0, l0, length as int));
                assert(rest.drop_first() =~= sorted0.skip(i + 1));
                assert(updated == HuffmanCode { bits: bits, ..rest[0] });
            }
            let ghost pre = sorted@.take(i as int);
            sorted.set(i, updated);
            bits = bits + 1;
            proof {
                assert(sorted@.take(i as int) =~= pre);
                assert(sorted@.take(i + 1) =~= pre.push(updated));
                assert(pre.push(updated) + canonical_bits(rest.drop_first(), bits, length as int)
                    =~= pre + canonical_bits(rest, b0, l0));
            }
            i = i + 1;
        }
        assert(sorted0.skip(i as int) =~= Seq::<HuffmanCode>::empty());
        assert(sorted@.take(i as int) =~= sorted@);
        sorted
    }
}

} // verus!
