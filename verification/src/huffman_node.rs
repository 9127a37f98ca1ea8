//! The Huffman tree: its nodes, how a tree is read from and written to
//! bytes, and how a tree is built from byte frequencies.
//!
//! On disk a node is a children count, then for each child a direction byte
//! (`L` = 0x4c or `R` = 0x52) followed by that child, then a symbol byte. A
//! leaf is written `0, symbol` and an inner node `2, L, left, R, right, 0`.

use vstd::prelude::*;
use crate::read_buffer::ReadBuffer;

verus! {

/// Direction byte of a left child.
pub const LEFT: u8 = 0x4c;

/// Direction byte of a right child.
pub const RIGHT: u8 = 0x52;

/// A node of a Huffman tree: a leaf holds a symbol, an inner node two
/// children. `frequency` is the weight used while building a tree.
#[derive(Debug, PartialEq, Eq)]
pub struct HuffmanNode {
    pub symbol: Option<u8>,
    pub frequency: usize,
    pub left: Option<Box<HuffmanNode>>,
    pub right: Option<Box<HuffmanNode>>,
}

/// The node in an optional box.
pub open spec fn unbox(n: Option<Box<HuffmanNode>>) -> Option<HuffmanNode> {
    match n {
        Some(b) => Some(*b),
        None => None,
    }
}

/// A leaf with the given symbol and weight.
pub open spec fn leaf_spec(symbol: u8, frequency: usize) -> HuffmanNode {
    HuffmanNode { symbol: Some(symbol), frequency: frequency, left: None, right: None }
}

/// An inner node with the given weight and children.
pub open spec fn inner_spec(frequency: usize, left: HuffmanNode, right: HuffmanNode) -> HuffmanNode {
    HuffmanNode {
        symbol: None,
        frequency: frequency,
        left: Some(Box::new(left)),
        right: Some(Box::new(right)),
    }
}

/// Every node is either a leaf (a symbol, no children) or an inner node (no
/// symbol, two children).
pub open spec fn well_formed(n: HuffmanNode) -> bool
    decreases n,
{
    match (n.left, n.right) {
        (None, None) => n.symbol is Some,
        (Some(l), Some(r)) => n.symbol is None && well_formed(*l) && well_formed(*r),
        _ => false,
    }
}

/// The symbols held anywhere in the tree.
pub open spec fn symbols(n: HuffmanNode) -> Set<u8>
    decreases n,
{
    let own = match n.symbol {
        Some(s) => set![s],
        None => Set::empty(),
    };
    let l = match n.left {
        Some(l) => symbols(*l),
        None => Set::empty(),
    };
    let r = match n.right {
        Some(r) => symbols(*r),
        None => Set::empty(),
    };
    own + l + r
}

/// The tree with every weight set to zero, as it comes back from bytes.
pub open spec fn unweighted(n: HuffmanNode) -> HuffmanNode
    decreases n,
{
    HuffmanNode {
        symbol: n.symbol,
        frequency: 0,
        left: match n.left {
            Some(l) => Some(Box::new(unweighted(*l))),
            None => None,
        },
        right: match n.right {
            Some(r) => Some(Box::new(unweighted(*r))),
            None => None,
        },
    }
}

/// The node reached from `n` by following `path` (`false` = left).
pub open spec fn node_at(n: HuffmanNode, path: Seq<bool>) -> Option<HuffmanNode>
    decreases path.len(),
{
    if path.len() == 0 {
        Some(n)
    } else {
        let child = if path[0] {
            n.right
        } else {
            n.left
        };
        match child {
            Some(c) => node_at(*c, path.drop_first()),
            None => None,
        }
    }
}

/// Number of edges on the longest path from `n` down to a leaf.
pub open spec fn height(n: HuffmanNode) -> nat
    decreases n,
{
    let l = match n.left {
        Some(l) => 1 + height(*l),
        None => 0,
    };
    let r = match n.right {
        Some(r) => 1 + height(*r),
        None => 0,
    };
    if l >= r {
        l as nat
    } else {
        r as nat
    }
}

/// The bytes `Huffman` writes for the tree under `n`.
pub open spec fn tree_bytes(n: HuffmanNode) -> Seq<u8>
    decreases n,
{
    match n.symbol {
        Some(s) => seq![0u8, s],
        None => {
            let l = match n.left {
                Some(l) => seq![LEFT] + tree_bytes(*l),
                None => Seq::empty(),
            };
            let r = match n.right {
                Some(r) => seq![RIGHT] + tree_bytes(*r),
                None => Seq::empty(),
            };
            seq![2u8] + l + r + seq![0u8]
        },
    }
}

/// Reading a node from `s` at `pos`: the node (`None` where the reading
/// fails) and the position after it. `strict` reading fails at a direction
/// byte that is neither `L` nor `R` or is missing; lenient reading skips it.
/// Where a child appears twice, the later one counts; a node that lacks a
/// child is read as a leaf.
pub open spec fn parse_node(s: Seq<u8>, pos: int, strict: bool) -> (Option<HuffmanNode>, int)
    decreases s.len() - pos, 1int, 0int,
{
    if pos < 0 || pos >= s.len() {
        (None, pos)
    } else {
        let (ok, left, right, p) = parse_children(s, pos + 1, s[pos] as int, None, None, strict);
        if !ok || p < 0 || p >= s.len() {
            (None, p)
        } else {
            match (left, right) {
                (Some(l), Some(r)) => (Some(inner_spec(0, l, r)), p + 1),
                _ => (Some(leaf_spec(s[p], 0)), p + 1),
            }
        }
    }
}

/// Reading `k` more children of a node from `s` at `pos`, with the children
/// read so far: whether the reading may go on, the two children and the
/// position after them. The position after a child is kept between the
/// position before it and the end, which it always is.
pub open spec fn parse_children(
    s: Seq<u8>,
    pos: int,
    k: int,
    left: Option<HuffmanNode>,
    right: Option<HuffmanNode>,
    strict: bool,
) -> (bool, Option<HuffmanNode>, Option<HuffmanNode>, int)
    decreases s.len() - pos, 0int, k,
{
    if k <= 0 {
        (true, left, right, pos)
    } else if pos < 0 || pos >= s.len() {
        if strict {
            (false, left, right, pos)
        } else {
            parse_children(s, pos, k - 1, left, right, strict)
        }
    } else if s[pos] == LEFT || s[pos] == RIGHT {
        let (child, q0) = parse_node(s, pos + 1, strict);
        let q = if q0 <= pos {
            pos + 1
        } else if q0 > s.len() {
            s.len() as int
        } else {
            q0
        };
        if s[pos] == LEFT {
            parse_children(s, q, k - 1, child, right, strict)
        } else {
            parse_children(s, q, k - 1, left, child, strict)
        }
    } else if strict {
        (false, left, right, pos + 1)
    } else {
        parse_children(s, pos + 1, k - 1, left, right, strict)
    }
}

/// A leaf is written as the two bytes `0` (no children) and its symbol.
pub proof fn lemma_tree_bytes_leaf(n: HuffmanNode)
    requires
        n.symbol is Some,
    ensures
        tree_bytes(n) == seq![0u8, n.symbol.unwrap()],
{
}

/// A node without a symbol and with two children is written as the byte
/// `2` (two children), the byte 0x4C (`L`) and the left child, the byte 0x52
/// (`R`) and the right child, and a final byte `0`.
pub proof fn lemma_tree_bytes_inner(n: HuffmanNode)
    requires
        n.symbol is None,
        n.left is Some,
        n.right is Some,
    ensures
        tree_bytes(n) == seq![2u8, 0x4Cu8] + tree_bytes(*n.left.unwrap()) + seq![0x52u8]
            + tree_bytes(*n.right.unwrap()) + seq![0u8],
{
    assert(tree_bytes(n) =~= seq![2u8, 0x4Cu8] + tree_bytes(*n.left.unwrap()) + seq![0x52u8]
        + tree_bytes(*n.right.unwrap()) + seq![0u8]);
}

/// Reading the bytes `0` and `b` at `pos` gives the leaf with symbol `b` and
/// no weight, and goes on after them, for every byte `b`.
pub proof fn lemma_leaf_bytes_read(s: Seq<u8>, pos: int, strict: bool)
    requires
        0 <= pos,
        pos + 2 <= s.len(),
        s[pos] == 0,
    ensures
        parse_node(s, pos, strict) == (
            Some(HuffmanNode { symbol: Some(s[pos + 1]), frequency: 0, left: None, right: None }),
            pos + 2,
        ),
{
    assert(parse_children(s, pos + 1, 0, None, None, strict) == (
        true,
        None::<HuffmanNode>,
        None::<HuffmanNode>,
        pos + 1,
    ));
}

/// Reading the byte `2`, then 0x4C (`L`) and a node `l`, then 0x52 (`R`)
/// and a node `r`, then one more byte, gives the node with children `l` and
/// `r`, no symbol and no weight, and goes on after that byte.
pub proof fn lemma_inner_bytes_read(s: Seq<u8>, pos: int, strict: bool)
    requires
        0 <= pos,
        pos + 2 < s.len(),
        s[pos] == 2,
        s[pos + 1] == 0x4C,
        parse_node(s, pos + 2, strict).0 is Some,
        pos + 2 < parse_node(s, pos + 2, strict).1 < s.len(),
        s[parse_node(s, pos + 2, strict).1] == 0x52,
        parse_node(s, parse_node(s, pos + 2, strict).1 + 1, strict).0 is Some,
        parse_node(s, pos + 2, strict).1 + 1 < parse_node(
            s,
            parse_node(s, pos + 2, strict).1 + 1,
            strict,
        ).1 < s.len(),
    ensures
        ({
            let (l, q) = parse_node(s, pos + 2, strict);
            let (r, q2) = parse_node(s, q + 1, strict);
            parse_node(s, pos, strict) == (
                Some(
                    HuffmanNode {
                        symbol: None,
                        frequency: 0,
                        left: Some(Box::new(l.unwrap())),
                        right: Some(Box::new(r.unwrap())),
                    },
                ),
                q2 + 1,
            )
        }),
{
    let (l, q) = parse_node(s, pos + 2, strict);
    let (r, q2) = parse_node(s, q + 1, strict);
    assert(parse_children(s, q2, 0, l, r, strict) == (true, l, r, q2));
    assert(parse_children(s, q, 1, l, None, strict) == (true, l, r, q2));
    assert(parse_children(s, pos + 1, 2, None, None, strict) == (true, l, r, q2));
}

/// An optional node read from bytes is a well-formed tree with no weights.
pub open spec fn parsed_shape(o: Option<HuffmanNode>) -> bool {
    o matches Some(t) ==> well_formed(t) && unweighted(t) == t
}

proof fn lemma_parse_node_shape(s: Seq<u8>, pos: int, strict: bool)
    ensures
        parsed_shape(parse_node(s, pos, strict).0),
    decreases s.len() - pos, 1int, 0int,
{
    if !(pos < 0 || pos >= s.len()) {
        lemma_parse_children_shape(s, pos + 1, s[pos] as int, None, None, strict);
        let (ok, left, right, p) = parse_children(s, pos + 1, s[pos] as int, None, None, strict);
        match (left, right) {
            (Some(l), Some(r)) => {
                let n = inner_spec(0, l, r);
                assert(unweighted(n) == n);
            },
            _ => {
                let n = leaf_spec(s[p], 0);
                assert(unweighted(n) == n);
            },
        }
    }
}

proof fn lemma_parse_children_shape(
    s: Seq<u8>,
    pos: int,
    k: int,
    left: Option<HuffmanNode>,
    right: Option<HuffmanNode>,
    strict: bool,
)
    requires
        parsed_shape(left),
        parsed_shape(right),
    ensures
        parsed_shape(parse_children(s, pos, k, left, right, strict).1),
        parsed_shape(parse_children(s, pos, k, left, right, strict).2),
    decreases s.len() - pos, 0int, k,
{
    if k <= 0 {
    } else if pos < 0 || pos >= s.len() {
        if !strict {
            lemma_parse_children_shape(s, pos, k - 1, left, right, strict);
        }
    } else if s[pos] == LEFT || s[pos] == RIGHT {
        lemma_parse_node_shape(s, pos + 1, strict);
        let (child, q0) = parse_node(s, pos + 1, strict);
        let q = if q0 <= pos {
            pos + 1
        } else if q0 > s.len() {
            s.len() as int
        } else {
            q0
        };
        if s[pos] == LEFT {
            lemma_parse_children_shape(s, q, k - 1, child, right, strict);
        } else {
            lemma_parse_children_shape(s, q, k - 1, left, child, strict);
        }
    } else if !strict {
        lemma_parse_children_shape(s, pos + 1, k - 1, left, right, strict);
    }
}

/// A well-formed tree written as bytes reads back as the same tree with its
/// weights set to zero, ending just after its bytes; this holds wherever the
/// bytes stand in the input and whatever follows them, for both ways of
/// reading.
pub proof fn lemma_tree_bytes_parse(n: HuffmanNode, s: Seq<u8>, pos: int, strict: bool)
    requires
        well_formed(n),
        0 <= pos,
        pos + tree_bytes(n).len() <= s.len(),
        s.subrange(pos, pos + tree_bytes(n).len()) == tree_bytes(n),
    ensures
        parse_node(s, pos, strict) == (Some(unweighted(n)), pos + tree_bytes(n).len()),
    decreases n,
{
    let tb = tree_bytes(n);
    assert(forall|i: int| 0 <= i < tb.len() ==> s[pos + i] == #[trigger] tb[i]) by {
        assert forall|i: int| 0 <= i < tb.len() implies s[pos + i] == #[trigger] tb[i] by {
            assert(s.subrange(pos, pos + tb.len())[i] == s[pos + i]);
        }
    }
    match n.symbol {
        Some(sym) => {
            assert(tb[0] == 0u8);
            assert(tb[1] == sym);
            assert(parse_children(s, pos + 1, 0, None, None, strict) == (
                true,
                None::<HuffmanNode>,
                None::<HuffmanNode>,
                pos + 1,
            ));
            assert(unweighted(n) == leaf_spec(sym, 0));
        },
        None => {
            let l = *n.left.unwrap();
            let r = *n.right.unwrap();
            let tl = tree_bytes(l);
            let tr = tree_bytes(r);
            assert(tb =~= seq![2u8] + (seq![LEFT] + tl) + (seq![RIGHT] + tr) + seq![0u8]);
            let pl = pos + 2;
            let pr = pos + 3 + tl.len();
            let pe = pr + tr.len();
            assert(tb[0] == 2u8);
            assert(tb[1] == LEFT);
            assert(tb[2 + tl.len() as int] == RIGHT);
            assert(tb[tb.len() - 1] == 0u8);
            assert(s.subrange(pl, pl + tl.len()) =~= tl) by {
                assert forall|i: int| 0 <= i < tl.len() implies s.subrange(pl, pl + tl.len())[i]
                    == tl[i] by {
                    assert(tb[2 + i] == tl[i]);
                }
            }
            assert(s.subrange(pr, pr + tr.len()) =~= tr) by {
                assert forall|i: int| 0 <= i < tr.len() implies s.subrange(pr, pr + tr.len())[i]
                    == tr[i] by {
                    assert(tb[3 + tl.len() + i] == tr[i]);
                }
            }
            lemma_tree_bytes_parse(l, s, pl, strict);
            lemma_tree_bytes_parse(r, s, pr, strict);
            assert(parse_children(s, pe, 0, Some(unweighted(l)), Some(unweighted(r)), strict) == (
                true,
                Some(unweighted(l)),
                Some(unweighted(r)),
                pe,
            ));
            assert(parse_children(s, pr - 1, 1, Some(unweighted(l)), None, strict) == (
                true,
                Some(unweighted(l)),
                Some(unweighted(r)),
                pe,
            ));
            assert(parse_children(s, pos + 1, 2, None, None, strict) == (
                true,
                Some(unweighted(l)),
                Some(unweighted(r)),
                pe,
            ));
            assert(unweighted(n) == inner_spec(0, unweighted(l), unweighted(r)));
        },
    }
}

/// The order of `Option<u8>`: `None` below every symbol.
pub open spec fn symbol_gt(a: Option<u8>, b: Option<u8>) -> bool {
    match (a, b) {
        (Some(x), Some(y)) => x > y,
        (Some(_), None) => true,
        _ => false,
    }
}

/// `a` leaves the queue of the tree builder before `b`: it has the lower
/// weight, or the same weight and the greater symbol.
pub open spec fn outranks(a: HuffmanNode, b: HuffmanNode) -> bool {
    a.frequency < b.frequency || (a.frequency == b.frequency && symbol_gt(a.symbol, b.symbol))
}

/// Index of the first node of `q[k..]`, or `q[best]`, that no node outranks.
pub open spec fn top_from(q: Seq<HuffmanNode>, k: int, best: int) -> int
    decreases q.len() - k,
{
    if k >= q.len() {
        best
    } else if outranks(q[k], q[best]) {
        top_from(q, k + 1, k)
    } else {
        top_from(q, k + 1, best)
    }
}

/// Index of the first node of the queue that no other node outranks: the
/// node the builder takes next.
pub open spec fn top_index(q: Seq<HuffmanNode>) -> int {
    top_from(q, 1, 0)
}

pub proof fn lemma_top_from(q: Seq<HuffmanNode>, k: int, best: int)
    requires
        0 <= best < q.len(),
        best < k,
        forall|m: int| 0 <= m < k ==> !outranks(#[trigger] q[m], q[best]),
    ensures
        0 <= top_from(q, k, best) < q.len(),
        forall|m: int| 0 <= m < q.len() ==> !outranks(#[trigger] q[m], q[top_from(q, k, best)]),
    decreases q.len() - k,
{
    if k < q.len() {
        if outranks(q[k], q[best]) {
            assert forall|m: int| 0 <= m < k + 1 implies !outranks(#[trigger] q[m], q[k]) by {
                if m < k {
                    assert(!outranks(q[m], q[best]));
                }
            }
            lemma_top_from(q, k + 1, k);
        } else {
            lemma_top_from(q, k + 1, best);
        }
    }
}

pub proof fn lemma_top_index(q: Seq<HuffmanNode>)
    requires
        q.len() > 0,
    ensures
        0 <= top_index(q) < q.len(),
        forall|m: int| 0 <= m < q.len() ==> !outranks(#[trigger] q[m], q[top_index(q)]),
{
    lemma_top_from(q, 1, 0);
}

/// The leaves that start the queue of the tree builder: one for each byte
/// value below `n` that occurs, in the order of the byte values.
pub open spec fn leaf_queue(f: Seq<usize>, n: int) -> Seq<HuffmanNode>
    decreases n,
{
    if n <= 0 {
        Seq::empty()
    } else if f[n - 1] > 0 {
        leaf_queue(f, n - 1).push(leaf_spec((n - 1) as u8, f[n - 1]))
    } else {
        leaf_queue(f, n - 1)
    }
}

/// One step of the builder: the two nodes that come first leave the queue
/// and their parent joins it at the back, the first of them on the left.
pub open spec fn merge_step(q: Seq<HuffmanNode>) -> Seq<HuffmanNode> {
    let i = top_index(q);
    let a = q[i];
    let q1 = q.remove(i);
    let j = top_index(q1);
    let b = q1[j];
    q1.remove(j).push(inner_spec((a.frequency + b.frequency) as usize, a, b))
}

/// The tree the builder makes from a queue: merge until one node is left.
pub open spec fn build_tree(q: Seq<HuffmanNode>) -> Option<HuffmanNode>
    decreases q.len(),
{
    if q.len() == 0 {
        None
    } else if q.len() == 1 {
        Some(q[0])
    } else {
        proof {
            lemma_top_index(q);
            lemma_top_index(q.remove(top_index(q)));
        }
        build_tree(merge_step(q))
    }
}

/// The Huffman tree for the byte frequencies `f` (indexed by byte value);
/// `None` where no byte occurs.
pub open spec fn huffman_tree(f: Seq<usize>) -> Option<HuffmanNode> {
    build_tree(leaf_queue(f, 256))
}

/// Sum of `f[0..n]`.
pub open spec fn freq_sum(f: Seq<usize>, n: int) -> int
    decreases n,
{
    if n <= 0 {
        0
    } else {
        freq_sum(f, n - 1) + f[n - 1]
    }
}

/// Sum of the weights of the nodes in a queue.
pub open spec fn queue_weight(q: Seq<HuffmanNode>) -> int
    decreases q.len(),
{
    if q.len() == 0 {
        0
    } else {
        queue_weight(q.drop_last()) + q.last().frequency
    }
}

proof fn lemma_queue_weight_remove(q: Seq<HuffmanNode>, i: int)
    requires
        0 <= i < q.len(),
    ensures
        queue_weight(q) == queue_weight(q.remove(i)) + q[i].frequency,
        queue_weight(q.remove(i)) >= 0,
    decreases q.len(),
{
    if i == q.len() - 1 {
        assert(q.remove(i) =~= q.drop_last());
    } else {
        lemma_queue_weight_remove(q.drop_last(), i);
        assert(q.remove(i).drop_last() =~= q.drop_last().remove(i));
        assert(q.remove(i).last() == q.last());
    }
    lemma_queue_weight_nonneg(q.remove(i));
}

proof fn lemma_queue_weight_nonneg(q: Seq<HuffmanNode>)
    ensures
        queue_weight(q) >= 0,
    decreases q.len(),
{
    if q.len() > 0 {
        lemma_queue_weight_nonneg(q.drop_last());
    }
}

proof fn lemma_leaf_queue_weight(f: Seq<usize>, n: int)
    requires
        0 <= n <= f.len(),
    ensures
        queue_weight(leaf_queue(f, n)) == freq_sum(f, n),
    decreases n,
{
    if n > 0 {
        lemma_leaf_queue_weight(f, n - 1);
        if f[n - 1] > 0 {
            assert(leaf_queue(f, n).drop_last() == leaf_queue(f, n - 1));
        }
    }
}

/// The bytes that occur according to the frequencies `f`.
pub open spec fn occurring(f: Seq<usize>) -> Set<u8> {
    Set::new(|s: u8| f[s as int] > 0)
}

/// The symbols held by the nodes of a queue.
pub open spec fn queue_symbols(q: Seq<HuffmanNode>) -> Set<u8> {
    Set::new(|s: u8| exists|k: int| 0 <= k < q.len() && #[trigger] symbols(q[k]).contains(s))
}

/// Every node of the queue is a well-formed tree.
pub open spec fn queue_well_formed(q: Seq<HuffmanNode>) -> bool {
    forall|k: int| 0 <= k < q.len() ==> well_formed(#[trigger] q[k])
}

proof fn lemma_leaf_queue_invariant(f: Seq<usize>, n: int)
    requires
        0 <= n <= 256,
        f.len() == 256,
    ensures
        queue_well_formed(leaf_queue(f, n)),
        queue_symbols(leaf_queue(f, n)) == Set::new(|s: u8| s < n && f[s as int] > 0),
    decreases n,
{
    if n > 0 {
        lemma_leaf_queue_invariant(f, n - 1);
        let q0 = leaf_queue(f, n - 1);
        let q = leaf_queue(f, n);
        let target = Set::new(|s: u8| s < n && f[s as int] > 0);
        if f[n - 1] > 0 {
            let lf = leaf_spec((n - 1) as u8, f[n - 1]);
            assert(symbols(lf) =~= set![(n - 1) as u8]);
            assert forall|s: u8| queue_symbols(q).contains(s) <==> target.contains(s) by {
                if queue_symbols(q).contains(s) {
                    let k = choose|k: int| 0 <= k < q.len() && #[trigger] symbols(q[k]).contains(s);
                    if k < q0.len() {
                        assert(symbols(q0[k]).contains(s));
                        assert(queue_symbols(q0).contains(s));
                    }
                }
                if target.contains(s) {
                    if s == n - 1 {
                        assert(symbols(q[q.len() - 1]).contains(s));
                    } else {
                        assert(queue_symbols(q0).contains(s));
                        let k = choose|k: int|
                            0 <= k < q0.len() && #[trigger] symbols(q0[k]).contains(s);
                        assert(symbols(q[k]).contains(s));
                    }
                }
            }
            assert(queue_symbols(q) =~= target);
        } else {
            assert(queue_symbols(q) =~= target) by {
                assert forall|s: u8| queue_symbols(q).contains(s) <==> target.contains(s) by {
                    if target.contains(s) {
                        assert(s != n - 1);
                    }
                }
            }
        }
    }
}

proof fn lemma_merge_step_invariant(q: Seq<HuffmanNode>)
    requires
        q.len() >= 2,
        queue_well_formed(q),
    ensures
        merge_step(q).len() == q.len() - 1,
        queue_well_formed(merge_step(q)),
        queue_symbols(merge_step(q)) == queue_symbols(q),
{
    lemma_top_index(q);
    let i = top_index(q);
    let a = q[i];
    let q1 = q.remove(i);
    lemma_top_index(q1);
    let j = top_index(q1);
    let b = q1[j];
    let q2 = q1.remove(j);
    let m = inner_spec((a.frequency + b.frequency) as usize, a, b);
    let q3 = q2.push(m);
    assert(q3 == merge_step(q));
    // where each node of the new queue comes from
    let from1 = |k: int| if k < i { k } else { k + 1 };
    let from2 = |k: int| if k < j { k } else { k + 1 };
    assert forall|k: int| 0 <= k < q1.len() implies q1[k] == q[from1(k)] by {}
    assert forall|k: int| 0 <= k < q2.len() implies q2[k] == q1[from2(k)] by {}
    assert(symbols(m) =~= symbols(a) + symbols(b));
    assert(well_formed(m));
    assert forall|k: int| 0 <= k < q3.len() implies well_formed(#[trigger] q3[k]) by {
        if k < q2.len() {
            assert(q3[k] == q[from1(from2(k))]);
        }
    }
    assert forall|s: u8| queue_symbols(q3).contains(s) <==> queue_symbols(q).contains(s) by {
        if queue_symbols(q3).contains(s) {
            let k = choose|k: int| 0 <= k < q3.len() && #[trigger] symbols(q3[k]).contains(s);
            if k == q2.len() {
                if symbols(a).contains(s) {
                    assert(symbols(q[i]).contains(s));
                } else {
                    assert(symbols(q[from1(j)]).contains(s));
                }
            } else {
                assert(symbols(q[from1(from2(k))]).contains(s));
            }
        }
        if queue_symbols(q).contains(s) {
            let k = choose|k: int| 0 <= k < q.len() && #[trigger] symbols(q[k]).contains(s);
            if k == i {
                assert(symbols(q3[q2.len() as int]).contains(s));
            } else {
                let k1 = if k < i { k } else { k - 1 };
                assert(q1[k1] == q[k]);
                if k1 == j {
                    assert(symbols(q3[q2.len() as int]).contains(s));
                } else {
                    let k2 = if k1 < j { k1 } else { k1 - 1 };
                    assert(q2[k2] == q1[k1]);
                    assert(symbols(q3[k2]).contains(s));
                }
            }
        }
    }
    assert(queue_symbols(q3) =~= queue_symbols(q));
}

proof fn lemma_build_tree_invariant(q: Seq<HuffmanNode>)
    requires
        q.len() > 0,
        queue_well_formed(q),
    ensures
        build_tree(q) is Some,
        well_formed(build_tree(q).unwrap()),
        symbols(build_tree(q).unwrap()) == queue_symbols(q),
    decreases q.len(),
{
    if q.len() == 1 {
        assert(well_formed(q[0]));
        assert forall|s: u8| queue_symbols(q).contains(s) <==> symbols(q[0]).contains(s) by {
            if symbols(q[0]).contains(s) {
                assert(symbols(q[0]).contains(s));
            }
        }
        assert(queue_symbols(q) =~= symbols(q[0]));
    } else {
        lemma_merge_step_invariant(q);
        lemma_build_tree_invariant(merge_step(q));
    }
}

/// The Huffman tree of a frequency table exists exactly when some byte
/// occurs; it is well formed (each node a leaf or a node with two
/// children), and its symbols are exactly the bytes that occur.
pub proof fn lemma_huffman_tree_symbols(f: Seq<usize>)
    requires
        f.len() == 256,
    ensures
        huffman_tree(f) is Some <==> occurring(f) != Set::<u8>::empty(),
        huffman_tree(f) matches Some(t) ==> well_formed(t) && symbols(t) == occurring(f),
{
    lemma_leaf_queue_invariant(f, 256);
    let q = leaf_queue(f, 256);
    assert(Set::new(|s: u8| s < 256 && f[s as int] > 0) =~= occurring(f));
    if q.len() > 0 {
        lemma_build_tree_invariant(q);
        lemma_well_formed_has_symbol(q[0]);
        let x = choose|x: u8| symbols(q[0]).contains(x);
        assert(queue_symbols(q).contains(x));
        assert(occurring(f).contains(x));
    } else {
        assert(occurring(f) =~= Set::<u8>::empty());
    }
}

/// The Fibonacci numbers.
pub open spec fn fib(n: nat) -> nat
    decreases n,
{
    if n == 0 {
        0
    } else if n == 1 {
        1
    } else {
        fib((n - 1) as nat) + fib((n - 2) as nat)
    }
}

/// Every node under `n` weighs at least the Fibonacci number two past its
/// height.
pub open spec fn weight_bounded(n: HuffmanNode) -> bool
    decreases n,
{
    &&& n.frequency >= fib(height(n) + 2)
    &&& match n.left {
        Some(l) => weight_bounded(*l),
        None => true,
    }
    &&& match n.right {
        Some(r) => weight_bounded(*r),
        None => true,
    }
}

/// What holds of the builder's queue after merges whose larger node weighed
/// `m`: every node weighs at least `m` and is weight-bounded, the children
/// of every node weigh at most `m`, and the weights sum to a `usize`.
pub open spec fn queue_depth_inv(q: Seq<HuffmanNode>, m: int) -> bool {
    &&& queue_well_formed(q)
    &&& forall|k: int| 0 <= k < q.len() ==> #[trigger] q[k].frequency >= m
    &&& forall|k: int| 0 <= k < q.len() ==> weight_bounded(#[trigger] q[k])
    &&& forall|k: int|
        0 <= k < q.len() ==> (#[trigger] q[k].left matches Some(l) ==> l.frequency <= m) && (
        q[k].right matches Some(r) ==> r.frequency <= m)
    &&& queue_weight(q) <= usize::MAX
}

proof fn lemma_fib_monotone(a: nat, b: nat)
    requires
        a <= b,
    ensures
        fib(a) <= fib(b),
    decreases b,
{
    if a < b {
        lemma_fib_monotone(a, (b - 1) as nat);
        if b >= 2 {
            assert(fib(b) == fib((b - 1) as nat) + fib((b - 2) as nat));
        }
    }
}

proof fn lemma_fib_pow2(k: nat)
    ensures
        fib(2 * k + 1) >= vstd::arithmetic::power2::pow2(k),
        fib(2 * k + 2) >= vstd::arithmetic::power2::pow2(k),
    decreases k,
{
    if k == 0 {
        vstd::arithmetic::power2::lemma2_to64();
        assert(fib(2) == fib(1) + fib(0));
    } else {
        let k1 = (k - 1) as nat;
        lemma_fib_pow2(k1);
        assert(fib(2 * k + 1) == fib(2 * k1 + 2) + fib(2 * k1 + 1));
        assert(fib(2 * k + 2) == fib(2 * k + 1) + fib(2 * k1 + 2));
        vstd::arithmetic::power2::lemma_pow2_unfold(k);
    }
}

proof fn lemma_tall_child(z: HuffmanNode) -> (c: HuffmanNode)
    requires
        height(z) >= 1,
    ensures
        z.left == Some(Box::new(c)) || z.right == Some(Box::new(c)),
        height(c) + 1 == height(z),
{
    match (z.left, z.right) {
        (Some(l), Some(r)) => {
            if height(*l) >= height(*r) {
                *l
            } else {
                *r
            }
        },
        (Some(l), None) => *l,
        (None, Some(r)) => *r,
        (None, None) => z,
    }
}

proof fn lemma_merge_step_depth(q: Seq<HuffmanNode>, m: int)
    requires
        q.len() >= 2,
        queue_depth_inv(q, m),
    ensures
        queue_depth_inv(merge_step(q), top_second_weight(q)),
        queue_weight(merge_step(q)) == queue_weight(q),
{
    lemma_top_index(q);
    let i = top_index(q);
    let a = q[i];
    let q1 = q.remove(i);
    lemma_top_index(q1);
    let j = top_index(q1);
    let b = q1[j];
    let q2 = q1.remove(j);
    lemma_queue_weight_remove(q, i);
    lemma_queue_weight_remove(q1, j);
    let w = a.frequency + b.frequency;
    let n = inner_spec(w as usize, a, b);
    let q3 = q2.push(n);
    assert(q3 == merge_step(q));
    assert(q3.drop_last() == q2);
    assert(queue_weight(q3) == queue_weight(q));
    let from1 = |k: int| if k < i { k } else { k + 1 };
    let from2 = |k: int| if k < j { k } else { k + 1 };
    assert forall|k: int| 0 <= k < q1.len() implies q1[k] == q[from1(k)] by {}
    assert forall|k: int| 0 <= k < q2.len() implies q2[k] == q1[from2(k)] by {}
    // the two nodes taken weigh least, the first at most the second
    assert(a.frequency <= b.frequency) by {
        assert(!outranks(q[from1(j)], a));
    }
    assert forall|k: int| 0 <= k < q2.len() implies b.frequency <= #[trigger] q2[k].frequency by {
        assert(!outranks(q1[from2(k)], b));
    }
    assert(a.frequency >= m) by {
        assert(q[i].frequency >= m);
    }
    let m2 = b.frequency as int;
    assert(m2 == top_second_weight(q));
    // the new node is weight-bounded
    assert(well_formed(a)) by {
        assert(well_formed(q[i]));
    }
    assert(well_formed(b)) by {
        assert(well_formed(q[from1(j)]));
    }
    assert(weight_bounded(a)) by {
        assert(weight_bounded(q[i]));
    }
    assert(weight_bounded(b)) by {
        assert(weight_bounded(q[from1(j)]));
    }
    assert(a.left matches Some(l) ==> l.frequency <= m) by {
        assert(q[i].left == a.left);
    }
    assert(a.right matches Some(r) ==> r.frequency <= m) by {
        assert(q[i].right == a.right);
    }
    assert(b.left matches Some(l) ==> l.frequency <= m) by {
        assert(q[from1(j)].left == b.left);
    }
    assert(b.right matches Some(r) ==> r.frequency <= m) by {
        assert(q[from1(j)].right == b.right);
    }
    let (z, y) = if height(a) >= height(b) {
        (a, b)
    } else {
        (b, a)
    };
    let hz = height(z);
    assert(height(n) == hz + 1);
    assert(fib(hz + 3) == fib(hz + 2) + fib(hz + 1));
    assert(y.frequency >= fib(hz + 1)) by {
        if hz == 0 {
            lemma_fib_monotone(1, height(y) + 2);
        } else {
            let c = lemma_tall_child(z);
            assert(weight_bounded(c));
            assert(c.frequency <= m);
        }
    }
    assert(weight_bounded(n));
    assert(well_formed(n));
    assert forall|k: int| 0 <= k < q3.len() implies {
        &&& well_formed(#[trigger] q3[k])
        &&& q3[k].frequency >= m2
        &&& weight_bounded(q3[k])
        &&& (q3[k].left matches Some(l) ==> l.frequency <= m2)
        &&& (q3[k].right matches Some(r) ==> r.frequency <= m2)
    } by {
        if k < q2.len() {
            let k0 = from1(from2(k));
            assert(q3[k] == q[k0]);
            assert(well_formed(q[k0]));
            assert(weight_bounded(q[k0]));
            assert(q[k0].frequency >= m);
        }
    }
}

/// The weight of the second node the builder takes from a queue.
pub open spec fn top_second_weight(q: Seq<HuffmanNode>) -> int {
    q.remove(top_index(q))[top_index(q.remove(top_index(q)))].frequency as int
}

proof fn lemma_build_tree_depth(q: Seq<HuffmanNode>, m: int)
    requires
        q.len() > 0,
        queue_depth_inv(q, m),
    ensures
        build_tree(q) matches Some(t) && weight_bounded(t) && t.frequency <= usize::MAX,
    decreases q.len(),
{
    if q.len() == 1 {
        assert(weight_bounded(q[0]));
        assert(q.drop_last().len() == 0);
        assert(q.last() == q[0]);
        assert(queue_weight(q.drop_last()) == 0);
        assert(queue_weight(q) == queue_weight(q.drop_last()) + q.last().frequency);
        assert(queue_weight(q) == q[0].frequency);
    } else {
        lemma_merge_step_depth(q, m);
        lemma_merge_step_invariant(q);
        lemma_build_tree_depth(merge_step(q), top_second_weight(q));
    }
}

/// The Huffman tree of a frequency table whose sum fits in a `usize` is at
/// most 128 levels deep: a node of height `h` weighs at least the
/// Fibonacci number `h + 2`.
pub proof fn lemma_huffman_tree_height(f: Seq<usize>)
    requires
        f.len() == 256,
        freq_sum(f, 256) <= usize::MAX,
    ensures
        huffman_tree(f) matches Some(t) ==> height(t) <= 128,
{
    let q = leaf_queue(f, 256);
    lemma_leaf_queue_invariant(f, 256);
    lemma_leaf_queue_weight(f, 256);
    lemma_leaf_queue_leaves(f, 256);
    if q.len() > 0 {
        assert forall|k: int| 0 <= k < q.len() implies weight_bounded(#[trigger] q[k]) && (
        q[k].left is None && q[k].right is None) by {
            assert(q[k].frequency >= 1);
            assert(height(q[k]) == 0);
            assert(fib(2) == fib(1) + fib(0));
        }
        assert(queue_depth_inv(q, 0));
        lemma_build_tree_depth(q, 0);
        let t = build_tree(q).unwrap();
        if height(t) > 128 {
            lemma_fib_pow2(65);
            lemma_fib_monotone(131, height(t) + 2);
            vstd::arithmetic::power2::lemma2_to64();
            vstd::arithmetic::power2::lemma_pow2_unfold(65);
            assert(false);
        }
    }
}

proof fn lemma_leaf_queue_leaves(f: Seq<usize>, n: int)
    requires
        0 <= n <= f.len(),
    ensures
        forall|k: int|
            0 <= k < leaf_queue(f, n).len() ==> (#[trigger] leaf_queue(f, n)[k]).frequency >= 1
                && leaf_queue(f, n)[k].left is None && leaf_queue(f, n)[k].right is None,
    decreases n,
{
    if n > 0 {
        lemma_leaf_queue_leaves(f, n - 1);
        let q0 = leaf_queue(f, n - 1);
        assert forall|k: int| 0 <= k < leaf_queue(f, n).len() implies (#[trigger] leaf_queue(
            f,
            n,
        )[k]).frequency >= 1 && leaf_queue(f, n)[k].left is None && leaf_queue(f, n)[k].right
            is None by {
            if k < q0.len() {
                assert(leaf_queue(f, n)[k] == q0[k]);
            }
        }
    }
}

/// Every inner node under `n` weighs the sum of its children, and every leaf
/// the frequency of its symbol in `f`.
pub open spec fn weights_ok(n: HuffmanNode, f: Seq<usize>) -> bool
    decreases n,
{
    match (n.left, n.right) {
        (Some(l), Some(r)) => n.frequency == l.frequency + r.frequency && weights_ok(*l, f)
            && weights_ok(*r, f),
        _ => match n.symbol {
            Some(s) => n.frequency == f[s as int],
            None => true,
        },
    }
}

proof fn lemma_merge_step_weights(q: Seq<HuffmanNode>, f: Seq<usize>)
    requires
        q.len() >= 2,
        queue_weight(q) <= usize::MAX,
        forall|k: int| 0 <= k < q.len() ==> weights_ok(#[trigger] q[k], f),
    ensures
        queue_weight(merge_step(q)) == queue_weight(q),
        forall|k: int| 0 <= k < merge_step(q).len() ==> weights_ok(#[trigger] merge_step(q)[k], f),
{
    lemma_top_index(q);
    let i = top_index(q);
    let a = q[i];
    let q1 = q.remove(i);
    lemma_top_index(q1);
    let j = top_index(q1);
    let b = q1[j];
    let q2 = q1.remove(j);
    lemma_queue_weight_remove(q, i);
    lemma_queue_weight_remove(q1, j);
    let n = inner_spec((a.frequency + b.frequency) as usize, a, b);
    let q3 = q2.push(n);
    assert(q3 == merge_step(q));
    assert(q3.drop_last() == q2);
    let from1 = |k: int| if k < i { k } else { k + 1 };
    let from2 = |k: int| if k < j { k } else { k + 1 };
    assert forall|k: int| 0 <= k < q1.len() implies q1[k] == q[from1(k)] by {}
    assert forall|k: int| 0 <= k < q2.len() implies q2[k] == q1[from2(k)] by {}
    assert(weights_ok(a, f)) by {
        assert(weights_ok(q[i], f));
    }
    assert(weights_ok(b, f)) by {
        assert(weights_ok(q[from1(j)], f));
    }
    assert(weights_ok(n, f));
    assert forall|k: int| 0 <= k < q3.len() implies weights_ok(#[trigger] q3[k], f) by {
        if k < q2.len() {
            assert(q3[k] == q[from1(from2(k))]);
            assert(weights_ok(q[from1(from2(k))], f));
        }
    }
}

proof fn lemma_build_tree_weights(q: Seq<HuffmanNode>, f: Seq<usize>)
    requires
        q.len() > 0,
        queue_weight(q) <= usize::MAX,
        forall|k: int| 0 <= k < q.len() ==> weights_ok(#[trigger] q[k], f),
    ensures
        build_tree(q) matches Some(t) && weights_ok(t, f) && t.frequency == queue_weight(q),
    decreases q.len(),
{
    if q.len() == 1 {
        assert(weights_ok(q[0], f));
        assert(q.last() == q[0]);
        assert(queue_weight(q.drop_last()) == 0);
        assert(queue_weight(q) == queue_weight(q.drop_last()) + q.last().frequency);
    } else {
        lemma_merge_step_weights(q, f);
        lemma_merge_step_invariant_len(q);
        lemma_build_tree_weights(merge_step(q), f);
    }
}

proof fn lemma_merge_step_invariant_len(q: Seq<HuffmanNode>)
    requires
        q.len() >= 2,
    ensures
        merge_step(q).len() == q.len() - 1,
{
    lemma_top_index(q);
    lemma_top_index(q.remove(top_index(q)));
}

/// The weights of the Huffman tree of a frequency table whose sum fits in a
/// `usize`: each leaf weighs the frequency of its symbol, each inner node
/// the sum of its children, and the root the sum of all frequencies.
pub proof fn lemma_huffman_tree_weights(f: Seq<usize>)
    requires
        f.len() == 256,
        freq_sum(f, 256) <= usize::MAX,
    ensures
        huffman_tree(f) matches Some(t) ==> weights_ok(t, f) && t.frequency == freq_sum(f, 256),
{
    let q = leaf_queue(f, 256);
    lemma_leaf_queue_weight(f, 256);
    lemma_leaf_queue_leaf_weights(f, 256);
    if q.len() > 0 {
        lemma_build_tree_weights(q, f);
    }
}

proof fn lemma_leaf_queue_leaf_weights(f: Seq<usize>, n: int)
    requires
        0 <= n <= f.len(),
        f.len() == 256,
        n <= 256,
    ensures
        forall|k: int| 0 <= k < leaf_queue(f, n).len() ==> weights_ok(#[trigger] leaf_queue(f, n)[k], f),
    decreases n,
{
    if n > 0 {
        lemma_leaf_queue_leaf_weights(f, n - 1);
        let q0 = leaf_queue(f, n - 1);
        assert forall|k: int| 0 <= k < leaf_queue(f, n).len() implies weights_ok(
            #[trigger] leaf_queue(f, n)[k],
            f,
        ) by {
            if k < q0.len() {
                assert(leaf_queue(f, n)[k] == q0[k]);
            } else {
                assert(((n - 1) as u8) as int == n - 1);
            }
        }
    }
}

/// A well-formed tree holds at least one symbol.
pub proof fn lemma_well_formed_has_symbol(n: HuffmanNode)
    requires
        well_formed(n),
    ensures
        exists|x: u8| symbols(n).contains(x),
    decreases n,
{
    match n.symbol {
        Some(s) => {
            assert(symbols(n).contains(s));
        },
        None => {
            let l = *n.left.unwrap();
            lemma_well_formed_has_symbol(l);
            let x = choose|x: u8| symbols(l).contains(x);
            assert(symbols(n).contains(x));
        },
    }
}

impl HuffmanNode {
    /// A leaf: a symbol and no children.
    pub fn create_leaf_node(symbol: u8, frequency: usize) -> (n: Self)
        ensures
            n == leaf_spec(symbol, frequency),
    {
        Self { symbol: Some(symbol), frequency: frequency, left: None, right: None }
    }

    /// An inner node: two children and no symbol.
    pub fn create_inner_node(frequency: usize, left: HuffmanNode, right: HuffmanNode) -> (n: Self)
        ensures
            n == inner_spec(frequency, left, right),
    {
        Self {
            symbol: None,
            frequency: frequency,
            left: Some(Box::new(left)),
            right: Some(Box::new(right)),
        }
    }

    /// Reads a node and its children from the stream (see `parse_node`).
    fn parse(stream: &mut ReadBuffer, strict: bool) -> (res: Option<Box<Self>>)
        requires
            old(stream).data@.len() < usize::MAX,
            old(stream).read_pos < usize::MAX,
        ensures
            final(stream).data@ == old(stream).data@,
            (unbox(res), final(stream).read_pos as int) == parse_node(
                old(stream).data@,
                old(stream).read_pos as int,
                strict,
            ),
            old(stream).read_pos < old(stream).data@.len() ==> old(stream).read_pos
                < final(stream).read_pos <= old(stream).data@.len(),
            old(stream).read_pos >= old(stream).data@.len() ==> final(stream).read_pos == old(
                stream,
            ).read_pos,
        decreases old(stream).data@.len() - old(stream).read_pos,
    {
        let ghost s = stream.data@;
        let ghost pos0 = stream.read_pos as int;
        let mut left: Option<Box<HuffmanNode>> = None;
        let mut right: Option<Box<HuffmanNode>> = None;
        match stream.read_byte() {
            None => None,
            Some(children) => {
                let mut i: u8 = 0;
                while i < children
                    invariant
                        stream.data@ == s,
                        s == old(stream).data@,
                        pos0 == old(stream).read_pos,
                        s.len() < usize::MAX,
                        0 <= pos0 < s.len(),
                        children == s[pos0],
                        pos0 < stream.read_pos <= s.len(),
                        0 <= i <= children,
                        parse_children(s, pos0 + 1, children as int, None, None, strict)
                            == parse_children(
                            s,
                            stream.read_pos as int,
                            children - i,
                            unbox(left),
                            unbox(right),
                            strict,
                        ),
                    decreases children - i,
                {
                    match stream.read_byte() {
                        Some(direction) => {
                            if direction == LEFT {
                                left = Self::parse(stream, strict);
                            } else if direction == RIGHT {
                                right = Self::parse(stream, strict);
                            } else if strict {
                                return None;
                            }
                        },
                        None => {
                            if strict {
                                return None;
                            }
                        },
                    }
                    i = i + 1;
                }
                match stream.read_byte() {
                    Some(symbol) => {
                        match (left, right) {
                            (Some(l), Some(r)) => Some(
                                Box::new(Self::create_inner_node(0, *l, *r)),
                            ),
                            _ => Some(Box::new(Self::create_leaf_node(symbol, 0))),
                        }
                    },
                    None => None,
                }
            },
        }
    }

    /// Reads a Huffman tree from the stream, skipping unknown direction
    /// bytes; `None` where the stream ends before the tree does. The tree
    /// read is well formed and carries no weights.
    pub fn from_stream(stream: &mut ReadBuffer) -> (res: Option<Box<Self>>)
        requires
            old(stream).data@.len() < usize::MAX,
            old(stream).read_pos < usize::MAX,
        ensures
            final(stream).data@ == old(stream).data@,
            (unbox(res), final(stream).read_pos as int) == parse_node(
                old(stream).data@,
                old(stream).read_pos as int,
                false,
            ),
            old(stream).read_pos <= final(stream).read_pos,
            old(stream).read_pos <= old(stream).data@.len() ==> final(stream).read_pos <= old(
                stream,
            ).data@.len(),
            res matches Some(t) ==> well_formed(*t) && unweighted(*t) == *t,
    {
        let ghost s = stream.data@;
        let ghost pos = stream.read_pos as int;
        let res = Self::parse(stream, false);
        proof {
            lemma_parse_node_shape(s, pos, false);
        }
        res
    }

    /// Reads a Huffman tree from the stream as the decompressor does: `None`
    /// also at an unknown direction byte. The tree read is well formed and
    /// carries no weights.
    pub fn from_stream_strict(stream: &mut ReadBuffer) -> (res: Option<Box<Self>>)
        requires
            old(stream).data@.len() < usize::MAX,
            old(stream).read_pos < usize::MAX,
        ensures
            final(stream).data@ == old(stream).data@,
            (unbox(res), final(stream).read_pos as int) == parse_node(
                old(stream).data@,
                old(stream).read_pos as int,
                true,
            ),
            old(stream).read_pos <= final(stream).read_pos,
            old(stream).read_pos <= old(stream).data@.len() ==> final(stream).read_pos <= old(
                stream,
            ).data@.len(),
            res matches Some(t) ==> well_formed(*t) && unweighted(*t) == *t,
    {
        let ghost s = stream.data@;
        let ghost pos = stream.read_pos as int;
        let res = Self::parse(stream, true);
        proof {
            lemma_parse_node_shape(s, pos, true);
        }
        res
    }
}


impl HuffmanNode {
    /// Whether `self` leaves the queue of the tree builder before `other`.
    pub fn outranks(&self, other: &Self) -> (res: bool)
        ensures
            res == outranks(*self, *other),
    {
        if self.frequency != other.frequency {
            self.frequency < other.frequency
        } else {
            match (self.symbol, other.symbol) {
                (Some(x), Some(y)) => x > y,
                (Some(_), None) => true,
                _ => false,
            }
        }
    }

    /// Index of the node the builder takes next from a non-empty queue.
    fn top_index(queue: &Vec<HuffmanNode>) -> (i: usize)
        requires
            queue@.len() > 0,
        ensures
            i == top_index(queue@),
            i < queue@.len(),
    {
        proof {
            lemma_top_index(queue@);
        }
        let mut best: usize = 0;
        let mut k: usize = 1;
        while k < queue.len()
            invariant
                1 <= k <= queue@.len(),
                best < k,
                top_from(queue@, k as int, best as int) == top_index(queue@),
            decreases queue@.len() - k,
        {
            if queue[k].outranks(&queue[best]) {
                best = k;
            }
            k = k + 1;
        }
        best
    }

    /// Builds the Huffman tree for the byte frequencies (indexed by byte
    /// value): every occurring byte starts as a leaf, and the two nodes of
    /// lowest weight (on equal weight, greatest symbol) are joined under a
    /// new node, the first on the left, until one node is left. `None` when no
    /// byte occurs. Inner nodes carry no symbol: among inner nodes of equal
    /// weight the one that joined the queue first is taken. An order by
    /// weight and symbol alone leaves that choice open, and another choice
    /// gives another tree, as valid, with other code bits.
    pub fn from_frequencies(frequencies: [usize; 256]) -> (res: Option<Box<Self>>)
        requires
            freq_sum(frequencies@, 256) <= usize::MAX,
        ensures
            unbox(res) == huffman_tree(frequencies@),
    {
        let ghost f = frequencies@;
        let mut queue: Vec<HuffmanNode> = Vec::new();
        let mut i: usize = 0;
        while i < 256
            invariant
                f == frequencies@,
                f.len() == 256,
                i <= 256,
                queue@ == leaf_queue(f, i as int),
            decreases 256 - i,
        {
            if frequencies[i] > 0 {
                queue.push(Self::create_leaf_node(i as u8, frequencies[i]));
            }
            i = i + 1;
        }
        proof {
            lemma_leaf_queue_weight(f, 256);
        }
        while queue.len() > 1
            invariant
                f == frequencies@,
                freq_sum(f, 256) <= usize::MAX,
                build_tree(queue@) == huffman_tree(f),
                queue_weight(queue@) == freq_sum(f, 256),
            decreases queue@.len(),
        {
            let ghost q = queue@;
            let li = Self::top_index(&queue);
            let left = queue.remove(li);
            let ri = Self::top_index(&queue);
            let right = queue.remove(ri);
            proof {
                lemma_queue_weight_remove(q, li as int);
                lemma_queue_weight_remove(q.remove(li as int), ri as int);
            }
            let parent = Self::create_inner_node(left.frequency + right.frequency, left, right);
            queue.push(parent);
            proof {
                assert(queue@ == merge_step(q));
                assert(queue@.drop_last() == q.remove(li as int).remove(ri as int));
            }
        }
        match queue.pop() {
            None => None,
            Some(root) => Some(Box::new(root)),
        }
    }
}
} // verus!
