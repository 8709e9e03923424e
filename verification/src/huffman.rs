//! The decoder for canonical prefix codes.
//!
//! bzip2 has up to six codes per block and changes between them every 50
//! symbols. Short words are looked up in a table at once, longer ones are
//! followed through a tree bit by bit.
use vstd::arithmetic::div_mod::*;
use vstd::arithmetic::mul::*;
use vstd::arithmetic::power2::*;
use vstd::bits::*;
use vstd::prelude::*;

use crate::bitreader::BitReader;
use crate::bits;
use crate::codes;
use crate::codes::{FAST_BITS, MAX_CODE_LEN};

verus! {

/// The number of entries of the table.
const TABLE_SIZE: usize = 4096;

/// A decoder for the code whose word lengths are `lengths()`.
pub struct HuffmanTree {
    /// For each window of `FAST_BITS` bits the symbol whose word it starts with
    /// and the length of that word; length 0 where there is no such short word.
    fast_table: Vec<(u16, u8)>,
    /// For each inner node what stands behind a 0 and behind a 1: the number of
    /// another inner node, `-(symbol + 1)`, or 0 where there is nothing.
    nodes: Vec<[i32; 2]>,
    /// The word lengths.
    lengths: Ghost<Seq<u8>>,
    /// The path to each inner node: its length and the number that it writes.
    paths: Ghost<Seq<(int, nat)>>,
}

/// The number `c` in the tree tells what stands at the end of the path of `d`
/// bits that write `v`.
spec fn child_ok(paths: Seq<(int, nat)>, c: i32, d: int, v: nat, n: codes::Node) -> bool {
    match n {
        codes::Node::Missing => c == 0,
        codes::Node::Leaf(s) => c == -(s + 1),
        codes::Node::Inner => 0 < c < paths.len() && paths[c as int] == (d, v),
    }
}

/// What stands at the end of a path while the word of `sym` is being entered and
/// its first `depth` bits have been.
spec fn node_amid(lengths: Seq<u8>, sym: int, depth: int, d: int, v: nat) -> codes::Node {
    if d <= depth && codes::extends(lengths, sym, d, v) {
        codes::Node::Inner
    } else {
        codes::node_before(lengths, lengths[sym] as int, sym, d, v)
    }
}

/// Both children of node `i` are as `tree` says.
spec fn node_ok(
    nodes: Seq<[i32; 2]>,
    paths: Seq<(int, nat)>,
    tree: spec_fn(int, nat) -> codes::Node,
    i: int,
) -> bool {
    let d = paths[i].0 + 1;
    let v = 2 * paths[i].1;
    &&& child_ok(paths, nodes[i]@[0], d, v, tree(d, v))
    &&& child_ok(paths, nodes[i]@[1], d, v + 1, tree(d, v + 1))
}

/// The nodes hold the tree `tree`.
spec fn nodes_ok(
    nodes: Seq<[i32; 2]>,
    paths: Seq<(int, nat)>,
    tree: spec_fn(int, nat) -> codes::Node,
) -> bool {
    &&& nodes.len() == paths.len()
    &&& nodes.len() >= 1
    &&& paths[0] == (0int, 0nat)
    &&& forall|i: int| 0 <= i < nodes.len() ==> #[trigger] node_ok(nodes, paths, tree, i)
    &&& forall|i: int|
        1 <= i < nodes.len() ==> (#[trigger] paths[i]).0 >= 1 && tree(paths[i].0, paths[i].1)
            is Inner
    &&& forall|i: int, j: int|
        0 <= i < j < nodes.len() ==> #[trigger] paths[i] != #[trigger] paths[j]
}

spec fn tree_before(lengths: Seq<u8>, len: int, sym: int) -> spec_fn(int, nat) -> codes::Node {
    |d: int, v: nat| codes::node_before(lengths, len, sym, d, v)
}

spec fn tree_amid(lengths: Seq<u8>, sym: int, depth: int) -> spec_fn(int, nat) -> codes::Node {
    |d: int, v: nat| node_amid(lengths, sym, depth, d, v)
}

/// The table holds the short words before the point given by `len` and `sym`.
spec fn table_ok(table: Seq<(u16, u8)>, lengths: Seq<u8>, len: int, sym: int) -> bool {
    &&& table.len() == TABLE_SIZE
    &&& forall|w: int|
        #![trigger table[w]]
        0 <= w < TABLE_SIZE ==> {
            if table[w].1 > 0 {
                codes::short_match(lengths, table[w].0 as int, w as nat) && table[w].1
                    == lengths[table[w].0 as int]
            } else {
                forall|s: int|
                    codes::precedes(lengths, s, len, sym) ==> !#[trigger] codes::short_match(
                        lengths,
                        s,
                        w as nat,
                    )
            }
        }
}

/// Another tree that says the same of every path fits the nodes as well.
proof fn lemma_nodes_same(
    nodes: Seq<[i32; 2]>,
    paths: Seq<(int, nat)>,
    tree1: spec_fn(int, nat) -> codes::Node,
    tree2: spec_fn(int, nat) -> codes::Node,
)
    requires
        nodes_ok(nodes, paths, tree1),
        forall|d: int, v: nat| d >= 1 ==> #[trigger] tree1(d, v) == tree2(d, v),
    ensures
        nodes_ok(nodes, paths, tree2),
{
    assert forall|i: int| 0 <= i < nodes.len() implies #[trigger] node_ok(
        nodes,
        paths,
        tree2,
        i,
    ) by {
        assert(node_ok(nodes, paths, tree1, i));
        let d = paths[i].0 + 1;
        let v = 2 * paths[i].1;
        assert(tree1(d, v) == tree2(d, v));
        assert(tree1(d, v + 1) == tree2(d, v + 1));
    }
    assert forall|i: int| 1 <= i < nodes.len() implies (#[trigger] paths[i]).0 >= 1 && tree2(
        paths[i].0,
        paths[i].1,
    ) is Inner by {
        assert(tree1(paths[i].0, paths[i].1) == tree2(paths[i].0, paths[i].1));
    }
}

/// A further bit of the word that is being entered changes only the end of its
/// own path.
proof fn lemma_amid_step(lengths: Seq<u8>, s: int, depth: int, d: int, v: nat)
    ensures
        tree_amid(lengths, s, depth + 1)(d, v) == if d == depth + 1 && codes::extends(
            lengths,
            s,
            d,
            v,
        ) {
            codes::Node::Inner
        } else {
            tree_amid(lengths, s, depth)(d, v)
        },
{
}

/// The next bit of the word leads to an inner node that is there.
proof fn lemma_insert_existing(
    nodes: Seq<[i32; 2]>,
    paths: Seq<(int, nat)>,
    lengths: Seq<u8>,
    s: int,
    depth: int,
    idx: int,
    bit: int,
)
    requires
        codes::used(lengths, s),
        0 <= depth < lengths[s],
        nodes_ok(nodes, paths, tree_amid(lengths, s, depth)),
        0 <= idx < nodes.len(),
        paths[idx] == (depth, codes::word_prefix(lengths, s, depth)),
        0 <= bit < 2,
        bit == codes::word_prefix(lengths, s, depth + 1) % 2,
        nodes[idx]@[bit] > 0,
    ensures
        nodes_ok(nodes, paths, tree_amid(lengths, s, depth + 1)),
        nodes[idx]@[bit] < nodes.len(),
        paths[nodes[idx]@[bit] as int] == (depth + 1, codes::word_prefix(lengths, s, depth + 1)),
{
    let tree1 = tree_amid(lengths, s, depth);
    let tree2 = tree_amid(lengths, s, depth + 1);
    codes::lemma_word_prefix_step(lengths, s, depth);
    let v = codes::word_prefix(lengths, s, depth + 1);
    assert(node_ok(nodes, paths, tree1, idx));
    codes::lemma_last_ending(
        lengths,
        lengths[s] as int,
        s,
        depth + 1,
        v,
        lengths.len(),
    );
    assert(tree1(depth + 1, v) is Inner);
    assert forall|d: int, w: nat| d >= 1 implies #[trigger] tree1(d, w) == tree2(d, w) by {
        lemma_amid_step(lengths, s, depth, d, w);
    }
    lemma_nodes_same(nodes, paths, tree1, tree2);
}

/// The next bit of the word leads to a new inner node.
proof fn lemma_insert_new(
    nodes: Seq<[i32; 2]>,
    paths: Seq<(int, nat)>,
    lengths: Seq<u8>,
    s: int,
    depth: int,
    idx: int,
    bit: int,
    kids: [i32; 2],
    fresh: [i32; 2],
)
    requires
        codes::used(lengths, s),
        0 <= depth < lengths[s],
        nodes_ok(nodes, paths, tree_amid(lengths, s, depth)),
        0 <= idx < nodes.len(),
        paths[idx] == (depth, codes::word_prefix(lengths, s, depth)),
        0 <= bit < 2,
        bit == codes::word_prefix(lengths, s, depth + 1) % 2,
        nodes[idx]@[bit] <= 0,
        nodes.len() < 0x7fff_ffff,
        kids@ == nodes[idx]@.update(bit, nodes.len() as i32),
        fresh@[0] == 0,
        fresh@[1] == 0,
    ensures
        nodes_ok(
            nodes.push(fresh).update(idx, kids),
            paths.push((depth + 1, codes::word_prefix(lengths, s, depth + 1))),
            tree_amid(lengths, s, depth + 1),
        ),
{
    let tree1 = tree_amid(lengths, s, depth);
    let tree2 = tree_amid(lengths, s, depth + 1);
    codes::lemma_word_prefix_step(lengths, s, depth);
    let p = codes::word_prefix(lengths, s, depth);
    let v = codes::word_prefix(lengths, s, depth + 1);
    let nodes2 = nodes.push(fresh).update(idx, kids);
    let paths2 = paths.push((depth + 1, v));
    let n = nodes.len() as int;
    assert(nodes[idx]@.len() == 2);
    assert(node_ok(nodes, paths, tree1, idx));
    assert(tree1(depth + 1, v) !is Inner);
    assert(codes::extends(lengths, s, depth + 1, v));
    assert(tree2(depth + 1, v) is Inner);
    assert forall|d: int, w: nat| !(d == depth + 1 && w == v) implies #[trigger] tree2(d, w)
        == tree1(d, w) by {
        lemma_amid_step(lengths, s, depth, d, w);
    }
    assert forall|i: int| 0 <= i < nodes2.len() implies #[trigger] node_ok(
        nodes2,
        paths2,
        tree2,
        i,
    ) by {
        if i == n {
            codes::lemma_nothing_behind(lengths, lengths[s] as int, s, depth + 1, v, 0);
            codes::lemma_nothing_behind(lengths, lengths[s] as int, s, depth + 1, v, 1);
            assert(tree2(depth + 2, 2 * v) is Missing);
            assert(tree2(depth + 2, 2 * v + 1) is Missing);
        } else {
            assert(node_ok(nodes, paths, tree1, i));
            let d = paths[i].0 + 1;
            let w = 2 * paths[i].1;
            if i == idx {
                assert(paths2[n] == (depth + 1, v));
                if bit == 0 {
                    assert(tree2(d, w + 1) == tree1(d, w + 1));
                } else {
                    assert(tree2(d, w) == tree1(d, w));
                }
            } else {
                assert(paths[i] != paths[idx]);
                assert(tree2(d, w) == tree1(d, w));
                assert(tree2(d, w + 1) == tree1(d, w + 1));
            }
        }
    }
    assert forall|i: int| 1 <= i < nodes2.len() implies (#[trigger] paths2[i]).0 >= 1 && tree2(
        paths2[i].0,
        paths2[i].1,
    ) is Inner by {
        if i < n {
            assert(paths2[i] == paths[i]);
            assert(tree1(paths[i].0, paths[i].1) is Inner);
        }
    }
    assert forall|i: int, j: int| 0 <= i < j < nodes2.len() implies #[trigger] paths2[i]
        != #[trigger] paths2[j] by {
        if j == n {
            if i >= 1 {
                assert(tree1(paths[i].0, paths[i].1) is Inner);
            }
        } else {
            assert(paths[i] != paths[j]);
        }
    }
}

/// The last bit of the word leads to its symbol.
proof fn lemma_insert_leaf(
    nodes: Seq<[i32; 2]>,
    paths: Seq<(int, nat)>,
    lengths: Seq<u8>,
    s: int,
    idx: int,
    bit: int,
    kids: [i32; 2],
)
    requires
        codes::used(lengths, s),
        s < 0x1_0000,
        nodes_ok(nodes, paths, tree_amid(lengths, s, lengths[s] - 1)),
        0 <= idx < nodes.len(),
        paths[idx] == (lengths[s] - 1, codes::word_prefix(lengths, s, lengths[s] - 1)),
        0 <= bit < 2,
        bit == codes::word_prefix(lengths, s, lengths[s] as int) % 2,
        kids@ == nodes[idx]@.update(bit, (-(s + 1)) as i32),
    ensures
        nodes_ok(
            nodes.update(idx, kids),
            paths,
            tree_before(lengths, lengths[s] as int, s + 1),
        ),
{
    let len = lengths[s] as int;
    let tree1 = tree_amid(lengths, s, len - 1);
    let tree2 = tree_before(lengths, len, s + 1);
    codes::lemma_word_prefix_step(lengths, s, len - 1);
    let v = codes::word_prefix(lengths, s, len);
    let nodes2 = nodes.update(idx, kids);
    assert(nodes[idx]@.len() == 2);
    assert(codes::extends(lengths, s, len, v));
    codes::lemma_node_step(lengths, len, s, len, v);
    assert forall|d: int, w: nat| d >= 1 && !(d == len && w == v) implies #[trigger] tree2(d, w)
        == tree1(d, w) by {
        codes::lemma_node_step(lengths, len, s, d, w);
    }
    assert forall|i: int| 0 <= i < nodes2.len() implies #[trigger] node_ok(
        nodes2,
        paths,
        tree2,
        i,
    ) by {
        assert(node_ok(nodes, paths, tree1, i));
        let d = paths[i].0 + 1;
        let w = 2 * paths[i].1;
        if i == idx {
            assert(tree2(len, v) == codes::Node::Leaf(s));
            if bit == 0 {
                assert(tree2(d, w + 1) == tree1(d, w + 1));
            } else {
                assert(tree2(d, w) == tree1(d, w));
            }
        } else {
            if i < idx {
                assert(paths[i] != paths[idx]);
            } else {
                assert(paths[idx] != paths[i]);
            }
            assert(tree2(d, w) == tree1(d, w));
            assert(tree2(d, w + 1) == tree1(d, w + 1));
        }
    }
    assert forall|i: int| 1 <= i < nodes2.len() implies (#[trigger] paths[i]).0 >= 1 && tree2(
        paths[i].0,
        paths[i].1,
    ) is Inner by {
        assert(tree1(paths[i].0, paths[i].1) is Inner);
        if paths[i] == (len, v) {
            // No word before this one is longer.
            assert(codes::node_before(lengths, len, s, len, v) is Inner);
            let t = choose|t: int| codes::passes(lengths, len, s, len, v, t);
            assert(codes::passes(lengths, len, s, len, v, t));
        } else {
            assert(tree2(paths[i].0, paths[i].1) == tree1(paths[i].0, paths[i].1));
        }
    }
}

/// Enters the word of `sym` into the tree.
fn insert_code(
    nodes: &mut Vec<[i32; 2]>,
    Ghost(paths): Ghost<Seq<(int, nat)>>,
    Ghost(lengths): Ghost<Seq<u8>>,
    code: u64,
    len: u8,
    sym: usize,
) -> (new_paths: Ghost<Seq<(int, nat)>>)
    requires
        codes::used(lengths, sym as int),
        sym < 0x1_0000,
        lengths[sym as int] == len,
        len <= MAX_CODE_LEN,
        code == codes::code(lengths, sym as int),
        nodes_ok(old(nodes)@, paths, tree_before(lengths, len as int, sym as int)),
        old(nodes)@.len() <= 0x7000_0000,
    ensures
        nodes_ok(final(nodes)@, new_paths@, tree_before(lengths, len as int, sym as int + 1)),
        final(nodes)@.len() <= old(nodes)@.len() + MAX_CODE_LEN,
{
    let ghost mut paths = paths;
    let ghost s = sym as int;
    let mut node_idx: usize = 0;
    let mut bit_pos: u8 = len;
    proof {
        codes::lemma_word_prefix_ends(lengths, s);
        lemma_nodes_same(
            nodes@,
            paths,
            tree_before(lengths, len as int, s),
            tree_amid(lengths, s, 0),
        );
    }
    while bit_pos > 1
        invariant
            1 <= bit_pos <= len <= MAX_CODE_LEN,
            s == sym,
            codes::used(lengths, s),
            lengths[s] == len,
            code == codes::code(lengths, s),
            nodes_ok(nodes@, paths, tree_amid(lengths, s, len - bit_pos)),
            node_idx < nodes@.len(),
            paths[node_idx as int] == (
                len - bit_pos,
                codes::word_prefix(lengths, s, len - bit_pos),
            ),
            nodes@.len() <= old(nodes)@.len() + (len - bit_pos),
            old(nodes)@.len() <= 0x7000_0000,
        decreases bit_pos,
    {
        let ghost depth = len - bit_pos;
        bit_pos = bit_pos - 1;
        let bit: usize = code_bit(code, bit_pos);
        proof {
            codes::lemma_word_bit(lengths, s, depth);
        }
        let mut kids: [i32; 2] = nodes[node_idx];
        let child: i32 = kids[bit];
        if child > 0 {
            proof {
                lemma_insert_existing(nodes@, paths, lengths, s, depth, node_idx as int, bit as int);
            }
            node_idx = child as usize;
        } else {
            let new_idx: usize = nodes.len();
            let fresh: [i32; 2] = [0, 0];
            kids[bit] = new_idx as i32;
            proof {
                lemma_insert_new(
                    nodes@,
                    paths,
                    lengths,
                    s,
                    depth,
                    node_idx as int,
                    bit as int,
                    kids,
                    fresh,
                );
                paths = paths.push((depth + 1, codes::word_prefix(lengths, s, depth + 1)));
            }
            nodes.push(fresh);
            nodes.set(node_idx, kids);
            node_idx = new_idx;
        }
    }
    let bit: usize = code_bit(code, 0);
    let mut kids: [i32; 2] = nodes[node_idx];
    kids[bit] = -(sym as i32 + 1);
    proof {
        codes::lemma_word_bit(lengths, s, len - 1);
        lemma_insert_leaf(nodes@, paths, lengths, s, node_idx as int, bit as int, kids);
    }
    nodes.set(node_idx, kids);
    Ghost(paths)
}

/// One bit of a number, counted from the least significant one.
fn code_bit(code: u64, bit_pos: u8) -> (bit: usize)
    requires
        bit_pos < 64,
    ensures
        bit == (code as nat / pow2(bit_pos as nat)) % 2,
{
    proof {
        lemma_u64_shr_is_div(code, bit_pos as u64);
    }
    let shifted: u64 = code >> (bit_pos as u64);
    (shifted % 2) as usize
}

/// A table without words.
fn empty_table() -> (table: Vec<(u16, u8)>)
    ensures
        table@ == Seq::new(TABLE_SIZE as nat, |i: int| (0u16, 0u8)),
{
    let mut table: Vec<(u16, u8)> = Vec::with_capacity(TABLE_SIZE);
    while table.len() < TABLE_SIZE
        invariant
            table@.len() <= TABLE_SIZE,
            forall|i: int| 0 <= i < table@.len() ==> table@[i] == (0u16, 0u8),
        decreases TABLE_SIZE - table@.len(),
    {
        table.push((0u16, 0u8));
    }
    table
}

/// Enters the short word of `sym` into the table: every window that starts with
/// it stands for the symbol.
fn fill_table(
    table: &mut Vec<(u16, u8)>,
    Ghost(lengths): Ghost<Seq<u8>>,
    code: u64,
    len: u8,
    sym: usize,
)
    requires
        codes::used(lengths, sym as int),
        sym < 0x1_0000,
        lengths[sym as int] == len,
        len <= FAST_BITS,
        code == codes::code(lengths, sym as int),
        code < pow2(len as nat),
        table_ok(old(table)@, lengths, len as int, sym as int),
    ensures
        table_ok(final(table)@, lengths, len as int, sym as int + 1),
{
    let pad: u8 = FAST_BITS - len;
    let ghost size = pow2(pad as nat) as int;
    let ghost s = sym as int;
    proof {
        lemma2_to64();
        lemma_pow2_pos(pad as nat);
        lemma_pow2_adds(len as nat, pad as nat);
        let p = pow2(len as nat) as int;
        let c = code as int;
        assert((c + 1) * size <= p * size) by (nonlinear_arith)
            requires
                c + 1 <= p,
                size >= 0,
        ;
        assert((c + 1) * size == c * size + size) by (nonlinear_arith);
        assert(c * size >= 0) by (nonlinear_arith)
            requires
                c >= 0,
                size >= 0,
        ;
        lemma_u64_shl_is_mul(1, pad as u64);
        lemma_u64_shl_is_mul(code, pad as u64);
    }
    let count: usize = (1u64 << (pad as u64)) as usize;
    let base: usize = (code << (pad as u64)) as usize;
    let mut suffix: usize = 0;
    while suffix < count
        invariant
            suffix <= count,
            base + count <= TABLE_SIZE,
            sym < 0x1_0000,
            table@.len() == TABLE_SIZE,
            old(table)@.len() == TABLE_SIZE,
            forall|w: int|
                #![trigger table@[w]]
                0 <= w < TABLE_SIZE ==> table@[w] == if base <= w < base + suffix {
                    (sym as u16, len)
                } else {
                    old(table)@[w]
                },
        decreases count - suffix,
    {
        table.set(base + suffix, (sym as u16, len));
        suffix = suffix + 1;
    }
    proof {
        let c = code as int;
        assert forall|w: nat| w < TABLE_SIZE implies (#[trigger] codes::short_match(lengths, s, w)
            <==> base <= w < base + count) by {
            if base <= w < base + count {
                lemma_fundamental_div_mod_converse(w as int, size, c, w - base);
            } else {
                lemma_fundamental_div_mod(w as int, size);
                let q = w as int / size;
                if q == c {
                    assert(size * c == c * size) by (nonlinear_arith);
                }
            }
        }
        assert forall|w: int| 0 <= w < TABLE_SIZE implies {
            if (#[trigger] table@[w]).1 > 0 {
                codes::short_match(lengths, table@[w].0 as int, w as nat) && table@[w].1
                    == lengths[table@[w].0 as int]
            } else {
                forall|t: int|
                    codes::precedes(lengths, t, len as int, s + 1) ==> !#[trigger]
                        codes::short_match(lengths, t, w as nat)
            }
        } by {
            let ghost _ = old(table)@[w];
            assert(codes::short_match(lengths, s, w as nat) <==> base <= w < base + count);
            if !(base <= w < base + count) {
                assert(table@[w] == old(table)@[w]);
                assert forall|t: int|
                    table@[w].1 == 0 && codes::precedes(lengths, t, len as int, s + 1) implies !#[trigger]
                        codes::short_match(lengths, t, w as nat) by {
                    if t != s {
                        assert(codes::precedes(lengths, t, len as int, s));
                    }
                }
            }
        }
    }
}

/// A table for one point is one for another where only long words lie between.
proof fn lemma_table_same(
    table: Seq<(u16, u8)>,
    lengths: Seq<u8>,
    len1: int,
    sym1: int,
    len2: int,
    sym2: int,
)
    requires
        table_ok(table, lengths, len1, sym1),
        forall|t: int|
            codes::precedes(lengths, t, len2, sym2) && lengths[t] <= FAST_BITS ==> codes::precedes(
                lengths,
                t,
                len1,
                sym1,
            ),
    ensures
        table_ok(table, lengths, len2, sym2),
{
    assert forall|w: int| 0 <= w < TABLE_SIZE && (#[trigger] table[w]).1 == 0 implies forall|s: int|
        codes::precedes(lengths, s, len2, sym2) ==> !#[trigger] codes::short_match(
            lengths,
            s,
            w as nat,
        ) by {
        assert forall|s: int| codes::precedes(lengths, s, len2, sym2) implies !#[trigger]
            codes::short_match(lengths, s, w as nat) by {
            if lengths[s] <= FAST_BITS {
                assert(codes::precedes(lengths, s, len1, sym1));
            }
        }
    }
}

/// Nodes for one point are nodes for another that the same words precede.
proof fn lemma_tree_same(
    nodes: Seq<[i32; 2]>,
    paths: Seq<(int, nat)>,
    lengths: Seq<u8>,
    len1: int,
    sym1: int,
    len2: int,
    sym2: int,
)
    requires
        nodes_ok(nodes, paths, tree_before(lengths, len1, sym1)),
        forall|t: int|
            codes::precedes(lengths, t, len1, sym1) == codes::precedes(lengths, t, len2, sym2),
    ensures
        nodes_ok(nodes, paths, tree_before(lengths, len2, sym2)),
{
    assert forall|d: int, v: nat| d >= 1 implies #[trigger] tree_before(lengths, len1, sym1)(d, v)
        == tree_before(lengths, len2, sym2)(d, v) by {
        codes::lemma_node_same(lengths, len1, sym1, len2, sym2, d, v);
    }
    lemma_nodes_same(
        nodes,
        paths,
        tree_before(lengths, len1, sym1),
        tree_before(lengths, len2, sym2),
    );
}

impl HuffmanTree {
    /// The length of each symbol's word; 0 where a symbol has none.
    pub closed spec fn lengths(self) -> Seq<u8> {
        self.lengths@
    }

    #[verifier::type_invariant]
    closed spec fn inv(self) -> bool {
        &&& self.lengths@.len() <= 0x1_0000
        &&& nodes_ok(self.nodes@, self.paths@, tree_before(self.lengths@, 256, 0))
        &&& table_ok(self.fast_table@, self.lengths@, 256, 0)
    }

    /// The decoder for the code whose word lengths are given, where length 0 means
    /// that a symbol is unused. A code with no word at all is refused, and so is
    /// one whose short words do not fit in the table.
    pub fn from_lengths(lengths: &[u8]) -> (r: Result<Self, &'static str>)
        requires
            lengths@.len() <= 0x1_0000,
            forall|i: int| 0 <= i < lengths@.len() ==> lengths@[i] <= MAX_CODE_LEN,
        ensures
            match r {
                Ok(tree) => tree.lengths() == lengths@ && codes::has_symbols(lengths@)
                    && codes::table_fits(lengths@),
                Err(msg) => if codes::has_symbols(lengths@) {
                    !codes::table_fits(lengths@) && msg@ == "oversubscribed code"@
                } else {
                    msg@ == "no symbols"@
                },
            },
            codes::kraft(lengths@, 32) && (exists|s: int|
                0 <= s < lengths@.len() && #[trigger] lengths@[s] > 0) ==> r is Ok,
            r is Ok <==> codes::kraft_sum(lengths@, 12, lengths@.len()) <= pow2(12) && (exists|
                s: int,
            |
                0 <= s < lengths@.len() && #[trigger] lengths@[s] > 0),
    {
        let ghost all = lengths@;
        let n: usize = lengths.len();
        let root: [i32; 2] = [0, 0];
        let mut nodes: Vec<[i32; 2]> = Vec::new();
        nodes.push(root);
        let ghost mut paths: Seq<(int, nat)> = seq![(0int, 0nat)];
        let mut table: Vec<(u16, u8)> = empty_table();
        let mut any: bool = false;
        let mut code: u64 = 0;
        let mut len: u8 = 1;
        proof {
            codes::lemma_room_start(all, all.len());
            let tree = tree_before(all, 1, 0);
            assert forall|i: int| 0 <= i < nodes@.len() implies #[trigger] node_ok(
                nodes@,
                paths,
                tree,
                i,
            ) by {
                codes::lemma_node_start(all, 1, 0);
                codes::lemma_node_start(all, 1, 1);
            }
            assert(nodes_ok(nodes@, paths, tree));
            assert(table_ok(table@, all, 1, 0));
        }
        while len <= MAX_CODE_LEN
            invariant
                1 <= len <= MAX_CODE_LEN + 1,
                all == lengths@,
                n == all.len(),
                n <= 0x1_0000,
                forall|i: int| 0 <= i < n ==> all[i] <= MAX_CODE_LEN,
                code == codes::room_taken(all, len as int, 0, all.len()),
                nodes_ok(nodes@, paths, tree_before(all, len as int, 0)),
                nodes@.len() <= 1 + 32 * ((len - 1) * 0x1_0000),
                table_ok(table@, all, len as int, 0),
                any == exists|t: int| codes::precedes(all, t, len as int, 0),
                forall|t: int|
                    #![trigger codes::code(all, t)]
                    codes::precedes(all, t, len as int, 0) && all[t] <= FAST_BITS ==> codes::code(
                        all,
                        t,
                    ) < pow2(all[t] as nat),
            decreases MAX_CODE_LEN + 1 - len,
        {
            let mut sym: usize = 0;
            while sym < n
                invariant
                    sym <= n,
                    1 <= len <= MAX_CODE_LEN,
                    all == lengths@,
                    n == all.len(),
                    n <= 0x1_0000,
                    forall|i: int| 0 <= i < n ==> all[i] <= MAX_CODE_LEN,
                    code == codes::room_taken(all, len as int, sym as int, all.len()),
                    nodes_ok(nodes@, paths, tree_before(all, len as int, sym as int)),
                    nodes@.len() <= 1 + 32 * ((len - 1) * 0x1_0000 + sym),
                    table_ok(table@, all, len as int, sym as int),
                    any == exists|t: int| codes::precedes(all, t, len as int, sym as int),
                    forall|t: int|
                        #![trigger codes::code(all, t)]
                        codes::precedes(all, t, len as int, sym as int) && all[t] <= FAST_BITS
                            ==> codes::code(all, t) < pow2(all[t] as nat),
                decreases n - sym,
            {
                let ghost next = sym as int + 1;
                proof {
                    codes::lemma_room_same(all, len as int, sym as int, all.len());
                    codes::lemma_room_bound(all, len as int, sym as int, all.len());
                }
                if lengths[sym] == len {
                    assert(codes::used(all, sym as int));
                    assert(codes::code(all, sym as int) == code);
                    if len <= FAST_BITS {
                        proof {
                            lemma2_to64();
                            lemma_u64_shl_is_mul(1, len as u64);
                            if len < 12 {
                                lemma_pow2_strictly_increases(len as nat, 12);
                            }
                        }
                        if code >= 1u64 << (len as u64) {
                            proof {
                                codes::short_words_decide(all);
                                if codes::kraft(all, 32) {
                                    codes::kraft_gives_room(all, 32);
                                }
                            }
                            return Err("oversubscribed code");
                        }
                        fill_table(&mut table, Ghost(all), code, len, sym);
                    } else {
                        proof {
                            lemma_table_same(
                                table@,
                                all,
                                len as int,
                                sym as int,
                                len as int,
                                next,
                            );
                        }
                    }
                    let Ghost(new_paths) = insert_code(
                        &mut nodes,
                        Ghost(paths),
                        Ghost(all),
                        code,
                        len,
                        sym,
                    );
                    proof {
                        paths = new_paths;
                        assert(codes::precedes(all, sym as int, len as int, next));
                    }
                    code = code + 1;
                    any = true;
                } else {
                    proof {
                        assert forall|t: int|
                            codes::precedes(all, t, len as int, sym as int) == codes::precedes(
                                all,
                                t,
                                len as int,
                                next,
                            ) by {}
                        lemma_table_same(table@, all, len as int, sym as int, len as int, next);
                        lemma_tree_same(
                            nodes@,
                            paths,
                            all,
                            len as int,
                            sym as int,
                            len as int,
                            next,
                        );
                    }
                }
                sym = sym + 1;
            }
            let ghost longer = len as int + 1;
            proof {
                codes::lemma_room_longer(all, len as int, all.len());
                codes::lemma_room_bound(all, len as int, n as int, all.len());
                assert forall|t: int|
                    codes::precedes(all, t, len as int, n as int) == codes::precedes(
                        all,
                        t,
                        longer,
                        0,
                    ) by {}
                lemma_table_same(table@, all, len as int, n as int, longer, 0);
                lemma_tree_same(nodes@, paths, all, len as int, n as int, longer, 0);
            }
            code = code * 2;
            len = len + 1;
        }
        proof {
            assert forall|t: int|
                codes::precedes(all, t, len as int, 0) == codes::precedes(all, t, 256, 0) by {}
            lemma_table_same(table@, all, len as int, 0, 256, 0);
            lemma_tree_same(nodes@, paths, all, len as int, 0, 256, 0);
            assert forall|t: int| codes::used(all, t) implies codes::precedes(
                all,
                t,
                len as int,
                0,
            ) by {}
        }
        proof {
            codes::short_words_decide(all);
            if any {
                let s = choose|s: int| codes::precedes(all, s, len as int, 0);
                assert(all[s] > 0);
            }
            if !any {
                assert forall|s: int| 0 <= s < all.len() implies #[trigger] all[s] == 0 by {
                    assert(!codes::used(all, s));
                }
            }
        }
        if !any {
            return Err("no symbols");
        }
        Ok(
            HuffmanTree {
                fast_table: table,
                nodes,
                lengths: Ghost(all),
                paths: Ghost(paths),
            },
        )
    }

    /// Reads one symbol; `None` where the bits end before its word does.
    pub fn decode(&self, reader: &mut BitReader<'_>) -> (r: Option<u16>)
        ensures
            final(reader).bits() == old(reader).bits(),
            match codes::decode_at(self.lengths(), old(reader).bits(), old(reader).pos() as int) {
                Some((s, p)) => r matches Some(x) && x == s && final(reader).pos() == p,
                None => r is None && final(reader).pos() == old(reader).bits().len(),
            },
            codes::code_fits(self.lengths()) ==> codes::decode_at(
                self.lengths(),
                old(reader).bits(),
                old(reader).pos() as int,
            ) == codes::walk(self.lengths(), old(reader).bits(), old(reader).pos() as int, 0, 0),
            r matches Some(x) ==> codes::used(self.lengths(), x as int),
    {
        proof {
            use_type_invariant(self);
            let lengths = self.lengths();
            codes::lemma_decode_at(lengths, reader.bits(), reader.pos() as int);
            if codes::code_fits(lengths) {
                codes::table_agrees_with_tree(lengths, reader.bits(), reader.pos() as int);
            }
        }
        let ghost all = reader.bits();
        let ghost pos = reader.pos() as int;
        let ghost lengths = self.lengths();
        let window: Option<u32> = reader.peek(FAST_BITS);
        if let Some(w) = window {
            proof {
                bits::lemma_bits_value_bound(all, pos, FAST_BITS as nat);
                lemma2_to64();
            }
            let entry: (u16, u8) = self.fast_table[w as usize];
            if entry.1 > 0 {
                proof {
                    codes::lemma_short_symbol(lengths, entry.0 as int, w as nat);
                }
                reader.consume(entry.1);
                return Some(entry.0);
            }
            proof {
                if codes::short_symbol(lengths, w as nat) is Some {
                    let s = codes::short_symbol(lengths, w as nat)->0;
                    assert(codes::precedes(lengths, s, 256, 0));
                }
            }
        }
        self.decode_slow(reader)
    }

    /// Reads one symbol by following the tree. Where there is room for every word
    /// of the code, this is the symbol that `decode` reads.
    pub fn decode_slow(&self, reader: &mut BitReader<'_>) -> (r: Option<u16>)
        ensures
            final(reader).bits() == old(reader).bits(),
            match codes::walk(self.lengths(), old(reader).bits(), old(reader).pos() as int, 0, 0) {
                Some((s, p)) => r matches Some(x) && x == s && final(reader).pos() == p,
                None => r is None && final(reader).pos() == old(reader).bits().len(),
            },
            r matches Some(x) ==> codes::used(self.lengths(), x as int),
    {
        proof {
            use_type_invariant(self);
            codes::lemma_walk(self.lengths(), reader.bits(), reader.pos() as int, 0, 0);
        }
        let ghost all = reader.bits();
        let ghost lengths = self.lengths@;
        let ghost goal = codes::walk(lengths, all, reader.pos() as int, 0, 0);
        let ghost paths = self.paths@;
        let ghost tree = tree_before(lengths, 256, 0);
        let mut node_idx: usize = 0;
        loop
            invariant
                reader.bits() == all,
                lengths == self.lengths@,
                lengths.len() <= 0x1_0000,
                paths == self.paths@,
                tree == tree_before(lengths, 256, 0),
                nodes_ok(self.nodes@, paths, tree),
                node_idx < self.nodes@.len(),
                all == old(reader).bits(),
                goal == codes::walk(lengths, all, old(reader).pos() as int, 0, 0),
                goal == codes::walk(
                    lengths,
                    all,
                    reader.pos() as int,
                    paths[node_idx as int].0,
                    paths[node_idx as int].1,
                ),
            decreases all.len() - reader.pos(),
        {
            let ghost pos = reader.pos() as int;
            let bit: usize = match reader.read_bit() {
                Some(b) => if b {
                    1
                } else {
                    0
                },
                None => {
                    return None;
                },
            };
            assert(node_ok(self.nodes@, paths, tree, node_idx as int));
            let child: i32 = self.nodes[node_idx][bit];
            proof {
                let d = paths[node_idx as int].0 + 1;
                let v = 2 * paths[node_idx as int].1 + bits::bit_value(all[pos]);
                codes::lemma_last_ending(lengths, 256, 0, d, v, lengths.len());
                assert(child_ok(paths, child, d, v, tree(d, v)));
                assert(tree(d, v) == codes::node(lengths, d, v));
            }
            if child < 0 {
                return Some((-(child + 1)) as u16);
            }
            node_idx = child as usize;
        }
    }
}

} // verus!
