//! The packed form of an octree: one `u32` per node.
//!
//! A leaf has bit 31 set and its value in the bits below. An internal node has
//! bit 31 clear, an 8-bit child mask in bits 30..23, and the index of its first
//! child in bits 22..0. The children of a node that are not empty stand next to
//! each other in octant order.

use vstd::arithmetic::div_mod::lemma_fundamental_div_mod_converse;
use vstd::arithmetic::power2::{lemma2_to64, lemma_pow2_adds, lemma_pow2_unfold, pow2};
use vstd::prelude::*;

use crate::bits::{bit_at, lemma_popcount_high_bit, popcount};
use crate::octree::{
    canonical, lemma_canonical_child, lemma_octant_range, octant_of, tree_at, Octree, Tree,
};

verus! {

/// Bit 31 marks a leaf node.
pub const LEAF_BIT: u32 = 0x8000_0000;

/// Bits 22..0 hold the child pointer (index into the flat array).
pub const CHILD_PTR_MASK: u32 = 0x007F_FFFF;

/// Bits 30..23 hold the 8-bit child mask. Shift right by this to extract.
pub const CHILD_MASK_SHIFT: u32 = 23;

/// The packed word of a leaf: bit 31, and the low 31 bits of the value.
pub open spec fn leaf_word(value: u32) -> u32 {
    (0x8000_0000 + value % 0x8000_0000) as u32
}

/// How many of the first `n` children are not empty.
pub open spec fn present(c: Seq<Tree>, n: nat) -> nat
    decreases n,
{
    if n == 0 {
        0
    } else {
        present(c, (n - 1) as nat) + if c[n - 1] is Empty {
            0nat
        } else {
            1nat
        }
    }
}

/// The child mask of the first `n` children: bit `i` for child `i`.
pub open spec fn child_mask(c: Seq<Tree>, n: nat) -> nat
    decreases n,
{
    if n == 0 {
        0
    } else {
        child_mask(c, (n - 1) as nat) + if c[n - 1] is Empty {
            0
        } else {
            pow2((n - 1) as nat)
        }
    }
}

/// The packed word of an internal node whose first child has index `first`.
pub open spec fn node_word(c: Seq<Tree>, first: nat) -> u32 {
    (child_mask(c, c.len()) * 0x80_0000 + first % 0x80_0000) as u32
}

/// Words needed for everything below a node.
pub open spec fn weight(t: Tree) -> nat
    decreases t, 0nat,
{
    match t {
        Tree::Branch(c) => present(c, c.len()) + weights(c, c.len()),
        _ => 0,
    }
}

/// Words needed for everything below the first `n` of some siblings.
pub open spec fn weights(c: Seq<Tree>, n: nat) -> nat
    decreases c, n,
{
    if n == 0 || n > c.len() {
        0
    } else {
        weights(c, (n - 1) as nat) + weight(c[n - 1])
    }
}

/// The words of the first `n` of some siblings, empty ones left out, where
/// `next` is the index at which what lies below them begins.
pub open spec fn heads(c: Seq<Tree>, n: nat, next: nat) -> Seq<u32>
    decreases n,
{
    if n == 0 {
        Seq::empty()
    } else {
        let before = heads(c, (n - 1) as nat, next);
        match c[n - 1] {
            Tree::Empty => before,
            Tree::Leaf(v) => before.push(leaf_word(v)),
            Tree::Branch(k) => before.push(node_word(k, next + weights(c, (n - 1) as nat))),
        }
    }
}

/// What lies below the first `n` of some siblings, one after the other, where
/// `next` is the index at which it begins.
pub open spec fn tails(c: Seq<Tree>, n: nat, next: nat) -> Seq<u32>
    decreases c, n,
{
    if n == 0 || n > c.len() {
        Seq::empty()
    } else {
        let before = tails(c, (n - 1) as nat, next);
        match c[n - 1] {
            Tree::Branch(k) => before + block(k, next + weights(c, (n - 1) as nat)),
            _ => before,
        }
    }
}

/// The words of a node's children and of everything below them, where `first`
/// is the index at which they begin.
pub open spec fn block(c: Seq<Tree>, first: nat) -> Seq<u32>
    decreases c, c.len() + 1,
{
    let next = first + present(c, c.len());
    heads(c, c.len(), next) + tails(c, c.len(), next)
}

/// The packed form of a whole tree. The root comes first.
pub open spec fn flat(t: Tree) -> Seq<u32> {
    match t {
        Tree::Empty => Seq::empty(),
        Tree::Leaf(v) => seq![leaf_word(v)],
        Tree::Branch(c) => seq![node_word(c, 1)] + block(c, 1),
    }
}

/// The value that packed words hold at a point of the node at index `i`, whose
/// side is `2^level`.
pub open spec fn packed_at(
    data: Seq<u32>,
    i: nat,
    level: nat,
    x: nat,
    y: nat,
    z: nat,
) -> Option<u32>
    decreases level,
{
    let word = data[i as int] as nat;
    if i >= data.len() {
        None
    } else if word >= 0x8000_0000 {
        Some((word - 0x8000_0000) as u32)
    } else if level == 0 {
        None
    } else {
        let mask = word / 0x80_0000;
        let oct = octant_of(x, y, z, level);
        if bit_at(mask, oct) {
            packed_at(
                data,
                word % 0x80_0000 + popcount(mask % pow2(oct)),
                (level - 1) as nat,
                x,
                y,
                z,
            )
        } else {
            None
        }
    }
}

/// The child mask has one bit per child that is not empty.
pub proof fn lemma_mask_count(c: Seq<Tree>, n: nat)
    ensures
        child_mask(c, n) < pow2(n),
        popcount(child_mask(c, n)) == present(c, n),
    decreases n,
{
    if n == 0 {
        lemma2_to64();
    } else {
        lemma_mask_count(c, (n - 1) as nat);
        lemma_pow2_unfold(n);
        lemma_popcount_high_bit(child_mask(c, (n - 1) as nat), (n - 1) as nat);
    }
}

pub proof fn lemma_present_monotone(c: Seq<Tree>, n: nat, m: nat)
    requires
        n <= m,
    ensures
        present(c, n) <= present(c, m) <= present(c, n) + m - n,
    decreases m,
{
    if n < m {
        lemma_present_monotone(c, n, (m - 1) as nat);
    }
}

pub proof fn lemma_block_len(c: Seq<Tree>, first: nat)
    ensures
        block(c, first).len() == present(c, c.len()) + weights(c, c.len()),
    decreases c, c.len() + 1,
{
    let next = first + present(c, c.len());
    lemma_heads_len(c, c.len(), next);
    lemma_tails_len(c, c.len(), next);
}

pub proof fn lemma_heads_len(c: Seq<Tree>, n: nat, next: nat)
    ensures
        heads(c, n, next).len() == present(c, n),
    decreases n,
{
    if n > 0 {
        lemma_heads_len(c, (n - 1) as nat, next);
    }
}

pub proof fn lemma_tails_len(c: Seq<Tree>, n: nat, next: nat)
    requires
        n <= c.len(),
    ensures
        tails(c, n, next).len() == weights(c, n),
    decreases c, n,
{
    if n > 0 {
        lemma_tails_len(c, (n - 1) as nat, next);
        assert(weights(c, n) == weights(c, (n - 1) as nat) + weight(c[n - 1]));
        if let Tree::Branch(k) = c[n - 1] {
            assert(decreases_to!(c => c[n - 1]));
            lemma_block_len(k, next + weights(c, (n - 1) as nat));
        }
    }
}


/// Above the first `i` children the mask adds only multiples of `2^i`.
proof fn lemma_mask_high(c: Seq<Tree>, n: nat, i: nat) -> (q: nat)
    requires
        i <= n,
    ensures
        child_mask(c, n) == child_mask(c, i) + pow2(i) * q,
    decreases n,
{
    if i == n {
        assert(pow2(i) * 0 == 0);
        0
    } else {
        let q = lemma_mask_high(c, (n - 1) as nat, i);
        let b: nat = if c[n - 1] is Empty {
            0
        } else {
            pow2((n - 1 - i) as nat)
        };
        lemma_pow2_adds(i, (n - 1 - i) as nat);
        assert(pow2(i) * q + pow2(i) * b == pow2(i) * (q + b)) by (nonlinear_arith);
        assert(pow2(i) * 0 == 0);
        q + b
    }
}

/// Bit `i` of the mask tells whether child `i` is there, and the bits below it
/// are the mask of the children before it.
pub proof fn lemma_mask_bits(c: Seq<Tree>, n: nat, i: nat)
    requires
        i < n,
    ensures
        bit_at(child_mask(c, n), i) <==> !(c[i as int] is Empty),
        child_mask(c, n) % pow2(i) == child_mask(c, i),
{
    let q = lemma_mask_high(c, n, i + 1);
    let p = pow2(i) as int;
    let r = child_mask(c, i) as int;
    let b: int = if c[i as int] is Empty {
        0
    } else {
        1
    };
    lemma_mask_count(c, i);
    lemma_pow2_unfold(i + 1);
    assert(child_mask(c, i + 1) == r + b * p);
    assert(child_mask(c, n) == r + (b + 2 * q) * p) by (nonlinear_arith)
        requires
            child_mask(c, n) == r + b * p + (2 * p) * q,
    ;
    lemma_fundamental_div_mod_converse(child_mask(c, n) as int, p, b + 2 * q, r);
}

/// The word of a child stands where the mask says.
proof fn lemma_heads_at(c: Seq<Tree>, n: nat, next: nat, j: nat)
    requires
        j < n,
        !(c[j as int] is Empty),
    ensures
        present(c, j) < present(c, n),
        heads(c, n, next)[present(c, j) as int] == (match c[j as int] {
            Tree::Leaf(v) => leaf_word(v),
            Tree::Branch(k) => node_word(k, next + weights(c, j)),
            Tree::Empty => 0,
        }),
    decreases n,
{
    lemma_heads_len(c, (n - 1) as nat, next);
    lemma_present_monotone(c, j, (n - 1) as nat);
    if j + 1 < n {
        lemma_heads_at(c, (n - 1) as nat, next, j);
    }
}

/// What lies below a child stands where the child's word says.
proof fn lemma_tails_at(c: Seq<Tree>, n: nat, next: nat, j: nat)
    requires
        j < n <= c.len(),
        c[j as int] is Branch,
    ensures
        weights(c, j) + weight(c[j as int]) <= weights(c, n),
        tails(c, n, next).len() == weights(c, n),
        tails(c, n, next).subrange(
            weights(c, j) as int,
            (weights(c, j) + weight(c[j as int])) as int,
        ) == block(c[j as int]->Branch_0, next + weights(c, j)),
    decreases n,
{
    lemma_tails_len(c, n, next);
    lemma_tails_len(c, (n - 1) as nat, next);
    assert(weights(c, n) == weights(c, (n - 1) as nat) + weight(c[n - 1]));
    let k = c[j as int]->Branch_0;
    lemma_block_len(k, next + weights(c, j));
    let w = weights(c, j) as int;
    let b = block(k, next + weights(c, j));
    assert(weight(c[j as int]) == b.len());
    if j + 1 < n {
        lemma_tails_at(c, (n - 1) as nat, next, j);
        assert(tails(c, n, next).subrange(w, w + b.len()) =~= tails(
            c,
            (n - 1) as nat,
            next,
        ).subrange(w, w + b.len()));
    } else {
        assert(tails(c, n, next).subrange(w, w + b.len()) =~= b);
    }
}

/// Word `i` packs a node: a leaf, or an internal node whose children and all
/// below them begin at `first`.
spec fn packs(data: Seq<u32>, i: nat, t: Tree, first: nat) -> bool {
    &&& i < data.len()
    &&& match t {
        Tree::Empty => false,
        Tree::Leaf(v) => data[i as int] == leaf_word(v),
        Tree::Branch(c) => {
            &&& data[i as int] == node_word(c, first)
            &&& first + block(c, first).len() <= data.len()
            &&& data.subrange(first as int, (first + block(c, first).len()) as int) == block(
                c,
                first,
            )
        },
    }
}

proof fn lemma_packs_child(data: Seq<u32>, i: nat, t: Tree, first: nat, j: nat) -> (below: nat)
    requires
        packs(data, i, t, first),
        t is Branch,
        j < t->Branch_0.len(),
        !(t->Branch_0[j as int] is Empty),
    ensures
        packs(data, first + present(t->Branch_0, j), t->Branch_0[j as int], below),
{
    let c = t->Branch_0;
    let next = first + present(c, c.len());
    let b = block(c, first);
    lemma_block_len(c, first);
    lemma_heads_len(c, c.len(), next);
    lemma_tails_len(c, c.len(), next);
    lemma_heads_at(c, c.len(), next, j);
    let sub = data.subrange(first as int, (first + b.len()) as int);
    assert(sub[present(c, j) as int] == data[(first + present(c, j)) as int]);
    let below = next + weights(c, j);
    if let Tree::Branch(k) = c[j as int] {
        lemma_tails_at(c, c.len(), next, j);
        lemma_block_len(k, below);
        assert(weight(c[j as int]) == block(k, below).len());
        let w = weights(c, j) as int;
        let len = block(k, below).len() as int;
        let ta = tails(c, c.len(), next);
        let off = present(c, c.len()) as int + w;
        assert(data.subrange(below as int, below + len) =~= ta.subrange(w, w + len)) by {
            assert forall|m: int| 0 <= m < len implies #[trigger] data.subrange(
                below as int,
                below + len,
            )[m] == ta.subrange(w, w + len)[m] by {
                assert(sub[off + m] == data[first + off + m]);
                assert(b[off + m] == ta[w + m]);
            }
        }
    }
    below
}

proof fn lemma_packed_at(
    data: Seq<u32>,
    i: nat,
    t: Tree,
    first: nat,
    level: nat,
    x: nat,
    y: nat,
    z: nat,
)
    requires
        packs(data, i, t, first),
        canonical(t, level),
        data.len() <= 0x80_0000,
    ensures
        packed_at(data, i, level, x, y, z) == packed_value(tree_at(t, level, x, y, z)),
    decreases level,
{
    if let Tree::Branch(c) = t {
        let oct = octant_of(x, y, z, level);
        lemma_octant_range(x, y, z, level);
        let mask = child_mask(c, 8);
        lemma_mask_count(c, 8);
        lemma2_to64();
        let word = data[i as int] as nat;
        assert(word == mask * 0x80_0000 + first % 0x80_0000);
        assert(word / 0x80_0000 == mask);
        assert(word % 0x80_0000 == first % 0x80_0000);
        lemma_mask_bits(c, 8, oct);
        lemma_mask_count(c, oct);
        if !(c[oct as int] is Empty) {
            let below = lemma_packs_child(data, i, t, first, oct);
            lemma_canonical_child(t, level, oct as int);
            lemma_packed_at(
                data,
                first + present(c, oct),
                c[oct as int],
                below,
                (level - 1) as nat,
                x,
                y,
                z,
            );
        }
    }
}

/// What packing leaves of a value: its low 31 bits.
pub open spec fn packed_value(value: Option<u32>) -> Option<u32> {
    match value {
        Some(v) => Some((v % 0x8000_0000) as u32),
        None => None,
    }
}

/// The packed form holds at every point what the octree holds there, as long as
/// every index fits the 23 bits a word has for it. Values keep 31 bits.
pub proof fn law_flatten_reads_back(tree: Octree, x: nat, y: nat, z: nat)
    requires
        tree.wf(),
        flat(tree.tree()).len() <= 0x80_0000,
    ensures
        packed_at(flat(tree.tree()), 0, tree.levels(), x, y, z) == packed_value(tree.at(x, y, z)),
        tree.at(x, y, z) is None ==> packed_at(flat(tree.tree()), 0, tree.levels(), x, y, z) is None,
        tree.at(x, y, z) matches Some(v) ==> (packed_at(
            flat(tree.tree()),
            0,
            tree.levels(),
            x,
            y,
            z,
        ) matches Some(w) && w as int == v as int % 0x8000_0000),
{
    let t = tree.tree();
    let data = flat(t);
    if let Tree::Branch(c) = t {
        assert(data.subrange(1, (1 + block(c, 1).len()) as int) =~= block(c, 1));
    }
    if !(t is Empty) {
        lemma_packed_at(data, 0, t, 1, tree.levels(), x, y, z);
    }
}

/// The word of a leaf has its highest bit, and the value below it.
pub proof fn law_leaf_word(value: u32)
    ensures
        leaf_word(value) >= 0x8000_0000,
        leaf_word(value) as int % 0x8000_0000 == value as int % 0x8000_0000,
{
}

/// The word of an internal node does not have its highest bit. The eight bits
/// below it are the mask, which has a bit just for each child that is not empty,
/// and the 23 bits below those are the index of the first of these.
pub proof fn law_node_word(c: Seq<Tree>, first: nat, i: nat)
    requires
        c.len() == 8,
        i < 8,
    ensures
        node_word(c, first) < 0x8000_0000,
        bit_at(node_word(c, first) as nat / 0x80_0000, i) <==> !(c[i as int] is Empty),
        first < 0x80_0000 ==> node_word(c, first) as nat % 0x80_0000 == first,
{
    lemma_mask_count(c, 8);
    lemma_mask_bits(c, 8, i);
    lemma2_to64();
    assert(node_word(c, first) as nat / 0x80_0000 == child_mask(c, 8));
}

/// Packing begins with the root. An empty tree takes no words and a single leaf
/// one. The children of an internal root that are not empty stand right behind it,
/// one word each, in the order of their octants: a child's place is after as many
/// as there are before it, and a leaf among them is the word of its value.
pub proof fn law_packed_root(t: Tree, j: nat)
    ensures
        t is Empty ==> flat(t).len() == 0,
        t matches Tree::Leaf(v) ==> flat(t).len() == 1 && flat(t)[0] as int == 0x8000_0000 + v as int
            % 0x8000_0000,
        t matches Tree::Branch(c) ==> c.len() == 8 ==> {
            &&& flat(t)[0] as nat % 0x80_0000 == 1
            &&& flat(t)[0] < 0x8000_0000
            &&& j < 8 ==> (bit_at(flat(t)[0] as nat / 0x80_0000, j) <==> !(c[j as int] is Empty))
            &&& j < 8 && c[j as int] is Leaf ==> flat(t)[(1 + popcount(
                (flat(t)[0] as nat / 0x80_0000) % pow2(j),
            )) as int] as int == 0x8000_0000 + c[j as int]->Leaf_0 as int % 0x8000_0000
        },
{
    if let Tree::Branch(c) = t {
        if c.len() == 8 {
            lemma_mask_count(c, 8);
            lemma2_to64();
            let data = flat(t);
            assert(data[0] == node_word(c, 1));
            assert(data[0] as nat / 0x80_0000 == child_mask(c, 8));
            if j < 8 {
                law_node_word(c, 1, j);
                lemma_mask_bits(c, 8, j);
                lemma_mask_count(c, j);
                let next = 1 + present(c, 8);
                lemma_heads_len(c, 8, next);
                if c[j as int] is Leaf {
                    lemma_heads_at(c, 8, next, j);
                    assert(block(c, 1)[present(c, j) as int] == heads(c, 8, next)[present(
                        c,
                        j,
                    ) as int]);
                    assert(data[1 + present(c, j) as int] == block(c, 1)[present(c, j) as int]);
                }
            }
        }
    }
}

/// Packing keeps the low 31 bits of a value, and so every value that has no more.
pub proof fn law_packed_value(value: Option<u32>)
    ensures
        value is None <==> packed_value(value) is None,
        value matches Some(v) ==> v < 0x8000_0000 ==> packed_value(value) == Some(v),
        value matches Some(v) ==> packed_value(value)->Some_0 as int == v as int % 0x8000_0000,
{
}

} // verus!
