//! A sparse octree over a cube of voxels, and its packed form.

use vstd::arithmetic::div_mod::{lemma_fundamental_div_mod_converse, lemma_small_mod};
use vstd::arithmetic::power2::{lemma2_to64, lemma_pow2_pos, lemma_pow2_unfold, pow2};
use vstd::bits::{lemma_u32_shl_is_mul, lemma_u32_shr_is_div};
use vstd::prelude::*;

use crate::bits::{law_bit_is_in_remainder, lemma_low_bits_split, lemma_pow2_monotone};
use crate::packed::{
    block, child_mask, flat, heads, leaf_word, lemma_heads_len, lemma_mask_count,
    lemma_present_monotone, lemma_tails_len, node_word, present, tails, weights, CHILD_MASK_SHIFT,
    CHILD_PTR_MASK, LEAF_BIT,
};

verus! {

/// The shape of an octree node: nothing, one value throughout, or eight
/// children in octant order.
pub enum Tree {
    Empty,
    Leaf(u32),
    Branch(Seq<Tree>),
}

/// Which of the eight children of a node with side `2^level` holds a point:
/// bit `level - 1` of each coordinate, x lowest.
pub open spec fn octant_of(x: nat, y: nat, z: nat, level: nat) -> nat
    recommends
        level > 0,
{
    let p = pow2((level - 1) as nat);
    (x / p) % 2 + 2 * ((y / p) % 2) + 4 * ((z / p) % 2)
}

/// The value a node of side `2^level` holds at a point, of which only the low
/// `level` bits of each coordinate count.
pub open spec fn tree_at(t: Tree, level: nat, x: nat, y: nat, z: nat) -> Option<u32>
    decreases level,
{
    match t {
        Tree::Empty => None,
        Tree::Leaf(v) => Some(v),
        Tree::Branch(c) => if level == 0 {
            None
        } else {
            tree_at(c[octant_of(x, y, z, level) as int], (level - 1) as nat, x, y, z)
        },
    }
}

/// Whether eight children carry no more information than one node would.
pub open spec fn uniform(c: Seq<Tree>) -> bool {
    &&& !(c[0] is Branch)
    &&& forall|i: int| 0 <= i < c.len() ==> #[trigger] c[i] == c[0]
}

/// A node as one where its eight children carry no more information than that.
pub open spec fn collapsed(t: Tree) -> Tree {
    match t {
        Tree::Branch(c) => if c.len() == 8 && uniform(c) {
            c[0]
        } else {
            t
        },
        _ => t,
    }
}

/// A well-formed node of side `2^level`: leaves hold non-zero values, branches
/// have eight children one level down, and no branch could be a single node.
pub open spec fn canonical(t: Tree, level: nat) -> bool
    decreases level,
{
    match t {
        Tree::Empty => true,
        Tree::Leaf(v) => v != 0,
        Tree::Branch(c) => {
            &&& level > 0
            &&& c.len() == 8
            &&& !uniform(c)
            &&& forall|i: int| 0 <= i < 8 ==> canonical(#[trigger] c[i], (level - 1) as nat)
        },
    }
}

/// The children of a well-formed node are well-formed.
pub proof fn lemma_canonical_child(t: Tree, level: nat, i: int)
    requires
        canonical(t, level),
        t is Branch,
        0 <= i < 8,
    ensures
        level > 0,
        t->Branch_0.len() == 8,
        canonical(t->Branch_0[i], (level - 1) as nat),
{
    let c = t->Branch_0;
    assert(canonical(c[i], (level - 1) as nat));
}

/// Making a node one that can be changes no voxel.
proof fn lemma_collapsed_reads_same(t: Tree)
    ensures
        forall|level: nat, x: nat, y: nat, z: nat|
            level >= 1 ==> #[trigger] tree_at(collapsed(t), level, x, y, z) == tree_at(
                t,
                level,
                x,
                y,
                z,
            ),
{
    assert forall|level: nat, x: nat, y: nat, z: nat| level >= 1 implies #[trigger] tree_at(
        collapsed(t),
        level,
        x,
        y,
        z,
    ) == tree_at(t, level, x, y, z) by {
        if let Tree::Branch(c) = t {
            lemma_octant_range(x, y, z, level);
            let child = c[octant_of(x, y, z, level) as int];
            assert(tree_at(t, level, x, y, z) == tree_at(child, (level - 1) as nat, x, y, z));
        }
    }
}

/// Two points in the same cell of side `1` of a node of side `2^level`.
pub open spec fn same_voxel(
    level: nat,
    x: nat,
    y: nat,
    z: nat,
    x2: nat,
    y2: nat,
    z2: nat,
) -> bool {
    &&& x % pow2(level) == x2 % pow2(level)
    &&& y % pow2(level) == y2 % pow2(level)
    &&& z % pow2(level) == z2 % pow2(level)
}

/// What setting a voxel to `value` makes it read as.
pub open spec fn stored(value: u32) -> Option<u32> {
    if value == 0 {
        None
    } else {
        Some(value)
    }
}

/// A voxel set to a value other than zero reads as just that value; one set to
/// zero reads as empty.
pub proof fn law_set_value_reads_back(value: u32)
    ensures
        value != 0 ==> stored(value) == Some(value),
        value == 0 ==> stored(value) is None,
{
}

/// The octant of a point says along each axis whether the point lies in the upper
/// half of its node: x in the lowest bit, then y, then z.
pub proof fn law_octant_is_half_per_axis(x: nat, y: nat, z: nat, level: nat)
    requires
        level > 0,
    ensures
        octant_of(x, y, z, level) < 8,
        octant_of(x, y, z, level) % 2 == 1 <==> x % pow2(level) >= pow2((level - 1) as nat),
        (octant_of(x, y, z, level) / 2) % 2 == 1 <==> y % pow2(level) >= pow2(
            (level - 1) as nat,
        ),
        octant_of(x, y, z, level) / 4 == 1 <==> z % pow2(level) >= pow2((level - 1) as nat),
{
    let i = (level - 1) as nat;
    law_bit_is_in_remainder(x, i);
    law_bit_is_in_remainder(y, i);
    law_bit_is_in_remainder(z, i);
    assert(i + 1 == level);
}

/// What a node reads as: an empty one as nothing, a leaf as its value at every
/// point, and a branch as the child that lies in the halves the point lies in.
pub proof fn law_node_reads_by_halves(t: Tree, level: nat, x: nat, y: nat, z: nat, i: nat)
    requires
        level > 0,
        i < 8,
        i % 2 == 1 <==> x % pow2(level) >= pow2((level - 1) as nat),
        (i / 2) % 2 == 1 <==> y % pow2(level) >= pow2((level - 1) as nat),
        i / 4 == 1 <==> z % pow2(level) >= pow2((level - 1) as nat),
    ensures
        t is Empty ==> tree_at(t, level, x, y, z) is None,
        t matches Tree::Leaf(v) ==> tree_at(t, level, x, y, z) == Some(v),
        t matches Tree::Branch(c) ==> tree_at(t, level, x, y, z) == tree_at(
            c[i as int],
            (level - 1) as nat,
            x,
            y,
            z,
        ),
{
    law_octant_is_half_per_axis(x, y, z, level);
    let o = octant_of(x, y, z, level);
    assert(o == o % 2 + 2 * ((o / 2) % 2) + 4 * (o / 4));
    assert(i == i % 2 + 2 * ((i / 2) % 2) + 4 * (i / 4));
    assert(o == i);
}

/// A node of eight empty children becomes an empty one, a node of eight leaves of
/// one value that leaf, and no other node changes.
pub proof fn law_collapse(t: Tree, v: u32)
    ensures
        t matches Tree::Branch(c) ==> {
            &&& c.len() == 8 && (forall|i: int| 0 <= i < 8 ==> #[trigger] c[i] is Empty)
                ==> collapsed(t) is Empty
            &&& c.len() == 8 && (forall|i: int| 0 <= i < 8 ==> #[trigger] c[i] == Tree::Leaf(v))
                ==> collapsed(t) == Tree::Leaf(v)
            &&& c.len() != 8 ==> collapsed(t) == t
            &&& forall|i: int, j: int|
                0 <= i < 8 && 0 <= j < 8 && (#[trigger] c[i] is Branch || c[i] != #[trigger] c[j])
                    ==> collapsed(t) == t
        },
        !(t is Branch) ==> collapsed(t) == t,
{
    if let Tree::Branch(c) = t {
        if c.len() == 8 {
            assert((forall|i: int| 0 <= i < 8 ==> #[trigger] c[i] is Empty) ==> uniform(c)) by {
                if forall|i: int| 0 <= i < 8 ==> #[trigger] c[i] is Empty {
                    assert(c[0] is Empty);
                    assert forall|i: int| 0 <= i < c.len() implies #[trigger] c[i] == c[0] by {
                        assert(c[i] is Empty);
                    }
                }
            }
            assert forall|i: int, j: int|
                0 <= i < 8 && 0 <= j < 8 && (#[trigger] c[i] is Branch || c[i] != #[trigger] c[j])
                    implies collapsed(t) == t by {
                if uniform(c) {
                    assert(c[i] == c[0] && c[j] == c[0]);
                }
            }
        }
    }
}

/// The points of a world are those below its side along each axis, which is two to
/// the power of its levels.
pub proof fn law_world_is_cube(world: Octree, x: nat, y: nat, z: nat)
    ensures
        world.contains(x, y, z) <==> x < pow2(world.levels()) && y < pow2(world.levels()) && z
            < pow2(world.levels()),
        world.wf() ==> 1 <= world.levels() <= 20,
{
}

/// There are eight octants.
pub proof fn lemma_octant_range(x: nat, y: nat, z: nat, level: nat)
    ensures
        octant_of(x, y, z, level) < 8,
{
}

proof fn lemma_same_voxel_split(
    level: nat,
    x: nat,
    y: nat,
    z: nat,
    x2: nat,
    y2: nat,
    z2: nat,
)
    requires
        level > 0,
    ensures
        same_voxel(level, x, y, z, x2, y2, z2) <==> octant_of(x, y, z, level) == octant_of(
            x2,
            y2,
            z2,
            level,
        ) && same_voxel((level - 1) as nat, x, y, z, x2, y2, z2),
        octant_of(x, y, z, level) < 8,
{
    lemma_low_bits_split(x, x2, level);
    lemma_low_bits_split(y, y2, level);
    lemma_low_bits_split(z, z2, level);
}

/// Only the low bits of a point matter to a node.
proof fn lemma_tree_at_same_voxel(
    t: Tree,
    level: nat,
    x: nat,
    y: nat,
    z: nat,
    x2: nat,
    y2: nat,
    z2: nat,
)
    requires
        same_voxel(level, x, y, z, x2, y2, z2),
    ensures
        tree_at(t, level, x, y, z) == tree_at(t, level, x2, y2, z2),
    decreases level,
{
    if t is Branch && level > 0 {
        lemma_same_voxel_split(level, x, y, z, x2, y2, z2);
        let c = t->Branch_0[octant_of(x, y, z, level) as int];
        lemma_tree_at_same_voxel(c, (level - 1) as nat, x, y, z, x2, y2, z2);
    }
}

/// A coordinate with the low bits of `x` below bit `l` and `b` as bit `l`.
spec fn with_bit(x: nat, l: nat, b: nat) -> nat {
    x % pow2(l) + b * pow2(l)
}

proof fn lemma_with_bit(x: nat, l: nat, b: nat)
    requires
        b < 2,
    ensures
        with_bit(x, l, b) % pow2(l) == x % pow2(l),
        (with_bit(x, l, b) / pow2(l)) % 2 == b,
{
    let p = pow2(l) as int;
    lemma_pow2_pos(l);
    let r = x as int % p;
    assert(0 <= r < p);
    lemma_fundamental_div_mod_converse(r + b * p, p, b as int, r);
}

/// Octant `i` has a point with the low bits of any other.
proof fn lemma_point_in_octant(
    level: nat,
    i: nat,
    x: nat,
    y: nat,
    z: nat,
) -> (q: (nat, nat, nat))
    requires
        level > 0,
        i < 8,
    ensures
        octant_of(q.0, q.1, q.2, level) == i,
        same_voxel((level - 1) as nat, x, y, z, q.0, q.1, q.2),
{
    let l = (level - 1) as nat;
    lemma_with_bit(x, l, i % 2);
    lemma_with_bit(y, l, (i / 2) % 2);
    lemma_with_bit(z, l, i / 4);
    (with_bit(x, l, i % 2), with_bit(y, l, (i / 2) % 2), with_bit(z, l, i / 4))
}

spec fn same_contents(a: Tree, b: Tree, level: nat) -> bool {
    forall|x: nat, y: nat, z: nat| #[trigger]
        tree_at(a, level, x, y, z) == tree_at(b, level, x, y, z)
}

proof fn lemma_canonical_unique(a: Tree, b: Tree, level: nat)
    requires
        canonical(a, level),
        canonical(b, level),
        same_contents(a, b, level),
    ensures
        a == b,
    decreases level,
{
    assert(tree_at(a, level, 0, 0, 0) == tree_at(b, level, 0, 0, 0));
    if a is Branch || b is Branch {
        assert forall|i: int| 0 <= i < 8 implies #[trigger] child_or_self(a, i) == child_or_self(
            b,
            i,
        ) by {
            let l = (level - 1) as nat;
            if a is Branch {
                lemma_canonical_child(a, level, i);
            }
            if b is Branch {
                lemma_canonical_child(b, level, i);
            }
            let (ca, cb) = (child_or_self(a, i), child_or_self(b, i));
            assert forall|x: nat, y: nat, z: nat| #[trigger]
                tree_at(ca, l, x, y, z) == tree_at(cb, l, x, y, z) by {
                let q = lemma_point_in_octant(level, i as nat, x, y, z);
                lemma_tree_at_same_voxel(ca, l, x, y, z, q.0, q.1, q.2);
                lemma_tree_at_same_voxel(cb, l, x, y, z, q.0, q.1, q.2);
                assert(tree_at(a, level, q.0, q.1, q.2) == tree_at(b, level, q.0, q.1, q.2));
            }
            lemma_canonical_unique(ca, cb, l);
        }
        assert(child_or_self(a, 0) == child_or_self(b, 0));
        if a is Branch && b is Branch {
            assert forall|i: int| 0 <= i < 8 implies a->Branch_0[i] == b->Branch_0[i] by {
                assert(child_or_self(a, i) == child_or_self(b, i));
            }
            assert(a->Branch_0 =~= b->Branch_0);
        } else if a is Branch {
            assert forall|i: int| 0 <= i < 8 implies #[trigger] a->Branch_0[i] == a->Branch_0[0] by {
                assert(child_or_self(a, i) == child_or_self(b, i));
            }
            assert(uniform(a->Branch_0));
        } else {
            assert forall|i: int| 0 <= i < 8 implies #[trigger] b->Branch_0[i] == b->Branch_0[0] by {
                assert(child_or_self(a, i) == child_or_self(b, i));
            }
            assert(uniform(b->Branch_0));
        }
    }
}

/// A branch's child, or the node itself where it is the same throughout.
spec fn child_or_self(t: Tree, i: int) -> Tree {
    match t {
        Tree::Branch(c) => c[i],
        _ => t,
    }
}

/// Two octrees of one depth that read the same at every point of the world
/// have the same shape, however they were filled.
pub proof fn law_contents_determine_shape(a: Octree, b: Octree)
    requires
        a.wf(),
        b.wf(),
        a.levels() == b.levels(),
        forall|x: nat, y: nat, z: nat| #[trigger]
            a.contains(x, y, z) ==> a.at(x, y, z) == b.at(x, y, z),
    ensures
        a.tree() == b.tree(),
{
    let l = a.levels();
    lemma_pow2_pos(l);
    assert forall|x: nat, y: nat, z: nat| #[trigger]
        tree_at(a.tree(), l, x, y, z) == tree_at(b.tree(), l, x, y, z) by {
        let (x2, y2, z2) = (x % pow2(l), y % pow2(l), z % pow2(l));
        lemma_small_mod(x2, pow2(l));
        lemma_small_mod(y2, pow2(l));
        lemma_small_mod(z2, pow2(l));
        assert(a.contains(x2, y2, z2));
        lemma_tree_at_same_voxel(a.tree(), l, x, y, z, x2, y2, z2);
        lemma_tree_at_same_voxel(b.tree(), l, x, y, z, x2, y2, z2);
    }
    lemma_canonical_unique(a.tree(), b.tree(), l);
}

/// A node of the octree during construction.
enum Node {
    Empty,
    Leaf(u32),
    Internal(Vec<Node>),
}

impl Node {
    spec fn tree(self) -> Tree
        decreases self,
    {
        match self {
            Node::Empty => Tree::Empty,
            Node::Leaf(v) => Tree::Leaf(v),
            Node::Internal(c) => Tree::Branch(
                Seq::new(
                    c@.len(),
                    |i: int|
                        if 0 <= i < c@.len() {
                            c@[i].tree()
                        } else {
                            Tree::Empty
                        },
                ),
            ),
        }
    }
}

proof fn lemma_children(node: Node)
    requires
        node is Internal,
    ensures
        node.tree() is Branch,
        node.tree()->Branch_0.len() == node->Internal_0@.len(),
        forall|j: int|
            #![trigger node.tree()->Branch_0[j]]
            #![trigger node->Internal_0@[j]]
            0 <= j < node->Internal_0@.len() ==> node.tree()->Branch_0[j]
                == node->Internal_0@[j].tree(),
{
}

/// Sparse voxel octree. Supports a world of `2^depth` units per axis.
///
/// Build it with `set` and `get`, then call `flatten` for a packed `Vec<u32>`
/// that can be uploaded.
pub struct Octree {
    root: Node,
    depth: u32,
}

impl Octree {
    /// The stored shape.
    pub closed spec fn tree(self) -> Tree {
        self.root.tree()
    }

    /// The world spans `2^levels` units per axis.
    pub closed spec fn levels(self) -> nat {
        self.depth as nat
    }

    /// The depth is in range and the tree is as small as it can be.
    pub open spec fn wf(self) -> bool {
        &&& 1 <= self.levels() <= 20
        &&& canonical(self.tree(), self.levels())
    }

    /// The voxel at a point of the world.
    pub open spec fn at(self, x: nat, y: nat, z: nat) -> Option<u32> {
        tree_at(self.tree(), self.levels(), x, y, z)
    }

    /// Whether a point lies in the world.
    pub open spec fn contains(self, x: nat, y: nat, z: nat) -> bool {
        x < pow2(self.levels()) && y < pow2(self.levels()) && z < pow2(self.levels())
    }

    fn octant(x: u32, y: u32, z: u32, level: u32) -> (oct: usize)
        requires
            1 <= level <= 32,
        ensures
            oct == octant_of(x as nat, y as nat, z as nat, level as nat),
            oct < 8,
    {
        let bit: u32 = level - 1;
        let ox: usize = ((x >> bit) & 1) as usize;
        let oy: usize = ((y >> bit) & 1) as usize;
        let oz: usize = ((z >> bit) & 1) as usize;
        proof {
            lemma_u32_shr_is_div(x, bit);
            lemma_u32_shr_is_div(y, bit);
            lemma_u32_shr_is_div(z, bit);
            let (sx, sy, sz) = (x >> bit, y >> bit, z >> bit);
            assert(sx & 1 == sx % 2 && sy & 1 == sy % 2 && sz & 1 == sz % 2) by (bit_vector);
            assert(ox | (oy << 1) | (oz << 2) == ox + 2 * oy + 4 * oz) by (bit_vector)
                requires
                    ox < 2,
                    oy < 2,
                    oz < 2,
            ;
        }
        ox | (oy << 1) | (oz << 2)
    }

    /// Create an empty octree. The world spans `[0, 2^depth)` on each axis.
    pub fn new(depth: u32) -> (tree: Self)
        requires
            1 <= depth <= 20,
        ensures
            tree.wf(),
            tree.levels() == depth,
            tree.tree() == Tree::Empty,
            forall|x: nat, y: nat, z: nat| tree.at(x, y, z) is None,
    {
        Self { root: Node::Empty, depth }
    }

    /// The world size along each axis.
    pub fn size(&self) -> (size: u32)
        requires
            self.wf(),
        ensures
            size == pow2(self.levels()),
            2 <= size <= 0x10_0000,
    {
        let depth: u32 = self.depth;
        proof {
            lemma_pow2_unfold(depth as nat);
            lemma_pow2_pos((depth - 1) as nat);
            lemma2_to64();
            lemma_pow2_monotone(depth as nat, 20);
            lemma_u32_shl_is_mul(1, depth);
        }
        1 << depth
    }

    /// The number of times the world can be halved along each axis.
    pub fn depth(&self) -> (depth: u32)
        ensures
            depth == self.levels(),
    {
        self.depth
    }

    /// Set a voxel at `(x, y, z)` to `value`. Value 0 is reserved for empty
    /// (setting to 0 effectively removes the voxel).
    pub fn set(&mut self, x: u32, y: u32, z: u32, value: u32)
        requires
            old(self).wf(),
            old(self).contains(x as nat, y as nat, z as nat),
        ensures
            final(self).wf(),
            final(self).levels() == old(self).levels(),
            forall|x2: nat, y2: nat, z2: nat| #[trigger]
                old(self).contains(x2, y2, z2) ==> final(self).at(x2, y2, z2) == (if (x2, y2, z2)
                    == (x as nat, y as nat, z as nat) {
                    stored(value)
                } else {
                    old(self).at(x2, y2, z2)
                }),
            value != 0 ==> final(self).at(x as nat, y as nat, z as nat) == Some(value),
            value == 0 ==> final(self).at(x as nat, y as nat, z as nat) is None,
    {
        let ghost before = *self;
        Self::set_recursive(&mut self.root, x, y, z, value, self.depth);
        proof {
            let l = before.levels();
            assert forall|x2: nat, y2: nat, z2: nat| #[trigger]
                before.contains(x2, y2, z2) implies self.at(x2, y2, z2) == (if (x2, y2, z2) == (
                x as nat,
                y as nat,
                z as nat,
            ) {
                stored(value)
            } else {
                before.at(x2, y2, z2)
            }) by {
                lemma_small_mod(x2, pow2(l));
                lemma_small_mod(y2, pow2(l));
                lemma_small_mod(z2, pow2(l));
                lemma_small_mod(x as nat, pow2(l));
                lemma_small_mod(y as nat, pow2(l));
                lemma_small_mod(z as nat, pow2(l));
                assert(same_voxel(l, x as nat, y as nat, z as nat, x2, y2, z2) <==> (x2, y2, z2)
                    == (x as nat, y as nat, z as nat));
            }
        }
    }

    /// Serialize the octree into a packed `Vec<u32>` for GPU consumption.
    ///
    /// The packed format uses one `u32` per node; see the `packed` module. A
    /// leaf keeps the low 31 bits of its value. Returns an empty vec if the
    /// octree is entirely empty.
    pub fn flatten(&self) -> (data: Vec<u32>)
        requires
            self.wf(),
        ensures
            data@ == flat(self.tree()),
    {
        let mut data: Vec<u32> = Vec::new();
        match &self.root {
            Node::Empty => {},
            Node::Leaf(v) => {
                data.push(Self::pack_leaf(*v));
            },
            Node::Internal(_) => {
                // Reserve slot 0 for root, then fill it.
                data.push(0);
                Self::flatten_internal(&self.root, 0, &mut data, Ghost(self.depth as nat));
            },
        }
        assert(data@ =~= flat(self.tree()));
        data
    }

    fn pack_leaf(value: u32) -> (word: u32)
        ensures
            word == leaf_word(value),
    {
        assert(0x8000_0000u32 | (value & !0x8000_0000u32) == 0x8000_0000u32 + value % 0x8000_0000)
            by (bit_vector);
        LEAF_BIT | (value & !LEAF_BIT)
    }

    fn mask_of(children: &Vec<Node>, Ghost(c): Ghost<Seq<Tree>>) -> (mask: u32)
        requires
            c.len() == 8,
            children@.len() == 8,
            forall|j: int| 0 <= j < 8 ==> c[j] == #[trigger] children@[j].tree(),
        ensures
            mask == child_mask(c, 8),
            mask < 256,
    {
        let mut mask: u32 = 0;
        let mut i: u32 = 0;
        proof {
            lemma2_to64();
        }
        while i < 8
            invariant
                i <= 8,
                c.len() == 8,
                children@.len() == 8,
                forall|j: int| 0 <= j < 8 ==> c[j] == #[trigger] children@[j].tree(),
                mask == child_mask(c, i as nat),
                mask < pow2(i as nat),
            decreases 8 - i,
        {
            proof {
                lemma_pow2_unfold((i + 1) as nat);
                lemma_pow2_monotone((i + 1) as nat, 8);
                lemma2_to64();
                lemma_u32_shl_is_mul(1, i);
                let b = 1u32 << i;
                assert(mask | b == mask + b) by (bit_vector)
                    requires
                        mask < b,
                        b == 1u32 << i,
                        i < 8,
                ;
                assert(c[i as int] == children@[i as int].tree());
            }
            if !matches!(children[i as usize], Node::Empty) {
                mask = mask | (1 << i);
            }
            i += 1;
        }
        proof {
            lemma2_to64();
        }
        mask
    }

    /// Write an internal node's header into `data[header_idx]` and append its
    /// children (and their subtrees) to `data`.
    fn flatten_internal(
        node: &Node,
        header_idx: usize,
        data: &mut Vec<u32>,
        Ghost(level): Ghost<nat>,
    )
        requires
            node is Internal,
            canonical(node.tree(), level),
            header_idx < old(data)@.len(),
        ensures
            final(data)@ == old(data)@.update(
                header_idx as int,
                node_word(node.tree()->Branch_0, old(data)@.len()),
            ) + block(node.tree()->Branch_0, old(data)@.len()),
        decreases level,
    {
        let ghost c = node.tree()->Branch_0;
        let ghost start = data@;
        proof {
            lemma_children(*node);
            lemma_canonical_child(node.tree(), level, 0);
        }
        if let Node::Internal(children) = node {
            let mask: u32 = Self::mask_of(children, Ghost(c));
            let count: u32 = mask.count_ones();
            proof {
                lemma_mask_count(c, 8);
            }
            // Reserve contiguous slots for child entries.
            let first_child: usize = data.len();
            let mut k: u32 = 0;
            while k < count
                invariant
                    k <= count,
                    data@ == start + Seq::new(k as nat, |j: int| 0u32),
                decreases count - k,
            {
                data.push(0);
                k += 1;
                assert(data@ =~= start + Seq::new(k as nat, |j: int| 0u32));
            }
            // Write this node's header.
            let word: u32 = (mask << CHILD_MASK_SHIFT) | (#[verifier::truncate] (first_child as u32)
                & CHILD_PTR_MASK);
            proof {
                assert(word == mask * 0x80_0000 + first_child % 0x80_0000) by (bit_vector)
                    requires
                        mask < 256,
                        word == (mask << 23u32) | (first_child as u32 & 0x007F_FFFFu32),
                ;
                assert(word == node_word(c, first_child as nat));
            }
            data[header_idx] = word;
            let ghost pre = start.update(header_idx as int, word);
            let ghost next = (first_child + count) as nat;
            // Fill each child slot.
            let mut slot: usize = 0;
            let mut i: usize = 0;
            assert(data@ =~= pre + heads(c, 0, next) + Seq::new(count as nat, |j: int| 0u32)
                + tails(c, 0, next));
            while i < 8
                invariant
                    i <= 8,
                    level > 0,
                    c.len() == 8,
                    children@.len() == 8,
                    forall|j: int| 0 <= j < 8 ==> c[j] == #[trigger] children@[j].tree(),
                    forall|j: int| 0 <= j < 8 ==> canonical(#[trigger] c[j], (level - 1) as nat),
                    count == present(c, 8),
                    slot == present(c, i as nat),
                    pre.len() == first_child,
                    next == first_child + count,
                    data@ == pre + heads(c, i as nat, next) + Seq::new(
                        (count - slot) as nat,
                        |j: int| 0u32,
                    ) + tails(c, i as nat, next),
                decreases 8 - i,
            {
                let ghost now = data@;
                assert(data.len() == now.len());
                let ghost h = heads(c, i as nat, next);
                let ghost t = tails(c, i as nat, next);
                proof {
                    lemma_heads_len(c, i as nat, next);
                    lemma_tails_len(c, i as nat, next);
                    lemma_present_monotone(c, (i + 1) as nat, 8);
                    assert(c[i as int] == children@[i as int].tree());
                }
                match &children[i] {
                    Node::Empty => {},
                    Node::Leaf(v) => {
                        data[first_child + slot] = Self::pack_leaf(*v);
                        slot += 1;
                        assert(data@ =~= pre + h.push(leaf_word(*v)) + Seq::new(
                            (count - slot) as nat,
                            |j: int| 0u32,
                        ) + t);
                    },
                    Node::Internal(_) => {
                        Self::flatten_internal(
                            &children[i],
                            first_child + slot,
                            data,
                            Ghost((level - 1) as nat),
                        );
                        slot += 1;
                        proof {
                            let kids = c[i as int]->Branch_0;
                            let at = next + weights(c, i as nat);
                            assert(now.len() == at);
                            assert(data@ =~= pre + h.push(node_word(kids, at)) + Seq::new(
                                (count - slot) as nat,
                                |j: int| 0u32,
                            ) + (t + block(kids, at)));
                        }
                    },
                }
                i += 1;
            }
            assert(data@ =~= pre + block(c, first_child as nat));
        }
    }

    /// Get the voxel value at `(x, y, z)`, or `None` if empty.
    pub fn get(&self, x: u32, y: u32, z: u32) -> (value: Option<u32>)
        requires
            self.wf(),
            self.contains(x as nat, y as nat, z as nat),
        ensures
            value == self.at(x as nat, y as nat, z as nat),
    {
        Self::get_recursive(&self.root, x, y, z, self.depth)
    }

    fn set_recursive(node: &mut Node, x: u32, y: u32, z: u32, value: u32, level: u32)
        requires
            level <= 20,
            canonical(old(node).tree(), level as nat),
        ensures
            canonical(final(node).tree(), level as nat),
            forall|x2: nat, y2: nat, z2: nat|
                #[trigger] tree_at(final(node).tree(), level as nat, x2, y2, z2) == (if same_voxel(
                    level as nat,
                    x as nat,
                    y as nat,
                    z as nat,
                    x2,
                    y2,
                    z2,
                ) {
                    stored(value)
                } else {
                    tree_at(old(node).tree(), level as nat, x2, y2, z2)
                }),
            value != 0 ==> tree_at(
                final(node).tree(),
                level as nat,
                x as nat,
                y as nat,
                z as nat,
            ) == Some(value),
            value == 0 ==> tree_at(
                final(node).tree(),
                level as nat,
                x as nat,
                y as nat,
                z as nat,
            ) is None,
        decreases level,
    {
        let ghost before = node.tree();
        if level == 0 {
            if value == 0 {
                *node = Node::Empty;
            } else {
                *node = Node::Leaf(value);
            }
            proof {
                lemma2_to64();
            }
            return;
        }
        // Ensure this is an internal node
        let fill: Option<Option<u32>> = match &*node {
            Node::Empty => Some(None),
            Node::Leaf(v) => Some(Some(*v)),
            Node::Internal(_) => None,
        };
        if let Some(first) = fill {
            let mut children: Vec<Node> = Vec::new();
            let mut i: usize = 0;
            while i < 8
                invariant
                    i <= 8,
                    children@.len() == i,
                    forall|j: int|
                        0 <= j < i ==> #[trigger] children@[j].tree() == (match first {
                            None => Tree::Empty,
                            Some(v) => Tree::Leaf(v),
                        }),
                decreases 8 - i,
            {
                children.push(
                    match first {
                        None => Node::Empty,
                        Some(v) => Node::Leaf(v),
                    },
                );
                i += 1;
            }
            *node = Node::Internal(children);
        }
        let ghost split = node.tree();
        proof {
            lemma_children(*node);
        }
        assert(split is Branch && split->Branch_0.len() == 8);
        assert forall|j: int| 0 <= j < 8 implies canonical(#[trigger] split->Branch_0[j], (level - 1) as nat) by {
            if before is Branch {
                lemma_canonical_child(before, level as nat, j);
            }
        }
        let oct: usize = Self::octant(x, y, z, level);
        if let Node::Internal(children) = node {
            Self::set_recursive(&mut children[oct], x, y, z, value, level - 1);
        }
        proof {
            lemma_children(*node);
        }
        let ghost changed = node.tree();
        Self::try_collapse(node);
        proof {
            let l = level as nat;
            let m = (level - 1) as nat;
            let b = split->Branch_0;
            let c = changed->Branch_0;
            assert forall|x2: nat, y2: nat, z2: nat|
                #[trigger] tree_at(node.tree(), l, x2, y2, z2) == (if same_voxel(
                    l,
                    x as nat,
                    y as nat,
                    z as nat,
                    x2,
                    y2,
                    z2,
                ) {
                    stored(value)
                } else {
                    tree_at(before, l, x2, y2, z2)
                }) by {
                lemma_same_voxel_split(l, x as nat, y as nat, z as nat, x2, y2, z2);
                lemma_same_voxel_split(l, x2, y2, z2, x2, y2, z2);
                let o = octant_of(x2, y2, z2, l) as int;
                assert(tree_at(split, l, x2, y2, z2) == tree_at(b[o], m, x2, y2, z2));
                assert(tree_at(split, l, x2, y2, z2) == tree_at(before, l, x2, y2, z2));
                assert(tree_at(changed, l, x2, y2, z2) == tree_at(c[o], m, x2, y2, z2));
                if uniform(c) {
                    assert(c[o] == c[0]);
                }
            }
        }
    }

    fn get_recursive(node: &Node, x: u32, y: u32, z: u32, level: u32) -> (value: Option<u32>)
        requires
            level <= 20,
            canonical(node.tree(), level as nat),
        ensures
            value == tree_at(node.tree(), level as nat, x as nat, y as nat, z as nat),
        decreases level,
    {
        match node {
            Node::Empty => None,
            Node::Leaf(v) => Some(*v),
            Node::Internal(children) => {
                proof {
                    lemma_children(*node);
                    lemma_canonical_child(node.tree(), level as nat, 0);
                }
                let oct: usize = Self::octant(x, y, z, level);
                proof {
                    lemma_canonical_child(node.tree(), level as nat, oct as int);
                }
                Self::get_recursive(&children[oct], x, y, z, level - 1)
            },
        }
    }

    /// Make a node whose eight children are all empty, or all leaves of one value,
    /// that one node. Any other node stays as it is.
    fn try_collapse(node: &mut Node)
        ensures
            final(node).tree() == collapsed(old(node).tree()),
            forall|level: nat, x: nat, y: nat, z: nat|
                level >= 1 ==> #[trigger] tree_at(final(node).tree(), level, x, y, z) == tree_at(
                    old(node).tree(),
                    level,
                    x,
                    y,
                    z,
                ),
    {
        proof {
            lemma_collapsed_reads_same(node.tree());
        }
        let ghost c = node.tree()->Branch_0;
        let mut first: Option<u32> = None;
        if let Node::Internal(children) = &*node {
            proof {
                lemma_children(*node);
            }
            if children.len() != 8 {
                return;
            }
            first = match &children[0] {
                Node::Empty => None,
                Node::Leaf(v) => Some(*v),
                Node::Internal(_) => {
                    assert(children@[0].tree() is Branch);
                    return;
                },
            };
            assert(children@[0].tree() == c[0]);
            let mut i: usize = 1;
            while i < children.len()
                invariant
                    1 <= i <= children.len() == 8,
                    children@.len() == c.len(),
                    forall|j: int| 0 <= j < 8 ==> c[j] == #[trigger] children@[j].tree(),
                    c[0] == (match first {
                        None => Tree::Empty,
                        Some(v) => Tree::Leaf(v),
                    }),
                    forall|j: int| 0 <= j < i ==> #[trigger] c[j] == c[0],
                    node.tree() == Tree::Branch(c),
                    *node == *old(node),
                decreases children.len() - i,
            {
                let this: Option<u32> = match &children[i] {
                    Node::Empty => None,
                    Node::Leaf(v) => Some(*v),
                    Node::Internal(_) => {
                        assert(children@[i as int].tree() is Branch);
                        return;
                    },
                };
                if this != first {
                    assert(children@[i as int].tree() != c[0]);
                    return;
                }
                i += 1;
            }
        } else {
            return;
        }
        assert(uniform(c));
        *node = match first {
            None => Node::Empty,
            Some(v) => Node::Leaf(v),
        };
    }
}

} // verus!
