//! The path of a ray through a packed 64-tree.
//!
//! The ray's position is tracked as the integer coordinate of the voxel it is
//! in. Because a level's cell size is a power of four, the cell the ray occupies
//! at any level is a two bit slice of that coordinate, and the node containing it
//! is the bits above that. Stepping across a cell boundary changes the coordinate
//! along one axis; XORing it with the previous value says exactly which levels
//! the ray has left, and the node for the level it lands in is recovered from a
//! per-level stack of node indices.
//!
//! The caller owns the ray. It asks `probe` what is at the current position and
//! then either stops at the voxel, goes into the cell with `descend`, or works
//! out through which face the ray leaves the empty cell and calls `step`.

use vstd::arithmetic::div_mod::{
    lemma_div_denominator, lemma_fundamental_div_mod, lemma_fundamental_div_mod_converse,
    lemma_mod_bound, lemma_mod_multiples_basic,
};
use vstd::arithmetic::power2::{lemma2_to64, lemma_pow2_adds, lemma_pow2_pos, pow2};
use vstd::bits::{lemma_u32_low_bits_mask_is_mod, lemma_u32_shl_is_mul, lemma_u32_shr_is_div};
use vstd::prelude::*;
use vstd::std_specs::bits::axiom_u32_leading_zeros;

use crate::bits::{bit_at, law_count_below_by_bits, lemma_pow2_monotone, popcount};
use crate::traverse::VoxelHit;
use crate::tree64::{
    data_byte, mask64, mask_test, node_is_leaf, node_mask, node_ptr, popcount_below, read_data_u8,
    read_node, xyz_to_bit,
};

verus! {

/// Most levels a tree64 can have and still be traversed. 4^8 voxels per axis.
pub const MAX_LEVELS: usize = 8;

/// Steps a single ray may take before it is declared a miss. A guard against
/// a degenerate ray looping, not a budget a real one gets close to.
pub const MAX_STEPS: u32 = 1024;

/// A voxel of the world.
pub struct Point {
    pub x: nat,
    pub y: nat,
    pub z: nat,
}

/// The side of a cell that is `n` levels above a voxel.
pub open spec fn side(n: nat) -> nat {
    pow2(2 * n)
}

/// The bit that stands for the cell of side `side(n)` which holds a point.
pub open spec fn cell_bit(p: Point, n: nat) -> nat {
    (p.x / side(n)) % 4 + 4 * ((p.y / side(n)) % 4) + 16 * ((p.z / side(n)) % 4)
}

/// Whether two points share a cell of side `side(n)`.
pub open spec fn same_cell(p: Point, q: Point, n: nat) -> bool {
    &&& p.x / side(n) == q.x / side(n)
    &&& p.y / side(n) == q.y / side(n)
    &&& p.z / side(n) == q.z / side(n)
}

/// The index of a node's cell: among the nodes, or in the data for a leaf.
pub open spec fn cell_index(nodes: Seq<u32>, i: nat, bit: nat) -> nat {
    node_ptr(nodes, i) + popcount(node_mask(nodes, i) % pow2(bit))
}

/// The value at a point of the node at index `i`, which spans `n` levels.
pub open spec fn voxel_at(nodes: Seq<u32>, data: Seq<u32>, i: nat, n: nat, p: Point) -> Option<nat>
    decreases n,
{
    if n == 0 {
        None
    } else {
        let below = (n - 1) as nat;
        let bit = cell_bit(p, below);
        if !bit_at(node_mask(nodes, i), bit) {
            None
        } else if node_is_leaf(nodes, i) {
            Some(data_byte(data, cell_index(nodes, i, bit)))
        } else {
            voxel_at(nodes, data, cell_index(nodes, i, bit), below, p)
        }
    }
}

/// Whether a node and everything below it lies inside the buffers and within
/// `n` levels.
pub open spec fn tree_ok(nodes: Seq<u32>, data: Seq<u32>, i: nat, n: nat) -> bool
    decreases n,
{
    &&& n > 0
    &&& 3 * i + 2 < nodes.len()
    &&& forall|bit: nat|
        #![trigger cell_index(nodes, i, bit)]
        bit < 64 && bit_at(node_mask(nodes, i), bit) ==> if node_is_leaf(nodes, i) {
            cell_index(nodes, i, bit) / 4 < data.len()
        } else {
            tree_ok(nodes, data, cell_index(nodes, i, bit), (n - 1) as nat)
        }
}

/// Check that a tree lies inside its buffers and within its levels, so that a
/// walk over it can never read outside them.
pub fn tree_fits(nodes: &[u32], data: &[u32], index: u32, levels: u32) -> (fits: bool)
    ensures
        fits == tree_ok(nodes@, data@, index as nat, levels as nat),
    decreases levels,
{
    if levels == 0 || 3 * (index as u64) + 2 >= nodes.len() as u64 {
        return false;
    }
    let (is_leaf, ptr, mask_lo, mask_hi) = read_node(nodes, index);
    let mut bit: u32 = 0;
    while bit < 64
        invariant
            bit <= 64,
            levels > 0,
            3 * index + 2 < nodes@.len(),
            is_leaf == node_is_leaf(nodes@, index as nat),
            ptr == node_ptr(nodes@, index as nat),
            ptr <= 0x7FFF_FFFF,
            mask64(mask_lo, mask_hi) == node_mask(nodes@, index as nat),
            forall|b: nat|
                #![trigger cell_index(nodes@, index as nat, b)]
                b < bit && bit_at(node_mask(nodes@, index as nat), b) ==> if is_leaf {
                    cell_index(nodes@, index as nat, b) / 4 < data@.len()
                } else {
                    tree_ok(
                        nodes@,
                        data@,
                        cell_index(nodes@, index as nat, b),
                        (levels - 1) as nat,
                    )
                },
        decreases 64 - bit,
    {
        if mask_test(mask_lo, mask_hi, bit) {
            let cell: u32 = ptr + popcount_below(mask_lo, mask_hi, bit);
            assert(cell == cell_index(nodes@, index as nat, bit as nat));
            if is_leaf {
                if cell as usize / 4 >= data.len() {
                    return false;
                }
            } else if !tree_fits(nodes, data, cell, levels - 1) {
                return false;
            }
        }
        bit += 1;
    }
    true
}

/// The node that holds a point, `l` levels below the root of a tree of `levels`.
pub open spec fn node_on_path(nodes: Seq<u32>, root: nat, levels: nat, l: nat, p: Point) -> nat
    decreases l,
{
    if l == 0 {
        root
    } else {
        cell_index(
            nodes,
            node_on_path(nodes, root, levels, (l - 1) as nat, p),
            cell_bit(p, (levels - l) as nat),
        )
    }
}

/// Whether the tree has nodes down to `l` levels below the root at a point.
pub open spec fn path_open(nodes: Seq<u32>, root: nat, levels: nat, l: nat, p: Point) -> bool
    decreases l,
{
    l == 0 || {
        let i = node_on_path(nodes, root, levels, (l - 1) as nat, p);
        &&& path_open(nodes, root, levels, (l - 1) as nat, p)
        &&& !node_is_leaf(nodes, i)
        &&& bit_at(node_mask(nodes, i), cell_bit(p, (levels - l) as nat))
    }
}

proof fn lemma_tree_ok_child(nodes: Seq<u32>, data: Seq<u32>, i: nat, n: nat, bit: nat)
    requires
        tree_ok(nodes, data, i, n),
        bit < 64,
        bit_at(node_mask(nodes, i), bit),
    ensures
        node_is_leaf(nodes, i) ==> cell_index(nodes, i, bit) / 4 < data.len(),
        !node_is_leaf(nodes, i) ==> tree_ok(
            nodes,
            data,
            cell_index(nodes, i, bit),
            (n - 1) as nat,
        ),
{
    let c = cell_index(nodes, i, bit);
}

proof fn lemma_cell_bit_range(p: Point, n: nat)
    ensures
        cell_bit(p, n) < 64,
{
}

/// Along an open path the tree reads as the node at its end does.
proof fn lemma_path(
    nodes: Seq<u32>,
    data: Seq<u32>,
    root: nat,
    levels: nat,
    l: nat,
    p: Point,
)
    requires
        tree_ok(nodes, data, root, levels),
        path_open(nodes, root, levels, l, p),
        l <= levels,
    ensures
        l < levels,
        tree_ok(nodes, data, node_on_path(nodes, root, levels, l, p), (levels - l) as nat),
        voxel_at(nodes, data, root, levels, p) == voxel_at(
            nodes,
            data,
            node_on_path(nodes, root, levels, l, p),
            (levels - l) as nat,
            p,
        ),
    decreases l,
{
    if l > 0 {
        let k = (l - 1) as nat;
        lemma_path(nodes, data, root, levels, k, p);
        let i = node_on_path(nodes, root, levels, k, p);
        let bit = cell_bit(p, (levels - l) as nat);
        lemma_cell_bit_range(p, (levels - l) as nat);
        lemma_tree_ok_child(nodes, data, i, (levels - k) as nat, bit);
        assert(((levels - k) - 1) as nat == (levels - l) as nat);
    }
}

/// Cells nest: points that share a small cell share the larger ones.
proof fn lemma_same_cell_up(p: Point, q: Point, n: nat, m: nat)
    requires
        n <= m,
        same_cell(p, q, n),
    ensures
        same_cell(p, q, m),
{
    let k = (2 * (m - n)) as nat;
    lemma_pow2_adds(2 * n, k);
    lemma_pow2_pos(2 * n);
    lemma_pow2_pos(k);
    let (a, b) = (pow2(2 * n) as int, pow2(k) as int);
    lemma_div_denominator(p.x as int, a, b);
    lemma_div_denominator(p.y as int, a, b);
    lemma_div_denominator(p.z as int, a, b);
    lemma_div_denominator(q.x as int, a, b);
    lemma_div_denominator(q.y as int, a, b);
    lemma_div_denominator(q.z as int, a, b);
}

/// The path down to a level depends only on the cell of that level.
proof fn lemma_path_same_cell(
    nodes: Seq<u32>,
    root: nat,
    levels: nat,
    l: nat,
    p: Point,
    q: Point,
)
    requires
        l <= levels,
        same_cell(p, q, (levels - l) as nat),
    ensures
        node_on_path(nodes, root, levels, l, p) == node_on_path(nodes, root, levels, l, q),
        path_open(nodes, root, levels, l, p) == path_open(nodes, root, levels, l, q),
    decreases l,
{
    if l > 0 {
        lemma_same_cell_up(p, q, (levels - l) as nat, (levels - l + 1) as nat);
        lemma_path_same_cell(nodes, root, levels, (l - 1) as nat, p, q);
    }
}

/// A cube of voxels: its lowest corner and its side.
#[derive(Clone, Copy, Debug, PartialEq, Eq, Structural)]
pub struct GridCell {
    pub x: u32,
    pub y: u32,
    pub z: u32,
    pub side: u32,
}

impl GridCell {
    /// Whether this is the cell of side `side(n)` that holds a point.
    pub open spec fn is_cell_of(self, p: Point, n: nat) -> bool {
        &&& self.side == side(n)
        &&& self.x == p.x - p.x % side(n)
        &&& self.y == p.y - p.y % side(n)
        &&& self.z == p.z - p.z % side(n)
    }
}

/// What is at the current position.
#[derive(Clone, Copy, Debug, PartialEq, Eq)]
pub enum Probe {
    /// A voxel.
    Hit(VoxelHit),
    /// A cell with something in it.
    Node(GridCell),
    /// A cell with nothing in it.
    Empty(GridCell),
    /// The ray has taken as many steps as it may.
    Exhausted,
}

/// The nearest value to `v` that is at least `lo` and at most `hi`.
pub open spec fn clamped(v: int, lo: int, hi: int) -> int {
    if v < lo {
        lo
    } else if v > hi {
        hi
    } else {
        v
    }
}

fn clamp_to(v: i32, lo: u32, hi: u32) -> (c: u32)
    requires
        lo <= hi <= 0x7FFF_FFFF,
    ensures
        c == clamped(v as int, lo as int, hi as int),
{
    if v < lo as i32 {
        lo
    } else if v > hi as i32 {
        hi
    } else {
        v as u32
    }
}

/// The coordinate of a cell's lowest corner.
fn floor_to(x: u32, shift: u32) -> (low: u32)
    requires
        shift < 32,
    ensures
        low == x - x as nat % pow2(shift as nat),
        low as nat % pow2(shift as nat) == 0,
{
    proof {
        lemma_pow2_monotone(shift as nat, 31);
        lemma2_to64();
        lemma_u32_shl_is_mul(1, shift);
        lemma_u32_low_bits_mask_is_mod(x, shift as nat);
        let m = ((1u32 << shift) - 1) as u32;
        assert(x & !m == x - (x & m)) by (bit_vector);
        let (d, p) = (x as int / pow2(shift as nat) as int, pow2(shift as nat) as int);
        lemma_fundamental_div_mod(x as int, p);
        lemma_mod_multiples_basic(d, p);
        assert(d * p == p * d) by (nonlinear_arith);
    }
    x & !((1u32 << shift) - 1)
}

/// The two bits of a coordinate that pick a cell.
fn digit(x: u32, shift: u32) -> (d: u32)
    requires
        shift < 32,
    ensures
        d == (x as nat / pow2(shift as nat)) % 4,
        d < 4,
{
    proof {
        lemma_u32_shr_is_div(x, shift);
        let s = x >> shift;
        assert(s & 3 == s % 4) by (bit_vector);
    }
    (x >> shift) & 3
}

/// A ray's place in a packed 64-tree.
pub struct Tree64Walk {
    levels: u32,
    root: u32,
    x: u32,
    y: u32,
    z: u32,
    level: u32,
    node_index: u32,
    /// The node at every level above the current one.
    stack: [u32; 8],
    steps: u32,
}

impl Tree64Walk {
    /// Levels of the tree. The world is `4^levels` voxels per axis.
    pub closed spec fn levels(self) -> nat {
        self.levels as nat
    }

    /// The index of the root node.
    pub closed spec fn root(self) -> nat {
        self.root as nat
    }

    /// The voxel the ray is in.
    pub closed spec fn point(self) -> Point {
        Point { x: self.x as nat, y: self.y as nat, z: self.z as nat }
    }

    /// How far below the root the walk is.
    pub closed spec fn level(self) -> nat {
        self.level as nat
    }

    /// Steps taken so far.
    pub closed spec fn steps(self) -> nat {
        self.steps as nat
    }

    /// The cells of the current node are this many levels above a voxel.
    pub open spec fn cell_level(self) -> nat {
        (self.levels() - 1 - self.level()) as nat
    }

    /// The node the walk is in.
    pub open spec fn node(self, nodes: Seq<u32>) -> nat {
        node_on_path(nodes, self.root(), self.levels(), self.level(), self.point())
    }

    /// The value at a voxel of the tree being walked.
    pub open spec fn voxel(self, nodes: Seq<u32>, data: Seq<u32>, p: Point) -> Option<nat> {
        voxel_at(nodes, data, self.root(), self.levels(), p)
    }

    /// Whether a voxel lies in the world.
    pub open spec fn in_world(self, p: Point) -> bool {
        p.x < side(self.levels()) && p.y < side(self.levels()) && p.z < side(self.levels())
    }

    /// Whether two walks are in the same place of the same tree.
    pub open spec fn same_place(self, other: Self) -> bool {
        &&& self.levels() == other.levels()
        &&& self.root() == other.root()
        &&& self.point() == other.point()
        &&& self.level() == other.level()
    }

    /// The walk is inside the world, and the nodes it remembers are the ones
    /// that hold its position.
    pub closed spec fn wf(self, nodes: Seq<u32>, data: Seq<u32>) -> bool {
        &&& 1 <= self.levels <= 8
        &&& self.level < self.levels
        &&& self.in_world(self.point())
        &&& tree_ok(nodes, data, self.root as nat, self.levels as nat)
        &&& path_open(nodes, self.root(), self.levels(), self.level(), self.point())
        &&& self.node_index == self.node(nodes)
        &&& forall|l: int|
            0 <= l < self.level ==> #[trigger] self.stack[l] == node_on_path(
                nodes,
                self.root(),
                self.levels(),
                l as nat,
                self.point(),
            )
    }

    /// Begin at the voxel nearest to the given coordinates. Nothing can be traced
    /// in an empty tree, or in one with no levels or more than `MAX_LEVELS`.
    pub fn start(
        nodes: &[u32],
        data: &[u32],
        num_levels: u32,
        root_index: u32,
        px: i32,
        py: i32,
        pz: i32,
    ) -> (walk: Option<Self>)
        requires
            nodes@.len() > 0 && 1 <= num_levels <= MAX_LEVELS ==> tree_ok(
                nodes@,
                data@,
                root_index as nat,
                num_levels as nat,
            ),
        ensures
            walk is Some <==> nodes@.len() > 0 && 1 <= num_levels <= MAX_LEVELS,
            walk is Some <==> nodes@.len() > 0 && 1 <= num_levels <= 8,
            walk matches Some(w) ==> {
                let top = side(num_levels as nat) - 1;
                &&& w.wf(nodes@, data@)
                &&& w.levels() == num_levels
                &&& w.root() == root_index
                &&& w.level() == 0
                &&& w.steps() == 0
                &&& w.point().x == clamped(px as int, 0, top)
                &&& w.point().y == clamped(py as int, 0, top)
                &&& w.point().z == clamped(pz as int, 0, top)
            },
    {
        if nodes.len() == 0 || num_levels == 0 || num_levels as usize > MAX_LEVELS {
            return None;
        }
        let world_bits: u32 = 2 * num_levels;
        proof {
            lemma_pow2_monotone(world_bits as nat, 16);
            lemma2_to64();
            lemma_u32_shl_is_mul(1, world_bits);
        }
        let world_max: u32 = (1u32 << world_bits) - 1;
        Some(
            Tree64Walk {
                levels: num_levels,
                root: root_index,
                x: clamp_to(px, 0, world_max),
                y: clamp_to(py, 0, world_max),
                z: clamp_to(pz, 0, world_max),
                level: 0,
                node_index: root_index,
                stack: [0, 0, 0, 0, 0, 0, 0, 0],
                steps: 0,
            },
        )
    }

    fn shift(&self) -> (shift: u32)
        requires
            1 <= self.levels <= 8,
            self.level < self.levels,
        ensures
            shift == 2 * self.cell_level(),
            shift < 16,
            pow2(shift as nat) == side(self.cell_level()),
            side(self.cell_level()) <= 0x4000,
    {
        let shift: u32 = 2 * (self.levels - 1 - self.level);
        proof {
            lemma_pow2_monotone(shift as nat, 14);
            lemma2_to64();
        }
        shift
    }

    fn cell(&self) -> (cell: GridCell)
        requires
            1 <= self.levels <= 8,
            self.level < self.levels,
        ensures
            cell.is_cell_of(self.point(), self.cell_level()),
    {
        let shift: u32 = self.shift();
        proof {
            lemma_u32_shl_is_mul(1, shift);
        }
        GridCell {
            x: floor_to(self.x, shift),
            y: floor_to(self.y, shift),
            z: floor_to(self.z, shift),
            side: 1u32 << shift,
        }
    }

    /// Look at the current position, and count a step.
    pub fn probe(&mut self, nodes: &[u32], data: &[u32]) -> (probe: Probe)
        requires
            old(self).wf(nodes@, data@),
        ensures
            final(self).wf(nodes@, data@),
            final(self).same_place(*old(self)),
            final(self).steps() == (if probe is Exhausted {
                old(self).steps()
            } else {
                old(self).steps() + 1
            }),
            probe is Exhausted <==> old(self).steps() >= MAX_STEPS,
            probe is Exhausted <==> old(self).steps() >= 1024,
            ({
                let w = *old(self);
                let i = w.node(nodes@);
                let n = w.cell_level();
                let there = bit_at(node_mask(nodes@, i), cell_bit(w.point(), n));
                match probe {
                    Probe::Hit(hit) => {
                        &&& there && node_is_leaf(nodes@, i)
                        &&& hit.pos[0] == w.point().x
                        &&& hit.pos[1] == w.point().y
                        &&& hit.pos[2] == w.point().z
                        &&& w.voxel(nodes@, data@, w.point()) == Some(hit.value as nat)
                    },
                    Probe::Node(cell) => {
                        &&& there && !node_is_leaf(nodes@, i)
                        &&& cell.is_cell_of(w.point(), n)
                    },
                    Probe::Empty(cell) => {
                        &&& !there
                        &&& cell.is_cell_of(w.point(), n)
                        &&& forall|p: Point| #[trigger]
                            same_cell(p, w.point(), n) ==> w.voxel(nodes@, data@, p) is None
                    },
                    Probe::Exhausted => true,
                }
            }),
    {
        if self.steps >= MAX_STEPS {
            return Probe::Exhausted;
        }
        self.steps += 1;
        let ghost w = *self;
        let ghost n = w.cell_level();
        let ghost i = w.node(nodes@);
        proof {
            lemma_path(nodes@, data@, w.root(), w.levels(), w.level(), w.point());
            lemma_cell_bit_range(w.point(), n);
        }
        // Cell of the current node that the ray is in
        let shift: u32 = self.shift();
        let bit: u32 = xyz_to_bit(digit(self.x, shift), digit(self.y, shift), digit(self.z, shift));
        let (is_leaf, ptr, mask_lo, mask_hi) = read_node(nodes, self.node_index);
        let cell: GridCell = self.cell();
        if mask_test(mask_lo, mask_hi, bit) {
            if is_leaf {
                let sparse_index: u32 = popcount_below(mask_lo, mask_hi, bit);
                proof {
                    lemma_tree_ok_child(nodes@, data@, i, n + 1, bit as nat);
                }
                let value: u32 = read_data_u8(data, ptr + sparse_index);
                return Probe::Hit(VoxelHit { pos: [self.x, self.y, self.z], value });
            }
            return Probe::Node(cell);
        }
        proof {
            assert forall|p: Point| #[trigger] same_cell(p, w.point(), n) implies w.voxel(
                nodes@,
                data@,
                p,
            ) is None by {
                lemma_same_cell_up(p, w.point(), n, n + 1);
                lemma_path_same_cell(nodes@, w.root(), w.levels(), w.level(), p, w.point());
                lemma_path(nodes@, data@, w.root(), w.levels(), w.level(), p);
            }
        }
        Probe::Empty(cell)
    }

    /// Go into the cell at the current position, to the voxel of it that is
    /// nearest to the given coordinates.
    pub fn descend(&mut self, nodes: &[u32], data: &[u32], px: i32, py: i32, pz: i32)
        requires
            old(self).wf(nodes@, data@),
            !node_is_leaf(nodes@, old(self).node(nodes@)),
            bit_at(
                node_mask(nodes@, old(self).node(nodes@)),
                cell_bit(old(self).point(), old(self).cell_level()),
            ),
        ensures
            final(self).wf(nodes@, data@),
            final(self).levels() == old(self).levels(),
            final(self).root() == old(self).root(),
            final(self).steps() == old(self).steps(),
            final(self).level() == old(self).level() + 1,
            same_cell(final(self).point(), old(self).point(), old(self).cell_level()),
            ({
                let s = side(old(self).cell_level()) as int;
                let p = old(self).point();
                let q = final(self).point();
                &&& q.x == clamped(px as int, p.x - p.x as int % s, p.x - p.x as int % s + s - 1)
                &&& q.y == clamped(py as int, p.y - p.y as int % s, p.y - p.y as int % s + s - 1)
                &&& q.z == clamped(pz as int, p.z - p.z as int % s, p.z - p.z as int % s + s - 1)
            }),
    {
        let ghost w = *self;
        let ghost n = w.cell_level();
        let shift: u32 = self.shift();
        let (is_leaf, ptr, mask_lo, mask_hi) = {
            proof {
                lemma_path(nodes@, data@, w.root(), w.levels(), w.level(), w.point());
                lemma_cell_bit_range(w.point(), n);
                lemma_tree_ok_child(
                    nodes@,
                    data@,
                    w.node(nodes@),
                    n + 1,
                    cell_bit(w.point(), n),
                );
            }
            read_node(nodes, self.node_index)
        };
        let bit: u32 = xyz_to_bit(digit(self.x, shift), digit(self.y, shift), digit(self.z, shift));
        let sparse_index: u32 = popcount_below(mask_lo, mask_hi, bit);
        let cell: GridCell = self.cell();
        proof {
            lemma_pow2_pos(2 * n);
        }
        let last: u32 = cell.side - 1;
        proof {
            lemma_world_coord(w.x, n, w.levels());
            lemma_world_coord(w.y, n, w.levels());
            lemma_world_coord(w.z, n, w.levels());
        }
        let x: u32 = clamp_to(px, cell.x, cell.x + last);
        let y: u32 = clamp_to(py, cell.y, cell.y + last);
        let z: u32 = clamp_to(pz, cell.z, cell.z + last);
        self.stack[self.level as usize] = self.node_index;
        self.level += 1;
        self.node_index = ptr + sparse_index;
        self.x = x;
        self.y = y;
        self.z = z;
        proof {
            lemma_in_cell(w.x as nat, x as nat, n);
            lemma_in_cell(w.y as nat, y as nat, n);
            lemma_in_cell(w.z as nat, z as nat, n);
            let (p, q) = (w.point(), self.point());
            assert(same_cell(q, p, n));
            lemma_path_same_cell(nodes@, w.root(), w.levels(), w.level() + 1, q, p);
            assert forall|l: int| 0 <= l < self.level implies #[trigger] self.stack[l]
                == node_on_path(nodes@, self.root(), self.levels(), l as nat, q) by {
                lemma_same_cell_up(q, p, n, (w.levels() - l) as nat);
                lemma_path_same_cell(nodes@, w.root(), w.levels(), l as nat, q, p);
            }
        }
    }
}

/// Where a coordinate goes when it leaves its cell of side `side(n)`: to the
/// first voxel past the cell, on either side.
pub open spec fn past_cell(x: nat, n: nat, forward: bool) -> int {
    if forward {
        x - x % side(n) + side(n)
    } else {
        x - x % side(n) - 1
    }
}

/// A point with one of its coordinates replaced.
pub open spec fn moved(p: Point, axis: u32, to: nat) -> Point {
    if axis == 0 {
        Point { x: to, ..p }
    } else if axis == 1 {
        Point { y: to, ..p }
    } else {
        Point { z: to, ..p }
    }
}

/// A point's coordinate along an axis.
pub open spec fn coord(p: Point, axis: u32) -> nat {
    if axis == 0 {
        p.x
    } else if axis == 1 {
        p.y
    } else {
        p.z
    }
}

/// The deepest level whose node two coordinates share, `levels - 1` less half of
/// the highest bit in which they differ. Negative when one is outside the world.
fn shared_level(old: u32, new: u32, levels: u32) -> (level: i32)
    requires
        1 <= levels <= 8,
        old != new,
        old < side(levels as nat),
        new == 0xFFFF_FFFF || new <= side(levels as nat),
    ensures
        level < levels,
        level < 0 <==> new >= side(levels as nat),
        level >= 0 ==> {
            &&& old as nat / side((levels - level) as nat) == new as nat / side(
                (levels - level) as nat,
            )
            &&& old as nat / side((levels - level - 1) as nat) != new as nat / side(
                (levels - level - 1) as nat,
            )
        },
{
    let changed: u32 = old ^ new;
    let zeros: u32 = changed.leading_zeros();
    proof {
        let top = 2 * levels as nat;
        lemma_pow2_monotone(top, 16);
        lemma2_to64();
        lemma_u32_shl_is_mul(1, (2 * levels) as u32);
        axiom_u32_leading_zeros(changed);
        assert(old ^ new != 0) by (bit_vector)
            requires
                old != new,
        ;
        assert(zeros < 32);
        let high = (31 - zeros) as u32;
        let above = (32 - zeros) as u32;
        let t = (2 * levels) as u32;
        let edge = 1u32 << t;
        assert(edge == side(levels as nat));
        assert(changed >> above == 0 || zeros == 0);
        assert((changed >> high) & 1 == 1) by {
            let c = changed >> high;
            assert(c & 1 == 0 || c & 1 == 1) by (bit_vector);
        }
        assert(new < edge ==> high < t) by (bit_vector)
            requires
                old < edge,
                edge == 1u32 << t,
                t < 32,
                high < 32,
                changed == old ^ new,
                (changed >> high) & 1 == 1,
        ;
        assert(new >= edge ==> high >= t) by (bit_vector)
            requires
                old < edge,
                edge == 1u32 << t,
                t <= 16,
                high < 32,
                new == 0xFFFF_FFFFu32 || new <= edge,
                changed == old ^ new,
                above == high + 1,
                high == 31 || changed >> above == 0,
        ;
        let half = high / 2;
        assert(high >> 1 == high / 2) by (bit_vector);
        let a = (2 * half) as u32;
        let b = (2 * half + 2) as u32;
        if new < edge {
            lemma_u32_shr_is_div(old, a);
            lemma_u32_shr_is_div(new, a);
            lemma_u32_shr_is_div(old, b);
            lemma_u32_shr_is_div(new, b);
            assert(old >> a != new >> a) by (bit_vector)
                requires
                    a <= high,
                    high < 32,
                    changed == old ^ new,
                    (changed >> high) & 1 == 1,
            ;
            assert(old >> b == new >> b) by (bit_vector)
                requires
                    b > high,
                    b < 32,
                    changed == old ^ new,
                    above == high + 1,
                    changed >> above == 0,
            ;
        }
    }
    let high_bit: u32 = 31 - zeros;
    levels as i32 - 1 - (high_bit >> 1) as i32
}

impl Tree64Walk {
    /// Step across one face of the current cell: along `axis` (0 = X, 1 = Y,
    /// 2 = Z), forward or backward. Returns whether the ray is still in the world;
    /// if it is not, the walk stays where it was.
    pub fn step(&mut self, nodes: &[u32], data: &[u32], axis: u32, forward: bool) -> (inside: bool)
        requires
            old(self).wf(nodes@, data@),
            axis < 3,
        ensures
            final(self).wf(nodes@, data@),
            ({
                let w = *old(self);
                let to = past_cell(coord(w.point(), axis), w.cell_level(), forward);
                &&& inside <==> 0 <= to < side(w.levels())
                &&& !inside ==> *final(self) == w
                &&& inside ==> {
                    let v = *final(self);
                    &&& v.levels() == w.levels()
                    &&& v.root() == w.root()
                    &&& v.steps() == w.steps()
                    &&& v.point() == moved(w.point(), axis, to as nat)
                    &&& v.level() <= w.level()
                    &&& same_cell(v.point(), w.point(), (w.levels() - v.level()) as nat)
                    &&& v.level() < w.level() ==> !same_cell(
                        v.point(),
                        w.point(),
                        (w.levels() - v.level() - 1) as nat,
                    )
                }
            }),
    {
        let ghost w = *self;
        let ghost n = w.cell_level();
        let cell: GridCell = self.cell();
        proof {
            lemma_world_coord(w.x, n, w.levels());
            lemma_world_coord(w.y, n, w.levels());
            lemma_world_coord(w.z, n, w.levels());
            lemma_pow2_pos(2 * n);
        }
        let (old, low): (u32, u32) = if axis == 0 {
            (self.x, cell.x)
        } else if axis == 1 {
            (self.y, cell.y)
        } else {
            (self.z, cell.z)
        };
        let new: u32 = if forward {
            low + cell.side
        } else {
            low.wrapping_sub(1)
        };
        let deepest: i32 = shared_level(old, new, self.levels);
        if deepest < 0 {
            return false;
        }
        if axis == 0 {
            self.x = new;
        } else if axis == 1 {
            self.y = new;
        } else {
            self.z = new;
        }
        if (deepest as u32) < self.level {
            self.level = deepest as u32;
            self.node_index = self.stack[self.level as usize];
        }
        proof {
            let (p, q) = (w.point(), self.point());
            assert(same_cell(q, p, (w.levels() - deepest) as nat));
            lemma_same_cell_up(
                q,
                p,
                (w.levels() - deepest) as nat,
                (w.levels() - self.level()) as nat,
            );
            lemma_path_same_cell(nodes@, w.root(), w.levels(), self.level(), q, p);
            if self.level() < w.level() {
                lemma_path_prefix(nodes@, w.root(), w.levels(), self.level(), w.level(), p);
            }
            assert forall|l: int| 0 <= l < self.level implies #[trigger] self.stack[l]
                == node_on_path(nodes@, self.root(), self.levels(), l as nat, q) by {
                lemma_same_cell_up(
                    q,
                    p,
                    (w.levels() - self.level()) as nat,
                    (w.levels() - l) as nat,
                );
                lemma_path_same_cell(nodes@, w.root(), w.levels(), l as nat, q, p);
            }
        }
        true
    }
}

/// A path that is open down to a level is open above it.
proof fn lemma_path_prefix(nodes: Seq<u32>, root: nat, levels: nat, k: nat, l: nat, p: Point)
    requires
        k <= l,
        path_open(nodes, root, levels, l, p),
    ensures
        path_open(nodes, root, levels, k, p),
    decreases l,
{
    if k < l {
        lemma_path_prefix(nodes, root, levels, k, (l - 1) as nat, p);
    }
}

/// The cell of a voxel of the world lies in the world.
proof fn lemma_world_coord(x: u32, n: nat, levels: nat)
    requires
        n < levels <= 8,
        x < side(levels),
    ensures
        x - x as nat % side(n) >= 0,
        x - x as nat % side(n) + side(n) <= side(levels) <= 0x1_0000,
        x as nat % side(n) < side(n),
{
    let k = (2 * (levels - n)) as nat;
    lemma_pow2_adds(2 * n, k);
    lemma_pow2_pos(2 * n);
    lemma_pow2_pos(k);
    lemma_pow2_monotone(2 * levels, 16);
    lemma2_to64();
    let (s, m) = (side(n) as int, pow2(k) as int);
    let (d, r) = (x as int / s, x as int % s);
    lemma_fundamental_div_mod(x as int, s);
    lemma_mod_bound(x as int, s);
    assert(s * d + s <= s * m && s * d >= 0) by (nonlinear_arith)
        requires
            s * d + r < s * m,
            0 <= r < s,
            s * d + r >= 0,
    ;
}

/// A coordinate between a cell's corners is in the cell.
proof fn lemma_in_cell(x: nat, y: nat, n: nat)
    requires
        x - x % side(n) <= y < x - x % side(n) + side(n),
    ensures
        y / side(n) == x / side(n),
{
    let s = side(n) as int;
    lemma_pow2_pos(2 * n);
    lemma_fundamental_div_mod(x as int, s);
    let d = x as int / s;
    assert(y == d * s + (y - d * s) && d * s == s * d) by (nonlinear_arith);
    lemma_fundamental_div_mod_converse(y as int, s, d, y - d * s);
}

/// A voxel has side one, and each level up is four times as wide.
pub proof fn law_side_by_levels(n: nat)
    ensures
        side(0) == 1,
        side(n + 1) == 4 * side(n),
        side(n) > 0,
{
    lemma2_to64();
    lemma_pow2_adds(2 * n, 2);
    lemma_pow2_pos(2 * n);
    assert(2 * (n + 1) == 2 * n + 2);
}

/// A quarter of a coordinate's place in a larger cell.
proof fn lemma_quarter(x: nat, n: nat)
    ensures
        ({
            let d = (x / side(n)) % 4;
            d * side(n) <= x % side(n + 1) < (d + 1) * side(n)
        }),
        side(n) > 0,
{
    law_side_by_levels(n);
    let s = side(n) as int;
    vstd::arithmetic::div_mod::lemma_mod_breakdown(x as int, s, 4);
    lemma_mod_bound(x as int, s);
    let d = (x as int / s) % 4;
    assert(s * 4 == side(n + 1));
    assert(d * s == s * d && (d + 1) * s == s * d + s) by (nonlinear_arith);
}

/// The bit of a cell says along each axis which quarter of the next larger cell it
/// is: x in the lowest two bits, then y, then z.
pub proof fn law_cell_bit_is_quarter_per_axis(p: Point, n: nat)
    ensures
        cell_bit(p, n) < 64,
        ({
            let d = cell_bit(p, n) % 4;
            d * side(n) <= p.x % side(n + 1) < (d + 1) * side(n)
        }),
        ({
            let d = (cell_bit(p, n) / 4) % 4;
            d * side(n) <= p.y % side(n + 1) < (d + 1) * side(n)
        }),
        ({
            let d = cell_bit(p, n) / 16;
            d * side(n) <= p.z % side(n + 1) < (d + 1) * side(n)
        }),
{
    lemma_quarter(p.x, n);
    lemma_quarter(p.y, n);
    lemma_quarter(p.z, n);
    let (a, b, c) = ((p.x / side(n)) % 4, (p.y / side(n)) % 4, (p.z / side(n)) % 4);
    assert(cell_bit(p, n) % 4 == a && (cell_bit(p, n) / 4) % 4 == b && cell_bit(p, n) / 16 == c);
}

/// Two points share a voxel just if they are the same, and share a cell just if
/// they share the next larger one and the cell has the same bit there.
pub proof fn law_cells_nest(p: Point, q: Point, n: nat)
    ensures
        same_cell(p, q, 0) <==> p == q,
        same_cell(p, q, n) <==> same_cell(p, q, n + 1) && cell_bit(p, n) == cell_bit(q, n),
{
    law_side_by_levels(n);
    lemma2_to64();
    let s = side(n) as int;
    assert(side(n + 1) == s * 4);
    lemma_div_denominator(p.x as int, s, 4);
    lemma_div_denominator(p.y as int, s, 4);
    lemma_div_denominator(p.z as int, s, 4);
    lemma_div_denominator(q.x as int, s, 4);
    lemma_div_denominator(q.y as int, s, 4);
    lemma_div_denominator(q.z as int, s, 4);
    let (a, b, c) = ((p.x / side(n)) % 4, (p.y / side(n)) % 4, (p.z / side(n)) % 4);
    let (d, e, f) = ((q.x / side(n)) % 4, (q.y / side(n)) % 4, (q.z / side(n)) % 4);
    assert(cell_bit(p, n) == cell_bit(q, n) <==> a == d && b == e && c == f);
    if same_cell(p, q, 0) {
        assert(p.x == q.x && p.y == q.y && p.z == q.z);
    }
}

/// The cells of a node that are there stand one after the other from its pointer
/// on, in the order of their bits.
pub proof fn law_cells_stand_in_order(nodes: Seq<u32>, i: nat, bit: nat)
    ensures
        cell_index(nodes, i, 0) == node_ptr(nodes, i),
        bit_at(node_mask(nodes, i), bit) ==> cell_index(nodes, i, bit + 1) == cell_index(
            nodes,
            i,
            bit,
        ) + 1,
        !bit_at(node_mask(nodes, i), bit) ==> cell_index(nodes, i, bit + 1) == cell_index(
            nodes,
            i,
            bit,
        ),
{
    let mask = node_mask(nodes, i);
    law_count_below_by_bits(mask, bit);
    lemma_pow2_pos(bit);
    lemma_mod_bound(mask as int, pow2(bit) as int);
}

/// What a node of some levels holds at a point: nothing where its cell is not
/// there, a byte of data where its cells are voxels, and what the cell's own node
/// holds otherwise.
pub proof fn law_voxel_by_cells(nodes: Seq<u32>, data: Seq<u32>, i: nat, n: nat, p: Point)
    ensures
        voxel_at(nodes, data, i, 0, p) is None,
        !bit_at(node_mask(nodes, i), cell_bit(p, n)) ==> voxel_at(nodes, data, i, n + 1, p) is None,
        bit_at(node_mask(nodes, i), cell_bit(p, n)) && node_is_leaf(nodes, i) ==> voxel_at(
            nodes,
            data,
            i,
            n + 1,
            p,
        ) == Some(data_byte(data, cell_index(nodes, i, cell_bit(p, n)))),
        bit_at(node_mask(nodes, i), cell_bit(p, n)) && !node_is_leaf(nodes, i) ==> voxel_at(
            nodes,
            data,
            i,
            n + 1,
            p,
        ) == voxel_at(nodes, data, cell_index(nodes, i, cell_bit(p, n)), n, p),
{
    reveal_with_fuel(voxel_at, 2);
    assert(((n + 1) - 1) as nat == n);
}

/// Clamping gives the value in a range that is nearest to a value.
pub proof fn law_clamped_is_nearest(v: int, lo: int, hi: int, other: int)
    requires
        lo <= other <= hi,
    ensures
        lo <= clamped(v, lo, hi) <= hi,
        v <= clamped(v, lo, hi) ==> clamped(v, lo, hi) - v <= (if other >= v {
            other - v
        } else {
            v - other
        }),
        v >= clamped(v, lo, hi) ==> v - clamped(v, lo, hi) <= (if other >= v {
            other - v
        } else {
            v - other
        }),
{
}

/// Leaving a cell forward leads to the first coordinate of the next cell, and
/// leaving it backward to the last one of the cell before: no coordinate between
/// lies in another cell.
pub proof fn law_past_cell_is_next(x: nat, n: nat)
    ensures
        x < past_cell(x, n, true) <= x + side(n),
        past_cell(x, n, true) % side(n) as int == 0,
        x - side(n) <= past_cell(x, n, false) < x,
        (past_cell(x, n, false) + 1) % side(n) as int == 0,
{
    law_side_by_levels(n);
    let s = side(n) as int;
    lemma_mod_bound(x as int, s);
    lemma_fundamental_div_mod(x as int, s);
    let d = x as int / s;
    lemma_mod_multiples_basic(d, s);
    lemma_mod_multiples_basic(d + 1, s);
    assert(d * s == s * d && (d + 1) * s == s * d + s) by (nonlinear_arith);
}

/// Moving a point along an axis changes the coordinate along it, which is x for 0,
/// y for 1 and z for 2, and no other.
pub proof fn law_moved_along_axis(p: Point, to: nat)
    ensures
        moved(p, 0, to) == (Point { x: to, y: p.y, z: p.z }),
        moved(p, 1, to) == (Point { x: p.x, y: to, z: p.z }),
        moved(p, 2, to) == (Point { x: p.x, y: p.y, z: to }),
        coord(p, 0) == p.x,
        coord(p, 1) == p.y,
        coord(p, 2) == p.z,
{
}

/// A cell that holds a point begins at multiples of its side and holds the point
/// between its lowest corner and its side above that.
pub proof fn law_cell_holds_point(cell: GridCell, p: Point, n: nat)
    requires
        cell.is_cell_of(p, n),
    ensures
        cell.side == side(n),
        cell.x <= p.x < cell.x + cell.side && cell.x as int % cell.side as int == 0,
        cell.y <= p.y < cell.y + cell.side && cell.y as int % cell.side as int == 0,
        cell.z <= p.z < cell.z + cell.side && cell.z as int % cell.side as int == 0,
{
    law_side_by_levels(n);
    law_past_cell_is_next(p.x, n);
    law_past_cell_is_next(p.y, n);
    law_past_cell_is_next(p.z, n);
    let s = side(n) as int;
    lemma_mod_bound(p.x as int, s);
    lemma_mod_bound(p.y as int, s);
    lemma_mod_bound(p.z as int, s);
}

/// A tree lies inside its buffers just if it has a level, its root node does, and
/// each cell of the root that is there does: as a byte of data under a leaf, and
/// otherwise as a tree of one level less.
pub proof fn law_tree_fits_by_cells(nodes: Seq<u32>, data: Seq<u32>, i: nat, n: nat)
    ensures
        !tree_ok(nodes, data, i, 0),
        tree_ok(nodes, data, i, n + 1) <==> 3 * i + 2 < nodes.len() && forall|bit: nat|
            #![trigger cell_index(nodes, i, bit)]
            bit < 64 && bit_at(node_mask(nodes, i), bit) ==> {
                &&& node_is_leaf(nodes, i) ==> cell_index(nodes, i, bit) < 4 * data.len()
                &&& !node_is_leaf(nodes, i) ==> tree_ok(
                    nodes,
                    data,
                    cell_index(nodes, i, bit),
                    n,
                )
            },
{
    assert(((n + 1) - 1) as nat == n);
}

} // verus!
