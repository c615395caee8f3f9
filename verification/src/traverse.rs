//! The order in which a ray visits a packed octree.
//!
//! A walk keeps a stack of the nodes being visited, root first. `next_child`
//! offers their children one by one; the caller tests the ray against the
//! child's cell and calls `enter` on the ones it passes through.

use vstd::arithmetic::div_mod::{
    lemma_basic_div, lemma_div_denominator, lemma_fundamental_div_mod_converse,
};
use vstd::arithmetic::power2::{lemma2_to64, lemma_pow2_adds, lemma_pow2_pos, lemma_pow2_unfold, pow2};
use vstd::bits::{lemma_u32_shl_is_mul, lemma_u32_shr_is_div};
use vstd::prelude::*;

use crate::bits::{
    bit_at, lemma_popcount_bound, lemma_pow2_monotone, ones_below, popcount, test_bit,
};
use crate::octree::{lemma_octant_range, octant_of};
use crate::packed::{packed_at, CHILD_MASK_SHIFT, CHILD_PTR_MASK, LEAF_BIT};

verus! {

/// Maximum traversal depth supported.
pub const MAX_DEPTH: usize = 24;

/// Which voxel a ray hit.
#[derive(Clone, Copy, Debug, PartialEq, Eq)]
pub struct VoxelHit {
    /// Integer coordinates of the hit voxel.
    pub pos: [u32; 3],
    /// The stored voxel value.
    pub value: u32,
}

impl Default for VoxelHit {
    fn default() -> (hit: Self)
        ensures
            hit.pos@ == seq![0u32, 0u32, 0u32],
            hit.value == 0,
    {
        let pos: [u32; 3] = [0, 0, 0];
        assert(pos@ =~= seq![0u32, 0u32, 0u32]);
        Self { pos, value: 0 }
    }
}

/// A cell of the grid that splits the world into `2^level` parts per axis.
#[derive(Clone, Copy, Debug, PartialEq, Eq, Structural)]
pub struct Cell {
    pub level: u32,
    pub x: u32,
    pub y: u32,
    pub z: u32,
}

impl Cell {
    /// Whether the cell is one of its grid's.
    pub open spec fn in_grid(self) -> bool {
        let n = pow2(self.level as nat);
        self.x < n && self.y < n && self.z < n
    }

    /// Whether a voxel of a world of side `2^depth` lies in the cell.
    pub open spec fn covers(self, depth: nat, x: nat, y: nat, z: nat) -> bool {
        let side = pow2((depth - self.level) as nat);
        &&& self.level <= depth
        &&& x / side == self.x
        &&& y / side == self.y
        &&& z / side == self.z
    }
}

/// The voxel coordinate at which cell `i` of a grid of `2^level` begins, in a
/// world of side `2^depth`. Cells smaller than a voxel round down.
pub open spec fn cell_start(i: nat, level: nat, depth: nat) -> nat {
    if level <= depth {
        i * pow2((depth - level) as nat)
    } else {
        i / pow2((level - depth) as nat)
    }
}

fn start_coord(i: u32, level: u32, depth: u32) -> (start: u32)
    requires
        i < pow2(level as nat),
        level <= 24,
        depth < 32,
    ensures
        start == cell_start(i as nat, level as nat, depth as nat),
        start < pow2(depth as nat),
{
    if level <= depth {
        let s: u32 = depth - level;
        proof {
            let (p, q) = (pow2(level as nat), pow2(s as nat));
            lemma_pow2_adds(level as nat, s as nat);
            lemma_pow2_monotone(depth as nat, 31);
            lemma2_to64();
            lemma_pow2_pos(s as nat);
            assert(i * q < p * q) by (nonlinear_arith)
                requires
                    i < p,
                    q > 0,
            ;
            lemma_u32_shl_is_mul(i, s);
        }
        i << s
    } else {
        let s: u32 = level - depth;
        proof {
            let (p, q) = (pow2(depth as nat), pow2(s as nat));
            lemma_pow2_adds(depth as nat, s as nat);
            lemma_pow2_pos(s as nat);
            lemma_u32_shr_is_div(i, s);
            assert((i as nat) / q < p) by (nonlinear_arith)
                requires
                    i < p * q,
                    q > 0,
            ;
        }
        i >> s
    }
}

/// The voxel coordinate at which cell `i` of a grid of `2^level` ends, in a world
/// of side `2^depth`. A cell smaller than a voxel ends where it begins.
pub open spec fn cell_last(i: nat, level: nat, depth: nat) -> nat {
    if level <= depth {
        (cell_start(i, level, depth) + pow2((depth - level) as nat) - 1) as nat
    } else {
        cell_start(i, level, depth)
    }
}

/// The voxel coordinate in cell `i` of a grid of `2^level` that is nearest to a
/// coordinate, in a world of side `2^depth`.
pub open spec fn near_coord(p: int, i: nat, level: nat, depth: nat) -> int {
    if p < cell_start(i, level, depth) {
        cell_start(i, level, depth) as int
    } else if p > cell_last(i, level, depth) {
        cell_last(i, level, depth) as int
    } else {
        p
    }
}

/// A voxel coordinate in a cell belongs to that cell and to the world.
proof fn lemma_near_coord(p: int, i: nat, level: nat, depth: nat)
    requires
        i < pow2(level),
    ensures
        0 <= near_coord(p, i, level, depth) < pow2(depth),
        cell_start(i, level, depth) <= cell_last(i, level, depth) < pow2(depth),
        level <= depth ==> near_coord(p, i, level, depth) as nat / pow2((depth - level) as nat)
            == i,
{
    if level <= depth {
        let side = pow2((depth - level) as nat);
        let c = near_coord(p, i, level, depth);
        lemma_pow2_pos((depth - level) as nat);
        lemma_pow2_adds(level, (depth - level) as nat);
        assert(i * side + side <= pow2(level) * side) by (nonlinear_arith)
            requires
                i + 1 <= pow2(level),
        ;
        lemma_fundamental_div_mod_converse(c, side as int, i as int, c - i * side);
    } else {
        let parts = pow2((level - depth) as nat);
        lemma_pow2_pos((level - depth) as nat);
        lemma_pow2_adds(depth, (level - depth) as nat);
        assert(i / parts < pow2(depth)) by (nonlinear_arith)
            requires
                i < pow2(depth) * parts,
                parts > 0,
        ;
    }
}

fn near(p: i32, i: u32, level: u32, depth: u32) -> (c: u32)
    requires
        i < pow2(level as nat),
        level <= 24,
        depth < 32,
    ensures
        c == near_coord(p as int, i as nat, level as nat, depth as nat),
{
    let first: u32 = start_coord(i, level, depth);
    proof {
        lemma_near_coord(p as int, i as nat, level as nat, depth as nat);
        lemma_pow2_monotone(depth as nat, 31);
        lemma2_to64();
    }
    let last: u32 = if level <= depth {
        let s: u32 = depth - level;
        proof {
            lemma_pow2_pos(s as nat);
            lemma_pow2_monotone(s as nat, 31);
            lemma_u32_shl_is_mul(1, s);
        }
        first + ((1u32 << s) - 1)
    } else {
        first
    };
    if (p as i64) < first as i64 {
        first
    } else if p as i64 > last as i64 {
        last
    } else {
        p as u32
    }
}

impl Cell {
    /// The voxel of the cell that is nearest to the given coordinates, in a world
    /// of side `2^depth`. Given where a ray meets the cell, this is the voxel that
    /// it hits.
    pub fn voxel_near(&self, depth: u32, px: i32, py: i32, pz: i32) -> (pos: [u32; 3])
        requires
            self.in_grid(),
            self.level <= 24,
            depth < 32,
        ensures
            pos[0] == near_coord(px as int, self.x as nat, self.level as nat, depth as nat),
            pos[1] == near_coord(py as int, self.y as nat, self.level as nat, depth as nat),
            pos[2] == near_coord(pz as int, self.z as nat, self.level as nat, depth as nat),
            self.level <= depth ==> self.covers(
                depth as nat,
                pos[0] as nat,
                pos[1] as nat,
                pos[2] as nat,
            ),
    {
        let x: u32 = near(px, self.x, self.level, depth);
        let y: u32 = near(py, self.y, self.level, depth);
        let z: u32 = near(pz, self.z, self.level, depth);
        proof {
            lemma_near_coord(px as int, self.x as nat, self.level as nat, depth as nat);
            lemma_near_coord(py as int, self.y as nat, self.level as nat, depth as nat);
            lemma_near_coord(pz as int, self.z as nat, self.level as nat, depth as nat);
        }
        [x, y, z]
    }
}

/// A child of a node on the stack: the cell it fills and the index of its word.
#[derive(Clone, Copy, Debug, PartialEq, Eq, Structural)]
pub struct Child {
    pub cell: Cell,
    pub index: usize,
}

/// A node being visited. Its place on the stack is its level.
#[derive(Clone, Copy, Debug, PartialEq, Eq, Structural)]
pub struct StackEntry {
    pub node_idx: usize,
    pub x: u32,
    pub y: u32,
    pub z: u32,
    /// Which child octant to visit next (0..8, 8 = done).
    pub next_child: u32,
}

/// Whether the node at an index has a child in an octant.
pub open spec fn has_child(data: Seq<u32>, node: nat, oct: nat) -> bool {
    &&& node < data.len()
    &&& data[node as int] < 0x8000_0000
    &&& oct < 8
    &&& bit_at(data[node as int] as nat / 0x80_0000, oct)
}

/// The index of the child of a node in an octant.
pub open spec fn child_index(data: Seq<u32>, node: nat, oct: nat) -> nat {
    let word = data[node as int] as nat;
    word % 0x80_0000 + popcount((word / 0x80_0000) % pow2(oct))
}

/// The cell of the child in an octant of the node at place `k` of the stack.
pub open spec fn child_cell(e: StackEntry, k: nat, oct: nat) -> Cell {
    Cell {
        level: (k + 1) as u32,
        x: (2 * e.x + oct % 2) as u32,
        y: (2 * e.y + (oct / 2) % 2) as u32,
        z: (2 * e.z + oct / 4) as u32,
    }
}

/// Whether a node has no child left to offer.
pub open spec fn exhausted(data: Seq<u32>, e: StackEntry) -> bool {
    forall|oct: nat| e.next_child <= oct < 8 ==> !#[trigger] has_child(data, e.node_idx as nat, oct)
}

/// A stack that a walk over `data` can have.
pub open spec fn stack_ok(stack: Seq<StackEntry>, data: Seq<u32>) -> bool {
    &&& stack.len() <= MAX_DEPTH
    &&& forall|k: int|
        0 <= k < stack.len() ==> {
            let e = #[trigger] stack[k];
            let n = pow2(k as nat);
            &&& e.node_idx < data.len()
            &&& e.next_child <= 8
            &&& e.x < n
            &&& e.y < n
            &&& e.z < n
        }
}

/// How a walk moves on: it offers the next child of the deepest node that has
/// one left, in octant order, and forgets the nodes below that one; or, when
/// none has, it ends.
pub open spec fn advanced(
    before: Seq<StackEntry>,
    after: Seq<StackEntry>,
    data: Seq<u32>,
    child: Option<Child>,
) -> bool {
    match child {
        None => {
            &&& after.len() == 0
            &&& forall|k: int| 0 <= k < before.len() ==> exhausted(data, #[trigger] before[k])
        },
        Some(c) => {
            let k = after.len() - 1;
            let b = before[k];
            let oct = (after[k].next_child - 1) as nat;
            &&& 0 < after.len() <= before.len()
            &&& after.drop_last() == before.take(k)
            &&& forall|j: int| k < j < before.len() ==> exhausted(data, #[trigger] before[j])
            &&& b.next_child <= oct < 8
            &&& after[k] == StackEntry { next_child: (oct + 1) as u32, ..b }
            &&& has_child(data, b.node_idx as nat, oct)
            &&& forall|o: nat|
                b.next_child <= o < oct ==> !#[trigger] has_child(data, b.node_idx as nat, o)
            &&& c.index == child_index(data, b.node_idx as nat, oct)
            &&& c.cell == child_cell(b, k as nat, oct)
        },
    }
}

/// What entering a child came to.
#[derive(Clone, Copy, Debug, PartialEq, Eq, Structural)]
pub enum Entered {
    /// The child is a leaf of this value.
    Leaf(u32),
    /// The child is a node, and its children are next.
    Node,
    /// The child is a node, and the stack has no room for it.
    TooDeep,
    /// The child's index lies outside the data.
    Missing,
}

/// How a walk takes up a child.
pub open spec fn entered(
    before: Seq<StackEntry>,
    after: Seq<StackEntry>,
    data: Seq<u32>,
    child: Child,
    outcome: Entered,
) -> bool {
    if child.index >= data.len() {
        outcome == Entered::Missing && after == before
    } else if data[child.index as int] >= 0x8000_0000 {
        outcome == Entered::Leaf((data[child.index as int] - 0x8000_0000) as u32) && after
            == before
    } else if before.len() >= MAX_DEPTH {
        outcome == Entered::TooDeep && after == before
    } else {
        &&& outcome == Entered::Node
        &&& after == before.push(
            StackEntry {
                node_idx: child.index,
                x: child.cell.x,
                y: child.cell.y,
                z: child.cell.z,
                next_child: 0,
            },
        )
    }
}

/// A walk over a packed octree.
pub struct OctreeWalk {
    stack: Vec<StackEntry>,
}

/// What a packed octree is at its root.
pub enum Root {
    /// Nothing at all.
    Nothing,
    /// One value throughout the world.
    Solid(u32),
    /// A node whose children a walk visits.
    Walk(OctreeWalk),
}

impl OctreeWalk {
    /// The nodes being visited, root first.
    pub closed spec fn view(&self) -> Seq<StackEntry> {
        self.stack@
    }

    /// Begin at the root of a packed octree.
    pub fn start(data: &[u32]) -> (root: Root)
        ensures
            match root {
                Root::Nothing => data@.len() == 0,
                Root::Solid(v) => data@.len() > 0 && data@[0] >= 0x8000_0000 && v == data@[0]
                    - 0x8000_0000,
                Root::Walk(walk) => {
                    &&& data@.len() > 0
                    &&& data@[0] < 0x8000_0000
                    &&& stack_ok(walk@, data@)
                    &&& walk@ == seq![
                        StackEntry { node_idx: 0, x: 0, y: 0, z: 0, next_child: 0 },
                    ]
                },
            },
    {
        if data.len() == 0 {
            return Root::Nothing;
        }
        let word: u32 = data[0];
        proof {
            lemma_leaf_bit(word);
        }
        if word & LEAF_BIT != 0 {
            return Root::Solid(word & !LEAF_BIT);
        }
        let mut stack: Vec<StackEntry> = Vec::new();
        stack.push(StackEntry { node_idx: 0, x: 0, y: 0, z: 0, next_child: 0 });
        proof {
            lemma2_to64();
            assert(stack@ =~= seq![
                StackEntry { node_idx: 0, x: 0, y: 0, z: 0, next_child: 0 },
            ]);
        }
        Root::Walk(OctreeWalk { stack })
    }

    /// The next child to test the ray against, or `None` when the walk is over.
    pub fn next_child(&mut self, data: &[u32]) -> (child: Option<Child>)
        requires
            stack_ok(old(self)@, data@),
        ensures
            stack_ok(final(self)@, data@),
            advanced(old(self)@, final(self)@, data@, child),
            child matches Some(c) ==> {
                &&& c.cell.level == final(self)@.len()
                &&& c.cell.in_grid()
            },
    {
        let ghost before = self.stack@;
        while self.stack.len() > 0
            invariant
                before == old(self)@,
                stack_ok(before, data@),
                self.stack@.len() <= before.len(),
                self.stack@.len() > 0 ==> {
                    let k = self.stack@.len() - 1;
                    &&& self.stack@.drop_last() == before.take(k)
                    &&& before[k].next_child <= self.stack@[k].next_child <= 8
                    &&& self.stack@[k] == StackEntry {
                        next_child: self.stack@[k].next_child,
                        ..before[k]
                    }
                    &&& forall|o: nat|
                        before[k].next_child <= o < self.stack@[k].next_child ==> !#[trigger]
                            has_child(data@, before[k].node_idx as nat, o)
                },
                forall|j: int|
                    self.stack@.len() <= j < before.len() ==> exhausted(data@, #[trigger] before[j]),
            decreases
                    self.stack@.len(),
                    8 - if self.stack@.len() > 0 {
                        self.stack@.last().next_child as int
                    } else {
                        8
                    },
        {
            let top: usize = self.stack.len() - 1;
            let ghost k = top as int;
            let ghost here = self.stack@;
            let mut entry: StackEntry = self.stack[top];
            assert(before[k].node_idx < data@.len());
            let word: u32 = data[entry.node_idx];
            proof {
                lemma_leaf_bit(word);
            }
            if entry.next_child >= 8 || word & LEAF_BIT != 0 {
                // Done with this node
                assert(exhausted(data@, before[k]));
                self.stack.pop();
                proof {
                    if k > 0 {
                        assert(here.drop_last()[k - 1] == before.take(k)[k - 1]);
                        assert(self.stack@.drop_last() =~= before.take(k - 1));
                    }
                }
                continue;
            }
            // Advance to next child octant
            let oct: u32 = entry.next_child;
            entry.next_child = oct + 1;
            self.stack.set(top, entry);
            assert(self.stack@.drop_last() =~= before.take(k));
            let mask: u32 = (word >> CHILD_MASK_SHIFT) & 0xFF;
            let first: u32 = word & CHILD_PTR_MASK;
            proof {
                assert((word >> 23u32) & 0xFF == word / 0x80_0000) by (bit_vector)
                    requires
                        word < 0x8000_0000,
                ;
                assert(word & 0x007F_FFFF == word % 0x80_0000) by (bit_vector);
            }
            // Check if this octant has a child
            if !test_bit(mask, oct) {
                continue;
            }
            let slot: u32 = ones_below(mask, oct);
            let cell: Cell = self.cell_of(top, &entry, oct);
            let index: usize = (first + slot) as usize;
            proof {
                assert forall|j: int| 0 <= j < self.stack@.len() implies {
                    let e = #[trigger] self.stack@[j];
                    let n = pow2(j as nat);
                    &&& e.node_idx < data@.len()
                    &&& e.next_child <= 8
                    &&& e.x < n
                    &&& e.y < n
                    &&& e.z < n
                } by {
                    assert(before[j].node_idx < data@.len());
                    if j < k {
                        assert(self.stack@.drop_last()[j] == before.take(k)[j]);
                    }
                }
            }
            return Some(Child { cell, index });
        }
        None
    }

    fn cell_of(&self, top: usize, entry: &StackEntry, oct: u32) -> (cell: Cell)
        requires
            top < MAX_DEPTH,
            oct < 8,
            entry.x < pow2(top as nat),
            entry.y < pow2(top as nat),
            entry.z < pow2(top as nat),
        ensures
            cell == child_cell(*entry, top as nat, oct as nat),
            cell.level == top + 1,
            cell.in_grid(),
    {
        proof {
            lemma_pow2_unfold((top + 1) as nat);
            lemma_pow2_monotone(top as nat, 24);
            lemma2_to64();
            assert(oct & 1 == oct % 2 && (oct >> 1) & 1 == (oct / 2) % 2 && oct >> 2 == oct / 4)
                by (bit_vector);
        }
        Cell {
            level: (top + 1) as u32,
            x: 2 * entry.x + (oct & 1),
            y: 2 * entry.y + ((oct >> 1) & 1),
            z: 2 * entry.z + (oct >> 2),
        }
    }

    /// Go into a child that the ray passes through.
    pub fn enter(&mut self, data: &[u32], child: &Child) -> (outcome: Entered)
        requires
            stack_ok(old(self)@, data@),
            child.cell.level == old(self)@.len(),
            child.cell.in_grid(),
        ensures
            stack_ok(final(self)@, data@),
            entered(old(self)@, final(self)@, data@, *child, outcome),
    {
        if child.index >= data.len() {
            return Entered::Missing;
        }
        let word: u32 = data[child.index];
        proof {
            lemma_leaf_bit(word);
        }
        if word & LEAF_BIT != 0 {
            return Entered::Leaf(word & !LEAF_BIT);
        }
        if self.stack.len() >= MAX_DEPTH {
            return Entered::TooDeep;
        }
        self.stack.push(
            StackEntry {
                node_idx: child.index,
                x: child.cell.x,
                y: child.cell.y,
                z: child.cell.z,
                next_child: 0,
            },
        );
        Entered::Node
    }
}

proof fn lemma_leaf_bit(word: u32)
    ensures
        (word & LEAF_BIT != 0) == (word >= 0x8000_0000),
        word >= 0x8000_0000 ==> (word & !LEAF_BIT) == word - 0x8000_0000,
{
    assert((word & 0x8000_0000 != 0) == (word >= 0x8000_0000)) by (bit_vector);
    assert(word >= 0x8000_0000 ==> (word & !0x8000_0000u32) == word - 0x8000_0000) by (bit_vector);
}

/// Whether a child leads to the voxel at a point: it covers the point, and the
/// data below it holds a value there.
pub open spec fn leads_to(
    child: Child,
    data: Seq<u32>,
    depth: nat,
    x: nat,
    y: nat,
    z: nat,
) -> bool {
    &&& child.cell.covers(depth, x, y, z)
    &&& packed_at(data, child.index as nat, (depth - child.cell.level) as nat, x, y, z) is Some
}

/// The child that a node on the stack has in an octant.
pub open spec fn child_of(stack: Seq<StackEntry>, data: Seq<u32>, k: nat, oct: nat) -> Child {
    Child {
        cell: child_cell(stack[k as int], k, oct),
        index: child_index(data, stack[k as int].node_idx as nat, oct) as usize,
    }
}

/// Whether a child in an octant of a node on the stack is still to come.
pub open spec fn pending(stack: Seq<StackEntry>, data: Seq<u32>, k: nat, oct: nat) -> bool {
    &&& k < stack.len()
    &&& stack[k as int].next_child <= oct
    &&& has_child(data, stack[k as int].node_idx as nat, oct)
}

/// Whether one of the children still to come leads to the voxel at a point.
pub open spec fn ahead(
    stack: Seq<StackEntry>,
    data: Seq<u32>,
    depth: nat,
    x: nat,
    y: nat,
    z: nat,
) -> bool {
    exists|k: nat, oct: nat| #[trigger]
        pending(stack, data, k, oct) && leads_to(child_of(stack, data, k, oct), data, depth, x, y, z)
}

proof fn lemma_child_index_fits(data: Seq<u32>, node: nat, oct: nat)
    requires
        has_child(data, node, oct),
    ensures
        child_index(data, node, oct) < 0x80_0008,
{
    let m = data[node as int] as nat / 0x80_0000;
    lemma_pow2_pos(oct);
    lemma_popcount_bound(m % pow2(oct), oct);
}

/// A node that holds a value at a point has a child that leads there.
proof fn lemma_node_has_child(
    stack: Seq<StackEntry>,
    data: Seq<u32>,
    depth: nat,
    x: nat,
    y: nat,
    z: nat,
)
    requires
        stack_ok(stack, data),
        0 < stack.len() <= depth + 1,
        ({
            let k = stack.len() - 1;
            let e = stack[k];
            let side = pow2((depth - k) as nat);
            &&& e.next_child == 0
            &&& e.x == x / side
            &&& e.y == y / side
            &&& e.z == z / side
            &&& data[e.node_idx as int] < 0x8000_0000
            &&& packed_at(data, e.node_idx as nat, (depth - k) as nat, x, y, z) is Some
        }),
    ensures
        ahead(stack, data, depth, x, y, z),
{
    let k = (stack.len() - 1) as nat;
    let e = stack[k as int];
    let rem = (depth - k) as nat;
    assert(rem > 0);
    let oct = octant_of(x, y, z, rem);
    lemma_octant_range(x, y, z, rem);
    assert(has_child(data, e.node_idx as nat, oct));
    lemma_child_index_fits(data, e.node_idx as nat, oct);
    lemma_halve(x, rem);
    lemma_halve(y, rem);
    lemma_halve(z, rem);
    lemma_pow2_monotone(k, 24);
    lemma2_to64();
    assert(oct % 2 == (x / pow2((rem - 1) as nat)) % 2);
    assert((oct / 2) % 2 == (y / pow2((rem - 1) as nat)) % 2);
    assert(oct / 4 == (z / pow2((rem - 1) as nat)) % 2);
    assert(pending(stack, data, k, oct));
    assert(leads_to(child_of(stack, data, k, oct), data, depth, x, y, z));
}

proof fn lemma_halve(x: nat, n: nat)
    requires
        n > 0,
    ensures
        x / pow2((n - 1) as nat) == 2 * (x / pow2(n)) + (x / pow2((n - 1) as nat)) % 2,
{
    let p = pow2((n - 1) as nat);
    lemma_pow2_pos((n - 1) as nat);
    lemma_pow2_unfold(n);
    lemma_div_denominator(x as int, p as int, 2);
    assert(p * 2 == pow2(n));
}

proof fn lemma_from_half(x: nat, n: nat, a: nat, b: nat)
    requires
        n > 0,
        b < 2,
        x / pow2((n - 1) as nat) == 2 * a + b,
    ensures
        x / pow2(n) == a,
        (x / pow2((n - 1) as nat)) % 2 == b,
{
    lemma_halve(x, n);
    lemma_cancel(x / pow2(n), a, (x / pow2((n - 1) as nat)) % 2, b);
}

proof fn lemma_cancel(q: nat, a: nat, c: nat, b: nat)
    requires
        c < 2,
        b < 2,
        2 * q + c == 2 * a + b,
    ensures
        q == a,
        c == b,
{
}

/// A walk begins with every voxel ahead of it.
pub proof fn law_start_has_all_ahead(
    stack: Seq<StackEntry>,
    data: Seq<u32>,
    depth: nat,
    x: nat,
    y: nat,
    z: nat,
)
    requires
        data.len() > 0,
        data[0] < 0x8000_0000,
        stack == seq![StackEntry { node_idx: 0, x: 0, y: 0, z: 0, next_child: 0 }],
        x < pow2(depth) && y < pow2(depth) && z < pow2(depth),
        packed_at(data, 0, depth, x, y, z) is Some,
    ensures
        ahead(stack, data, depth, x, y, z),
{
    lemma2_to64();
    lemma_basic_div(x as int, pow2(depth) as int);
    lemma_basic_div(y as int, pow2(depth) as int);
    lemma_basic_div(z as int, pow2(depth) as int);
    lemma_node_has_child(stack, data, depth, x, y, z);
}

/// Moving on skips no voxel: one that was ahead either still is, or the child
/// just offered leads to it.
pub proof fn law_next_skips_nothing(
    before: Seq<StackEntry>,
    after: Seq<StackEntry>,
    data: Seq<u32>,
    child: Option<Child>,
    depth: nat,
    x: nat,
    y: nat,
    z: nat,
)
    requires
        stack_ok(before, data),
        advanced(before, after, data, child),
        ahead(before, data, depth, x, y, z),
    ensures
        child is Some,
        ahead(after, data, depth, x, y, z) || leads_to(child->Some_0, data, depth, x, y, z),
{
    let (k, oct) = choose|k: nat, oct: nat| #[trigger]
        pending(before, data, k, oct) && leads_to(
            child_of(before, data, k, oct),
            data,
            depth,
            x,
            y,
            z,
        );
    let e = before[k as int];
    if child is Some {
        let top = (after.len() - 1) as nat;
        let taken = (after[top as int].next_child - 1) as nat;
        if k < top {
            assert(after.drop_last()[k as int] == before.take(top as int)[k as int]);
            assert(pending(after, data, k, oct));
        } else if k == top {
            if oct == taken {
                lemma_child_index_fits(data, e.node_idx as nat, oct);
            } else {
                assert(!(e.next_child <= oct < taken));
                assert(pending(after, data, k, oct));
                assert(child_of(after, data, k, oct) == child_of(before, data, k, oct));
            }
        } else {
            assert(exhausted(data, e));
        }
    } else {
        assert(exhausted(data, e));
    }
}

/// Entering a child that leads to a voxel either finds the voxel's value or
/// puts the voxel ahead, in a world of up to `MAX_DEPTH` levels.
pub proof fn law_enter_finds_or_puts_ahead(
    before: Seq<StackEntry>,
    after: Seq<StackEntry>,
    data: Seq<u32>,
    child: Child,
    outcome: Entered,
    depth: nat,
    x: nat,
    y: nat,
    z: nat,
)
    requires
        stack_ok(after, data),
        child.cell.level == before.len(),
        entered(before, after, data, child, outcome),
        leads_to(child, data, depth, x, y, z),
        depth <= MAX_DEPTH,
    ensures
        match outcome {
            Entered::Leaf(v) => packed_at(
                data,
                child.index as nat,
                (depth - child.cell.level) as nat,
                x,
                y,
                z,
            ) == Some(v),
            Entered::Node => ahead(after, data, depth, x, y, z),
            _ => false,
        },
{
    if outcome is Node {
        lemma_node_has_child(after, data, depth, x, y, z);
    }
}

/// Whether a node that fills a cell holds there what the whole world holds.
pub open spec fn node_true(data: Seq<u32>, depth: nat, cell: Cell, node: nat) -> bool {
    forall|x: nat, y: nat, z: nat| #[trigger]
        cell.covers(depth, x, y, z) ==> packed_at(
            data,
            node,
            (depth - cell.level) as nat,
            x,
            y,
            z,
        ) == packed_at(data, 0, depth, x, y, z)
}

/// The cell that a node on the stack fills.
pub open spec fn entry_cell(stack: Seq<StackEntry>, k: nat) -> Cell {
    let e = stack[k as int];
    Cell { level: k as u32, x: e.x, y: e.y, z: e.z }
}

/// Whether every node on the stack holds what the whole world holds in its cell.
pub open spec fn stack_true(stack: Seq<StackEntry>, data: Seq<u32>, depth: nat) -> bool {
    forall|k: nat|
        k < stack.len() ==> node_true(
            data,
            depth,
            #[trigger] entry_cell(stack, k),
            stack[k as int].node_idx as nat,
        )
}

/// The walk and the children it offers stay true to the data: what a child
/// holds at a voxel of its cell is what the whole world holds there.
pub proof fn law_children_are_true(
    before: Seq<StackEntry>,
    after: Seq<StackEntry>,
    data: Seq<u32>,
    child: Child,
    depth: nat,
)
    requires
        stack_ok(before, data),
        advanced(before, after, data, Some(child)),
        stack_true(before, data, depth),
    ensures
        stack_true(after, data, depth),
        node_true(data, depth, child.cell, child.index as nat),
{
    let top = (after.len() - 1) as nat;
    assert forall|k: nat| k < after.len() implies node_true(
        data,
        depth,
        #[trigger] entry_cell(after, k),
        after[k as int].node_idx as nat,
    ) by {
        if k < top {
            assert(after.drop_last()[k as int] == before.take(top as int)[k as int]);
        }
        assert(entry_cell(after, k) == entry_cell(before, k));
    }
    let e = before[top as int];
    let oct = (after[top as int].next_child - 1) as nat;
    lemma_child_index_fits(data, e.node_idx as nat, oct);
    lemma_pow2_monotone(top, 24);
    lemma2_to64();
    assert forall|x: nat, y: nat, z: nat| #[trigger]
        child.cell.covers(depth, x, y, z) implies packed_at(
        data,
        child.index as nat,
        (depth - child.cell.level) as nat,
        x,
        y,
        z,
    ) == packed_at(data, 0, depth, x, y, z) by {
        let rem = (depth - top) as nat;
        assert(child.cell.level == top + 1 && e.x < pow2(top));
        lemma_from_half(x, rem, e.x as nat, oct % 2);
        lemma_from_half(y, rem, e.y as nat, (oct / 2) % 2);
        lemma_from_half(z, rem, e.z as nat, oct / 4);
        assert((depth - entry_cell(before, top).level) as nat == rem);
        assert(entry_cell(before, top).covers(depth, x, y, z));
        assert(octant_of(x, y, z, rem) == oct);
    }
}

/// Entering a child that is true to the data keeps the walk so, and a leaf's
/// value is the value of every voxel of its cell.
pub proof fn law_enter_keeps_true(
    before: Seq<StackEntry>,
    after: Seq<StackEntry>,
    data: Seq<u32>,
    child: Child,
    outcome: Entered,
    depth: nat,
)
    requires
        child.cell.level == before.len(),
        entered(before, after, data, child, outcome),
        stack_true(before, data, depth),
        node_true(data, depth, child.cell, child.index as nat),
    ensures
        stack_true(after, data, depth),
        outcome matches Entered::Leaf(v) ==> forall|x: nat, y: nat, z: nat| #[trigger]
            child.cell.covers(depth, x, y, z) ==> packed_at(data, 0, depth, x, y, z) == Some(v),
{
    assert forall|k: nat| k < after.len() implies node_true(
        data,
        depth,
        #[trigger] entry_cell(after, k),
        after[k as int].node_idx as nat,
    ) by {
        if k < before.len() {
            assert(entry_cell(after, k) == entry_cell(before, k));
        } else {
            assert(entry_cell(after, k) == child.cell);
        }
    }
}

/// A walk that has only the root on its stack is true to the data.
pub proof fn law_start_is_true(stack: Seq<StackEntry>, data: Seq<u32>, depth: nat)
    requires
        stack == seq![StackEntry { node_idx: 0, x: 0, y: 0, z: 0, next_child: 0 }],
    ensures
        stack_true(stack, data, depth),
{
}

/// The voxel reported for a leaf that is true to the data is one of the leaf's own,
/// wherever the ray met it, and the world holds the leaf's value there.
pub proof fn law_hit_voxel_holds_value(
    data: Seq<u32>,
    child: Child,
    depth: nat,
    px: int,
    py: int,
    pz: int,
)
    requires
        child.cell.in_grid(),
        child.cell.level <= depth,
        child.index < data.len(),
        data[child.index as int] >= 0x8000_0000,
        node_true(data, depth, child.cell, child.index as nat),
    ensures
        ({
            let level = child.cell.level as nat;
            let x = near_coord(px, child.cell.x as nat, level, depth) as nat;
            let y = near_coord(py, child.cell.y as nat, level, depth) as nat;
            let z = near_coord(pz, child.cell.z as nat, level, depth) as nat;
            &&& child.cell.covers(depth, x, y, z)
            &&& packed_at(data, 0, depth, x, y, z) == Some(
                (data[child.index as int] - 0x8000_0000) as u32,
            )
        }),
{
    let level = child.cell.level as nat;
    lemma_near_coord(px, child.cell.x as nat, level, depth);
    lemma_near_coord(py, child.cell.y as nat, level, depth);
    lemma_near_coord(pz, child.cell.z as nat, level, depth);
    let x = near_coord(px, child.cell.x as nat, level, depth) as nat;
    let y = near_coord(py, child.cell.y as nat, level, depth) as nat;
    let z = near_coord(pz, child.cell.z as nat, level, depth) as nat;
    assert(child.cell.covers(depth, x, y, z));
}

/// A cell covers the voxels from its number times its side up to the next cell,
/// along each axis.
pub proof fn law_cell_covers_range(cell: Cell, depth: nat, x: nat, y: nat, z: nat)
    requires
        cell.level <= depth,
    ensures
        ({
            let side = pow2((depth - cell.level) as nat);
            cell.covers(depth, x, y, z) <==> cell.x * side <= x < (cell.x + 1) * side && cell.y
                * side <= y < (cell.y + 1) * side && cell.z * side <= z < (cell.z + 1) * side
        }),
{
    let side = pow2((depth - cell.level) as nat);
    lemma_pow2_pos((depth - cell.level) as nat);
    lemma_quotient_range(x, side, cell.x as nat);
    lemma_quotient_range(y, side, cell.y as nat);
    lemma_quotient_range(z, side, cell.z as nat);
}

proof fn lemma_quotient_range(x: nat, d: nat, q: nat)
    requires
        d > 0,
    ensures
        x / d == q <==> q * d <= x < (q + 1) * d,
{
    assert(x / d == q <==> q * d <= x < (q + 1) * d) by (nonlinear_arith)
        requires
            d > 0,
    ;
}

/// The voxel coordinate of a cell that is picked for a coordinate lies in the
/// cell, and no other coordinate of the cell is nearer. In a cell that is smaller
/// than a voxel it is the coordinate of the voxel that the cell is a part of.
pub proof fn law_near_coord_is_nearest(p: int, i: nat, level: nat, depth: nat, other: nat)
    requires
        i < pow2(level),
    ensures
        level <= depth ==> {
            let side = pow2((depth - level) as nat);
            let c = near_coord(p, i, level, depth);
            &&& i * side <= c < (i + 1) * side
            &&& i * side <= other < (i + 1) * side ==> (if c >= p {
                c - p
            } else {
                p - c
            }) <= (if other >= p {
                other - p
            } else {
                p - other
            })
        },
        level > depth ==> {
            let parts = pow2((level - depth) as nat);
            let c = near_coord(p, i, level, depth);
            c * parts <= i < (c + 1) * parts
        },
{
    lemma_near_coord(p, i, level, depth);
    if level <= depth {
        let side = pow2((depth - level) as nat);
        lemma_pow2_pos((depth - level) as nat);
        assert((i + 1) * side == i * side + side) by (nonlinear_arith);
    } else {
        let parts = pow2((level - depth) as nat);
        lemma_pow2_pos((level - depth) as nat);
        lemma_quotient_range(i, parts, i / parts);
    }
}

/// A walk offers children of the deepest node that has one left, in the order of
/// their octants: the octant offered, which is the lowest bits of the child's
/// cell, is not before the one that the node is at, has a child, and no octant
/// between has one; and no node deeper on the stack has a child left. The child's
/// word is the node's pointer plus the children before it, and its cell is half of
/// the node's along each axis.
pub proof fn law_offer_is_next_in_order(
    before: Seq<StackEntry>,
    after: Seq<StackEntry>,
    data: Seq<u32>,
    child: Child,
    o: nat,
    j: int,
)
    requires
        stack_ok(before, data),
        advanced(before, after, data, Some(child)),
        o < 8,
    ensures
        ({
            let k = after.len() - 1;
            let e = before[k];
            let word = data[e.node_idx as int] as nat;
            let oct = (child.cell.x % 2 + 2 * (child.cell.y % 2) + 4 * (child.cell.z % 2)) as nat;
            &&& 0 <= k < before.len()
            &&& e.next_child <= oct < 8
            &&& word < 0x8000_0000
            &&& bit_at(word / 0x80_0000, oct)
            &&& e.next_child <= o < oct ==> !bit_at(word / 0x80_0000, o)
            &&& k < j < before.len() && before[j].next_child <= o && data[before[j].node_idx as int]
                < 0x8000_0000 ==> !bit_at(data[before[j].node_idx as int] as nat / 0x80_0000, o)
            &&& child.index == word % 0x80_0000 + popcount((word / 0x80_0000) % pow2(oct))
            &&& child.cell.level == k + 1
            &&& child.cell.x / 2 == e.x && child.cell.y / 2 == e.y && child.cell.z / 2 == e.z
            &&& after[k].next_child == oct + 1
        }),
{
    let k = after.len() - 1;
    let e = before[k];
    let oct = (after[k].next_child - 1) as nat;
    assert(e.node_idx < data.len());
    lemma_pow2_monotone(k as nat, 24);
    lemma2_to64();
    assert(2 * e.x + 1 < 0x1_0000_0000 && 2 * e.y + 1 < 0x1_0000_0000 && 2 * e.z + 1
        < 0x1_0000_0000);
    assert(oct == oct % 2 + 2 * ((oct / 2) % 2) + 4 * (oct / 4));
    if e.next_child <= o < oct {
        assert(!has_child(data, e.node_idx as nat, o));
    }
    if k < j < before.len() && before[j].next_child <= o {
        assert(exhausted(data, before[j]));
        assert(!has_child(data, before[j].node_idx as nat, o));
        assert(before[j].node_idx < data.len());
    }
}

/// A walk that has ended has offered every child: no node that was on the stack
/// had one left.
pub proof fn law_end_leaves_nothing(
    before: Seq<StackEntry>,
    after: Seq<StackEntry>,
    data: Seq<u32>,
    o: nat,
    j: int,
)
    requires
        stack_ok(before, data),
        advanced(before, after, data, None),
        0 <= j < before.len(),
        before[j].next_child <= o < 8,
        data[before[j].node_idx as int] < 0x8000_0000,
    ensures
        after.len() == 0,
        !bit_at(data[before[j].node_idx as int] as nat / 0x80_0000, o),
{
    assert(exhausted(data, before[j]));
    assert(!has_child(data, before[j].node_idx as nat, o));
    assert(before[j].node_idx < data.len());
}

/// What entering a child comes to: nothing where its index lies outside the data,
/// its value where its word is a leaf, and otherwise its node is visited next from
/// its first octant, unless 24 nodes are being visited already.
pub proof fn law_enter_outcome(
    before: Seq<StackEntry>,
    after: Seq<StackEntry>,
    data: Seq<u32>,
    child: Child,
    outcome: Entered,
)
    requires
        entered(before, after, data, child, outcome),
    ensures
        outcome is Missing <==> child.index >= data.len(),
        outcome is Leaf <==> child.index < data.len() && data[child.index as int] >= 0x8000_0000,
        outcome matches Entered::Leaf(v) ==> v == data[child.index as int] - 0x8000_0000,
        outcome is TooDeep <==> child.index < data.len() && data[child.index as int] < 0x8000_0000
            && before.len() >= 24,
        !(outcome is Node) ==> after == before,
        outcome is Node ==> {
            &&& after.len() == before.len() + 1
            &&& after.drop_last() == before
            &&& after.last().node_idx == child.index
            &&& (after.last().x, after.last().y, after.last().z) == (
                child.cell.x,
                child.cell.y,
                child.cell.z,
            )
            &&& after.last().next_child == 0
        },
{
    if outcome is Node {
        assert(after.drop_last() =~= before);
    }
}

} // verus!
