//! The scene: a Menger sponge in the middle of one chunk.

use vstd::arithmetic::power::{lemma_pow0, lemma_pow_positive, pow};
use vstd::prelude::*;

use crate::store::CHUNK_SIZE;

verus! {

/// Side of the sponge, in voxels.
pub const SPONGE_SIZE: u32 = 27;

/// Where the sponge begins along each axis.
pub const SPONGE_OFFSET: u32 = 18;

/// The voxel value the sponge is made of.
pub const SPONGE_VALUE: u8 = 3;

/// How many of three base-3 digits are the middle one.
pub open spec fn centers(a: nat, b: nat, c: nat) -> nat {
    (if a == 1 {
        1nat
    } else {
        0
    }) + (if b == 1 {
        1nat
    } else {
        0
    }) + (if c == 1 {
        1nat
    } else {
        0
    })
}

/// Whether a point belongs to a Menger sponge of a given size: not in the middle
/// of a face or of the cube at any scale, going down by thirds.
pub open spec fn menger(x: nat, y: nat, z: nat, size: nat) -> bool
    decreases size,
{
    size <= 1 || {
        let s = size / 3;
        &&& s > 0
        &&& centers((x / s) % 3, (y / s) % 3, (z / s) % 3) < 2
        &&& menger(x % s, y % s, z % s, s)
    }
}

/// Whether taking thirds of a size ends at one.
pub open spec fn thirds_down_to_one(size: nat) -> bool
    decreases size,
{
    if size <= 1 {
        size == 1
    } else {
        thirds_down_to_one(size / 3)
    }
}

/// Whether going down by thirds from a size decides whether a point belongs to the
/// sponge before a third is zero.
pub open spec fn menger_decides(x: nat, y: nat, z: nat, size: nat) -> bool
    decreases size,
{
    size <= 1 || {
        let s = size / 3;
        &&& s > 0
        &&& centers((x / s) % 3, (y / s) % 3, (z / s) % 3) >= 2 || menger_decides(
            x % s,
            y % s,
            z % s,
            s,
        )
    }
}

/// A size whose thirds go down to one, as those of every power of three do,
/// decides every point.
pub proof fn lemma_thirds_decide(x: nat, y: nat, z: nat, size: nat)
    requires
        thirds_down_to_one(size),
    ensures
        menger_decides(x, y, z, size),
    decreases size,
{
    if size > 1 {
        let s = size / 3;
        assert(thirds_down_to_one(s));
        lemma_thirds_decide(x % s, y % s, z % s, s);
    }
}

/// Whether a point belongs to a Menger sponge of a size.
pub fn is_menger(x: u32, y: u32, z: u32, size: u32) -> (inside: bool)
    requires
        menger_decides(x as nat, y as nat, z as nat, size as nat),
    ensures
        inside == menger(x as nat, y as nat, z as nat, size as nat),
        size <= 1 ==> inside,
        size > 1 && inside ==> {
            let s = size / 3;
            &&& s > 0
            &&& !((x / s) % 3 == 1 && (y / s) % 3 == 1)
            &&& !((x / s) % 3 == 1 && (z / s) % 3 == 1)
            &&& !((y / s) % 3 == 1 && (z / s) % 3 == 1)
        },
{
    let (mut px, mut py, mut pz): (u32, u32, u32) = (x, y, z);
    let mut s: u32 = size;
    while s > 1
        invariant
            menger_decides(px as nat, py as nat, pz as nat, s as nat),
            menger(x as nat, y as nat, z as nat, size as nat) == menger(
                px as nat,
                py as nat,
                pz as nat,
                s as nat,
            ),
        decreases s,
    {
        s = s / 3;
        let cx: u32 = (px / s) % 3;
        let cy: u32 = (py / s) % 3;
        let cz: u32 = (pz / s) % 3;
        let mut center_count: u32 = 0;
        if cx == 1 {
            center_count += 1;
        }
        if cy == 1 {
            center_count += 1;
        }
        if cz == 1 {
            center_count += 1;
        }
        if center_count >= 2 {
            return false;
        }
        px = px % s;
        py = py % s;
        pz = pz % s;
    }
    true
}

/// The voxel of the scene at a point.
pub open spec fn scene_voxel(x: nat, y: nat, z: nat) -> u8 {
    if 18 <= x < 45 && 18 <= y < 45 && 18 <= z < 45 && menger(
        (x - 18) as nat,
        (y - 18) as nat,
        (z - 18) as nat,
        27,
    ) {
        3
    } else {
        0
    }
}

/// The scene as a dense grid of one chunk, x fastest and z slowest.
pub fn scene_voxels() -> (grid: Vec<u8>)
    ensures
        grid@.len() == CHUNK_SIZE * CHUNK_SIZE * CHUNK_SIZE,
        grid@.len() == 0x4_0000,
        forall|x: nat, y: nat, z: nat|
            x < 64 && y < 64 && z < 64 ==> grid@[(x + 64 * y + 4096 * z) as int] == #[trigger]
                scene_voxel(x, y, z),
{
    let mut grid: Vec<u8> = Vec::new();
    let mut i: u32 = 0;
    assert(thirds_down_to_one(27)) by {
        reveal_with_fuel(thirds_down_to_one, 5);
    }
    while i < 0x4_0000
        invariant
            i <= 0x4_0000,
            grid@.len() == i,
            thirds_down_to_one(27),
            forall|k: int|
                0 <= k < i ==> #[trigger] grid@[k] == scene_voxel(
                    (k % 64) as nat,
                    ((k / 64) % 64) as nat,
                    (k / 4096) as nat,
                ),
        decreases 0x4_0000 - i,
    {
        let x: u32 = i % CHUNK_SIZE;
        let y: u32 = (i / CHUNK_SIZE) % CHUNK_SIZE;
        let z: u32 = i / (CHUNK_SIZE * CHUNK_SIZE);
        let end: u32 = SPONGE_OFFSET + SPONGE_SIZE;
        let in_box: bool = SPONGE_OFFSET <= x && x < end && SPONGE_OFFSET <= y && y < end
            && SPONGE_OFFSET <= z && z < end;
        proof {
            if in_box {
                lemma_thirds_decide(
                    (x - SPONGE_OFFSET) as nat,
                    (y - SPONGE_OFFSET) as nat,
                    (z - SPONGE_OFFSET) as nat,
                    27,
                );
            }
        }
        let value: u8 = if in_box && is_menger(
            x - SPONGE_OFFSET,
            y - SPONGE_OFFSET,
            z - SPONGE_OFFSET,
            SPONGE_SIZE,
        ) {
            SPONGE_VALUE
        } else {
            0
        };
        grid.push(value);
        i += 1;
    }
    proof {
        assert forall|x: nat, y: nat, z: nat| x < 64 && y < 64 && z < 64 implies grid@[(x + 64 * y
            + 4096 * z) as int] == #[trigger] scene_voxel(x, y, z) by {
            let k = (x + 64 * y + 4096 * z) as int;
            assert(k % 64 == x && (k / 64) % 64 == y && k / 4096 == z);
        }
    }
    grid
}

/// Digit `j` of a number in base 3.
pub open spec fn digit3(x: nat, j: nat) -> nat {
    (x / pow(3, j) as nat) % 3
}

/// A sponge of side `3^k` is the points whose base-3 digits have, at every
/// place, at most one middle digit among the three coordinates.
pub proof fn law_sponge_digits(x: nat, y: nat, z: nat, k: nat)
    ensures
        menger(x, y, z, pow(3, k) as nat) <==> forall|j: nat|
            #![trigger digit3(x, j)]
            j < k ==> centers(digit3(x, j), digit3(y, j), digit3(z, j)) < 2,
    decreases k,
{
    lemma_pow_positive(3, k);
    if k == 0 {
        lemma_pow0(3);
    } else {
        let i = (k - 1) as nat;
        let s = pow(3, i) as nat;
        lemma_pow_positive(3, i);
        vstd::arithmetic::power::lemma_pow_adds(3, 1, i);
        vstd::arithmetic::power::lemma_pow1(3);
        assert(pow(3, k) == 3 * s);
        assert(pow(3, k) as nat / 3 == s);
        let (a, b, c) = (x % s, y % s, z % s);
        law_sponge_digits(a, b, c, i);
        assert forall|j: nat| j < i implies #[trigger] digit3(x, j) == digit3(a, j) && digit3(y, j)
            == digit3(b, j) && digit3(z, j) == digit3(c, j) by {
            lemma_low_digit(x, j, i);
            lemma_low_digit(y, j, i);
            lemma_low_digit(z, j, i);
        }
        assert(digit3(x, i) == (x / s) % 3);
        let all = forall|j: nat|
            #![trigger digit3(x, j)]
            j < k ==> centers(digit3(x, j), digit3(y, j), digit3(z, j)) < 2;
        let low = forall|j: nat|
            #![trigger digit3(a, j)]
            j < i ==> centers(digit3(a, j), digit3(b, j), digit3(c, j)) < 2;
        if low && centers((x / s) % 3, (y / s) % 3, (z / s) % 3) < 2 {
            assert forall|j: nat| #![trigger digit3(x, j)] j < k implies centers(
                digit3(x, j),
                digit3(y, j),
                digit3(z, j),
            ) < 2 by {
                assert(digit3(a, j) == digit3(a, j));
            }
        }
        if all {
            assert forall|j: nat| #![trigger digit3(a, j)] j < i implies centers(
                digit3(a, j),
                digit3(b, j),
                digit3(c, j),
            ) < 2 by {
                assert(digit3(x, j) == digit3(a, j));
            }
        }
    }
}

/// Digits below a place are unchanged by dropping the digits from it up.
proof fn lemma_low_digit(x: nat, j: nat, i: nat)
    requires
        j < i,
    ensures
        digit3(x, j) == digit3(x % (pow(3, i) as nat), j),
{
    let p = pow(3, j);
    let q = pow(3, (i - j - 1) as nat);
    lemma_pow_positive(3, j);
    lemma_pow_positive(3, i);
    lemma_pow_positive(3, (i - j - 1) as nat);
    vstd::arithmetic::power::lemma_pow_adds(3, j, (i - j) as nat);
    vstd::arithmetic::power::lemma_pow_adds(3, 1, (i - j - 1) as nat);
    vstd::arithmetic::power::lemma_pow1(3);
    let s = pow(3, i);
    let d = x as int / s;
    let r = x as int % s;
    vstd::arithmetic::div_mod::lemma_fundamental_div_mod(x as int, s);
    assert(x == p * (3 * (q * d)) + r) by (nonlinear_arith)
        requires
            x == s * d + r,
            s == p * (3 * q),
    ;
    let t = q * d;
    vstd::arithmetic::div_mod::lemma_hoist_over_denominator(r, 3 * t, p as nat);
    assert((r / p + 3 * t) % 3 == (r / p) % 3);
    assert(p * (3 * t) == (3 * t) * p) by (nonlinear_arith);
}

/// How many voxels of a grid are solid.
pub open spec fn solids(grid: Seq<u8>) -> nat
    decreases grid.len(),
{
    if grid.len() == 0 {
        0
    } else {
        solids(grid.drop_last()) + if grid.last() != 0 {
            1nat
        } else {
            0
        }
    }
}

/// How many voxels of a grid are solid.
pub fn solid_count(grid: &[u8]) -> (count: usize)
    ensures
        count == solids(grid@),
{
    let mut count: usize = 0;
    let mut i: usize = 0;
    while i < grid.len()
        invariant
            i <= grid@.len(),
            count <= i,
            count == solids(grid@.take(i as int)),
        decreases grid@.len() - i,
    {
        assert(grid@.take(i + 1).drop_last() =~= grid@.take(i as int));
        if grid[i] != 0 {
            count += 1;
        }
        i += 1;
    }
    assert(grid@.take(i as int) =~= grid@);
    count
}

/// One step down by thirds, over every size: a point belongs to a sponge just if
/// at the coarsest scale no two of its three coordinates are in the middle third,
/// and it belongs to the sponge of a third of the size.
pub proof fn law_sponge_by_thirds(x: nat, y: nat, z: nat, size: nat)
    ensures
        size <= 1 ==> menger(x, y, z, size),
        size == 2 ==> !menger(x, y, z, size),
        size >= 3 ==> {
            let s = size / 3;
            let (a, b, c) = ((x / s) % 3, (y / s) % 3, (z / s) % 3);
            menger(x, y, z, size) <==> !(a == 1 && b == 1) && !(a == 1 && c == 1) && !(b == 1 && c
                == 1) && menger(x % s, y % s, z % s, s)
        },
{
}

/// A point belongs to a sponge of side `3^k` just if there is no place among the
/// `k` lowest at which two of its three coordinates have the base-3 digit 1.
pub proof fn law_sponge_middle_digits(x: nat, y: nat, z: nat, k: nat)
    ensures
        menger(x, y, z, pow(3, k) as nat) <==> forall|j: nat|
            #![trigger pow(3, j)]
            j < k ==> {
                let p = pow(3, j) as nat;
                let (a, b, c) = ((x / p) % 3, (y / p) % 3, (z / p) % 3);
                !(a == 1 && b == 1) && !(a == 1 && c == 1) && !(b == 1 && c == 1)
            },
{
    law_sponge_digits(x, y, z, k);
    let inside = menger(x, y, z, pow(3, k) as nat);
    if inside {
        assert forall|j: nat| #![trigger pow(3, j)] j < k implies {
            let p = pow(3, j) as nat;
            let (a, b, c) = ((x / p) % 3, (y / p) % 3, (z / p) % 3);
            !(a == 1 && b == 1) && !(a == 1 && c == 1) && !(b == 1 && c == 1)
        } by {
            assert(centers(digit3(x, j), digit3(y, j), digit3(z, j)) < 2);
        }
    } else {
        let j = choose|j: nat|
            #![trigger digit3(x, j)]
            j < k && !(centers(digit3(x, j), digit3(y, j), digit3(z, j)) < 2);
        let p = pow(3, j) as nat;
        assert(digit3(x, j) == (x / p) % 3 && digit3(y, j) == (y / p) % 3 && digit3(z, j) == (z / p)
            % 3);
    }
}

/// A sponge looks the same along every axis: exchanging coordinates of a point
/// does not change whether it belongs.
pub proof fn law_sponge_is_symmetric(x: nat, y: nat, z: nat, size: nat)
    ensures
        menger(x, y, z, size) == menger(y, x, z, size),
        menger(x, y, z, size) == menger(x, z, y, size),
    decreases size,
{
    if size > 1 {
        let s = size / 3;
        law_sponge_is_symmetric(x % s, y % s, z % s, s);
    }
}

/// The scene is voxels of value 3 where the sponge is, which is where a point is
/// from 18 up to 45 along every axis and, counted from 18, no two of its base-3
/// digits at any of three places are 1; and empty elsewhere.
pub proof fn law_scene_is_sponge(x: nat, y: nat, z: nat)
    ensures
        scene_voxel(x, y, z) == 0 || scene_voxel(x, y, z) == 3,
        scene_voxel(x, y, z) == 3 <==> 18 <= x < 45 && 18 <= y < 45 && 18 <= z < 45 && forall|
            j: nat,
        |
            #![trigger pow(3, j)]
            j < 3 ==> {
                let p = pow(3, j) as nat;
                let (a, b, c) = (
                    ((x - 18) as nat / p) % 3,
                    ((y - 18) as nat / p) % 3,
                    ((z - 18) as nat / p) % 3,
                );
                !(a == 1 && b == 1) && !(a == 1 && c == 1) && !(b == 1 && c == 1)
            },
{
    if 18 <= x < 45 && 18 <= y < 45 && 18 <= z < 45 {
        law_sponge_middle_digits((x - 18) as nat, (y - 18) as nat, (z - 18) as nat, 3);
        assert(pow(3, 3) == 27) by {
            reveal(pow);
            reveal_with_fuel(pow, 4);
        }
    }
}

/// The solid voxels of a grid are counted one by one: a grid of two parts has as
/// many as the parts, and one voxel counts just if it is not zero.
pub proof fn law_solids_add_up(a: Seq<u8>, b: Seq<u8>, v: u8)
    ensures
        solids(a + b) == solids(a) + solids(b),
        solids(seq![v]) == (if v != 0 {
            1nat
        } else {
            0
        }),
        solids(Seq::empty()) == 0,
    decreases b.len(),
{
    assert(seq![v].drop_last() =~= Seq::<u8>::empty());
    assert(solids(Seq::empty()) == 0);
    assert(solids(seq![v]) == solids(seq![v].drop_last()) + if v != 0 {
        1nat
    } else {
        0
    });
    if b.len() == 0 {
        assert(a + b =~= a);
    } else {
        law_solids_add_up(a, b.drop_last(), v);
        assert((a + b).drop_last() =~= a + b.drop_last());
        assert((a + b).last() == b.last());
    }
}

} // verus!
