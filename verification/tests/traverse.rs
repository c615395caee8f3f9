use glam::Vec3;
use voxels::octree::Octree;
use voxels::packed::LEAF_BIT;
use voxels::scene::{is_menger, scene_voxels};
use voxels::traverse::{Cell, Entered, OctreeWalk, Root, VoxelHit};
use voxels::tree64::{mask_test, pack_data, popcount_below, read_data_u8, read_node, xyz_to_bit};
use voxels::walk64::{tree_fits, GridCell, Probe, Tree64Walk};

const MIN_DIR: f32 = 1e-8;

/// A ray from a point in a direction.
#[derive(Clone, Copy)]
struct Ray {
    orig: Vec3,
    dir: Vec3,
}

/// Where and how a ray hit a voxel.
#[derive(Clone, Copy)]
struct Hit {
    t: f32,
    normal: Vec3,
    pos: [u32; 3],
    value: u32,
}

fn ray_aabb(ray: &Ray, min: Vec3, max: Vec3) -> (f32, f32, u32) {
    let inv = Vec3::ONE / ray.dir;
    let lo = (min - ray.orig) * inv;
    let hi = (max - ray.orig) * inv;
    let (tx0, tx1) = if inv.x >= 0.0 { (lo.x, hi.x) } else { (hi.x, lo.x) };
    let (ty0, ty1) = if inv.y >= 0.0 { (lo.y, hi.y) } else { (hi.y, lo.y) };
    let (tz0, tz1) = if inv.z >= 0.0 { (lo.z, hi.z) } else { (hi.z, lo.z) };
    let mut t_enter = tx0;
    let mut face = 0;
    if ty0 > t_enter {
        t_enter = ty0;
        face = 1;
    }
    if tz0 > t_enter {
        t_enter = tz0;
        face = 2;
    }
    (t_enter, tx1.min(ty1).min(tz1), face)
}

fn face_normal(ray: &Ray, axis: u32) -> Vec3 {
    let mut normal = Vec3::ZERO;
    normal[axis as usize] = if ray.dir[axis as usize] > 0.0 { -1.0 } else { 1.0 };
    normal
}

/// The voxel of a cell that a ray is at.
fn voxel_at(ray: &Ray, t: f32, cell: &Cell, depth: u32) -> [u32; 3] {
    let p = ray.orig + t * ray.dir;
    cell.voxel_near(depth, p.x as i32, p.y as i32, p.z as i32)
}

/// The nearest voxel of a packed octree that a ray hits.
fn trace_octree(data: &[u32], depth: u32, ray: &Ray, t_min: f32, t_max: f32) -> Option<Hit> {
    let size = (1u32 << depth) as f32;
    let (t_enter, t_exit, axis) = ray_aabb(ray, Vec3::ZERO, Vec3::splat(size));
    let t_enter = t_enter.max(t_min);
    if t_enter >= t_exit.min(t_max) {
        return None;
    }
    let mut walk = match OctreeWalk::start(data) {
        Root::Nothing => return None,
        Root::Solid(value) => {
            return Some(Hit {
                t: t_enter,
                normal: face_normal(ray, axis),
                pos: voxel_at(ray, t_enter, &Cell { level: 0, x: 0, y: 0, z: 0 }, depth),
                value,
            });
        }
        Root::Walk(walk) => walk,
    };
    let mut best_t = t_max;
    let mut found = None;
    while let Some(child) = walk.next_child(data) {
        let side = size / (1u32 << child.cell.level) as f32;
        let min = Vec3::new(
            child.cell.x as f32 * side,
            child.cell.y as f32 * side,
            child.cell.z as f32 * side,
        );
        let (enter, exit, axis) = ray_aabb(ray, min, min + Vec3::splat(side));
        let enter = enter.max(t_min);
        if enter >= exit.min(best_t) {
            continue;
        }
        if let Entered::Leaf(value) = walk.enter(data, &child) {
            if enter < best_t {
                best_t = enter;
                found = Some(Hit {
                    t: enter,
                    normal: face_normal(ray, axis),
                    pos: voxel_at(ray, enter, &child.cell, depth),
                    value,
                });
            }
        }
    }
    found
}

/// The first voxel of a packed 64-tree that a ray hits.
fn trace_tree64(
    nodes: &[u32],
    data: &[u32],
    num_levels: u32,
    root: u32,
    ray: &Ray,
    t_min: f32,
    t_max: f32,
) -> Option<Hit> {
    let world_size = (1u32 << (2 * num_levels)) as f32;
    let (t_enter, t_exit, mut axis) = ray_aabb(ray, Vec3::ZERO, Vec3::splat(world_size));
    let mut t = t_enter.max(t_min);
    let t_exit = t_exit.min(t_max);
    if t >= t_exit {
        return None;
    }
    let mut dir = ray.dir;
    for a in 0..3 {
        if dir[a].abs() < MIN_DIR {
            dir[a] = if dir[a] < 0.0 { -MIN_DIR } else { MIN_DIR };
        }
    }
    let inv = Vec3::ONE / dir;
    let p = ray.orig + t * ray.dir;
    let mut walk = Tree64Walk::start(
        nodes, data, num_levels, root, p.x as i32, p.y as i32, p.z as i32,
    )?;
    loop {
        match walk.probe(nodes, data) {
            Probe::Hit(VoxelHit { pos, value }) => {
                return Some(Hit {
                    t,
                    normal: face_normal(ray, axis),
                    pos,
                    value,
                });
            }
            Probe::Node(_) => {
                let p = ray.orig + t * ray.dir;
                walk.descend(nodes, data, p.x as i32, p.y as i32, p.z as i32);
            }
            Probe::Empty(GridCell { x, y, z, side }) => {
                let low = [x, y, z];
                let mut times = [0.0; 3];
                for a in 0..3 {
                    let bound = if dir[a] >= 0.0 { low[a] + side } else { low[a] };
                    times[a] = (bound as f32 - ray.orig[a]) * inv[a];
                }
                let a = if times[0] <= times[1] && times[0] <= times[2] {
                    0
                } else if times[1] <= times[2] {
                    1
                } else {
                    2
                };
                t = times[a];
                axis = a as u32;
                if t >= t_exit || !walk.step(nodes, data, axis, dir[a] >= 0.0) {
                    return None;
                }
            }
            Probe::Exhausted => return None,
        }
    }
}

/// Build a packed 64-tree over a dense grid of `4^levels` voxels per axis. The
/// root comes last.
struct Builder<'a> {
    grid: &'a [u8],
    size: u32,
    nodes: Vec<u32>,
    data: Vec<u8>,
}

impl Builder<'_> {
    /// The words of the node over a cube, or nothing where it is empty. Its
    /// children are stored.
    fn node(&mut self, levels: u32, x: u32, y: u32, z: u32) -> Option<[u32; 3]> {
        let cell = 1u32 << (2 * (levels - 1));
        let mut mask = 0u64;
        let mut children: Vec<[u32; 3]> = Vec::new();
        let mut values: Vec<u8> = Vec::new();
        for bit in 0..64u32 {
            let (cx, cy, cz) = (
                x + (bit & 3) * cell,
                y + ((bit >> 2) & 3) * cell,
                z + (bit >> 4) * cell,
            );
            if levels == 1 {
                let value = self.grid[(cx + cy * self.size + cz * self.size * self.size) as usize];
                if value != 0 {
                    mask |= 1 << bit;
                    values.push(value);
                }
            } else if let Some(child) = self.node(levels - 1, cx, cy, cz) {
                mask |= 1 << bit;
                children.push(child);
            }
        }
        if mask == 0 {
            return None;
        }
        let word = if levels == 1 {
            let ptr = self.data.len() as u32;
            self.data.extend(values);
            ptr << 1 | 1
        } else {
            let ptr = self.nodes.len() as u32 / 3;
            for child in children {
                self.nodes.extend(child);
            }
            ptr << 1
        };
        Some([word, mask as u32, (mask >> 32) as u32])
    }
}

fn build(grid: &[u8], levels: u32) -> (Vec<u32>, Vec<u32>, u32) {
    let mut builder = Builder {
        grid,
        size: 1 << (2 * levels),
        nodes: Vec::new(),
        data: Vec::new(),
    };
    let root = builder.node(levels, 0, 0, 0).unwrap_or([1, 0, 0]);
    let index = builder.nodes.len() as u32 / 3;
    builder.nodes.extend(root);
    (builder.nodes, pack_data(&builder.data), index)
}

#[test]
fn flatten_traverse_roundtrip() {
    let mut tree = Octree::new(4); // 16x16x16
    // Place a voxel at (3, 0, 3)
    tree.set(3, 0, 3, 42);

    let data = tree.flatten();
    assert!(!data.is_empty());

    // Shoot a ray straight down at (3.5, ?, 3.5) — should hit the voxel
    let ray = Ray {
        orig: Vec3::new(3.5, 10.0, 3.5),
        dir: Vec3::new(0.0, -1.0, 0.0),
    };
    let hit = trace_octree(&data, 4, &ray, 0.001, 1000.0);
    assert!(hit.is_some(), "ray should hit the voxel");
    let hit = hit.unwrap();
    assert_eq!(hit.value, 42);
    // Normal should be +Y (top face, ray coming from above)
    assert!(
        (hit.normal - Vec3::new(0.0, 1.0, 0.0)).length() < 1e-6,
        "expected +Y normal, got {:?}",
        hit.normal
    );
    assert_eq!(hit.pos, [3, 0, 3]);
    assert!((hit.t - 9.0).abs() < 1e-5);

    // Shoot a ray that misses (off to the side)
    let ray_miss = Ray {
        orig: Vec3::new(0.5, 10.0, 0.5),
        dir: Vec3::new(0.0, -1.0, 0.0),
    };
    let found2 = trace_octree(&data, 4, &ray_miss, 0.001, 1000.0).is_some();
    assert!(!found2, "ray should miss");
}

#[test]
fn test_menger_traversal() {
    // First: simple test - single voxel in a depth-6 world
    {
        let mut octree = Octree::new(6);
        octree.set(32, 32, 32, 5);
        let data = octree.flatten();
        println!("Simple: {} entries", data.len());

        let ray = Ray {
            orig: Vec3::new(32.5, 32.5, 40.0),
            dir: Vec3::new(0.0, 0.0, -1.0),
        };
        let hit = trace_octree(&data, 6, &ray, 0.001, 1000.0);
        assert!(hit.is_some(), "Should hit single voxel in depth-6 world");
        assert_eq!(hit.unwrap().value, 5);
    }

    // Second: small filled cube in depth-6 world
    {
        let mut octree = Octree::new(6);
        for x in 30..34 {
            for y in 30..34 {
                for z in 30..34 {
                    octree.set(x, y, z, 3);
                }
            }
        }
        let data = octree.flatten();
        println!("Cube: {} entries", data.len());

        let ray = Ray {
            orig: Vec3::new(32.0, 32.0, 50.0),
            dir: Vec3::new(0.0, 0.0, -1.0),
        };
        let found = trace_octree(&data, 6, &ray, 0.001, 1000.0).is_some();
        assert!(found, "Should hit cube in depth-6 world");
    }

    // Third: menger sponge
    {
        let depth = 6u32;
        let size = 1u32 << depth;
        let mut octree = Octree::new(depth);
        let sponge_size = 27u32;
        let offset = (size - sponge_size) / 2;
        for x in 0..sponge_size {
            for y in 0..sponge_size {
                for z in 0..sponge_size {
                    if is_menger(x, y, z, sponge_size) {
                        octree.set(x + offset, y + offset, z + offset, 3);
                    }
                }
            }
        }

        // Verify some voxels exist
        assert_eq!(octree.get(offset, offset, offset), Some(3));
        assert_eq!(octree.get(offset + 13, offset + 13, offset + 13), None); // center hole

        let data = octree.flatten();
        println!("Menger: {} entries", data.len());

        // Ray straight at a known-filled corner
        let tx = (offset as f32) + 0.5;
        let ty = (offset as f32) + 0.5;
        let tz = (offset as f32) + 0.5;
        let ray = Ray {
            orig: Vec3::new(tx, ty, tz + 20.0),
            dir: Vec3::new(0.0, 0.0, -1.0),
        };
        let found = trace_octree(&data, depth, &ray, 0.001, 1000.0).is_some();
        assert!(found, "Ray should hit Menger sponge corner");
    }
}

const SIZE: u32 = 64;

/// A Menger sponge plus a few stray voxels, as a dense grid and a tree64.
fn scene() -> (Vec<u8>, Vec<u32>, Vec<u32>, u32, u32) {
    let mut flat = vec![0u8; (SIZE * SIZE * SIZE) as usize];
    let sponge = 27;
    let offset = (SIZE - sponge) / 2;
    for z in 0..sponge {
        for y in 0..sponge {
            for x in 0..sponge {
                if is_menger(x, y, z, sponge) {
                    let i = (x + offset) + (y + offset) * SIZE + (z + offset) * SIZE * SIZE;
                    flat[i as usize] = 3;
                }
            }
        }
    }
    for &(x, y, z, v) in &[
        (0, 0, 0, 1u8),
        (63, 63, 63, 2),
        (5, 60, 7, 4),
        (40, 2, 61, 1),
    ] {
        flat[(x + y * SIZE + z * SIZE * SIZE) as usize] = v;
    }
    let (nodes, data, root) = build(&flat, 3);
    (flat, nodes, data, 3, root)
}

/// Plain Amanatides-Woo over the dense grid, one voxel at a time.
fn reference(grid: &[u8], ray: &Ray, t_min: f32, t_max: f32) -> Option<(f32, u32, Vec3, [u32; 3])> {
    let size = SIZE as f32;
    let (t_enter, t_exit, mut axis) = ray_aabb(ray, Vec3::ZERO, Vec3::splat(size));
    let t_enter = t_enter.max(t_min);
    let t_exit = t_exit.min(t_max);
    if t_enter >= t_exit {
        return None;
    }
    let o = ray.orig;
    let d = ray.dir;
    let p = o + t_enter * d;
    let max = SIZE as i32 - 1;
    let mut i = [
        (p.x.floor() as i32).clamp(0, max),
        (p.y.floor() as i32).clamp(0, max),
        (p.z.floor() as i32).clamp(0, max),
    ];
    let dd = [d.x, d.y, d.z];
    let oo = [o.x, o.y, o.z];
    let mut t = t_enter;
    loop {
        let v = grid[(i[0] + i[1] * SIZE as i32 + i[2] * SIZE as i32 * SIZE as i32) as usize];
        if v != 0 {
            return Some((
                t,
                v as u32,
                face_normal(ray, axis),
                [i[0] as u32, i[1] as u32, i[2] as u32],
            ));
        }
        let mut best = f32::INFINITY;
        let mut best_axis = 0;
        for a in 0..3 {
            if dd[a] == 0.0 {
                continue;
            }
            let b = if dd[a] > 0.0 { i[a] + 1 } else { i[a] };
            let ta = (b as f32 - oo[a]) / dd[a];
            if ta < best {
                best = ta;
                best_axis = a;
            }
        }
        t = best;
        axis = best_axis as u32;
        i[best_axis] += if dd[best_axis] > 0.0 { 1 } else { -1 };
        if t >= t_exit || i[best_axis] < 0 || i[best_axis] > max {
            return None;
        }
    }
}

struct Lcg(u64);

impl Lcg {
    fn f(&mut self) -> f32 {
        self.0 = self
            .0
            .wrapping_mul(6364136223846793005)
            .wrapping_add(1442695040888963407);
        ((self.0 >> 40) as f32) / (1u64 << 24) as f32
    }
    fn range(&mut self, lo: f32, hi: f32) -> f32 {
        lo + self.f() * (hi - lo)
    }
    fn point(&mut self, lo: f32, hi: f32) -> Vec3 {
        Vec3::new(self.range(lo, hi), self.range(lo, hi), self.range(lo, hi))
    }
}

#[test]
fn matches_dense_grid_reference() {
    let (grid, nodes, data, levels, root) = scene();
    assert!(tree_fits(&nodes, &data, root, levels));
    let mut rng = Lcg(7);
    let mut hits = 0;
    for k in 0..20_000 {
        // Half the rays start outside the world, half inside it
        let orig = if k % 2 == 0 {
            let u = rng.point(-1.0, 1.0).normalize_or_zero();
            Vec3::splat(32.0) + u * rng.range(60.0, 120.0)
        } else {
            rng.point(0.0, 64.0)
        };
        let target = rng.point(0.0, 64.0);
        let mut dir = (target - orig).normalize_or_zero();
        if dir == Vec3::ZERO {
            continue;
        }
        // Some axis-aligned rays, which are the degenerate case for DDA
        if k % 7 == 0 {
            dir = match k % 3 {
                0 => Vec3::new(dir.x.signum(), 0.0, 0.0),
                1 => Vec3::new(0.0, dir.y.signum(), 0.0),
                _ => Vec3::new(0.0, 0.0, dir.z.signum()),
            };
        }
        let ray = Ray { orig, dir };

        let expected = reference(&grid, &ray, 0.001, 1000.0);
        let found = trace_tree64(&nodes, &data, levels, root, &ray, 0.001, 1000.0);

        match expected {
            None => assert!(
                found.is_none(),
                "ray {k} {orig:?} {dir:?}: expected miss, hit {:?}",
                found.map(|hit| (hit.pos, hit.t))
            ),
            Some((t, value, normal, pos)) => {
                hits += 1;
                assert!(
                    found.is_some(),
                    "ray {k} {orig:?} {dir:?}: expected hit at {pos:?} t={t}, got miss"
                );
                let hit = found.unwrap();
                // A ray skimming a voxel edge may legitimately land in a
                // neighbouring voxel of the same distance, so compare on t
                // and value, and only demand the same voxel when t agrees
                assert!((hit.t - t).abs() < 1e-3, "ray {k}: t {} vs {t}", hit.t);
                assert_eq!(hit.value, value, "ray {k}: value");
                if hit.pos != pos {
                    assert!(
                        (hit.t - t).abs() < 1e-4,
                        "ray {k}: pos {:?} vs {pos:?}",
                        hit.pos
                    );
                } else {
                    assert_eq!(hit.normal, normal, "ray {k}: normal");
                }
            }
        }
    }
    assert!(
        hits > 5000,
        "only {hits} rays hit; the test is not exercising much"
    );
}

#[test]
fn a_solid_world_is_hit_at_its_face() {
    let mut tree = Octree::new(2);
    for x in 0..4 {
        for y in 0..4 {
            for z in 0..4 {
                tree.set(x, y, z, 8);
            }
        }
    }
    let ray = Ray {
        orig: Vec3::new(2.5, 2.5, -3.0),
        dir: Vec3::new(0.0, 0.0, 1.0),
    };
    let hit = trace_octree(&tree.flatten(), 2, &ray, 0.001, 1000.0).unwrap();
    assert_eq!((hit.value, hit.t, hit.pos), (8, 3.0, [2, 2, 0]));
    assert_eq!(hit.normal, Vec3::new(0.0, 0.0, -1.0));
}

#[test]
fn a_walk_offers_every_leaf_once() {
    let mut tree = Octree::new(3);
    let voxels = [(0, 0, 0, 1), (7, 7, 7, 2), (1, 0, 0, 3), (4, 5, 6, 4)];
    for (x, y, z, v) in voxels {
        tree.set(x, y, z, v);
    }
    let data = tree.flatten();
    let mut walk = match OctreeWalk::start(&data) {
        Root::Walk(walk) => walk,
        _ => unreachable!(),
    };
    let mut seen = Vec::new();
    while let Some(child) = walk.next_child(&data) {
        match walk.enter(&data, &child) {
            Entered::Leaf(v) => {
                assert_eq!(child.cell.level, 3);
                seen.push((child.cell.x, child.cell.y, child.cell.z, v));
            }
            Entered::Node => {}
            other => panic!("{other:?}"),
        }
    }
    seen.sort_by_key(|s| s.3);
    assert_eq!(seen, voxels);
    assert!(walk.next_child(&data).is_none());
}

#[test]
fn roots() {
    assert!(matches!(OctreeWalk::start(&[]), Root::Nothing));
    assert!(matches!(OctreeWalk::start(&[LEAF_BIT | 3]), Root::Solid(3)));
    assert!(matches!(OctreeWalk::start(&[1 << 23 | 1, LEAF_BIT]), Root::Walk(_)));
}

#[test]
fn a_child_outside_the_data_is_missing() {
    // A root with two children, and data for one
    let data = [3 << 23 | 1, LEAF_BIT | 5];
    let mut walk = match OctreeWalk::start(&data) {
        Root::Walk(walk) => walk,
        _ => unreachable!(),
    };
    let first = walk.next_child(&data).unwrap();
    assert_eq!(walk.enter(&data, &first), Entered::Leaf(5));
    let second = walk.next_child(&data).unwrap();
    assert_eq!((second.cell.x, second.index), (1, 2));
    assert_eq!(walk.enter(&data, &second), Entered::Missing);
    assert!(walk.next_child(&data).is_none());
}

#[test]
fn a_walk_goes_no_deeper_than_it_may() {
    // A node that is its own child
    let data = [1 << 23];
    let mut walk = match OctreeWalk::start(&data) {
        Root::Walk(walk) => walk,
        _ => unreachable!(),
    };
    for _ in 1..24 {
        let child = walk.next_child(&data).unwrap();
        assert_eq!(walk.enter(&data, &child), Entered::Node);
    }
    let child = walk.next_child(&data).unwrap();
    assert_eq!(child.cell.level, 24);
    assert_eq!(walk.enter(&data, &child), Entered::TooDeep);
}

#[test]
fn cells_report_the_voxel_nearest_to_a_point() {
    let cell = Cell { level: 2, x: 1, y: 3, z: 0 };
    assert_eq!(cell.voxel_near(4, 5, 13, 2), [5, 13, 2]);
    assert_eq!(cell.voxel_near(4, 0, 0, -9), [4, 12, 0]);
    assert_eq!(cell.voxel_near(4, i32::MAX, 16, 4), [7, 15, 3]);
    assert_eq!(cell.voxel_near(4, i32::MIN, i32::MIN, i32::MIN), [4, 12, 0]);
    // A cell as large as a voxel is one, and a smaller one lies in one
    assert_eq!(cell.voxel_near(2, 9, 9, 9), [1, 3, 0]);
    assert_eq!(cell.voxel_near(1, 9, -9, 9), [0, 1, 0]);
    let world = Cell { level: 0, x: 0, y: 0, z: 0 };
    assert_eq!(world.voxel_near(31, i32::MAX, 7, -1), [i32::MAX as u32, 7, 0]);
    assert_eq!(world.voxel_near(3, 8, 7, -1), [7, 7, 0]);
    assert_eq!(VoxelHit::default(), VoxelHit { pos: [0; 3], value: 0 });
}

#[test]
fn a_hit_in_a_merged_leaf_is_at_the_voxel_that_was_hit() {
    let mut tree = Octree::new(2);
    for x in 0..2 {
        for y in 0..2 {
            for z in 0..2 {
                tree.set(x, y, z, 7);
            }
        }
    }
    let data = tree.flatten();
    assert_eq!(data, vec![0x0080_0001, 0x8000_0007]);
    let ray = Ray {
        orig: Vec3::new(1.5, 10.0, 1.5),
        dir: Vec3::new(0.0, -1.0, 0.0),
    };
    let hit = trace_octree(&data, 2, &ray, 0.001, 1000.0).unwrap();
    assert_eq!((hit.value, hit.t, hit.pos), (7, 8.0, [1, 1, 1]));
    let ray = Ray {
        orig: Vec3::new(-3.0, 0.5, 1.5),
        dir: Vec3::new(1.0, 0.0, 0.0),
    };
    let hit = trace_octree(&data, 2, &ray, 0.001, 1000.0).unwrap();
    assert_eq!((hit.value, hit.t, hit.pos), (7, 3.0, [0, 0, 1]));
}

#[test]
fn packed_64_tree_words() {
    let nodes = [9, 1, 2, 0x14, 0x8000_0001, 0x4000_0000];
    assert_eq!(read_node(&nodes, 0), (true, 4, 1, 2));
    assert_eq!(read_node(&nodes, 1), (false, 10, 0x8000_0001, 0x4000_0000));
    assert_eq!(pack_data(&[1, 2, 3, 4, 5]), vec![0x0403_0201, 5]);
    assert_eq!(pack_data(&[]), Vec::<u32>::new());
    let words = pack_data(&[10, 20, 30, 40, 50, 60]);
    for (i, value) in [10, 20, 30, 40, 50, 60].into_iter().enumerate() {
        assert_eq!(read_data_u8(&words, i as u32), value);
    }
}

#[test]
fn masks() {
    let (lo, hi) = (0b1011, 0x8000_0001);
    for bit in 0..64 {
        let mask = (hi as u64) << 32 | lo as u64;
        assert_eq!(mask_test(lo, hi, bit), mask >> bit & 1 == 1);
        assert_eq!(popcount_below(lo, hi, bit), (mask & ((1u64 << bit) - 1)).count_ones());
    }
    assert_eq!(popcount_below(lo, hi, 64), 5);
    assert_eq!(popcount_below(lo, hi, 1000), 5);
    assert_eq!(xyz_to_bit(3, 2, 1), 27);
    assert_eq!(xyz_to_bit(3, 3, 3), 63);
}

#[test]
fn a_tree_that_points_outside_itself_does_not_fit() {
    let (nodes, data, root) = build(&scene_voxels(), 3);
    assert!(tree_fits(&nodes, &data, root, 3));
    assert!(!tree_fits(&nodes, &data, root + 1, 3));
    assert!(!tree_fits(&nodes, &data[1..], root, 3));
    assert!(!tree_fits(&nodes, &data, root, 2));
}

#[test]
fn nothing_can_be_traced_in_no_levels_or_too_many() {
    assert!(Tree64Walk::start(&[], &[], 3, 0, 0, 0, 0).is_none());
    assert!(Tree64Walk::start(&[1, 0, 0], &[], 0, 0, 0, 0, 0).is_none());
    assert!(Tree64Walk::start(&[1, 0, 0], &[], 9, 0, 0, 0, 0).is_none());
    assert!(Tree64Walk::start(&[1, 0, 0], &[], 1, 0, 0, 0, 0).is_some());
}

#[test]
fn a_walk_crosses_cells_and_leaves_the_world() {
    // One voxel, in the last cell of a two-level tree along x
    let mut grid = vec![0u8; 16 * 16 * 16];
    grid[13] = 7;
    let (nodes, data, root) = build(&grid, 2);
    let mut walk = Tree64Walk::start(&nodes, &data, 2, root, -5, 0, 0).unwrap();
    for x in [0, 4, 8] {
        let cell = GridCell { x, y: 0, z: 0, side: 4 };
        assert_eq!(walk.probe(&nodes, &data), Probe::Empty(cell));
        assert!(walk.step(&nodes, &data, 0, true));
    }
    let cell = GridCell { x: 12, y: 0, z: 0, side: 4 };
    assert_eq!(walk.probe(&nodes, &data), Probe::Node(cell));
    walk.descend(&nodes, &data, 0, 0, 0);
    let cell = GridCell { x: 12, y: 0, z: 0, side: 1 };
    assert_eq!(walk.probe(&nodes, &data), Probe::Empty(cell));
    assert!(walk.step(&nodes, &data, 0, true));
    let hit = VoxelHit { pos: [13, 0, 0], value: 7 };
    assert_eq!(walk.probe(&nodes, &data), Probe::Hit(hit));
    // Back out of the node, and then out of the world
    assert!(walk.step(&nodes, &data, 0, false));
    assert!(walk.step(&nodes, &data, 0, false));
    let cell = GridCell { x: 8, y: 0, z: 0, side: 4 };
    assert_eq!(walk.probe(&nodes, &data), Probe::Empty(cell));
    assert!(!walk.step(&nodes, &data, 1, false));
    assert_eq!(walk.probe(&nodes, &data), Probe::Empty(cell));
}

#[test]
fn a_walk_takes_only_so_many_steps() {
    let mut walk = Tree64Walk::start(&[1, 0, 0], &[], 1, 0, 0, 0, 0).unwrap();
    for _ in 0..1024 {
        assert!(matches!(walk.probe(&[1, 0, 0], &[]), Probe::Empty(_)));
    }
    assert_eq!(walk.probe(&[1, 0, 0], &[]), Probe::Exhausted);
}

#[test]
fn the_scene_is_a_sponge_in_the_middle() {
    let grid = scene_voxels();
    assert_eq!(grid.len(), 64 * 64 * 64);
    for z in 0..64u32 {
        for y in 0..64u32 {
            for x in 0..64u32 {
                let inside = [x, y, z].iter().all(|c| (18..45).contains(c));
                let solid = inside && is_menger(x - 18, y - 18, z - 18, 27);
                let value = grid[(x + 64 * y + 4096 * z) as usize];
                assert_eq!(value, if solid { 3 } else { 0 });
            }
        }
    }
    // 20 of 27 parts stay in each of three rounds
    assert_eq!(grid.iter().filter(|&&v| v != 0).count(), 20 * 20 * 20);
    assert!(is_menger(0, 0, 0, 27));
    assert!(!is_menger(13, 13, 0, 27));
    assert!(!is_menger(1, 1, 0, 3));
    assert!(is_menger(1, 0, 0, 3));
    assert!(is_menger(0, 0, 0, 1));
    assert!(is_menger(0, 0, 0, 0));
    // Decided before a third is zero
    assert!(!is_menger(2, 2, 0, 6));
}
