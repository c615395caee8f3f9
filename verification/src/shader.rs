//! The whole-number part of the shaders: which pixel is stored where, what a
//! pixel saw, and which history it can build on.

use vstd::arithmetic::div_mod::{lemma_add_mod_noop, lemma_add_mod_noop_right};
use vstd::prelude::*;

use crate::gpu::{image_fits, PIXEL_WORDS};

verus! {

/// The history buffer holds nothing this frame can use: first frame, or the
/// window was just resized.
pub const HISTORY_NONE: u32 = 0;

/// The camera has not moved since the history was written, so each pixel's
/// history is its own and can be summed without limit.
pub const HISTORY_STILL: u32 = 1;

/// The camera moved. Each pixel looks up where its surface was in the
/// previous frame and blends into that, up to a cap so reprojection error
/// fades rather than accumulates.
pub const HISTORY_MOVED: u32 = 2;

/// Most times a path is traced on.
pub const MAX_BOUNCES: u32 = 64;

/// The clip-space position of a corner of the triangle that covers the screen.
pub open spec fn corner_of(vert_id: int) -> (int, int) {
    (
        if vert_id % 2 == 1 {
            3
        } else {
            -1
        },
        if vert_id % 4 >= 2 {
            -3
        } else {
            1
        },
    )
}

/// The clip-space position of a corner of the triangle that covers the screen.
pub fn corner(vert_id: i32) -> (pos: (i32, i32))
    ensures
        (pos.0 as int, pos.1 as int) == corner_of(vert_id as int),
        pos.0 == if vert_id as int % 2 == 1 {
            3int
        } else {
            -1int
        },
        pos.1 == if vert_id as int % 4 >= 2 {
            -3int
        } else {
            1int
        },
{
    let u: i32 = (vert_id << 1) & 2;
    let v: i32 = vert_id & 2;
    assert(((vert_id << 1) & 2) == (if vert_id % 2 == 1 {
        2i32
    } else {
        0i32
    }) && (vert_id & 2) == (if vert_id % 4 >= 2 {
        2i32
    } else {
        0i32
    })) by (bit_vector);
    (u * 2 - 1, v * -2 + 1)
}

/// The triangle with corners 0, 1 and 2 covers the screen: every point of the
/// square from -1 to 1, given as fractions of `d`, is a mean of the corners with
/// weights that are not negative.
pub proof fn law_triangle_covers_screen(x: int, y: int, d: int)
    requires
        d > 0,
        -d <= x <= d,
        -d <= y <= d,
    ensures
        exists|a: int, b: int, c: int|
            a >= 0 && b >= 0 && c >= 0 && #[trigger] weights(a, b, c) == 4 * d && -a + 3 * b - c == 4
                * x && a + b - 3 * c == 4 * y,
{
    let a = 2 * d - x + y;
    let b = x + d;
    let c = d - y;
    assert(weights(a, b, c) == 4 * d);
}

/// The corners 0, 1 and 2 cover the screen: every point of the square from -1 to
/// 1, given as fractions of `d`, is a mean of these corners with weights that are
/// not negative. The corners repeat after every four.
pub proof fn law_corners_cover_screen(x: int, y: int, d: int, vert_id: int)
    requires
        d > 0,
        -d <= x <= d,
        -d <= y <= d,
    ensures
        exists|a: int, b: int, c: int|
            a >= 0 && b >= 0 && c >= 0 && #[trigger] weights(a, b, c) == 4 * d && a * corner_of(
                0,
            ).0 + b * corner_of(1).0 + c * corner_of(2).0 == 4 * x && a * corner_of(0).1 + b
                * corner_of(1).1 + c * corner_of(2).1 == 4 * y,
        corner_of(vert_id + 4) == corner_of(vert_id),
{
    let a = 2 * d - x + y;
    let b = x + d;
    let c = d - y;
    assert(weights(a, b, c) == 4 * d);
    assert(corner_of(0) == (-1int, 1int) && corner_of(1) == (3int, 1int) && corner_of(2) == (
        -1int,
        -3int,
    ));
}

/// The sum of three weights.
pub open spec fn weights(a: int, b: int, c: int) -> int {
    a + b + c
}

/// The number that seeds a pixel's random sequence in a frame.
pub open spec fn seed_of(x: u32, y: u32, frame: u32) -> u32 {
    let state = ((x * 747796405 + y + frame * 2654435761) % 0x1_0000_0000) as u32;
    let mixed = (state >> ((state >> 28) + 4)) ^ state;
    let word = ((mixed * 277803737) % 0x1_0000_0000) as u32;
    (word >> 22) ^ word
}

proof fn lemma_wrapping_sum(p: int, y: int, q: int)
    ensures
        ((p % 0x1_0000_0000 + y) % 0x1_0000_0000 + q % 0x1_0000_0000) % 0x1_0000_0000 == (p + y + q)
            % 0x1_0000_0000,
{
    let m: int = 0x1_0000_0000;
    lemma_add_mod_noop_right(y, p, m);
    lemma_add_mod_noop(p + y, q, m);
}

/// The seed of a pixel's random sequence in a frame.
#[verifier::spinoff_prover]
pub fn gen_state(x: u32, y: u32, frame: u32) -> (seed: u32)
    ensures
        seed == seed_of(x, y, frame),
        ({
            let state = ((x * 747796405 + y + frame * 2654435761) % 0x1_0000_0000) as u32;
            let mixed = (state >> ((state >> 28) + 4)) ^ state;
            let word = ((mixed * 277803737) % 0x1_0000_0000) as u32;
            seed == (word >> 22) ^ word
        }),
{
    let p: u32 = x.wrapping_mul(747796405);
    let q: u32 = frame.wrapping_mul(2654435761);
    let r: u32 = p.wrapping_add(y);
    let state: u32 = r.wrapping_add(q);
    proof {
        lemma_wrapping_sum(x * 747796405, y as int, frame * 2654435761);
        assert(state >> 28 < 16) by (bit_vector);
    }
    let word: u32 = ((state >> ((state >> 28) + 4)) ^ state).wrapping_mul(277803737);
    (word >> 22) ^ word
}

/// A product by the odd number that seeds are mixed with, without its high bits,
/// still tells what was multiplied.
proof fn lemma_product_tells_factor(m: u32)
    ensures
        ((((m * 277803737) % 0x1_0000_0000) * 2897767785) % 0x1_0000_0000) == m,
{
    let a: int = 0x1_0000_0000;
    let q = (m * 277803737) / a;
    let w = (m * 277803737) % a;
    assert(m * 277803737 == a * q + w);
    assert(w * 2897767785 == m + a * (m * 187431164 - q * 2897767785));
    vstd::arithmetic::div_mod::lemma_fundamental_div_mod_converse(
        w * 2897767785,
        a,
        m * 187431164 - q * 2897767785,
        m as int,
    );
}

/// Two pixels in two frames have the same seed just if the same number comes of
/// their coordinates and frames, each times its own factor, in 32 bits: mixing
/// loses nothing.
pub proof fn law_seed_tells_states_apart(a: (u32, u32, u32), b: (u32, u32, u32))
    ensures
        seed_of(a.0, a.1, a.2) == seed_of(b.0, b.1, b.2) <==> (a.0 * 747796405 + a.1 + a.2
            * 2654435761) % 0x1_0000_0000 == (b.0 * 747796405 + b.1 + b.2 * 2654435761)
            % 0x1_0000_0000,
{
    let s = ((a.0 * 747796405 + a.1 + a.2 * 2654435761) % 0x1_0000_0000) as u32;
    let t = ((b.0 * 747796405 + b.1 + b.2 * 2654435761) % 0x1_0000_0000) as u32;
    let m = (s >> ((s >> 28) + 4)) ^ s;
    let n = (t >> ((t >> 28) + 4)) ^ t;
    let v = ((m * 277803737) % 0x1_0000_0000) as u32;
    let w = ((n * 277803737) % 0x1_0000_0000) as u32;
    lemma_mix_keeps_apart(s, t);
    lemma_product_tells_factor(m);
    lemma_product_tells_factor(n);
    assert((v >> 22) ^ v == (w >> 22) ^ w ==> v == w) by (bit_vector);
}

/// Mixing the high bits of a number into the low ones loses nothing.
proof fn lemma_mix_keeps_apart(s: u32, t: u32)
    ensures
        ((s >> ((s >> 28) + 4)) ^ s) == ((t >> ((t >> 28) + 4)) ^ t) ==> s == t,
{
    assert(((s >> ((s >> 28) + 4)) ^ s) == ((t >> ((t >> 28) + 4)) ^ t) ==> s == t) by (bit_vector);
}

/// What a voxel is made of.
#[derive(Clone, Copy, Debug, PartialEq, Eq, Structural)]
pub enum Material {
    Grass,
    Wood,
    Stone,
    Red,
    Unknown,
}

/// What a voxel of a value is made of.
pub open spec fn material_of(value: u32) -> Material {
    match value {
        1 => Material::Grass,
        2 => Material::Wood,
        3 => Material::Stone,
        4 => Material::Red,
        _ => Material::Unknown,
    }
}

/// The values 1 to 4 are grass, wood, stone and red, and no other value is any of
/// these.
pub proof fn law_materials(value: u32)
    ensures
        material_of(value) == Material::Grass <==> value == 1,
        material_of(value) == Material::Wood <==> value == 2,
        material_of(value) == Material::Stone <==> value == 3,
        material_of(value) == Material::Red <==> value == 4,
        material_of(value) == Material::Unknown <==> value == 0 || value >= 5,
{
}

/// What a voxel of a value is made of.
pub fn material(value: u32) -> (material: Material)
    ensures
        material == material_of(value),
        material == if value == 1 {
            Material::Grass
        } else if value == 2 {
            Material::Wood
        } else if value == 3 {
            Material::Stone
        } else if value == 4 {
            Material::Red
        } else {
            Material::Unknown
        },
{
    match value {
        1 => Material::Grass,
        2 => Material::Wood,
        3 => Material::Stone,
        4 => Material::Red,
        _ => Material::Unknown,
    }
}

/// What to do after a path has been traced on.
#[derive(Clone, Copy, Debug, PartialEq, Eq, Structural)]
pub enum PathStep {
    /// The path left the scene: add the color of the sky and stop.
    Sky { first: bool },
    /// The path hit a voxel: take its color, play Russian roulette if asked to,
    /// and go on with `scatter` unless that ends the path.
    Surface { first: bool, roulette: bool },
}

/// How often a path has scattered.
pub struct Path {
    bounce: u32,
}

impl Path {
    /// How often the path has scattered.
    pub closed spec fn bounces(self) -> nat {
        self.bounce as nat
    }

    /// The path has not scattered more often than it may.
    pub open spec fn wf(self) -> bool {
        self.bounces() <= MAX_BOUNCES
    }

    /// A path from the camera.
    pub fn new() -> (path: Self)
        ensures
            path.wf(),
            path.bounces() == 0,
    {
        Self { bounce: 0 }
    }

    /// Whether the path may be traced on.
    pub fn goes_on(&self) -> (on: bool)
        ensures
            on == (self.bounces() < MAX_BOUNCES),
            on <==> self.bounces() < 64,
    {
        self.bounce < MAX_BOUNCES
    }

    /// What to do after the path has been traced on. The first hit or miss is what
    /// the pixel sees. After bounce 3, dim paths end at random.
    pub fn traced(&self, hit: bool) -> (step: PathStep)
        ensures
            step == if hit {
                PathStep::Surface { first: self.bounces() == 0, roulette: self.bounces() >= 3 }
            } else {
                PathStep::Sky { first: self.bounces() == 0 }
            },
            step is Surface <==> hit,
            step matches PathStep::Surface { first, roulette } ==> {
                &&& first <==> self.bounces() == 0
                &&& roulette <==> self.bounces() >= 3
            },
            step matches PathStep::Sky { first } ==> (first <==> self.bounces() == 0),
    {
        if hit {
            PathStep::Surface { first: self.bounce == 0, roulette: self.bounce >= 3 }
        } else {
            PathStep::Sky { first: self.bounce == 0 }
        }
    }

    /// The path has scattered.
    pub fn scatter(&mut self)
        requires
            old(self).bounces() < MAX_BOUNCES,
        ensures
            final(self).wf(),
            final(self).bounces() == old(self).bounces() + 1,
    {
        self.bounce = self.bounce + 1;
    }
}

/// Paths traced per pixel per frame where some number is asked for.
pub open spec fn samples_traced(samples: u32) -> u32 {
    if samples == 0 {
        1
    } else {
        samples
    }
}

/// As many paths are traced as are asked for, but at least one.
pub proof fn law_at_least_one_sample(samples: u32)
    ensures
        samples_traced(samples) >= 1,
        samples_traced(samples) >= samples,
        samples_traced(samples) <= samples || samples_traced(samples) == 1,
{
}

/// Paths traced per pixel per frame: at least one.
pub fn sample_count(samples: u32) -> (count: u32)
    ensures
        count == samples_traced(samples),
        count == if samples == 0 {
            1
        } else {
            samples
        },
{
    if samples == 0 {
        1
    } else {
        samples
    }
}

/// The number of the face with a normal, given by the signs of its components:
/// right, left, top, bottom, front, back.
pub open spec fn face_of(x: int, y: int, z: int) -> int {
    if x > 0 {
        0
    } else if x < 0 {
        1
    } else if y > 0 {
        2
    } else if y < 0 {
        3
    } else if z > 0 {
        4
    } else {
        5
    }
}

/// What a pixel's camera ray landed on, in one word.
pub open spec fn surface_of(hit: bool, face: int, value: u32) -> u32 {
    if hit {
        (0x8000_0000 + 0x100 * (value as int % 0x100) + face) as u32
    } else {
        0
    }
}

fn face(x: i32, y: i32, z: i32) -> (n: u32)
    ensures
        n == face_of(x as int, y as int, z as int),
{
    if x != 0 {
        if x > 0 {
            0
        } else {
            1
        }
    } else if y != 0 {
        if y > 0 {
            2
        } else {
            3
        }
    } else if z > 0 {
        4
    } else {
        5
    }
}

/// Pack what a pixel's camera ray landed on into one word: bit 31 for a hit,
/// the face in bits 0..3 and the voxel value in bits 8..16. The normal is given
/// by the signs of its components.
pub fn pack_surface(hit: bool, normal: [i32; 3], value: u32) -> (word: u32)
    ensures
        word == surface_of(
            hit,
            face_of(normal[0] as int, normal[1] as int, normal[2] as int),
            value,
        ),
        word >= 0x8000_0000 <==> hit,
        !hit ==> word == 0,
        hit ==> word < 0x8001_0000 && (word / 0x100) % 0x100 == value % 0x100,
        hit && normal[0] > 0 ==> word % 0x100 == 0,
        hit && normal[0] < 0 ==> word % 0x100 == 1,
        hit && normal[0] == 0 && normal[1] > 0 ==> word % 0x100 == 2,
        hit && normal[0] == 0 && normal[1] < 0 ==> word % 0x100 == 3,
        hit && normal[0] == 0 && normal[1] == 0 && normal[2] > 0 ==> word % 0x100 == 4,
        hit && normal[0] == 0 && normal[1] == 0 && normal[2] <= 0 ==> word % 0x100 == 5,
{
    proof {
        law_surface_fields(
            hit,
            face_of(normal[0] as int, normal[1] as int, normal[2] as int),
            value,
        );
        law_face_numbers(normal[0] as int, normal[1] as int, normal[2] as int);
    }
    if !hit {
        return 0;
    }
    let n: u32 = face(normal[0], normal[1], normal[2]);
    assert(n < 8 ==> (1u32 << 31) | ((value & 0xFF) << 8) | n == 0x8000_0000 + 0x100 * (value % 0x100)
        + n) by (bit_vector);
    (1 << 31) | ((value & 0xFF) << 8) | n
}

/// The faces are numbered right, left, top, bottom, front, back, by the first
/// axis along which the normal points.
pub proof fn law_face_numbers(x: int, y: int, z: int)
    ensures
        0 <= face_of(x, y, z) < 6,
        x > 0 ==> face_of(x, y, z) == 0,
        x < 0 ==> face_of(x, y, z) == 1,
        x == 0 && y > 0 ==> face_of(x, y, z) == 2,
        x == 0 && y < 0 ==> face_of(x, y, z) == 3,
        x == 0 && y == 0 && z > 0 ==> face_of(x, y, z) == 4,
        x == 0 && y == 0 && z <= 0 ==> face_of(x, y, z) == 5,
{
}

/// A surface word has its highest bit just if there was a hit; then its lowest
/// byte is the face and the next one the low byte of the voxel's value. A miss is
/// zero.
pub proof fn law_surface_fields(hit: bool, face: int, value: u32)
    requires
        0 <= face < 6,
    ensures
        surface_of(hit, face, value) >= 0x8000_0000 <==> hit,
        !hit ==> surface_of(hit, face, value) == 0,
        hit ==> surface_of(hit, face, value) < 0x8001_0000,
        hit ==> surface_of(hit, face, value) as int % 0x100 == face,
        hit ==> (surface_of(hit, face, value) as int / 0x100) % 0x100 == value as int % 0x100,
{
}

/// Pixels stand one after the other, eight words each: along a row, and from the
/// end of a row to the beginning of the next.
pub proof fn law_pixels_follow_each_other(width: nat, x: nat, y: nat)
    ensures
        pixel_at(width, 0, 0) == 0,
        pixel_at(width, x + 1, y) == pixel_at(width, x, y) + 8,
        pixel_at(width, 0, y + 1) == pixel_at(width, width, y),
{
    assert(0nat * width == 0) by (nonlinear_arith);
    assert((y + 1) * width == y * width + width) by (nonlinear_arith);
}

/// A pixel's words are its color, how many samples it holds, where its camera ray
/// landed and on what, in this order; nothing else changes where it is stored.
pub proof fn law_pixel_layout(words: Seq<u32>, at: int, pixel: Pixel)
    requires
        0 <= at,
        at + 8 <= words.len(),
    ensures
        ({
            let after = with_pixel(words, at, pixel);
            &&& after.len() == words.len()
            &&& (after[at], after[at + 1], after[at + 2]) == pixel.color
            &&& after[at + 3] == pixel.count
            &&& (after[at + 4], after[at + 5], after[at + 6]) == pixel.pos
            &&& after[at + 7] == pixel.surface
            &&& forall|i: int|
                0 <= i < words.len() && !(at <= i < at + 8) ==> #[trigger] after[i] == words[i]
        }),
        ({
            let read = pixel_in(words, at);
            &&& read.color == (words[at], words[at + 1], words[at + 2])
            &&& read.count == words[at + 3]
            &&& read.pos == (words[at + 4], words[at + 5], words[at + 6])
            &&& read.surface == words[at + 7]
        }),
{
}

/// The coordinate after another is one more, but for the last one, which is
/// followed by the first.
pub proof fn law_next_coord(c: i32)
    ensures
        c < 0x7FFF_FFFF ==> next_coord(c) == c + 1,
        c == 0x7FFF_FFFF ==> next_coord(c) == -0x8000_0000,
{
}

/// Two pixels have the same surface word just if both saw the sky, or both saw
/// the same face of voxels whose values agree in their low eight bits.
pub proof fn law_surface_tells_apart(
    a: (bool, int, u32),
    b: (bool, int, u32),
)
    requires
        0 <= a.1 < 6,
        0 <= b.1 < 6,
    ensures
        surface_of(a.0, a.1, a.2) == surface_of(b.0, b.1, b.2) <==> if a.0 && b.0 {
            a.1 == b.1 && a.2 as int % 0x100 == b.2 as int % 0x100
        } else {
            !a.0 && !b.0
        },
{
}

/// The word at which a pixel begins in an accumulation buffer.
pub open spec fn pixel_at(width: nat, x: nat, y: nat) -> int {
    ((y * width + x) * 8) as int
}

/// The words of one pixel. Color, sample count and position are the bits of
/// floating-point numbers.
#[derive(Clone, Copy, Debug, PartialEq, Eq)]
pub struct Pixel {
    pub color: (u32, u32, u32),
    pub count: u32,
    pub pos: (u32, u32, u32),
    pub surface: u32,
}

impl Pixel {
    /// The words of the pixel.
    pub open spec fn words(self) -> Seq<u32> {
        seq![
            self.color.0,
            self.color.1,
            self.color.2,
            self.count,
            self.pos.0,
            self.pos.1,
            self.pos.2,
            self.surface,
        ]
    }
}

/// The pixel that words `at .. at + 8` hold.
pub open spec fn pixel_in(words: Seq<u32>, at: int) -> Pixel {
    Pixel {
        color: (words[at], words[at + 1], words[at + 2]),
        count: words[at + 3],
        pos: (words[at + 4], words[at + 5], words[at + 6]),
        surface: words[at + 7],
    }
}

/// The words with a pixel's words from `at` on.
pub open spec fn with_pixel(words: Seq<u32>, at: int, pixel: Pixel) -> Seq<u32> {
    Seq::new(
        words.len(),
        |i: int|
            if at <= i < at + 8 {
                pixel.words()[i - at]
            } else {
                words[i]
            },
    )
}

proof fn lemma_pixel_in_image(width: nat, height: nat, x: nat, y: nat)
    requires
        image_fits(width, height),
        x < width,
        y < height,
    ensures
        y * width + x < width * height,
        y * width <= u32::MAX,
        0 <= pixel_at(width, x, y),
        pixel_at(width, x, y) + 8 <= width * height * 8,
{
    assert(y * width + x < width * height) by (nonlinear_arith)
        requires
            x < width,
            y < height,
    ;
}

fn pixel_index(width: u32, height: u32, x: u32, y: u32) -> (at: usize)
    requires
        image_fits(width as nat, height as nat),
        x < width,
        y < height,
    ensures
        at == pixel_at(width as nat, x as nat, y as nat),
        at + 8 <= width as nat * height as nat * 8,
{
    proof {
        lemma_pixel_in_image(width as nat, height as nat, x as nat, y as nat);
    }
    (y * width + x) as usize * PIXEL_WORDS as usize
}

fn read_pixel(words: &[u32], at: usize) -> (pixel: Pixel)
    requires
        at + 8 <= words@.len(),
    ensures
        pixel == pixel_in(words@, at as int),
{
    Pixel {
        color: (words[at], words[at + 1], words[at + 2]),
        count: words[at + 3],
        pos: (words[at + 4], words[at + 5], words[at + 6]),
        surface: words[at + 7],
    }
}

/// Store what a frame found for pixel `(x, y)`.
pub fn store_pixel(accum: &mut [u32], width: u32, height: u32, x: u32, y: u32, pixel: Pixel)
    requires
        image_fits(width as nat, height as nat),
        x < width,
        y < height,
        old(accum)@.len() >= width as nat * height as nat * 8,
    ensures
        final(accum)@ == with_pixel(
            old(accum)@,
            pixel_at(width as nat, x as nat, y as nat),
            pixel,
        ),
        ({
            let at = ((y as nat * width as nat + x as nat) * 8) as int;
            let after = final(accum)@;
            &&& (after[at], after[at + 1], after[at + 2]) == pixel.color
            &&& after[at + 3] == pixel.count
            &&& (after[at + 4], after[at + 5], after[at + 6]) == pixel.pos
            &&& after[at + 7] == pixel.surface
        }),
{
    let at: usize = pixel_index(width, height, x, y);
    accum[at] = pixel.color.0;
    accum[at + 1] = pixel.color.1;
    accum[at + 2] = pixel.color.2;
    accum[at + 3] = pixel.count;
    accum[at + 4] = pixel.pos.0;
    accum[at + 5] = pixel.pos.1;
    accum[at + 6] = pixel.pos.2;
    accum[at + 7] = pixel.surface;
    assert(accum@ =~= with_pixel(
        old(accum)@,
        pixel_at(width as nat, x as nat, y as nat),
        pixel,
    ));
}

/// What a pixel stored is what the next frame reads there, and no other pixel
/// of the image is touched.
pub proof fn law_pixel_reads_back(
    words: Seq<u32>,
    width: nat,
    height: nat,
    x: nat,
    y: nat,
    pixel: Pixel,
    other_x: nat,
    other_y: nat,
)
    requires
        image_fits(width, height),
        words.len() >= width * height * 8,
        x < width,
        y < height,
        other_x < width,
        other_y < height,
    ensures
        ({
            let after = with_pixel(words, pixel_at(width, x, y), pixel);
            &&& pixel_in(after, pixel_at(width, x, y)) == pixel
            &&& (other_x, other_y) != (x, y) ==> pixel_in(
                after,
                pixel_at(width, other_x, other_y),
            ) == pixel_in(words, pixel_at(width, other_x, other_y))
        }),
{
    lemma_pixel_in_image(width, height, x, y);
    lemma_pixel_in_image(width, height, other_x, other_y);
    if (other_x, other_y) != (x, y) {
        assert(other_y * width + other_x != y * width + x) by (nonlinear_arith)
            requires
                x < width,
                other_x < width,
                other_x != x || other_y != y,
        ;
    }
}

/// Where a pixel looks for its history.
#[derive(Clone, Copy, Debug, PartialEq, Eq)]
pub enum History {
    /// Nowhere: there is none.
    Nothing,
    /// At its own place, since the camera is still. Every sample in it went
    /// through this pixel, whatever surface each landed on.
    Own(Pixel),
    /// Around the place where the previous frame drew what it sees now.
    Reproject,
}

/// Where pixel `(x, y)` looks for its history.
pub fn history_source(mode: u32, history: &[u32], width: u32, height: u32, x: u32, y: u32) -> (source:
    History)
    requires
        mode != HISTORY_NONE && mode != HISTORY_MOVED ==> {
            &&& image_fits(width as nat, height as nat)
            &&& x < width
            &&& y < height
            &&& history@.len() >= width as nat * height as nat * 8
        },
    ensures
        source == if mode == HISTORY_NONE {
            History::Nothing
        } else if mode == HISTORY_MOVED {
            History::Reproject
        } else {
            History::Own(pixel_in(history@, pixel_at(width as nat, x as nat, y as nat)))
        },
        source is Nothing <==> mode == 0,
        source is Reproject <==> mode == 2,
        source matches History::Own(own) ==> {
            let at = ((y as nat * width as nat + x as nat) * 8) as int;
            &&& own.color == (history@[at], history@[at + 1], history@[at + 2])
            &&& own.count == history@[at + 3]
            &&& own.pos == (history@[at + 4], history@[at + 5], history@[at + 6])
            &&& own.surface == history@[at + 7]
        },
{
    if mode == HISTORY_NONE {
        return History::Nothing;
    }
    if mode != HISTORY_MOVED {
        let at: usize = pixel_index(width, height, x, y);
        return History::Own(read_pixel(history, at));
    }
    History::Reproject
}

/// The coordinate after another. The last one is followed by the first, which is
/// outside every image, as the last one is.
pub open spec fn next_coord(c: i32) -> i32 {
    if c == i32::MAX {
        i32::MIN
    } else {
        (c + 1) as i32
    }
}

/// The four pixels around a place, by the pixel at their lower corner.
pub fn tap_positions(x: i32, y: i32) -> (taps: [(i32, i32); 4])
    ensures
        taps@ == seq![
            (x, y),
            (next_coord(x), y),
            (x, next_coord(y)),
            (next_coord(x), next_coord(y)),
        ],
{
    let (x1, y1): (i32, i32) = (x.wrapping_add(1), y.wrapping_add(1));
    let taps: [(i32, i32); 4] = [(x, y), (x1, y), (x, y1), (x1, y1)];
    assert(taps@ =~= seq![
        (x, y),
        (next_coord(x), y),
        (x, next_coord(y)),
        (next_coord(x), next_coord(y)),
    ]);
    taps
}

/// Read one history sample from the previous frame's buffer at pixel `(x, y)`,
/// if it carries weight, lies in the image and saw the same surface.
pub fn history_tap(
    history: &[u32],
    width: u32,
    height: u32,
    x: i32,
    y: i32,
    weighted: bool,
    surface: u32,
) -> (tap: Option<Pixel>)
    requires
        weighted && 0 <= x < width && 0 <= y < height ==> {
            &&& image_fits(width as nat, height as nat)
            &&& history@.len() >= width as nat * height as nat * 8
        },
    ensures
        tap == if weighted && 0 <= x < width && 0 <= y < height && pixel_in(
            history@,
            pixel_at(width as nat, x as nat, y as nat),
        ).surface == surface {
            Some(pixel_in(history@, pixel_at(width as nat, x as nat, y as nat)))
        } else {
            None
        },
        tap matches Some(read) ==> {
            let at = ((y as nat * width as nat + x as nat) * 8) as int;
            &&& weighted && 0 <= x < width && 0 <= y < height
            &&& read.color == (history@[at], history@[at + 1], history@[at + 2])
            &&& read.count == history@[at + 3]
            &&& read.pos == (history@[at + 4], history@[at + 5], history@[at + 6])
            &&& read.surface == surface == history@[at + 7]
        },
        weighted && 0 <= x < width && 0 <= y < height && history@[((y as nat * width as nat
            + x as nat) * 8) as int + 7] == surface ==> tap is Some,
{
    if !weighted || x < 0 || y < 0 || x as i64 >= width as i64 || y as i64 >= height as i64 {
        return None;
    }
    let at: usize = pixel_index(width, height, x as u32, y as u32);
    let pixel: Pixel = read_pixel(history, at);
    if pixel.surface != surface {
        return None;
    }
    Some(pixel)
}

} // verus!
