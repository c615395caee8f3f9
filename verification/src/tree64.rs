//! Reading a packed 64-tree.
//!
//! A 64-tree splits a cube into 4x4x4 cells per node. A node is three words:
//! bit 0 of the first says whether its cells are voxels, the bits above it point
//! at the first cell that is there, and the other two words are the 64-bit mask
//! of the cells that are. Voxel values are bytes, four per word, lowest first.

use vstd::arithmetic::div_mod::{
    lemma_fundamental_div_mod_converse, lemma_mod_multiples_vanish, lemma_small_mod,
};
use vstd::arithmetic::power2::{lemma2_to64, lemma_pow2_adds, lemma_pow2_pos, pow2};
use vstd::bits::lemma_u32_shr_is_div;
use vstd::prelude::*;

use crate::bits::{
    bit_at, lemma_popcount_bound, lemma_popcount_split, lemma_pow2_monotone, ones_below, popcount,
    test_bit,
};

verus! {

/// The 64-bit mask that two words hold, low half first.
pub open spec fn mask64(lo: u32, hi: u32) -> nat {
    lo as nat + pow2(32) * hi as nat
}

/// Whether a node's cells are voxels.
pub open spec fn node_is_leaf(nodes: Seq<u32>, i: nat) -> bool {
    nodes[3 * i as int] % 2 == 1
}

/// Where a node's cells begin: in the voxel data for a leaf, among the nodes
/// otherwise.
pub open spec fn node_ptr(nodes: Seq<u32>, i: nat) -> nat {
    nodes[3 * i as int] as nat / 2
}

/// Which of a node's cells are there.
pub open spec fn node_mask(nodes: Seq<u32>, i: nat) -> nat {
    mask64(nodes[3 * i as int + 1], nodes[3 * i as int + 2])
}

/// Byte `i` of data packed four bytes per word, lowest first.
pub open spec fn data_byte(data: Seq<u32>, i: nat) -> nat {
    (data[i as int / 4] as nat / pow2(8 * (i % 4))) % 256
}

/// Read a tree64 node from a u32 slice. Each node is 3 u32s:
/// word0: bit 0 = is_leaf, bits 1..31 = child/data pointer
/// word1: low 32 bits of pop_mask
/// word2: high 32 bits of pop_mask
///
/// Returns (is_leaf, ptr, mask_lo, mask_hi).
pub fn read_node(nodes: &[u32], index: u32) -> (node: (bool, u32, u32, u32))
    requires
        3 * index + 2 < nodes@.len(),
    ensures
        node.0 == node_is_leaf(nodes@, index as nat),
        node.1 == node_ptr(nodes@, index as nat),
        node.1 <= 0x7FFF_FFFF,
        node.2 == nodes@[3 * index + 1],
        node.3 == nodes@[3 * index + 2],
        mask64(node.2, node.3) == node_mask(nodes@, index as nat),
        nodes@[3 * index] == 2 * node.1 + (if node.0 {
            1int
        } else {
            0
        }),
{
    assert(nodes.len() == nodes@.len());
    let base: usize = index as usize * 3;
    let word0: u32 = nodes[base];
    proof {
        assert(word0 & 1 == word0 % 2 && word0 >> 1 == word0 / 2) by (bit_vector);
    }
    let is_leaf: bool = (word0 & 1) != 0;
    let ptr: u32 = word0 >> 1;
    (is_leaf, ptr, nodes[base + 1], nodes[base + 2])
}

/// Read a u8 value from a u32 data buffer. The u8 data is packed in
/// little-endian order: 4 bytes per u32.
pub fn read_data_u8(data: &[u32], index: u32) -> (value: u32)
    requires
        index / 4 < data@.len(),
    ensures
        value == data_byte(data@, index as nat),
        value < 256,
{
    let word_index: usize = index as usize / 4;
    let byte_offset: u32 = (index % 4) * 8;
    let word: u32 = data[word_index];
    proof {
        lemma_u32_shr_is_div(word, byte_offset);
        let shifted = word >> byte_offset;
        assert(shifted & 0xFF == shifted % 256) by (bit_vector);
    }
    (word >> byte_offset) & 0xFF
}

/// Pack bytes four to a word, lowest first. A last word that is not full is
/// filled up with zeros.
pub fn pack_data(bytes: &[u8]) -> (words: Vec<u32>)
    ensures
        words@.len() == (bytes@.len() + 3) / 4,
        forall|i: nat| i < bytes@.len() ==> #[trigger] data_byte(words@, i) == bytes@[i as int],
        forall|i: nat|
            bytes@.len() <= i < 4 * words@.len() ==> #[trigger] data_byte(words@, i) == 0,
{
    let mut words: Vec<u32> = Vec::new();
    let len: usize = bytes.len();
    let mut at: usize = 0;
    while at < len
        invariant
            at <= len == bytes@.len(),
            at % 4 == 0 || at == len,
            words@.len() == (at + 3) / 4,
            forall|i: nat| i < at ==> #[trigger] data_byte(words@, i) == bytes@[i as int],
            forall|i: nat| at <= i < 4 * words@.len() ==> #[trigger] data_byte(words@, i) == 0,
        decreases len - at,
    {
        let rest: usize = len - at;
        let b0: u8 = bytes[at];
        let b1: u8 = if rest > 1 {
            bytes[at + 1]
        } else {
            0
        };
        let b2: u8 = if rest > 2 {
            bytes[at + 2]
        } else {
            0
        };
        let b3: u8 = if rest > 3 {
            bytes[at + 3]
        } else {
            0
        };
        let word: u32 = (b0 as u32) | ((b1 as u32) << 8) | ((b2 as u32) << 16) | ((b3 as u32)
            << 24);
        let ghost before = words@;
        words.push(word);
        let next: usize = if rest > 4 {
            at + 4
        } else {
            len
        };
        proof {
            lemma_word_bytes(word, b0, b1, b2, b3);
            assert forall|i: nat| i < 4 * words@.len() implies #[trigger] data_byte(words@, i) == (
            if i < next {
                bytes@[i as int] as nat
            } else {
                0
            }) by {
                if i < at {
                    assert(words@[i as int / 4] == before[i as int / 4]);
                    assert(data_byte(before, i) == bytes@[i as int]);
                } else {
                    assert(i as int / 4 == before.len());
                    assert(i % 4 == i - at);
                }
            }
        }
        at = next;
    }
    words
}

proof fn lemma_word_bytes(word: u32, b0: u8, b1: u8, b2: u8, b3: u8)
    requires
        word == (b0 as u32) | ((b1 as u32) << 8) | ((b2 as u32) << 16) | ((b3 as u32) << 24),
    ensures
        (word as nat / pow2(0)) % 256 == b0,
        (word as nat / pow2(8)) % 256 == b1,
        (word as nat / pow2(16)) % 256 == b2,
        (word as nat / pow2(24)) % 256 == b3,
{
    lemma2_to64();
    assert(word % 256 == b0 && (word / 0x100) % 256 == b1 && (word / 0x1_0000) % 256 == b2 && (word
        / 0x100_0000) % 256 == b3) by (bit_vector)
        requires
            word == (b0 as u32) | ((b1 as u32) << 8) | ((b2 as u32) << 16) | ((b3 as u32) << 24),
    ;
}

/// Count the number of set bits below `bit` in a 64-bit mask represented
/// as two u32 halves. This is the sparse child index.
pub fn popcount_below(mask_lo: u32, mask_hi: u32, bit: u32) -> (count: u32)
    ensures
        count == popcount(mask64(mask_lo, mask_hi) % pow2(bit as nat)),
        count <= bit,
        count <= 64,
{
    proof {
        lemma_mask_below(mask_lo, mask_hi, bit as nat);
        lemma2_to64();
        lemma_popcount_bound(mask_lo as nat, 32);
        lemma_popcount_bound(mask_hi as nat, 32);
    }
    if bit < 32 {
        // Only need bits from lo half, below position `bit`
        ones_below(mask_lo, bit)
    } else if bit < 64 {
        // All bits of lo, plus bits below (bit - 32) in hi
        mask_lo.count_ones() + ones_below(mask_hi, bit - 32)
    } else {
        mask_lo.count_ones() + mask_hi.count_ones()
    }
}

/// Check if bit `bit` is set in a 64-bit mask stored as two u32 halves.
pub fn mask_test(mask_lo: u32, mask_hi: u32, bit: u32) -> (set: bool)
    requires
        bit < 64,
    ensures
        set == bit_at(mask64(mask_lo, mask_hi), bit as nat),
{
    proof {
        lemma_mask_bit(mask_lo, mask_hi, bit as nat);
    }
    if bit < 32 {
        test_bit(mask_lo, bit)
    } else {
        test_bit(mask_hi, bit - 32)
    }
}

/// Encode local (x, y, z) coordinates (each 0..3) into a bit position in the
/// 4x4x4 pop_mask.
pub fn xyz_to_bit(x: u32, y: u32, z: u32) -> (bit: u32)
    requires
        x + 4 * y + 16 * z <= u32::MAX,
    ensures
        bit == x + 4 * y + 16 * z,
        x < 4 && y < 4 && z < 4 ==> bit < 64 && x == bit % 4 && y == (bit / 4) % 4 && z == bit / 16,
{
    x + y * 4 + z * 16
}

/// The bits of a two-word mask below `bit`, counted per word.
proof fn lemma_mask_below(lo: u32, hi: u32, bit: nat)
    ensures
        popcount(mask64(lo, hi) % pow2(bit)) == (if bit < 32 {
            popcount(lo as nat % pow2(bit))
        } else if bit < 64 {
            popcount(lo as nat) + popcount(hi as nat % pow2((bit - 32) as nat))
        } else {
            popcount(lo as nat) + popcount(hi as nat)
        }),
{
    let m = mask64(lo, hi);
    let (l, h) = (lo as int, hi as int);
    lemma2_to64();
    lemma_pow2_pos(bit);
    lemma_popcount_split(lo as nat, hi as nat, 32);
    if bit < 32 {
        let q = pow2((32 - bit) as nat) as int;
        lemma_pow2_adds(bit, (32 - bit) as nat);
        let p = pow2(bit) as int;
        assert(p * (q * h) + l == m) by (nonlinear_arith)
            requires
                m == l + (p * q) * h,
        ;
        lemma_mod_multiples_vanish(q * h, l, p);
    } else if bit < 64 {
        let k = (bit - 32) as nat;
        let (p, a) = (pow2(k) as int, 0x1_0000_0000int);
        lemma_pow2_adds(32, k);
        lemma_pow2_pos(k);
        let (d, r) = (h / p, h % p);
        assert(h == p * d + r && 0 <= r < p) by {
            vstd::arithmetic::div_mod::lemma_fundamental_div_mod(h, p);
            vstd::arithmetic::div_mod::lemma_mod_bound(h, p);
        }
        let rest = l + a * r;
        assert(m == d * (a * p) + rest && 0 <= rest < a * p) by (nonlinear_arith)
            requires
                m == l + a * h,
                h == p * d + r,
                0 <= r < p,
                0 <= l < a,
                rest == l + a * r,
        ;
        lemma_fundamental_div_mod_converse(m as int, a * p, d, rest);
        lemma_popcount_split(lo as nat, r as nat, 32);
    } else {
        lemma_pow2_monotone(64, bit);
        lemma_small_mod(m, pow2(bit));
    }
}

/// A bit of a two-word mask is a bit of one of the words.
proof fn lemma_mask_bit(lo: u32, hi: u32, bit: nat)
    requires
        bit < 64,
    ensures
        bit_at(mask64(lo, hi), bit) == (if bit < 32 {
            bit_at(lo as nat, bit)
        } else {
            bit_at(hi as nat, (bit - 32) as nat)
        }),
{
    let m = mask64(lo, hi) as int;
    let (l, h) = (lo as int, hi as int);
    lemma2_to64();
    lemma_pow2_pos(bit);
    if bit < 32 {
        let p = pow2(bit) as int;
        let q = pow2((31 - bit) as nat) as int;
        lemma_pow2_adds(bit, (32 - bit) as nat);
        vstd::arithmetic::power2::lemma_pow2_unfold((32 - bit) as nat);
        let (d, r) = (l / p, l % p);
        vstd::arithmetic::div_mod::lemma_fundamental_div_mod(l, p);
        vstd::arithmetic::div_mod::lemma_mod_bound(l, p);
        assert(m == (d + 2 * (q * h)) * p + r) by (nonlinear_arith)
            requires
                m == l + (p * (2 * q)) * h,
                l == p * d + r,
        ;
        lemma_fundamental_div_mod_converse(m, p, d + 2 * (q * h), r);
        let t = q * h;
        assert((d + 2 * t) % 2 == d % 2);
    } else {
        let k = (bit - 32) as nat;
        let (p, a) = (pow2(k) as int, 0x1_0000_0000int);
        lemma_pow2_adds(32, k);
        lemma_pow2_pos(k);
        let (d, r) = (h / p, h % p);
        vstd::arithmetic::div_mod::lemma_fundamental_div_mod(h, p);
        vstd::arithmetic::div_mod::lemma_mod_bound(h, p);
        let rest = l + a * r;
        assert(m == d * (a * p) + rest && 0 <= rest < a * p) by (nonlinear_arith)
            requires
                m == l + a * h,
                h == p * d + r,
                0 <= r < p,
                0 <= l < a,
                rest == l + a * r,
        ;
        lemma_fundamental_div_mod_converse(m, a * p, d, rest);
    }
}

/// The first word of a node is twice its pointer, and one more for a leaf; its
/// mask is the second word and, above 32 bits, the third.
pub proof fn law_node_words(nodes: Seq<u32>, i: nat)
    requires
        3 * i + 2 < nodes.len(),
    ensures
        nodes[3 * i as int] == 2 * node_ptr(nodes, i) + (if node_is_leaf(nodes, i) {
            1int
        } else {
            0
        }),
        node_mask(nodes, i) == nodes[3 * i as int + 1] + 0x1_0000_0000 * nodes[3 * i as int + 2],
{
    lemma2_to64();
}

proof fn lemma_bytes_of_word(w: u32)
    ensures
        w == (w as nat / pow2(0)) % 256 + 0x100 * ((w as nat / pow2(8)) % 256) + 0x1_0000 * ((
        w as nat / pow2(16)) % 256) + 0x100_0000 * ((w as nat / pow2(24)) % 256),
        (w as nat / pow2(0)) % 256 < 0x100,
        (w as nat / pow2(8)) % 256 < 0x100,
        (w as nat / pow2(16)) % 256 < 0x100,
        (w as nat / pow2(24)) % 256 < 0x100,
{
    lemma2_to64();
    assert(w == w % 256 + 0x100 * ((w / 0x100) % 256) + 0x1_0000 * ((w / 0x1_0000) % 256)
        + 0x100_0000 * ((w / 0x100_0000) % 256)) by (bit_vector);
}

/// The four bytes of a data word make it up, lowest first.
pub proof fn law_data_bytes_make_up_word(data: Seq<u32>, k: nat)
    requires
        k < data.len(),
    ensures
        data[k as int] == data_byte(data, 4 * k) + 0x100 * data_byte(data, 4 * k + 1) + 0x1_0000
            * data_byte(data, 4 * k + 2) + 0x100_0000 * data_byte(data, 4 * k + 3),
        data_byte(data, 4 * k) < 0x100,
        data_byte(data, 4 * k + 1) < 0x100,
        data_byte(data, 4 * k + 2) < 0x100,
        data_byte(data, 4 * k + 3) < 0x100,
{
    let w = data[k as int];
    lemma_bytes_of_word(w);
    assert((4 * k) % 4 == 0 && (4 * k) as int / 4 == k);
    assert((4 * k + 1) % 4 == 1 && (4 * k + 1) as int / 4 == k);
    assert((4 * k + 2) % 4 == 2 && (4 * k + 2) as int / 4 == k);
    assert((4 * k + 3) % 4 == 3 && (4 * k + 3) as int / 4 == k);
}

} // verus!
