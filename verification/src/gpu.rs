//! The pair of accumulation buffers a renderer alternates between, and what the
//! buffers on the GPU hold.

use vstd::prelude::*;

use crate::region::{law_bytes_make_up_number, le_byte};

verus! {

/// Words per pixel in the history and accumulation buffers: color, sample
/// count, first hit position, and the packed surface description.
pub const PIXEL_WORDS: u32 = 8;

/// The bytes of words, lowest byte of each first.
pub open spec fn little_endian(words: Seq<u32>) -> Seq<u8> {
    Seq::new(4 * words.len(), |i: int| le_byte(words[i / 4], (i % 4) as nat))
}

/// The bytes of words, highest byte of each first.
pub open spec fn big_endian(words: Seq<u32>) -> Seq<u8> {
    Seq::new(4 * words.len(), |i: int| le_byte(words[i / 4], (3 - i % 4) as nat))
}

/// `bytemuck::cast_slice`, from words to bytes: the memory of the words, which
/// holds the bytes of each word in the order of the machine. That order is the
/// same for all words. A cast to bytes never fails, since bytes fit at every
/// address and divide every length.
#[verifier::external_body]
fn cast_words(words: &[u32]) -> (bytes: &[u8])
    ensures
        bytes@ == little_endian(words@) || bytes@ == big_endian(words@),
{
    bytemuck::cast_slice(words)
}

/// The contents of a storage buffer that holds words.
pub fn storage_contents(words: &[u32]) -> (bytes: &[u8])
    ensures
        bytes@ == little_endian(words@) || bytes@ == big_endian(words@),
{
    cast_words(words)
}

/// Whether the words of an accumulation buffer for an image can be numbered.
pub open spec fn image_fits(width: nat, height: nat) -> bool {
    width * height * 8 <= u32::MAX
}

/// Whether the words of an accumulation buffer for an image can be numbered, as
/// `accum_buffer_size` needs it to.
pub fn check_image_fits(width: u32, height: u32) -> (fits: bool)
    ensures
        fits == image_fits(width as nat, height as nat),
        fits <==> width as nat * height as nat * 8 <= 0xFFFF_FFFF,
{
    assert(width as u64 * height as u64 <= 0xFFFF_FFFF * 0xFFFF_FFFF) by (nonlinear_arith)
        requires
            width <= 0xFFFF_FFFF,
            height <= 0xFFFF_FFFF,
    ;
    let pixels: u64 = width as u64 * height as u64;
    pixels <= u32::MAX as u64 / 8
}

/// Bytes of an accumulation buffer for an image.
pub fn accum_buffer_size(width: u32, height: u32) -> (bytes: u64)
    requires
        image_fits(width as nat, height as nat),
    ensures
        bytes == width as nat * height as nat * 8 * 4,
{
    (width * height * PIXEL_WORDS) as u64 * 4
}

/// The buffer that a bind group reads the previous frame from.
pub open spec fn history_buffer(group: int) -> int {
    1 - group
}

/// The buffer that a bind group writes the frame to.
pub open spec fn accum_buffer(group: int) -> int {
    group
}

/// Which of two accumulation buffers the next frame writes. Each bind group
/// reads one buffer while writing the other, and the groups alternate frame by
/// frame, so each frame can blend into the previous one's result.
pub struct Accumulation {
    pub size: (u32, u32),
    /// Which buffer the next frame writes.
    pub writing: usize,
}

impl Accumulation {
    /// The bind group of the next frame.
    pub open spec fn group(self) -> int {
        self.writing as int
    }

    /// There are two bind groups.
    pub open spec fn wf(self) -> bool {
        0 <= self.group() < 2
    }

    /// Two fresh buffers for an image.
    pub fn new(width: u32, height: u32) -> (accumulation: Self)
        ensures
            accumulation.wf(),
            accumulation.size == (width, height),
            accumulation.group() == 0,
            accumulation.writing == 0,
    {
        Self { size: (width, height), writing: 0 }
    }

    /// The history buffer and the accumulation buffer of a bind group.
    pub fn bindings(group: usize) -> (buffers: (usize, usize))
        requires
            group < 2,
        ensures
            buffers.0 == history_buffer(group as int),
            buffers.1 == accum_buffer(group as int),
            buffers.0 == 1 - group,
            buffers.1 == group,
    {
        (1 - group, group)
    }

    /// The bind group for the next frame: it reads the buffer the last frame
    /// wrote and writes the other one.
    pub fn bind_group(&self) -> (group: usize)
        ensures
            group == self.group(),
            group == self.writing,
    {
        self.writing
    }

    /// The frame has been recorded; the next one reads what it wrote.
    pub fn swap(&mut self)
        requires
            old(self).wf(),
        ensures
            final(self).wf(),
            final(self).size == old(self).size,
            final(self).group() == 1 - old(self).group(),
            final(self).writing == 1 - old(self).writing,
    {
        let writing: usize = self.writing;
        assert(writing < 2 ==> writing ^ 1 == 1 - writing) by (bit_vector);
        self.writing = writing ^ 1;
    }
}

/// The frame after a swap reads the buffer that the frame before it wrote, and
/// writes the other one.
pub proof fn law_next_frame_reads_last_frame(before: Accumulation, after: Accumulation)
    requires
        before.wf(),
        after.group() == 1 - before.group(),
    ensures
        after.wf(),
        history_buffer(after.group()) == accum_buffer(before.group()),
        accum_buffer(after.group()) == history_buffer(before.group()),
        history_buffer(after.group()) != accum_buffer(after.group()),
        accum_buffer(before.group()) == before.writing,
        history_buffer(before.group()) == 1 - before.writing,
{
}

/// The bytes of words make up the words again: lowest byte first in the one order,
/// highest byte first in the other.
pub proof fn law_bytes_make_up_words(words: Seq<u32>, i: int)
    requires
        0 <= i < words.len(),
    ensures
        little_endian(words).len() == 4 * words.len(),
        big_endian(words).len() == 4 * words.len(),
        ({
            let b = little_endian(words);
            words[i] == b[4 * i] + 0x100 * b[4 * i + 1] + 0x1_0000 * b[4 * i + 2] + 0x100_0000
                * b[4 * i + 3]
        }),
        ({
            let b = big_endian(words);
            words[i] == b[4 * i + 3] + 0x100 * b[4 * i + 2] + 0x1_0000 * b[4 * i + 1]
                + 0x100_0000 * b[4 * i]
        }),
{
    law_bytes_make_up_number(words[i]);
    let (b, c) = (little_endian(words), big_endian(words));
    assert(b[4 * i] == le_byte(words[i], 0) && b[4 * i + 1] == le_byte(words[i], 1) && b[4 * i + 2]
        == le_byte(words[i], 2) && b[4 * i + 3] == le_byte(words[i], 3));
    assert(c[4 * i] == le_byte(words[i], 3) && c[4 * i + 1] == le_byte(words[i], 2) && c[4 * i + 2]
        == le_byte(words[i], 1) && c[4 * i + 3] == le_byte(words[i], 0));
}

} // verus!
