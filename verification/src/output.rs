//! The files that benchmarks leave behind: results as JSON lines, frames as
//! images, and what a chart is made from.

use vstd::arithmetic::div_mod::lemma_fundamental_div_mod_converse;
use vstd::prelude::*;

use crate::text::{append_four_digits, append_nat, dec_nat, dec_padded, law_decimal_reads_back};

verus! {

/// The pattern of times in the names of result files.
pub const FILENAME_TIME: &'static str = "%Y-%m-%d-%H-%M-%S";

/// The pattern of times in results.
pub const RESULT_TIME: &'static str = "%Y-%m-%dT%H:%M:%SZ";

/// Bytes to which rows of an image are padded when it is read back.
pub const ROW_ALIGNMENT: u32 = 256;

/// What `utc_text` returns.
pub uninterp spec fn utc_formatted(secs: i64, pattern: Seq<char>) -> Option<Seq<char>>;

/// `chrono::DateTime::<Utc>::from_timestamp` and `format`: a time in UTC, given
/// in seconds since 1970, in a pattern. Nothing where the time is out of range.
/// The text is the same on every machine, since UTC and the two patterns depend
/// on no locale. What the text is, is left unsaid.
#[verifier::external_body]
fn utc_text(secs: i64, pattern: &str) -> (text: Option<String>)
    requires
        pattern@ == FILENAME_TIME@ || pattern@ == RESULT_TIME@,
    ensures
        match text {
            Some(t) => utc_formatted(secs, pattern@) == Some(t@),
            None => utc_formatted(secs, pattern@) is None,
        },
{
    let time = chrono::DateTime::<chrono::Utc>::from_timestamp(secs, 0)?;
    Some(time.format(pattern).to_string())
}

/// The time in results.
pub fn result_time(secs: i64) -> (text: Option<String>)
    ensures
        match text {
            Some(t) => utc_formatted(secs, RESULT_TIME@) == Some(t@),
            None => utc_formatted(secs, RESULT_TIME@) is None,
        },
{
    utc_text(secs, RESULT_TIME)
}

/// The name of a result file.
pub open spec fn results_name(time: Seq<char>, name: Seq<char>) -> Seq<char> {
    time + "-"@ + name + ".jsonl"@
}

/// The name of a result file for a time and a benchmark.
pub fn results_filename_at(time: &str, name: &str) -> (file: String)
    ensures
        file@ == results_name(time@, name@),
        file@ == time@ + "-"@ + name@ + ".jsonl"@,
{
    let mut file: String = String::from_str(time);
    file.append("-");
    file.append(name);
    file.append(".jsonl");
    file
}

/// The name of the result file of a benchmark that was started at a time, if the
/// time is in range.
pub fn results_filename(secs: i64, name: &str) -> (file: Option<String>)
    ensures
        match (file, utc_formatted(secs, FILENAME_TIME@)) {
            (Some(f), Some(time)) => f@ == results_name(time, name@),
            (None, None) => true,
            _ => false,
        },
{
    match utc_text(secs, FILENAME_TIME) {
        Some(time) => Some(results_filename_at(time.as_str(), name)),
        None => None,
    }
}

/// Lines with their ends.
pub open spec fn lines_text(lines: Seq<Seq<char>>) -> Seq<char>
    decreases lines.len(),
{
    if lines.len() == 0 {
        Seq::empty()
    } else {
        lines_text(lines.drop_last()) + lines.last() + "\n"@
    }
}

/// The contents of a result file: the metadata and then each frame, on a line of
/// their own.
pub fn results_text(metadata: &str, frames: &Vec<String>) -> (text: String)
    ensures
        text@ == lines_text(seq![metadata@] + crate::names::texts(frames@)),
{
    let ghost lines = seq![metadata@] + crate::names::texts(frames@);
    let mut text: String = String::from_str(metadata);
    text.append("\n");
    proof {
        let one = lines.take(1);
        assert(one.drop_last() =~= Seq::empty());
        assert(text@ =~= lines_text(one)) by {
            assert(lines_text(one.drop_last()) =~= Seq::empty());
        }
    }
    let mut i: usize = 0;
    while i < frames.len()
        invariant
            i <= frames@.len(),
            lines == seq![metadata@] + crate::names::texts(frames@),
            text@ == lines_text(lines.take(i + 1)),
        decreases frames@.len() - i,
    {
        text.append(frames[i].as_str());
        text.append("\n");
        assert(lines.take(i + 2).drop_last() =~= lines.take(i + 1));
        i += 1;
    }
    assert(lines.take(i + 1) =~= lines);
    text
}

/// The name of the image of a frame.
pub fn frame_filename(name: &str, frame: u32) -> (file: String)
    ensures
        file@ == name@ + "-"@ + dec_padded(frame as nat, 4) + ".ppm"@,
{
    let mut file: String = String::from_str(name);
    file.append("-");
    append_four_digits(&mut file, frame);
    file.append(".ppm");
    file
}

/// Bytes of a row of an image that is read back: four for each pixel, padded.
pub open spec fn padded_row(width: nat) -> nat {
    ((width * 4 + 255) / 256) * 256
}

/// Whether the bytes of an image that is read back can be numbered.
pub open spec fn readback_fits(width: nat, height: nat) -> bool {
    padded_row(width) * height <= u32::MAX && padded_row(width) <= u32::MAX
}

/// Whether the bytes of an image that is read back can be numbered, as
/// `readback_size` and `ppm` need it to.
pub fn check_readback_fits(width: u32, height: u32) -> (fits: bool)
    ensures
        fits == readback_fits(width as nat, height as nat),
        fits <==> padded_row(width as nat) <= 0xFFFF_FFFF && padded_row(width as nat)
            * height as nat <= 0xFFFF_FFFF,
{
    let row: u64 = ((width as u64 * 4 + 255) / 256) * 256;
    if row > u32::MAX as u64 {
        return false;
    }
    assert(row * height <= 0xFFFF_FFFF * 0xFFFF_FFFF) by (nonlinear_arith)
        requires
            row <= 0xFFFF_FFFF,
            height <= 0xFFFF_FFFF,
    ;
    row * height as u64 <= u32::MAX as u64
}

/// Bytes of a row, and of the whole, of an image that is read back.
pub fn readback_size(width: u32, height: u32) -> (size: (u32, u64))
    requires
        readback_fits(width as nat, height as nat),
    ensures
        size.0 == padded_row(width as nat),
        size.1 == padded_row(width as nat) * height as nat,
{
    let unpadded: u32 = width * 4;
    let whole: u32 = unpadded / ROW_ALIGNMENT;
    let rows: u32 = if unpadded % ROW_ALIGNMENT > 0 {
        whole + 1
    } else {
        whole
    };
    let padded: u32 = rows * ROW_ALIGNMENT;
    (padded, (padded * height) as u64)
}

/// The text that an image file begins with.
pub open spec fn ppm_header(width: nat, height: nat) -> Seq<char> {
    "P6\n"@ + dec_nat(width) + " "@ + dec_nat(height) + "\n255\n"@
}

/// Byte `i` of the pixels of an image: they are read back as blue, green, red and
/// alpha, and the file holds red, green and blue.
pub open spec fn ppm_byte(width: nat, mapped: Seq<u8>, i: int) -> u8 {
    let pixel = i / 3;
    let w = width as int;
    mapped[(pixel / w) * padded_row(width) as int + 4 * (pixel % w) + 2 - i % 3]
}

/// The bytes of a text of ASCII characters.
pub open spec fn ascii_bytes(text: Seq<char>) -> Seq<u8> {
    Seq::new(text.len(), |i: int| text[i] as u8)
}

/// The pixels of an image, as a file holds them.
pub open spec fn ppm_pixels(width: nat, mapped: Seq<u8>, pixels: nat) -> Seq<u8> {
    Seq::new(3 * pixels, |i: int| ppm_byte(width, mapped, i))
}

fn header_bytes(width: u32, height: u32) -> (bytes: Vec<u8>)
    ensures
        bytes@ == ascii_bytes(ppm_header(width as nat, height as nat)),
{
    let mut header: String = String::from_str("P6\n");
    append_nat(&mut header, width as u64);
    header.append(" ");
    append_nat(&mut header, height as u64);
    header.append("\n255\n");
    let text: &str = header.as_str();
    let n: usize = text.unicode_len();
    let mut bytes: Vec<u8> = Vec::new();
    let mut i: usize = 0;
    while i < n
        invariant
            i <= n == text@.len(),
            bytes@ == ascii_bytes(text@).take(i as int),
        decreases n - i,
    {
        bytes.push(text.get_char(i) as u8);
        i += 1;
        assert(bytes@ =~= ascii_bytes(text@).take(i as int));
    }
    assert(bytes@ =~= ascii_bytes(text@));
    bytes
}

proof fn lemma_ppm_pixel(width: nat, mapped: Seq<u8>, x: int, y: int)
    requires
        0 <= x < width,
        0 <= y,
    ensures
        ({
            let pixel = y * width + x;
            let at = y * padded_row(width) + 4 * x;
            &&& 0 <= pixel
            &&& ppm_pixels(width, mapped, (pixel + 1) as nat) == ppm_pixels(
                width,
                mapped,
                pixel as nat,
            ).push(mapped[at + 2]).push(mapped[at + 1]).push(mapped[at])
        }),
{
    let pixel = y * width + x;
    assert(0 <= y * width) by (nonlinear_arith)
        requires
            0 <= y,
    ;
    lemma_fundamental_div_mod_converse(pixel, width as int, y, x);
    let at = y * padded_row(width) + 4 * x;
    let more = ppm_pixels(width, mapped, (pixel + 1) as nat);
    let fewer = ppm_pixels(width, mapped, pixel as nat);
    assert(more =~= fewer.push(mapped[at + 2]).push(mapped[at + 1]).push(mapped[at]));
}

/// The image file for a frame, given the bytes that were read back for it.
pub fn ppm(width: u32, height: u32, mapped: &[u8]) -> (file: Vec<u8>)
    requires
        width > 0,
        readback_fits(width as nat, height as nat),
        mapped@.len() == padded_row(width as nat) * height as nat,
    ensures
        file@ == ascii_bytes(ppm_header(width as nat, height as nat)) + ppm_pixels(
            width as nat,
            mapped@,
            width as nat * height as nat,
        ),
{
    let ghost header = ascii_bytes(ppm_header(width as nat, height as nat));
    let row: usize = readback_size(width, height).0 as usize;
    let mut file: Vec<u8> = header_bytes(width, height);
    assert(file@ =~= header + ppm_pixels(width as nat, mapped@, 0));
    let mut y: u32 = 0;
    while y < height
        invariant
            y <= height,
            row == padded_row(width as nat),
            mapped@.len() == padded_row(width as nat) * height as nat,
            mapped@.len() <= u32::MAX,
            file@ == header + ppm_pixels(width as nat, mapped@, (y * width) as nat),
        decreases height - y,
    {
        let mut x: u32 = 0;
        assert(y * row + row <= row * height) by (nonlinear_arith)
            requires
                y < height,
        ;
        while x < width
            invariant
                x <= width,
                row == padded_row(width as nat),
                y * row + row <= mapped@.len() <= u32::MAX,
                file@ == header + ppm_pixels(width as nat, mapped@, (y * width + x) as nat),
            decreases width - x,
        {
            proof {
                lemma_ppm_pixel(width as nat, mapped@, x as int, y as int);
            }
            let at: usize = y as usize * row + 4 * x as usize;
            file.push(mapped[at + 2]);
            file.push(mapped[at + 1]);
            file.push(mapped[at]);
            x += 1;
            assert(file@ =~= header + ppm_pixels(
                width as nat,
                mapped@,
                (y * width + x) as nat,
            ));
        }
        assert(y * width + width == (y + 1) * width) by (nonlinear_arith);
        y += 1;
    }
    assert(height * width == width as nat * height as nat) by (nonlinear_arith);
    file
}

/// Whether a chart can be made: there have to be results to make it from.
pub fn check_results_dir(exists: bool) -> (checked: Result<(), String>)
    ensures
        match checked {
            Ok(()) => exists,
            Err(message) => !exists && message@
                == "bench/results/ directory not found. Run some benchmarks first."@,
        },
{
    if !exists {
        return Err(
            String::from_str("bench/results/ directory not found. Run some benchmarks first."),
        );
    }
    Ok(())
}

/// Whether a chart can be made from some number of benchmarks.
pub fn check_chart_data(benchmarks: usize) -> (checked: Result<(), String>)
    ensures
        match checked {
            Ok(()) => benchmarks > 0,
            Err(message) => benchmarks == 0 && message@
                == "No benchmark data found in bench/results/"@,
        },
{
    if benchmarks == 0 {
        return Err(String::from_str("No benchmark data found in bench/results/"));
    }
    Ok(())
}

/// A row is padded to a multiple of 256 bytes by as little as will do.
pub proof fn law_row_padding(width: nat)
    ensures
        padded_row(width) % 256 == 0,
        4 * width <= padded_row(width) < 4 * width + 256,
{
}

/// The pixels of an image that fits, and those of one of its rows, take no more
/// bytes than 32 bits can number.
pub proof fn law_readback_fits(width: nat, height: nat)
    requires
        readback_fits(width, height),
    ensures
        4 * width <= 0xFFFF_FFFF,
        4 * width * height <= 0xFFFF_FFFF,
{
    law_row_padding(width);
    assert(4 * width * height <= padded_row(width) * height) by (nonlinear_arith)
        requires
            4 * width <= padded_row(width),
    ;
}

/// The pixels of an image file go along the rows from the top, three bytes each:
/// red, green and blue of the pixel, which was read back as blue, green and red in
/// its place of its padded row.
pub proof fn law_image_bytes(width: nat, height: nat, mapped: Seq<u8>, x: nat, y: nat)
    requires
        x < width,
        y < height,
    ensures
        ({
            let pixels = ppm_pixels(width, mapped, width * height);
            let to = 3 * (y * width + x) as int;
            let from = (y * padded_row(width) + 4 * x) as int;
            &&& pixels.len() == 3 * (width * height)
            &&& to + 3 <= pixels.len()
            &&& pixels[to] == mapped[from + 2]
            &&& pixels[to + 1] == mapped[from + 1]
            &&& pixels[to + 2] == mapped[from]
        }),
{
    let pixel = (y * width + x) as int;
    assert(pixel + 1 <= width * height && 0 <= pixel) by (nonlinear_arith)
        requires
            pixel == y * width + x,
            x < width,
            y < height,
    ;
    lemma_fundamental_div_mod_converse(pixel, width as int, y as int, x as int);
    let to = 3 * pixel;
    assert(to / 3 == pixel && (to + 1) / 3 == pixel && (to + 2) / 3 == pixel);
    assert(to % 3 == 0 && (to + 1) % 3 == 1 && (to + 2) % 3 == 2);
}

/// An image file begins with `P6`, the width and the height in decimal, and 255,
/// and each of these characters is one byte.
pub proof fn law_image_header(width: nat, height: nat)
    ensures
        ppm_header(width, height) == seq!['P', '6', '\n'] + dec_nat(width) + seq![' '] + dec_nat(
            height,
        ) + seq!['\n', '2', '5', '5', '\n'],
        ascii_bytes(ppm_header(width, height)).len() == ppm_header(width, height).len(),
        forall|i: int|
            0 <= i < ppm_header(width, height).len() ==> #[trigger] ascii_bytes(
                ppm_header(width, height),
            )[i] as int == ppm_header(width, height)[i] as int,
{
    reveal_strlit("P6\n");
    reveal_strlit(" ");
    reveal_strlit("\n255\n");
    assert("P6\n"@ =~= seq!['P', '6', '\n']);
    assert(" "@ =~= seq![' ']);
    assert("\n255\n"@ =~= seq!['\n', '2', '5', '5', '\n']);
    law_decimal_reads_back(width);
    law_decimal_reads_back(height);
    let header = ppm_header(width, height);
    let (w, h) = (dec_nat(width), dec_nat(height));
    assert forall|i: int| 0 <= i < header.len() implies #[trigger] ascii_bytes(header)[i] as int
        == header[i] as int by {
        let a = 3int;
        let b = a + w.len();
        let c = b + 1;
        let d = c + h.len();
        if a <= i < b {
            assert(header[i] == w[i - a]);
        } else if c <= i < d {
            assert(header[i] == h[i - c]);
        }
        assert((header[i] as int) < 128);
    }
}

/// Lines are written one after the other, each with an end of line after it.
pub proof fn law_lines_one_by_one(a: Seq<Seq<char>>, b: Seq<Seq<char>>, line: Seq<char>)
    ensures
        lines_text(a + b) == lines_text(a) + lines_text(b),
        lines_text(seq![line]) == line.push('\n'),
        lines_text(Seq::empty()).len() == 0,
    decreases b.len(),
{
    reveal_strlit("\n");
    assert("\n"@ =~= seq!['\n']);
    assert(seq![line].drop_last() =~= Seq::<Seq<char>>::empty());
    assert(lines_text(Seq::<Seq<char>>::empty()) =~= Seq::<char>::empty());
    assert(lines_text(seq![line]) =~= line.push('\n'));
    if b.len() == 0 {
        assert(a + b =~= a);
        assert(lines_text(a) + lines_text(b) =~= lines_text(a));
    } else {
        law_lines_one_by_one(a, b.drop_last(), line);
        assert((a + b).drop_last() =~= a + b.drop_last());
        assert((a + b).last() == b.last());
        assert(lines_text(a + b) =~= lines_text(a) + lines_text(b));
    }
}

} // verus!
