//! A region file: up to 4096 chunks in one file.
//!
//! The file begins with an 8-byte header (magic `VXRG`, version, two reserved
//! bytes) and a table of 4096 entries of 12 bytes (first sector, size in bytes,
//! format tag, three reserved bytes). Chunk data follows in sectors of 4096
//! bytes. Sectors are handed out from a high-water mark: a chunk that is
//! overwritten by one that fits keeps its sectors, any other gets new ones.
//!
//! `RegionFile` keeps the table and decides what is read and written where. The
//! caller owns the file and carries out the reads and writes it is given.

use vstd::prelude::*;
use vstd::slice::slice_to_vec;

use crate::store::{StorageError, SECTOR_SIZE};

verus! {

/// The version this library reads and writes.
pub const VERSION: u16 = 1;

/// Magic, version and reserved bytes.
pub const FILE_HEADER_SIZE: usize = 8;

/// Bytes per entry of the header table.
pub const ENTRY_SIZE: usize = 12;

/// Chunks per region: 16^3.
pub const NUM_SLOTS: usize = 4096;

/// Bytes of the header table.
pub const HEADER_TABLE_SIZE: usize = 49152;

/// Bytes of the file header and the header table.
pub const HEADER_TOTAL_SIZE: usize = 49160;

/// The first sector past the header.
pub const DATA_START_SECTOR: u32 = 13;

/// The four bytes a region file begins with.
pub open spec fn magic() -> Seq<u8> {
    seq![0x56u8, 0x58u8, 0x52u8, 0x47u8]
}

/// The number that four bytes stand for, lowest first.
pub open spec fn le32(b: Seq<u8>) -> nat {
    (b[0] + 0x100 * b[1] + 0x1_0000 * b[2] + 0x100_0000 * b[3]) as nat
}

/// Byte `k` of a number, lowest first.
pub open spec fn le_byte(x: u32, k: nat) -> u8 {
    (if k == 0 {
        x as int % 256
    } else if k == 1 {
        (x as int / 0x100) % 256
    } else if k == 2 {
        (x as int / 0x1_0000) % 256
    } else {
        x as int / 0x100_0000
    }) as u8
}

/// Where a chunk is and what it is.
#[derive(Clone, Copy, Debug, PartialEq, Eq, Structural)]
pub struct HeaderEntry {
    pub sector_start: u32,
    pub byte_size: u32,
    pub format_tag: u8,
}

/// The twelve bytes of an entry.
pub open spec fn entry_bytes(e: HeaderEntry) -> Seq<u8> {
    seq![
        le_byte(e.sector_start, 0),
        le_byte(e.sector_start, 1),
        le_byte(e.sector_start, 2),
        le_byte(e.sector_start, 3),
        le_byte(e.byte_size, 0),
        le_byte(e.byte_size, 1),
        le_byte(e.byte_size, 2),
        le_byte(e.byte_size, 3),
        e.format_tag,
        0u8,
        0u8,
        0u8,
    ]
}

/// The entry that twelve bytes stand for. The last three say nothing.
pub open spec fn decode_entry(b: Seq<u8>) -> HeaderEntry {
    HeaderEntry {
        sector_start: le32(b.subrange(0, 4)) as u32,
        byte_size: le32(b.subrange(4, 8)) as u32,
        format_tag: b[8],
    }
}

/// Sectors that a number of bytes takes up.
pub open spec fn sectors(byte_size: nat) -> nat {
    (byte_size + 4095) / 4096
}

/// Sectors that a number of bytes takes up.
pub fn sectors_needed(byte_size: u32) -> (n: u32)
    ensures
        n == sectors(byte_size as nat),
        n <= 0x10_0000,
{
    let whole: u32 = byte_size / SECTOR_SIZE;
    if byte_size % SECTOR_SIZE > 0 {
        whole + 1
    } else {
        whole
    }
}

fn byte_of(x: u32, k: u32) -> (b: u8)
    requires
        k < 4,
    ensures
        b == le_byte(x, k as nat),
{
    proof {
        assert(x & 0xFF == x % 256 && (x >> 8) & 0xFF == (x / 0x100) % 256 && (x >> 16) & 0xFF == (x
            / 0x1_0000) % 256 && x >> 24 == x / 0x100_0000) by (bit_vector);
        assert((x & 0xFF) < 256 && ((x >> 8) & 0xFF) < 256 && ((x >> 16) & 0xFF) < 256 && x >> 24
            < 256) by (bit_vector);
    }
    if k == 0 {
        (x & 0xFF) as u8
    } else if k == 1 {
        ((x >> 8) & 0xFF) as u8
    } else if k == 2 {
        ((x >> 16) & 0xFF) as u8
    } else {
        (x >> 24) as u8
    }
}

fn word_of(b0: u8, b1: u8, b2: u8, b3: u8) -> (x: u32)
    ensures
        x == b0 + 0x100 * b1 + 0x1_0000 * b2 + 0x100_0000 * b3,
{
    b0 as u32 + 0x100 * b1 as u32 + 0x1_0000 * b2 as u32 + 0x100_0000 * b3 as u32
}

impl HeaderEntry {
    /// The entry of a chunk that is not there.
    pub fn absent() -> (e: Self)
        ensures
            e == (HeaderEntry { sector_start: 0, byte_size: 0, format_tag: 0 }),
    {
        Self { sector_start: 0, byte_size: 0, format_tag: 0 }
    }

    /// Whether the chunk is there: whether it has any bytes.
    pub fn is_present(&self) -> (present: bool)
        ensures
            present == (self.byte_size > 0),
    {
        self.byte_size > 0
    }

    /// Sectors the chunk takes up.
    pub fn sector_count(&self) -> (n: u32)
        ensures
            n == sectors(self.byte_size as nat),
            n <= 0x10_0000,
    {
        sectors_needed(self.byte_size)
    }

    /// The entry as it stands in the file.
    pub fn to_bytes(&self) -> (bytes: [u8; 12])
        ensures
            bytes@ == entry_bytes(*self),
    {
        let bytes: [u8; 12] = [
            byte_of(self.sector_start, 0),
            byte_of(self.sector_start, 1),
            byte_of(self.sector_start, 2),
            byte_of(self.sector_start, 3),
            byte_of(self.byte_size, 0),
            byte_of(self.byte_size, 1),
            byte_of(self.byte_size, 2),
            byte_of(self.byte_size, 3),
            self.format_tag,
            0,
            0,
            0,
        ];
        assert(bytes@ =~= entry_bytes(*self));
        bytes
    }

    /// Read an entry as it stands in the file.
    pub fn from_bytes(buf: &[u8; 12]) -> (e: Self)
        ensures
            e == decode_entry(buf@),
    {
        Self {
            sector_start: word_of(buf[0], buf[1], buf[2], buf[3]),
            byte_size: word_of(buf[4], buf[5], buf[6], buf[7]),
            format_tag: buf[8],
        }
    }
}

/// Reading back the bytes of an entry gives the entry.
pub proof fn law_entry_reads_back(e: HeaderEntry)
    ensures
        decode_entry(entry_bytes(e)) == e,
        entry_bytes(e).len() == 12,
{
    let b = entry_bytes(e);
    lemma_le32(e.sector_start);
    lemma_le32(e.byte_size);
    assert(b.subrange(0, 4)[0] == b[0] && b.subrange(0, 4)[3] == b[3]);
    assert(b.subrange(4, 8)[0] == b[4] && b.subrange(4, 8)[3] == b[7]);
}

proof fn lemma_le32(x: u32)
    ensures
        le_byte(x, 0) + 0x100 * le_byte(x, 1) + 0x1_0000 * le_byte(x, 2) + 0x100_0000 * le_byte(
            x,
            3,
        ) == x,
{
}

/// The bytes of a number make it up, lowest first.
pub proof fn law_bytes_make_up_number(x: u32)
    ensures
        x == le_byte(x, 0) + 0x100 * le_byte(x, 1) + 0x1_0000 * le_byte(x, 2) + 0x100_0000
            * le_byte(x, 3),
{
    lemma_le32(x);
}

/// Bytes to write at a place in the file.
pub struct DiskWrite {
    pub offset: u64,
    pub bytes: Vec<u8>,
}

/// Bytes to read from a place in the file.
#[derive(Clone, Copy, Debug, PartialEq, Eq, Structural)]
pub struct ChunkRead {
    pub offset: u64,
    pub len: u32,
    pub format_tag: u8,
}

/// A chunk whose sectors have been picked. Its bytes are to be written first, and
/// then its entry.
pub struct PendingChunk {
    pub slot: usize,
    pub entry: HeaderEntry,
    pub data: DiskWrite,
}

/// The contents of a file after writing to it. Bytes between the old end and the
/// write are zero.
pub open spec fn written(file: Seq<u8>, offset: nat, bytes: Seq<u8>) -> Seq<u8> {
    let end = offset + bytes.len();
    Seq::new(
        if bytes.len() > 0 && end > file.len() {
            end
        } else {
            file.len()
        },
        |i: int|
            if offset <= i < end {
                bytes[i - offset]
            } else if i < file.len() {
                file[i]
            } else {
                0
            },
    )
}

/// Bytes filled up with zeros to whole sectors.
pub open spec fn padded(data: Seq<u8>) -> Seq<u8> {
    data + Seq::new((4096 * sectors(data.len()) - data.len()) as nat, |i: int| 0u8)
}

/// The file of a region with no chunks.
pub open spec fn fresh_file() -> Seq<u8> {
    Seq::new(
        13 * 4096,
        |i: int|
            if i < 4 {
                magic()[i]
            } else if i == 4 {
                1
            } else {
                0
            },
    )
}

/// The entries of a region with no chunks.
pub open spec fn fresh_entries() -> Seq<HeaderEntry> {
    Seq::new(4096, |i: int| HeaderEntry { sector_start: 0, byte_size: 0, format_tag: 0 })
}

/// Bytes `12 i .. 12 i + 12`.
pub open spec fn entry_slice(table: Seq<u8>, i: int) -> Seq<u8> {
    table.subrange(12 * i, 12 * i + 12)
}

/// The entries that a header table holds.
pub open spec fn decode_table(table: Seq<u8>) -> Seq<HeaderEntry> {
    Seq::new(4096, |i: int| decode_entry(entry_slice(table, i)))
}

/// The sector past a chunk.
pub open spec fn entry_end(e: HeaderEntry) -> nat {
    e.sector_start as nat + sectors(e.byte_size as nat)
}

/// The first sector past the header and the first `n` chunks.
pub open spec fn high_water(entries: Seq<HeaderEntry>, n: nat) -> nat
    decreases n,
{
    if n == 0 {
        13
    } else {
        let before = high_water(entries, (n - 1) as nat);
        let e = entries[n - 1];
        if e.byte_size > 0 && entry_end(e) > before {
            entry_end(e)
        } else {
            before
        }
    }
}

/// Whether every chunk ends at a sector with a number.
pub open spec fn ends_in_range(entries: Seq<HeaderEntry>) -> bool {
    forall|i: int|
        0 <= i < entries.len() && #[trigger] entries[i].byte_size > 0 ==> entry_end(entries[i])
            <= u32::MAX
}

/// Whether a chunk of `len` bytes can go where the chunk in a slot is.
pub open spec fn reuses(entries: Seq<HeaderEntry>, slot: int, len: nat) -> bool {
    &&& entries[slot].byte_size > 0
    &&& sectors(entries[slot].byte_size as nat) >= sectors(len)
}

/// Whether a chunk of `len` bytes can be placed: an entry has room for its size, and
/// there is a sector number for its end.
pub open spec fn has_room(
    entries: Seq<HeaderEntry>,
    next_sector: nat,
    slot: int,
    len: nat,
) -> bool {
    &&& len <= u32::MAX
    &&& reuses(entries, slot, len) || next_sector + sectors(len) <= u32::MAX
}

/// The entry that a chunk gets.
pub open spec fn placed(
    entries: Seq<HeaderEntry>,
    next_sector: nat,
    slot: int,
    len: nat,
    format_tag: u8,
) -> HeaderEntry {
    HeaderEntry {
        sector_start: if reuses(entries, slot, len) {
            entries[slot].sector_start
        } else {
            next_sector as u32
        },
        byte_size: len as u32,
        format_tag,
    }
}

/// The high-water mark after a chunk has been placed.
pub open spec fn next_after(
    entries: Seq<HeaderEntry>,
    next_sector: nat,
    slot: int,
    len: nat,
) -> nat {
    if reuses(entries, slot, len) {
        next_sector
    } else {
        next_sector + sectors(len)
    }
}

/// What is wrong with the first eight bytes of a file.
pub open spec fn header_error(header: Seq<u8>) -> Option<StorageError> {
    let version = (header[4] + 0x100 * header[5]) as u16;
    if header.take(4) != magic() {
        Some(StorageError::InvalidMagic)
    } else if version != 1 {
        Some(StorageError::UnsupportedVersion(version))
    } else {
        None
    }
}

/// Check the first eight bytes of a region file.
pub fn check_header(header: &[u8]) -> (checked: Result<(), StorageError>)
    requires
        header@.len() == 8,
    ensures
        match header_error(header@) {
            None => checked is Ok,
            Some(e) => checked == Err::<(), StorageError>(e),
        },
{
    if !(header[0] == 0x56 && header[1] == 0x58 && header[2] == 0x52 && header[3] == 0x47) {
        assert(header@.take(4) != magic()) by {
            if header@.take(4) == magic() {
                assert(header@.take(4)[0] == header@[0] && header@.take(4)[1] == header@[1]
                    && header@.take(4)[2] == header@[2] && header@.take(4)[3] == header@[3]);
            }
        }
        return Err(StorageError::InvalidMagic);
    }
    assert(header@.take(4) =~= magic());
    let version: u16 = header[4] as u16 + 0x100 * header[5] as u16;
    if version != VERSION {
        return Err(StorageError::UnsupportedVersion(version));
    }
    Ok(())
}

/// What the caller found where the file of a region would be.
pub enum RegionSource {
    /// No file.
    Missing,
    /// A file, by its first eight bytes and its header table.
    Stored { header: Vec<u8>, table: Vec<u8> },
}

impl RegionSource {
    /// The header and the table are whole, and every chunk ends at a sector with
    /// a number.
    pub open spec fn readable(self) -> bool {
        match self {
            RegionSource::Missing => true,
            RegionSource::Stored { header, table } => {
                &&& header@.len() == 8
                &&& table@.len() == 49152
                &&& ends_in_range(decode_table(table@))
            },
        }
    }
}

/// Where a sector begins in the file.
fn sector_offset(sector: u32) -> (offset: u64)
    ensures
        offset == sector * 4096,
{
    let size: u64 = SECTOR_SIZE as u64;
    assert(size == 4096);
    sector as u64 * size
}

/// The table of a region file.
pub struct RegionFile {
    entries: Vec<HeaderEntry>,
    next_sector: u32,
}

impl RegionFile {
    /// The entry of every slot.
    pub closed spec fn entries(self) -> Seq<HeaderEntry> {
        self.entries@
    }

    /// The first sector that has never been handed out.
    pub closed spec fn next(self) -> nat {
        self.next_sector as nat
    }

    /// There is an entry for every slot.
    pub open spec fn wf(self) -> bool {
        self.entries().len() == 4096 && self.next() <= u32::MAX
    }

    /// A region with no chunks, and the contents of its file.
    pub fn create() -> (region: (Self, Vec<u8>))
        ensures
            region.0.wf(),
            region.0.entries() == fresh_entries(),
            region.0.next() == DATA_START_SECTOR,
            region.1@ == fresh_file(),
    {
        let mut entries: Vec<HeaderEntry> = Vec::new();
        while entries.len() < NUM_SLOTS
            invariant
                entries@.len() <= 4096,
                entries@ =~= fresh_entries().take(entries@.len() as int),
            decreases 4096 - entries@.len(),
        {
            entries.push(HeaderEntry::absent());
        }
        assert(entries@ =~= fresh_entries());
        let mut file: Vec<u8> = Vec::new();
        file.push(0x56);
        file.push(0x58);
        file.push(0x52);
        file.push(0x47);
        file.push(1);
        let end: usize = DATA_START_SECTOR as usize * SECTOR_SIZE as usize;
        while file.len() < end
            invariant
                5 <= file@.len() <= end == 13 * 4096,
                file@ =~= fresh_file().take(file@.len() as int),
            decreases end - file@.len(),
        {
            file.push(0);
        }
        assert(file@ =~= fresh_file());
        (Self { entries, next_sector: DATA_START_SECTOR }, file)
    }

    /// The entries of a header table.
    fn read_table(table: &[u8]) -> (entries: Vec<HeaderEntry>)
        requires
            table@.len() == 49152,
        ensures
            entries@ == decode_table(table@),
    {
        let mut entries: Vec<HeaderEntry> = Vec::new();
        let mut i: usize = 0;
        while i < NUM_SLOTS
            invariant
                i <= 4096,
                table@.len() == 49152,
                entries@ == decode_table(table@).take(i as int),
            decreases 4096 - i,
        {
            let at: usize = i * ENTRY_SIZE;
            let buf: [u8; 12] = [
                table[at],
                table[at + 1],
                table[at + 2],
                table[at + 3],
                table[at + 4],
                table[at + 5],
                table[at + 6],
                table[at + 7],
                table[at + 8],
                table[at + 9],
                table[at + 10],
                table[at + 11],
            ];
            assert(buf@ =~= entry_slice(table@, i as int));
            entries.push(HeaderEntry::from_bytes(&buf));
            i += 1;
            assert(entries@ =~= decode_table(table@).take(i as int));
        }
        assert(entries@ =~= decode_table(table@));
        entries
    }

    /// Whether every chunk of a header table ends at a sector with a number, as
    /// `open` needs it to.
    pub fn table_in_range(table: &[u8]) -> (fits: bool)
        requires
            table@.len() == HEADER_TABLE_SIZE,
        ensures
            fits == ends_in_range(decode_table(table@)),
    {
        let entries: Vec<HeaderEntry> = Self::read_table(table);
        let mut i: usize = 0;
        while i < NUM_SLOTS
            invariant
                i <= 4096,
                entries@ == decode_table(table@),
                forall|j: int|
                    0 <= j < i && #[trigger] entries@[j].byte_size > 0 ==> entry_end(entries@[j])
                        <= u32::MAX,
            decreases 4096 - i,
        {
            let entry: HeaderEntry = entries[i];
            if entry.is_present() && entry.sector_start as u64 + entry.sector_count() as u64
                > u32::MAX as u64 {
                assert(entries@[i as int].byte_size > 0);
                return false;
            }
            i += 1;
        }
        true
    }

    /// Open a region file, given its first eight bytes and its header table.
    pub fn open(header: &[u8], table: &[u8]) -> (region: Result<Self, StorageError>)
        requires
            header@.len() == FILE_HEADER_SIZE,
            table@.len() == HEADER_TABLE_SIZE,
            ends_in_range(decode_table(table@)),
        ensures
            match region {
                Ok(r) => {
                    &&& header_error(header@) is None
                    &&& r.wf()
                    &&& r.entries() == decode_table(table@)
                    &&& r.next() == high_water(decode_table(table@), 4096)
                },
                Err(e) => header_error(header@) == Some(e),
            },
    {
        match check_header(header) {
            Ok(()) => {},
            Err(e) => {
                return Err(e);
            },
        }
        let entries: Vec<HeaderEntry> = Self::read_table(table);
        // Compute next_sector from high-water mark
        let mut next_sector: u32 = DATA_START_SECTOR;
        let mut i: usize = 0;
        while i < NUM_SLOTS
            invariant
                i <= 4096,
                entries@.len() == 4096,
                ends_in_range(entries@),
                next_sector == high_water(entries@, i as nat),
            decreases 4096 - i,
        {
            let entry: HeaderEntry = entries[i];
            if entry.is_present() {
                assert(entries@[i as int].byte_size > 0);
                let end: u32 = entry.sector_start + entry.sector_count();
                if end > next_sector {
                    next_sector = end;
                }
            }
            i += 1;
        }
        Ok(Self { entries, next_sector })
    }

    /// Open a region file, or create it where there is none. A file that has to be
    /// created comes with its contents.
    pub fn open_or_create(source: &RegionSource) -> (region: Result<
        (Self, Option<Vec<u8>>),
        StorageError,
    >)
        requires
            source.readable(),
        ensures
            match (*source, region) {
                (RegionSource::Missing, Ok((r, Some(contents)))) => {
                    &&& r.wf()
                    &&& r.entries() == fresh_entries()
                    &&& r.next() == DATA_START_SECTOR
                    &&& contents@ == fresh_file()
                },
                (RegionSource::Stored { header, table }, Ok((r, None))) => {
                    &&& header_error(header@) is None
                    &&& r.wf()
                    &&& r.entries() == decode_table(table@)
                    &&& r.next() == high_water(decode_table(table@), 4096)
                },
                (RegionSource::Stored { header, table }, Err(e)) => header_error(header@) == Some(e),
                _ => false,
            },
    {
        match source {
            RegionSource::Missing => {
                let (region, contents) = Self::create();
                Ok((region, Some(contents)))
            },
            RegionSource::Stored { header, table } => {
                match Self::open(header.as_slice(), table.as_slice()) {
                    Ok(region) => Ok((region, None)),
                    Err(e) => Err(e),
                }
            },
        }
    }

    /// Whether there is a chunk in a slot.
    pub fn has_chunk(&self, slot: usize) -> (present: bool)
        requires
            self.wf(),
            slot < NUM_SLOTS,
        ensures
            present == (self.entries()[slot as int].byte_size > 0),
    {
        self.entries[slot].is_present()
    }

    /// The sector at which the chunk in a slot begins.
    pub fn sector_start(&self, slot: usize) -> (sector: u32)
        requires
            self.wf(),
            slot < NUM_SLOTS,
        ensures
            sector == self.entries()[slot as int].sector_start,
    {
        self.entries[slot].sector_start
    }

    /// The first sector that has never been handed out.
    pub fn next_sector(&self) -> (sector: u32)
        ensures
            sector == self.next(),
    {
        self.next_sector
    }

    /// What to read for the chunk in a slot, if there is one.
    pub fn read_chunk(&self, slot: usize) -> (read: Option<ChunkRead>)
        requires
            self.wf(),
            slot < NUM_SLOTS,
        ensures
            read == chunk_read(self.entries()[slot as int]),
    {
        let entry: HeaderEntry = self.entries[slot];
        if !entry.is_present() {
            return None;
        }
        let offset: u64 = sector_offset(entry.sector_start);
        Some(ChunkRead { offset, len: entry.byte_size, format_tag: entry.format_tag })
    }

    /// Whether a chunk of `len` bytes can be placed in a slot, as `write_chunk`
    /// needs it to.
    pub fn has_room(&self, slot: usize, len: usize) -> (room: bool)
        requires
            self.wf(),
            slot < NUM_SLOTS,
        ensures
            room == has_room(self.entries(), self.next(), slot as int, len as nat),
    {
        if len as u64 > u32::MAX as u64 {
            return false;
        }
        let byte_size: u32 = len as u32;
        let needed: u32 = sectors_needed(byte_size);
        let entry: HeaderEntry = self.entries[slot];
        (entry.is_present() && entry.sector_count() >= needed) || self.next_sector as u64
            + needed as u64 <= u32::MAX as u64
    }

    /// Place a chunk in a slot. The result says what to write where; the slot
    /// still holds what it held until `commit_chunk`.
    pub fn write_chunk(&mut self, slot: usize, data: &[u8], format_tag: u8) -> (chunk: PendingChunk)
        requires
            old(self).wf(),
            slot < NUM_SLOTS,
            has_room(old(self).entries(), old(self).next(), slot as int, data@.len()),
        ensures
            final(self).wf(),
            final(self).entries() == old(self).entries(),
            final(self).next() == next_after(
                old(self).entries(),
                old(self).next(),
                slot as int,
                data@.len(),
            ),
            chunk.slot == slot,
            chunk.entry == placed(
                old(self).entries(),
                old(self).next(),
                slot as int,
                data@.len(),
                format_tag,
            ),
            chunk.data.offset == chunk.entry.sector_start * 4096,
            chunk.data.bytes@ == padded(data@),
    {
        let byte_size: u32 = data.len() as u32;
        let needed_sectors: u32 = sectors_needed(byte_size);
        let old_entry: HeaderEntry = self.entries[slot];
        // Decide where to write: reuse old sectors if they fit, otherwise append
        let sector_start: u32 = if old_entry.is_present() && old_entry.sector_count()
            >= needed_sectors {
            old_entry.sector_start
        } else {
            let start: u32 = self.next_sector;
            self.next_sector = start + needed_sectors;
            start
        };
        let offset: u64 = sector_offset(sector_start);
        // Zero-pad to sector boundary
        let mut bytes: Vec<u8> = slice_to_vec(data);
        let remainder: usize = data.len() % SECTOR_SIZE as usize;
        if remainder != 0 {
            let padding: usize = SECTOR_SIZE as usize - remainder;
            let mut k: usize = 0;
            while k < padding
                invariant
                    k <= padding,
                    bytes@ == data@ + Seq::new(k as nat, |i: int| 0u8),
                decreases padding - k,
            {
                bytes.push(0);
                k += 1;
                assert(bytes@ =~= data@ + Seq::new(k as nat, |i: int| 0u8));
            }
        }
        assert(bytes@ =~= padded(data@));
        PendingChunk {
            slot,
            entry: HeaderEntry { sector_start, byte_size, format_tag },
            data: DiskWrite { offset, bytes },
        }
    }

    /// Put a chunk whose bytes have been written into its slot. The result says
    /// what to write into the header table.
    pub fn commit_chunk(&mut self, chunk: &PendingChunk) -> (write: DiskWrite)
        requires
            old(self).wf(),
            chunk.slot < NUM_SLOTS,
        ensures
            final(self).wf(),
            final(self).entries() == old(self).entries().update(chunk.slot as int, chunk.entry),
            final(self).next() == old(self).next(),
            write.offset == 8 + 12 * chunk.slot,
            write.bytes@ == entry_bytes(chunk.entry),
    {
        self.entries.set(chunk.slot, chunk.entry);
        self.flush_entry(chunk.slot)
    }

    /// Take the chunk out of a slot. The result says what to write into the
    /// header table.
    pub fn remove_chunk(&mut self, slot: usize) -> (write: DiskWrite)
        requires
            old(self).wf(),
            slot < NUM_SLOTS,
        ensures
            final(self).wf(),
            final(self).entries() == old(self).entries().update(
                slot as int,
                HeaderEntry { sector_start: 0, byte_size: 0, format_tag: 0 },
            ),
            final(self).next() == old(self).next(),
            write.offset == 8 + 12 * slot,
            write.bytes@ == entry_bytes(final(self).entries()[slot as int]),
    {
        self.entries.set(slot, HeaderEntry::absent());
        self.flush_entry(slot)
    }

    fn flush_entry(&self, slot: usize) -> (write: DiskWrite)
        requires
            self.wf(),
            slot < NUM_SLOTS,
        ensures
            write.offset == 8 + 12 * slot,
            write.bytes@ == entry_bytes(self.entries()[slot as int]),
    {
        let offset: u64 = (FILE_HEADER_SIZE + slot * ENTRY_SIZE) as u64;
        let bytes: [u8; 12] = self.entries[slot].to_bytes();
        DiskWrite { offset, bytes: slice_to_vec(bytes.as_slice()) }
    }
}

/// What to read for an entry.
pub open spec fn chunk_read(e: HeaderEntry) -> Option<ChunkRead> {
    if e.byte_size == 0 {
        None
    } else {
        Some(
            ChunkRead {
                offset: (e.sector_start * 4096) as u64,
                len: e.byte_size,
                format_tag: e.format_tag,
            },
        )
    }
}

/// The entries that a file holds.
pub open spec fn file_entries(file: Seq<u8>) -> Seq<HeaderEntry> {
    decode_table(file.subrange(8, 49160))
}

/// The bytes and the format tag of the chunk that a file holds in a slot.
pub open spec fn chunk_in(file: Seq<u8>, slot: int) -> Option<(Seq<u8>, u8)> {
    let e = file_entries(file)[slot];
    match chunk_read(e) {
        None => None,
        Some(read) => Some(
            (file.subrange(read.offset as int, read.offset + read.len), read.format_tag),
        ),
    }
}

/// Whether a chunk lies between the header and a high-water mark, within a file
/// of `len` bytes.
pub open spec fn lies_in(e: HeaderEntry, next_sector: nat, len: nat) -> bool {
    &&& 13 <= e.sector_start
    &&& entry_end(e) <= next_sector
    &&& 4096 * e.sector_start + e.byte_size <= len
}

/// Whether two chunks share no sector.
pub open spec fn apart(a: HeaderEntry, b: HeaderEntry) -> bool {
    entry_end(a) <= b.sector_start || entry_end(b) <= a.sector_start
}

/// Whether a file has the header of a region file.
pub open spec fn has_header(file: Seq<u8>) -> bool {
    &&& file.len() >= 13 * 4096
    &&& header_error(file.take(8)) is None
}

/// Whether a file is a region file whose chunks lie below a high-water mark and
/// share no sector.
pub open spec fn sound(file: Seq<u8>, next_sector: nat) -> bool {
    let entries = file_entries(file);
    &&& has_header(file)
    &&& 13 <= next_sector <= u32::MAX
    &&& forall|i: int|
        0 <= i < 4096 && (#[trigger] entries[i]).byte_size > 0 ==> lies_in(
            entries[i],
            next_sector,
            file.len(),
        )
    &&& forall|i: int, j: int|
        0 <= i < 4096 && 0 <= j < 4096 && i != j && (#[trigger] entries[i]).byte_size > 0 && (
        #[trigger] entries[j]).byte_size > 0 ==> apart(entries[i], entries[j])
}

/// The file after a chunk's bytes and then its entry have been written.
pub open spec fn with_chunk(
    file: Seq<u8>,
    slot: int,
    e: HeaderEntry,
    data: Seq<u8>,
) -> Seq<u8> {
    with_entry(written(file, e.sector_start as nat * 4096, padded(data)), slot, e)
}

/// The file after an entry has been written.
pub open spec fn with_entry(file: Seq<u8>, slot: int, e: HeaderEntry) -> Seq<u8> {
    written(file, (8 + 12 * slot) as nat, entry_bytes(e))
}

/// Writing an entry changes that entry and nothing else.
pub proof fn lemma_entry_written(file: Seq<u8>, slot: int, e: HeaderEntry)
    requires
        has_header(file),
        0 <= slot < 4096,
    ensures
        has_header(with_entry(file, slot, e)),
        with_entry(file, slot, e).len() == file.len(),
        file_entries(with_entry(file, slot, e)) == file_entries(file).update(slot, e),
        forall|i: int|
            13 * 4096 <= i < file.len() ==> #[trigger] with_entry(file, slot, e)[i] == file[i],
{
    let f = with_entry(file, slot, e);
    assert(f.take(8) =~= file.take(8));
    assert forall|i: int| 0 <= i < 4096 implies #[trigger] file_entries(f)[i] == file_entries(
        file,
    ).update(slot, e)[i] by {
        let table = f.subrange(8, 49160);
        if i == slot {
            assert(entry_slice(table, i) =~= entry_bytes(e));
            law_entry_reads_back(e);
        } else {
            assert(entry_slice(table, i) =~= entry_slice(file.subrange(8, 49160), i));
        }
    }
    assert(file_entries(f) =~= file_entries(file).update(slot, e));
}

/// Writing past the header keeps the entries.
pub proof fn lemma_data_written(file: Seq<u8>, offset: nat, bytes: Seq<u8>)
    requires
        has_header(file),
        offset >= 13 * 4096,
    ensures
        has_header(written(file, offset, bytes)),
        written(file, offset, bytes).len() >= file.len(),
        file_entries(written(file, offset, bytes)) == file_entries(file),
{
    let f = written(file, offset, bytes);
    assert(f.take(8) =~= file.take(8));
    assert(f.subrange(8, 49160) =~= file.subrange(8, 49160));
}

/// A chunk whose bytes have not changed has not changed.
proof fn lemma_same_chunk(before: Seq<u8>, after: Seq<u8>, slot: int)
    requires
        0 <= slot < 4096,
        file_entries(before)[slot] == file_entries(after)[slot],
        after.len() >= before.len(),
        ({
            let e = file_entries(before)[slot];
            e.byte_size > 0 ==> 4096 * e.sector_start + e.byte_size <= before.len() && forall|i: int|
                4096 * e.sector_start <= i < 4096 * e.sector_start + e.byte_size
                    ==> #[trigger] after[i] == before[i]
        }),
    ensures
        chunk_in(after, slot) == chunk_in(before, slot),
{
    let e = file_entries(before)[slot];
    if e.byte_size > 0 {
        let a = e.sector_start * 4096;
        assert(after.subrange(a, a + e.byte_size) =~= before.subrange(a, a + e.byte_size));
    }
}

/// A fresh region file is sound and holds no chunk.
pub proof fn law_fresh_is_empty(slot: int)
    requires
        0 <= slot < 4096,
    ensures
        sound(fresh_file(), 13),
        file_entries(fresh_file()) == fresh_entries(),
        chunk_in(fresh_file(), slot) is None,
{
    let file = fresh_file();
    assert(file.take(8).take(4) =~= magic());
    assert forall|i: int| 0 <= i < 4096 implies #[trigger] file_entries(file)[i]
        == fresh_entries()[i] by {
        let b = entry_slice(file.subrange(8, 49160), i);
        assert(forall|k: int| 0 <= k < 12 ==> #[trigger] b[k] == 0);
        assert(b.subrange(0, 4)[0] == 0 && b.subrange(0, 4)[1] == 0 && b.subrange(0, 4)[2] == 0
            && b.subrange(0, 4)[3] == 0);
        assert(b.subrange(4, 8)[0] == 0 && b.subrange(4, 8)[1] == 0 && b.subrange(4, 8)[2] == 0
            && b.subrange(4, 8)[3] == 0);
    }
    assert(file_entries(file) =~= fresh_entries());
}

/// The place of a chunk is past the header, below the new high-water mark, and
/// apart from every other chunk.
proof fn lemma_placed(
    file: Seq<u8>,
    next_sector: nat,
    slot: int,
    len: nat,
    format_tag: u8,
    i: int,
)
    requires
        sound(file, next_sector),
        0 <= slot < 4096,
        0 <= i < 4096,
        has_room(file_entries(file), next_sector, slot, len),
    ensures
        ({
            let entries = file_entries(file);
            let e = placed(entries, next_sector, slot, len, format_tag);
            let next = next_after(entries, next_sector, slot, len);
            &&& e.byte_size == len
            &&& e.sector_start >= 13
            &&& next_sector <= next <= u32::MAX
            &&& len > 0 ==> entry_end(e) <= next
            &&& i != slot && entries[i].byte_size > 0 ==> {
                &&& lies_in(entries[i], next, file.len())
                &&& len > 0 ==> apart(entries[i], e)
            }
        }),
{
    let entries = file_entries(file);
    if reuses(entries, slot, len) {
        assert(lies_in(entries[slot], next_sector, file.len()));
        if i != slot && entries[i].byte_size > 0 {
            assert(apart(entries[i], entries[slot]));
        }
    }
    if entries[i].byte_size > 0 {
        assert(lies_in(entries[i], next_sector, file.len()));
    }
}

/// What the file holds after a chunk has been placed and written.
proof fn lemma_with_chunk(file: Seq<u8>, slot: int, e: HeaderEntry, data: Seq<u8>)
    requires
        has_header(file),
        0 <= slot < 4096,
        e.sector_start >= 13,
        e.byte_size == data.len(),
    ensures
        ({
            let after = with_chunk(file, slot, e, data);
            let start = 4096 * e.sector_start;
            &&& has_header(after)
            &&& after.len() >= file.len()
            &&& data.len() > 0 ==> after.len() >= start + data.len()
            &&& file_entries(after) == file_entries(file).update(slot, e)
            &&& after.len() >= start + data.len() ==> after.subrange(start, start + data.len())
                == data
            &&& forall|i: int|
                13 * 4096 <= i < file.len() && !(start <= i < 4096 * entry_end(e))
                    ==> #[trigger] after[i] == file[i]
        }),
{
    let start = e.sector_start as nat * 4096;
    let mid = written(file, start, padded(data));
    let after = with_chunk(file, slot, e, data);
    assert(padded(data).len() == 4096 * sectors(data.len()));
    lemma_data_written(file, start, padded(data));
    lemma_entry_written(mid, slot, e);
    if after.len() >= start + data.len() {
        assert(after.subrange(start as int, (start + data.len()) as int) =~= data);
    }
}

/// What has been written to a slot is read back from it, with its format tag,
/// and every other slot holds what it held. (Writing no bytes leaves the slot
/// empty.) The file stays sound.
pub proof fn law_write_reads_back(
    file: Seq<u8>,
    next_sector: nat,
    slot: int,
    data: Seq<u8>,
    format_tag: u8,
    other: int,
)
    requires
        sound(file, next_sector),
        0 <= slot < 4096,
        0 <= other < 4096,
        has_room(file_entries(file), next_sector, slot, data.len()),
    ensures
        ({
            let entries = file_entries(file);
            let e = placed(entries, next_sector, slot, data.len(), format_tag);
            let after = with_chunk(file, slot, e, data);
            &&& sound(after, next_after(entries, next_sector, slot, data.len()))
            &&& file_entries(after) == entries.update(slot, e)
            &&& chunk_in(after, slot) == if data.len() > 0 {
                Some((data, format_tag))
            } else {
                None
            }
            &&& other != slot ==> chunk_in(after, other) == chunk_in(file, other)
        }),
{
    let entries = file_entries(file);
    let e = placed(entries, next_sector, slot, data.len(), format_tag);
    let after = with_chunk(file, slot, e, data);
    let next = next_after(entries, next_sector, slot, data.len());
    lemma_placed(file, next_sector, slot, data.len(), format_tag, other);
    lemma_with_chunk(file, slot, e, data);
    let now = file_entries(after);
    assert forall|i: int| 0 <= i < 4096 && (#[trigger] now[i]).byte_size > 0 implies lies_in(
        now[i],
        next,
        after.len(),
    ) by {
        lemma_placed(file, next_sector, slot, data.len(), format_tag, i);
    }
    assert forall|i: int, j: int|
        0 <= i < 4096 && 0 <= j < 4096 && i != j && (#[trigger] now[i]).byte_size > 0 && (
        #[trigger] now[j]).byte_size > 0 implies apart(now[i], now[j]) by {
        lemma_placed(file, next_sector, slot, data.len(), format_tag, i);
        lemma_placed(file, next_sector, slot, data.len(), format_tag, j);
        if i != slot && j != slot {
            assert(apart(entries[i], entries[j]));
        }
    }
    if other != slot {
        assert(now[other] == entries[other]);
        lemma_same_chunk(file, after, other);
    }
}

/// A removed chunk is gone, and every other slot holds what it held. The file
/// stays sound.
pub proof fn law_remove_clears(file: Seq<u8>, next_sector: nat, slot: int, other: int)
    requires
        sound(file, next_sector),
        0 <= slot < 4096,
        0 <= other < 4096,
    ensures
        ({
            let e = HeaderEntry { sector_start: 0, byte_size: 0, format_tag: 0 };
            let after = with_entry(file, slot, e);
            &&& sound(after, next_sector)
            &&& file_entries(after) == file_entries(file).update(slot, e)
            &&& chunk_in(after, slot) is None
            &&& other != slot ==> chunk_in(after, other) == chunk_in(file, other)
        }),
{
    let entries = file_entries(file);
    let e = HeaderEntry { sector_start: 0, byte_size: 0, format_tag: 0 };
    let after = with_entry(file, slot, e);
    lemma_entry_written(file, slot, e);
    let now = file_entries(after);
    assert forall|i: int| 0 <= i < 4096 && (#[trigger] now[i]).byte_size > 0 implies lies_in(
        now[i],
        next_sector,
        after.len(),
    ) by {
        assert(now[i] == entries[i]);
    }
    assert forall|i: int, j: int|
        0 <= i < 4096 && 0 <= j < 4096 && i != j && (#[trigger] now[i]).byte_size > 0 && (
        #[trigger] now[j]).byte_size > 0 implies apart(now[i], now[j]) by {
        assert(now[i] == entries[i] && now[j] == entries[j]);
    }
    if other != slot {
        assert(now[other] == entries[other]);
        if entries[other].byte_size > 0 {
            assert(lies_in(entries[other], next_sector, file.len()));
        }
        lemma_same_chunk(file, after, other);
    }
}

/// The high-water mark is the least sector past the header and every chunk.
pub proof fn lemma_high_water(entries: Seq<HeaderEntry>, n: nat, bound: nat)
    requires
        n <= entries.len(),
        13 <= bound,
        forall|i: int|
            0 <= i < n && (#[trigger] entries[i]).byte_size > 0 ==> entry_end(entries[i]) <= bound,
    ensures
        13 <= high_water(entries, n) <= bound,
        forall|i: int|
            0 <= i < n && (#[trigger] entries[i]).byte_size > 0 ==> entry_end(entries[i])
                <= high_water(entries, n),
    decreases n,
{
    if n > 0 {
        lemma_high_water(entries, (n - 1) as nat, bound);
        assert(entries[n - 1].byte_size > 0 ==> entry_end(entries[n - 1]) <= bound);
    }
}

/// A sound file can be opened again, and is sound for the high-water mark that
/// opening it finds, which is no higher than the one before.
pub proof fn law_reopen_is_sound(file: Seq<u8>, next_sector: nat)
    requires
        sound(file, next_sector),
    ensures
        ends_in_range(file_entries(file)),
        high_water(file_entries(file), 4096) <= next_sector,
        sound(file, high_water(file_entries(file), 4096)),
{
    let entries = file_entries(file);
    assert forall|i: int| 0 <= i < 4096 && (#[trigger] entries[i]).byte_size > 0 implies entry_end(
        entries[i],
    ) <= next_sector by {
        assert(lies_in(entries[i], next_sector, file.len()));
    }
    lemma_high_water(entries, 4096, next_sector);
    let mark = high_water(entries, 4096);
    assert forall|i: int| 0 <= i < 4096 && (#[trigger] entries[i]).byte_size > 0 implies lies_in(
        entries[i],
        mark,
        file.len(),
    ) by {
        assert(lies_in(entries[i], next_sector, file.len()));
        assert(entry_end(entries[i]) <= mark);
    }
}

/// As many whole sectors are taken as hold the bytes, and no more.
pub proof fn law_sectors_hold_bytes(byte_size: nat)
    ensures
        byte_size <= 4096 * sectors(byte_size) < byte_size + 4096,
{
}

/// A region file with no chunks is thirteen sectors that begin with `VXRG` and the
/// version, which is one, and are zero from there on.
pub proof fn law_fresh_file_bytes(i: int)
    requires
        0 <= i < 53248,
    ensures
        fresh_file().len() == 53248,
        i == 0 ==> fresh_file()[i] == 0x56,
        i == 1 ==> fresh_file()[i] == 0x58,
        i == 2 ==> fresh_file()[i] == 0x52,
        i == 3 ==> fresh_file()[i] == 0x47,
        i == 4 ==> fresh_file()[i] == 1,
        i >= 5 ==> fresh_file()[i] == 0,
        i < 4096 ==> fresh_entries()[i].byte_size == 0,
        fresh_entries().len() == 4096,
{
}

/// The first eight bytes of a file are right just if they begin with `VXRG` and
/// hold version one; the magic is looked at first, and a wrong version is told.
pub proof fn law_header_check(header: Seq<u8>)
    requires
        header.len() == 8,
    ensures
        ({
            let magic_ok = header[0] == 0x56 && header[1] == 0x58 && header[2] == 0x52 && header[3]
                == 0x47;
            let version = header[4] + 0x100 * header[5];
            &&& header_error(header) is None <==> magic_ok && version == 1
            &&& header_error(header) == Some(StorageError::InvalidMagic) <==> !magic_ok
            &&& magic_ok && version != 1 ==> header_error(header) == Some(
                StorageError::UnsupportedVersion(version as u16),
            )
        }),
{
    let four = header.take(4);
    assert(four[0] == header[0] && four[1] == header[1] && four[2] == header[2] && four[3]
        == header[3]);
    if header[0] == 0x56 && header[1] == 0x58 && header[2] == 0x52 && header[3] == 0x47 {
        assert(four =~= magic());
    } else if four == magic() {
        assert(magic()[0] == 0x56 && magic()[1] == 0x58 && magic()[2] == 0x52 && magic()[3] == 0x47);
    }
}

/// An entry stands in the file as its first sector and its size, four bytes each,
/// lowest first, its format tag, and three zeros.
pub proof fn law_entry_layout(e: HeaderEntry)
    ensures
        ({
            let b = entry_bytes(e);
            &&& b.len() == 12
            &&& e.sector_start == b[0] + 0x100 * b[1] + 0x1_0000 * b[2] + 0x100_0000 * b[3]
            &&& e.byte_size == b[4] + 0x100 * b[5] + 0x1_0000 * b[6] + 0x100_0000 * b[7]
            &&& e.format_tag == b[8]
            &&& b[9] == 0 && b[10] == 0 && b[11] == 0
        }),
{
    law_bytes_make_up_number(e.sector_start);
    law_bytes_make_up_number(e.byte_size);
}

/// The entry of a slot is read from the twelve bytes of the table that are its
/// own.
pub proof fn law_table_layout(table: Seq<u8>, slot: int)
    requires
        table.len() == 49152,
        0 <= slot < 4096,
    ensures
        decode_table(table).len() == 4096,
        ({
            let e = decode_table(table)[slot];
            let at = 12 * slot;
            &&& e.sector_start == table[at] + 0x100 * table[at + 1] + 0x1_0000 * table[at + 2]
                + 0x100_0000 * table[at + 3]
            &&& e.byte_size == table[at + 4] + 0x100 * table[at + 5] + 0x1_0000 * table[at + 6]
                + 0x100_0000 * table[at + 7]
            &&& e.format_tag == table[at + 8]
        }),
{
    let b = entry_slice(table, slot);
    let at = 12 * slot;
    assert(b.subrange(0, 4)[0] == table[at] && b.subrange(0, 4)[1] == table[at + 1] && b.subrange(
        0,
        4,
    )[2] == table[at + 2] && b.subrange(0, 4)[3] == table[at + 3]);
    assert(b.subrange(4, 8)[0] == table[at + 4] && b.subrange(4, 8)[1] == table[at + 5]
        && b.subrange(4, 8)[2] == table[at + 6] && b.subrange(4, 8)[3] == table[at + 7]);
}

/// The entries of a file are those of the table that follows its first eight
/// bytes.
pub proof fn law_file_entry_layout(file: Seq<u8>, slot: int)
    requires
        file.len() >= 49160,
        0 <= slot < 4096,
    ensures
        ({
            let e = file_entries(file)[slot];
            let at = 8 + 12 * slot;
            &&& e.sector_start == file[at] + 0x100 * file[at + 1] + 0x1_0000 * file[at + 2]
                + 0x100_0000 * file[at + 3]
            &&& e.byte_size == file[at + 4] + 0x100 * file[at + 5] + 0x1_0000 * file[at + 6]
                + 0x100_0000 * file[at + 7]
            &&& e.format_tag == file[at + 8]
        }),
{
    law_table_layout(file.subrange(8, 49160), slot);
}

/// What is written at a place of a file is there, and every byte outside it is
/// what it was, or zero past the old end.
pub proof fn law_written_bytes(file: Seq<u8>, offset: nat, bytes: Seq<u8>, i: int)
    requires
        0 <= i < written(file, offset, bytes).len(),
    ensures
        written(file, offset, bytes).len() >= file.len(),
        bytes.len() > 0 ==> written(file, offset, bytes).len() >= offset + bytes.len(),
        offset <= i < offset + bytes.len() ==> written(file, offset, bytes)[i] == bytes[i - offset],
        !(offset <= i < offset + bytes.len()) && i < file.len() ==> written(file, offset, bytes)[i]
            == file[i],
        !(offset <= i < offset + bytes.len()) && i >= file.len() ==> written(file, offset, bytes)[i]
            == 0,
{
}

/// Filling up to whole sectors keeps the bytes and adds zeros, fewer than a
/// sector.
pub proof fn law_padded_bytes(data: Seq<u8>, i: int)
    requires
        0 <= i < padded(data).len(),
    ensures
        padded(data).len() % 4096 == 0,
        data.len() <= padded(data).len() < data.len() + 4096,
        i < data.len() ==> padded(data)[i] == data[i],
        i >= data.len() ==> padded(data)[i] == 0,
{
    law_sectors_hold_bytes(data.len());
}

/// The high-water mark is the first sector past the header or past a chunk, and
/// no chunk ends after it.
pub proof fn law_high_water_mark(entries: Seq<HeaderEntry>, n: nat)
    requires
        n <= entries.len(),
    ensures
        high_water(entries, n) >= 13,
        forall|i: int|
            0 <= i < n && (#[trigger] entries[i]).byte_size > 0 ==> entries[i].sector_start
                + sectors(entries[i].byte_size as nat) <= high_water(entries, n),
        high_water(entries, n) == 13 || exists|i: int|
            0 <= i < n && (#[trigger] entries[i]).byte_size > 0 && entries[i].sector_start
                + sectors(entries[i].byte_size as nat) == high_water(entries, n),
    decreases n,
{
    if n > 0 {
        let m = (n - 1) as nat;
        law_high_water_mark(entries, m);
        let e = entries[n - 1];
        if high_water(entries, n) != high_water(entries, m) {
            assert(entries[n - 1].byte_size > 0);
        }
    }
}

/// In a table that is in range every chunk ends at a sector with a 32-bit number.
pub proof fn law_ends_in_range(entries: Seq<HeaderEntry>, i: int)
    requires
        0 <= i < entries.len(),
        entries[i].byte_size > 0,
    ensures
        ends_in_range(entries) ==> entries[i].sector_start + sectors(entries[i].byte_size as nat)
            <= 0xFFFF_FFFF,
{
}

/// A chunk that is overwritten by one that needs no more sectors keeps its
/// sectors, and no sector is handed out; any other gets the sectors from the
/// high-water mark on, and the mark moves past them. Either way the entry has the
/// size and the tag that were given. There is room just if the size fits in 32
/// bits and, where new sectors are needed, the new mark does.
pub proof fn law_placement(
    entries: Seq<HeaderEntry>,
    next_sector: nat,
    slot: int,
    len: nat,
    format_tag: u8,
)
    requires
        0 <= slot < entries.len(),
        next_sector <= 0xFFFF_FFFF,
        len <= 0xFFFF_FFFF,
    ensures
        ({
            let here = entries[slot];
            let e = placed(entries, next_sector, slot, len, format_tag);
            let after = next_after(entries, next_sector, slot, len);
            let fits = here.byte_size > 0 && sectors(here.byte_size as nat) >= sectors(len);
            &&& e.byte_size == len
            &&& e.format_tag == format_tag
            &&& fits ==> e.sector_start == here.sector_start && after == next_sector
            &&& !fits ==> e.sector_start == next_sector && after == next_sector + sectors(len)
            &&& has_room(entries, next_sector, slot, len) <==> fits || next_sector + sectors(len)
                <= 0xFFFF_FFFF
        }),
        forall|more: nat| more > 0xFFFF_FFFF ==> !#[trigger] has_room(
            entries,
            next_sector,
            slot,
            more,
        ),
{
}

/// A chunk is read from the beginning of its first sector, as many bytes as it
/// has; an entry with no bytes is of no chunk.
pub proof fn law_chunk_read(e: HeaderEntry)
    ensures
        chunk_read(e) is None <==> e.byte_size == 0,
        chunk_read(e) matches Some(read) ==> {
            &&& read.offset == 4096 * e.sector_start
            &&& read.len == e.byte_size
            &&& read.format_tag == e.format_tag
        },
{
}

/// The chunk that a file holds in a slot is the bytes that its entry points at.
pub proof fn law_chunk_bytes(file: Seq<u8>, slot: int, i: int)
    requires
        0 <= slot < 4096,
        0 <= i < file_entries(file)[slot].byte_size,
        4096 * file_entries(file)[slot].sector_start + file_entries(file)[slot].byte_size
            <= file.len(),
    ensures
        ({
            let e = file_entries(file)[slot];
            &&& chunk_in(file, slot) matches Some((bytes, tag))
            &&& bytes.len() == e.byte_size
            &&& bytes[i] == file[4096 * e.sector_start + i]
            &&& tag == e.format_tag
        }),
{
}

/// A table whose chunks all end at sectors with 32-bit numbers is in range.
pub proof fn law_in_range_if_all_are(entries: Seq<HeaderEntry>)
    requires
        forall|i: int|
            0 <= i < entries.len() && (#[trigger] entries[i]).byte_size > 0
                ==> entries[i].sector_start + sectors(entries[i].byte_size as nat) <= 0xFFFF_FFFF,
    ensures
        ends_in_range(entries),
{
}

} // verus!
