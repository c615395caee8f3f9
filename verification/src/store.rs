//! Where chunks live.

use vstd::prelude::*;
use vstd::string::to_string_from_display_ensures;

use crate::region::{
    chunk_in, chunk_read, decode_table, ends_in_range, entry_bytes, file_entries, fresh_entries,
    fresh_file, has_room, header_error, high_water, law_fresh_is_empty, law_header_check, law_remove_clears,
    law_reopen_is_sound, law_write_reads_back, next_after, padded, placed, sound, with_chunk,
    with_entry, ChunkRead, DiskWrite, HeaderEntry, PendingChunk, RegionFile,
    RegionSource,
};
use crate::text::{append_int, append_nat, dec_int, dec_nat, lemma_dec_int, lemma_split_at_dot};

verus! {

/// Levels of the 64-tree of one chunk.
pub const CHUNK_LEVELS: u8 = 3;

/// Voxels per axis of one chunk: 4 to the power `CHUNK_LEVELS`.
pub const CHUNK_SIZE: u32 = 64;

/// Bytes per sector of a region file.
pub const SECTOR_SIZE: u32 = 4096;

/// The error of an input or output operation.
#[verifier::external_type_specification]
#[verifier::external_body]
pub struct ExIoError(std::io::Error);

/// What can go wrong with a store.
#[derive(Debug)]
pub enum StorageError {
    /// The file could not be read or written.
    Io(std::io::Error),
    /// The file does not begin as a region file does.
    InvalidMagic,
    /// The file has a version that is not known.
    UnsupportedVersion(u16),
    /// The chunk has a format that is not known.
    UnknownFormat(u8),
}

impl From<std::io::Error> for StorageError {
    fn from(e: std::io::Error) -> (error: Self) {
        StorageError::Io(e)
    }
}

impl vstd::std_specs::convert::FromSpecImpl<std::io::Error> for StorageError {
    open spec fn obeys_from_spec() -> bool {
        true
    }

    open spec fn from_spec(e: std::io::Error) -> Self {
        StorageError::Io(e)
    }
}

impl StorageError {
    /// The error behind this one.
    pub fn source(&self) -> (source: Option<&std::io::Error>)
        ensures
            match self {
                StorageError::Io(e) => source == Some(e),
                _ => source is None,
            },
    {
        match self {
            StorageError::Io(e) => Some(e),
            _ => None,
        }
    }

    /// The error in words.
    pub fn message(&self) -> (text: String)
        ensures
            match self {
                StorageError::Io(e) => exists|t: String|
                    to_string_from_display_ensures::<std::io::Error>(e, t) && text@
                        == "I/O error: "@ + t@,
                StorageError::InvalidMagic => text@ == "invalid region file magic"@,
                StorageError::UnsupportedVersion(v) => text@
                    == "unsupported region file version: "@ + dec_nat(*v as nat),
                StorageError::UnknownFormat(tag) => text@ == "unknown chunk format tag: "@
                    + dec_nat(*tag as nat),
            },
    {
        match self {
            StorageError::Io(e) => {
                let mut text: String = String::from_str("I/O error: ");
                let t: String = e.to_string();
                text.append(t.as_str());
                text
            },
            StorageError::InvalidMagic => String::from_str("invalid region file magic"),
            StorageError::UnsupportedVersion(v) => {
                let mut text: String = String::from_str("unsupported region file version: ");
                append_nat(&mut text, *v as u64);
                text
            },
            StorageError::UnknownFormat(tag) => {
                let mut text: String = String::from_str("unknown chunk format tag: ");
                append_nat(&mut text, *tag as u64);
                text
            },
        }
    }
}

/// Chunks per axis of one region.
pub const REGION_DIM: i64 = 16;

/// The format tag of no chunk.
pub const FORMAT_ABSENT: u8 = 0;

/// The format tag of a chunk that is stored as a serialized 64-tree.
pub const FORMAT_HOT: u8 = 1;

/// The position of a chunk.
pub type ChunkPos = [i64; 3];

/// The region of a chunk.
pub open spec fn region_of(pos: Seq<i64>) -> Seq<i64> {
    seq![(pos[0] / 16) as i64, (pos[1] / 16) as i64, (pos[2] / 16) as i64]
}

/// The slot of a chunk in its region.
pub open spec fn slot_of(pos: Seq<i64>) -> int {
    pos[0] as int % 16 + 16 * (pos[1] as int % 16) + 256 * (pos[2] as int % 16)
}

/// The name of the file of a region.
pub open spec fn filename_of(region_pos: Seq<i64>) -> Seq<char> {
    seq!['r', '.'] + dec_int(region_pos[0] as int) + seq!['.'] + dec_int(region_pos[1] as int)
        + seq!['.'] + dec_int(region_pos[2] as int) + ".region"@
}

fn floor_sixteenth(c: i64) -> (q: i64)
    ensures
        q == c / 16,
{
    match c.checked_div_euclid(REGION_DIM) {
        Some(q) => q,
        None => 0,
    }
}

fn mod_sixteen(c: i64) -> (r: usize)
    ensures
        r == c as int % 16,
{
    match c.checked_rem_euclid(REGION_DIM) {
        Some(r) => r as usize,
        None => 0,
    }
}

/// The region of a chunk.
pub fn chunk_to_region(pos: ChunkPos) -> (region: [i64; 3])
    ensures
        region@ == region_of(pos@),
{
    [floor_sixteenth(pos[0]), floor_sixteenth(pos[1]), floor_sixteenth(pos[2])]
}

/// The slot of a chunk in its region.
pub fn chunk_to_slot(pos: ChunkPos) -> (slot: usize)
    ensures
        slot == slot_of(pos@),
        slot < 4096,
{
    mod_sixteen(pos[0]) + mod_sixteen(pos[1]) * 16 + mod_sixteen(pos[2]) * 256
}

/// The name of the file of a region.
pub fn region_filename(region_pos: [i64; 3]) -> (name: String)
    ensures
        name@ == filename_of(region_pos@),
{
    let mut name: String = String::from_str("r.");
    append_int(&mut name, region_pos[0]);
    name.append(".");
    append_int(&mut name, region_pos[1]);
    name.append(".");
    append_int(&mut name, region_pos[2]);
    name.append(".region");
    proof {
        reveal_strlit("r.");
        reveal_strlit(".");
        assert("r."@ =~= seq!['r', '.']);
        assert("."@ =~= seq!['.']);
        assert(name@ =~= filename_of(region_pos@));
    }
    name
}

/// A chunk is found by its region and its slot: no two chunks have both in
/// common.
pub proof fn law_place_is_unique(a: Seq<i64>, b: Seq<i64>)
    requires
        a.len() == 3,
        b.len() == 3,
        region_of(a) == region_of(b),
        slot_of(a) == slot_of(b),
    ensures
        a == b,
        0 <= slot_of(a) < 4096,
{
    let ra = region_of(a);
    let rb = region_of(b);
    assert(ra[0] == rb[0] && ra[1] == rb[1] && ra[2] == rb[2]);
    assert(a[0] == b[0] && a[1] == b[1] && a[2] == b[2]);
    assert(a =~= b);
}

/// Parts without dots can be told from their joint between dots.
proof fn lemma_three_parts(
    a: (Seq<char>, Seq<char>, Seq<char>),
    b: (Seq<char>, Seq<char>, Seq<char>),
    head: Seq<char>,
    tail: Seq<char>,
)
    requires
        head + a.0 + seq!['.'] + a.1 + seq!['.'] + a.2 + tail == head + b.0 + seq!['.'] + b.1
            + seq!['.'] + b.2 + tail,
        forall|k: int| 0 <= k < a.0.len() ==> #[trigger] a.0[k] != '.',
        forall|k: int| 0 <= k < b.0.len() ==> #[trigger] b.0[k] != '.',
        forall|k: int| 0 <= k < a.1.len() ==> #[trigger] a.1[k] != '.',
        forall|k: int| 0 <= k < b.1.len() ==> #[trigger] b.1[k] != '.',
    ensures
        a == b,
{
    let dot = seq!['.'];
    let rest_a = a.1 + dot + (a.2 + tail);
    let rest_b = b.1 + dot + (b.2 + tail);
    let whole_a = head + a.0 + dot + a.1 + dot + a.2 + tail;
    let whole_b = head + b.0 + dot + b.1 + dot + b.2 + tail;
    let n = head.len() as int;
    assert(a.0 + dot + rest_a == b.0 + dot + rest_b) by {
        assert(whole_a.skip(n) =~= a.0 + dot + rest_a);
        assert(whole_b.skip(n) =~= b.0 + dot + rest_b);
    }
    lemma_split_at_dot(a.0, b.0, rest_a, rest_b);
    lemma_split_at_dot(a.1, b.1, a.2 + tail, b.2 + tail);
    assert(a.2 == b.2) by {
        assert((a.2 + tail).take(a.2.len() as int) =~= a.2);
        assert((b.2 + tail).take(b.2.len() as int) =~= b.2);
    }
}

/// No two regions share a file.
pub proof fn law_filename_is_unique(a: Seq<i64>, b: Seq<i64>)
    requires
        a.len() == 3,
        b.len() == 3,
        filename_of(a) == filename_of(b),
    ensures
        a == b,
{
    lemma_dec_int(a[0] as int, b[0] as int);
    lemma_dec_int(a[1] as int, b[1] as int);
    lemma_dec_int(a[2] as int, b[2] as int);
    lemma_dec_int(b[0] as int, a[0] as int);
    lemma_dec_int(b[1] as int, a[1] as int);
    lemma_three_parts(
        (dec_int(a[0] as int), dec_int(a[1] as int), dec_int(a[2] as int)),
        (dec_int(b[0] as int), dec_int(b[1] as int), dec_int(b[2] as int)),
        seq!['r', '.'],
        ".region"@,
    );
    assert(a =~= b);
}

/// What opening or creating a region asks of the caller.
pub enum Opening {
    /// Nothing: the region is open.
    Ready,
    /// Write a new file with these contents, and then hand the region to
    /// `region_created`.
    Create { file: RegionFile, contents: Vec<u8> },
}

struct OpenRegion {
    pos: [i64; 3],
    file: RegionFile,
}

/// The regions of a directory that are open. The caller owns the directory and
/// carries out the reads and writes it is given.
pub struct ChunkStore {
    regions: Vec<OpenRegion>,
}

impl ChunkStore {
    /// Every open region has an entry for every slot, and none is open twice.
    pub closed spec fn wf(self) -> bool {
        &&& forall|i: int| 0 <= i < self.regions@.len() ==> (#[trigger] self.regions@[i]).file.wf()
        &&& forall|i: int, j: int|
            0 <= i < j < self.regions@.len() ==> (#[trigger] self.regions@[i]).pos@ != (
            #[trigger] self.regions@[j]).pos@
    }

    spec fn holds(self, i: int, region_pos: Seq<i64>) -> bool {
        0 <= i < self.regions@.len() && self.regions@[i].pos@ == region_pos
    }

    /// The region at a position, if it is open.
    pub closed spec fn region(self, region_pos: Seq<i64>) -> Option<RegionFile> {
        if exists|i: int| self.holds(i, region_pos) {
            Some(self.regions@[choose|i: int| self.holds(i, region_pos)].file)
        } else {
            None
        }
    }

    /// An open region has an entry for every slot.
    pub proof fn lemma_open_region_is_wf(self, region_pos: Seq<i64>)
        requires
            self.wf(),
            self.region(region_pos) is Some,
        ensures
            self.region(region_pos)->0.wf(),
    {
    }

    /// A store with no region open.
    pub fn new() -> (store: Self)
        ensures
            store.wf(),
            forall|k: Seq<i64>| #[trigger] store.region(k) is None,
    {
        Self { regions: Vec::new() }
    }

    fn find(&self, region_pos: [i64; 3]) -> (found: Option<usize>)
        requires
            self.wf(),
        ensures
            match found {
                Some(i) => self.holds(i as int, region_pos@) && self.region(region_pos@) == Some(
                    self.regions@[i as int].file,
                ),
                None => self.region(region_pos@) is None,
            },
    {
        let mut i: usize = 0;
        while i < self.regions.len()
            invariant
                self.wf(),
                i <= self.regions@.len(),
                forall|j: int| 0 <= j < i ==> (#[trigger] self.regions@[j]).pos@ != region_pos@,
            decreases self.regions@.len() - i,
        {
            let p: [i64; 3] = self.regions[i].pos;
            if p[0] == region_pos[0] && p[1] == region_pos[1] && p[2] == region_pos[2] {
                assert(p@ =~= region_pos@);
                assert(self.holds(i as int, region_pos@));
                return Some(i);
            }
            assert(p@ != region_pos@);
            i += 1;
        }
        None
    }

    /// Whether the region at a position is open.
    pub fn is_open(&self, region_pos: [i64; 3]) -> (open: bool)
        requires
            self.wf(),
        ensures
            open == (self.region(region_pos@) is Some),
    {
        self.find(region_pos).is_some()
    }

    /// Take in a region whose file has been created.
    pub fn region_created(&mut self, region_pos: [i64; 3], file: RegionFile)
        requires
            old(self).wf(),
            file.wf(),
            old(self).region(region_pos@) is None,
        ensures
            final(self).wf(),
            final(self).region(region_pos@) == Some(file),
            forall|k: Seq<i64>|
                k != region_pos@ ==> #[trigger] final(self).region(k) == old(self).region(k),
    {
        let ghost n = self.regions@.len() as int;
        proof {
            assert forall|j: int| 0 <= j < n implies (#[trigger] self.regions@[j]).pos@
                != region_pos@ by {
                if self.regions@[j].pos@ == region_pos@ {
                    assert(self.holds(j, region_pos@));
                }
            }
        }
        self.regions.push(OpenRegion { pos: region_pos, file });
        proof {
            assert(self.holds(n, region_pos@));
            assert forall|k: Seq<i64>| k != region_pos@ implies #[trigger] self.region(k) == old(
                self,
            ).region(k) by {
                assert forall|i: int| self.holds(i, k) == old(self).holds(i, k) by {}
                Self::lemma_same_region(*old(self), *self, k);
            }
        }
    }

    proof fn lemma_same_region(a: Self, b: Self, k: Seq<i64>)
        requires
            a.wf(),
            b.wf(),
            forall|i: int| #[trigger] a.holds(i, k) == b.holds(i, k),
            forall|i: int| #[trigger] a.holds(i, k) ==> a.regions@[i].file == b.regions@[i].file,
        ensures
            a.region(k) == b.region(k),
    {
        if exists|i: int| a.holds(i, k) {
            let i = choose|i: int| a.holds(i, k);
            let j = choose|j: int| b.holds(j, k);
            assert(b.holds(i, k));
            assert(a.holds(j, k));
            assert(i == j) by {
                assert(a.regions@[i].pos@ == a.regions@[j].pos@);
            }
        } else {
            assert(forall|i: int| !b.holds(i, k)) by {
                assert forall|i: int| !b.holds(i, k) by {
                    assert(!a.holds(i, k));
                }
            }
        }
    }

    /// Open the region at a position unless it is open or there is no such file.
    /// The result says whether the region is open.
    pub fn try_open_region(&mut self, region_pos: [i64; 3], source: &RegionSource) -> (open: Result<
        bool,
        StorageError,
    >)
        requires
            old(self).wf(),
            old(self).region(region_pos@) is None ==> source.readable(),
        ensures
            final(self).wf(),
            forall|k: Seq<i64>|
                k != region_pos@ ==> #[trigger] final(self).region(k) == old(self).region(k),
            opened(
                old(self).region(region_pos@),
                *source,
                final(self).region(region_pos@),
            ),
            open == open_result(old(self).region(region_pos@), *source),
    {
        if self.is_open(region_pos) {
            return Ok(true);
        }
        match source {
            RegionSource::Missing => Ok(false),
            RegionSource::Stored { header, table } => {
                match RegionFile::open(header.as_slice(), table.as_slice()) {
                    Ok(file) => {
                        self.region_created(region_pos, file);
                        Ok(true)
                    },
                    Err(e) => Err(e),
                }
            },
        }
    }

    /// Open the region at a position unless it is open. Where there is no such
    /// file, the result asks for one.
    pub fn open_or_create_region(&mut self, region_pos: [i64; 3], source: &RegionSource) -> (opening:
        Result<Opening, StorageError>)
        requires
            old(self).wf(),
            old(self).region(region_pos@) is None ==> source.readable(),
        ensures
            final(self).wf(),
            forall|k: Seq<i64>|
                k != region_pos@ ==> #[trigger] final(self).region(k) == old(self).region(k),
            opened(
                old(self).region(region_pos@),
                *source,
                final(self).region(region_pos@),
            ),
            match open_result(old(self).region(region_pos@), *source) {
                Ok(true) => opening == Ok::<Opening, StorageError>(Opening::Ready),
                Ok(false) => {
                    &&& opening matches Ok(Opening::Create { file, contents })
                    &&& file.wf()
                    &&& file.entries() == fresh_entries()
                    &&& file.next() == 13
                    &&& contents@ == fresh_file()
                },
                Err(e) => opening == Err::<Opening, StorageError>(e),
            },
    {
        if self.is_open(region_pos) {
            return Ok(Opening::Ready);
        }
        match RegionFile::open_or_create(source) {
            Ok((file, None)) => {
                self.region_created(region_pos, file);
                Ok(Opening::Ready)
            },
            Ok((file, Some(contents))) => Ok(Opening::Create { file, contents }),
            Err(e) => Err(e),
        }
    }
}

/// What a region is after an attempt to open it.
pub open spec fn opened(
    before: Option<RegionFile>,
    source: RegionSource,
    after: Option<RegionFile>,
) -> bool {
    match (before, source) {
        (None, RegionSource::Stored { header, table }) => if header_error(header@) is None {
            &&& after matches Some(file)
            &&& file.wf()
            &&& file.entries() == decode_table(table@)
            &&& file.next() == high_water(decode_table(table@), 4096)
        } else {
            after is None
        },
        _ => after == before,
    }
}

/// Whether a region is open after an attempt to open it, or why the attempt
/// failed.
pub open spec fn open_result(before: Option<RegionFile>, source: RegionSource) -> Result<
    bool,
    StorageError,
> {
    match (before, source) {
        (Some(_), _) => Ok(true),
        (None, RegionSource::Missing) => Ok(false),
        (None, RegionSource::Stored { header, .. }) => match header_error(header@) {
            None => Ok(true),
            Some(e) => Err(e),
        },
    }
}

impl ChunkStore {
    /// Whether the chunk's region is open and has room for a chunk of `len`
    /// bytes, as `save_chunk` needs it to.
    pub fn has_room(&self, pos: ChunkPos, len: usize) -> (room: bool)
        requires
            self.wf(),
        ensures
            room == match self.region(region_of(pos@)) {
                Some(file) => has_room(file.entries(), file.next(), slot_of(pos@), len as nat),
                None => false,
            },
    {
        match self.find(chunk_to_region(pos)) {
            Some(i) => self.regions[i].file.has_room(chunk_to_slot(pos), len),
            None => false,
        }
    }

    proof fn lemma_updated(a: Self, b: Self, i: int, region_pos: Seq<i64>)
        requires
            a.wf(),
            a.holds(i, region_pos),
            b.regions@ == a.regions@.update(i, b.regions@[i]),
            b.regions@[i].pos == a.regions@[i].pos,
            b.regions@[i].file.wf(),
        ensures
            b.wf(),
            b.region(region_pos) == Some(b.regions@[i].file),
            forall|k: Seq<i64>| k != region_pos ==> #[trigger] b.region(k) == a.region(k),
    {
        assert(b.wf()) by {
            assert forall|j: int| 0 <= j < b.regions@.len() implies (
            #[trigger] b.regions@[j]).file.wf() by {
                if j != i {
                    assert(a.regions@[j].file.wf());
                }
            }
            assert forall|j: int, k: int| 0 <= j < k < b.regions@.len() implies (
            #[trigger] b.regions@[j]).pos@ != (#[trigger] b.regions@[k]).pos@ by {
                assert(a.regions@[j].pos@ != a.regions@[k].pos@);
            }
        }
        assert(b.holds(i, region_pos));
        let c = choose|c: int| b.holds(c, region_pos);
        assert(c == i) by {
            assert(b.holds(c, region_pos));
            assert(b.regions@[c].pos@ == b.regions@[i].pos@);
        }
        assert forall|k: Seq<i64>| k != region_pos implies #[trigger] b.region(k) == a.region(k) by {
            assert forall|j: int| #[trigger] a.holds(j, k) == b.holds(j, k) by {}
            Self::lemma_same_region(a, b, k);
        }
    }

    /// Place a chunk in its region. The result says what to write into the
    /// region's file; the chunk is stored with `commit_chunk`.
    pub fn save_chunk(&mut self, pos: ChunkPos, data: &[u8]) -> (chunk: PendingChunk)
        requires
            old(self).wf(),
            old(self).region(region_of(pos@)) matches Some(file) && has_room(
                file.entries(),
                file.next(),
                slot_of(pos@),
                data@.len(),
            ),
        ensures
            final(self).wf(),
            forall|k: Seq<i64>|
                k != region_of(pos@) ==> #[trigger] final(self).region(k) == old(self).region(k),
            ({
                let before = old(self).region(region_of(pos@))->0;
                let after = final(self).region(region_of(pos@))->0;
                let slot = slot_of(pos@);
                &&& final(self).region(region_of(pos@)) is Some
                &&& after.wf()
                &&& after.entries() == before.entries()
                &&& after.next() == next_after(before.entries(), before.next(), slot, data@.len())
                &&& chunk.slot == slot
                &&& chunk.entry == placed(
                    before.entries(),
                    before.next(),
                    slot,
                    data@.len(),
                    FORMAT_HOT,
                )
                &&& chunk.entry.format_tag == 1
            }),
            chunk.data.offset == chunk.entry.sector_start * 4096,
            chunk.data.bytes@ == padded(data@),
    {
        let region_pos: [i64; 3] = chunk_to_region(pos);
        let slot: usize = chunk_to_slot(pos);
        match self.find(region_pos) {
            Some(i) => {
                let ghost before = *self;
                let chunk: PendingChunk = self.regions[i].file.write_chunk(slot, data, FORMAT_HOT);
                proof {
                    Self::lemma_updated(before, *self, i as int, region_pos@);
                }
                chunk
            },
            None => {
                PendingChunk {
                    slot,
                    entry: HeaderEntry::absent(),
                    data: DiskWrite { offset: 0, bytes: Vec::new() },
                }
            },
        }
    }

    /// Put a chunk whose bytes have been written into its slot. The result says
    /// what to write into the region's file.
    pub fn commit_chunk(&mut self, pos: ChunkPos, chunk: &PendingChunk) -> (write: DiskWrite)
        requires
            old(self).wf(),
            old(self).region(region_of(pos@)) is Some,
            chunk.slot == slot_of(pos@),
        ensures
            final(self).wf(),
            forall|k: Seq<i64>|
                k != region_of(pos@) ==> #[trigger] final(self).region(k) == old(self).region(k),
            ({
                let before = old(self).region(region_of(pos@))->0;
                let after = final(self).region(region_of(pos@))->0;
                &&& final(self).region(region_of(pos@)) is Some
                &&& after.wf()
                &&& after.entries() == before.entries().update(slot_of(pos@), chunk.entry)
                &&& after.next() == before.next()
            }),
            write.offset == 8 + 12 * slot_of(pos@),
            write.bytes@ == entry_bytes(chunk.entry),
    {
        let region_pos: [i64; 3] = chunk_to_region(pos);
        match self.find(region_pos) {
            Some(i) => {
                let ghost before = *self;
                let write: DiskWrite = self.regions[i].file.commit_chunk(chunk);
                proof {
                    Self::lemma_updated(before, *self, i as int, region_pos@);
                }
                write
            },
            None => {
                DiskWrite { offset: 0, bytes: Vec::new() }
            },
        }
    }

    /// What to read for a chunk, if its region is open and holds it.
    pub fn load_chunk(&self, pos: ChunkPos) -> (read: Option<ChunkRead>)
        requires
            self.wf(),
        ensures
            read == match self.region(region_of(pos@)) {
                Some(file) => chunk_read(file.entries()[slot_of(pos@)]),
                None => None,
            },
    {
        match self.find(chunk_to_region(pos)) {
            Some(i) => self.regions[i].file.read_chunk(chunk_to_slot(pos)),
            None => None,
        }
    }

    /// Take a chunk out of its region. The result says what to write into the
    /// region's file, if the region is open.
    pub fn remove_chunk(&mut self, pos: ChunkPos) -> (write: Option<DiskWrite>)
        requires
            old(self).wf(),
        ensures
            final(self).wf(),
            forall|k: Seq<i64>|
                k != region_of(pos@) ==> #[trigger] final(self).region(k) == old(self).region(k),
            match old(self).region(region_of(pos@)) {
                Some(before) => {
                    let absent = HeaderEntry { sector_start: 0, byte_size: 0, format_tag: 0 };
                    &&& final(self).region(region_of(pos@)) matches Some(after)
                    &&& after.wf()
                    &&& after.entries() == before.entries().update(slot_of(pos@), absent)
                    &&& after.next() == before.next()
                    &&& write matches Some(w)
                    &&& w.offset == 8 + 12 * slot_of(pos@)
                    &&& w.bytes@ == entry_bytes(absent)
                },
                None => final(self).region(region_of(pos@)) is None && write is None,
            },
    {
        let region_pos: [i64; 3] = chunk_to_region(pos);
        match self.find(region_pos) {
            Some(i) => {
                let ghost before = *self;
                let write: DiskWrite = self.regions[i].file.remove_chunk(chunk_to_slot(pos));
                proof {
                    Self::lemma_updated(before, *self, i as int, region_pos@);
                }
                Some(write)
            },
            None => None,
        }
    }

    /// Whether a chunk's region is open and holds it.
    pub fn has_chunk(&self, pos: ChunkPos) -> (present: bool)
        requires
            self.wf(),
        ensures
            present == match self.region(region_of(pos@)) {
                Some(file) => file.entries()[slot_of(pos@)].byte_size > 0,
                None => false,
            },
    {
        match self.find(chunk_to_region(pos)) {
            Some(i) => self.regions[i].file.has_chunk(chunk_to_slot(pos)),
            None => false,
        }
    }
}

/// Take the bytes that were read for a chunk, if its format is known.
pub fn accept_chunk(read: ChunkRead, data: Vec<u8>) -> (accepted: Result<Vec<u8>, StorageError>)
    ensures
        accepted == if read.format_tag == FORMAT_HOT {
            Ok(data)
        } else {
            Err(StorageError::UnknownFormat(read.format_tag))
        },
        accepted is Ok <==> read.format_tag == 1,
{
    if read.format_tag != FORMAT_HOT {
        return Err(StorageError::UnknownFormat(read.format_tag));
    }
    Ok(data)
}

/// The bytes and the format tag of the chunk at a position in a directory of
/// region files.
pub open spec fn stored(disk: Map<Seq<i64>, Seq<u8>>, pos: Seq<i64>) -> Option<(Seq<u8>, u8)> {
    if disk.contains_key(region_of(pos)) {
        chunk_in(disk[region_of(pos)], slot_of(pos))
    } else {
        None
    }
}

/// A chunk that has been saved is the one that is loaded, in the known format,
/// and every other chunk of the directory is what it was.
pub proof fn law_saved_chunk_is_loaded(
    disk: Map<Seq<i64>, Seq<u8>>,
    next_sector: nat,
    pos: Seq<i64>,
    data: Seq<u8>,
    other: Seq<i64>,
)
    requires
        pos.len() == 3,
        other.len() == 3,
        disk.contains_key(region_of(pos)),
        sound(disk[region_of(pos)], next_sector),
        has_room(
            file_entries(disk[region_of(pos)]),
            next_sector,
            slot_of(pos),
            data.len(),
        ),
    ensures
        ({
            let file = disk[region_of(pos)];
            let slot = slot_of(pos);
            let entries = file_entries(file);
            let e = placed(entries, next_sector, slot, data.len(), FORMAT_HOT);
            let after = disk.insert(region_of(pos), with_chunk(file, slot, e, data));
            &&& sound(
                after[region_of(pos)],
                next_after(entries, next_sector, slot, data.len()),
            )
            &&& stored(after, pos) == if data.len() > 0 {
                Some((data, FORMAT_HOT))
            } else {
                None
            }
            &&& other != pos ==> stored(after, other) == stored(disk, other)
        }),
{
    law_place_is_unique(pos, pos);
    law_place_is_unique(other, other);
    let slot = if region_of(other) == region_of(pos) {
        slot_of(other)
    } else {
        slot_of(pos)
    };
    law_write_reads_back(
        disk[region_of(pos)],
        next_sector,
        slot_of(pos),
        data,
        FORMAT_HOT,
        slot,
    );
    if other != pos && region_of(other) == region_of(pos) {
        if slot_of(other) == slot_of(pos) {
            law_place_is_unique(other, pos);
        }
    }
}

/// A chunk that has been removed is not loaded, and every other chunk of the
/// directory is what it was.
pub proof fn law_removed_chunk_is_gone(
    disk: Map<Seq<i64>, Seq<u8>>,
    next_sector: nat,
    pos: Seq<i64>,
    other: Seq<i64>,
)
    requires
        pos.len() == 3,
        other.len() == 3,
        disk.contains_key(region_of(pos)),
        sound(disk[region_of(pos)], next_sector),
    ensures
        ({
            let absent = HeaderEntry { sector_start: 0, byte_size: 0, format_tag: 0 };
            let file = with_entry(disk[region_of(pos)], slot_of(pos), absent);
            let after = disk.insert(region_of(pos), file);
            &&& sound(after[region_of(pos)], next_sector)
            &&& stored(after, pos) is None
            &&& other != pos ==> stored(after, other) == stored(disk, other)
        }),
{
    law_place_is_unique(pos, pos);
    law_place_is_unique(other, other);
    let slot = if region_of(other) == region_of(pos) {
        slot_of(other)
    } else {
        slot_of(pos)
    };
    law_remove_clears(disk[region_of(pos)], next_sector, slot_of(pos), slot);
    if other != pos && region_of(other) == region_of(pos) {
        if slot_of(other) == slot_of(pos) {
            law_place_is_unique(other, pos);
        }
    }
}

/// Creating the file of a region changes no chunk.
pub proof fn law_new_region_changes_no_chunk(
    disk: Map<Seq<i64>, Seq<u8>>,
    region_pos: Seq<i64>,
    pos: Seq<i64>,
)
    requires
        pos.len() == 3,
        !disk.contains_key(region_pos),
    ensures
        sound(disk.insert(region_pos, fresh_file())[region_pos], 13),
        stored(disk.insert(region_pos, fresh_file()), pos) == stored(disk, pos),
{
    law_place_is_unique(pos, pos);
    law_fresh_is_empty(slot_of(pos));
}

/// A region that has been opened from its file, in this store or in a later one,
/// leads to the chunk that the file holds.
pub proof fn law_opened_region_leads_to_chunk(
    disk: Map<Seq<i64>, Seq<u8>>,
    next_sector: nat,
    pos: Seq<i64>,
    file: RegionFile,
)
    requires
        pos.len() == 3,
        disk.contains_key(region_of(pos)),
        sound(disk[region_of(pos)], next_sector),
        file.entries() == decode_table(disk[region_of(pos)].subrange(8, 49160)),
        file.next() == high_water(file.entries(), 4096),
    ensures
        header_error(disk[region_of(pos)].take(8)) is None,
        ends_in_range(file.entries()),
        sound(disk[region_of(pos)], file.next()),
        match chunk_read(file.entries()[slot_of(pos)]) {
            Some(read) => stored(disk, pos) == Some(
                (
                    disk[region_of(pos)].subrange(read.offset as int, read.offset + read.len),
                    read.format_tag,
                ),
            ),
            None => stored(disk, pos) is None,
        },
{
    law_reopen_is_sound(disk[region_of(pos)], next_sector);
}

/// A region is sixteen chunks along each axis: a chunk lies in the region that
/// begins at sixteen times its number, below zero too. The slot counts the chunk's
/// place in its region, x first, then y, then z.
pub proof fn law_region_and_slot(pos: Seq<i64>)
    requires
        pos.len() == 3,
    ensures
        region_of(pos).len() == 3,
        forall|a: int|
            0 <= a < 3 ==> 16 * (#[trigger] region_of(pos)[a]) <= pos[a] < 16 * region_of(pos)[a]
                + 16,
        slot_of(pos) == (pos[0] - 16 * region_of(pos)[0]) + 16 * (pos[1] - 16 * region_of(pos)[1])
            + 256 * (pos[2] - 16 * region_of(pos)[2]),
        0 <= slot_of(pos) < 4096,
{
}

/// The name of a region's file is made of its coordinates in decimal.
pub proof fn law_filename_parts(region_pos: Seq<i64>)
    ensures
        filename_of(region_pos) == "r."@ + dec_int(region_pos[0] as int) + "."@ + dec_int(
            region_pos[1] as int,
        ) + "."@ + dec_int(region_pos[2] as int) + ".region"@,
        ".region"@ == seq!['.', 'r', 'e', 'g', 'i', 'o', 'n'],
{
    reveal_strlit("r.");
    reveal_strlit(".");
    reveal_strlit(".region");
    assert("r."@ =~= seq!['r', '.']);
    assert("."@ =~= seq!['.']);
    assert(".region"@ =~= seq!['.', 'r', 'e', 'g', 'i', 'o', 'n']);
}

/// What an attempt to open a region comes to. One that is open stays as it is. One
/// without a file is not opened. One whose file begins with `VXRG` and version one
/// is opened with the entries of its table; any other file is refused.
pub proof fn law_opening(before: Option<RegionFile>, source: RegionSource)
    ensures
        before is Some ==> open_result(before, source) == Ok::<bool, StorageError>(true),
        before is Some ==> opened(before, source, before),
        before is None && source is Missing ==> open_result(before, source) == Ok::<
            bool,
            StorageError,
        >(false) && opened(before, source, None),
        before is None ==> (source matches RegionSource::Stored { header, table }
            ==> header@.len() == 8 ==> {
            let ok = header@[0] == 0x56 && header@[1] == 0x58 && header@[2] == 0x52 && header@[3]
                == 0x47 && header@[4] == 1 && header@[5] == 0;
            &&& open_result(before, source) is Ok <==> ok
            &&& ok ==> open_result(before, source) == Ok::<bool, StorageError>(true)
            &&& forall|file: RegionFile| #[trigger]
                opened(before, source, Some(file)) ==> ok && file.entries() == decode_table(table@)
                    && file.next() == high_water(decode_table(table@), 4096)
            &&& opened(before, source, None) <==> !ok
        }),
{
    if let RegionSource::Stored { header, table } = source {
        if header@.len() == 8 {
            law_header_check(header@);
        }
    }
}

/// A directory holds a chunk just where the file of its region does, in its slot.
pub proof fn law_stored_in_region(disk: Map<Seq<i64>, Seq<u8>>, pos: Seq<i64>)
    ensures
        !disk.contains_key(region_of(pos)) ==> stored(disk, pos) is None,
        disk.contains_key(region_of(pos)) ==> stored(disk, pos) == chunk_in(
            disk[region_of(pos)],
            slot_of(pos),
        ),
        FORMAT_HOT == 1,
{
}

} // verus!
