//! The game's archive: its table of files, and the contents of one.
//!
//! An archive begins with `KIWAD`, a version and the number of its files. The files' data
//! follows, and the table stands at the end: for each file its offset, its size, its compressed
//! size, whether it is compressed, a checksum, and its name with the length in front. An archive
//! that does not end with its table has it right behind the number of its files.

use std::collections::HashMap;
use std::io::Read;
use vstd::prelude::*;
use vstd::string::*;
use crate::bytes;
use crate::bytes::{copy_range, read_u32, same_bytes};
use crate::schema;
use crate::schema::schema_file;
use crate::text;
use crate::text::{trim_end_nul, utf8_text};

verus! {

broadcast use {bytes::group_le_bytes_len, vstd::std_specs::hash::group_hash_axioms};

/// Entry in the WAD file table.
#[derive(Debug, Clone)]
pub struct WadEntry {
    pub offset: u32,
    pub size: u32,
    pub compressed_size: u32,
    pub is_compressed: bool,
    pub name: String,
}

/// The bytes of a table entry in front of its name.
pub const ENTRY_HEADER: usize = 21;

/// The bytes in front of everything else: `KIWAD`, the version and the number of files.
pub const WAD_HEADER: u64 = 13;

/// How much of an archive is looked through at a time for the start of its table.
pub const SCAN_CHUNK: u64 = 0x10_0000;

// ---- the model ----

/// A table entry as values.
#[verifier::ext_equal]
pub struct WadEntryView {
    pub offset: u32,
    pub size: u32,
    pub compressed_size: u32,
    pub is_compressed: bool,
    pub name: Seq<char>,
}

impl View for WadEntry {
    type V = WadEntryView;

    open spec fn view(&self) -> WadEntryView {
        WadEntryView {
            offset: self.offset,
            size: self.size,
            compressed_size: self.compressed_size,
            is_compressed: self.is_compressed,
            name: self.name@,
        }
    }
}

/// Table entries as values.
pub open spec fn entry_views(entries: Seq<WadEntry>) -> Seq<WadEntryView> {
    Seq::new(entries.len(), |i: int| entries[i]@)
}

/// The bytes of `KIWAD`.
pub open spec fn wad_magic() -> Seq<u8> {
    seq![0x4Bu8, 0x49u8, 0x57u8, 0x41u8, 0x44u8]
}

/// The length of the name behind an entry's header.
pub open spec fn name_len(header: Seq<u8>) -> int {
    bytes::le32(header, 17)
}

/// The entry with this header and this name. NUL characters at the end of the name are not
/// part of it.
pub open spec fn entry_of(header: Seq<u8>, name: Seq<u8>) -> WadEntryView {
    WadEntryView {
        offset: bytes::le32(header, 0) as u32,
        size: bytes::le32(header, 4) as u32,
        compressed_size: bytes::le32(header, 8) as u32,
        is_compressed: header[12] != 0,
        name: text::trimmed_end(text::utf8_decoded(name), |c: char| c == '\0'),
    }
}

/// The first `count` entries of a table, if they are all there.
pub open spec fn entries_in(s: Seq<u8>, count: nat) -> Option<Seq<WadEntryView>>
    decreases count,
{
    if count == 0 {
        Some(Seq::empty())
    } else if s.len() < ENTRY_HEADER || s.len() < ENTRY_HEADER + name_len(s) {
        None
    } else {
        let end = ENTRY_HEADER + name_len(s);
        let entry = entry_of(s.take(ENTRY_HEADER as int), s.subrange(ENTRY_HEADER as int, end));
        match entries_in(s.skip(end), (count - 1) as nat) {
            Some(more) => Some(seq![entry] + more),
            None => None,
        }
    }
}

/// A part of an archive.
#[derive(Debug, Clone, Copy, PartialEq, Eq, Structural)]
pub enum WadPart {
    Header,
    Version,
    FileCount,
    Table,
}

/// What reading the start of an archive ends with.
pub enum WadOutcome {
    /// The table.
    Table(Seq<WadEntryView>),
    /// The archive is not one.
    BadMagic,
    /// The archive ends inside this part.
    Short(WadPart),
}

/// What reading a table ends with, behind these entries.
pub open spec fn table_outcome(entries: Seq<WadEntryView>, s: Seq<u8>, count: nat) -> WadOutcome {
    match entries_in(s, count) {
        Some(more) => WadOutcome::Table(entries + more),
        None => WadOutcome::Short(WadPart::Table),
    }
}

/// How many bytes the first `count` entries of a table take, if they are all there.
pub open spec fn table_len(s: Seq<u8>, count: nat) -> Option<int>
    decreases count,
{
    if count == 0 {
        Some(0)
    } else if s.len() < ENTRY_HEADER || s.len() < ENTRY_HEADER + name_len(s) {
        None
    } else {
        let end = ENTRY_HEADER + name_len(s);
        match table_len(s.skip(end), (count - 1) as nat) {
            Some(more) => Some(end + more),
            None => None,
        }
    }
}

/// Whether a table of `count` entries stands at `at`, behind the header, and ends with the file.
pub open spec fn is_trailing_table(file: Seq<u8>, count: nat, at: int) -> bool {
    WAD_HEADER <= at <= file.len() && table_len(file.skip(at), count) == Some(file.len() - at)
}

/// The first place, from `from` on, where a table of `count` entries ends with the file.
pub open spec fn first_trailing_table(file: Seq<u8>, count: nat, from: int) -> Option<int>
    decreases file.len() + 1 - from,
{
    if from > file.len() {
        None
    } else if is_trailing_table(file, count, from) {
        Some(from)
    } else {
        first_trailing_table(file, count, from + 1)
    }
}

/// Where the table of `count` entries stands: the first place where one ends with the file, or
/// right behind the header where there is none.
pub open spec fn table_start(file: Seq<u8>, count: nat) -> int {
    match first_trailing_table(file, count, WAD_HEADER as int) {
        Some(at) => at,
        None => WAD_HEADER as int,
    }
}

/// What reading an archive ends with.
pub open spec fn wad_outcome(file: Seq<u8>) -> WadOutcome {
    if file.len() < 5 {
        WadOutcome::Short(WadPart::Header)
    } else if file.take(5) != wad_magic() {
        WadOutcome::BadMagic
    } else if file.len() < 9 {
        WadOutcome::Short(WadPart::Version)
    } else if file.len() < WAD_HEADER {
        WadOutcome::Short(WadPart::FileCount)
    } else {
        let count = bytes::le32(file, 9) as nat;
        table_outcome(Seq::empty(), file.skip(table_start(file, count)), count)
    }
}

// ---- looking for the table ----

/// How many entries, one behind the other, lead from a place to the end of the file.
pub open spec fn entries_to_end(file: Seq<u8>, at: int) -> Option<nat>
    decreases file.len() - at,
{
    if at >= file.len() {
        if at == file.len() {
            Some(0)
        } else {
            None
        }
    } else if at < 0 || at + ENTRY_HEADER + bytes::le32(file, at + 17) > file.len() || at + ENTRY_HEADER
        > file.len() {
        None
    } else {
        match entries_to_end(file, at + ENTRY_HEADER + bytes::le32(file, at + 17)) {
            Some(more) => Some(more + 1),
            None => None,
        }
    }
}

proof fn lemma_table_to_end(file: Seq<u8>, count: nat, at: int)
    requires
        0 <= at <= file.len(),
    ensures
        table_len(file.skip(at), count) == Some(file.len() - at) <==> entries_to_end(file, at) == Some(
            count,
        ),
    decreases count,
{
    let s = file.skip(at);
    if count > 0 && s.len() >= ENTRY_HEADER {
        assert(name_len(s) == bytes::le32(file, at + 17));
        let end = ENTRY_HEADER + name_len(s);
        if s.len() >= end {
            assert(s.skip(end) =~= file.skip(at + end));
            lemma_table_to_end(file, (count - 1) as nat, at + end);
        }
    }
}

proof fn lemma_whole_table(s: Seq<u8>, count: nat)
    ensures
        table_len(s, count) is Some <==> entries_in(s, count) is Some,
    decreases count,
{
    if count > 0 && s.len() >= ENTRY_HEADER && s.len() >= ENTRY_HEADER + name_len(s) {
        lemma_whole_table(s.skip(ENTRY_HEADER + name_len(s)), (count - 1) as nat);
    }
}

/// What is known once all places from `from` on were looked at: from which of them entries lead
/// to the end, over how many, and the first from which exactly `count` do.
pub open spec fn is_known(
    file: Seq<u8>,
    known: Map<u64, u64>,
    found: Option<u64>,
    count: nat,
    from: int,
) -> bool {
    &&& forall|q: u64| #[trigger]
        known.dom().contains(q) <==> from <= q <= file.len() && entries_to_end(file, q as int) is Some
    &&& forall|q: u64| #[trigger]
        known.dom().contains(q) ==> entries_to_end(file, q as int) == Some(known[q] as nat)
    &&& match found {
        Some(f) => {
            &&& from <= f <= file.len()
            &&& entries_to_end(file, f as int) == Some(count)
            &&& forall|q: int| from <= q < f ==> #[trigger] entries_to_end(file, q) != Some(count)
        },
        None => forall|q: int|
            from <= q <= file.len() ==> #[trigger] entries_to_end(file, q) != Some(count),
    }
}

/// How many entries lead from `q` to the end of the file, by what is known of the places behind
/// it. `data` are the bytes of the file from `low` on.
pub open spec fn reach(known: Map<u64, u64>, data: Seq<u8>, low: int, file_len: int, q: int) -> Option<u64> {
    let next = q + ENTRY_HEADER + bytes::le32(data, q - low + 17);
    if q + ENTRY_HEADER > file_len || next > file_len {
        None
    } else if known.dom().contains(next as u64) {
        Some((known[next as u64] + 1) as u64)
    } else {
        None
    }
}

/// What is known once the places from `from` down to `to` were looked at too.
pub open spec fn scan_back(
    known: Map<u64, u64>,
    found: Option<u64>,
    count: nat,
    data: Seq<u8>,
    low: int,
    file_len: int,
    from: int,
    to: int,
) -> (Map<u64, u64>, Option<u64>)
    decreases from - to,
{
    if from <= to {
        (known, found)
    } else {
        let q = from - 1;
        match reach(known, data, low, file_len, q) {
            Some(n) => scan_back(
                known.insert(q as u64, n),
                if n == count {
                    Some(q as u64)
                } else {
                    found
                },
                count,
                data,
                low,
                file_len,
                q,
                to,
            ),
            None => scan_back(known, found, count, data, low, file_len, q, to),
        }
    }
}

/// Every entry takes bytes.
pub open spec fn counts_fit(known: Map<u64, u64>, file_len: int) -> bool {
    forall|q: u64| #[trigger] known.dom().contains(q) ==> q <= file_len && known[q] <= file_len - q
}

proof fn lemma_look_at(
    file: Seq<u8>,
    known: Map<u64, u64>,
    found: Option<u64>,
    count: nat,
    data: Seq<u8>,
    low: int,
    q: int,
)
    requires
        is_known(file, known, found, count, q + 1),
        counts_fit(known, file.len() as int),
        0 <= low <= q < file.len() <= u64::MAX,
        q + ENTRY_HEADER <= file.len() ==> low + data.len() >= q + ENTRY_HEADER,
        low + data.len() <= file.len(),
        data == file.subrange(low, low + data.len()),
    ensures
        ({
            let n = reach(known, data, low, file.len() as int, q);
            let next_known = match n {
                Some(n) => known.insert(q as u64, n),
                None => known,
            };
            let next_found = if n is Some && n->0 == count {
                Some(q as u64)
            } else {
                found
            };
            &&& is_known(file, next_known, next_found, count, q)
            &&& counts_fit(next_known, file.len() as int)
        }),
{
    let n = reach(known, data, low, file.len() as int, q);
    let next_known = match n {
        Some(n) => known.insert(q as u64, n),
        None => known,
    };
    if q + ENTRY_HEADER <= file.len() {
        assert(bytes::le32(data, q - low + 17) == bytes::le32(file, q + 17));
        let next = q + ENTRY_HEADER + bytes::le32(file, q + 17);
        if next <= file.len() {
            assert(known.dom().contains(next as u64) <==> entries_to_end(file, next) is Some);
        }
    }
    assert(match n {
        Some(n) => entries_to_end(file, q) == Some(n as nat),
        None => entries_to_end(file, q) is None,
    });
    assert forall|x: u64| #[trigger] next_known.dom().contains(x) <==> q <= x <= file.len()
        && entries_to_end(file, x as int) is Some by {
        if x != q {
            assert(next_known.dom().contains(x) == known.dom().contains(x));
        }
    }
}

proof fn lemma_scan_back(
    file: Seq<u8>,
    known: Map<u64, u64>,
    found: Option<u64>,
    count: nat,
    data: Seq<u8>,
    low: int,
    from: int,
    to: int,
)
    requires
        is_known(file, known, found, count, from),
        counts_fit(known, file.len() as int),
        0 <= low <= to <= from <= file.len() <= u64::MAX,
        scan_end(from, file.len() as int) <= low + data.len() <= file.len(),
        data == file.subrange(low, low + data.len()),
    ensures
        ({
            let (k, f) = scan_back(known, found, count, data, low, file.len() as int, from, to);
            is_known(file, k, f, count, to) && counts_fit(k, file.len() as int)
        }),
    decreases from - to,
{
    if from > to {
        let q = from - 1;
        lemma_look_at(file, known, found, count, data, low, q);
        match reach(known, data, low, file.len() as int, q) {
            Some(n) => lemma_scan_back(
                file,
                known.insert(q as u64, n),
                if n == count {
                    Some(q as u64)
                } else {
                    found
                },
                count,
                data,
                low,
                q,
                to,
            ),
            None => lemma_scan_back(file, known, found, count, data, low, q, to),
        }
    }
}

/// Where a look at the places in front of `scanned` begins.
pub open spec fn scan_low(scanned: int) -> int {
    if scanned - SCAN_CHUNK > WAD_HEADER {
        scanned - SCAN_CHUNK
    } else {
        WAD_HEADER as int
    }
}

/// Where the bytes end that a look at the places in front of `scanned` takes.
pub open spec fn scan_end(scanned: int, file_len: int) -> int {
    if scanned + 20 < file_len {
        scanned + 20
    } else {
        file_len
    }
}

/// Looks at the places from `from` down to `low`.
fn scan_chunk(
    known: HashMap<u64, u64>,
    found: Option<u64>,
    count: u32,
    data: &[u8],
    low: u64,
    from: u64,
    file_len: u64,
) -> (r: (HashMap<u64, u64>, Option<u64>))
    requires
        low <= from <= file_len,
        data@.len() == scan_end(from as int, file_len as int) - low,
        counts_fit(known@, file_len as int),
        found matches Some(f) ==> f <= file_len,
    ensures
        (r.0@, r.1) == scan_back(
            known@,
            found,
            count as nat,
            data@,
            low as int,
            file_len as int,
            from as int,
            low as int,
        ),
        counts_fit(r.0@, file_len as int),
        r.1 matches Some(f) ==> f <= file_len,
{
    let mut known = known;
    let mut found = found;
    let mut q: u64 = from;
    let size: usize = data.len();
    let ghost all = scan_back(
        known@,
        found,
        count as nat,
        data@,
        low as int,
        file_len as int,
        from as int,
        low as int,
    );
    while q > low
        invariant
            low <= q <= from <= file_len,
            size == data@.len(),
            data@.len() == scan_end(from as int, file_len as int) - low,
            counts_fit(known@, file_len as int),
            found matches Some(f) ==> f <= file_len,
            all == scan_back(
                known@,
                found,
                count as nat,
                data@,
                low as int,
                file_len as int,
                q as int,
                low as int,
            ),
        decreases q - low,
    {
        q = q - 1;
        if file_len - q >= 21 {
            let name: u64 = read_u32(data, (q - low) as usize + 17) as u64;
            let behind: u64 = file_len - q - 21;
            if name <= behind {
                let next: u64 = q + 21 + name;
                let reached: Option<u64> = match known.get(&next) {
                    Some(n) => Some(*n + 1),
                    None => None,
                };
                match reached {
                    Some(n) => {
                        known.insert(q, n);
                        if n == count as u64 {
                            found = Some(q);
                        }
                    },
                    None => {},
                }
            }
        }
    }
    (known, found)
}

// ---- reading the table ----

/// Which bytes of the archive come next.
pub enum WadStage {
    Magic,
    Version,
    Count,
    /// Those in front of `scanned`, from where on it is known from which places entries lead to
    /// the end, and over how many. `found` is the first from which as many do as there are files.
    Scan { scanned: u64, known: HashMap<u64, u64>, found: Option<u64> },
    EntryHeader,
    EntryName { header: Vec<u8> },
}

/// Reads the table of an archive piece by piece: it says which bytes it wants, and takes exactly
/// those.
pub struct WadReader {
    pub file_len: u64,
    pub stage: WadStage,
    /// Where the reading is, but for a look for the table.
    pub at: u64,
    /// How many entries are still to come.
    pub left: u32,
    pub entries: Vec<WadEntry>,
}

/// Some bytes of a file.
#[derive(Debug, Clone, Copy, PartialEq, Eq, Structural)]
pub struct FilePiece {
    pub offset: u64,
    pub len: u32,
}

/// How the reading goes on.
pub enum WadNext {
    /// With more bytes.
    More(WadReader),
    /// Not at all: this is the table.
    Table(Vec<WadEntry>),
    /// Not at all: the archive is not one.
    BadMagic,
}

/// Whether a file begins like an archive of `count` files.
pub open spec fn has_header(file: Seq<u8>, count: nat) -> bool {
    file.len() >= WAD_HEADER && file.take(5) == wad_magic() && bytes::le32(file, 9) == count
}

impl WadReader {
    /// Whether this may be a reader of the file: what it has learned is so of the file.
    pub open spec fn is_reading(self, file: Seq<u8>) -> bool {
        &&& file.len() == self.file_len
        &&& match self.stage {
            WadStage::Magic => true,
            WadStage::Version => file.len() >= 5 && file.take(5) == wad_magic(),
            WadStage::Count => file.len() >= 9 && file.take(5) == wad_magic(),
            WadStage::Scan { scanned, known, found } => {
                &&& has_header(file, self.left as nat)
                &&& is_known(file, known@, found, self.left as nat, scanned as int)
            },
            WadStage::EntryHeader => wad_outcome(file) == table_outcome(
                entry_views(self.entries@),
                file.skip(self.at as int),
                self.left as nat,
            ),
            WadStage::EntryName { header } => wad_outcome(file) == table_outcome(
                entry_views(self.entries@),
                header@ + file.skip(self.at as int),
                self.left as nat,
            ),
        }
    }

    /// The part of the archive that is being read.
    pub open spec fn part(self) -> WadPart {
        match self.stage {
            WadStage::Magic => WadPart::Header,
            WadStage::Version => WadPart::Version,
            WadStage::Count => WadPart::FileCount,
            _ => WadPart::Table,
        }
    }

    /// Where the bytes stand that are wanted next.
    pub open spec fn offset(self) -> int {
        match self.stage {
            WadStage::Scan { scanned, .. } => scan_low(scanned as int),
            _ => self.at as int,
        }
    }

    /// How many bytes are wanted next.
    pub open spec fn missing(self) -> int {
        match self.stage {
            WadStage::Magic => 5,
            WadStage::Version => 4,
            WadStage::Count => 4,
            WadStage::Scan { scanned, .. } => scan_end(scanned as int, self.file_len as int) - scan_low(
                scanned as int,
            ),
            WadStage::EntryHeader => ENTRY_HEADER as int,
            WadStage::EntryName { header } => name_len(header@),
        }
    }

    /// The reading is where its stage says. There is an entry to come while the table is looked
    /// for and read, and a header that is kept is whole.
    pub open spec fn wf(self) -> bool {
        match self.stage {
            WadStage::Magic => self.at == 0 && self.entries@.len() == 0,
            WadStage::Version => self.at == 5 && self.entries@.len() == 0,
            WadStage::Count => self.at == 9 && self.entries@.len() == 0,
            WadStage::Scan { scanned, known, found } => {
                &&& self.left > 0
                &&& self.entries@.len() == 0
                &&& WAD_HEADER < scanned <= self.file_len
                &&& counts_fit(known@, self.file_len as int)
                &&& found matches Some(f) ==> f <= self.file_len
            },
            WadStage::EntryHeader => self.left > 0 && self.at <= self.file_len,
            WadStage::EntryName { header } => {
                &&& self.left > 0
                &&& self.at <= self.file_len
                &&& header@.len() == ENTRY_HEADER
            },
        }
    }

    /// How many pieces may still be wanted, at most.
    pub open spec fn steps_left(self) -> int {
        match self.stage {
            WadStage::Magic => 0x1_0000_0002_0000_0003int,
            WadStage::Version => 0x1_0000_0002_0000_0002int,
            WadStage::Count => 0x1_0000_0002_0000_0001int,
            WadStage::Scan { scanned, .. } => 0x2_0000_0000int + scanned,
            WadStage::EntryHeader => 2 * self.left,
            WadStage::EntryName { .. } => 2 * self.left - 1,
        }
    }

    /// A reader at the start of an archive of this length.
    pub fn new(file_len: u64) -> (r: Self)
        ensures
            r.wf(),
            r.file_len == file_len,
            forall|file: Seq<u8>| file.len() == file_len ==> #[trigger] r.is_reading(file),
            r.part() == WadPart::Header,
    {
        WadReader { file_len, stage: WadStage::Magic, at: 0, left: 0, entries: Vec::new() }
    }

    /// Which bytes to read next; nothing where the file ends before them.
    pub fn wanted(&self) -> (piece: Option<FilePiece>)
        requires
            self.wf(),
        ensures
            piece is Some <==> self.offset() + self.missing() <= self.file_len,
            piece matches Some(p) ==> p.offset == self.offset() && p.len == self.missing(),
    {
        let (offset, len): (u64, u32) = match &self.stage {
            WadStage::Magic => (self.at, 5),
            WadStage::Version => (self.at, 4),
            WadStage::Count => (self.at, 4),
            WadStage::Scan { scanned, .. } => {
                let low: u64 = scan_start(*scanned);
                let end: u64 = if self.file_len - *scanned > 20 {
                    *scanned + 20
                } else {
                    self.file_len
                };
                (low, (end - low) as u32)
            },
            WadStage::EntryHeader => (self.at, 21),
            WadStage::EntryName { header } => (self.at, read_u32(header.as_slice(), 17)),
        };
        if offset <= self.file_len && len as u64 <= self.file_len - offset {
            Some(FilePiece { offset, len })
        } else {
            None
        }
    }

    /// Takes the bytes that were wanted. What is known of the file stays true, and at the end
    /// what was read is what the file holds.
    pub fn received(self, data: &[u8]) -> (next: WadNext)
        requires
            self.wf(),
            self.offset() + self.missing() <= self.file_len,
            data@.len() == self.missing(),
        ensures
            forall|file: Seq<u8>| #[trigger]
                self.is_reading(file) && file.subrange(self.offset(), self.offset() + self.missing())
                    == data@ ==> match next {
                    WadNext::More(reader) => reader.is_reading(file),
                    WadNext::Table(entries) => wad_outcome(file) == WadOutcome::Table(
                        entry_views(entries@),
                    ),
                    WadNext::BadMagic => wad_outcome(file) == WadOutcome::BadMagic,
                },
            next matches WadNext::More(reader) ==> reader.wf() && reader.file_len == self.file_len
                && 0 <= reader.steps_left() < self.steps_left(),
    {
        match self.stage {
            WadStage::Magic => {
                let magic: [u8; 5] = [0x4Bu8, 0x49u8, 0x57u8, 0x41u8, 0x44u8];
                assert(magic@ =~= wad_magic());
                proof {
                    assert forall|file: Seq<u8>| #[trigger] self.is_reading(file) implies file.take(5)
                        == file.subrange(0, 5) by {
                        assert(file.take(5) =~= file.subrange(0, 5));
                    }
                }
                if !same_bytes(data, magic.as_slice()) {
                    return WadNext::BadMagic;
                }
                WadNext::More(
                    WadReader {
                        file_len: self.file_len,
                        stage: WadStage::Version,
                        at: 5,
                        left: 0,
                        entries: self.entries,
                    },
                )
            },
            WadStage::Version => WadNext::More(
                WadReader {
                    file_len: self.file_len,
                    stage: WadStage::Count,
                    at: 9,
                    left: 0,
                    entries: self.entries,
                },
            ),
            WadStage::Count => {
                let count: u32 = read_u32(data, 0);
                proof {
                    assert forall|file: Seq<u8>| #[trigger]
                        self.is_reading(file) && file.subrange(9, 13) == data@ implies has_header(
                        file,
                        count as nat,
                    ) by {
                        assert(bytes::le32(file.subrange(9, 13), 0) == bytes::le32(file, 9));
                    }
                    assert(entry_views(self.entries@) =~= Seq::<WadEntryView>::empty());
                }
                if count == 0 {
                    proof {
                        assert forall|file: Seq<u8>| #[trigger]
                            self.is_reading(file) && file.subrange(9, 13) == data@ implies wad_outcome(
                            file,
                        ) == WadOutcome::Table(entry_views(self.entries@)) by {
                            let none = Seq::<WadEntryView>::empty();
                            assert(none + none =~= none);
                        }
                    }
                    return WadNext::Table(self.entries);
                }
                let mut known: HashMap<u64, u64> = HashMap::new();
                known.insert(self.file_len, 0);
                proof {
                    assert forall|file: Seq<u8>| file.len() == self.file_len implies #[trigger] is_known(
                        file,
                        known@,
                        None,
                        count as nat,
                        self.file_len as int,
                    ) by {}
                }
                Self::scan_on(self.file_len, self.file_len, known, None, count, self.entries)
            },
            WadStage::Scan { scanned, known, found } => {
                let low: u64 = scan_start(scanned);
                let ghost before = known@;
                let (now_known, now_found) = scan_chunk(
                    known,
                    found,
                    self.left,
                    data,
                    low,
                    scanned,
                    self.file_len,
                );
                proof {
                    assert forall|file: Seq<u8>| #[trigger]
                        self.is_reading(file) && file.subrange(
                            self.offset(),
                            self.offset() + self.missing(),
                        ) == data@ implies is_known(
                        file,
                        now_known@,
                        now_found,
                        self.left as nat,
                        low as int,
                    ) by {
                        lemma_scan_back(
                            file,
                            before,
                            found,
                            self.left as nat,
                            data@,
                            low as int,
                            scanned as int,
                            low as int,
                        );
                    }
                }
                Self::scan_on(self.file_len, low, now_known, now_found, self.left, self.entries)
            },
            WadStage::EntryHeader => {
                let header: Vec<u8> = copy_range(data, 0, data.len());
                assert(header@ =~= data@);
                let at: u64 = self.at + 21;
                proof {
                    assert forall|file: Seq<u8>| #[trigger]
                        self.is_reading(file) && file.subrange(self.at as int, self.at + 21)
                            == data@ implies file.skip(self.at as int) == header@ + file.skip(at as int) by {
                        assert(file.skip(self.at as int) =~= header@ + file.skip(at as int));
                    }
                }
                WadNext::More(
                    WadReader {
                        file_len: self.file_len,
                        stage: WadStage::EntryName { header },
                        at,
                        left: self.left,
                        entries: self.entries,
                    },
                )
            },
            WadStage::EntryName { header } => {
                let decoded: String = utf8_text(data);
                let entry = WadEntry {
                    offset: read_u32(header.as_slice(), 0),
                    size: read_u32(header.as_slice(), 4),
                    compressed_size: read_u32(header.as_slice(), 8),
                    is_compressed: header[12] != 0,
                    name: trim_end_nul(decoded.as_str()),
                };
                let left: u32 = self.left - 1;
                let at: u64 = self.at + data.len() as u64;
                let mut entries: Vec<WadEntry> = self.entries;
                let ghost before = entries@;
                entries.push(entry);
                proof {
                    assert(entry@ == entry_of(header@, data@));
                    assert(entry_views(entries@) =~= entry_views(before).push(entry@));
                    assert forall|file: Seq<u8>| #[trigger]
                        self.is_reading(file) && file.subrange(
                            self.offset(),
                            self.offset() + self.missing(),
                        ) == data@ implies wad_outcome(file) == table_outcome(
                        entry_views(entries@),
                        file.skip(at as int),
                        left as nat,
                    ) by {
                        assert(file.skip(self.at as int) =~= data@ + file.skip(at as int));
                        lemma_one_entry(
                            entry_views(before),
                            header@,
                            data@,
                            file.skip(at as int),
                            self.left as nat,
                        );
                    }
                    let views = entry_views(entries@);
                    assert(views + Seq::<WadEntryView>::empty() =~= views);
                }
                if left == 0 {
                    return WadNext::Table(entries);
                }
                WadNext::More(
                    WadReader {
                        file_len: self.file_len,
                        stage: WadStage::EntryHeader,
                        at,
                        left,
                        entries,
                    },
                )
            },
        }
    }

    /// Goes on once all places from `scanned` on were looked at: with those in front of it, or,
    /// where there are none, with the table.
    fn scan_on(
        file_len: u64,
        scanned: u64,
        known: HashMap<u64, u64>,
        found: Option<u64>,
        count: u32,
        entries: Vec<WadEntry>,
    ) -> (next: WadNext)
        requires
            count > 0,
            entries@.len() == 0,
            WAD_HEADER <= scanned <= file_len,
            counts_fit(known@, file_len as int),
            found matches Some(f) ==> f <= file_len,
        ensures
            next matches WadNext::More(reader) && {
                &&& reader.wf()
                &&& reader.file_len == file_len
                &&& 0 <= reader.steps_left() <= 0x2_0000_0000 + scanned
                &&& forall|file: Seq<u8>| #[trigger]
                    has_header(file, count as nat) && file.len() == file_len && is_known(
                        file,
                        known@,
                        found,
                        count as nat,
                        scanned as int,
                    ) ==> reader.is_reading(file)
            },
    {
        if scanned > WAD_HEADER {
            return WadNext::More(
                WadReader {
                    file_len,
                    stage: WadStage::Scan { scanned, known, found },
                    at: WAD_HEADER,
                    left: count,
                    entries,
                },
            );
        }
        let at: u64 = match found {
            Some(f) => f,
            None => WAD_HEADER,
        };
        proof {
            assert(entry_views(entries@) =~= Seq::<WadEntryView>::empty());
            assert forall|file: Seq<u8>| #[trigger]
                has_header(file, count as nat) && file.len() == file_len && is_known(
                    file,
                    known@,
                    found,
                    count as nat,
                    scanned as int,
                ) implies table_start(file, count as nat) == at by {
                lemma_table_start(file, known@, found, count as nat);
            }
        }
        WadNext::More(WadReader { file_len, stage: WadStage::EntryHeader, at, left: count, entries })
    }
}

/// Where a look at the places in front of `scanned` begins.
fn scan_start(scanned: u64) -> (low: u64)
    requires
        scanned >= WAD_HEADER,
    ensures
        low == scan_low(scanned as int),
{
    if scanned - WAD_HEADER > SCAN_CHUNK {
        scanned - SCAN_CHUNK
    } else {
        WAD_HEADER
    }
}

proof fn lemma_first_trailing_table(file: Seq<u8>, count: nat, from: int, found: Option<int>)
    requires
        WAD_HEADER <= from,
        match found {
            Some(f) => {
                &&& from <= f <= file.len()
                &&& entries_to_end(file, f) == Some(count)
                &&& forall|q: int| from <= q < f ==> #[trigger] entries_to_end(file, q) != Some(count)
            },
            None => forall|q: int|
                from <= q <= file.len() ==> #[trigger] entries_to_end(file, q) != Some(count),
        },
    ensures
        first_trailing_table(file, count, from) == found,
    decreases file.len() + 1 - from,
{
    if from <= file.len() {
        lemma_table_to_end(file, count, from);
        if !is_trailing_table(file, count, from) {
            lemma_first_trailing_table(file, count, from + 1, found);
        }
    }
}

proof fn lemma_table_start(file: Seq<u8>, known: Map<u64, u64>, found: Option<u64>, count: nat)
    requires
        is_known(file, known, found, count, WAD_HEADER as int),
    ensures
        table_start(file, count) == (match found {
            Some(f) => f as int,
            None => WAD_HEADER as int,
        }),
{
    let place = match found {
        Some(f) => Some(f as int),
        None => None,
    };
    lemma_first_trailing_table(file, count, WAD_HEADER as int, place);
}

proof fn lemma_one_entry(
    before: Seq<WadEntryView>,
    header: Seq<u8>,
    name: Seq<u8>,
    rest: Seq<u8>,
    count: nat,
)
    requires
        count > 0,
        header.len() == ENTRY_HEADER,
        name.len() == name_len(header),
    ensures
        table_outcome(before, header + (name + rest), count) == table_outcome(
            before.push(entry_of(header, name)),
            rest,
            (count - 1) as nat,
        ),
{
    let s = header + (name + rest);
    let end = ENTRY_HEADER + name_len(header);
    assert(name_len(s) == name_len(header));
    assert(s.take(ENTRY_HEADER as int) =~= header);
    assert(s.subrange(ENTRY_HEADER as int, end) =~= name);
    assert(s.skip(end) =~= rest);
    let entry = entry_of(header, name);
    match entries_in(rest, (count - 1) as nat) {
        Some(more) => {
            assert(before + (seq![entry] + more) =~= before.push(entry) + more);
        },
        None => {},
    }
}

/// The message of an archive that could not be read. `detail` is what the system said.
pub open spec fn short_message(part: WadPart, detail: Seq<char>) -> Seq<char> {
    match part {
        WadPart::Header => "Cannot read WAD header: "@ + detail,
        WadPart::Version => "Cannot read version: "@ + detail,
        WadPart::FileCount => "Cannot read file count: "@ + detail,
        WadPart::Table => detail,
    }
}

impl WadReader {
    /// The message when the bytes that are wanted could not be read. `detail` is what the
    /// system said.
    pub fn failed(&self, detail: &str) -> (out: String)
        ensures
            out@ == short_message(self.part(), detail@),
    {
        match self.stage {
            WadStage::Magic => "Cannot read WAD header: ".to_owned().concat(detail),
            WadStage::Version => "Cannot read version: ".to_owned().concat(detail),
            WadStage::Count => "Cannot read file count: ".to_owned().concat(detail),
            _ => detail.to_owned(),
        }
    }
}

/// The message for an archive that is not one.
pub fn bad_magic_text() -> (out: String)
    ensures
        out@ == "Invalid WAD file (bad magic)"@,
{
    "Invalid WAD file (bad magic)".to_owned()
}

// ---- choosing and unpacking files ----

/// The entries of the schema documents, in order.
pub open spec fn schema_entries(entries: Seq<WadEntryView>) -> Seq<WadEntryView>
    decreases entries.len(),
{
    if entries.len() == 0 {
        Seq::empty()
    } else if schema::is_schema_file(entries.last().name) {
        schema_entries(entries.drop_last()).push(entries.last())
    } else {
        schema_entries(entries.drop_last())
    }
}

/// Chooses the schema documents of an archive. It is an error if there are none.
pub fn dml_entries(entries: Vec<WadEntry>) -> (r: Result<Vec<WadEntry>, String>)
    ensures
        match r {
            Ok(chosen) => entry_views(chosen@) == schema_entries(entry_views(entries@)) && chosen@.len()
                > 0,
            Err(e) => schema_entries(entry_views(entries@)).len() == 0 && e@
                == "No DML XML files found in WAD"@,
        },
{
    let mut chosen: Vec<WadEntry> = Vec::new();
    let ghost views = entry_views(entries@);
    let mut i: usize = 0;
    assert(views.take(0) =~= Seq::<WadEntryView>::empty());
    assert(entry_views(chosen@) =~= Seq::<WadEntryView>::empty());
    while i < entries.len()
        invariant
            i <= entries@.len(),
            views == entry_views(entries@),
            entry_views(chosen@) == schema_entries(views.take(i as int)),
        decreases entries@.len() - i,
    {
        let entry = &entries[i];
        assert(views.take(i + 1).drop_last() =~= views.take(i as int));
        assert(views.take(i + 1).last() == entry@);
        if schema_file(entry.name.as_str()) {
            let copy = WadEntry {
                offset: entry.offset,
                size: entry.size,
                compressed_size: entry.compressed_size,
                is_compressed: entry.is_compressed,
                name: entry.name.clone(),
            };
            let ghost before = chosen@;
            chosen.push(copy);
            assert(entry_views(chosen@) =~= entry_views(before).push(entry@));
        }
        i += 1;
    }
    assert(views.take(i as int) =~= views);
    if chosen.len() == 0 {
        return Err("No DML XML files found in WAD".to_owned());
    }
    Ok(chosen)
}

impl WadEntryView {
    /// How many bytes of the archive, from its offset on, hold the file.
    pub open spec fn stored_len(self) -> u32 {
        if self.is_compressed {
            self.compressed_size
        } else {
            self.size
        }
    }

    /// The contents of the file, from the bytes of the archive that hold it, or the message for one
    /// that could not be unpacked.
    pub open spec fn contents(self, data: Seq<u8>) -> Result<Seq<u8>, Seq<char>> {
        if self.is_compressed {
            match zlib_inflated(data) {
                Ok(contents) => Ok(contents),
                Err(detail) => Err(inflate_message(detail)),
            }
        } else {
            Ok(data)
        }
    }
}

impl WadEntry {
    /// How many bytes of the archive, from its offset on, hold the file.
    pub fn stored_size(&self) -> (n: u32)
        ensures
            n == self@.stored_len(),
    {
        if self.is_compressed {
            self.compressed_size
        } else {
            self.size
        }
    }
}

/// What `flate2::read::ZlibDecoder` makes of zlib data, or what it says of data that is not.
pub uninterp spec fn zlib_inflated(data: Seq<u8>) -> Result<Seq<u8>, Seq<char>>;

/// `flate2::read::ZlibDecoder`, read to its end, unpacks one zlib stream at the start of the
/// data, or fails where there is none or it is cut off. Both the contents and the words of the
/// failure depend on the data alone; which they are is left unsaid.
#[verifier::external_body]
fn inflate(data: &[u8]) -> (r: Result<Vec<u8>, String>)
    ensures
        match r {
            Ok(contents) => zlib_inflated(data@) == Ok::<Seq<u8>, Seq<char>>(contents@),
            Err(e) => zlib_inflated(data@) == Err::<Seq<u8>, Seq<char>>(e@),
        },
{
    let mut contents = Vec::new();
    flate2::read::ZlibDecoder::new(data).read_to_end(&mut contents).map(|_| contents).map_err(|e| e.to_string())
}

/// The message for a file that could not be unpacked.
pub open spec fn inflate_message(detail: Seq<char>) -> Seq<char> {
    "Decompression failed: "@ + detail
}

/// The contents, or the message for a file that could not be unpacked, from what unpacking it
/// gave.
pub fn inflate_result(inflated: Result<Vec<u8>, String>) -> (r: Result<Vec<u8>, String>)
    ensures
        match inflated {
            Ok(contents) => r == Ok::<Vec<u8>, String>(contents),
            Err(detail) => r matches Err(e) && e@ == inflate_message(detail@),
        },
{
    match inflated {
        Ok(contents) => Ok(contents),
        Err(detail) => Err("Decompression failed: ".to_owned().concat(detail.as_str())),
    }
}

/// Unpacks zlib data.
pub fn decompress_zlib(data: &[u8]) -> (r: Result<Vec<u8>, String>)
    ensures
        match zlib_inflated(data@) {
            Ok(contents) => r matches Ok(c) && c@ == contents,
            Err(detail) => r matches Err(e) && e@ == inflate_message(detail),
        },
{
    inflate_result(inflate(data))
}

/// The contents of a file, from the bytes of the archive that hold it.
pub fn entry_contents(entry: &WadEntry, data: Vec<u8>) -> (r: Result<Vec<u8>, String>)
    ensures
        match entry@.contents(data@) {
            Ok(contents) => r matches Ok(c) && c@ == contents,
            Err(message) => r matches Err(e) && e@ == message,
        },
        !entry.is_compressed ==> r == Ok::<Vec<u8>, String>(data),
        entry.is_compressed ==> match zlib_inflated(data@) {
            Ok(contents) => r matches Ok(c) && c@ == contents,
            Err(detail) => r matches Err(e) && e@ == inflate_message(detail),
        },
{
    if entry.is_compressed {
        decompress_zlib(data.as_slice())
    } else {
        Ok(data)
    }
}

// ---- laws ----

/// Where the archive ends before the bytes that are wanted, reading it ends with the part that
/// was being read.
pub proof fn law_short_archive(reader: WadReader, file: Seq<u8>)
    requires
        reader.wf(),
        reader.is_reading(file),
        file.len() < reader.offset() + reader.missing(),
    ensures
        wad_outcome(file) == WadOutcome::Short(reader.part()),
{
    match reader.stage {
        WadStage::EntryName { header } => {
            let rest = file.skip(reader.at as int);
            assert(name_len(header@ + rest) == name_len(header@));
        },
        _ => {},
    }
}

/// A file as it is put into a table.
pub struct StoredFile {
    pub offset: u32,
    pub size: u32,
    pub compressed_size: u32,
    pub flag: u8,
    pub crc: u32,
    pub name: Seq<u8>,
}

impl StoredFile {
    /// The bytes of the file's entry in front of its name.
    pub open spec fn header(self) -> Seq<u8> {
        bytes::le32_bytes(self.offset) + bytes::le32_bytes(self.size) + bytes::le32_bytes(
            self.compressed_size,
        ) + seq![self.flag] + bytes::le32_bytes(self.crc) + bytes::le32_bytes(self.name.len() as u32)
    }

    /// The file's entry as it is read.
    pub open spec fn entry(self) -> WadEntryView {
        WadEntryView {
            offset: self.offset,
            size: self.size,
            compressed_size: self.compressed_size,
            is_compressed: self.flag != 0,
            name: text::trimmed_end(text::utf8_decoded(self.name), |c: char| c == '\0'),
        }
    }
}

/// A table of these files.
pub open spec fn table_bytes(files: Seq<StoredFile>) -> Seq<u8>
    decreases files.len(),
{
    if files.len() == 0 {
        Seq::empty()
    } else {
        files[0].header() + files[0].name + table_bytes(files.skip(1))
    }
}

proof fn lemma_header_numbers(file: StoredFile)
    requires
        file.name.len() <= u32::MAX,
    ensures
        file.header().len() == ENTRY_HEADER,
        name_len(file.header()) == file.name.len(),
        entry_of(file.header(), file.name) == file.entry(),
{
    let none = Seq::<u8>::empty();
    let a = bytes::le32_bytes(file.offset);
    let b = bytes::le32_bytes(file.size);
    let c = bytes::le32_bytes(file.compressed_size);
    let d = seq![file.flag];
    let e = bytes::le32_bytes(file.crc);
    let f = bytes::le32_bytes(file.name.len() as u32);
    let h = file.header();
    bytes::law_le32_round_trip(none, file.offset, b + c + d + e + f);
    assert(h =~= none + a + (b + c + d + e + f));
    bytes::law_le32_round_trip(a, file.size, c + d + e + f);
    assert(h =~= a + b + (c + d + e + f));
    bytes::law_le32_round_trip(a + b, file.compressed_size, d + e + f);
    assert(h =~= a + b + c + (d + e + f));
    bytes::law_le32_round_trip(a + b + c + d + e, file.name.len() as u32, none);
    assert(h =~= a + b + c + d + e + f + none);
    assert(h[12] == file.flag);
}

/// A table that was written is read back: each file's entry, in order, whatever follows the
/// table.
#[verifier::rlimit(30)]
pub proof fn law_table_reads_back(files: Seq<StoredFile>, rest: Seq<u8>)
    requires
        forall|i: int| 0 <= i < files.len() ==> (#[trigger] files[i]).name.len() <= u32::MAX,
    ensures
        entries_in(table_bytes(files) + rest, files.len()) == Some(
            Seq::new(files.len(), |i: int| files[i].entry()),
        ),
    decreases files.len(),
{
    let entries = Seq::new(files.len(), |i: int| files[i].entry());
    if files.len() == 0 {
        assert(entries =~= Seq::<WadEntryView>::empty());
    } else {
        let file = files[0];
        let more = files.skip(1);
        let s = table_bytes(files) + rest;
        let behind = table_bytes(more) + rest;
        lemma_header_numbers(file);
        law_table_reads_back(more, rest);
        assert(s =~= file.header() + (file.name + behind));
        let end = ENTRY_HEADER + file.name.len();
        assert(bytes::le32(s, 17) == bytes::le32(file.header(), 17));
        assert(s.take(ENTRY_HEADER as int) =~= file.header());
        assert(s.subrange(ENTRY_HEADER as int, end as int) =~= file.name);
        assert(s.skip(end as int) =~= behind);
        assert(seq![file.entry()] + Seq::new(more.len(), |i: int| more[i].entry()) =~= entries);
    }
}

/// The start of an archive of `count` files.
pub open spec fn header_bytes(version: u32, count: u32) -> Seq<u8> {
    wad_magic() + bytes::le32_bytes(version) + bytes::le32_bytes(count)
}

proof fn lemma_header_read(version: u32, count: u32, rest: Seq<u8>)
    ensures
        header_bytes(version, count).len() == WAD_HEADER,
        has_header(header_bytes(version, count) + rest, count as nat),
{
    let file = header_bytes(version, count) + rest;
    let front = wad_magic() + bytes::le32_bytes(version);
    bytes::law_le32_round_trip(front, count, rest);
    assert(file.take(5) =~= wad_magic());
}

proof fn lemma_table_bytes_len(files: Seq<StoredFile>)
    requires
        forall|i: int| 0 <= i < files.len() ==> (#[trigger] files[i]).name.len() <= u32::MAX,
    ensures
        table_len(table_bytes(files), files.len()) == Some(table_bytes(files).len() as int),
    decreases files.len(),
{
    if files.len() > 0 {
        let file = files[0];
        let more = files.skip(1);
        let s = table_bytes(files);
        lemma_header_numbers(file);
        lemma_table_bytes_len(more);
        assert(bytes::le32(s, 17) == bytes::le32(file.header(), 17));
        assert(s.skip((ENTRY_HEADER + file.name.len()) as int) =~= table_bytes(more));
    }
}

/// An archive that ends with its table is read back: behind the header and whatever data, each
/// file's entry in order. No earlier place may look like the start of such a table.
pub proof fn law_trailing_table_reads_back(version: u32, data: Seq<u8>, files: Seq<StoredFile>)
    requires
        files.len() <= u32::MAX,
        forall|i: int| 0 <= i < files.len() ==> (#[trigger] files[i]).name.len() <= u32::MAX,
        forall|at: int|
            WAD_HEADER <= at < WAD_HEADER + data.len() ==> !#[trigger] is_trailing_table(
                header_bytes(version, files.len() as u32) + (data + table_bytes(files)),
                files.len(),
                at,
            ),
    ensures
        wad_outcome(header_bytes(version, files.len() as u32) + (data + table_bytes(files)))
            == WadOutcome::Table(Seq::new(files.len(), |i: int| files[i].entry())),
{
    let count = files.len();
    let rest = data + table_bytes(files);
    let file = header_bytes(version, count as u32) + rest;
    let at = WAD_HEADER + data.len();
    let none = Seq::<u8>::empty();
    let entries = Seq::new(files.len(), |i: int| files[i].entry());
    lemma_header_read(version, count as u32, rest);
    lemma_table_bytes_len(files);
    law_table_reads_back(files, none);
    assert(file.skip(at as int) =~= table_bytes(files));
    assert(table_bytes(files) + none =~= table_bytes(files));
    assert(is_trailing_table(file, count, at as int));
    assert forall|q: int| WAD_HEADER <= q < at implies #[trigger] entries_to_end(file, q) != Some(count) by {
        lemma_table_to_end(file, count, q);
        assert(!is_trailing_table(file, count, q));
    }
    lemma_table_to_end(file, count, at as int);
    lemma_first_trailing_table(file, count, WAD_HEADER as int, Some(at as int));
    assert(Seq::<WadEntryView>::empty() + entries =~= entries);
}

/// An archive with its table right behind the header is read back, whatever follows the table,
/// unless some of what follows looks like a table at the end.
pub proof fn law_leading_table_reads_back(version: u32, files: Seq<StoredFile>, data: Seq<u8>)
    requires
        files.len() <= u32::MAX,
        forall|i: int| 0 <= i < files.len() ==> (#[trigger] files[i]).name.len() <= u32::MAX,
        first_trailing_table(
            header_bytes(version, files.len() as u32) + (table_bytes(files) + data),
            files.len(),
            WAD_HEADER as int,
        ) matches Some(at) ==> at == WAD_HEADER || files.len() == 0,
    ensures
        wad_outcome(header_bytes(version, files.len() as u32) + (table_bytes(files) + data))
            == WadOutcome::Table(Seq::new(files.len(), |i: int| files[i].entry())),
{
    let count = files.len();
    let rest = table_bytes(files) + data;
    let file = header_bytes(version, count as u32) + rest;
    let entries = Seq::new(files.len(), |i: int| files[i].entry());
    lemma_header_read(version, count as u32, rest);
    law_table_reads_back(files, data);
    assert(file.skip(WAD_HEADER as int) =~= rest);
    assert(Seq::<WadEntryView>::empty() + entries =~= entries);
}

/// A table that ends with the file is always read: where there is a place for one, the outcome is
/// a table of as many entries as the header says.
pub proof fn law_trailing_table_is_read(file: Seq<u8>, count: nat, at: int)
    requires
        has_header(file, count),
        is_trailing_table(file, count, at),
    ensures
        ({
            let start = table_start(file, count);
            &&& WAD_HEADER <= start <= at
            &&& is_trailing_table(file, count, start)
            &&& entries_in(file.skip(start), count) matches Some(entries) && wad_outcome(file)
                == WadOutcome::Table(entries)
        }),
{
    lemma_first_is_first(file, count, WAD_HEADER as int, at);
    let start = table_start(file, count);
    lemma_whole_table(file.skip(start), count);
    let entries = entries_in(file.skip(start), count)->0;
    assert(Seq::<WadEntryView>::empty() + entries =~= entries);
}

proof fn lemma_first_is_first(file: Seq<u8>, count: nat, from: int, at: int)
    requires
        from <= at,
        is_trailing_table(file, count, at),
    ensures
        first_trailing_table(file, count, from) matches Some(first) && from <= first <= at
            && is_trailing_table(file, count, first),
    decreases at - from,
{
    if !is_trailing_table(file, count, from) {
        lemma_first_is_first(file, count, from + 1, at);
    }
}

/// Only schema documents are chosen, and every one is: an entry is among the chosen ones exactly
/// if it is in the table and its name is that of a schema document.
pub proof fn law_schema_entries_are_chosen(entries: Seq<WadEntryView>, entry: WadEntryView)
    ensures
        schema_entries(entries).contains(entry) <==> entries.contains(entry)
            && schema::is_schema_file(entry.name),
    decreases entries.len(),
{
    if entries.len() > 0 {
        let before = entries.drop_last();
        let last = entries.last();
        law_schema_entries_are_chosen(before, entry);
        assert(entries =~= before.push(last));
        if entries.contains(entry) && entry != last {
            let i = choose|i: int| 0 <= i < entries.len() && entries[i] == entry;
            assert(before[i] == entry);
        }
        if before.contains(entry) {
            let i = choose|i: int| 0 <= i < before.len() && before[i] == entry;
            assert(entries[i] == entry);
        }
        if schema::is_schema_file(last.name) {
            let chosen = schema_entries(before);
            assert(schema_entries(entries) == chosen.push(last));
            assert(chosen.push(last)[chosen.len() as int] == last);
            if chosen.contains(entry) {
                let i = choose|i: int| 0 <= i < chosen.len() && chosen[i] == entry;
                assert(chosen.push(last)[i] == entry);
            }
            if chosen.push(last).contains(entry) && entry != last {
                let i = choose|i: int|
                    0 <= i < chosen.push(last).len() && chosen.push(last)[i] == entry;
                assert(chosen[i] == entry);
            }
            assert(entries[entries.len() - 1] == last);
        }
    }
}

// ---- laws on the layout of archives ----

/// An entry is read by place: the offset at 0, the size at 4, the compressed size at 8, whether it is
/// compressed at 12, and the length of its name at 17, with low bytes first.
pub proof fn law_entry_is_read_by_place(header: Seq<u8>, name: Seq<u8>)
    ensures
        ({
            let entry = entry_of(header, name);
            let number = |i: int|
                header[i] + 0x100 * header[i + 1] + 0x1_0000 * header[i + 2] + 0x100_0000 * header[i + 3];
            &&& entry.offset == number(0)
            &&& entry.size == number(4)
            &&& entry.compressed_size == number(8)
            &&& (entry.is_compressed <==> header[12] != 0)
            &&& name_len(header) == number(17)
        }),
{
}

/// The name of an entry is its text without the NUL characters at its end, and only those.
pub proof fn law_entry_names(header: Seq<u8>, name: Seq<u8>) -> (n: int)
    ensures
        ({
            let s = text::utf8_decoded(name);
            &&& 0 <= n <= s.len()
            &&& entry_of(header, name).name == s.subrange(0, n)
            &&& forall|i: int| n <= i < s.len() ==> #[trigger] s[i] == '\0'
            &&& n > 0 ==> s[n - 1] != '\0'
        }),
{
    let s = text::utf8_decoded(name);
    let drop = |c: char| c == '\0';
    let n = text::law_end_is_trimmed(s, drop);
    assert forall|i: int| n <= i < s.len() implies #[trigger] s[i] == '\0' by {
        assert(drop(s[i]));
    }
    n
}

/// An archive begins with the letters `KIWAD`, four bytes of version and four for the number of its
/// files. One that ends inside them ends there, and one that begins otherwise is none; all others
/// are read on.
pub proof fn law_archives_begin_alike(file: Seq<u8>)
    ensures
        ({
            let is_one = file[0] == 0x4B && file[1] == 0x49 && file[2] == 0x57 && file[3] == 0x41
                && file[4] == 0x44;
            let n = file.len();
            &&& n < 5 ==> wad_outcome(file) == WadOutcome::Short(WadPart::Header)
            &&& n >= 5 && !is_one ==> wad_outcome(file) == WadOutcome::BadMagic
            &&& 5 <= n < 9 && is_one ==> wad_outcome(file) == WadOutcome::Short(WadPart::Version)
            &&& 9 <= n < 13 && is_one ==> wad_outcome(file) == WadOutcome::Short(WadPart::FileCount)
            &&& n >= 13 && is_one ==> {
                let count = (file[9] + 0x100 * file[10] + 0x1_0000 * file[11] + 0x100_0000 * file[12]) as nat;
                let rest = file.skip(table_start(file, count));
                match entries_in(rest, count) {
                    Some(entries) => wad_outcome(file) == WadOutcome::Table(entries),
                    None => wad_outcome(file) == WadOutcome::Short(WadPart::Table),
                }
            }
        }),
{
    if file.len() >= 5 {
        assert(file.take(5) == wad_magic() <==> file[0] == 0x4B && file[1] == 0x49 && file[2] == 0x57
            && file[3] == 0x41 && file[4] == 0x44) by {
            if file.take(5) == wad_magic() {
                assert(file.take(5)[0] == 0x4B && file.take(5)[1] == 0x49 && file.take(5)[2] == 0x57
                    && file.take(5)[3] == 0x41 && file.take(5)[4] == 0x44);
            }
            if file[0] == 0x4B && file[1] == 0x49 && file[2] == 0x57 && file[3] == 0x41 && file[4] == 0x44 {
                assert(file.take(5) =~= wad_magic());
            }
        }
    }
    if file.len() >= 13 {
        let count = bytes::le32(file, 9) as nat;
        match entries_in(file.skip(table_start(file, count)), count) {
            Some(entries) => {
                assert(Seq::<WadEntryView>::empty() + entries =~= entries);
            },
            None => {},
        }
    }
}

/// An entry takes 21 bytes and its name, and a table the bytes of its entries. It is whole exactly if
/// they are all there.
pub proof fn law_tables_are_made_of_entries(s: Seq<u8>, count: nat)
    ensures
        table_len(s, 0) == Some(0int),
        count > 0 && s.len() < 21 ==> table_len(s, count) is None && entries_in(s, count) is None,
        count > 0 && s.len() >= 21 ==> {
            let n = 21 + s[17] + 0x100 * s[18] + 0x1_0000 * s[19] + 0x100_0000 * s[20];
            let rest = s.subrange(n, s.len() as int);
            let more = table_len(rest, (count - 1) as nat);
            &&& s.len() < n ==> table_len(s, count) is None && entries_in(s, count) is None
            &&& s.len() >= n ==> (table_len(s, count) is Some <==> more is Some)
            &&& s.len() >= n && more is Some ==> table_len(s, count) == Some(n + more->0)
        },
        table_len(s, count) is Some <==> entries_in(s, count) is Some,
        entries_in(s, count) is Some ==> entries_in(s, count)->0.len() == count,
    decreases count,
{
    lemma_whole_table(s, count);
    if count > 0 && s.len() >= 21 {
        let n = 21 + s[17] + 0x100 * s[18] + 0x1_0000 * s[19] + 0x100_0000 * s[20];
        if s.len() >= n {
            assert(s.skip(n) =~= s.subrange(n, s.len() as int));
            law_tables_are_made_of_entries(s.skip(n), (count - 1) as nat);
        }
    }
}

/// The table is the first one, behind the header, that ends with the file; only where none does is it
/// the one right behind the header.
pub proof fn law_first_table_at_the_end(file: Seq<u8>, count: nat, q: int)
    ensures
        ({
            let start = table_start(file, count);
            let ends = |at: int| 13 <= at <= file.len() && table_len(file.skip(at), count) == Some(
                file.len() - at,
            );
            &&& 13 <= q < start ==> !ends(q)
            &&& start == 13 || ends(start)
            &&& ends(q) ==> ends(start) && start <= q
        }),
{
    if 13 <= q <= file.len() && table_len(file.skip(q), count) == Some(file.len() - q) {
        assert(is_trailing_table(file, count, q));
        lemma_first_is_first(file, count, WAD_HEADER as int, q);
    }
    lemma_no_earlier_table(file, count, WAD_HEADER as int, q);
}

proof fn lemma_no_earlier_table(file: Seq<u8>, count: nat, from: int, q: int)
    ensures
        match first_trailing_table(file, count, from) {
            Some(at) => from <= at && is_trailing_table(file, count, at) && (from <= q < at
                ==> !is_trailing_table(file, count, q)),
            None => true,
        },
    decreases file.len() + 1 - from,
{
    if from <= file.len() && !is_trailing_table(file, count, from) {
        lemma_no_earlier_table(file, count, from + 1, q);
    }
}

/// The chosen entries are those whose name has `Messages` in it and ends with `.xml`, in the order of
/// the table and each as often as it stands there.
pub proof fn law_chosen_entries_stay_in_order(entries: Seq<WadEntryView>)
    ensures
        schema_entries(entries) == entries.filter(|e: WadEntryView| schema::is_schema_file(e.name)),
    decreases entries.len(),
{
    reveal(Seq::filter);
    if entries.len() > 0 {
        law_chosen_entries_stay_in_order(entries.drop_last());
    }
}

/// A compressed file takes its compressed size in the archive and is unpacked; one that is not takes
/// its size and is what stands there. A file that cannot be unpacked gives a message with the words
/// of the failure.
pub proof fn law_files_are_unpacked(entry: WadEntryView, data: Seq<u8>)
    ensures
        entry.is_compressed ==> entry.stored_len() == entry.compressed_size,
        !entry.is_compressed ==> entry.stored_len() == entry.size,
        !entry.is_compressed ==> entry.contents(data) == Ok::<Seq<u8>, Seq<char>>(data),
        entry.is_compressed && zlib_inflated(data) is Ok ==> entry.contents(data) == zlib_inflated(data),
        entry.is_compressed && zlib_inflated(data) is Err ==> entry.contents(data) == Err::<
            Seq<u8>,
            Seq<char>,
        >("Decompression failed: "@ + zlib_inflated(data)->Err_0),
{
}

/// The messages for an archive that ends too early.
pub proof fn law_short_messages(detail: Seq<char>)
    ensures
        short_message(WadPart::Header, detail) == "Cannot read WAD header: "@ + detail,
        short_message(WadPart::Version, detail) == "Cannot read version: "@ + detail,
        short_message(WadPart::FileCount, detail) == "Cannot read file count: "@ + detail,
        short_message(WadPart::Table, detail) == detail,
{
}

/// The values of an entry are those of its fields.
pub proof fn law_entry_values(entry: WadEntry)
    ensures
        entry@.offset == entry.offset,
        entry@.size == entry.size,
        entry@.compressed_size == entry.compressed_size,
        entry@.is_compressed == entry.is_compressed,
        entry@.name == entry.name@,
{
}

} // verus!
