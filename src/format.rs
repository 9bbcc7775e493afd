//! The `.pack` container: header, tables and entry records.

use vstd::prelude::*;
use vstd::slice::slice_subrange;
use crate::foreign::{lossy_text, null_string_text};

verus! {

/// The archive's signature, `PACK` read as a little-endian integer.
pub const PACK_MAGIC: u32 = 0x4b434150;

/// The one supported format version.
pub const PACK_VERSION: u32 = 0x00030000;

/// The little-endian integer in the four bytes of `d` at `p`.
pub open spec fn le32(d: Seq<u8>, p: int) -> int {
    d[p] as int + d[p + 1] as int * 256 + d[p + 2] as int * 65536 + d[p + 3] as int * 16777216
}

/// Why an archive could not be read.
#[derive(Debug, Clone, Copy, PartialEq, Eq, Structural)]
pub enum PackError {
    /// The archive ends inside the field that starts at `offset`.
    Truncated { offset: u64 },
    /// The first four bytes are not the archive signature.
    InvalidSignature,
    /// The format version is not the supported one.
    UnsupportedVersion,
    /// The chunk data would lie beyond the range of 64-bit offsets.
    OffsetOverflow,
    /// The chunks of entry `entry` run past the end of the chunk table.
    ChunkRunOutOfRange { entry: u32 },
    /// The first chunk of entry `entry` does not start at its recorded data offset.
    OffsetMismatch { entry: u32 },
}

/// One packed file, as a mathematical value.
pub struct EntryModel {
    pub index: int,
    pub path: Seq<char>,
    pub data_offset: int,
    pub first_chunk: int,
    pub chunk_count: int,
    pub size_on_disk: int,
    pub size_in_pack: int,
}

/// A parsed archive, as a mathematical value.
pub struct PackModel {
    pub entry_offsets: Seq<u32>,
    pub chunk_sizes: Seq<u32>,
    pub chunk_offsets: Seq<int>,
    pub entries: Seq<EntryModel>,
}

/// The `n` little-endian integers of `d` that start at `start`.
pub open spec fn u32_table(d: Seq<u8>, start: int, n: int) -> Seq<u32> {
    Seq::new(n as nat, |k: int| le32(d, start + 4 * k) as u32)
}

/// The sum of a table of sizes.
pub open spec fn sum_sizes(s: Seq<u32>) -> int
    decreases s.len(),
{
    if s.len() == 0 {
        0
    } else {
        sum_sizes(s.drop_last()) + s.last()
    }
}

/// Each chunk's offset: `base` plus the sizes of the chunks before it.
pub open spec fn chunk_offsets_of(sizes: Seq<u32>, base: int) -> Seq<int> {
    Seq::new(sizes.len(), |j: int| base + sum_sizes(sizes.subrange(0, j)))
}

/// The entry count declared by the header.
pub open spec fn entry_count_of(d: Seq<u8>) -> int {
    le32(d, 8)
}

/// The chunk count declared by the header.
pub open spec fn chunk_count_of(d: Seq<u8>) -> int {
    le32(d, 16)
}

/// Where the entry records start: after the header and both tables.
pub open spec fn tables_end(d: Seq<u8>) -> int {
    20 + 4 * le32(d, 8) + 4 * le32(d, 16)
}

/// Where the chunk data starts: after the entry-record section.
pub open spec fn data_base(d: Seq<u8>) -> int {
    tables_end(d) + le32(d, 12)
}

/// The first position at or after `q` that holds a zero byte (or the end).
pub open spec fn zero_from(d: Seq<u8>, q: int) -> int
    decreases d.len() - q,
{
    if q < 0 || q >= d.len() {
        d.len() as int
    } else if d[q] == 0 {
        q
    } else {
        zero_from(d, q + 1)
    }
}

/// `p` rounded up to a multiple of four.
pub open spec fn align4(p: int) -> int {
    if p % 4 == 0 {
        p
    } else {
        p + (4 - p % 4)
    }
}

/// Where reading integers one after another from `p` first fails in a stream of `len` bytes.
pub open spec fn u32_fail(len: int, p: int) -> int {
    if len <= p {
        len
    } else {
        p + 4 * ((len - p) / 4)
    }
}

/// How many chunks from index `j` on, counted from `n`, it takes for the sizes,
/// added to `acc`, to reach `target`; `None` if the table ends first.
pub open spec fn run_len(sizes: Seq<u32>, j: int, acc: int, target: int, n: int) -> Option<int>
    decreases sizes.len() - j,
{
    if acc >= target {
        Some(n)
    } else if j < 0 || j >= sizes.len() {
        None
    } else {
        run_len(sizes, j + 1, acc + sizes[j], target, n + 1)
    }
}

/// The entry records from record `i` of `n` on, starting at `pos`, appended to `acc`.
pub open spec fn entries_from(
    d: Seq<u8>,
    sizes: Seq<u32>,
    offs: Seq<int>,
    pos: int,
    i: int,
    n: int,
    acc: Seq<EntryModel>,
) -> Result<Seq<EntryModel>, PackError>
    decreases n - i,
{
    if i >= n {
        Ok(acc)
    } else if pos + 16 > d.len() {
        Err(PackError::Truncated { offset: u32_fail(d.len() as int, pos) as u64 })
    } else {
        let q = pos + 16;
        let z = zero_from(d, q);
        if z >= d.len() {
            Err(PackError::Truncated { offset: q as u64 })
        } else {
            let first = le32(d, pos + 4);
            let stored = le32(d, pos + 12);
            match run_len(sizes, first, 0, stored, 0) {
                None => Err(PackError::ChunkRunOutOfRange { entry: i as u32 }),
                Some(c) => if c > 0 && offs[first] != le32(d, pos) {
                    Err(PackError::OffsetMismatch { entry: i as u32 })
                } else {
                    let e = EntryModel {
                        index: i,
                        path: lossy_text(d.subrange(q, z)),
                        data_offset: le32(d, pos),
                        first_chunk: first,
                        chunk_count: c,
                        size_on_disk: le32(d, pos + 8),
                        size_in_pack: stored,
                    };
                    entries_from(d, sizes, offs, align4(z + 1), i + 1, n, acc.push(e))
                },
            }
        }
    }
}

/// What reading the archive `d` gives.
pub open spec fn parse_spec(d: Seq<u8>) -> Result<PackModel, PackError> {
    if d.len() < 4 {
        Err(PackError::Truncated { offset: 0 })
    } else if le32(d, 0) != PACK_MAGIC {
        Err(PackError::InvalidSignature)
    } else if d.len() < 8 {
        Err(PackError::Truncated { offset: 4 })
    } else if le32(d, 4) != PACK_VERSION {
        Err(PackError::UnsupportedVersion)
    } else if d.len() < 20 || d.len() < tables_end(d) {
        Err(PackError::Truncated { offset: (d.len() - d.len() % 4) as u64 })
    } else {
        let sizes = u32_table(d, 20 + 4 * entry_count_of(d), chunk_count_of(d));
        if data_base(d) + sum_sizes(sizes) > u64::MAX {
            Err(PackError::OffsetOverflow)
        } else {
            let offs = chunk_offsets_of(sizes, data_base(d));
            match entries_from(d, sizes, offs, tables_end(d), 0, entry_count_of(d), Seq::empty()) {
                Ok(es) => Ok(
                    PackModel {
                        entry_offsets: u32_table(d, 20, entry_count_of(d)),
                        chunk_sizes: sizes,
                        chunk_offsets: offs,
                        entries: es,
                    },
                ),
                Err(e) => Err(e),
            }
        }
    }
}

/// One packed file: where its data starts, its sizes, and the run of chunks
/// that holds it.
pub struct Entry {
    pub index: u32,
    pub path: String,
    pub data_offset: u32,
    pub first_chunk: u32,
    pub chunk_count: u32,
    pub size_on_disk: u32,
    pub size_in_pack: u32,
}

impl View for Entry {
    type V = EntryModel;

    open spec fn view(&self) -> EntryModel {
        EntryModel {
            index: self.index as int,
            path: self.path@,
            data_offset: self.data_offset as int,
            first_chunk: self.first_chunk as int,
            chunk_count: self.chunk_count as int,
            size_on_disk: self.size_on_disk as int,
            size_in_pack: self.size_in_pack as int,
        }
    }
}

/// A byte range of the archive's data section.
#[derive(Debug, Clone, Copy, PartialEq, Eq, Structural)]
pub struct Chunk {
    pub index: u32,
    pub offset: u64,
    pub size: u32,
}

/// A parsed archive: its tables and its entries, in the order they are stored.
pub struct Pack {
    entry_offsets: Vec<u32>,
    chunk_sizes: Vec<u32>,
    chunk_offsets: Vec<u64>,
    entries: Vec<Entry>,
}

impl View for Pack {
    type V = PackModel;

    closed spec fn view(&self) -> PackModel {
        PackModel {
            entry_offsets: self.entry_offsets@,
            chunk_sizes: self.chunk_sizes@,
            chunk_offsets: self.chunk_offsets@.map_values(|x: u64| x as int),
            entries: self.entries@.map_values(|e: Entry| e@),
        }
    }
}

impl Pack {
    /// The entries, in the order they are stored.
    pub fn entries(&self) -> (r: &Vec<Entry>)
        ensures
            r@.map_values(|e: Entry| e@) == self@.entries,
    {
        &self.entries
    }

    /// The entry-offset table, as stored.
    pub fn entry_offsets(&self) -> (r: &Vec<u32>)
        ensures
            r@ == self@.entry_offsets,
    {
        &self.entry_offsets
    }

    /// How many chunks the chunk table holds.
    pub fn chunk_count(&self) -> (r: usize)
        ensures
            r == self@.chunk_sizes.len(),
    {
        self.chunk_sizes.len()
    }

    /// Chunk `j` of the chunk table, with its computed offset.
    pub fn chunk(&self, j: usize) -> (r: Chunk)
        requires
            pack_wf(self@),
            j < self@.chunk_sizes.len(),
        ensures
            r.index == j,
            r.offset == self@.chunk_offsets[j as int],
            r.size == self@.chunk_sizes[j as int],
    {
        Chunk { index: j as u32, offset: self.chunk_offsets[j], size: self.chunk_sizes[j] }
    }

    /// The chunks of entry `i`, in order.
    pub fn entry_chunks(&self, i: usize) -> (r: Vec<Chunk>)
        requires
            pack_wf(self@),
            i < self@.entries.len(),
        ensures
            r@.len() == self@.entries[i as int].chunk_count,
            forall|k: int|
                #![trigger r@[k]]
                0 <= k < r@.len() ==> {
                    let j = self@.entries[i as int].first_chunk + k;
                    &&& r@[k].index == j
                    &&& r@[k].offset == self@.chunk_offsets[j]
                    &&& r@[k].size == self@.chunk_sizes[j]
                },
    {
        let e = &self.entries[i];
        assert(e@ == self@.entries[i as int]);
        let first = e.first_chunk as usize;
        let count = e.chunk_count as usize;
        let mut r: Vec<Chunk> = Vec::new();
        let mut k: usize = 0;
        while k < count
            invariant
                pack_wf(self@),
                i < self@.entries.len(),
                first == self@.entries[i as int].first_chunk,
                count == self@.entries[i as int].chunk_count,
                k <= count,
                r@.len() == k,
                forall|m: int|
                    #![trigger r@[m]]
                    0 <= m < k ==> {
                        let j = first + m;
                        &&& r@[m].index == j
                        &&& r@[m].offset == self@.chunk_offsets[j]
                        &&& r@[m].size == self@.chunk_sizes[j]
                    },
            decreases count - k,
        {
            r.push(self.chunk(first + k));
            k = k + 1;
        }
        r
    }
}

/// The shape that every parsed archive has: one offset for each chunk, and
/// each entry's chunks inside the chunk table.
pub open spec fn pack_wf(m: PackModel) -> bool {
    &&& m.chunk_offsets.len() == m.chunk_sizes.len()
    &&& m.chunk_sizes.len() <= u32::MAX
    &&& m.entries.len() <= u32::MAX
    &&& forall|j: int| 0 <= j < m.chunk_offsets.len() ==> 0 <= #[trigger] m.chunk_offsets[j] <= u64::MAX
    &&& forall|i: int|
        #![trigger m.entries[i]]
        0 <= i < m.entries.len() ==> 0 <= m.entries[i].first_chunk && 0 <= m.entries[i].chunk_count
            && (m.entries[i].chunk_count > 0 ==> m.entries[i].first_chunk
            + m.entries[i].chunk_count <= m.chunk_sizes.len())
}

/// The stored bytes of the chunks that an entry spans.
pub open spec fn run_stored(sizes: Seq<u32>, e: EntryModel) -> int {
    if e.chunk_count == 0 {
        0
    } else {
        sum_sizes(sizes.subrange(e.first_chunk, e.first_chunk + e.chunk_count))
    }
}

/// What holds of entry `k` of a parsed archive: its number, a run of chunks
/// inside the chunk table, and enough stored bytes in that run.
pub open spec fn entry_ok(sizes: Seq<u32>, e: EntryModel, k: int) -> bool {
    &&& e.index == k
    &&& e.chunk_count >= 0
    &&& e.chunk_count > 0 ==> 0 <= e.first_chunk && e.first_chunk + e.chunk_count <= sizes.len()
    &&& run_stored(sizes, e) >= e.size_in_pack
}

/// The chunk counts of `es`, added up.
pub open spec fn total_chunk_count(es: Seq<EntryModel>) -> int
    decreases es.len(),
{
    if es.len() == 0 {
        0
    } else {
        total_chunk_count(es.drop_last()) + es.last().chunk_count
    }
}

/// Whether the entries' chunk runs follow one another without gap or overlap
/// and together make up the whole chunk table.
pub open spec fn runs_tile_table(m: PackModel) -> bool {
    &&& m.entries.len() > 0
    &&& m.entries[0].first_chunk == 0
    &&& forall|k: int|
        #![trigger m.entries[k + 1]]
        0 <= k < m.entries.len() - 1 ==> m.entries[k].first_chunk + m.entries[k].chunk_count
            == m.entries[k + 1].first_chunk
    &&& m.entries.last().first_chunk + m.entries.last().chunk_count == m.chunk_sizes.len()
}

proof fn lemma_sum_first(s: Seq<u32>)
    requires
        s.len() > 0,
    ensures
        sum_sizes(s) == s[0] + sum_sizes(s.subrange(1, s.len() as int)),
    decreases s.len(),
{
    if s.len() == 1 {
        assert(s.subrange(1, 1) =~= Seq::<u32>::empty());
        assert(s.drop_last() =~= Seq::<u32>::empty());
    } else {
        lemma_sum_first(s.drop_last());
        assert(s.drop_last().subrange(1, s.len() - 1) =~= s.subrange(1, s.len() as int).drop_last());
    }
}

proof fn lemma_run_len_sum(sizes: Seq<u32>, j: int, acc: int, target: int, n: int)
    requires
        0 <= j,
        run_len(sizes, j, acc, target, n) is Some,
    ensures
        ({
            let c = run_len(sizes, j, acc, target, n)->0;
            &&& c >= n
            &&& c > n ==> j + (c - n) <= sizes.len()
            &&& c > n ==> acc + sum_sizes(sizes.subrange(j, j + (c - n))) >= target
            &&& c == n ==> acc >= target
        }),
    decreases sizes.len() - j,
{
    if acc < target {
        lemma_run_len_sum(sizes, j + 1, acc + sizes[j], target, n + 1);
        let c = run_len(sizes, j, acc, target, n)->0;
        let run = sizes.subrange(j, j + (c - n));
        lemma_sum_first(run);
        assert(run.subrange(1, run.len() as int) =~= sizes.subrange(j + 1, j + 1 + (c - (n + 1))));
        if c == n + 1 {
            assert(sizes.subrange(j + 1, j + 1) =~= Seq::<u32>::empty());
        }
    }
}

proof fn lemma_entries_from(
    d: Seq<u8>,
    sizes: Seq<u32>,
    offs: Seq<int>,
    pos: int,
    i: int,
    n: int,
    acc: Seq<EntryModel>,
)
    requires
        entries_from(d, sizes, offs, pos, i, n, acc) is Ok,
        0 <= i <= n,
        acc.len() == i,
        forall|k: int| 0 <= k < acc.len() ==> entry_ok(sizes, #[trigger] acc[k], k),
    ensures
        ({
            let es = entries_from(d, sizes, offs, pos, i, n, acc)->Ok_0;
            &&& es.len() == n
            &&& forall|k: int| 0 <= k < es.len() ==> entry_ok(sizes, #[trigger] es[k], k)
        }),
    decreases n - i,
{
    if i < n {
        let q = pos + 16;
        let z = zero_from(d, q);
        let first = le32(d, pos + 4);
        let stored = le32(d, pos + 12);
        lemma_run_len_sum(sizes, first, 0, stored, 0);
        let c = run_len(sizes, first, 0, stored, 0)->0;
        let e = EntryModel {
            index: i,
            path: lossy_text(d.subrange(q, z)),
            data_offset: le32(d, pos),
            first_chunk: first,
            chunk_count: c,
            size_on_disk: le32(d, pos + 8),
            size_in_pack: stored,
        };
        let acc2 = acc.push(e);
        assert forall|k: int| 0 <= k < acc2.len() implies entry_ok(sizes, #[trigger] acc2[k], k) by {
            if k < acc.len() {
                assert(acc2[k] == acc[k]);
            }
        }
        lemma_entries_from(d, sizes, offs, align4(z + 1), i + 1, n, acc2);
    }
}

/// A parsed archive holds exactly as many entries as its header declares,
/// numbered in order; its chunk table has the declared number of chunks; and
/// the chunks of each entry hold at least the entry's stored size.
pub proof fn lemma_parsed_entries(d: Seq<u8>)
    requires
        parse_spec(d) is Ok,
    ensures
        ({
            let m = parse_spec(d)->Ok_0;
            &&& m.entries.len() == entry_count_of(d)
            &&& m.chunk_sizes.len() == chunk_count_of(d)
            &&& forall|k: int|
                0 <= k < m.entries.len() ==> entry_ok(m.chunk_sizes, #[trigger] m.entries[k], k)
        }),
{
    let sizes = u32_table(d, 20 + 4 * entry_count_of(d), chunk_count_of(d));
    let offs = chunk_offsets_of(sizes, data_base(d));
    lemma_entries_from(d, sizes, offs, tables_end(d), 0, entry_count_of(d), Seq::empty());
}

proof fn lemma_total_up_to(m: PackModel, k: int)
    requires
        runs_tile_table(m),
        0 <= k < m.entries.len(),
    ensures
        total_chunk_count(m.entries.subrange(0, k)) == m.entries[k].first_chunk,
    decreases k,
{
    if k == 0 {
        assert(m.entries.subrange(0, 0) =~= Seq::<EntryModel>::empty());
    } else {
        lemma_total_up_to(m, k - 1);
        assert(m.entries.subrange(0, k).drop_last() =~= m.entries.subrange(0, k - 1));
        assert(m.entries[(k - 1) + 1] == m.entries[k]);
    }
}

/// Where the entries' chunk runs follow one another and cover the chunk
/// table, the entries' chunk counts add up to the declared chunk count.
pub proof fn lemma_chunk_counts_cover_table(d: Seq<u8>)
    requires
        parse_spec(d) is Ok,
        runs_tile_table(parse_spec(d)->Ok_0),
    ensures
        total_chunk_count(parse_spec(d)->Ok_0.entries) == chunk_count_of(d),
{
    let m = parse_spec(d)->Ok_0;
    lemma_parsed_entries(d);
    let last = m.entries.len() - 1;
    lemma_total_up_to(m, last);
    assert(m.entries.subrange(0, last) =~= m.entries.drop_last());
}

/// Whether chunk `j` lies in the run of entry `e`.
pub open spec fn run_holds(e: EntryModel, j: int) -> bool {
    e.first_chunk <= j < e.first_chunk + e.chunk_count
}

proof fn lemma_runs_ordered(m: PackModel, k1: int, k2: int)
    requires
        runs_tile_table(m),
        forall|k: int| 0 <= k < m.entries.len() ==> (#[trigger] m.entries[k]).chunk_count >= 0,
        0 <= k1 < k2 < m.entries.len(),
    ensures
        m.entries[k1].first_chunk + m.entries[k1].chunk_count <= m.entries[k2].first_chunk,
    decreases k2 - k1,
{
    assert(m.entries[k1].first_chunk + m.entries[k1].chunk_count == m.entries[k1 + 1].first_chunk);
    if k1 + 1 < k2 {
        lemma_runs_ordered(m, k1 + 1, k2);
        assert(m.entries[k1 + 1].chunk_count >= 0);
    }
}

proof fn lemma_find_run(m: PackModel, j: int, k: int) -> (w: int)
    requires
        runs_tile_table(m),
        forall|i: int| 0 <= i < m.entries.len() ==> (#[trigger] m.entries[i]).chunk_count >= 0,
        0 <= k < m.entries.len(),
        m.entries[k].first_chunk <= j < m.chunk_sizes.len(),
    ensures
        0 <= w < m.entries.len(),
        run_holds(m.entries[w], j),
    decreases m.entries.len() - k,
{
    if j < m.entries[k].first_chunk + m.entries[k].chunk_count {
        k
    } else {
        assert(m.entries[k].first_chunk + m.entries[k].chunk_count == m.entries[k + 1].first_chunk);
        lemma_find_run(m, j, k + 1)
    }
}

/// Where the entries' chunk runs follow one another and cover the chunk
/// table, each chunk of the table lies in the run of exactly one entry.
pub proof fn lemma_each_chunk_in_one_run(d: Seq<u8>, j: int)
    requires
        parse_spec(d) is Ok,
        runs_tile_table(parse_spec(d)->Ok_0),
        0 <= j < chunk_count_of(d),
    ensures
        exists|k: int|
            0 <= k < parse_spec(d)->Ok_0.entries.len() && run_holds(
                #[trigger] parse_spec(d)->Ok_0.entries[k],
                j,
            ),
        forall|k1: int, k2: int|
            0 <= k1 < parse_spec(d)->Ok_0.entries.len() && 0 <= k2
                < parse_spec(d)->Ok_0.entries.len() && run_holds(
                #[trigger] parse_spec(d)->Ok_0.entries[k1],
                j,
            ) && run_holds(#[trigger] parse_spec(d)->Ok_0.entries[k2], j) ==> k1 == k2,
{
    let m = parse_spec(d)->Ok_0;
    lemma_parsed_entries(d);
    assert forall|k: int| 0 <= k < m.entries.len() implies (#[trigger] m.entries[k]).chunk_count
        >= 0 by {
        assert(entry_ok(m.chunk_sizes, m.entries[k], k));
    }
    let w = lemma_find_run(m, j, 0);
    assert(run_holds(m.entries[w], j));
    assert forall|k1: int, k2: int|
        0 <= k1 < m.entries.len() && 0 <= k2 < m.entries.len() && run_holds(
            #[trigger] m.entries[k1],
            j,
        ) && run_holds(#[trigger] m.entries[k2], j) implies k1 == k2 by {
        if k1 < k2 {
            lemma_runs_ordered(m, k1, k2);
        } else if k2 < k1 {
            lemma_runs_ordered(m, k2, k1);
        }
    }
}

/// Entry records start at multiple of four bytes from the start of the
/// archive, the first one right after the tables. A record at such a position
/// whose path has `path_len` bytes before its terminator is followed by
/// `3 - path_len % 4` padding bytes, and the next record starts again at a
/// multiple of four.
pub proof fn lemma_record_padding(d: Seq<u8>, p: int, path_len: int)
    requires
        p >= 0,
        p % 4 == 0,
        path_len >= 0,
    ensures
        tables_end(d) % 4 == 0,
        align4(p + 16 + path_len + 1) == p + 16 + path_len + 1 + (3 - path_len % 4),
        align4(p + 16 + path_len + 1) % 4 == 0,
{
}

/// An archive whose first four bytes are not the signature is refused as such.
pub proof fn lemma_bad_signature(d: Seq<u8>)
    requires
        d.len() >= 4,
        le32(d, 0) != PACK_MAGIC,
    ensures
        parse_spec(d) == Err::<PackModel, PackError>(PackError::InvalidSignature),
{
}

/// An archive with the signature and another version is refused as unsupported.
pub proof fn lemma_bad_version(d: Seq<u8>)
    requires
        d.len() >= 8,
        le32(d, 0) == PACK_MAGIC,
        le32(d, 4) != PACK_VERSION,
    ensures
        parse_spec(d) == Err::<PackModel, PackError>(PackError::UnsupportedVersion),
{
}

/// The little-endian integer in the four bytes of `d` at `p`.
pub fn read_u32_le(d: &[u8], p: usize) -> (r: u32)
    requires
        p + 4 <= d@.len(),
    ensures
        r == le32(d@, p as int),
{
    d[p] as u32 + d[p + 1] as u32 * 256 + d[p + 2] as u32 * 65536 + d[p + 3] as u32 * 16777216
}

proof fn lemma_prefix_sum_le(s: Seq<u32>, j: int)
    requires
        0 <= j <= s.len(),
    ensures
        sum_sizes(s.subrange(0, j)) <= sum_sizes(s),
    decreases s.len(),
{
    if j < s.len() {
        lemma_prefix_sum_le(s.drop_last(), j);
        assert(s.drop_last().subrange(0, j) =~= s.subrange(0, j));
    } else {
        assert(s.subrange(0, j) =~= s);
    }
}

/// The `n` little-endian integers of `d` that start at `start`.
fn read_table(d: &[u8], start: usize, n: u32) -> (r: Vec<u32>)
    requires
        start + 4 * n <= d@.len(),
    ensures
        r@ == u32_table(d@, start as int, n as int),
{
    let mut r: Vec<u32> = Vec::new();
    let mut k: u32 = 0;
    let mut pos: usize = start;
    let len = d.len();
    while k < n
        invariant
            len == d@.len(),
            start + 4 * n <= d@.len(),
            k <= n,
            pos == start + 4 * k,
            r@ =~= u32_table(d@, start as int, k as int),
        decreases n - k,
    {
        let v = read_u32_le(d, pos);
        r.push(v);
        k = k + 1;
        pos = pos + 4;
        assert(r@ =~= u32_table(d@, start as int, k as int));
    }
    r
}

/// Each chunk's offset from `base`, or `None` where the data would run past
/// the range of 64-bit offsets.
fn chunk_offsets(sizes: &Vec<u32>, base: u64) -> (r: Option<Vec<u64>>)
    ensures
        r is None <==> base + sum_sizes(sizes@) > u64::MAX,
        r is Some ==> r->0@.map_values(|x: u64| x as int) == chunk_offsets_of(sizes@, base as int),
{
    let mut r: Vec<u64> = Vec::new();
    let mut cur: u64 = base;
    let mut j: usize = 0;
    while j < sizes.len()
        invariant
            j <= sizes@.len(),
            cur == base + sum_sizes(sizes@.subrange(0, j as int)),
            r@.len() == j,
            forall|k: int| 0 <= k < j ==> #[trigger] r@[k] == base + sum_sizes(sizes@.subrange(0, k)),
        decreases sizes.len() - j,
    {
        assert(sizes@.subrange(0, j + 1).drop_last() =~= sizes@.subrange(0, j as int));
        r.push(cur);
        match cur.checked_add(sizes[j] as u64) {
            Some(c) => {
                cur = c;
            },
            None => {
                proof {
                    lemma_prefix_sum_le(sizes@, j + 1);
                }
                return None;
            },
        }
        j = j + 1;
    }
    assert(sizes@.subrange(0, j as int) =~= sizes@);
    assert(r@.map_values(|x: u64| x as int) =~= chunk_offsets_of(sizes@, base as int));
    Some(r)
}

/// How many chunks from `first` on it takes for their sizes to reach `target`;
/// `None` if the chunk table ends first.
fn chunk_run(sizes: &Vec<u32>, first: u32, target: u32) -> (r: Option<u32>)
    requires
        sizes@.len() <= u32::MAX,
    ensures
        match run_len(sizes@, first as int, 0, target as int, 0) {
            Some(c) => r == Some(c as u32) && 0 <= c && (c > 0 ==> first + c <= sizes@.len()),
            None => r is None,
        },
{
    let mut acc: u64 = 0;
    let mut j: usize = first as usize;
    let mut n: u32 = 0;
    while acc < target as u64
        invariant
            sizes@.len() <= u32::MAX,
            j == first + n,
            n == 0 || j <= sizes@.len(),
            acc < 0x1_0000_0000 * 2,
            run_len(sizes@, j as int, acc as int, target as int, n as int) == run_len(
                sizes@,
                first as int,
                0,
                target as int,
                0,
            ),
        decreases sizes@.len() + 1 - j,
    {
        if j >= sizes.len() {
            return None;
        }
        acc = acc + sizes[j] as u64;
        j = j + 1;
        n = n + 1;
    }
    Some(n)
}

/// The first position at or after `q` that holds a zero byte (or the length of `d`).
fn zero_index(d: &[u8], q: usize) -> (r: usize)
    requires
        q <= d@.len(),
    ensures
        r == zero_from(d@, q as int),
        q <= r <= d@.len(),
{
    let mut z = q;
    while z < d.len() && d[z] != 0
        invariant
            q <= z <= d@.len(),
            zero_from(d@, z as int) == zero_from(d@, q as int),
        decreases d@.len() - z,
    {
        z = z + 1;
    }
    z
}

/// Reads the archive `d`: the header, the entry-offset and chunk-size tables,
/// and every entry record with the run of chunks that holds it.
pub fn parse_pack(d: &[u8]) -> (r: Result<Pack, PackError>)
    ensures
        match parse_spec(d@) {
            Ok(m) => r is Ok && r->Ok_0@ == m && pack_wf(m),
            Err(e) => r is Err && r->Err_0 == e,
        },
        r is Ok ==> r->Ok_0@.entries.len() == entry_count_of(d@),
        r is Ok ==> r->Ok_0@.chunk_sizes.len() == chunk_count_of(d@),
        r is Ok ==> forall|k: int|
            0 <= k < r->Ok_0@.entries.len() ==> entry_ok(
                r->Ok_0@.chunk_sizes,
                #[trigger] r->Ok_0@.entries[k],
                k,
            ),
{
    let len = d.len();
    if len < 4 {
        return Err(PackError::Truncated { offset: 0 });
    }
    if read_u32_le(d, 0) != PACK_MAGIC {
        return Err(PackError::InvalidSignature);
    }
    if len < 8 {
        return Err(PackError::Truncated { offset: 4 });
    }
    if read_u32_le(d, 4) != PACK_VERSION {
        return Err(PackError::UnsupportedVersion);
    }
    if len < 20 {
        return Err(PackError::Truncated { offset: (len - len % 4) as u64 });
    }
    let n_entries = read_u32_le(d, 8);
    let section_size = read_u32_le(d, 12);
    let n_chunks = read_u32_le(d, 16);
    let end: u64 = 20 + 4 * n_entries as u64 + 4 * n_chunks as u64;
    if (len as u64) < end {
        return Err(PackError::Truncated { offset: (len - len % 4) as u64 });
    }
    let entry_offsets = read_table(d, 20, n_entries);
    let sizes = read_table(d, 20 + 4 * n_entries as usize, n_chunks);
    let base: u64 = end + section_size as u64;
    let offsets = match chunk_offsets(&sizes, base) {
        None => {
            return Err(PackError::OffsetOverflow);
        },
        Some(o) => o,
    };
    let ghost offs = offsets@.map_values(|x: u64| x as int);
    assert(offs.len() == offsets@.len());
    assert(tables_end(d@) == end);
    assert(data_base(d@) == base);
    let ghost start = entries_from(d@, sizes@, offs, end as int, 0, n_entries as int, Seq::empty());
    assert(parse_spec(d@) == match start {
        Ok(es) => Ok(
            PackModel {
                entry_offsets: u32_table(d@, 20, entry_count_of(d@)),
                chunk_sizes: sizes@,
                chunk_offsets: offs,
                entries: es,
            },
        ),
        Err(e) => Err::<PackModel, PackError>(e),
    });
    let mut entries: Vec<Entry> = Vec::new();
    let mut pos: u128 = end as u128;
    let mut i: u32 = 0;
    assert(entries@.map_values(|e: Entry| e@) =~= Seq::<EntryModel>::empty());
    while i < n_entries
        invariant
            len == d@.len(),
            parse_spec(d@) == match start {
                Ok(es) => Ok(
                    PackModel {
                        entry_offsets: u32_table(d@, 20, entry_count_of(d@)),
                        chunk_sizes: sizes@,
                        chunk_offsets: offs,
                        entries: es,
                    },
                ),
                Err(e) => Err::<PackModel, PackError>(e),
            },
            entry_offsets@ == u32_table(d@, 20, entry_count_of(d@)),
            n_entries as int == entry_count_of(d@),
            sizes@ == u32_table(d@, 20 + 4 * entry_count_of(d@), chunk_count_of(d@)),
            sizes@.len() == n_chunks,
            offsets@.len() == sizes@.len(),
            offs == offsets@.map_values(|x: u64| x as int),
            pos <= len + 3,
            i <= n_entries,
            entries@.len() == i,
            entries_from(d@, sizes@, offs, pos as int, i as int, n_entries as int, entries@.map_values(|e: Entry| e@)) == start,
            forall|k: int|
                #![trigger entries@[k]]
                0 <= k < entries@.len() ==> (entries@[k].chunk_count > 0 ==> entries@[k].first_chunk
                    + entries@[k].chunk_count <= sizes@.len()),
        decreases n_entries - i,
    {
        if pos + 16 > len as u128 {
            let off: u64 = if (len as u128) <= pos {
                len as u64
            } else {
                (pos + 4 * ((len as u128 - pos) / 4)) as u64
            };
            assert(off == u32_fail(len as int, pos as int));
            assert(start == Err::<Seq<EntryModel>, PackError>(PackError::Truncated { offset: off }));
            return Err(PackError::Truncated { offset: off });
        }
        let p = pos as usize;
        let data_offset = read_u32_le(d, p);
        let first = read_u32_le(d, p + 4);
        let size_on_disk = read_u32_le(d, p + 8);
        let stored = read_u32_le(d, p + 12);
        let q = p + 16;
        let z = zero_index(d, q);
        if z >= len {
            assert(start == Err::<Seq<EntryModel>, PackError>(PackError::Truncated { offset: q as u64 }));
            return Err(PackError::Truncated { offset: q as u64 });
        }
        let count = match chunk_run(&sizes, first, stored) {
            None => {
                assert(start == Err::<Seq<EntryModel>, PackError>(PackError::ChunkRunOutOfRange { entry: i }));
                return Err(PackError::ChunkRunOutOfRange { entry: i });
            },
            Some(c) => c,
        };
        if count > 0 && offsets[first as usize] != data_offset as u64 {
            assert(start == Err::<Seq<EntryModel>, PackError>(PackError::OffsetMismatch { entry: i }));
            return Err(PackError::OffsetMismatch { entry: i });
        }
        let path = null_string_text(slice_subrange(d, q, z));
        let e = Entry {
            index: i,
            path,
            data_offset,
            first_chunk: first,
            chunk_count: count,
            size_on_disk,
            size_in_pack: stored,
        };
        let ghost before = entries@.map_values(|e: Entry| e@);
        entries.push(e);
        assert(entries@.map_values(|e: Entry| e@) =~= before.push(e@));
        let next: u128 = z as u128 + 1;
        pos = if next % 4 == 0 {
            next
        } else {
            next + (4 - next % 4)
        };
        i = i + 1;
    }
    let pack = Pack { entry_offsets, chunk_sizes: sizes, chunk_offsets: offsets, entries };
    proof {
        let m = parse_spec(d@);
        assert(m is Ok);
        lemma_parsed_entries(d@);
        assert(pack@.entries =~= m->Ok_0.entries);
    }
    Ok(pack)
}

} // verus!
