//! Reassembly of packed files from their chunks.

use vstd::prelude::*;
use vstd::slice::slice_subrange;
use crate::foreign::{glob_match_path, glob_matches, lzo1x_decompressed, lzo_decompress};
use crate::format::{pack_wf, EntryModel, Pack, PackModel};
use crate::lzo::{lzo_refs_in_range, lzo_stream_in_range};

verus! {

/// The codec's block size: a chunk stored at this length holds raw bytes.
pub const BLOCK_SIZE: u32 = 65536;

/// Why an entry could not be reassembled.
#[derive(Debug, Clone, Copy, PartialEq, Eq, Structural)]
pub enum ExtractError {
    /// Chunk `chunk` lies beyond the end of the archive.
    ChunkOutOfBounds { chunk: u32 },
    /// Chunk `chunk` was taken for compressed data and does not decompress
    /// to at most one block.
    Decompress { chunk: u32 },
    /// The reassembled bytes number `actual`, not the declared `expected`.
    SizeMismatch { expected: u32, actual: u64 },
}

/// A chunk is taken for raw bytes when it fills a whole block, or when its
/// stored bytes exactly complete the entry.
pub open spec fn chunk_is_raw(stored: int, written: int, declared: int) -> bool {
    stored == BLOCK_SIZE || written + stored == declared
}

/// Whether a chunk of `stored` bytes, after `written` bytes of output, of an
/// entry of `declared` bytes, is copied as it is rather than decompressed.
pub fn is_raw_chunk(stored: u32, written: usize, declared: u32) -> (r: bool)
    ensures
        r == chunk_is_raw(stored as int, written as int, declared as int),
{
    stored == BLOCK_SIZE || (stored <= declared && written as u64 == (declared - stored) as u64)
}

/// The output of chunks `j` to `end` of the archive `d`, appended to `out`,
/// for an entry of `declared` bytes.
pub open spec fn decode_from(
    d: Seq<u8>,
    m: PackModel,
    j: int,
    end: int,
    out: Seq<u8>,
    declared: int,
) -> Result<Seq<u8>, ExtractError>
    decreases end - j,
{
    if j >= end {
        if out.len() == declared {
            Ok(out)
        } else {
            Err(ExtractError::SizeMismatch { expected: declared as u32, actual: out.len() as u64 })
        }
    } else {
        let off = m.chunk_offsets[j];
        let size = m.chunk_sizes[j] as int;
        if off + size > d.len() {
            Err(ExtractError::ChunkOutOfBounds { chunk: j as u32 })
        } else {
            let piece = d.subrange(off, off + size);
            if chunk_is_raw(size, out.len() as int, declared) {
                decode_from(d, m, j + 1, end, out + piece, declared)
            } else if !lzo_refs_in_range(piece) {
                Err(ExtractError::Decompress { chunk: j as u32 })
            } else {
                match lzo1x_decompressed(piece) {
                    None => Err(ExtractError::Decompress { chunk: j as u32 }),
                    Some(x) => if x.len() > BLOCK_SIZE {
                        Err(ExtractError::Decompress { chunk: j as u32 })
                    } else {
                        decode_from(d, m, j + 1, end, out + x, declared)
                    },
                }
            }
        }
    }
}

/// The contents of entry `e` of the archive `d`, parsed as `m`.
pub open spec fn entry_contents(d: Seq<u8>, m: PackModel, e: EntryModel) -> Result<
    Seq<u8>,
    ExtractError,
> {
    decode_from(d, m, e.first_chunk, e.first_chunk + e.chunk_count, Seq::empty(), e.size_on_disk)
}

proof fn lemma_decode_from_size(
    d: Seq<u8>,
    m: PackModel,
    j: int,
    end: int,
    out: Seq<u8>,
    declared: int,
)
    requires
        decode_from(d, m, j, end, out, declared) is Ok,
    ensures
        decode_from(d, m, j, end, out, declared)->Ok_0.len() == declared,
    decreases end - j,
{
    if j < end {
        let off = m.chunk_offsets[j];
        let size = m.chunk_sizes[j] as int;
        let piece = d.subrange(off, off + size);
        if chunk_is_raw(size, out.len() as int, declared) {
            lemma_decode_from_size(d, m, j + 1, end, out + piece, declared);
        } else {
            lemma_decode_from_size(d, m, j + 1, end, out + lzo1x_decompressed(piece)->0, declared);
        }
    }
}

/// Whenever an entry is reassembled, the result has exactly the entry's
/// declared size.
pub proof fn lemma_contents_have_declared_size(d: Seq<u8>, m: PackModel, e: EntryModel)
    requires
        entry_contents(d, m, e) is Ok,
    ensures
        entry_contents(d, m, e)->Ok_0.len() == e.size_on_disk,
{
    lemma_decode_from_size(d, m, e.first_chunk, e.first_chunk + e.chunk_count, Seq::empty(), e.size_on_disk);
}

/// Appends the bytes of `b` to `out`.
fn append_bytes(out: &mut Vec<u8>, b: &[u8])
    ensures
        final(out)@ == old(out)@ + b@,
{
    let mut k: usize = 0;
    while k < b.len()
        invariant
            k <= b@.len(),
            out@ == old(out)@ + b@.subrange(0, k as int),
        decreases b@.len() - k,
    {
        out.push(b[k]);
        k = k + 1;
        assert(out@ =~= old(out)@ + b@.subrange(0, k as int));
    }
    assert(b@.subrange(0, k as int) =~= b@);
}

/// Reassembles entry `i` of `pack` from the archive bytes `d`: its chunks in
/// order, each copied or decompressed, and the total held to the declared size.
pub fn extract_entry(pack: &Pack, d: &[u8], i: usize) -> (r: Result<Vec<u8>, ExtractError>)
    requires
        pack_wf(pack@),
        i < pack@.entries.len(),
    ensures
        match entry_contents(d@, pack@, pack@.entries[i as int]) {
            Ok(b) => r is Ok && r->Ok_0@ == b,
            Err(e) => r is Err && r->Err_0 == e,
        },
{
    let entries = pack.entries();
    let e = &entries[i];
    assert(e@ == pack@.entries[i as int]);
    let first = e.first_chunk as usize;
    let count = e.chunk_count as usize;
    let declared = e.size_on_disk;
    let ghost target = entry_contents(d@, pack@, pack@.entries[i as int]);
    let mut out: Vec<u8> = Vec::new();
    if count == 0 {
        if declared == 0 {
            return Ok(out);
        }
        return Err(ExtractError::SizeMismatch { expected: declared, actual: 0 });
    }
    let end = first + count;
    let mut j = first;
    while j < end
        invariant
            pack_wf(pack@),
            first <= j <= end <= pack@.chunk_sizes.len(),
            end <= u32::MAX,
            decode_from(d@, pack@, j as int, end as int, out@, declared as int) == target,
            target == decode_from(d@, pack@, first as int, end as int, Seq::empty(), declared as int),
            i < pack@.entries.len(),
            target == entry_contents(d@, pack@, pack@.entries[i as int]),
        decreases end - j,
    {
        let c = pack.chunk(j);
        let stop = match c.offset.checked_add(c.size as u64) {
            Some(s) if s <= d.len() as u64 => s,
            _ => {
                assert(d@.len() == d.len());
                assert(decode_from(d@, pack@, j as int, end as int, out@, declared as int)
                    == Err::<Seq<u8>, ExtractError>(ExtractError::ChunkOutOfBounds { chunk: j as u32 }));
                return Err(ExtractError::ChunkOutOfBounds { chunk: j as u32 });
            },
        };
        let piece = slice_subrange(d, c.offset as usize, stop as usize);
        if is_raw_chunk(c.size, out.len(), declared) {
            append_bytes(&mut out, piece);
        } else {
            let decoded = if lzo_stream_in_range(piece) {
                match lzo_decompress(piece, BLOCK_SIZE as usize) {
                    Ok(x) => if x.len() <= BLOCK_SIZE as usize {
                        Some(x)
                    } else {
                        None
                    },
                    Err(_) => None,
                }
            } else {
                None
            };
            match decoded {
                Some(x) => {
                    append_bytes(&mut out, x.as_slice());
                },
                None => {
                    assert(decode_from(d@, pack@, j as int, end as int, out@, declared as int)
                        == Err::<Seq<u8>, ExtractError>(ExtractError::Decompress { chunk: j as u32 }));
                    return Err(ExtractError::Decompress { chunk: j as u32 });
                },
            }
        }
        j = j + 1;
    }
    if out.len() as u64 != declared as u64 {
        return Err(ExtractError::SizeMismatch { expected: declared, actual: out.len() as u64 });
    }
    Ok(out)
}

/// Whether an entry at `path` is extracted under `filter`: every entry when
/// there is none, else those whose path the glob pattern matches.
pub fn entry_selected(filter: Option<&str>, path: &str) -> (r: bool)
    ensures
        r == match filter {
            None => true,
            Some(p) => glob_matches(p@, path@),
        },
{
    match filter {
        None => true,
        Some(p) => glob_match_path(p, path),
    }
}

} // verus!
