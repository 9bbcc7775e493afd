use pack_rust::extract::{entry_selected, extract_entry, is_raw_chunk, ExtractError, BLOCK_SIZE};
use pack_rust::listing::listing;
use pack_rust::lzo::lzo_stream_in_range;
use pack_rust::format::{parse_pack, read_u32_le, Pack, PackError, PACK_MAGIC, PACK_VERSION};

struct Spec {
    path: &'static str,
    chunks: Vec<Vec<u8>>,
    size_on_disk: u32,
}

fn put(out: &mut Vec<u8>, v: u32) {
    out.extend_from_slice(&v.to_le_bytes());
}

fn build(specs: &[Spec]) -> Vec<u8> {
    let n_entries = specs.len() as u32;
    let n_chunks: u32 = specs.iter().map(|s| s.chunks.len() as u32).sum();
    let tables_end = 20 + 4 * n_entries + 4 * n_chunks;
    let mut section_size = 0u32;
    let mut record_offsets = Vec::new();
    for s in specs {
        record_offsets.push(tables_end + section_size);
        let record = 16 + s.path.len() as u32 + 1;
        section_size += (record + 3) / 4 * 4;
    }
    let base = tables_end + section_size;
    let mut out = Vec::new();
    put(&mut out, PACK_MAGIC);
    put(&mut out, PACK_VERSION);
    put(&mut out, n_entries);
    put(&mut out, section_size);
    put(&mut out, n_chunks);
    for o in &record_offsets {
        put(&mut out, *o);
    }
    for s in specs {
        for c in &s.chunks {
            put(&mut out, c.len() as u32);
        }
    }
    let mut chunk_index = 0u32;
    let mut data_offset = base;
    for s in specs {
        let stored: u32 = s.chunks.iter().map(|c| c.len() as u32).sum();
        put(&mut out, data_offset);
        put(&mut out, chunk_index);
        put(&mut out, s.size_on_disk);
        put(&mut out, stored);
        out.extend_from_slice(s.path.as_bytes());
        out.push(0);
        while out.len() % 4 != 0 {
            out.push(0xee);
        }
        chunk_index += s.chunks.len() as u32;
        data_offset += stored;
    }
    assert_eq!(out.len() as u32, base);
    for s in specs {
        for c in &s.chunks {
            out.extend_from_slice(c);
        }
    }
    out
}

fn text(n: usize, seed: u8) -> Vec<u8> {
    (0..n).map(|i| b'a' + ((i / 7) as u8 + seed) % 5).collect()
}

fn compressed(data: &[u8]) -> Vec<u8> {
    lzokay_native::compress(data).unwrap()
}

fn sample() -> (Vec<u8>, Vec<(&'static str, Vec<u8>)>) {
    let a = text(1000, 0);
    let b1 = text(3000, 1);
    let b2 = b"tail bytes kept raw".to_vec();
    let c = b"short raw file".to_vec();
    let mut b = b1.clone();
    b.extend_from_slice(&b2);
    let specs = vec![
        Spec { path: "units/a.txt", chunks: vec![compressed(&a)], size_on_disk: a.len() as u32 },
        Spec {
            path: "units/sub/b.bin",
            chunks: vec![compressed(&b1), b2.clone()],
            size_on_disk: b.len() as u32,
        },
        Spec { path: "data/c.txt", chunks: vec![c.clone()], size_on_disk: c.len() as u32 },
    ];
    (build(&specs), vec![("units/a.txt", a), ("units/sub/b.bin", b), ("data/c.txt", c)])
}

fn paths(p: &Pack) -> Vec<String> {
    p.entries().iter().map(|e| e.path.clone()).collect()
}

#[test]
fn reads_le_integers() {
    assert_eq!(read_u32_le(&[0x50, 0x41, 0x43, 0x4b, 9], 0), PACK_MAGIC);
    assert_eq!(read_u32_le(&[9, 0, 0, 3, 0], 1), 0x0003_0000);
}

#[test]
fn entry_count_matches_header() {
    let (bytes, files) = sample();
    let pack = parse_pack(&bytes).unwrap();
    assert_eq!(pack.entries().len(), files.len());
    assert_eq!(read_u32_le(&bytes, 8) as usize, pack.entries().len());
    let total: u32 = pack.entries().iter().map(|e| e.chunk_count).sum();
    assert_eq!(total as usize, pack.chunk_count());
    assert_eq!(read_u32_le(&bytes, 16) as usize, pack.chunk_count());
    for (k, e) in pack.entries().iter().enumerate() {
        assert_eq!(e.index as usize, k);
    }
}

#[test]
fn chunk_runs_hold_stored_size() {
    let (bytes, files) = sample();
    let pack = parse_pack(&bytes).unwrap();
    assert_eq!(pack.entries()[1].chunk_count, 2);
    assert_eq!(pack.entries()[1].first_chunk, 1);
    for (k, e) in pack.entries().iter().enumerate() {
        let mut sum = 0u64;
        for j in e.first_chunk..e.first_chunk + e.chunk_count {
            let c = pack.chunk(j as usize);
            assert_eq!(c.index, j);
            sum += c.size as u64;
        }
        assert!(sum >= e.size_in_pack as u64);
        let out = extract_entry(&pack, &bytes, k).unwrap();
        assert_eq!(out.len(), e.size_on_disk as usize);
        assert_eq!(out.len(), files[k].1.len());
    }
    let run = pack.entry_chunks(1);
    assert_eq!(run.len(), 2);
    assert_eq!(run[0], pack.chunk(1));
    assert_eq!(run[1], pack.chunk(2));
    assert_eq!(run[0].offset, pack.entries()[1].data_offset as u64);
    assert_eq!(pack.chunk(0).offset, pack.entries()[0].data_offset as u64);
    assert_eq!(pack.chunk(2).offset, pack.chunk(1).offset + pack.chunk(1).size as u64);
}

#[test]
fn round_trip_raw_and_compressed() {
    let (bytes, files) = sample();
    let pack = parse_pack(&bytes).unwrap();
    assert_eq!(paths(&pack), files.iter().map(|f| f.0.to_string()).collect::<Vec<_>>());
    for (k, (_, content)) in files.iter().enumerate() {
        assert_eq!(&extract_entry(&pack, &bytes, k).unwrap(), content);
    }
    assert_eq!(pack.entry_offsets().len(), 3);
    assert_eq!(pack.entry_offsets()[0], 48);
}

#[test]
fn filter_selects_units_text_only() {
    let (bytes, _) = sample();
    let pack = parse_pack(&bytes).unwrap();
    let chosen: Vec<String> = pack
        .entries()
        .iter()
        .filter(|e| entry_selected(Some("units/*.txt"), &e.path))
        .map(|e| e.path.clone())
        .collect();
    assert_eq!(chosen, vec!["units/a.txt".to_string()]);
    assert!(!entry_selected(Some("units/*.txt"), "units/sub/b.bin"));
    assert!(!entry_selected(Some("units/*.txt"), "data/c.txt"));
    assert!(entry_selected(Some("units/**/*.bin"), "units/sub/b.bin"));
    assert!(entry_selected(Some("data/?.txt"), "data/c.txt"));
    assert!(entry_selected(None, "data/c.txt"));
    assert_eq!(paths(&parse_pack(&bytes).unwrap()).len(), 3);
}

#[test]
fn records_are_padded_to_four_bytes() {
    let names = ["abcd", "abcde", "abcdef", "abc", "x/y.txt"];
    let specs: Vec<Spec> = names
        .iter()
        .map(|n| Spec { path: n, chunks: vec![n.as_bytes().to_vec()], size_on_disk: n.len() as u32 })
        .collect();
    let bytes = build(&specs);
    let pack = parse_pack(&bytes).unwrap();
    assert_eq!(paths(&pack), names.iter().map(|n| n.to_string()).collect::<Vec<_>>());
    for (k, n) in names.iter().enumerate() {
        assert_eq!(extract_entry(&pack, &bytes, k).unwrap(), n.as_bytes().to_vec());
    }
}

#[test]
fn bad_signature_is_refused() {
    let (mut bytes, _) = sample();
    bytes[0] = b'X';
    assert!(matches!(parse_pack(&bytes), Err(PackError::InvalidSignature)));
}

#[test]
fn bad_version_is_refused() {
    let (mut bytes, _) = sample();
    bytes[5] = 1;
    assert!(matches!(parse_pack(&bytes), Err(PackError::UnsupportedVersion)));
}

#[test]
fn full_block_terminal_chunk_is_taken_raw() {
    let content = text(200_000, 3);
    let mut chunk = compressed(&content[..100_000]);
    assert!(chunk.len() < BLOCK_SIZE as usize);
    chunk.resize(BLOCK_SIZE as usize, 0);
    let specs = vec![Spec { path: "big.bin", chunks: vec![chunk.clone()], size_on_disk: 100_000 }];
    let bytes = build(&specs);
    let pack = parse_pack(&bytes).unwrap();
    assert!(is_raw_chunk(BLOCK_SIZE, 0, 100_000));
    assert_eq!(
        extract_entry(&pack, &bytes, 0),
        Err(ExtractError::SizeMismatch { expected: 100_000, actual: BLOCK_SIZE as u64 })
    );
    let specs = vec![Spec { path: "big.bin", chunks: vec![chunk.clone()], size_on_disk: BLOCK_SIZE }];
    let bytes = build(&specs);
    let pack = parse_pack(&bytes).unwrap();
    assert_eq!(extract_entry(&pack, &bytes, 0).unwrap(), chunk);
}

#[test]
fn raw_classification() {
    assert!(is_raw_chunk(65536, 10, 20));
    assert!(is_raw_chunk(10, 90, 100));
    assert!(!is_raw_chunk(10, 80, 100));
    assert!(!is_raw_chunk(200, 0, 100));
    assert!(is_raw_chunk(0, 5, 5));
}

#[test]
fn truncated_archives() {
    let (bytes, _) = sample();
    assert!(matches!(parse_pack(&bytes[..3]), Err(PackError::Truncated { offset: 0 })));
    assert!(matches!(parse_pack(&bytes[..6]), Err(PackError::Truncated { offset: 4 })));
    assert!(matches!(parse_pack(&bytes[..14]), Err(PackError::Truncated { offset: 12 })));
    assert!(matches!(parse_pack(&bytes[..30]), Err(PackError::Truncated { offset: 28 })));
    // the first record starts at 20 + 4 * 3 + 4 * 4 = 48; its path at 64
    assert!(matches!(parse_pack(&bytes[..58]), Err(PackError::Truncated { offset: 56 })));
    assert!(matches!(parse_pack(&bytes[..70]), Err(PackError::Truncated { offset: 64 })));
}

#[test]
fn chunk_run_past_table() {
    let mut bytes = build(&[Spec { path: "a", chunks: vec![b"xy".to_vec()], size_on_disk: 2 }]);
    // stored size of the only record, at 20 + 4 + 4 + 12
    bytes[40] = 9;
    assert!(matches!(parse_pack(&bytes), Err(PackError::ChunkRunOutOfRange { entry: 0 })));
}

#[test]
fn data_offset_mismatch() {
    let mut bytes = build(&[Spec { path: "a", chunks: vec![b"xy".to_vec()], size_on_disk: 2 }]);
    bytes[28] += 1;
    assert!(matches!(parse_pack(&bytes), Err(PackError::OffsetMismatch { entry: 0 })));
}

#[test]
fn extraction_errors() {
    let specs = vec![
        Spec { path: "bad.lzo", chunks: vec![vec![21]], size_on_disk: 50 },
        Spec { path: "short.raw", chunks: vec![b"abc".to_vec()], size_on_disk: 3 },
    ];
    let bytes = build(&specs);
    let pack = parse_pack(&bytes).unwrap();
    assert_eq!(extract_entry(&pack, &bytes, 0), Err(ExtractError::Decompress { chunk: 0 }));
    assert_eq!(extract_entry(&pack, &bytes[..bytes.len() - 1], 1), Err(ExtractError::ChunkOutOfBounds { chunk: 1 }));
    let block = text(BLOCK_SIZE as usize, 2);
    let specs = vec![Spec {
        path: "m",
        chunks: vec![block.clone(), b"de".to_vec()],
        size_on_disk: BLOCK_SIZE + 2,
    }];
    let bytes = build(&specs);
    let pack = parse_pack(&bytes).unwrap();
    let mut whole = block.clone();
    whole.extend_from_slice(b"de");
    assert_eq!(extract_entry(&pack, &bytes, 0).unwrap(), whole);
    let specs = vec![Spec { path: "m", chunks: vec![b"abc".to_vec()], size_on_disk: 7 }];
    let bytes = build(&specs);
    let pack = parse_pack(&bytes).unwrap();
    assert_eq!(extract_entry(&pack, &bytes, 0), Err(ExtractError::Decompress { chunk: 0 }));
}

#[test]
fn empty_archive_and_empty_entry() {
    let bytes = build(&[]);
    assert_eq!(parse_pack(&bytes).unwrap().entries().len(), 0);
    let bytes = build(&[Spec { path: "empty", chunks: vec![], size_on_disk: 0 }]);
    let pack = parse_pack(&bytes).unwrap();
    assert_eq!(pack.entries()[0].chunk_count, 0);
    assert_eq!(extract_entry(&pack, &bytes, 0).unwrap(), Vec::<u8>::new());
}

#[test]
fn listing_lines() {
    let (bytes, _) = sample();
    let pack = parse_pack(&bytes).unwrap();
    assert_eq!(
        listing(&pack, "data.pack"),
        vec![
            "data.pack: 1/3 ==> units/a.txt".to_string(),
            "data.pack: 2/3 ==> units/sub/b.bin".to_string(),
            "data.pack: 3/3 ==> data/c.txt".to_string(),
        ]
    );
    let names: Vec<String> = (0..12).map(|k| format!("f{}", k)).collect();
    let specs: Vec<Spec> = names
        .iter()
        .map(|n| Spec { path: Box::leak(n.clone().into_boxed_str()), chunks: vec![], size_on_disk: 0 })
        .collect();
    let bytes = build(&specs);
    let lines = listing(&parse_pack(&bytes).unwrap(), "p");
    assert_eq!(lines[0], "p: 1/12 ==> f0");
    assert_eq!(lines[9], "p: 10/12 ==> f9");
    assert_eq!(lines[11], "p: 12/12 ==> f11");
}

#[test]
fn back_reference_before_output_start_is_refused() {
    let stream = vec![22u8, 1, 2, 3, 4, 5, 0x40, 0xff];
    assert!(!lzo_stream_in_range(&stream));
    let specs = vec![Spec { path: "bad", chunks: vec![stream], size_on_disk: 100 }];
    let bytes = build(&specs);
    let pack = parse_pack(&bytes).unwrap();
    assert_eq!(extract_entry(&pack, &bytes, 0), Err(ExtractError::Decompress { chunk: 0 }));
}

#[test]
fn chunk_larger_than_a_block_is_refused() {
    let content = text(70_000, 4);
    let chunk = compressed(&content);
    assert!(chunk.len() != BLOCK_SIZE as usize && chunk.len() != 70_000);
    assert!(!lzo_stream_in_range(&chunk));
    let specs = vec![Spec { path: "huge", chunks: vec![chunk], size_on_disk: 70_000 }];
    let bytes = build(&specs);
    let pack = parse_pack(&bytes).unwrap();
    assert_eq!(extract_entry(&pack, &bytes, 0), Err(ExtractError::Decompress { chunk: 0 }));
}

#[test]
fn well_formed_streams_pass_the_scan() {
    assert!(lzo_stream_in_range(&compressed(&text(1000, 0))));
    assert!(lzo_stream_in_range(&compressed(&text(65_536, 1))));
    assert!(lzo_stream_in_range(&compressed(b"abcabcabcabcabcabcabcabc")));
    assert!(lzo_stream_in_range(&[]));
}
