use sc2replay::crypto::{build_table, decrypt, hash};
use sc2replay::replay::Replay;
use sc2replay::schema::{Int, ProtocolTypeInfo, Struct};
use sc2replay::value::DecoderResult;
use sc2replay::error::DecodeError;
use sc2replay::mpq::{
    accept_decompressed, decompress, parse_header, MPQArchive, FLAG_COMPRESSED, FLAG_ENCRYPTED,
    FLAG_EXISTS, FLAG_SINGLE_UNIT,
};

use std::io::Write;

fn encrypt(table: &[u32], data: &[u8], key: u32) -> Vec<u8> {
    let mut seed1 = key;
    let mut seed2: u32 = 0xEEEE_EEEE;
    let mut out = vec![];
    for chunk in data.chunks(4) {
        let plain = u32::from_le_bytes([chunk[0], chunk[1], chunk[2], chunk[3]]);
        seed2 = seed2.wrapping_add(table[0x400 + (seed1 & 0xFF) as usize]);
        let cipher = plain ^ seed1.wrapping_add(seed2);
        seed1 = ((!seed1) << 21).wrapping_add(0x1111_1111) | (seed1 >> 11);
        seed2 = plain.wrapping_add(seed2).wrapping_add(seed2 << 5).wrapping_add(3);
        out.extend(cipher.to_le_bytes());
    }
    out
}

struct File {
    name: &'static str,
    bytes: Vec<u8>,
    size: u32,
    flags: u32,
}

/// An archive with a plain header, a hash table and a block table of one
/// entry per file, and the files' bytes after the tables.
fn archive(files: &[File]) -> Vec<u8> {
    let t = build_table();
    let n = files.len() as u32;
    let hash_offset = 32u32;
    let block_offset = hash_offset + 16 * n;
    let mut data_offset = block_offset + 16 * n;
    let mut hash_plain: Vec<u8> = vec![];
    let mut block_plain: Vec<u8> = vec![];
    let mut contents: Vec<u8> = vec![];
    for (i, f) in files.iter().enumerate() {
        hash_plain.extend(hash(&t, f.name.as_bytes(), 1).to_le_bytes());
        hash_plain.extend(hash(&t, f.name.as_bytes(), 2).to_le_bytes());
        hash_plain.extend(0u16.to_le_bytes());
        hash_plain.extend(0u16.to_le_bytes());
        hash_plain.extend((i as u32).to_le_bytes());
        block_plain.extend(data_offset.to_le_bytes());
        block_plain.extend((f.bytes.len() as u32).to_le_bytes());
        block_plain.extend(f.size.to_le_bytes());
        block_plain.extend(f.flags.to_le_bytes());
        contents.extend(&f.bytes);
        data_offset += f.bytes.len() as u32;
    }
    let mut out = vec![];
    out.extend(b"MPQ\x1a");
    out.extend(32u32.to_le_bytes());
    out.extend(data_offset.to_le_bytes());
    out.extend(0u16.to_le_bytes());
    out.extend(3u16.to_le_bytes());
    out.extend(hash_offset.to_le_bytes());
    out.extend(block_offset.to_le_bytes());
    out.extend(n.to_le_bytes());
    out.extend(n.to_le_bytes());
    out.extend(encrypt(&t, &hash_plain, hash(&t, b"(hash table)", 3)));
    out.extend(encrypt(&t, &block_plain, hash(&t, b"(block table)", 3)));
    out.extend(contents);
    out
}

fn plain_file(name: &'static str, bytes: Vec<u8>) -> File {
    let size = bytes.len() as u32;
    File { name, bytes, size, flags: FLAG_EXISTS | FLAG_SINGLE_UNIT }
}

#[test]
fn table_keys_are_the_published_ones() {
    let t = build_table();
    assert_eq!(t.len(), 1280);
    assert_eq!(t[0], 0x55C6_36E2);
    assert_eq!(hash(&t, b"(hash table)", 3), 0xC3AF_3770);
    assert_eq!(hash(&t, b"(block table)", 3), 0xEC83_B3A3);
    assert_eq!(hash(&build_table(), b"(hash table)", 3), hash(&t, b"(hash table)", 3));
}

#[test]
fn hash_ignores_letter_case() {
    let t = build_table();
    for ht in 0..4 {
        assert_eq!(hash(&t, b"a", ht), hash(&t, b"A", ht));
        assert_eq!(hash(&t, b"replay.details", ht), hash(&t, b"REPLAY.DETAILS", ht));
    }
    assert_ne!(hash(&t, b"ab", 1), hash(&t, b"ba", 1));
    assert_ne!(hash(&t, b"replay.details", 1), hash(&t, b"replay.details", 2));
}

#[test]
fn decrypt_undoes_encrypt() {
    let t = build_table();
    let plain: Vec<u8> = (0u8..32).collect();
    let cipher = encrypt(&t, &plain, 0x1234_5678);
    assert_ne!(cipher, plain);
    assert_eq!(decrypt(&t, &cipher, 0x1234_5678), plain);
    assert!(decrypt(&t, &[], 7).is_empty());
}

#[test]
fn read_file_returns_stored_bytes() {
    let content: Vec<u8> = vec![10, 20, 30, 40, 50, 60, 70, 80, 90, 100];
    let a = MPQArchive::new(archive(&[plain_file("test", content.clone())])).unwrap();
    assert_eq!(a.read_file("test", false).unwrap(), Some(content));
}

#[test]
fn read_file_zero_size_is_empty() {
    let f = File { name: "empty", bytes: vec![], size: 0, flags: FLAG_EXISTS };
    let a = MPQArchive::new(archive(&[f])).unwrap();
    assert_eq!(a.read_file("empty", false).unwrap(), Some(vec![]));
}

#[test]
fn resolve_missing_and_present() {
    let a = MPQArchive::new(archive(&[
        plain_file("replay.details", vec![1, 2]),
        plain_file("replay.tracker.events", vec![3]),
    ]))
    .unwrap();
    assert_eq!(a.resolve("replay.initData"), None);
    assert_eq!(a.read_file("replay.initData", false).unwrap(), None);
    let d = a.resolve("replay.details").unwrap();
    let e = a.resolve("replay.tracker.events").unwrap();
    assert_eq!(d.archived_size, 2);
    assert_eq!(e.archived_size, 1);
    assert_ne!(d.offset, e.offset);
    assert_eq!(a.resolve("REPLAY.DETAILS"), Some(d));
}

#[test]
fn compressed_stored_method() {
    let mut bytes = vec![0u8];
    bytes.extend([9, 8, 7]);
    let f = File { name: "f", bytes, size: 5, flags: FLAG_EXISTS | FLAG_SINGLE_UNIT | FLAG_COMPRESSED };
    let a = MPQArchive::new(archive(&[f])).unwrap();
    assert_eq!(a.read_file("f", false).unwrap(), Some(vec![9, 8, 7]));
}

#[test]
fn compressed_with_bzip2() {
    let text = b"replay tracker events replay tracker events replay tracker events".to_vec();
    let mut enc = bzip2::write::BzEncoder::new(Vec::new(), bzip2::Compression::best());
    enc.write_all(&text).unwrap();
    let packed = enc.finish().unwrap();
    let mut bytes = vec![16u8];
    bytes.extend(&packed);
    let f = File {
        name: "z",
        bytes,
        size: text.len() as u32,
        flags: FLAG_EXISTS | FLAG_SINGLE_UNIT | FLAG_COMPRESSED,
    };
    let a = MPQArchive::new(archive(&[f])).unwrap();
    assert_eq!(a.read_file("z", true).unwrap(), Some(text.clone()));
    let mut raw = vec![16u8];
    raw.extend(&packed);
    assert_eq!(decompress(&raw, text.len()).unwrap(), text);
    assert_eq!(decompress(&raw, text.len() + 1), Err(DecodeError::Corrupted));
    assert_eq!(decompress(&vec![16, 1, 2, 3], 3), Err(DecodeError::Corrupted));
}

#[test]
fn accept_decompressed_checks_size() {
    assert_eq!(accept_decompressed(Some(vec![1, 2]), 2), Ok(vec![1, 2]));
    assert_eq!(accept_decompressed(Some(vec![1, 2]), 3), Err(DecodeError::Corrupted));
    assert_eq!(accept_decompressed(None, 0), Err(DecodeError::Corrupted));
}

#[test]
fn unknown_compression_method() {
    let f = File { name: "f", bytes: vec![7, 1, 2], size: 9, flags: FLAG_EXISTS | FLAG_SINGLE_UNIT | FLAG_COMPRESSED };
    let a = MPQArchive::new(archive(&[f])).unwrap();
    assert_eq!(a.read_file("f", false), Err(DecodeError::UnsupportedCompression));
}

#[test]
fn encrypted_and_multi_sector_files_are_unsupported() {
    let f = File { name: "e", bytes: vec![1, 2, 3, 4], size: 4, flags: FLAG_EXISTS | FLAG_SINGLE_UNIT | FLAG_ENCRYPTED };
    let g = File { name: "m", bytes: vec![1, 2, 3, 4], size: 4, flags: FLAG_EXISTS };
    let a = MPQArchive::new(archive(&[f, g])).unwrap();
    assert_eq!(a.read_file("e", false), Err(DecodeError::UnsupportedLayout));
    assert_eq!(a.read_file("m", false), Err(DecodeError::UnsupportedLayout));
}

#[test]
fn bad_magic_and_short_files() {
    assert!(matches!(MPQArchive::new(b"ABCD0000".to_vec()), Err(DecodeError::Corrupted)));
    assert!(matches!(MPQArchive::new(b"MP".to_vec()), Err(DecodeError::Truncated)));
    let mut data = archive(&[plain_file("x", vec![1])]);
    data.truncate(40);
    assert!(matches!(MPQArchive::new(data), Err(DecodeError::Truncated)));
}

#[test]
fn user_data_header_points_to_archive() {
    let inner = archive(&[plain_file("test", vec![5, 6, 7])]);
    let mut data = vec![];
    data.extend(b"MPQ\x1b");
    data.extend(512u32.to_le_bytes());
    data.extend(32u32.to_le_bytes());
    data.extend(4u32.to_le_bytes());
    data.extend([0xAA, 0xBB, 0xCC, 0xDD]);
    data.extend([0u8; 12]);
    data.extend(inner);
    let h = parse_header(&data).unwrap();
    assert_eq!(h.offset, 32);
    let u = h.user_data_header.as_ref().unwrap();
    assert_eq!(u.content, vec![0xAA, 0xBB, 0xCC, 0xDD]);
    assert_eq!(u.user_data_size, 512);
    let a = MPQArchive::new(data).unwrap();
    assert_eq!(a.read_file("test", false).unwrap(), Some(vec![5, 6, 7]));
}

#[test]
fn replay_parse_reads_three_streams() {
    let schema = vec![
        ProtocolTypeInfo::Struct(vec![Struct("m_a".to_string(), 1, 0)]),
        ProtocolTypeInfo::Int(Int(0, 8)),
    ];
    // one struct: kind 5, one item, tag 0, an integer 7
    let one = vec![5u8, 2, 0, 9, 14];
    let mut events = one.clone();
    events.extend([5u8, 2, 0, 9, 4]);
    let a = MPQArchive::new(archive(&[
        plain_file("replay.tracker.events", events),
        plain_file("replay.gamemetadata.json", b"{\"Title\":\"Alcyone\"}".to_vec()),
        plain_file("replay.details", one),
    ]))
    .unwrap();
    let p = Replay::parse(&a, &schema, 0, 0, vec!["WCS".to_string(), "TSL".to_string()]).unwrap();
    assert_eq!(p.player_info.len(), 1);
    assert_eq!(p.player_info[0].0, "m_a");
    assert!(matches!(p.player_info[0].1, DecoderResult::Value(7)));
    assert_eq!(p.tracker_events.len(), 2);
    assert!(matches!(p.tracker_events[1].entries[0].1, DecoderResult::Value(2)));
    assert_eq!(p.metadata, "{\"Title\":\"Alcyone\"}");
    assert_eq!(p.tags, "WCS,TSL");
}

#[test]
fn replay_parse_needs_every_stream() {
    let a = MPQArchive::new(archive(&[plain_file("replay.details", vec![1])])).unwrap();
    assert!(matches!(Replay::parse(&a, &[], 0, 0, vec![]), Err(DecodeError::Corrupted)));
}
