//! Tests for archive loading, lookups and directory round-trips.

use rheretic::{Wad, WadError};

/// Build an archive image in memory: header, lump contents, then the
/// directory. Names are NUL-padded to 8 bytes.
fn make_wad(magic: &[u8; 4], lumps: &[(&[u8], Vec<u8>)]) -> Vec<u8> {
    let mut out = Vec::new();
    out.extend_from_slice(magic);
    out.extend_from_slice(&(lumps.len() as u32).to_le_bytes());
    let mut pos = 12u32;
    let mut spans = Vec::new();
    for (_, data) in lumps {
        spans.push((pos, data.len() as u32));
        pos += data.len() as u32;
    }
    let dir_offset = pos;
    out.extend_from_slice(&dir_offset.to_le_bytes());
    for (_, data) in lumps {
        out.extend_from_slice(data);
    }
    for ((name, _), (lpos, llen)) in lumps.iter().zip(spans.iter()) {
        out.extend_from_slice(&lpos.to_le_bytes());
        out.extend_from_slice(&llen.to_le_bytes());
        let mut field = [0u8; 8];
        field[..name.len()].copy_from_slice(name);
        out.extend_from_slice(&field);
    }
    out
}

#[test]
fn minimal_archive_round_trip() {
    let bytes = make_wad(b"IWAD", &[(b"DEMO".as_slice(), vec![1, 2, 3, 4])]);
    let wad = Wad::load(&bytes).expect("load");
    assert_eq!(wad.lumps.len(), 1);
    assert_eq!(wad.lumps[0].name, "DEMO");
    assert_eq!(wad.cache_lump_name("DEMO"), Some(&[1u8, 2, 3, 4][..]));
}

#[test]
fn pwad_magic_accepted() {
    let bytes = make_wad(b"PWAD", &[(b"X".as_slice(), vec![9])]);
    let wad = Wad::load(&bytes).expect("load");
    assert_eq!(wad.lumps[0].name, "X");
    assert_eq!(wad.lumps[0].data, vec![9]);
}

#[test]
fn invalid_magic_rejected() {
    let bytes = make_wad(b"ZWAD", &[(b"DEMO".as_slice(), vec![1])]);
    assert!(matches!(Wad::load(&bytes), Err(WadError::InvalidMagic)));
    let bytes = make_wad(b"IWAX", &[]);
    assert!(matches!(Wad::load(&bytes), Err(WadError::InvalidMagic)));
    // Only the first four bytes decide: everything after can be garbage.
    assert!(matches!(Wad::load(b"WADI garbage that is never read"), Err(WadError::InvalidMagic)));
}

#[test]
fn short_header_is_truncated() {
    assert!(matches!(Wad::load(b"IW"), Err(WadError::TruncatedData)));
    assert!(matches!(Wad::load(b"IWAD\x01\x00"), Err(WadError::TruncatedData)));
}

#[test]
fn truncated_directory() {
    let mut bytes = make_wad(b"IWAD", &[(b"A".as_slice(), vec![1]), (b"B".as_slice(), vec![2])]);
    // Drop the last directory record's final byte.
    bytes.pop();
    assert!(matches!(Wad::load(&bytes), Err(WadError::TruncatedData)));
}

#[test]
fn truncated_lump_contents() {
    // Directory is intact but the lump span points past the end.
    let mut out = Vec::new();
    out.extend_from_slice(b"IWAD");
    out.extend_from_slice(&1u32.to_le_bytes());
    out.extend_from_slice(&12u32.to_le_bytes());
    out.extend_from_slice(&1000u32.to_le_bytes()); // pos
    out.extend_from_slice(&4u32.to_le_bytes()); // len
    out.extend_from_slice(b"DEMO\0\0\0\0");
    assert!(matches!(Wad::load(&out), Err(WadError::TruncatedData)));
}

#[test]
fn invalid_name_rejected() {
    let bytes = make_wad(b"IWAD", &[(b"\xffBAD".as_slice(), vec![1])]);
    assert!(matches!(Wad::load(&bytes), Err(WadError::InvalidName)));
}

#[test]
fn name_error_beats_contents_truncation() {
    // The second record's name is invalid; the first lump's span is also
    // bad, but names are read before any contents.
    let mut out = Vec::new();
    out.extend_from_slice(b"IWAD");
    out.extend_from_slice(&2u32.to_le_bytes());
    out.extend_from_slice(&12u32.to_le_bytes());
    out.extend_from_slice(&9999u32.to_le_bytes());
    out.extend_from_slice(&4u32.to_le_bytes());
    out.extend_from_slice(b"GOOD\0\0\0\0");
    out.extend_from_slice(&12u32.to_le_bytes());
    out.extend_from_slice(&0u32.to_le_bytes());
    out.extend_from_slice(b"\xff\0\0\0\0\0\0\0");
    assert!(matches!(Wad::load(&out), Err(WadError::InvalidName)));
}

#[test]
fn names_trim_trailing_nuls_only() {
    let bytes = make_wad(b"IWAD", &[(b"AB".as_slice(), vec![7]), (b"A\0B".as_slice(), vec![8])]);
    let wad = Wad::load(&bytes).expect("load");
    assert_eq!(wad.lumps[0].name, "AB");
    // An embedded NUL is kept; only trailing padding is stripped.
    assert_eq!(wad.lumps[1].name, "A\0B");
    assert_eq!(wad.get_num_for_name("A\0B"), Some(1));
}

#[test]
fn eight_character_name_kept_whole() {
    let bytes = make_wad(b"IWAD", &[(b"ABCDEFGH".as_slice(), vec![1])]);
    let wad = Wad::load(&bytes).expect("load");
    assert_eq!(wad.lumps[0].name, "ABCDEFGH");
}

#[test]
fn shadowing_lookups() {
    let bytes = make_wad(
        b"IWAD",
        &[
            (b"SAME".as_slice(), vec![1, 1]),
            (b"OTHER".as_slice(), vec![9]),
            (b"SAME".as_slice(), vec![2, 2]),
        ],
    );
    let wad = Wad::load(&bytes).expect("load");
    // Forward lookup: the lowest index.
    assert_eq!(wad.get_num_for_name("SAME"), Some(0));
    assert_eq!(wad.get_num_for_name("OTHER"), Some(1));
    assert_eq!(wad.get_num_for_name("MISSING"), None);
    // By-name contents: the highest index shadows the lower one.
    assert_eq!(wad.cache_lump_name("SAME"), Some(&[2u8, 2][..]));
    assert_eq!(wad.cache_lump_name("OTHER"), Some(&[9u8][..]));
    assert_eq!(wad.cache_lump_name("MISSING"), None);
}

#[test]
fn position_lookup_bounds_checked() {
    let bytes = make_wad(b"IWAD", &[(b"A".as_slice(), vec![1]), (b"B".as_slice(), vec![2, 3])]);
    let wad = Wad::load(&bytes).expect("load");
    assert_eq!(wad.cache_lump_num(0), Some(&[1u8][..]));
    assert_eq!(wad.cache_lump_num(1), Some(&[2u8, 3][..]));
    assert_eq!(wad.cache_lump_num(2), None);
}

#[test]
fn directory_serialization_round_trip() {
    let lumps: Vec<(&[u8], Vec<u8>)> = vec![
        (b"FIRST".as_slice(), vec![1, 2, 3]),
        (b"SECOND12".as_slice(), vec![4]),
        (b"TH\0IRD".as_slice(), vec![]),
    ];
    let bytes = make_wad(b"PWAD", &lumps);
    let wad = Wad::load(&bytes).expect("load");
    let dir_offset = u32::from_le_bytes([bytes[8], bytes[9], bytes[10], bytes[11]]) as usize;
    let reserialized = wad.serialize_directory();
    assert_eq!(&bytes[dir_offset..], &reserialized[..]);
    // The parsed fields also match the records.
    assert_eq!(wad.lumps[0].pos, 12);
    assert_eq!(wad.lumps[0].len, 3);
    assert_eq!(wad.lumps[2].name, "TH\0IRD");
}

#[test]
fn empty_archive_loads() {
    let bytes = make_wad(b"IWAD", &[]);
    let wad = Wad::load(&bytes).expect("load");
    assert_eq!(wad.lumps.len(), 0);
    assert_eq!(wad.cache_lump_name("ANY"), None);
    assert!(wad.serialize_directory().is_empty());
}

#[test]
fn zero_length_lump_allowed() {
    let bytes = make_wad(b"IWAD", &[(b"EMPTY".as_slice(), vec![])]);
    let wad = Wad::load(&bytes).expect("load");
    assert_eq!(wad.cache_lump_name("EMPTY"), Some(&[][..]));
    assert_eq!(wad.lumps[0].len, 0);
}
