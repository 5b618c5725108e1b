//! Tests for the compositor: palette activation, raw-screen blits and
//! patch blits.

use rheretic::{Framebuffer, Patch, PatchError, Pixel, Vid, VidError, Wad};

/// Build an archive image in memory: header, lump contents, then the
/// directory. Names are NUL-padded to 8 bytes.
fn build_wad(lumps: &[(&[u8], Vec<u8>)]) -> Vec<u8> {
    let mut out = Vec::new();
    out.extend_from_slice(b"IWAD");
    out.extend_from_slice(&(lumps.len() as u32).to_le_bytes());
    let mut pos = 12u32;
    let mut spans = Vec::new();
    for (_, data) in lumps {
        spans.push((pos, data.len() as u32));
        pos += data.len() as u32;
    }
    out.extend_from_slice(&pos.to_le_bytes());
    for (_, data) in lumps {
        out.extend_from_slice(data);
    }
    for ((name, _), (lpos, llen)) in lumps.iter().zip(spans.iter()) {
        out.extend_from_slice(&lpos.to_le_bytes());
        out.extend_from_slice(&llen.to_le_bytes());
        let mut field = [0u8; 8];
        field[..name.len()].copy_from_slice(name);
        out.extend_from_slice(&field);
    }
    out
}

/// A palette whose entry `i` is `(i, i+1 mod 256, i+2 mod 256)`.
fn test_palette_bytes() -> Vec<u8> {
    let mut out = Vec::new();
    for i in 0..256u32 {
        out.push(i as u8);
        out.push((i + 1) as u8);
        out.push((i + 2) as u8);
    }
    out
}

fn expected_color(index: u8) -> Pixel {
    Pixel { r: index, g: index.wrapping_add(1), b: index.wrapping_add(2), a: 255 }
}

/// A patch with one column: `{topdelta 0, length 3, pixels [1, 2, 3]}`.
fn single_column_patch() -> Vec<u8> {
    let mut p = Vec::new();
    p.extend_from_slice(&1u16.to_le_bytes()); // width
    p.extend_from_slice(&3u16.to_le_bytes()); // height
    p.extend_from_slice(&0i16.to_le_bytes()); // left
    p.extend_from_slice(&0i16.to_le_bytes()); // top
    p.extend_from_slice(&12u32.to_le_bytes()); // column 0 offset
    p.push(0); // topdelta
    p.push(3); // length
    p.push(0); // padding
    p.extend_from_slice(&[1, 2, 3]); // palette indices
    p.push(0); // trailing padding
    p.push(255); // terminator
    p
}

fn snapshot(vid: &Vid) -> Vec<Pixel> {
    let mut out = Vec::with_capacity(320 * 200);
    for y in 0..200u32 {
        for x in 0..320u32 {
            out.push(vid.pixel(x, y));
        }
    }
    out
}

#[test]
fn palette_activation_and_errors() {
    let bytes = build_wad(&[
        (b"PLAYPAL".as_slice(), test_palette_bytes()),
        (b"SHORT".as_slice(), vec![0u8; 767]),
    ]);
    let wad = Wad::load(&bytes).expect("load");
    let mut vid = Vid::new(&wad, Framebuffer::new());
    assert_eq!(
        vid.set_palette("NOPAL"),
        Err(VidError::MissingLump)
    );
    assert_eq!(
        vid.set_palette("SHORT"),
        Err(VidError::Palette(rheretic::PaletteError::Truncated))
    );
    assert_eq!(vid.set_palette("PLAYPAL"), Ok(()));
}

#[test]
fn draw_before_palette_fails() {
    let screen = vec![0u8; 320 * 200];
    let bytes = build_wad(&[(b"TITLE".as_slice(), screen)]);
    let wad = Wad::load(&bytes).expect("load");
    let mut vid = Vid::new(&wad, Framebuffer::new());
    assert_eq!(vid.draw_raw_screen("TITLE"), Err(VidError::NoPaletteActive));
    let patch = single_column_patch();
    assert_eq!(vid.draw_patch_raw(&patch, 0, 0), Err(VidError::NoPaletteActive));
}

#[test]
fn raw_screen_full_blit() {
    let mut screen = vec![0u8; 320 * 200];
    for (i, b) in screen.iter_mut().enumerate() {
        *b = (i % 256) as u8;
    }
    let bytes = build_wad(&[
        (b"PLAYPAL".as_slice(), test_palette_bytes()),
        (b"TITLE".as_slice(), screen.clone()),
    ]);
    let wad = Wad::load(&bytes).expect("load");
    let mut vid = Vid::new(&wad, Framebuffer::new());
    vid.set_palette("PLAYPAL").expect("palette");
    assert_eq!(vid.draw_raw_screen("TITLE"), Ok(()));
    for &(x, y) in &[(0u32, 0u32), (319, 0), (0, 199), (319, 199), (17, 93)] {
        let idx = screen[(y * 320 + x) as usize];
        assert_eq!(vid.pixel(x, y), expected_color(idx));
    }
    assert_eq!(vid.draw_raw_screen("MISSING"), Err(VidError::MissingLump));
}

#[test]
fn raw_blit_smaller_source_leaves_margin() {
    let bytes = build_wad(&[(b"PLAYPAL".as_slice(), test_palette_bytes())]);
    let wad = Wad::load(&bytes).expect("load");
    let mut vid = Vid::new(&wad, Framebuffer::new());
    vid.set_palette("PLAYPAL").expect("palette");
    let before = snapshot(&vid);
    let source = vec![5u8, 6, 7, 8]; // a 2x2 source
    assert_eq!(vid.blit_raw(&source, 2, 2), Ok(()));
    for y in 0..200u32 {
        for x in 0..320u32 {
            let got = vid.pixel(x, y);
            if x < 2 && y < 2 {
                let idx = source[(y * 2 + x) as usize];
                assert_eq!(got, expected_color(idx));
            } else {
                assert_eq!(got, before[(y * 320 + x) as usize]);
            }
        }
    }
}

#[test]
fn single_run_patch_writes_three_pixels() {
    let bytes = build_wad(&[
        (b"PLAYPAL".as_slice(), test_palette_bytes()),
        (b"SPRITE".as_slice(), single_column_patch()),
    ]);
    let wad = Wad::load(&bytes).expect("load");
    let mut vid = Vid::new(&wad, Framebuffer::new());
    vid.set_palette("PLAYPAL").expect("palette");
    let before = snapshot(&vid);
    assert_eq!(vid.draw_patch(0, 0, "SPRITE"), Ok(()));
    for y in 0..200u32 {
        for x in 0..320u32 {
            let got = vid.pixel(x, y);
            if x == 0 && y < 3 {
                assert_eq!(got, expected_color((y + 1) as u8));
            } else {
                assert_eq!(got, before[(y * 320 + x) as usize]);
            }
        }
    }
}

#[test]
fn patch_origin_offset_applied() {
    // left=4, top=10 shift the patch so that drawing at (4, 10) puts
    // the column at (0, 0).
    let mut p = single_column_patch();
    p[4..6].copy_from_slice(&4i16.to_le_bytes());
    p[6..8].copy_from_slice(&10i16.to_le_bytes());
    let bytes = build_wad(&[(b"PLAYPAL".as_slice(), test_palette_bytes())]);
    let wad = Wad::load(&bytes).expect("load");
    let mut vid = Vid::new(&wad, Framebuffer::new());
    vid.set_palette("PLAYPAL").expect("palette");
    assert_eq!(vid.draw_patch_raw(&p, 4, 10), Ok(()));
    assert_eq!(vid.pixel(0, 0), expected_color(1));
    assert_eq!(vid.pixel(0, 2), expected_color(3));
}

#[test]
fn oversized_bounding_box_rejected_without_writes() {
    // Declared 400 columns: wider than the framebuffer.
    let mut p = single_column_patch();
    p[0..2].copy_from_slice(&400u16.to_le_bytes());
    let bytes = build_wad(&[(b"PLAYPAL".as_slice(), test_palette_bytes())]);
    let wad = Wad::load(&bytes).expect("load");
    let mut vid = Vid::new(&wad, Framebuffer::new());
    vid.set_palette("PLAYPAL").expect("palette");
    let before = snapshot(&vid);
    assert_eq!(vid.draw_patch_raw(&p, 0, 0), Err(VidError::DestinationOutOfBounds));
    assert_eq!(snapshot(&vid), before);
    // A destination that pushes the box past the bottom is rejected too,
    // as is an origin shift that goes negative.
    let p = single_column_patch();
    assert_eq!(vid.draw_patch_raw(&p, 0, 198), Err(VidError::DestinationOutOfBounds));
    let mut p2 = single_column_patch();
    p2[4..6].copy_from_slice(&1i16.to_le_bytes());
    assert_eq!(vid.draw_patch_raw(&p2, 0, 0), Err(VidError::DestinationOutOfBounds));
    assert_eq!(snapshot(&vid), before);
}

#[test]
fn malformed_patch_data_rejected() {
    let bytes = build_wad(&[(b"PLAYPAL".as_slice(), test_palette_bytes())]);
    let wad = Wad::load(&bytes).expect("load");
    let mut vid = Vid::new(&wad, Framebuffer::new());
    vid.set_palette("PLAYPAL").expect("palette");
    // Too short for a header.
    assert_eq!(
        vid.draw_patch_raw(&[1, 0, 1, 0], 0, 0),
        Err(VidError::Patch(PatchError::OutOfBounds))
    );
    // Column offset pointing past the end of the lump.
    let mut p = single_column_patch();
    p[8..12].copy_from_slice(&999u32.to_le_bytes());
    assert_eq!(
        vid.draw_patch_raw(&p, 0, 0),
        Err(VidError::Patch(PatchError::OutOfBounds))
    );
    // A run that runs off the end of the lump.
    let mut p = single_column_patch();
    p[13] = 200; // run length 200 with only 3 pixel bytes left
    assert_eq!(
        vid.draw_patch_raw(&p, 0, 0),
        Err(VidError::Patch(PatchError::OutOfBounds))
    );
    // A run that would leave the framebuffer's bottom edge.
    let mut p = single_column_patch();
    p[12] = 250; // topdelta 250 with length 3 reaches past row 199
    assert_eq!(
        vid.draw_patch_raw(&p, 0, 0),
        Err(VidError::Patch(PatchError::OutOfBounds))
    );
    assert_eq!(vid.draw_patch(0, 0, "NOSUCH"), Err(VidError::MissingLump));
}

#[test]
fn multi_column_multi_run_patch() {
    // Two columns; the first holds two runs with a gap between them.
    let mut p = Vec::new();
    p.extend_from_slice(&2u16.to_le_bytes()); // width
    p.extend_from_slice(&10u16.to_le_bytes()); // height
    p.extend_from_slice(&0i16.to_le_bytes());
    p.extend_from_slice(&0i16.to_le_bytes());
    p.extend_from_slice(&16u32.to_le_bytes()); // column 0 offset
    p.extend_from_slice(&28u32.to_le_bytes()); // column 1 offset
    p.extend_from_slice(&[0, 2, 0, 10, 11, 0]); // run: rows 0..2
    p.extend_from_slice(&[5, 1, 0, 12, 0]); // run: row 5
    p.push(255);
    p.extend_from_slice(&[3, 2, 0, 20, 21, 0]); // run: rows 3..5
    p.push(255);
    assert_eq!(p.len(), 35);

    let bytes = build_wad(&[(b"PLAYPAL".as_slice(), test_palette_bytes())]);
    let wad = Wad::load(&bytes).expect("load");
    let mut vid = Vid::new(&wad, Framebuffer::new());
    vid.set_palette("PLAYPAL").expect("palette");
    let before = snapshot(&vid);
    assert_eq!(vid.draw_patch_raw(&p, 100, 50), Ok(()));
    for y in 0..200u32 {
        for x in 0..320u32 {
            let got = vid.pixel(x, y);
            let expect = match (x, y) {
                (100, 50) => expected_color(10),
                (100, 51) => expected_color(11),
                (100, 55) => expected_color(12),
                (101, 53) => expected_color(20),
                (101, 54) => expected_color(21),
                _ => before[(y * 320 + x) as usize],
            };
            assert_eq!(got, expect, "pixel ({}, {})", x, y);
        }
    }
}

#[test]
fn patch_header_fields() {
    let mut p = Vec::new();
    p.extend_from_slice(&17u16.to_le_bytes());
    p.extend_from_slice(&9u16.to_le_bytes());
    p.extend_from_slice(&(-3i16).to_le_bytes());
    p.extend_from_slice(&(-200i16).to_le_bytes());
    let h = Patch::read_header(&p).expect("header");
    assert_eq!(h, Patch { w: 17, h: 9, left: -3, top: -200 });
    let h2 = Patch::from_lump(&p);
    assert_eq!(h2, h);
    assert_eq!(Patch::read_header(&p[..7]), Err(PatchError::OutOfBounds));
}

#[test]
fn column_offset_table_reads() {
    let p = single_column_patch();
    assert_eq!(Patch::column_offset(&p, 0), Ok(12));
    assert_eq!(Patch::column_offset(&p, 3), Err(PatchError::OutOfBounds));
    assert_eq!(Patch::column_offset(&[0u8; 4], 0), Err(PatchError::OutOfBounds));
}

#[test]
fn framebuffer_starts_black_transparent() {
    let fb = Framebuffer::new();
    let wad = Wad::load(&build_wad(&[])).expect("load");
    let vid = Vid::new(&wad, fb);
    assert_eq!(vid.pixel(0, 0), Pixel { r: 0, g: 0, b: 0, a: 0 });
    assert_eq!(vid.pixel(319, 199), Pixel { r: 0, g: 0, b: 0, a: 0 });
}
