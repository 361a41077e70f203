use fzmenu::font::{Font, FormatError};

fn header(text: &str) -> Vec<u8> {
    text.as_bytes().to_vec()
}

/// A 64 by 6 atlas: glyphs of 2 by 2 pixels. The glyph of ' ' (row 0,
/// column 0) is a diagonal, the glyph of 'A' (row 1, column 1) has its top
/// row set; every other pixel is clear.
fn small_atlas() -> Vec<u8> {
    let mut bytes = header("P4\n64 6\n");
    let mut bits = vec![0u8; 48];
    bits[0] = 0b1000_0000; // (0,0)
    bits[8] = 0b0100_0000; // (1,1)
    bits[16] = 0b0011_0000; // (2,2) and (3,2)
    bytes.extend_from_slice(&bits);
    bytes
}

#[test]
fn decode_recovers_injected_glyph_bits() {
    let font = Font::from_pbm(&small_atlas()).unwrap();
    assert_eq!(font.width, 2);
    assert_eq!(font.height, 2);
    assert_eq!(font.glyphs.len(), 96);
    assert_eq!(font.get_glyph(' ').unwrap(), &vec![255, 0, 0, 255]);
    assert_eq!(font.get_glyph('A').unwrap(), &vec![255, 255, 0, 0]);
    assert_eq!(font.get_glyph('B').unwrap(), &vec![0, 0, 0, 0]);
}

#[test]
fn single_pixel_cells_follow_bit_order() {
    // 32 by 3: one pixel per glyph, one bit per slot.
    let mut bytes = header("P4\n32 3\n");
    let mut bits = vec![0u8; 12];
    bits[0] = 0b1000_0001; // slots 0 and 7
    bits[11] = 0b0000_0010; // slot 94
    bytes.extend_from_slice(&bits);
    let font = Font::from_pbm(&bytes).unwrap();
    assert_eq!(font.get_glyph(' ').unwrap(), &vec![255]);
    assert_eq!(font.get_glyph('\'').unwrap(), &vec![255]);
    assert_eq!(font.get_glyph('!').unwrap(), &vec![0]);
    assert_eq!(font.get_glyph('~').unwrap(), &vec![255]);
}

#[test]
fn glyphs_exist_exactly_for_printable_ascii() {
    let font = Font::from_pbm(&small_atlas()).unwrap();
    for c in ' '..='~' {
        assert!(font.get_glyph(c).is_some(), "{:?}", c);
    }
    for c in ['\u{7f}', '\n', '\u{1f}', '\0', 'é', '€'] {
        assert!(font.get_glyph(c).is_none(), "{:?}", c);
    }
}

#[test]
fn comment_lines_are_skipped() {
    let mut bytes = header("# made by hand\nP4\n# size follows\n32 3\n");
    bytes.extend_from_slice(&[0xff; 12]);
    let font = Font::from_pbm(&bytes).unwrap();
    assert_eq!(font.width, 1);
    assert_eq!(font.height, 1);
    assert_eq!(font.get_glyph('z').unwrap(), &vec![255]);
}

#[test]
fn wrong_magic_is_rejected() {
    let mut bytes = header("P5\n32 3\n");
    bytes.extend_from_slice(&[0; 12]);
    assert_eq!(Font::from_pbm(&bytes).err(), Some(FormatError::BadMagic));
    assert_eq!(Font::from_pbm(b"").err(), Some(FormatError::BadMagic));
    assert_eq!(Font::from_pbm(b"# only a comment").err(), Some(FormatError::BadMagic));
    assert_eq!(Font::from_pbm(b"P44\n32 3\n").err(), Some(FormatError::BadMagic));
}

#[test]
fn malformed_size_line_is_rejected() {
    assert_eq!(Font::from_pbm(b"P4").err(), Some(FormatError::BadDimensions));
    assert_eq!(Font::from_pbm(b"P4\n32\n").err(), Some(FormatError::BadDimensions));
    assert_eq!(Font::from_pbm(b"P4\n32 x\n").err(), Some(FormatError::BadDimensions));
    assert_eq!(Font::from_pbm(b"P4\n32  3\n").err(), Some(FormatError::BadDimensions));
    assert_eq!(Font::from_pbm(b"P4\n32 3 1\n").err(), Some(FormatError::BadDimensions));
    assert_eq!(Font::from_pbm(b"P4\n 32 3\n").err(), Some(FormatError::BadDimensions));
    assert_eq!(
        Font::from_pbm(b"P4\n99999999999999999999999 3\n").err(),
        Some(FormatError::BadDimensions)
    );
}

#[test]
fn atlas_shape_must_divide_into_cells() {
    let mut bytes = header("P4\n33 3\n");
    bytes.extend_from_slice(&[0; 64]);
    assert_eq!(Font::from_pbm(&bytes).err(), Some(FormatError::InvalidAtlasShape));
    let mut bytes = header("P4\n32 4\n");
    bytes.extend_from_slice(&[0; 64]);
    assert_eq!(Font::from_pbm(&bytes).err(), Some(FormatError::InvalidAtlasShape));
    assert_eq!(Font::from_pbm(b"P4\n0 3\n").err(), Some(FormatError::InvalidAtlasShape));
    assert_eq!(Font::from_pbm(b"P4\n32 0\n").err(), Some(FormatError::InvalidAtlasShape));
}

#[test]
fn short_bitmap_is_rejected() {
    let mut bytes = header("P4\n32 3\n");
    bytes.extend_from_slice(&[0; 11]);
    assert_eq!(Font::from_pbm(&bytes).err(), Some(FormatError::TruncatedBitmap));
    assert_eq!(Font::from_pbm(b"P4\n32 3").err(), Some(FormatError::TruncatedBitmap));
}

#[test]
fn parse_unpacks_most_significant_bit_first() {
    let (w, h, px) = Font::parse_pbm(b"P4\n8 1\n\xa5").unwrap();
    assert_eq!((w, h), (8, 1));
    assert_eq!(px, vec![255, 0, 255, 0, 0, 255, 0, 255]);
    let (w, h, px) = Font::parse_pbm(b"P4\n7 2").unwrap();
    assert_eq!((w, h), (7, 2));
    assert!(px.is_empty());
}
