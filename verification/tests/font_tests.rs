use vectomancy::font_source::{
    char_role, is_woff2, pick_glyph, prepare_font_bytes, stream_overruns, unescape_chars, unescape_line_breaks,
    CharRole, FontData,
};
use vectomancy::woff2_header::{
    compressed_stream_extent, find_compressed_stream_bounds, get_255_u16, get_base_128, stream_end_in_range,
};

fn header(flavor: &[u8; 4], num_tables: u16, compressed: u32) -> Vec<u8> {
    let mut h = vec![0u8; 48];
    h[0..4].copy_from_slice(b"wOF2");
    h[4..8].copy_from_slice(flavor);
    h[12..14].copy_from_slice(&num_tables.to_be_bytes());
    h[20..24].copy_from_slice(&compressed.to_be_bytes());
    h
}

fn chars(s: &str) -> Vec<char> {
    s.chars().collect()
}

#[test]
fn base_128_reads_values_and_advances() {
    let mut off = 0;
    assert_eq!(get_base_128(&[0x3F], &mut off), Ok(63));
    assert_eq!(off, 1);
    let mut off = 1;
    assert_eq!(get_base_128(&[0xAA, 0x81, 0x00], &mut off), Ok(128));
    assert_eq!(off, 3);
    let mut off = 0;
    assert_eq!(get_base_128(&[0x8F, 0xFF, 0xFF, 0xFF, 0x7F], &mut off), Ok(0xFFFF_FFFF));
    assert_eq!(off, 5);
}

#[test]
fn base_128_refusals() {
    let mut off = 0;
    assert_eq!(get_base_128(&[], &mut off), Err("Truncated base 128".to_string()));
    assert_eq!(off, 0);
    let mut off = 0;
    assert_eq!(get_base_128(&[0x80, 0x01], &mut off), Err("Leading zero in base 128".to_string()));
    assert_eq!(off, 1);
    let mut off = 0;
    assert_eq!(get_base_128(&[0xFF, 0xFF, 0xFF, 0xFF, 0xFF], &mut off), Err("Overflow in base 128".to_string()));
    let mut off = 0;
    assert_eq!(
        get_base_128(&[0x81, 0x81, 0x81, 0x81, 0x81], &mut off),
        Err("More than 5 bytes in base 128".to_string())
    );
    assert_eq!(off, 5);
    let mut off = 0;
    assert_eq!(get_base_128(&[0x81], &mut off), Err("Truncated base 128".to_string()));
}

#[test]
fn u255_reads_each_form() {
    let mut off = 0;
    assert_eq!(get_255_u16(&[10], &mut off), Ok(10));
    assert_eq!(off, 1);
    let mut off = 0;
    assert_eq!(get_255_u16(&[253, 1, 2], &mut off), Ok(258));
    assert_eq!(off, 3);
    let mut off = 0;
    assert_eq!(get_255_u16(&[255, 5], &mut off), Ok(258));
    assert_eq!(off, 2);
    let mut off = 0;
    assert_eq!(get_255_u16(&[254, 0], &mut off), Ok(506));
    assert_eq!(off, 2);
}

#[test]
fn u255_refusals() {
    let mut off = 0;
    assert_eq!(get_255_u16(&[], &mut off), Err("Truncated 255_u16".to_string()));
    let mut off = 0;
    assert_eq!(get_255_u16(&[253, 1], &mut off), Err("Truncated 255_u16 word".to_string()));
    let mut off = 0;
    assert_eq!(get_255_u16(&[255], &mut off), Err("Truncated 255_u16 byte 1".to_string()));
    let mut off = 0;
    assert_eq!(get_255_u16(&[254], &mut off), Err("Truncated 255_u16 byte 2".to_string()));
}

#[test]
fn stream_bounds_after_table_directory() {
    // glyf with transformation version 0 carries a transform length.
    let mut f = header(&[0, 1, 0, 0], 1, 5);
    f.extend_from_slice(&[0x0A, 0x05, 0x03]);
    assert_eq!(find_compressed_stream_bounds(&f), Ok((51, 56)));
    // another table with version 0 is a null transform.
    let mut f = header(&[0, 1, 0, 0], 2, 7);
    f.extend_from_slice(&[0x01, 0x05, 0x3F, b'a', b'b', b'c', b'd', 0x81, 0x00]);
    assert_eq!(find_compressed_stream_bounds(&f), Ok((57, 64)));
}

#[test]
fn stream_bounds_of_a_collection() {
    let mut f = header(b"ttcf", 1, 2);
    f.extend_from_slice(&[0x01, 0x05]);
    f.extend_from_slice(&[0, 2, 0, 0]); // collection version
    f.push(1); // one font
    f.push(1); // with one table
    f.extend_from_slice(b"true"); // its flavor
    f.push(0); // table index
    assert_eq!(find_compressed_stream_bounds(&f), Ok((61, 63)));
}

#[test]
fn stream_bounds_refusals() {
    assert_eq!(find_compressed_stream_bounds(&[0u8; 10]), Err("Truncated header".to_string()));
    let mut f = header(&[0, 1, 0, 0], 0, 0);
    f[0] = b'x';
    assert_eq!(find_compressed_stream_bounds(&f), Err("Invalid magic word".to_string()));
    let f = header(&[0, 1, 0, 0], 1, 0);
    assert_eq!(find_compressed_stream_bounds(&f), Err("Truncated table directory".to_string()));
    let mut f = header(&[0, 1, 0, 0], 1, 0);
    f.extend_from_slice(&[0x3F, b'a', b'b']);
    assert_eq!(find_compressed_stream_bounds(&f), Err("Truncated table directory tag".to_string()));
    let mut f = header(b"ttcf", 0, 0);
    f.extend_from_slice(&[0, 2]);
    assert_eq!(find_compressed_stream_bounds(&f), Err("Truncated collection header version".to_string()));
    let mut f = header(b"ttcf", 0, 0);
    f.extend_from_slice(&[0, 2, 0, 0, 1, 1, b't']);
    assert_eq!(find_compressed_stream_bounds(&f), Err("Truncated font entry flavor".to_string()));
    let mut f = header(&[0, 1, 0, 0], 1, 0);
    f.extend_from_slice(&[0x0A, 0x80]);
    assert_eq!(find_compressed_stream_bounds(&f), Err("Leading zero in base 128".to_string()));
}

#[test]
fn other_fonts_pass_through() {
    let ttf = vec![0, 1, 0, 0, 9, 8, 7];
    assert_eq!(prepare_font_bytes(&ttf), FontData::Sfnt(ttf.clone()));
    let empty: Vec<u8> = Vec::new();
    assert_eq!(prepare_font_bytes(&empty), FontData::Sfnt(empty.clone()));
}

#[test]
fn woff2_signature_is_recognised() {
    assert!(is_woff2(&header(&[0, 1, 0, 0], 0, 0)));
    assert!(is_woff2(b"wOF2"));
    assert!(!is_woff2(b"wOF"));
    assert!(!is_woff2(b"wOFF"));
    assert!(!is_woff2(&[0, 1, 0, 0, 9, 8, 7]));
}

#[test]
fn woff2_is_cut_one_byte_past_its_stream() {
    // the stream ends at 54, one byte before the end of the file.
    let mut f = header(&[0, 1, 0, 0], 1, 4);
    f.extend_from_slice(&[0x01, 0x05, 1, 2, 3, 4, 5]);
    assert_eq!(prepare_font_bytes(&f), FontData::Woff2(f.clone()));
    // the stream ends at 52: the bytes after 53 are cut.
    let mut f = header(&[0, 1, 0, 0], 1, 2);
    f.extend_from_slice(&[0x01, 0x05, 1, 2, 3, 4, 5]);
    assert_eq!(prepare_font_bytes(&f), FontData::Woff2(f[..53].to_vec()));
}

#[test]
fn woff2_stream_at_end_of_file_is_padded() {
    let mut f = header(&[0, 1, 0, 0], 1, 4);
    f.extend_from_slice(&[0x01, 0x05, 1, 2, 3, 4]);
    let mut padded = f.clone();
    padded.push(0);
    assert_eq!(prepare_font_bytes(&f), FontData::Woff2(padded));
}

#[test]
fn unreadable_woff2_header_is_passed_whole() {
    let f = header(&[0, 1, 0, 0], 1, 0);
    assert_eq!(prepare_font_bytes(&f), FontData::Woff2(f.clone()));
}

#[test]
fn stream_extent_and_overrun() {
    let mut f = header(&[0, 1, 0, 0], 1, 4);
    f.extend_from_slice(&[0x01, 0x05, 1, 2, 3, 4]);
    assert_eq!(compressed_stream_extent(&f), Ok((50, 4)));
    assert!(stream_end_in_range(&f));
    assert!(!stream_overruns(&f));
    let mut g = header(&[0, 1, 0, 0], 1, 100);
    g.extend_from_slice(&[0x01, 0x05]);
    assert_eq!(compressed_stream_extent(&g), Ok((50, 100)));
    assert!(stream_overruns(&g));
    assert!(!stream_overruns(&[0, 1, 0, 0, 9, 8, 7]));
    assert!(!stream_overruns(&header(&[0, 1, 0, 0], 1, 0)));
    assert_eq!(compressed_stream_extent(&[0u8; 10]), Err("Truncated header".to_string()));
    assert!(stream_end_in_range(&[0u8; 10]));
}

#[test]
fn escapes_become_line_breaks() {
    assert_eq!(unescape_line_breaks(&chars("a\\nb\\rc")), chars("a\nb\rc"));
    assert_eq!(unescape_line_breaks(&chars("Line 4\\nLine 5")), chars("Line 4\nLine 5"));
    assert_eq!(unescape_line_breaks(&chars("no escapes")), chars("no escapes"));
    assert_eq!(unescape_line_breaks(&chars("\\\\n")), chars("\\\n"));
    assert_eq!(unescape_chars(&chars("\\x\\n"), 'x', '!'), chars("!\\n"));
}

#[test]
fn roles_of_characters() {
    for c in ['\n', '\u{0b}', '\u{0c}', '\u{2028}', '\u{2029}'] {
        assert_eq!(char_role(c), CharRole::LineBreak);
    }
    for c in ['\r', '\u{07}', '\u{7f}', '\u{85}'] {
        assert_eq!(char_role(c), CharRole::Skip);
    }
    for c in ['a', ' ', '⬚', '\u{a0}'] {
        assert_eq!(char_role(c), CharRole::Glyph);
    }
}

#[test]
fn missing_glyphs_fall_back() {
    assert_eq!(pick_glyph('a', 7, 3, 2), 7);
    assert_eq!(pick_glyph('a', 0, 3, 2), 3);
    assert_eq!(pick_glyph('a', 0, 0, 2), 2);
    assert_eq!(pick_glyph(' ', 0, 3, 2), 0);
}
