use bitdasm::ins::{parse_instructions, parse_pattern};
use bitdasm::translator::{read_word, translate};
use bitdasm::Error;

#[test]
fn specific_pattern_first_wins() {
    let table = "0000000100000001 => one\n00000001dddddddd => two d";
    let pats = parse_instructions(table).unwrap();
    let out = translate(&pats, &[0x01, 0x01]).unwrap();
    assert_eq!(out, "   0: one\n\n");
}

#[test]
fn swapping_rows_changes_the_winner() {
    let table = "00000001dddddddd => two d\n0000000100000001 => one";
    let pats = parse_instructions(table).unwrap();
    let out = translate(&pats, &[0x01, 0x01]).unwrap();
    assert_eq!(out, "   0: two 0x01\n\n");
}

#[test]
fn order_only_matters_on_overlap() {
    // On a word only the general row matches, order does not matter.
    let table = "0000000100000001 => one\n00000001dddddddd => two d";
    let pats = parse_instructions(table).unwrap();
    let out = translate(&pats, &[0x01, 0x07]).unwrap();
    assert_eq!(out, "   0: two 0x07\n\n");
}

#[test]
fn movw_golden_vector() {
    let table = "0000 0001 dddd rrrr => movw RWd, RWr";
    let pats = parse_instructions(table).unwrap();
    let out = translate(&pats, &[0x01, 0x01]).unwrap();
    assert_eq!(out, "   0: movw r0, r2\n\n");
}

#[test]
fn movw_distinct_fields() {
    let table = "0000 0001 dddd rrrr => movw RWd, RWr";
    let pats = parse_instructions(table).unwrap();
    let out = translate(&pats, &[0x01, 0x12]).unwrap();
    assert_eq!(out, "   0: movw r2, r4\n\n");
}

#[test]
fn empty_stream_decodes_to_empty_text() {
    let table = "0000 0001 dddd rrrr => movw RWd, RWr";
    let pats = parse_instructions(table).unwrap();
    assert_eq!(translate(&pats, &[]).unwrap(), "");
    let none = parse_instructions("").unwrap();
    assert_eq!(none.len(), 0);
    assert_eq!(translate(&none, &[]).unwrap(), "");
}

#[test]
fn trailing_partial_word_fails_at_its_offset() {
    let table = "rrrrrrrr dddddddd => dw d, r";
    let pats = parse_instructions(table).unwrap();
    let r = translate(&pats, &[0xAB, 0xCD, 0xEF]);
    assert_eq!(r, Err(Error::UndecodableInstruction(2)));
}

#[test]
fn no_match_reports_first_offset() {
    let table = "00000000 00000000 => zeros";
    let pats = parse_instructions(table).unwrap();
    assert_eq!(translate(&pats, &[0x00, 0x00, 0x00, 0x01]),
        Err(Error::UndecodableInstruction(2)));
    assert_eq!(translate(&pats, &[0x10, 0x00]), Err(Error::UndecodableInstruction(0)));
}

#[test]
fn cursor_advances_by_matched_width() {
    let table = "dddddddd dddddddd => w d";
    let pats = parse_instructions(table).unwrap();
    let out = translate(&pats, &[0x00, 0x01, 0x00, 0x02, 0x00, 0x03]).unwrap();
    assert_eq!(out, "   0: w 0x01\n\n   2: w 0x02\n\n   4: w 0x03\n\n");
}

#[test]
fn widths_can_mix_in_one_table() {
    let table = "0000 0001 dddd rrrr => movw RWd, RWr\n11111111 => halt";
    let pats = parse_instructions(table).unwrap();
    let out = translate(&pats, &[0x01, 0x12, 0xFF]).unwrap();
    assert_eq!(out, "   0: movw r2, r4\n\n   2: halt\n\n");
}

#[test]
fn four_byte_pattern_decodes() {
    let table = "0000 0001 0000 0010 kkkk kkkk kkkk kkkk => call k";
    let pats = parse_instructions(table).unwrap();
    let out = translate(&pats, &[0x01, 0x02, 0xAB, 0xCD]).unwrap();
    assert_eq!(out, "   0: call 0xabcd\n\n");
}

#[test]
fn offsets_render_in_hex_min_four_columns() {
    let table = "dddddddd => b d";
    let pats = parse_instructions(table).unwrap();
    let data = vec![0u8; 18];
    let out = translate(&pats, &data).unwrap();
    assert!(out.starts_with("   0: b 0x00\n\n   1: b 0x00\n\n"));
    assert!(out.contains("\n   a: b 0x00\n"));
    assert!(out.contains("\n  11: b 0x00\n"));
}

#[test]
fn pattern_row_needs_one_arrow() {
    assert_eq!(parse_pattern("00000000").map(|p| p.len()), Err(Error::MalformedPattern));
    assert_eq!(
        parse_pattern("00000000 => a => b").map(|p| p.len()),
        Err(Error::MalformedPattern)
    );
}

#[test]
fn pattern_row_parses_and_reports_width() {
    let p = parse_pattern("00000000 => nop").unwrap();
    assert_eq!(p.len(), 1);
    assert_eq!(p.cmd().name(), "nop");
    let p16 = parse_pattern("0000 0000 0000 0000 => nop").unwrap();
    assert_eq!(p16.len(), 2);
    let p32 = parse_pattern("00000000 00000000 00000000 00000000 => nop").unwrap();
    assert_eq!(p32.len(), 4);
}

#[test]
fn pattern_do_match_delegates_to_mask() {
    let p = parse_pattern("0000 0001 dddd rrrr => movw RWd, RWr").unwrap();
    assert!(p.do_match(0x0112).is_some());
    assert!(p.do_match(0x0212).is_none());
    let buf = p.do_match(0x0112).unwrap();
    assert_eq!(buf.get('d'), Some(1));
    assert_eq!(buf.get('r'), Some(2));
}

#[test]
fn blank_lines_are_skipped() {
    let table = "\n\n00000000 => nop\n\n\n11111111 => halt\n";
    let pats = parse_instructions(table).unwrap();
    assert_eq!(pats.len(), 2);
    let out = translate(&pats, &[0x00, 0xFF]).unwrap();
    assert_eq!(out, "   0: nop\n\n   1: halt\n\n");
}

#[test]
fn first_bad_row_error_is_returned() {
    assert_eq!(
        parse_instructions("0000 => nop").map(|v| v.len()),
        Err(Error::MalformedPattern)
    );
    assert_eq!(
        parse_instructions("00000000 => mov Xd").map(|v| v.len()),
        Err(Error::MalformedCommand)
    );
    assert_eq!(
        parse_instructions("00000000 => nop\n0000 => bad\n00000000 => mov Xd").map(|v| v.len()),
        Err(Error::MalformedPattern)
    );
}

#[test]
fn read_word_is_big_endian() {
    assert_eq!(read_word(&[0x12, 0x34], 0, 2), 0x1234);
    assert_eq!(read_word(&[0xAB], 0, 1), 0xAB);
    assert_eq!(read_word(&[0x01, 0x02, 0xAB, 0xCD], 0, 4), 0x0102ABCD);
    assert_eq!(read_word(&[0xFF, 0x12, 0x34, 0x00], 1, 2), 0x1234);
}
