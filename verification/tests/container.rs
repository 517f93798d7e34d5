use bitdasm::ihex::read_ihex;
use bitdasm::ins::parse_instructions;
use bitdasm::translator::translate;

#[test]
fn data_record_bytes_are_pair_swapped() {
    // Payload bytes 0x01 0x02 come back pair-swapped.
    let text = ":020000000102FB\n:00000001FF";
    assert_eq!(read_ihex(text), Some(vec![0x02, 0x01]));
}

#[test]
fn lone_trailing_byte_stays_in_place() {
    let text = ":03000000010203F7\n:00000001FF";
    assert_eq!(read_ihex(text), Some(vec![0x02, 0x01, 0x03]));
}

#[test]
fn records_concatenate_in_file_order() {
    let text = ":020000000102FB\n:020002000304F5\n:00000001FF";
    assert_eq!(read_ihex(text), Some(vec![0x02, 0x01, 0x04, 0x03]));
}

#[test]
fn eof_record_alone_gives_empty_buffer() {
    assert_eq!(read_ihex(":00000001FF"), Some(vec![]));
}

#[test]
fn reading_stops_at_eof_record() {
    let text = ":020000000102FB\n:00000001FF\nthis text is never read";
    assert_eq!(read_ihex(text), Some(vec![0x02, 0x01]));
}

#[test]
fn empty_input_is_rejected() {
    assert_eq!(read_ihex(""), None);
}

#[test]
fn bad_hex_digit_is_rejected() {
    assert_eq!(read_ihex(":01000000G0AA\n:00000001FF"), None);
}

#[test]
fn lowercase_digits_are_rejected() {
    assert_eq!(read_ihex(":02000000abcdFB\n:00000001FF"), None);
}

#[test]
fn odd_payload_is_rejected() {
    assert_eq!(read_ihex(":00000000012\n:00000001FF"), None);
}

#[test]
fn short_line_is_rejected() {
    assert_eq!(read_ihex(":0000\n:00000001FF"), None);
}

#[test]
fn empty_payload_record_adds_nothing() {
    assert_eq!(read_ihex(":00000000FC\n:00000001FF"), Some(vec![]));
}

#[test]
fn container_to_assembly_end_to_end() {
    // The 16-bit word 0x0112 stands little-endian in the container; the
    // reader swaps the pair, the driver reads it back big-endian.
    let table = "0000 0001 dddd rrrr => movw RWd, RWr";
    let pats = parse_instructions(table).unwrap();
    let data = read_ihex(":020000001201EA\n:00000001FF").unwrap();
    assert_eq!(data, vec![0x01, 0x12]);
    let out = translate(&pats, &data).unwrap();
    assert_eq!(out, "   0: movw r2, r4\n\n");
}

#[test]
fn rendering_helpers_pad_as_documented() {
    assert_eq!(bitdasm::text::dec_chars(0), vec!['0']);
    assert_eq!(bitdasm::text::dec_chars(1234567890), "1234567890".chars().collect::<Vec<_>>());
    assert_eq!(bitdasm::text::hex2_chars(0), vec!['0', '0']);
    assert_eq!(bitdasm::text::hex2_chars(0xAB), vec!['a', 'b']);
    assert_eq!(bitdasm::text::hex2_chars(0x123), vec!['1', '2', '3']);
    assert_eq!(bitdasm::text::hex_pad4_chars(0), vec![' ', ' ', ' ', '0']);
    assert_eq!(bitdasm::text::hex_pad4_chars(0xAB), vec![' ', ' ', 'a', 'b']);
    assert_eq!(bitdasm::text::hex_pad4_chars(0x1234), vec!['1', '2', '3', '4']);
    assert_eq!(
        bitdasm::text::hex_pad4_chars(0xABCDE),
        vec!['a', 'b', 'c', 'd', 'e']
    );
}
