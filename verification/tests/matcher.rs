use bitdasm::ins::mask::parse_mask;
use bitdasm::ins::VarBuf;
use bitdasm::Error;

#[test]
fn literal_mask_accepts_exactly_one_word() {
    let mask = parse_mask("0000 0001 0000 0001").unwrap();
    assert_eq!(mask.bits(), 16);
    let mut accepted: u32 = 0;
    for w in 0u32..=0xFFFF {
        if mask.do_match(w).is_some() {
            accepted += 1;
            assert_eq!(w, 0x0101);
        }
    }
    assert_eq!(accepted, 1);
}

#[test]
fn literal_mask_rejects_on_any_flipped_bit() {
    let mask = parse_mask("1010 1010 0101 0101").unwrap();
    let word: u32 = 0xAA55;
    assert!(mask.do_match(word).is_some());
    for bit in 0..16u32 {
        assert!(mask.do_match(word ^ (1 << bit)).is_none());
    }
}

#[test]
fn split_field_round_trip() {
    // 'a' is captured at cells 0, 3 and 15: word bits 15, 12 and 0.
    let mask = parse_mask("a00a 0000 0000 000a").unwrap();
    let positions = [15u32, 12, 0];
    for w in [0x9001u32, 0x1000, 0x8000, 0x0001, 0x0000] {
        let buf = mask.do_match(w).expect("literal zero cells hold");
        let k = buf.bits_len('a').unwrap();
        assert_eq!(k, 3);
        let v = buf.get('a').unwrap();
        for (j, pos) in positions.iter().enumerate() {
            let captured_bit = (v >> (k - 1 - j)) & 1;
            let word_bit = (w >> pos) & 1;
            assert_eq!(captured_bit, word_bit);
        }
    }
}

#[test]
fn split_field_value_is_msb_first() {
    let mask = parse_mask("a00a 0000 0000 000a").unwrap();
    // Bits 15, 12, 0 of 0x9001 are 1, 1, 1.
    assert_eq!(mask.do_match(0x9001).unwrap().get('a'), Some(7));
    // Bits 15, 12, 0 of 0x1000 are 0, 1, 0.
    assert_eq!(mask.do_match(0x1000).unwrap().get('a'), Some(2));
}

#[test]
fn variables_never_block_a_match() {
    let mask = parse_mask("dddd dddd dddd dddd").unwrap();
    for w in [0u32, 1, 0x8000, 0xFFFF, 0x1234] {
        let buf = mask.do_match(w).unwrap();
        assert_eq!(buf.get('d'), Some(w));
        assert_eq!(buf.bits_len('d'), Some(16));
    }
}

#[test]
fn mask_lengths_allowed() {
    assert_eq!(parse_mask("00000000").unwrap().bits(), 8);
    assert_eq!(parse_mask("0000000000000000").unwrap().bits(), 16);
    assert_eq!(parse_mask("00000000000000000000000000000000").unwrap().bits(), 32);
}

#[test]
fn mask_bad_length_is_malformed() {
    assert_eq!(parse_mask("0000").map(|m| m.bits()), Err(Error::MalformedPattern));
    assert_eq!(parse_mask("000000000").map(|m| m.bits()), Err(Error::MalformedPattern));
    assert_eq!(parse_mask("").map(|m| m.bits()), Err(Error::MalformedPattern));
}

#[test]
fn mask_bad_character_is_malformed() {
    assert_eq!(parse_mask("0200 0000 0000 0000").map(|m| m.bits()), Err(Error::MalformedPattern));
    assert_eq!(parse_mask("0000-0000").map(|m| m.bits()), Err(Error::MalformedPattern));
}

#[test]
fn mask_case_sensitive_variables() {
    let mask = parse_mask("dDdD dDdD 0000 0000").unwrap();
    let buf = mask.do_match(0xAA00).unwrap();
    // 0xAA00 high byte is 1010 1010: 'd' takes bits 15, 13, 11, 9 = 1,1,1,1
    // and 'D' takes bits 14, 12, 10, 8 = 0,0,0,0.
    assert_eq!(buf.get('d'), Some(0b1111));
    assert_eq!(buf.get('D'), Some(0));
}

#[test]
fn var_buf_basics() {
    let mut buf = VarBuf::new();
    assert_eq!(buf.get('a'), None);
    assert_eq!(buf.bits_len('a'), None);
    buf.push_bit('a', 1);
    buf.push_bit('a', 0);
    assert_eq!(buf.get('a'), Some(2));
    assert_eq!(buf.bits_len('a'), Some(2));
    assert_eq!(buf.bits('a'), Some(2));
    assert_eq!(buf.get('b'), None);
    assert_eq!(buf.bits('b'), None);
}

#[test]
fn var_buf_thirty_two_bits() {
    let mut buf = VarBuf::new();
    for _ in 0..32 {
        buf.push_bit('z', 1);
    }
    assert_eq!(buf.get('z'), Some(u32::MAX));
    assert_eq!(buf.bits_len('z'), Some(32));
}
