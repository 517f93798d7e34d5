use bitdasm::builder::{AsmBuilder, InsArg};
use bitdasm::ins::fmt::{decode_signed, parse_cmd, parse_cmd_arg, ArgSpecifier};
use bitdasm::ins::VarBuf;
use bitdasm::Error;

fn buf_with(var: char, bits: &[u8]) -> VarBuf {
    let mut buf = VarBuf::new();
    for b in bits {
        buf.push_bit(var, *b);
    }
    buf
}

#[test]
fn signed_decode_is_width_correct() {
    assert_eq!(decode_signed(0b1111111, 7), -1);
    assert_eq!(decode_signed(0b0111111, 7), 63);
    assert_eq!(decode_signed(0b1000000, 7), -64);
}

#[test]
fn signed_decode_more_widths() {
    assert_eq!(decode_signed(1, 1), -1);
    assert_eq!(decode_signed(0, 1), 0);
    assert_eq!(decode_signed(0x8000_0000, 32), i32::MIN);
    assert_eq!(decode_signed(0xFFFF_FFFF, 32), -1);
    assert_eq!(decode_signed(0x7FFF_FFFF, 32), i32::MAX);
}

#[test]
fn offset16_adds_sixteen() {
    // Raw field value 5 with the Offset16 transform yields 21.
    let arg = parse_cmd_arg("Uk").unwrap();
    let buf = buf_with('k', &[1, 0, 1]);
    assert_eq!(arg.format(&buf), "0x15");
}

#[test]
fn wide_doubles_unsigned() {
    // Raw field value 9 with the Wide transform yields 18.
    let arg = parse_cmd_arg("Wk").unwrap();
    let buf = buf_with('k', &[1, 0, 0, 1]);
    assert_eq!(arg.format(&buf), "0x12");
}

#[test]
fn wide_doubles_signed() {
    // A three-bit field of 0b101 decodes signed to -3; Wide yields -6.
    let arg = parse_cmd_arg("WSk").unwrap();
    let buf = buf_with('k', &[1, 0, 1]);
    assert_eq!(arg.format(&buf), ".-6");
}

#[test]
fn signed_positive_renders_plus() {
    let arg = parse_cmd_arg("Sk").unwrap();
    let buf = buf_with('k', &[0, 1, 0, 1]);
    assert_eq!(arg.format(&buf), ".+5");
}

#[test]
fn register_tags_small_values() {
    let arg = parse_cmd_arg("Rd").unwrap();
    let buf = buf_with('d', &[1, 1, 1, 1, 1]);
    assert_eq!(arg.format(&buf), "r31");
}

#[test]
fn register_leaves_large_values_unsigned() {
    // A six-bit field of 40 is over 31, so Register leaves it a plain value.
    let arg = parse_cmd_arg("Rk").unwrap();
    let buf = buf_with('k', &[1, 0, 1, 0, 0, 0]);
    assert_eq!(arg.format(&buf), "0x28");
}

#[test]
fn offset16_then_register() {
    // An upper-half register field: raw 2, biased by 16, then tagged.
    let arg = parse_cmd_arg("RUd").unwrap();
    let buf = buf_with('d', &[0, 0, 1, 0]);
    assert_eq!(arg.format(&buf), "r18");
}

#[test]
fn plain_value_renders_two_digit_hex() {
    let arg = parse_cmd_arg("k").unwrap();
    assert_eq!(arg.format(&buf_with('k', &[0, 0, 0, 0, 0, 1, 0, 1])), "0x05");
    assert_eq!(arg.format(&buf_with('k', &[1, 1, 1, 1, 1, 1, 1, 1])), "0xff");
    let mut buf = VarBuf::new();
    for _ in 0..9 {
        buf.push_bit('k', 1);
    }
    assert_eq!(arg.format(&buf), "0x1ff");
}

#[test]
fn cmd_arg_chain_order_is_right_to_left() {
    let arg = parse_cmd_arg("RWd").unwrap();
    assert_eq!(arg.var, 'd');
    assert_eq!(arg.format, vec![ArgSpecifier::Wide, ArgSpecifier::Register]);
}

#[test]
fn cmd_arg_rejects_unknown_specifier() {
    assert_eq!(parse_cmd_arg("Xd").map(|a| a.var), Err(Error::MalformedCommand));
}

#[test]
fn cmd_arg_rejects_empty_token() {
    assert_eq!(parse_cmd_arg("").map(|a| a.var), Err(Error::MalformedCommand));
}

#[test]
fn cmd_arg_rejects_non_letter_variable() {
    assert_eq!(parse_cmd_arg("5").map(|a| a.var), Err(Error::MalformedCommand));
    assert_eq!(parse_cmd_arg("R0").map(|a| a.var), Err(Error::MalformedCommand));
}

#[test]
fn parse_cmd_name_only() {
    let c = parse_cmd("nop").unwrap();
    assert_eq!(c.name(), "nop");
    assert_eq!(c.args.len(), 0);
}

#[test]
fn parse_cmd_with_operands() {
    let c = parse_cmd("ldi Rd, Sk").unwrap();
    assert_eq!(c.name, "ldi");
    assert_eq!(c.args.len(), 2);
    assert_eq!(c.args[0].var, 'd');
    assert_eq!(c.args[0].format, vec![ArgSpecifier::Register]);
    assert_eq!(c.args[1].var, 'k');
    assert_eq!(c.args[1].format, vec![ArgSpecifier::Signed]);
}

#[test]
fn parse_cmd_trailing_space_means_no_operands() {
    let c = parse_cmd("nop ").unwrap();
    assert_eq!(c.name(), "nop");
    assert_eq!(c.args.len(), 0);
}

#[test]
fn parse_cmd_bad_operand_fails() {
    assert_eq!(parse_cmd("mov Xd").map(|c| c.name), Err(Error::MalformedCommand));
    assert_eq!(parse_cmd("mov d,, r").map(|c| c.name), Err(Error::MalformedCommand));
}

#[test]
fn write_cmd_joins_operands() {
    let c = parse_cmd("movw RWd, RWr").unwrap();
    let mut buf = VarBuf::new();
    for b in [0u8, 0, 0, 0] {
        buf.push_bit('d', b);
    }
    for b in [0u8, 0, 0, 1] {
        buf.push_bit('r', b);
    }
    let mut out = String::from("X");
    c.write_cmd(&buf, &mut out);
    assert_eq!(out, "Xmovw r0, r2\n");
}

#[test]
fn write_cmd_without_operands() {
    let c = parse_cmd("reti").unwrap();
    let buf = VarBuf::new();
    let mut out = String::new();
    c.write_cmd(&buf, &mut out);
    assert_eq!(out, "reti\n");
}

#[test]
fn builder_formats_each_operand_kind() {
    let mut b = AsmBuilder::new();
    assert_eq!(b.buf, "");
    b.push_ins("ldi", &[InsArg::Reg(16), InsArg::Val(255)]);
    assert_eq!(b.buf, "ldi    r16, ff\n");
    b.push_ins("rjmp", &[InsArg::Offset(-4)]);
    assert_eq!(b.buf, "ldi    r16, ff\nrjmp    .-4\n");
    b.push_ins("nop", &[]);
    assert_eq!(b.buf, "ldi    r16, ff\nrjmp    .-4\nnop    \n");
}

#[test]
fn builder_hex_and_offset_edges() {
    let mut b = AsmBuilder::new();
    b.push_ins("x", &[InsArg::Val(5), InsArg::Val(0x100), InsArg::Offset(0)]);
    assert_eq!(b.buf, "x    05, 100, .+0\n");
}

#[test]
fn error_messages() {
    assert_eq!(Error::MalformedPattern.message(), "malformed pattern");
    assert_eq!(Error::MalformedCommand.message(), "malformed command");
    assert_eq!(
        Error::UndecodableInstruction(0x1A).message(),
        "failed to decode instruction at 0x1a"
    );
}
