//! A table-driven disassembler for fixed-width instruction words.
//!
//! An instruction table, given as text, pairs bit-level mask patterns with
//! output commands.  The library compiles the table, matches raw words
//! against the masks while capturing named bit-fields, turns the captured
//! fields into formatted operands, and walks a byte stream producing one
//! line of assembly text per decoded instruction.

use vstd::prelude::*;

pub mod bits;
pub mod builder;
pub mod ihex;
pub mod ins;
pub mod text;
pub mod translator;

verus! {

/// Why a table failed to compile or a stream failed to decode.
#[derive(Debug, Clone, Copy, PartialEq, Eq, Structural)]
pub enum Error {
    /// A mask line held a bad character or a length other than 8, 16 or 32.
    MalformedPattern,
    /// A command line held an unknown transform letter or a bad operand.
    MalformedCommand,
    /// No pattern in the table matched the word at this byte offset.
    UndecodableInstruction(usize),
}

/// The diagnostic text of an error.
pub open spec fn error_text(e: Error) -> Seq<char> {
    match e {
        Error::MalformedPattern => "malformed pattern"@,
        Error::MalformedCommand => "malformed command"@,
        Error::UndecodableInstruction(off) => "failed to decode instruction at 0x"@
            + crate::text::hex_digits(off as nat),
    }
}

impl Error {
    /// A human-readable description, with the offset of an undecodable
    /// instruction in hexadecimal.
    pub fn message(&self) -> (r: String)
        ensures
            r@ == error_text(*self),
    {
        match self {
            Error::MalformedPattern => {
                let r = String::from_str("malformed pattern");
                r
            },
            Error::MalformedCommand => {
                let r = String::from_str("malformed command");
                r
            },
            Error::UndecodableInstruction(off) => {
                let mut r = String::from_str("failed to decode instruction at 0x");
                let d = crate::text::hex_chars(*off as u64);
                crate::text::append_chars(&mut r, &d);
                proof {
                    assert((*off as u64) as nat == *off as nat);
                }
                r
            },
        }
    }
}

} // verus!
