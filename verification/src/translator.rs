//! The disassembly driver: walks the byte stream, tries the table's
//! patterns in order at each cursor position, renders the first match and
//! advances by that pattern's byte width.

use vstd::prelude::*;
use vstd::string::StringExecFns;
use vstd::arithmetic::power2::{lemma2_to64, lemma_pow2_adds, pow2};
use crate::ins::fmt::{arg_ok, arg_text, args_text_from, cmd_ok, cmd_text, CmdArg, InsCmd};
use crate::ins::mask::{captured, mask_matches, MaskCell};
use crate::ins::{InsPattern, VarBuf};
use crate::text::{append_chars, hex_pad4, hex_pad4_chars};
use crate::Error;

verus! {

/// The word read most-significant byte first from `nbytes` bytes at
/// `cursor`.
pub open spec fn word_val(data: Seq<u8>, cursor: int, nbytes: int) -> nat
    decreases nbytes,
{
    if nbytes <= 0 {
        0
    } else {
        (word_val(data, cursor, nbytes - 1) * 256 + data[cursor + nbytes - 1]) as nat
    }
}

/// Reads `nbytes` consecutive bytes at `cursor` as one word, first byte
/// most significant.
pub fn read_word(data: &[u8], cursor: usize, nbytes: usize) -> (r: u32)
    requires
        1 <= nbytes <= 4,
        cursor + nbytes <= data@.len(),
    ensures
        r as nat == word_val(data@, cursor as int, nbytes as int),
        (r as nat) < pow2(8 * nbytes as nat),
{
    let dl: usize = data.len();
    let mut w: u32 = 0;
    let mut j: usize = 0;
    proof {
        lemma2_to64();
    }
    while j < nbytes
        invariant
            j <= nbytes <= 4,
            cursor + nbytes <= dl,
            dl == data@.len(),
            w as nat == word_val(data@, cursor as int, j as int),
            (w as nat) < pow2(8 * j as nat),
        decreases nbytes - j,
    {
        proof {
            lemma_pow2_adds(8 * j as nat, 8);
            lemma2_to64();
            let e: nat = 8 * (j + 1) as nat;
            if e < 32 {
                vstd::arithmetic::power2::lemma_pow2_strictly_increases(e, 32);
            }
        }
        w = w * 256 + (data[cursor + j] as u32);
        j = j + 1;
    }
    w
}

/// A pattern's width in bytes.
pub open spec fn pat_width(p: InsPattern) -> int {
    p.mask_view().len() as int / 8
}

/// The word the pattern would read at `cursor`.
pub open spec fn pat_word(p: InsPattern, data: Seq<u8>, cursor: int) -> u32 {
    word_val(data, cursor, pat_width(p)) as u32
}

/// Whether the pattern fits in the remaining bytes at `cursor` and its
/// mask matches the word read there.
pub open spec fn pat_hits(p: InsPattern, data: Seq<u8>, cursor: int) -> bool {
    &&& cursor + pat_width(p) <= data.len()
    &&& mask_matches(p.mask_view(), pat_word(p, data, cursor))
}

/// The index of the first pattern at or after `i` that fits and matches at
/// `cursor`.
pub open spec fn first_hit_from(pats: Seq<InsPattern>, data: Seq<u8>, cursor: int, i: int) -> Option<
    int,
>
    decreases pats.len() - i,
{
    if i < 0 || i >= pats.len() {
        None
    } else if pat_hits(pats[i], data, cursor) {
        Some(i)
    } else {
        first_hit_from(pats, data, cursor, i + 1)
    }
}

/// The index of the first pattern in table order that fits and matches.
pub open spec fn first_hit(pats: Seq<InsPattern>, data: Seq<u8>, cursor: int) -> Option<int> {
    first_hit_from(pats, data, cursor, 0)
}

proof fn lemma_first_hit_skip(pats: Seq<InsPattern>, data: Seq<u8>, cursor: int, i: int)
    requires
        0 <= i <= pats.len(),
        forall|k: int| 0 <= k < i ==> !pat_hits(#[trigger] pats[k], data, cursor),
    ensures
        first_hit(pats, data, cursor) == first_hit_from(pats, data, cursor, i),
    decreases i,
{
    if i > 0 {
        lemma_first_hit_skip(pats, data, cursor, i - 1);
    }
}

/// Whether every operand of the command can be formatted from the bits the
/// mask captures out of word `w`.
pub open spec fn cmd_ok_w(cmd: InsCmd, cells: Seq<MaskCell>, w: u32) -> bool {
    forall|j: int|
        0 <= j < cmd.args@.len() ==> arg_ok(
            #[trigger] cmd.args@[j],
            captured(cells, w, cmd.args@[j].var),
        )
}

/// The `", "`-joined operand texts, from the bits the mask captures.
pub open spec fn args_text_w(args: Seq<CmdArg>, cells: Seq<MaskCell>, w: u32, j: int) -> Seq<char>
    decreases args.len() - j,
{
    if j < 0 || j >= args.len() {
        Seq::empty()
    } else if j == args.len() - 1 {
        arg_text(args[j], captured(cells, w, args[j].var))
    } else {
        arg_text(args[j], captured(cells, w, args[j].var)) + seq![',', ' '] + args_text_w(
            args,
            cells,
            w,
            j + 1,
        )
    }
}

/// The command's output line, from the bits the mask captures out of `w`.
pub open spec fn cmd_text_w(cmd: InsCmd, cells: Seq<MaskCell>, w: u32) -> Seq<char> {
    if cmd.args@.len() == 0 {
        cmd.name@ + seq!['\n']
    } else {
        cmd.name@ + seq![' '] + args_text_w(cmd.args@, cells, w, 0) + seq!['\n']
    }
}

proof fn lemma_args_text_buf(
    args: Seq<CmdArg>,
    cells: Seq<MaskCell>,
    w: u32,
    buf: VarBuf,
    j: int,
)
    requires
        forall|v: char| #[trigger] buf.bits_of(v) == captured(cells, w, v),
    ensures
        args_text_w(args, cells, w, j) == args_text_from(args, buf, j),
    decreases args.len() - j,
{
    if 0 <= j < args.len() && j < args.len() - 1 {
        lemma_args_text_buf(args, cells, w, buf, j + 1);
    }
}

proof fn lemma_cmd_text_buf(cmd: InsCmd, cells: Seq<MaskCell>, w: u32, buf: VarBuf)
    requires
        forall|v: char| #[trigger] buf.bits_of(v) == captured(cells, w, v),
    ensures
        cmd_text_w(cmd, cells, w) == cmd_text(cmd, buf),
        cmd_ok_w(cmd, cells, w) == cmd_ok(cmd, buf),
{
    lemma_args_text_buf(cmd.args@, cells, w, buf, 0);
}

/// The full output line one matched pattern produces at `cursor`: the
/// offset in four-column hexadecimal, `": "`, the rendered command, and a
/// closing blank line.
pub open spec fn line_text(p: InsPattern, data: Seq<u8>, cursor: int) -> Seq<char> {
    hex_pad4(cursor as nat) + seq![':', ' '] + cmd_text_w(
        p.cmd_spec(),
        p.mask_view(),
        pat_word(p, data, cursor),
    ) + seq!['\n']
}

/// What decoding denotes from `cursor` on.  `None` marks a malformed
/// table: a matched row whose command asks for a transform its value does
/// not support, or reads a variable no cell captured.  Otherwise the
/// result is the remaining output text, or the offset at which no pattern
/// fits and matches.
pub open spec fn spec_decode(pats: Seq<InsPattern>, data: Seq<u8>, cursor: int) -> Option<
    Result<Seq<char>, int>,
>
    decreases data.len() - cursor,
    via spec_decode_dec
{
    if cursor >= data.len() || cursor < 0 {
        Some(Ok(Seq::empty()))
    } else {
        match first_hit(pats, data, cursor) {
            None => Some(Err(cursor)),
            Some(idx) => {
                let p = pats[idx];
                let w = pat_word(p, data, cursor);
                if pat_width(p) < 1 {
                    None
                } else if !cmd_ok_w(p.cmd_spec(), p.mask_view(), w) {
                    None
                } else {
                    match spec_decode(pats, data, cursor + pat_width(p)) {
                        None => None,
                        Some(Err(o)) => Some(Err(o)),
                        Some(Ok(rest)) => Some(Ok(line_text(p, data, cursor) + rest)),
                    }
                }
            },
        }
    }
}

#[via_fn]
proof fn spec_decode_dec(pats: Seq<InsPattern>, data: Seq<u8>, cursor: int) {
    if 0 <= cursor < data.len() {
        match first_hit(pats, data, cursor) {
            Some(idx) => {
                lemma_first_hit_props(pats, data, cursor, 0);
            },
            None => {},
        }
    }
}

proof fn lemma_first_hit_props(pats: Seq<InsPattern>, data: Seq<u8>, cursor: int, i: int)
    requires
        first_hit_from(pats, data, cursor, i) is Some,
        0 <= i,
    ensures
        ({
            let idx = first_hit_from(pats, data, cursor, i).unwrap();
            i <= idx < pats.len() && pat_hits(pats[idx], data, cursor)
        }),
    decreases pats.len() - i,
{
    if i < pats.len() && !pat_hits(pats[i], data, cursor) {
        lemma_first_hit_props(pats, data, cursor, i + 1);
    }
}

fn decode_step(patterns: &[InsPattern], data: &[u8], cursor: usize, out: &mut String) -> (r:
    Option<usize>)
    requires
        forall|j: int| 0 <= j < patterns@.len() ==> (#[trigger] patterns@[j]).wf(),
        cursor < data@.len(),
        spec_decode(patterns@, data@, cursor as int) is Some,
    ensures
        (match first_hit(patterns@, data@, cursor as int) {
            None => r is None && final(out)@ == old(out)@,
            Some(idx) => r == Some(pat_width(patterns@[idx]) as usize) && 1 <= pat_width(
                patterns@[idx],
            ) && cursor + pat_width(patterns@[idx]) <= data@.len() && final(out)@ == old(out)@
                + line_text(patterns@[idx], data@, cursor as int),
        }),
{
    let n = patterns.len();
    let mut i: usize = 0;
    while i < n
        invariant
            i <= n,
            n == patterns@.len(),
            forall|j: int| 0 <= j < patterns@.len() ==> (#[trigger] patterns@[j]).wf(),
            cursor < data@.len(),
            spec_decode(patterns@, data@, cursor as int) is Some,
            out@ == old(out)@,
            forall|k: int| 0 <= k < i ==> !pat_hits(#[trigger] patterns@[k], data@, cursor as int),
        decreases n - i,
    {
        let p = &patterns[i];
        let plen = p.len();
        if data.len() - cursor >= plen {
            let word = read_word(data, cursor, plen);
            proof {
                assert(word == pat_word(patterns@[i as int], data@, cursor as int));
            }
            match p.do_match(word) {
                Some(buf) => {
                    proof {
                        assert(pat_hits(patterns@[i as int], data@, cursor as int));
                        lemma_first_hit_skip(patterns@, data@, cursor as int, i as int);
                        assert(first_hit(patterns@, data@, cursor as int) == Some(i as int));
                        lemma_cmd_text_buf(
                            p.cmd_spec(),
                            p.mask_view(),
                            word,
                            buf,
                        );
                        assert(cmd_ok_w(p.cmd_spec(), p.mask_view(), word));
                    }
                    let pad = hex_pad4_chars(cursor as u64);
                    append_chars(out, &pad);
                    out.append(": ");
                    let ghost mid = out@;
                    proof {
                        reveal_strlit(": ");
                        assert(mid =~= old(out)@ + hex_pad4(cursor as nat) + seq![':', ' ']);
                    }
                    p.cmd().write_cmd(&buf, out);
                    out.append("\n");
                    proof {
                        reveal_strlit("\n");
                        assert(out@ =~= old(out)@ + line_text(
                            patterns@[i as int],
                            data@,
                            cursor as int,
                        ));
                    }
                    return Some(plen);
                },
                None => {
                    proof {
                        assert(!pat_hits(patterns@[i as int], data@, cursor as int));
                    }
                },
            }
        } else {
            proof {
                assert(!pat_hits(patterns@[i as int], data@, cursor as int));
            }
        }
        i = i + 1;
    }
    proof {
        lemma_first_hit_skip(patterns@, data@, cursor as int, n as int);
    }
    None
}

/// Decodes the whole byte stream against the table: at each position the
/// first pattern in table order that fits and matches produces one output
/// line and advances the cursor by its width; a position no pattern
/// decodes fails with its offset.  The table must be well formed and must
/// never drive a transform chain onto a value it is not defined on.
pub fn translate(patterns: &[InsPattern], data: &[u8]) -> (r: Result<String, Error>)
    requires
        forall|j: int| 0 <= j < patterns@.len() ==> (#[trigger] patterns@[j]).wf(),
        spec_decode(patterns@, data@, 0) is Some,
    ensures
        (match spec_decode(patterns@, data@, 0).unwrap() {
            Ok(text) => r matches Ok(s) && s@ == text,
            Err(off) => r == Err::<String, Error>(Error::UndecodableInstruction(off as usize)),
        }),
{
    let mut out = String::new();
    let mut cursor: usize = 0;
    while cursor < data.len()
        invariant
            cursor <= data@.len(),
            forall|j: int| 0 <= j < patterns@.len() ==> (#[trigger] patterns@[j]).wf(),
            spec_decode(patterns@, data@, 0) is Some,
            (match spec_decode(patterns@, data@, cursor as int) {
                None => false,
                Some(Ok(t)) => spec_decode(patterns@, data@, 0) == Some(
                    Ok::<Seq<char>, int>(out@ + t),
                ),
                Some(Err(o)) => spec_decode(patterns@, data@, 0) == Some(
                    Err::<Seq<char>, int>(o),
                ),
            }),
        decreases data@.len() - cursor,
    {
        let ghost pre = out@;
        let step = decode_step(patterns, data, cursor, &mut out);
        match step {
            Some(w) => {
                proof {
                    let idx = first_hit(patterns@, data@, cursor as int).unwrap();
                    lemma_first_hit_props(patterns@, data@, cursor as int, 0);
                    match spec_decode(patterns@, data@, cursor as int + w as int) {
                        None => {
                            assert(false);
                        },
                        Some(Ok(t2)) => {
                            assert(spec_decode(patterns@, data@, cursor as int) == Some(
                                Ok::<Seq<char>, int>(
                                    line_text(patterns@[idx], data@, cursor as int) + t2,
                                ),
                            ));
                            assert(pre + (line_text(patterns@[idx], data@, cursor as int) + t2)
                                =~= out@ + t2);
                        },
                        Some(Err(o)) => {
                            assert(spec_decode(patterns@, data@, cursor as int) == Some(
                                Err::<Seq<char>, int>(o),
                            ));
                        },
                    }
                }
                cursor = cursor + w;
            },
            None => {
                proof {
                    assert(spec_decode(patterns@, data@, cursor as int) == Some(
                        Err::<Seq<char>, int>(cursor as int),
                    ));
                }
                return Err(Error::UndecodableInstruction(cursor));
            },
        }
    }
    proof {
        assert(spec_decode(patterns@, data@, cursor as int) == Some(
            Ok::<Seq<char>, int>(Seq::empty()),
        ));
        match spec_decode(patterns@, data@, 0) {
            Some(Ok(t)) => {
                assert(out@ =~= out@ + Seq::<char>::empty());
            },
            _ => {},
        }
    }
    Ok(out)
}

/// First-match-wins: the scan picks row `i` exactly when that row fits and
/// matches at the cursor and no earlier row does.
pub proof fn lemma_first_match_wins(pats: Seq<InsPattern>, data: Seq<u8>, cursor: int, i: int)
    requires
        0 <= i < pats.len(),
        pat_hits(pats[i], data, cursor),
        forall|k: int| 0 <= k < i ==> !pat_hits(#[trigger] pats[k], data, cursor),
    ensures
        first_hit(pats, data, cursor) == Some(i),
{
    lemma_first_hit_skip(pats, data, cursor, i);
}

/// Table order decides precedence: when two rows both fit and match, the
/// one standing first is chosen, and swapping the rows swaps the choice.
pub proof fn lemma_order_decides(p0: InsPattern, p1: InsPattern, data: Seq<u8>, cursor: int)
    requires
        pat_hits(p0, data, cursor),
        pat_hits(p1, data, cursor),
    ensures
        first_hit(seq![p0, p1], data, cursor) == Some(0int),
        first_hit(seq![p1, p0], data, cursor) == Some(0int),
{
    assert(seq![p0, p1][0] == p0);
    assert(seq![p1, p0][0] == p1);
}

/// An empty stream decodes to empty output under any table.
pub proof fn lemma_empty_stream(pats: Seq<InsPattern>)
    ensures
        spec_decode(pats, Seq::<u8>::empty(), 0) == Some(Ok::<Seq<char>, int>(Seq::empty())),
{
}

proof fn lemma_no_fit_no_hit(pats: Seq<InsPattern>, data: Seq<u8>, cursor: int, i: int)
    requires
        0 <= i <= pats.len(),
        forall|j: int| 0 <= j < pats.len() ==> cursor + pat_width(#[trigger] pats[j]) > data.len(),
    ensures
        first_hit_from(pats, data, cursor, i) is None,
    decreases pats.len() - i,
{
    if i < pats.len() {
        lemma_no_fit_no_hit(pats, data, cursor, i + 1);
    }
}

/// A trailing position too short for every declared width is undecodable
/// at exactly that offset.
pub proof fn lemma_short_tail_undecodable(pats: Seq<InsPattern>, data: Seq<u8>, cursor: int)
    requires
        0 <= cursor < data.len(),
        forall|j: int| 0 <= j < pats.len() ==> cursor + pat_width(#[trigger] pats[j]) > data.len(),
    ensures
        spec_decode(pats, data, cursor) == Some(Err::<Seq<char>, int>(cursor)),
{
    lemma_no_fit_no_hit(pats, data, cursor, 0);
}

} // verus!
