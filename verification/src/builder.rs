//! A plain assembly-text builder for hosts that compute operand values
//! themselves: one instruction per line, operands already tagged.

use vstd::prelude::*;
use vstd::string::StringExecFns;
use crate::text::{append_chars, dec_chars, dec_digits, hex2_chars, hex2_digits, push_all};

verus! {

/// One pre-computed operand value.
#[derive(Debug, Clone, Copy)]
pub enum InsArg {
    /// A register index, rendered `r<N>`.
    Reg(u32),
    /// A plain value, rendered as two-digit-minimum hexadecimal.
    Val(u32),
    /// A relative offset, rendered `.+<N>` or `.-<N>`.
    Offset(i32),
}

/// The display text of one operand.
pub open spec fn ins_arg_text(a: InsArg) -> Seq<char> {
    match a {
        InsArg::Reg(v) => seq!['r'] + dec_digits(v as nat),
        InsArg::Val(v) => hex2_digits(v as nat),
        InsArg::Offset(v) => if v >= 0 {
            seq!['.', '+'] + dec_digits(v as nat)
        } else {
            seq!['.', '-'] + dec_digits((-(v as int)) as nat)
        },
    }
}

/// The `", "`-joined operand texts from index `j` on.
pub open spec fn ins_args_text_from(args: Seq<InsArg>, j: int) -> Seq<char>
    decreases args.len() - j,
{
    if j < 0 || j >= args.len() {
        Seq::empty()
    } else if j == args.len() - 1 {
        ins_arg_text(args[j])
    } else {
        ins_arg_text(args[j]) + seq![',', ' '] + ins_args_text_from(args, j + 1)
    }
}

fn render_ins_arg(a: InsArg) -> (r: Vec<char>)
    ensures
        r@ == ins_arg_text(a),
{
    match a {
        InsArg::Reg(v) => {
            let mut out: Vec<char> = Vec::new();
            out.push('r');
            let d = dec_chars(v);
            push_all(&mut out, &d);
            out
        },
        InsArg::Val(v) => hex2_chars(v),
        InsArg::Offset(v) => {
            let mut out: Vec<char> = Vec::new();
            out.push('.');
            if v >= 0 {
                out.push('+');
                let d = dec_chars(v as u32);
                push_all(&mut out, &d);
            } else {
                out.push('-');
                let m64: i64 = -(v as i64);
                let d = dec_chars(m64 as u32);
                push_all(&mut out, &d);
            }
            out
        },
    }
}

/// Assembly text that grows by one instruction line per call.
pub struct AsmBuilder {
    pub buf: String,
}

impl AsmBuilder {
    /// Starts with empty text.
    pub fn new() -> (r: AsmBuilder)
        ensures
            r.buf@ == Seq::<char>::empty(),
    {
        AsmBuilder { buf: String::new() }
    }

    /// Appends one instruction line: the mnemonic, four spaces, the
    /// operands joined with `", "`, and a newline.
    pub fn push_ins(&mut self, ins: &str, args: &[InsArg])
        ensures
            final(self).buf@ == old(self).buf@ + ins@ + seq![' ', ' ', ' ', ' ']
                + ins_args_text_from(args@, 0) + seq!['\n'],
    {
        self.buf.append(ins);
        self.buf.append("    ");
        proof {
            reveal_strlit("    ");
            assert(self.buf@ =~= old(self).buf@ + ins@ + seq![' ', ' ', ' ', ' ']);
        }
        let ghost base = old(self).buf@ + ins@ + seq![' ', ' ', ' ', ' '];
        let ghost whole = ins_args_text_from(args@, 0);
        let n = args.len();
        let mut j: usize = 0;
        while j < n
            invariant
                n == args@.len(),
                j <= n,
                whole == ins_args_text_from(args@, 0),
                self.buf@ + ins_args_text_from(args@, j as int) == base + whole,
            decreases n - j,
        {
            let ghost pre = self.buf@;
            let t = render_ins_arg(args[j]);
            append_chars(&mut self.buf, &t);
            if j < n - 1 {
                self.buf.append(", ");
                proof {
                    reveal_strlit(", ");
                    assert(self.buf@ =~= pre + ins_arg_text(args@[j as int]) + seq![',', ' ']);
                    assert(self.buf@ + ins_args_text_from(args@, j as int + 1) =~= pre
                        + ins_args_text_from(args@, j as int));
                }
            } else {
                proof {
                    assert(ins_args_text_from(args@, j as int + 1) == Seq::<char>::empty());
                    assert(self.buf@ + ins_args_text_from(args@, j as int + 1) =~= pre
                        + ins_args_text_from(args@, j as int));
                }
            }
            j = j + 1;
        }
        proof {
            assert(ins_args_text_from(args@, n as int) == Seq::<char>::empty());
            assert(self.buf@ =~= base + whole);
        }
        self.buf.append("\n");
        proof {
            reveal_strlit("\n");
            assert(self.buf@ =~= old(self).buf@ + ins@ + seq![' ', ' ', ' ', ' '] + whole
                + seq!['\n']);
        }
    }
}

} // verus!
