//! Output commands: an instruction mnemonic plus operand transform chains,
//! compiled from command text and rendered against the bits a match
//! captured.

use vstd::prelude::*;
use vstd::string::StringExecFns;
use vstd::arithmetic::power2::{lemma2_to64, lemma_pow2_unfold, pow2};
use crate::bits::{bits_ok, bits_val, pow2_u64, signed_val};
use crate::ins::var_buf::{is_var_char, is_var_char_exec, VarBuf};
use crate::text::{
    chars_to_string, dec_chars, dec_digits, find_char, hex2_chars, hex2_digits,
    lemma_find_char, lemma_skip_spaces_len, push_all, skip_spaces, str_to_chars,
};
use crate::Error;

verus! {

/// One operand transform, named by its specifier letter in command text.
#[derive(Debug, Clone, Copy, PartialEq, Eq, Structural)]
pub enum ArgSpecifier {
    /// `R`: an unsigned value of at most 31 becomes a register index.
    Register,
    /// `W`: the numeric value is doubled.
    Wide,
    /// `U`: 16 is added to an unsigned value.
    Offset16,
    /// `S`: the value is reinterpreted as two's complement over the
    /// variable's captured bit width.
    Signed,
}

/// A tagged intermediate value carried through a transform chain.
#[derive(Debug, Clone, Copy, PartialEq, Eq, Structural)]
pub enum CmdFormat {
    /// A register index, rendered `r<N>`.
    Reg(u8),
    /// A plain unsigned value, rendered as hexadecimal.
    Val(u32),
    /// A signed relative offset, rendered `.+<N>` or `.-<N>`.
    Signed(i32),
}

/// Reinterprets the low `len`-bit value `i` as a two's-complement signed
/// quantity of exactly that width.
pub fn decode_signed(i: u32, len: usize) -> (r: i32)
    requires
        1 <= len <= 32,
        (i as nat) < pow2(len as nat),
    ensures
        r as int == signed_val(i as nat, len as nat),
{
    let p: u64 = pow2_u64(len);
    let half: u64 = p / 2;
    proof {
        lemma_pow2_unfold(len as nat);
        lemma2_to64();
        assert(half as nat == pow2((len - 1) as nat));
    }
    if (i as u64) >= half {
        let r64: i64 = (i as i64) - (p as i64);
        r64 as i32
    } else {
        i as i32
    }
}

/// One transform step over a tagged value; `width` is the captured bit
/// count of the operand's variable.  `None` marks a step the table must
/// never ask for: a transform applied to a value kind it is not defined
/// on, or a result that leaves the value's machine range.
pub open spec fn step_spec(sp: ArgSpecifier, width: nat, v: CmdFormat) -> Option<CmdFormat> {
    match sp {
        ArgSpecifier::Register => match v {
            CmdFormat::Val(x) => if x <= 31 {
                Some(CmdFormat::Reg(x as u8))
            } else {
                Some(CmdFormat::Val(x))
            },
            _ => None,
        },
        ArgSpecifier::Wide => match v {
            CmdFormat::Val(x) => if 2 * (x as int) <= u32::MAX as int {
                Some(CmdFormat::Val((2 * x) as u32))
            } else {
                None
            },
            CmdFormat::Signed(s) => if i32::MIN as int <= 2 * (s as int) && 2 * (s as int)
                <= i32::MAX as int {
                Some(CmdFormat::Signed((2 * s) as i32))
            } else {
                None
            },
            _ => None,
        },
        ArgSpecifier::Offset16 => match v {
            CmdFormat::Val(x) => if (x as int) + 16 <= u32::MAX as int {
                Some(CmdFormat::Val((x + 16) as u32))
            } else {
                None
            },
            _ => None,
        },
        ArgSpecifier::Signed => match v {
            CmdFormat::Val(x) => if 1 <= width && width <= 32 && (x as nat) < pow2(width) {
                Some(CmdFormat::Signed(signed_val(x as nat, width) as i32))
            } else {
                None
            },
            _ => None,
        },
    }
}

/// A transform chain applied left to right.
pub open spec fn chain_apply(chain: Seq<ArgSpecifier>, width: nat, v: CmdFormat) -> Option<
    CmdFormat,
>
    decreases chain.len(),
{
    if chain.len() == 0 {
        Some(v)
    } else {
        match step_spec(chain[0], width, v) {
            None => None,
            Some(v2) => chain_apply(chain.drop_first(), width, v2),
        }
    }
}

/// The display text of a fully transformed operand value.
pub open spec fn render_val(v: CmdFormat) -> Seq<char> {
    match v {
        CmdFormat::Reg(r) => seq!['r'] + dec_digits(r as nat),
        CmdFormat::Val(x) => seq!['0', 'x'] + hex2_digits(x as nat),
        CmdFormat::Signed(s) => if s >= 0 {
            seq!['.', '+'] + dec_digits(s as nat)
        } else {
            seq!['.', '-'] + dec_digits((-(s as int)) as nat)
        },
    }
}

fn render_format(v: CmdFormat) -> (r: Vec<char>)
    ensures
        r@ == render_val(v),
{
    match v {
        CmdFormat::Reg(x) => {
            let mut out: Vec<char> = Vec::new();
            out.push('r');
            let d = dec_chars(x as u32);
            push_all(&mut out, &d);
            out
        },
        CmdFormat::Val(x) => {
            let mut out: Vec<char> = Vec::new();
            out.push('0');
            out.push('x');
            let d = hex2_chars(x);
            push_all(&mut out, &d);
            out
        },
        CmdFormat::Signed(s) => {
            let mut out: Vec<char> = Vec::new();
            out.push('.');
            if s >= 0 {
                out.push('+');
                let d = dec_chars(s as u32);
                push_all(&mut out, &d);
            } else {
                out.push('-');
                let m64: i64 = -(s as i64);
                let d = dec_chars(m64 as u32);
                push_all(&mut out, &d);
            }
            out
        },
    }
}

/// One output operand: the variable whose captured bits to read and the
/// transform chain to apply to their value.
#[derive(Debug)]
pub struct CmdArg {
    pub var: char,
    pub format: Vec<ArgSpecifier>,
}

/// Whether an operand can be formatted from the bits captured for its
/// variable: at least one bit was captured and every transform step is
/// defined.
pub open spec fn arg_ok(arg: CmdArg, bits: Seq<u8>) -> bool {
    &&& 0 < bits.len() <= 32
    &&& bits_ok(bits)
    &&& chain_apply(arg.format@, bits.len(), CmdFormat::Val(bits_val(bits) as u32)) is Some
}

/// The operand's display text, from the bits captured for its variable.
pub open spec fn arg_text(arg: CmdArg, bits: Seq<u8>) -> Seq<char>
    recommends
        arg_ok(arg, bits),
{
    render_val(chain_apply(arg.format@, bits.len(), CmdFormat::Val(bits_val(bits) as u32)).unwrap())
}

impl CmdArg {
    /// Applies the transform chain to the variable's captured value and
    /// renders the result.
    pub fn format(&self, buf: &VarBuf) -> (r: String)
        requires
            buf.wf(),
            arg_ok(*self, buf.bits_of(self.var)),
        ensures
            r@ == arg_text(*self, buf.bits_of(self.var)),
    {
        let ghost bits = buf.bits_of(self.var);
        let ghost width = bits.len();
        proof {
            crate::bits::lemma_bits_val_bound(bits);
            if width < 32 {
                vstd::arithmetic::power2::lemma_pow2_strictly_increases(width, 32);
            }
            lemma2_to64();
        }
        let raw = buf.get(self.var).unwrap();
        let nbits = buf.bits_len(self.var).unwrap();
        let mut cur: CmdFormat = CmdFormat::Val(raw);
        let mut k: usize = 0;
        proof {
            assert(self.format@.skip(0) == self.format@);
        }
        while k < self.format.len()
            invariant
                k <= self.format@.len(),
                buf.wf(),
                bits == buf.bits_of(self.var),
                width == bits.len(),
                nbits == width,
                raw as nat == bits_val(bits),
                chain_apply(self.format@.skip(k as int), width, cur) == chain_apply(
                    self.format@,
                    width,
                    CmdFormat::Val(raw),
                ),
                chain_apply(self.format@, width, CmdFormat::Val(raw)) is Some,
                arg_ok(*self, bits),
            decreases self.format@.len() - k,
        {
            let ghost rest = self.format@.skip(k as int);
            proof {
                assert(rest.len() > 0);
                assert(rest[0] == self.format@[k as int]);
                assert(rest.drop_first() == self.format@.skip(k as int + 1));
                assert(step_spec(rest[0], width, cur) is Some);
            }
            let sp = self.format[k];
            match sp {
                ArgSpecifier::Register => {
                    let x = match cur {
                        CmdFormat::Val(x) => x,
                        _ => vstd::pervasive::unreached(),
                    };
                    if x <= 31 {
                        cur = CmdFormat::Reg(x as u8);
                    }
                },
                ArgSpecifier::Wide => {
                    cur = match cur {
                        CmdFormat::Val(x) => CmdFormat::Val(x * 2),
                        CmdFormat::Signed(s) => CmdFormat::Signed(s * 2),
                        _ => vstd::pervasive::unreached(),
                    };
                },
                ArgSpecifier::Offset16 => {
                    cur = match cur {
                        CmdFormat::Val(x) => CmdFormat::Val(x + 16),
                        _ => vstd::pervasive::unreached(),
                    };
                },
                ArgSpecifier::Signed => {
                    cur = match cur {
                        CmdFormat::Val(x) => CmdFormat::Signed(decode_signed(x, nbits)),
                        _ => vstd::pervasive::unreached(),
                    };
                },
            }
            k = k + 1;
        }
        proof {
            assert(self.format@.skip(self.format@.len() as int).len() == 0);
        }
        let out = render_format(cur);
        chars_to_string(out.as_slice())
    }
}

/// A compiled output command: the mnemonic and the ordered operand list.
#[derive(Debug)]
pub struct InsCmd {
    pub name: String,
    pub args: Vec<CmdArg>,
}

/// Whether every operand of the command can be formatted from `buf`.
pub open spec fn cmd_ok(cmd: InsCmd, buf: VarBuf) -> bool {
    forall|j: int|
        0 <= j < cmd.args@.len() ==> arg_ok(
            #[trigger] cmd.args@[j],
            buf.bits_of(cmd.args@[j].var),
        )
}

/// The `", "`-joined texts of the operands from index `j` on.
pub open spec fn args_text_from(args: Seq<CmdArg>, buf: VarBuf, j: int) -> Seq<char>
    decreases args.len() - j,
{
    if j < 0 || j >= args.len() {
        Seq::empty()
    } else if j == args.len() - 1 {
        arg_text(args[j], buf.bits_of(args[j].var))
    } else {
        arg_text(args[j], buf.bits_of(args[j].var)) + seq![',', ' '] + args_text_from(
            args,
            buf,
            j + 1,
        )
    }
}

/// One full command line of output: the mnemonic, a single space and the
/// operand list when operands exist, and a closing newline.
pub open spec fn cmd_text(cmd: InsCmd, buf: VarBuf) -> Seq<char> {
    if cmd.args@.len() == 0 {
        cmd.name@ + seq!['\n']
    } else {
        cmd.name@ + seq![' '] + args_text_from(cmd.args@, buf, 0) + seq!['\n']
    }
}

impl InsCmd {
    /// The instruction mnemonic.
    pub fn name(&self) -> (r: &str)
        ensures
            r@ == self.name@,
    {
        self.name.as_str()
    }

    /// Renders the command against `buf`, appending one output line to
    /// `builder`.
    pub fn write_cmd(&self, buf: &VarBuf, builder: &mut String)
        requires
            buf.wf(),
            cmd_ok(*self, *buf),
        ensures
            final(builder)@ == old(builder)@ + cmd_text(*self, *buf),
    {
        builder.append(self.name.as_str());
        let n = self.args.len();
        if n == 0 {
            builder.append("\n");
            proof {
                reveal_strlit("\n");
                assert(builder@ =~= old(builder)@ + cmd_text(*self, *buf));
            }
            return ;
        }
        builder.append(" ");
        proof {
            reveal_strlit(" ");
            assert(builder@ =~= old(builder)@ + self.name@ + seq![' ']);
        }
        let ghost base = old(builder)@ + self.name@ + seq![' '];
        let ghost whole = args_text_from(self.args@, *buf, 0);
        let mut j: usize = 0;
        while j < n
            invariant
                n == self.args@.len(),
                j <= n,
                buf.wf(),
                cmd_ok(*self, *buf),
                whole == args_text_from(self.args@, *buf, 0),
                base == old(builder)@ + self.name@ + seq![' '],
                builder@ + args_text_from(self.args@, *buf, j as int) == base + whole,
            decreases n - j,
        {
            let ghost pre = builder@;
            let s = self.args[j].format(buf);
            builder.append(s.as_str());
            if j < n - 1 {
                builder.append(", ");
                proof {
                    reveal_strlit(", ");
                    assert(builder@ =~= pre + arg_text(
                        self.args@[j as int],
                        buf.bits_of(self.args@[j as int].var),
                    ) + seq![',', ' ']);
                    assert(builder@ + args_text_from(self.args@, *buf, j as int + 1) =~= pre
                        + args_text_from(self.args@, *buf, j as int));
                }
            } else {
                proof {
                    assert(args_text_from(self.args@, *buf, j as int + 1) == Seq::<char>::empty());
                    assert(builder@ + args_text_from(self.args@, *buf, j as int + 1) =~= pre
                        + args_text_from(self.args@, *buf, j as int));
                }
            }
            j = j + 1;
        }
        proof {
            assert(args_text_from(self.args@, *buf, n as int) == Seq::<char>::empty());
            assert(builder@ =~= base + whole);
        }
        builder.append("\n");
        proof {
            reveal_strlit("\n");
            assert(builder@ =~= old(builder)@ + cmd_text(*self, *buf));
        }
    }
}

/// The transform a specifier letter denotes, if any.
pub open spec fn spec_of_char(c: char) -> Option<ArgSpecifier> {
    if c == 'R' {
        Some(ArgSpecifier::Register)
    } else if c == 'W' {
        Some(ArgSpecifier::Wide)
    } else if c == 'U' {
        Some(ArgSpecifier::Offset16)
    } else if c == 'S' {
        Some(ArgSpecifier::Signed)
    } else {
        None
    }
}

/// The transform chain denoted by specifier letters read right to left:
/// the rightmost letter names the first transform applied.
pub open spec fn rev_specs(s: Seq<char>) -> Option<Seq<ArgSpecifier>>
    decreases s.len(),
{
    if s.len() == 0 {
        Some(Seq::empty())
    } else {
        match rev_specs(s.drop_first()) {
            None => None,
            Some(r) => match spec_of_char(s[0]) {
                None => None,
                Some(sp) => Some(r.push(sp)),
            },
        }
    }
}

/// The operand an operand token denotes: the last character names the
/// variable, the characters before it, read right to left, the chain.
pub open spec fn parse_one_arg(s: Seq<char>) -> Option<(char, Seq<ArgSpecifier>)> {
    if s.len() == 0 {
        None
    } else if !is_var_char(s.last()) {
        None
    } else {
        match rev_specs(s.drop_last()) {
            None => None,
            Some(ch) => Some((s.last(), ch)),
        }
    }
}

fn parse_arg_chars(chars: &[char]) -> (r: Result<CmdArg, Error>)
    ensures
        match parse_one_arg(chars@) {
            Some(p) => r matches Ok(a) && a.var == p.0 && a.format@ == p.1,
            None => r == Err::<CmdArg, Error>(Error::MalformedCommand),
        },
{
    let m = chars.len();
    if m == 0 {
        return Err(Error::MalformedCommand);
    }
    let var = chars[m - 1];
    if !is_var_char_exec(var) {
        return Err(Error::MalformedCommand);
    }
    let ghost head = chars@.drop_last();
    let mut fmt: Vec<ArgSpecifier> = Vec::new();
    let mut k: usize = 0;
    proof {
        assert(head.skip(head.len() as int).len() == 0);
    }
    while k < m - 1
        invariant
            m == chars@.len(),
            1 <= m,
            k <= m - 1,
            head == chars@.drop_last(),
            rev_specs(head.skip((m - 1 - k) as int)) == Some(fmt@),
        decreases m - 1 - k,
    {
        let c = chars[m - 2 - k];
        let ghost tail = head.skip((m - 1 - k) as int);
        proof {
            assert(head.skip((m - 2 - k) as int)[0] == head[m - 2 - k]);
            assert(head[m - 2 - k] == chars@[m - 2 - k]);
            assert(head.skip((m - 2 - k) as int).drop_first() =~= tail);
        }
        let sp: ArgSpecifier = if c == 'R' {
            ArgSpecifier::Register
        } else if c == 'W' {
            ArgSpecifier::Wide
        } else if c == 'U' {
            ArgSpecifier::Offset16
        } else if c == 'S' {
            ArgSpecifier::Signed
        } else {
            proof {
                lemma_rev_specs_none_left(head, (m - 2 - k) as int);
                assert(head.skip(0) == head);
            }
            return Err(Error::MalformedCommand);
        };
        fmt.push(sp);
        k = k + 1;
    }
    proof {
        assert(head.skip(0) == head);
    }
    Ok(CmdArg { var, format: fmt })
}

proof fn lemma_rev_specs_none_left(s: Seq<char>, a: int)
    requires
        0 <= a < s.len(),
        rev_specs(s.skip(a)) is None,
    ensures
        rev_specs(s.skip(0)) is None,
    decreases a,
{
    if a > 0 {
        assert(s.skip(a - 1).drop_first() =~= s.skip(a));
        lemma_rev_specs_none_left(s, a - 1);
    }
}

/// Compiles one operand token: the trailing character is the variable, the
/// rest, right to left, the transform chain.  Fails exactly when the token
/// is empty, its variable is not a letter, or a specifier letter is not
/// one of `R`, `W`, `U`, `S`.
pub fn parse_cmd_arg(arg: &str) -> (r: Result<CmdArg, Error>)
    ensures
        match parse_one_arg(arg@) {
            Some(p) => r matches Ok(a) && a.var == p.0 && a.format@ == p.1,
            None => r == Err::<CmdArg, Error>(Error::MalformedCommand),
        },
{
    let chars = str_to_chars(arg);
    parse_arg_chars(chars.as_slice())
}

/// The operand list a comma-separated operand text denotes.  Spaces
/// directly after a comma are skipped; other spaces stay part of a token.
pub open spec fn parse_args(s: Seq<char>) -> Option<Seq<(char, Seq<ArgSpecifier>)>>
    decreases s.len(),
    via parse_args_dec
{
    if s.len() == 0 {
        Some(Seq::empty())
    } else {
        match find_char(s, ',') {
            Some(i) => match parse_one_arg(s.subrange(0, i)) {
                None => None,
                Some(p) => match parse_args(skip_spaces(s.subrange(i + 1, s.len() as int))) {
                    None => None,
                    Some(r) => Some(seq![p] + r),
                },
            },
            None => match parse_one_arg(s) {
                None => None,
                Some(p) => Some(seq![p]),
            },
        }
    }
}

#[via_fn]
proof fn parse_args_dec(s: Seq<char>) {
    if s.len() > 0 {
        lemma_find_char(s, ',');
        match find_char(s, ',') {
            Some(i) => {
                lemma_skip_spaces_len(s.subrange(i + 1, s.len() as int));
            },
            None => {},
        }
    }
}

/// The mnemonic of a command line: the text before the first space, or the
/// whole line when it has none.
pub open spec fn cmd_name_part(s: Seq<char>) -> Seq<char> {
    match find_char(s, ' ') {
        Some(i) => s.subrange(0, i),
        None => s,
    }
}

/// The operand text of a command line: what follows the first space.
pub open spec fn cmd_args_part(s: Seq<char>) -> Seq<char> {
    match find_char(s, ' ') {
        Some(i) => s.subrange(i + 1, s.len() as int),
        None => Seq::empty(),
    }
}

/// The variable letter and transform chain of each compiled operand.
pub open spec fn args_model(args: Seq<CmdArg>) -> Seq<(char, Seq<ArgSpecifier>)> {
    Seq::new(args.len(), |j: int| (args[j].var, args[j].format@))
}

/// Compiles one trimmed command line: the text up to the first space is
/// the mnemonic, the rest a comma-separated operand list.  Fails exactly
/// when some operand token is malformed.
pub fn parse_cmd(cmd: &str) -> (r: Result<InsCmd, Error>)
    ensures
        match parse_args(cmd_args_part(cmd@)) {
            Some(ps) => r matches Ok(c) && c.name@ == cmd_name_part(cmd@) && args_model(c.args@)
                == ps,
            None => r == Err::<InsCmd, Error>(Error::MalformedCommand),
        },
{
    let chars = str_to_chars(cmd);
    let n = chars.len();
    let sp = crate::text::find_char_in(&chars, 0, n, ' ');
    proof {
        assert(chars@.subrange(0, n as int) == cmd@);
        lemma_find_char(cmd@, ' ');
    }
    let name_end: usize;
    let mut p: usize;
    match sp {
        Some(i) => {
            name_end = i;
            p = i + 1;
        },
        None => {
            name_end = n;
            p = n;
        },
    }
    let name = chars_to_string(&chars.as_slice()[0..name_end]);
    let ghost apart = cmd_args_part(cmd@);
    proof {
        if find_char(cmd@, ' ') is None {
            assert(apart =~= chars@.subrange(p as int, n as int));
        }
        assert(apart == chars@.subrange(p as int, n as int));
    }
    let mut args: Vec<CmdArg> = Vec::new();
    proof {
        assert(args_model(args@) =~= Seq::<(char, Seq<ArgSpecifier>)>::empty());
    }
    while p < n
        invariant
            p <= n,
            n == chars@.len(),
            chars@ == cmd@,
            apart == cmd_args_part(cmd@),
            (match parse_args(chars@.subrange(p as int, n as int)) {
                Some(rest) => parse_args(apart) == Some(args_model(args@) + rest),
                None => parse_args(apart) is None,
            }),
        decreases n - p,
    {
        let ghost p0 = p as int;
        let ghost rem = chars@.subrange(p as int, n as int);
        match crate::text::find_char_in(&chars, p, n, ',') {
            Some(i) => {
                proof {
                    lemma_find_char(rem, ',');
                    assert(chars@.subrange(p as int, i as int) =~= rem.subrange(0, i - p));
                }
                let tok_r = parse_arg_chars(&chars.as_slice()[p..i]);
                let arg = match tok_r {
                    Ok(a) => a,
                    Err(e) => {
                        return Err(e);
                    },
                };
                let ghost pair = (arg.var, arg.format@);
                let ghost done = args@;
                args.push(arg);
                p = i + 1;
                let ghost after = chars@.subrange(p as int, n as int);
                while p < n && chars[p] == ' '
                    invariant
                        i < p <= n,
                        n == chars@.len(),
                        chars@ == cmd@,
                        skip_spaces(after) == skip_spaces(chars@.subrange(p as int, n as int)),
                    decreases n - p,
                {
                    proof {
                        let cur = chars@.subrange(p as int, n as int);
                        assert(cur[0] == ' ');
                        assert(cur.drop_first() =~= chars@.subrange(p as int + 1, n as int));
                    }
                    p = p + 1;
                }
                proof {
                    let cur = chars@.subrange(p as int, n as int);
                    assert(skip_spaces(cur) == cur);
                    assert(rem.subrange(i - p0 + 1, rem.len() as int) =~= after);
                    assert(args_model(args@) =~= args_model(done) + seq![pair]);
                    match parse_args(cur) {
                        Some(r2) => {
                            assert(parse_args(rem) == Some(seq![pair] + r2));
                            assert(args_model(done) + (seq![pair] + r2) =~= args_model(args@)
                                + r2);
                        },
                        None => {
                            assert(parse_args(rem) is None);
                        },
                    }
                }
            },
            None => {
                proof {
                    lemma_find_char(rem, ',');
                    assert(chars@.subrange(p as int, n as int) == rem);
                }
                let tok_r = parse_arg_chars(&chars.as_slice()[p..n]);
                let arg = match tok_r {
                    Ok(a) => a,
                    Err(e) => {
                        return Err(e);
                    },
                };
                let ghost pair = (arg.var, arg.format@);
                let ghost done = args@;
                args.push(arg);
                p = n;
                proof {
                    assert(parse_args(rem) == Some(seq![pair]));
                    assert(parse_args(chars@.subrange(p as int, n as int)) == Some(
                        Seq::<(char, Seq<ArgSpecifier>)>::empty(),
                    ));
                    assert(args_model(args@) =~= args_model(done) + seq![pair]);
                    assert(args_model(done) + seq![pair] =~= args_model(args@)
                        + Seq::<(char, Seq<ArgSpecifier>)>::empty());
                }
            },
        }
    }
    proof {
        assert(parse_args(chars@.subrange(n as int, n as int)) == Some(
            Seq::<(char, Seq<ArgSpecifier>)>::empty(),
        ));
        match parse_args(apart) {
            Some(ps) => {
                assert(ps =~= args_model(args@));
            },
            None => {},
        }
        if find_char(cmd@, ' ') is None {
            assert(cmd@.subrange(0, name_end as int) =~= cmd_name_part(cmd@));
        }
    }
    Ok(InsCmd { name, args })
}

} // verus!

