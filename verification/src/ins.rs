//! The instruction table: rows pairing a compiled bit mask with a compiled
//! output command, in source order.

use vstd::prelude::*;

pub mod fmt;
pub mod mask;
pub mod var_buf;

pub use fmt::{ArgSpecifier, CmdArg, InsCmd};
pub use mask::InsMask;
pub use var_buf::VarBuf;

use crate::ins::fmt::{args_model, cmd_args_part, cmd_name_part, parse_args, parse_cmd};
use crate::ins::mask::{captured, cells_wf, mask_cells, mask_matches, parse_mask, MaskCell};
use crate::text::{chars_to_string, find_char, find_char_in, lemma_find_char, str_to_chars};
use crate::Error;

verus! {

/// Whether a character is trimmed off a row part's edges.
pub open spec fn is_blank(c: char) -> bool {
    c == ' ' || c == '\t' || c == '\r'
}

/// The sequence with its leading blanks removed.
pub open spec fn trim_front(s: Seq<char>) -> Seq<char>
    decreases s.len(),
{
    if s.len() > 0 && is_blank(s[0]) {
        trim_front(s.drop_first())
    } else {
        s
    }
}

/// The sequence with its trailing blanks removed.
pub open spec fn trim_back(s: Seq<char>) -> Seq<char>
    decreases s.len(),
{
    if s.len() > 0 && is_blank(s.last()) {
        trim_back(s.drop_last())
    } else {
        s
    }
}

/// The sequence with blanks removed from both edges.
pub open spec fn trim(s: Seq<char>) -> Seq<char> {
    trim_back(trim_front(s))
}

fn is_blank_exec(c: char) -> (r: bool)
    ensures
        r == is_blank(c),
{
    c == ' ' || c == '\t' || c == '\r'
}

fn trim_range(chars: &Vec<char>, lo: usize, hi: usize) -> (r: (usize, usize))
    requires
        lo <= hi <= chars@.len(),
    ensures
        lo <= r.0 <= r.1 <= hi,
        chars@.subrange(r.0 as int, r.1 as int) == trim(chars@.subrange(lo as int, hi as int)),
{
    let ghost orig = chars@.subrange(lo as int, hi as int);
    let mut a = lo;
    while a < hi && is_blank_exec(chars[a])
        invariant
            lo <= a <= hi <= chars@.len(),
            trim_front(orig) == trim_front(chars@.subrange(a as int, hi as int)),
        decreases hi - a,
    {
        proof {
            let cur = chars@.subrange(a as int, hi as int);
            assert(cur[0] == chars@[a as int]);
            assert(cur.drop_first() =~= chars@.subrange(a as int + 1, hi as int));
        }
        a = a + 1;
    }
    proof {
        let cur = chars@.subrange(a as int, hi as int);
        assert(trim_front(cur) == cur);
        assert(trim_front(orig) == chars@.subrange(a as int, hi as int));
    }
    let mut b = hi;
    while b > a && is_blank_exec(chars[b - 1])
        invariant
            lo <= a <= b <= hi <= chars@.len(),
            trim_front(orig) == chars@.subrange(a as int, hi as int),
            trim_back(chars@.subrange(a as int, hi as int)) == trim_back(
                chars@.subrange(a as int, b as int),
            ),
        decreases b,
    {
        proof {
            let cur = chars@.subrange(a as int, b as int);
            assert(cur.last() == chars@[b - 1]);
            assert(cur.drop_last() =~= chars@.subrange(a as int, b as int - 1));
        }
        b = b - 1;
    }
    proof {
        let cur = chars@.subrange(a as int, b as int);
        assert(trim_back(cur) == cur);
    }
    (a, b)
}

/// The index of the first `=>` in `s`, if any.
pub open spec fn find_arrow(s: Seq<char>) -> Option<int>
    decreases s.len(),
{
    if s.len() < 2 {
        None
    } else if s[0] == '=' && s[1] == '>' {
        Some(0)
    } else {
        match find_arrow(s.drop_first()) {
            None => None,
            Some(i) => Some(i + 1),
        }
    }
}

proof fn lemma_find_arrow(s: Seq<char>)
    ensures
        match find_arrow(s) {
            Some(i) => 0 <= i && i + 2 <= s.len() && s[i] == '=' && s[i + 1] == '>',
            None => true,
        },
    decreases s.len(),
{
    if s.len() >= 2 && !(s[0] == '=' && s[1] == '>') {
        lemma_find_arrow(s.drop_first());
    }
}

proof fn lemma_find_arrow_skip(s: Seq<char>, i: int)
    requires
        0 <= i,
        i + 1 <= s.len(),
        forall|j: int| 0 <= j < i ==> !((#[trigger] s[j]) == '=' && s[j + 1] == '>'),
    ensures
        find_arrow(s) == match find_arrow(s.skip(i)) {
            None => None::<int>,
            Some(k) => Some(k + i),
        },
    decreases i,
{
    if i == 0 {
        assert(s.skip(0) == s);
    } else {
        lemma_find_arrow_skip(s, i - 1);
        let t = s.skip(i - 1);
        assert(t.len() >= 2);
        assert(t[0] == s[i - 1]);
        assert(t[1] == s[i]);
        assert(t.drop_first() == s.skip(i));
    }
}

fn find_arrow_in(chars: &Vec<char>, lo: usize, hi: usize) -> (r: Option<usize>)
    requires
        lo <= hi <= chars@.len(),
    ensures
        match find_arrow(chars@.subrange(lo as int, hi as int)) {
            Some(k) => r == Some((lo + k) as usize),
            None => r is None,
        },
{
    let ghost s = chars@.subrange(lo as int, hi as int);
    if hi - lo < 2 {
        return None;
    }
    let mut p: usize = lo;
    while p < hi - 1
        invariant
            lo <= p,
            p + 1 <= hi <= chars@.len(),
            s == chars@.subrange(lo as int, hi as int),
            hi - lo >= 2,
            forall|j: int| 0 <= j < p - lo ==> !((#[trigger] s[j]) == '=' && s[j + 1] == '>'),
        decreases hi - p,
    {
        if chars[p] == '=' && chars[p + 1] == '>' {
            proof {
                lemma_find_arrow_skip(s, p - lo);
                assert(s.skip(p - lo)[0] == '=');
                assert(s.skip(p - lo)[1] == '>');
            }
            return Some(p);
        }
        p = p + 1;
    }
    proof {
        lemma_find_arrow_skip(s, (hi - 1 - lo) as int);
        assert(s.skip((hi - 1 - lo) as int).len() == 1);
    }
    None
}

/// The trimmed mask and command texts of a table row, when the row has
/// exactly one `=>` delimiter.
pub open spec fn split_row(s: Seq<char>) -> Option<(Seq<char>, Seq<char>)> {
    match find_arrow(s) {
        None => None,
        Some(i) => {
            if find_arrow(s.skip(i + 2)) is Some {
                None
            } else {
                Some((trim(s.subrange(0, i)), trim(s.skip(i + 2))))
            }
        },
    }
}

/// The compile error a table row denotes, if any: a bad row shape or mask
/// is a malformed pattern, a bad operand a malformed command.
pub open spec fn row_error(l: Seq<char>) -> Option<Error> {
    match split_row(l) {
        None => Some(Error::MalformedPattern),
        Some(parts) => match mask_cells(parts.0) {
            None => Some(Error::MalformedPattern),
            Some(cs) => if !(cs.len() == 8 || cs.len() == 16 || cs.len() == 32) {
                Some(Error::MalformedPattern)
            } else {
                match parse_args(cmd_args_part(parts.1)) {
                    None => Some(Error::MalformedCommand),
                    Some(_) => None,
                }
            },
        },
    }
}

/// Whether compiled pattern `p` is what table row `l` denotes.
pub open spec fn row_pattern(l: Seq<char>, p: InsPattern) -> bool {
    match split_row(l) {
        None => false,
        Some(parts) => match mask_cells(parts.0) {
            None => false,
            Some(cs) => (cs.len() == 8 || cs.len() == 16 || cs.len() == 32) && p.mask_view() == cs
                && (match parse_args(cmd_args_part(parts.1)) {
                    None => false,
                    Some(ps) => p.cmd_spec().name@ == cmd_name_part(parts.1) && args_model(
                        p.cmd_spec().args@,
                    ) == ps,
                }),
        },
    }
}

/// One table row: a compiled mask and the command it drives.
#[derive(Debug)]
pub struct InsPattern {
    mask: InsMask,
    cmd: InsCmd,
}

impl InsPattern {
    /// The pattern's mask cells.
    pub closed spec fn mask_view(self) -> Seq<MaskCell> {
        self.mask@
    }

    /// The pattern's compiled command.
    pub closed spec fn cmd_spec(self) -> InsCmd {
        self.cmd
    }

    /// The mask is well formed.
    pub open spec fn wf(self) -> bool {
        cells_wf(self.mask_view())
    }

    /// Matches `word` against the pattern's mask.
    pub fn do_match(&self, word: u32) -> (r: Option<VarBuf>)
        requires
            self.wf(),
        ensures
            r is Some <==> mask_matches(self.mask_view(), word),
            r matches Some(buf) ==> buf.wf() && forall|v: char| #[trigger]
                buf.bits_of(v) == captured(self.mask_view(), word, v),
    {
        self.mask.do_match(word)
    }

    /// The pattern's width in bytes: its cell count over eight.
    pub fn len(&self) -> (r: usize)
        requires
            self.wf(),
        ensures
            r == self.mask_view().len() / 8,
            r == 1 || r == 2 || r == 4,
    {
        self.mask.bits() / 8
    }

    /// The compiled output command.
    pub fn cmd(&self) -> (r: &InsCmd)
        ensures
            *r == self.cmd_spec(),
    {
        &self.cmd
    }
}

/// Compiles one table row of the form `<mask> => <command>`, with blanks
/// trimmed off both parts.  A row without exactly one `=>` is a malformed
/// pattern.
pub fn parse_pattern(s: &str) -> (r: Result<InsPattern, Error>)
    ensures
        match row_error(s@) {
            Some(e) => r == Err::<InsPattern, Error>(e),
            None => r matches Ok(p) && row_pattern(s@, p) && p.wf(),
        },
{
    let chars = str_to_chars(s);
    let n = chars.len();
    proof {
        assert(chars@.subrange(0, n as int) == chars@);
    }
    let arrow = match find_arrow_in(&chars, 0, n) {
        Some(i) => i,
        None => {
            return Err(Error::MalformedPattern);
        },
    };
    proof {
        lemma_find_arrow(s@);
        assert(chars@.subrange(arrow as int + 2, n as int) =~= s@.skip(arrow as int + 2));
    }
    if find_arrow_in(&chars, arrow + 2, n).is_some() {
        return Err(Error::MalformedPattern);
    }
    let (m0, m1) = trim_range(&chars, 0, arrow);
    let (c0, c1) = trim_range(&chars, arrow + 2, n);
    proof {
        assert(chars@.subrange(0, arrow as int) == s@.subrange(0, arrow as int));
    }
    let mask_str = chars_to_string(&chars.as_slice()[m0..m1]);
    let cmd_str = chars_to_string(&chars.as_slice()[c0..c1]);
    let mask = match parse_mask(mask_str.as_str()) {
        Ok(m) => m,
        Err(e) => {
            return Err(e);
        },
    };
    let cmd = match parse_cmd(cmd_str.as_str()) {
        Ok(c) => c,
        Err(e) => {
            return Err(e);
        },
    };
    Ok(InsPattern { mask, cmd })
}

/// The non-empty lines of the table text, in order.
pub open spec fn table_rows(s: Seq<char>) -> Seq<Seq<char>>
    decreases s.len(),
    via table_rows_dec
{
    match find_char(s, '\n') {
        None => if s.len() == 0 {
            Seq::empty()
        } else {
            seq![s]
        },
        Some(i) => {
            let rest = table_rows(s.subrange(i + 1, s.len() as int));
            if i == 0 {
                rest
            } else {
                seq![s.subrange(0, i)] + rest
            }
        },
    }
}

#[via_fn]
proof fn table_rows_dec(s: Seq<char>) {
    lemma_find_char(s, '\n');
}

/// Compiles the whole instruction table: one pattern per non-empty line,
/// blank lines skipped, rows in source order.  The first bad row's error
/// is returned.
pub fn parse_instructions(contents: &str) -> (r: Result<Vec<InsPattern>, Error>)
    ensures
        r matches Ok(ps) ==> ps@.len() == table_rows(contents@).len() && (forall|j: int|
            0 <= j < ps@.len() ==> row_pattern(table_rows(contents@)[j], #[trigger] ps@[j])
                && ps@[j].wf()),
        r matches Err(e) ==> exists|j: int|
            0 <= j < table_rows(contents@).len() && row_error(#[trigger] table_rows(contents@)[j])
                == Some(e) && (forall|k: int|
                0 <= k < j ==> row_error(#[trigger] table_rows(contents@)[k]) is None),
{
    let chars = str_to_chars(contents);
    let n = chars.len();
    let ghost all = table_rows(contents@);
    let mut patterns: Vec<InsPattern> = Vec::new();
    let ghost mut done: Seq<Seq<char>> = Seq::empty();
    let mut cur: usize = 0;
    proof {
        assert(chars@.subrange(0, n as int) == contents@);
        assert(all =~= done + table_rows(chars@.subrange(cur as int, n as int)));
    }
    while cur < n
        invariant
            cur <= n,
            n == chars@.len(),
            chars@ == contents@,
            all == table_rows(contents@),
            all =~= done + table_rows(chars@.subrange(cur as int, n as int)),
            patterns@.len() == done.len(),
            forall|j: int|
                0 <= j < patterns@.len() ==> row_pattern(done[j], #[trigger] patterns@[j])
                    && patterns@[j].wf(),
            forall|j: int| 0 <= j < done.len() ==> row_error(#[trigger] done[j]) is None,
        decreases n - cur,
    {
        let ghost rem = chars@.subrange(cur as int, n as int);
        proof {
            lemma_find_char(rem, '\n');
        }
        let line_end: usize;
        let next: usize;
        match find_char_in(&chars, cur, n, '\n') {
            Some(i) => {
                line_end = i;
                next = i + 1;
            },
            None => {
                line_end = n;
                next = n;
            },
        }
        proof {
            match find_char(rem, '\n') {
                Some(i) => {
                    assert(rem.subrange(i + 1, rem.len() as int) =~= chars@.subrange(
                        line_end as int + 1,
                        n as int,
                    ));
                    if i != 0 {
                        assert(rem.subrange(0, i) =~= chars@.subrange(
                            cur as int,
                            line_end as int,
                        ));
                    }
                },
                None => {},
            }
        }
        if line_end > cur {
            let line = chars_to_string(&chars.as_slice()[cur..line_end]);
            let ghost lseq = chars@.subrange(cur as int, line_end as int);
            proof {
                assert(table_rows(rem)[0] == lseq);
                assert(all[done.len() as int] == lseq);
            }
            match parse_pattern(line.as_str()) {
                Ok(p) => {
                    patterns.push(p);
                    proof {
                        done = done.push(lseq);
                        assert(all =~= done + table_rows(
                            chars@.subrange(next as int, n as int),
                        ));
                    }
                },
                Err(e) => {
                    proof {
                        assert(row_error(all[done.len() as int]) == Some(e));
                    }
                    return Err(e);
                },
            }
        } else {
            proof {
                assert(all =~= done + table_rows(chars@.subrange(next as int, n as int)));
            }
        }
        cur = next;
    }
    proof {
        assert(table_rows(chars@.subrange(n as int, n as int)).len() == 0);
        assert(all =~= done);
    }
    Ok(patterns)
}

} // verus!
