//! Bit-pattern masks: one cell per bit position, each a literal zero, a
//! literal one, or a variable bit named by a letter.  A mask is compiled
//! from text and matched against instruction words.

use vstd::prelude::*;
use vstd::arithmetic::power2::{lemma2_to64, lemma_pow2_pos, lemma_pow2_unfold, pow2};
use vstd::arithmetic::div_mod::{
    lemma_div_denominator, lemma_fundamental_div_mod, lemma_fundamental_div_mod_converse,
};
use crate::bits::{bit_at, bits_ok, bits_val, lemma_bits_val_digit, word_bit};
use crate::ins::var_buf::{is_var_char, is_var_char_exec, VarBuf};
use crate::text::str_to_chars;
use crate::Error;

verus! {

/// One bit position of a compiled mask.
#[derive(Debug, Clone, Copy, PartialEq, Eq, Structural)]
pub enum MaskCell {
    /// The word must hold a 0 here.
    Zero,
    /// The word must hold a 1 here.
    One,
    /// The word's bit here is captured for the named variable.
    Var(char),
}

/// Whether a mask cell accepts bit `b` of a word.
pub open spec fn cell_matches(c: MaskCell, b: u8) -> bool {
    match c {
        MaskCell::Zero => b == 0,
        MaskCell::One => b == 1,
        MaskCell::Var(_) => true,
    }
}

/// Every variable cell is tagged with a letter, and the cell count is one
/// of the three instruction widths.
pub open spec fn cells_wf(cells: Seq<MaskCell>) -> bool {
    &&& (cells.len() == 8 || cells.len() == 16 || cells.len() == 32)
    &&& forall|i: int|
        0 <= i < cells.len() ==> ((#[trigger] cells[i]) matches MaskCell::Var(v) ==> is_var_char(
            v,
        ))
}

/// Whether word `w` satisfies every literal cell.  Cell 0 speaks about the
/// most significant bit of the word's width.
pub open spec fn mask_matches(cells: Seq<MaskCell>, w: u32) -> bool {
    forall|i: int|
        0 <= i < cells.len() ==> cell_matches(
            #[trigger] cells[i],
            bit_at(w, (cells.len() - 1 - i) as nat),
        )
}

/// The bits the first `n` cells capture for variable `v`, in scan order.
pub open spec fn captured_prefix(cells: Seq<MaskCell>, w: u32, v: char, n: int) -> Seq<u8>
    decreases n,
{
    if n <= 0 {
        Seq::empty()
    } else {
        let rest = captured_prefix(cells, w, v, n - 1);
        if cells[n - 1] == MaskCell::Var(v) {
            rest.push(bit_at(w, (cells.len() - n) as nat))
        } else {
            rest
        }
    }
}

/// The bits a full scan of the mask captures for variable `v`.
pub open spec fn captured(cells: Seq<MaskCell>, w: u32, v: char) -> Seq<u8> {
    captured_prefix(cells, w, v, cells.len() as int)
}

/// A prefix of `n` cells captures at most `n` bits, each 0 or 1.
pub proof fn lemma_captured_prefix_len(cells: Seq<MaskCell>, w: u32, v: char, n: int)
    ensures
        captured_prefix(cells, w, v, n).len() <= if n <= 0 {
            0int
        } else {
            n
        },
        bits_ok(captured_prefix(cells, w, v, n)),
    decreases n,
{
    if n > 0 {
        lemma_captured_prefix_len(cells, w, v, n - 1);
    }
}

/// A mask, compiled from one line of mask text.
#[derive(Debug)]
pub struct InsMask {
    cells: Vec<MaskCell>,
}

impl View for InsMask {
    type V = Seq<MaskCell>;

    closed spec fn view(&self) -> Seq<MaskCell> {
        self.cells@
    }
}

impl InsMask {
    /// The compiled cell sequence is well formed.
    pub open spec fn wf(self) -> bool {
        cells_wf(self@)
    }

    /// The number of bit cells, which is the instruction's bit width.
    pub fn bits(&self) -> (r: usize)
        ensures
            r == self@.len(),
    {
        self.cells.len()
    }

    /// Matches `word` against the mask.  Returns the captured variable
    /// bits exactly when every literal cell agrees with the word.
    pub fn do_match(&self, word: u32) -> (r: Option<VarBuf>)
        requires
            self.wf(),
        ensures
            r is Some <==> mask_matches(self@, word),
            r matches Some(buf) ==> buf.wf() && forall|v: char| #[trigger]
                buf.bits_of(v) == captured(self@, word, v),
    {
        let n = self.cells.len();
        let mut buf = VarBuf::new();
        let mut i: usize = 0;
        proof {
            assert forall|v: char| #[trigger]
                buf.bits_of(v) == captured_prefix(self@, word, v, 0int) by {}
        }
        while i < n
            invariant
                self.wf(),
                n == self@.len(),
                i <= n,
                buf.wf(),
                forall|v: char| #[trigger] buf.bits_of(v) == captured_prefix(self@, word, v, i as int),
                forall|j: int|
                    0 <= j < i ==> cell_matches(
                        #[trigger] self@[j],
                        bit_at(word, (n - 1 - j) as nat),
                    ),
            decreases n - i,
        {
            let b = word_bit(word, n - 1 - i);
            match self.cells[i] {
                MaskCell::Zero => {
                    if b != 0 {
                        proof {
                            assert(!cell_matches(self@[i as int], bit_at(word, (n - 1 - i) as nat)));
                        }
                        return None;
                    }
                },
                MaskCell::One => {
                    if b != 1 {
                        proof {
                            assert(!cell_matches(self@[i as int], bit_at(word, (n - 1 - i) as nat)));
                        }
                        return None;
                    }
                },
                MaskCell::Var(v) => {
                    proof {
                        lemma_captured_prefix_len(self@, word, v, i as int);
                    }
                    buf.push_bit(v, b);
                },
            }
            proof {
                assert forall|v2: char| #[trigger]
                    buf.bits_of(v2) == captured_prefix(self@, word, v2, i as int + 1) by {
                    match self@[i as int] {
                        MaskCell::Var(v) => {
                            if v2 == v {
                                assert(buf.bits_of(v2) == captured_prefix(self@, word, v2, i as int)
                                    .push(bit_at(word, (n - 1 - i) as nat)));
                            }
                        },
                        _ => {},
                    }
                }
            }
            i = i + 1;
        }
        Some(buf)
    }
}

/// The cells a mask line denotes: spaces are skipped, `0` and `1` are
/// literals, a letter is a variable bit, and any other character makes the
/// whole line malformed.
pub open spec fn mask_cells(s: Seq<char>) -> Option<Seq<MaskCell>>
    decreases s.len(),
{
    if s.len() == 0 {
        Some(Seq::empty())
    } else {
        match mask_cells(s.drop_last()) {
            None => None,
            Some(cs) => {
                let c = s.last();
                if c == ' ' {
                    Some(cs)
                } else if c == '0' {
                    Some(cs.push(MaskCell::Zero))
                } else if c == '1' {
                    Some(cs.push(MaskCell::One))
                } else if is_var_char(c) {
                    Some(cs.push(MaskCell::Var(c)))
                } else {
                    None
                }
            },
        }
    }
}

proof fn lemma_mask_cells_none_extends(s: Seq<char>, m: int, m2: int)
    requires
        0 <= m <= m2 <= s.len(),
        mask_cells(s.subrange(0, m)) is None,
    ensures
        mask_cells(s.subrange(0, m2)) is None,
    decreases m2 - m,
{
    if m2 > m {
        lemma_mask_cells_none_extends(s, m, m2 - 1);
        assert(s.subrange(0, m2).drop_last() == s.subrange(0, m2 - 1));
    }
}

/// Compiles one trimmed mask line.  Fails exactly when the line holds a
/// character outside `{0, 1, letters, space}` or denotes a cell count other
/// than 8, 16 or 32.
pub fn parse_mask(s: &str) -> (r: Result<InsMask, Error>)
    ensures
        match mask_cells(s@) {
            Some(cs) => {
                if cs.len() == 8 || cs.len() == 16 || cs.len() == 32 {
                    r matches Ok(m) && m@ == cs && m.wf()
                } else {
                    r == Err::<InsMask, Error>(Error::MalformedPattern)
                }
            },
            None => r == Err::<InsMask, Error>(Error::MalformedPattern),
        },
{
    let chars = str_to_chars(s);
    let mut cells: Vec<MaskCell> = Vec::new();
    let mut i: usize = 0;
    proof {
        assert(s@.subrange(0, 0int) == Seq::<char>::empty());
    }
    while i < chars.len()
        invariant
            chars@ == s@,
            i <= chars.len(),
            mask_cells(s@.subrange(0, i as int)) == Some(cells@),
            forall|j: int|
                0 <= j < cells@.len() ==> ((#[trigger] cells@[j]) matches MaskCell::Var(v)
                    ==> is_var_char(v)),
        decreases chars.len() - i,
    {
        let c = chars[i];
        proof {
            assert(s@.subrange(0, i as int + 1).drop_last() == s@.subrange(0, i as int));
            assert(s@.subrange(0, i as int + 1).last() == s@[i as int]);
        }
        if c == ' ' {
        } else if c == '0' {
            cells.push(MaskCell::Zero);
        } else if c == '1' {
            cells.push(MaskCell::One);
        } else if is_var_char_exec(c) {
            cells.push(MaskCell::Var(c));
        } else {
            proof {
                lemma_mask_cells_none_extends(s@, i as int + 1, s@.len() as int);
                assert(s@.subrange(0, s@.len() as int) == s@);
            }
            return Err(Error::MalformedPattern);
        }
        i = i + 1;
    }
    proof {
        assert(s@.subrange(0, s@.len() as int) == s@);
    }
    let n = cells.len();
    if n == 8 || n == 16 || n == 32 {
        Ok(InsMask { cells })
    } else {
        Err(Error::MalformedPattern)
    }
}

/// Whether no cell of the mask is a variable.
pub open spec fn no_vars(cells: Seq<MaskCell>) -> bool {
    forall|i: int| 0 <= i < cells.len() ==> !((#[trigger] cells[i]) matches MaskCell::Var(_))
}

/// The one word value a purely literal mask describes.
pub open spec fn literal_value(cells: Seq<MaskCell>) -> nat
    decreases cells.len(),
{
    if cells.len() == 0 {
        0
    } else {
        (literal_value(cells.drop_last()) * 2 + (if cells.last() == MaskCell::One {
            1nat
        } else {
            0nat
        })) as nat
    }
}

/// A mask with no variable cells accepts exactly one word of its width:
/// the word whose bits are its literal cells.
pub proof fn lemma_literal_mask_exact(cells: Seq<MaskCell>, w: u32)
    requires
        no_vars(cells),
        cells.len() <= 32,
        (w as nat) < pow2(cells.len()),
    ensures
        mask_matches(cells, w) <==> (w as nat) == literal_value(cells),
    decreases cells.len(),
{
    let n = cells.len() as int;
    if n == 0 {
        lemma2_to64();
        assert(w == 0);
    } else {
        let front = cells.drop_last();
        let w2: u32 = w / 2;
        lemma_fundamental_div_mod(w as int, 2);
        lemma_pow2_unfold(cells.len());
        assert((w2 as nat) < pow2(front.len()));
        assert(no_vars(front));
        lemma_literal_mask_exact(front, w2);
        // Bits of w above position 0 are the bits of w / 2, shifted down.
        assert forall|k: nat| 1 <= k <= 31 implies bit_at(w, k) == bit_at(w2, (k - 1) as nat) by {
            lemma_pow2_unfold(k);
            lemma_pow2_pos((k - 1) as nat);
            lemma_div_denominator(w as int, 2, pow2((k - 1) as nat) as int);
        }
        lemma2_to64();
        assert(bit_at(w, 0) == w % 2);
        // The front cells of `cells` match w exactly when front matches w2.
        assert forall|j: int| 0 <= j < n - 1 implies (cell_matches(
            cells[j],
            bit_at(w, (n - 1 - j) as nat),
        ) == cell_matches(front[j], bit_at(w2, (n - 2 - j) as nat))) by {
            assert(bit_at(w, (n - 1 - j) as nat) == bit_at(w2, (n - 2 - j) as nat));
        }
        let b: nat = if cells.last() == MaskCell::One {
            1nat
        } else {
            0nat
        };
        if mask_matches(cells, w) {
            assert(mask_matches(front, w2)) by {
                assert forall|j: int| 0 <= j < front.len() implies cell_matches(
                    #[trigger] front[j],
                    bit_at(w2, (front.len() - 1 - j) as nat),
                ) by {
                    assert(cell_matches(cells[j], bit_at(w, (n - 1 - j) as nat)));
                }
            }
            assert(cell_matches(cells[n - 1], bit_at(w, 0)));
            assert(w % 2 == b);
            assert(w as nat == literal_value(front) * 2 + b);
        }
        if (w as nat) == literal_value(cells) {
            assert(w as int == literal_value(front) * 2 + b);
            lemma_fundamental_div_mod_converse(w as int, 2, literal_value(front) as int, b as int);
            assert(w2 as nat == literal_value(front));
            assert(mask_matches(front, w2));
            assert(w % 2 == b);
            assert forall|j: int| 0 <= j < n implies cell_matches(
                #[trigger] cells[j],
                bit_at(w, (n - 1 - j) as nat),
            ) by {
                if j < n - 1 {
                    assert(cell_matches(front[j], bit_at(w2, (front.len() - 1 - j) as nat)));
                } else {
                    assert(!(cells[j] matches MaskCell::Var(_)));
                }
            }
        }
    }
}

/// The cell indices, in scan order, of the first `n` cells that capture a
/// bit for variable `v`.
pub open spec fn var_positions_prefix(cells: Seq<MaskCell>, v: char, n: int) -> Seq<int>
    decreases n,
{
    if n <= 0 {
        Seq::empty()
    } else {
        let rest = var_positions_prefix(cells, v, n - 1);
        if cells[n - 1] == MaskCell::Var(v) {
            rest.push(n - 1)
        } else {
            rest
        }
    }
}

/// The cell indices, in scan order, at which the mask captures bits for `v`.
pub open spec fn var_positions(cells: Seq<MaskCell>, v: char) -> Seq<int> {
    var_positions_prefix(cells, v, cells.len() as int)
}

proof fn lemma_captured_positions(cells: Seq<MaskCell>, w: u32, v: char, n: int)
    requires
        0 <= n <= cells.len(),
    ensures
        captured_prefix(cells, w, v, n).len() == var_positions_prefix(cells, v, n).len(),
        forall|j: int|
            0 <= j < var_positions_prefix(cells, v, n).len() ==> 0 <= #[trigger] var_positions_prefix(
                cells,
                v,
                n,
            )[j] < n,
        forall|j: int|
            0 <= j < var_positions_prefix(cells, v, n).len() ==> #[trigger] captured_prefix(
                cells,
                w,
                v,
                n,
            )[j] == bit_at(w, (cells.len() - 1 - var_positions_prefix(cells, v, n)[j]) as nat),
    decreases n,
{
    if n > 0 {
        lemma_captured_positions(cells, w, v, n - 1);
    }
}

/// Round trip over a captured field: bit `j` (most-significant first) of
/// the captured buffer's value is exactly the word's bit at the `j`-th
/// position the mask captures for `v` — even when those positions are not
/// contiguous in the mask.
pub proof fn lemma_field_round_trip(cells: Seq<MaskCell>, w: u32, v: char, j: int)
    requires
        mask_matches(cells, w),
        0 <= j < var_positions(cells, v).len(),
    ensures
        captured(cells, w, v).len() == var_positions(cells, v).len(),
        (bits_val(captured(cells, w, v)) / pow2(
            (captured(cells, w, v).len() - 1 - j) as nat,
        )) % 2 == bit_at(w, (cells.len() - 1 - var_positions(cells, v)[j]) as nat),
{
    let n = cells.len() as int;
    lemma_captured_positions(cells, w, v, n);
    lemma_captured_prefix_len(cells, w, v, n);
    let s = captured(cells, w, v);
    lemma_bits_val_digit(s, j);
}

} // verus!
