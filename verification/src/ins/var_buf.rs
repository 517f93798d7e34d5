//! The variable bit buffer: for each single-letter variable, the bits it
//! captured during one match attempt, in the order the matcher scanned them.

use vstd::prelude::*;
use crate::bits::{bits_ok, bits_val, lemma_bits_val_bound};

verus! {

/// The number of distinct variable identifiers, `a`-`z` and `A`-`Z`.
pub open spec fn var_count() -> int {
    52
}

/// Whether `c` can name a variable: a single ASCII letter, case-sensitive.
pub open spec fn is_var_char(c: char) -> bool {
    ('a' as int <= c as int && c as int <= 'z' as int) || ('A' as int <= c as int && c as int
        <= 'Z' as int)
}

/// The slot a variable's bits are kept in: lowercase letters first.
pub open spec fn var_slot(c: char) -> int
    recommends
        is_var_char(c),
{
    if 'a' as int <= c as int && c as int <= 'z' as int {
        c as int - 'a' as int
    } else {
        c as int - 'A' as int + 26
    }
}

/// Distinct letters use distinct slots.
pub proof fn lemma_var_slot_injective(c1: char, c2: char)
    requires
        is_var_char(c1),
        is_var_char(c2),
        c1 != c2,
    ensures
        var_slot(c1) != var_slot(c2),
{
}

fn var_slot_exec(c: char) -> (i: usize)
    requires
        is_var_char(c),
    ensures
        i == var_slot(c),
        i < 52,
{
    let u = c as u32;
    if u >= 97 {
        (u - 97) as usize
    } else {
        (u - 65 + 26) as usize
    }
}

/// Maps each variable letter to the ordered sequence of bits captured for
/// it; a letter with no captured bits maps to the empty sequence.
pub struct VarBuf {
    bufs: Vec<Vec<u8>>,
}

impl VarBuf {
    /// One slot per letter, each holding at most 32 bits, all 0 or 1.
    pub closed spec fn wf(self) -> bool {
        &&& self.bufs@.len() == var_count()
        &&& forall|i: int|
            0 <= i < var_count() ==> (#[trigger] self.bufs@[i])@.len() <= 32 && bits_ok(
                self.bufs@[i]@,
            )
    }

    /// The bits captured so far for variable `v`, in scan order.
    pub closed spec fn bits_of(self, v: char) -> Seq<u8> {
        if is_var_char(v) && 0 <= var_slot(v) < self.bufs@.len() {
            self.bufs@[var_slot(v)]@
        } else {
            Seq::empty()
        }
    }

    /// An empty buffer: no variable has captured any bits.
    pub fn new() -> (r: VarBuf)
        ensures
            r.wf(),
            forall|v: char| r.bits_of(v) == Seq::<u8>::empty(),
    {
        let mut bufs: Vec<Vec<u8>> = Vec::new();
        let mut i: usize = 0;
        while i < 52
            invariant
                i <= 52,
                bufs@.len() == i,
                forall|j: int| 0 <= j < i ==> (#[trigger] bufs@[j])@ == Seq::<u8>::empty(),
            decreases 52 - i,
        {
            bufs.push(Vec::new());
            i = i + 1;
        }
        let r = VarBuf { bufs };
        proof {
            assert forall|v: char| r.bits_of(v) == Seq::<u8>::empty() by {
                if is_var_char(v) && 0 <= var_slot(v) < r.bufs@.len() {
                    assert(r.bufs@[var_slot(v)]@ == Seq::<u8>::empty());
                }
            }
        }
        r
    }

    /// Appends one captured bit to variable `var`'s sequence.
    pub fn push_bit(&mut self, var: char, bit: u8)
        requires
            old(self).wf(),
            is_var_char(var),
            bit <= 1,
            old(self).bits_of(var).len() < 32,
        ensures
            final(self).wf(),
            final(self).bits_of(var) == old(self).bits_of(var).push(bit),
            forall|v: char| v != var ==> final(self).bits_of(v) == old(self).bits_of(v),
    {
        let i = var_slot_exec(var);
        self.bufs[i].push(bit);
        proof {
            assert forall|v: char| v != var implies self.bits_of(v) == old(self).bits_of(v) by {
                if is_var_char(v) {
                    lemma_var_slot_injective(v, var);
                }
            }
        }
    }

    /// The captured value of `var`: its bits concatenated most-significant
    /// first, or `None` when no bit was captured for it.
    pub fn get(&self, var: char) -> (r: Option<u32>)
        requires
            self.wf(),
        ensures
            match r {
                Some(v) => self.bits_of(var).len() > 0 && v as nat == bits_val(self.bits_of(var)),
                None => self.bits_of(var).len() == 0,
            },
    {
        if !is_var_char_exec(var) {
            return None;
        }
        let i = var_slot_exec(var);
        let bits = &self.bufs[i];
        if bits.len() == 0 {
            return None;
        }
        let ghost s = bits@;
        let mut res: u32 = 0;
        let mut k: usize = 0;
        while k < bits.len()
            invariant
                self.wf(),
                k <= bits.len() <= 32,
                bits@ == s,
                s == self.bufs@[i as int]@,
                i < 52,
                res as nat == bits_val(s.subrange(0, k as int)),
            decreases bits.len() - k,
        {
            proof {
                assert(bits_ok(s.subrange(0, k as int)));
                lemma_bits_val_bound(s.subrange(0, k as int));
                if (k as nat) < 31 {
                    vstd::arithmetic::power2::lemma_pow2_strictly_increases(k as nat, 31);
                }
                vstd::arithmetic::power2::lemma2_to64();
                assert(s.subrange(0, (k + 1) as int) == s.subrange(0, k as int).push(s[k as int]));
                assert(s.subrange(0, (k + 1) as int).drop_last() == s.subrange(0, k as int));
            }
            res = res * 2 + (bits[k] as u32);
            k = k + 1;
        }
        proof {
            assert(s.subrange(0, s.len() as int) == s);
        }
        Some(res)
    }

    /// How many bits were captured for `var`, or `None` when none were.
    pub fn bits_len(&self, var: char) -> (r: Option<usize>)
        requires
            self.wf(),
        ensures
            match r {
                Some(n) => n == self.bits_of(var).len() && n > 0,
                None => self.bits_of(var).len() == 0,
            },
    {
        if !is_var_char_exec(var) {
            return None;
        }
        let i = var_slot_exec(var);
        let n = self.bufs[i].len();
        if n == 0 {
            None
        } else {
            Some(n)
        }
    }

    /// The captured bit count of `var`: a synonym of [`Self::bits_len`].
    pub fn bits(&self, var: char) -> (r: Option<usize>)
        requires
            self.wf(),
        ensures
            match r {
                Some(n) => n == self.bits_of(var).len() && n > 0,
                None => self.bits_of(var).len() == 0,
            },
    {
        self.bits_len(var)
    }
}

/// Whether `c` is an ASCII letter, executable form.
pub fn is_var_char_exec(c: char) -> (r: bool)
    ensures
        r == is_var_char(c),
{
    let u = c as u32;
    (u >= 97 && u <= 122) || (u >= 65 && u <= 90)
}

} // verus!
