//! Bit-level arithmetic: powers of two, single-bit extraction, and the value
//! of a most-significant-bit-first bit sequence.

use vstd::prelude::*;
use vstd::arithmetic::power2::{
    lemma2_to64, lemma_pow2_pos, lemma_pow2_strictly_increases, lemma_pow2_unfold, pow2,
};
use vstd::arithmetic::div_mod::lemma_div_denominator;

verus! {

/// Computes `2^e` as a machine integer.
pub fn pow2_u64(e: usize) -> (r: u64)
    requires
        e <= 63,
    ensures
        r as nat == pow2(e as nat),
{
    proof {
        lemma2_to64();
    }
    let mut r: u64 = 1;
    let mut i: usize = 0;
    while i < e
        invariant
            i <= e <= 63,
            r as nat == pow2(i as nat),
        decreases e - i,
    {
        proof {
            let e: nat = (i + 1) as nat;
            lemma_pow2_unfold(e);
            if e < 64 {
                lemma_pow2_strictly_increases(e, 64);
                lemma2_to64_high();
            }
        }
        r = r * 2;
        i = i + 1;
    }
    r
}

/// `pow2(64)` written out, so bounds on 64-bit values can be stated.
pub proof fn lemma2_to64_high()
    ensures
        pow2(64) == 0x10000000000000000,
{
    lemma2_to64();
    lemma_pow2_unfold(33);
    lemma_pow2_unfold(34);
    lemma_pow2_unfold(35);
    lemma_pow2_unfold(36);
    lemma_pow2_unfold(37);
    lemma_pow2_unfold(38);
    lemma_pow2_unfold(39);
    lemma_pow2_unfold(40);
    lemma_pow2_unfold(41);
    lemma_pow2_unfold(42);
    lemma_pow2_unfold(43);
    lemma_pow2_unfold(44);
    lemma_pow2_unfold(45);
    lemma_pow2_unfold(46);
    lemma_pow2_unfold(47);
    lemma_pow2_unfold(48);
    lemma_pow2_unfold(49);
    lemma_pow2_unfold(50);
    lemma_pow2_unfold(51);
    lemma_pow2_unfold(52);
    lemma_pow2_unfold(53);
    lemma_pow2_unfold(54);
    lemma_pow2_unfold(55);
    lemma_pow2_unfold(56);
    lemma_pow2_unfold(57);
    lemma_pow2_unfold(58);
    lemma_pow2_unfold(59);
    lemma_pow2_unfold(60);
    lemma_pow2_unfold(61);
    lemma_pow2_unfold(62);
    lemma_pow2_unfold(63);
    lemma_pow2_unfold(64);
}

/// Bit `k` of `w`, counting from the least significant end: 0 or 1.
pub open spec fn bit_at(w: u32, k: nat) -> u8 {
    (((w as nat) / pow2(k)) % 2) as u8
}

/// Extracts bit `k` of `w`.
pub fn word_bit(w: u32, k: usize) -> (r: u8)
    requires
        k < 32,
    ensures
        r == bit_at(w, k as nat),
        r <= 1,
{
    let p = pow2_u64(k);
    proof {
        lemma_pow2_pos(k as nat);
    }
    (((w as u64) / p) % 2) as u8
}

/// Whether every element of `s` is 0 or 1.
pub open spec fn bits_ok(s: Seq<u8>) -> bool {
    forall|i: int| 0 <= i < s.len() ==> s[i] <= 1
}

/// The unsigned value of a bit sequence read most-significant bit first.
pub open spec fn bits_val(s: Seq<u8>) -> nat
    decreases s.len(),
{
    if s.len() == 0 {
        0
    } else {
        (bits_val(s.drop_last()) * 2 + s.last()) as nat
    }
}

/// A sequence of n bits has a value below `2^n`.
pub proof fn lemma_bits_val_bound(s: Seq<u8>)
    requires
        bits_ok(s),
    ensures
        bits_val(s) < pow2(s.len()),
    decreases s.len(),
{
    if s.len() == 0 {
        lemma2_to64();
    } else {
        assert(bits_ok(s.drop_last()));
        lemma_bits_val_bound(s.drop_last());
        lemma_pow2_unfold(s.len());
    }
}

/// Reading digit `j` (most-significant first) back out of `bits_val(s)`
/// yields `s[j]`.
pub proof fn lemma_bits_val_digit(s: Seq<u8>, j: int)
    requires
        bits_ok(s),
        0 <= j < s.len(),
    ensures
        (bits_val(s) / pow2((s.len() - 1 - j) as nat)) % 2 == s[j],
    decreases s.len(),
{
    let n = s.len();
    if j == n - 1 {
        lemma2_to64();
        assert(pow2(0) == 1);
        assert(s.last() <= 1);
        assert(bits_val(s) == bits_val(s.drop_last()) * 2 + s.last());
        vstd::arithmetic::div_mod::lemma_mod_multiples_vanish(
            bits_val(s.drop_last()) as int,
            s.last() as int,
            2,
        );
        assert(bits_val(s) % 2 == s.last() as nat % 2);
        assert(bits_val(s) / 1 == bits_val(s));
    } else {
        let t = s.drop_last();
        assert(bits_ok(t));
        lemma_bits_val_digit(t, j);
        let k = (n - 1 - j) as nat;
        lemma_pow2_unfold(k);
        lemma_pow2_pos((k - 1) as nat);
        // bits_val(s) = 2 * bits_val(t) + b with b <= 1, so dividing by 2
        // first recovers bits_val(t); then divide by pow2(k - 1).
        let b = s.last() as int;
        assert(bits_val(s) as int / 2 == bits_val(t) as int) by {
            assert(bits_val(s) == bits_val(t) * 2 + s.last());
            assert(0 <= b <= 1);
        }
        lemma_div_denominator(bits_val(s) as int, 2, pow2((k - 1) as nat) as int);
        assert(pow2(k) == 2 * pow2((k - 1) as nat));
        assert(bits_val(s) as int / pow2(k) as int == bits_val(t) as int / pow2(
            (k - 1) as nat,
        ) as int);
        assert((n - 1 - j) as nat - 1 == (t.len() - 1 - j) as nat);
    }
}

/// The value of an unsigned field of `w` bits, reinterpreted as a
/// two's-complement signed quantity.
pub open spec fn signed_val(x: nat, w: nat) -> int
    recommends
        1 <= w,
        x < pow2(w),
{
    if x < pow2((w - 1) as nat) {
        x as int
    } else {
        x as int - pow2(w) as int
    }
}

} // verus!
