//! Text building blocks: the characters of a string, strings from
//! characters, and decimal / hexadecimal digit rendering.

use vstd::prelude::*;
use vstd::string::StringExecFns;

verus! {

/// Relies on str::chars and Iterator::collect for Vec: the characters of a
/// string slice, in order, which are exactly the string's view.
#[verifier::external_body]
pub(crate) fn str_to_chars(s: &str) -> (r: Vec<char>)
    ensures
        r@ == s@,
{
    s.chars().collect()
}

/// Relies on Iterator::collect for String: concatenating the characters of
/// the slice, in order, yields the string whose view is that sequence.
#[verifier::external_body]
pub(crate) fn chars_to_string(v: &[char]) -> (r: String)
    ensures
        r@ == v@,
{
    v.iter().collect()
}

/// Appends a character sequence to a string being built.
pub(crate) fn append_chars(s: &mut String, v: &Vec<char>)
    ensures
        final(s)@ == old(s)@ + v@,
{
    let t = chars_to_string(v.as_slice());
    s.append(t.as_str());
}

/// The character for a single decimal digit.
pub open spec fn dec_digit(d: nat) -> char
    recommends
        d < 10,
{
    if d == 0 {
        '0'
    } else if d == 1 {
        '1'
    } else if d == 2 {
        '2'
    } else if d == 3 {
        '3'
    } else if d == 4 {
        '4'
    } else if d == 5 {
        '5'
    } else if d == 6 {
        '6'
    } else if d == 7 {
        '7'
    } else if d == 8 {
        '8'
    } else {
        '9'
    }
}

/// The lowercase character for a single hexadecimal digit.
pub open spec fn hex_digit(d: nat) -> char
    recommends
        d < 16,
{
    if d < 10 {
        dec_digit(d)
    } else if d == 10 {
        'a'
    } else if d == 11 {
        'b'
    } else if d == 12 {
        'c'
    } else if d == 13 {
        'd'
    } else if d == 14 {
        'e'
    } else {
        'f'
    }
}

/// The decimal rendering of `n`, without leading zeros (a lone zero for 0).
pub open spec fn dec_digits(n: nat) -> Seq<char>
    decreases n,
{
    if n < 10 {
        seq![dec_digit(n)]
    } else {
        dec_digits(n / 10).push(dec_digit(n % 10))
    }
}

/// The lowercase hexadecimal rendering of `n`, without leading zeros.
pub open spec fn hex_digits(n: nat) -> Seq<char>
    decreases n,
{
    if n < 16 {
        seq![hex_digit(n)]
    } else {
        hex_digits(n / 16).push(hex_digit(n % 16))
    }
}

/// Hexadecimal rendering padded with zeros to at least two digits.
pub open spec fn hex2_digits(n: nat) -> Seq<char> {
    if n < 16 {
        seq!['0', hex_digit(n)]
    } else {
        hex_digits(n)
    }
}

/// Hexadecimal rendering padded with spaces to at least four columns.
pub open spec fn hex_pad4(n: nat) -> Seq<char> {
    let h = hex_digits(n);
    if h.len() == 1 {
        seq![' ', ' ', ' '] + h
    } else if h.len() == 2 {
        seq![' ', ' '] + h
    } else if h.len() == 3 {
        seq![' '] + h
    } else {
        h
    }
}

fn dec_digit_char(d: u32) -> (c: char)
    requires
        d < 10,
    ensures
        c == dec_digit(d as nat),
{
    if d == 0 {
        '0'
    } else if d == 1 {
        '1'
    } else if d == 2 {
        '2'
    } else if d == 3 {
        '3'
    } else if d == 4 {
        '4'
    } else if d == 5 {
        '5'
    } else if d == 6 {
        '6'
    } else if d == 7 {
        '7'
    } else if d == 8 {
        '8'
    } else {
        '9'
    }
}

fn hex_digit_char(d: u64) -> (c: char)
    requires
        d < 16,
    ensures
        c == hex_digit(d as nat),
{
    if d < 10 {
        dec_digit_char(d as u32)
    } else if d == 10 {
        'a'
    } else if d == 11 {
        'b'
    } else if d == 12 {
        'c'
    } else if d == 13 {
        'd'
    } else if d == 14 {
        'e'
    } else {
        'f'
    }
}

/// Renders `n` in decimal.
pub fn dec_chars(n: u32) -> (r: Vec<char>)
    ensures
        r@ == dec_digits(n as nat),
    decreases n,
{
    if n < 10 {
        let mut v: Vec<char> = Vec::new();
        v.push(dec_digit_char(n));
        v
    } else {
        let mut v = dec_chars(n / 10);
        v.push(dec_digit_char(n % 10));
        v
    }
}

/// Renders `n` in lowercase hexadecimal.
pub fn hex_chars(n: u64) -> (r: Vec<char>)
    ensures
        r@ == hex_digits(n as nat),
    decreases n,
{
    if n < 16 {
        let mut v: Vec<char> = Vec::new();
        v.push(hex_digit_char(n));
        v
    } else {
        let mut v = hex_chars(n / 16);
        v.push(hex_digit_char(n % 16));
        v
    }
}

/// Renders `n` in lowercase hexadecimal, zero-padded to two digits.
pub fn hex2_chars(n: u32) -> (r: Vec<char>)
    ensures
        r@ == hex2_digits(n as nat),
{
    if n < 16 {
        let mut v: Vec<char> = Vec::new();
        v.push('0');
        v.push(hex_digit_char(n as u64));
        v
    } else {
        hex_chars(n as u64)
    }
}

/// Renders `n` in lowercase hexadecimal, space-padded to four columns.
pub fn hex_pad4_chars(n: u64) -> (r: Vec<char>)
    ensures
        r@ == hex_pad4(n as nat),
{
    let h = hex_chars(n);
    let mut v: Vec<char> = Vec::new();
    if h.len() == 1 {
        v.push(' ');
        v.push(' ');
        v.push(' ');
    } else if h.len() == 2 {
        v.push(' ');
        v.push(' ');
    } else if h.len() == 3 {
        v.push(' ');
    }
    let mut i: usize = 0;
    while i < h.len()
        invariant
            i <= h.len(),
            v@ == pad_spaces(h@) + h@.subrange(0, i as int),
            h@ == hex_digits(n as nat),
        decreases h.len() - i,
    {
        v.push(h[i]);
        proof {
            assert(h@.subrange(0, i + 1 as int) == h@.subrange(0, i as int).push(h@[i as int]));
        }
        i = i + 1;
    }
    proof {
        assert(h@.subrange(0, h@.len() as int) == h@);
    }
    v
}

/// The index of the first occurrence of `c` in `s`, if any.
pub open spec fn find_char(s: Seq<char>, c: char) -> Option<int>
    decreases s.len(),
{
    if s.len() == 0 {
        None
    } else if s[0] == c {
        Some(0)
    } else {
        match find_char(s.drop_first(), c) {
            None => None,
            Some(i) => Some(i + 1),
        }
    }
}

/// What `find_char` returns: the first index holding `c`, or nothing when
/// no index does.
pub proof fn lemma_find_char(s: Seq<char>, c: char)
    ensures
        match find_char(s, c) {
            Some(i) => 0 <= i < s.len() && s[i] == c && (forall|j: int| 0 <= j < i ==> s[j] != c),
            None => forall|j: int| 0 <= j < s.len() ==> s[j] != c,
        },
    decreases s.len(),
{
    if s.len() > 0 && s[0] != c {
        let t = s.drop_first();
        lemma_find_char(t, c);
        assert(forall|j: int| 0 <= j < t.len() ==> t[j] == s[j + 1]);
        match find_char(t, c) {
            Some(i) => {
                assert(find_char(s, c) == Some(i + 1));
                assert(s[i + 1] == c);
                assert forall|j: int| 0 <= j < i + 1 implies s[j] != c by {
                    if j > 0 {
                        assert(t[j - 1] != c);
                    }
                }
            },
            None => {
                assert forall|j: int| 0 <= j < s.len() implies s[j] != c by {
                    if j > 0 {
                        assert(t[j - 1] != c);
                    }
                }
            },
        }
    }
}

proof fn lemma_find_char_skip(s: Seq<char>, c: char, i: int)
    requires
        0 <= i <= s.len(),
        forall|j: int| 0 <= j < i ==> s[j] != c,
    ensures
        find_char(s, c) == match find_char(s.skip(i), c) {
            None => None::<int>,
            Some(k) => Some(k + i),
        },
    decreases i,
{
    if i == 0 {
        assert(s.skip(0) == s);
    } else {
        lemma_find_char_skip(s, c, i - 1);
        assert(s.skip(i - 1).len() > 0);
        assert(s.skip(i - 1)[0] == s[i - 1]);
        assert(s.skip(i - 1).drop_first() == s.skip(i));
    }
}

/// Finds the first `c` at an index in `[lo, hi)` of `chars`.
pub(crate) fn find_char_in(chars: &Vec<char>, lo: usize, hi: usize, c: char) -> (r: Option<usize>)
    requires
        lo <= hi <= chars@.len(),
    ensures
        match find_char(chars@.subrange(lo as int, hi as int), c) {
            Some(k) => r == Some((lo + k) as usize),
            None => r is None,
        },
{
    let ghost s = chars@.subrange(lo as int, hi as int);
    let mut p: usize = lo;
    while p < hi
        invariant
            lo <= p <= hi <= chars@.len(),
            s == chars@.subrange(lo as int, hi as int),
            forall|j: int| 0 <= j < p - lo ==> s[j] != c,
        decreases hi - p,
    {
        if chars[p] == c {
            proof {
                lemma_find_char_skip(s, c, p - lo);
                assert(s.skip(p - lo)[0] == c);
            }
            return Some(p);
        }
        p = p + 1;
    }
    proof {
        lemma_find_char_skip(s, c, (hi - lo) as int);
        assert(s.skip((hi - lo) as int).len() == 0);
    }
    None
}

/// The sequence with its leading spaces removed.
pub open spec fn skip_spaces(s: Seq<char>) -> Seq<char>
    decreases s.len(),
{
    if s.len() > 0 && s[0] == ' ' {
        skip_spaces(s.drop_first())
    } else {
        s
    }
}

/// Skipping spaces never lengthens a sequence.
pub proof fn lemma_skip_spaces_len(s: Seq<char>)
    ensures
        skip_spaces(s).len() <= s.len(),
    decreases s.len(),
{
    if s.len() > 0 && s[0] == ' ' {
        lemma_skip_spaces_len(s.drop_first());
    }
}

/// Appends every character of `src` to `dst`.
pub(crate) fn push_all(dst: &mut Vec<char>, src: &Vec<char>)
    ensures
        final(dst)@ == old(dst)@ + src@,
{
    let mut i: usize = 0;
    while i < src.len()
        invariant
            i <= src.len(),
            dst@ == old(dst)@ + src@.subrange(0, i as int),
        decreases src.len() - i,
    {
        dst.push(src[i]);
        proof {
            assert(src@.subrange(0, i + 1 as int) == src@.subrange(0, i as int).push(src@[i as int]));
        }
        i = i + 1;
    }
    proof {
        assert(src@.subrange(0, src@.len() as int) == src@);
        assert(dst@ == old(dst)@ + src@);
    }
}

/// The space padding that `hex_pad4` puts before the digits.
pub open spec fn pad_spaces(h: Seq<char>) -> Seq<char> {
    if h.len() == 1 {
        seq![' ', ' ', ' ']
    } else if h.len() == 2 {
        seq![' ', ' ']
    } else if h.len() == 3 {
        seq![' ']
    } else {
        Seq::empty()
    }
}

} // verus!
