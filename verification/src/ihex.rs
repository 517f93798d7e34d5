//! Reading the record-oriented hexadecimal container: each line carries a
//! nine-character prefix, a run of data-byte digit pairs and a two-digit
//! checksum; a fixed record ends the file.  The returned buffer is
//! byte-pair swapped, turning the container's little-endian 16-bit words
//! into the big-endian order the decoder reads.

use vstd::prelude::*;
use crate::text::{find_char, find_char_in, lemma_find_char, str_to_chars};

verus! {

/// The value of one hexadecimal digit as the container allows them:
/// decimal digits and uppercase `A`-`F`.
pub open spec fn hex_val(c: char) -> Option<u8> {
    if '0' as int <= c as int && c as int <= '9' as int {
        Some((c as int - '0' as int) as u8)
    } else if 'A' as int <= c as int && c as int <= 'F' as int {
        Some((c as int - 'A' as int + 10) as u8)
    } else {
        None
    }
}

fn hex_val_exec(c: char) -> (r: Option<u8>)
    ensures
        r == hex_val(c),
{
    let u = c as u32;
    if u >= 48 && u <= 57 {
        Some((u - 48) as u8)
    } else if u >= 65 && u <= 70 {
        Some((u - 65 + 10) as u8)
    } else {
        None
    }
}

/// The bytes a run of hexadecimal digit pairs denotes; `None` on an odd
/// length or a character that is no digit.
pub open spec fn decode_pairs(s: Seq<char>) -> Option<Seq<u8>>
    decreases s.len(),
{
    if s.len() == 0 {
        Some(Seq::empty())
    } else if s.len() == 1 {
        None
    } else {
        match hex_val(s[0]) {
            None => None,
            Some(h) => match hex_val(s[1]) {
                None => None,
                Some(l) => match decode_pairs(s.skip(2)) {
                    None => None,
                    Some(r) => Some(seq![(h * 16 + l) as u8] + r),
                },
            },
        }
    }
}

/// The data bytes one record line carries: what stands between the
/// nine-character prefix and the two-character checksum.
pub open spec fn line_bytes(l: Seq<char>) -> Option<Seq<u8>> {
    if l.len() < 11 {
        None
    } else {
        decode_pairs(l.subrange(9, l.len() - 2))
    }
}

/// The record line that ends the file.
pub open spec fn eof_line() -> Seq<char> {
    ":00000001FF"@
}

/// The raw bytes the container text denotes: each line's data bytes in
/// file order, up to the end-of-file record; `None` when a line before it
/// is malformed.
pub open spec fn ihex_bytes(s: Seq<char>) -> Option<Seq<u8>>
    decreases s.len(),
    via ihex_bytes_dec
{
    let line = match find_char(s, '\n') {
        Some(i) => s.subrange(0, i),
        None => s,
    };
    if line == eof_line() {
        Some(Seq::empty())
    } else {
        match line_bytes(line) {
            None => None,
            Some(bs) => match find_char(s, '\n') {
                None => Some(bs),
                Some(i) => match ihex_bytes(s.subrange(i + 1, s.len() as int)) {
                    None => None,
                    Some(r) => Some(bs + r),
                },
            },
        }
    }
}

#[via_fn]
proof fn ihex_bytes_dec(s: Seq<char>) {
    lemma_find_char(s, '\n');
}

/// The buffer with each complete byte pair swapped; a trailing lone byte
/// stays in place.
pub open spec fn swap_pairs(b: Seq<u8>) -> Seq<u8> {
    Seq::new(
        b.len(),
        |i: int|
            if i % 2 == 0 {
                if i + 1 < b.len() {
                    b[i + 1]
                } else {
                    b[i]
                }
            } else {
                b[i - 1]
            },
    )
}

fn swap_pairs_exec(v: &Vec<u8>) -> (r: Vec<u8>)
    ensures
        r@ == swap_pairs(v@),
{
    let n = v.len();
    let mut out: Vec<u8> = Vec::new();
    let mut i: usize = 0;
    while n - i > 1
        invariant
            n == v@.len(),
            i <= n,
            i % 2 == 0,
            out@.len() == i,
            forall|j: int| 0 <= j < i ==> out@[j] == swap_pairs(v@)[j],
        decreases n - i,
    {
        out.push(v[i + 1]);
        out.push(v[i]);
        i = i + 2;
    }
    if i < n {
        out.push(v[i]);
    }
    proof {
        assert(out@ =~= swap_pairs(v@));
    }
    out
}

fn is_eof_line(chars: &Vec<char>, lo: usize, hi: usize) -> (r: bool)
    requires
        lo <= hi <= chars@.len(),
    ensures
        r == (chars@.subrange(lo as int, hi as int) == eof_line()),
{
    proof {
        reveal_strlit(":00000001FF");
        assert(eof_line().len() == 11);
    }
    if hi - lo != 11 {
        return false;
    }
    let r = chars[lo] == ':' && chars[lo + 1] == '0' && chars[lo + 2] == '0' && chars[lo + 3]
        == '0' && chars[lo + 4] == '0' && chars[lo + 5] == '0' && chars[lo + 6] == '0' && chars[lo
        + 7] == '0' && chars[lo + 8] == '1' && chars[lo + 9] == 'F' && chars[lo + 10] == 'F';
    proof {
        if r {
            assert(chars@.subrange(lo as int, hi as int) =~= eof_line());
        } else {
            let s2 = chars@.subrange(lo as int, hi as int);
            if s2 == eof_line() {
                assert(chars@[lo as int] == s2[0]);
                assert(chars@[lo as int + 1] == s2[1]);
                assert(chars@[lo as int + 2] == s2[2]);
                assert(chars@[lo as int + 3] == s2[3]);
                assert(chars@[lo as int + 4] == s2[4]);
                assert(chars@[lo as int + 5] == s2[5]);
                assert(chars@[lo as int + 6] == s2[6]);
                assert(chars@[lo as int + 7] == s2[7]);
                assert(chars@[lo as int + 8] == s2[8]);
                assert(chars@[lo as int + 9] == s2[9]);
                assert(chars@[lo as int + 10] == s2[10]);
                assert(false);
            }
        }
    }
    r
}

fn decode_pairs_in(chars: &Vec<char>, lo: usize, hi: usize, out: &mut Vec<u8>) -> (ok: bool)
    requires
        lo <= hi <= chars@.len(),
    ensures
        (match decode_pairs(chars@.subrange(lo as int, hi as int)) {
            Some(bs) => ok && final(out)@ == old(out)@ + bs,
            None => !ok,
        }),
{
    let ghost s = chars@.subrange(lo as int, hi as int);
    let ghost start = out@;
    let mut p: usize = lo;
    while hi - p > 1
        invariant
            lo <= p <= hi <= chars@.len(),
            s == chars@.subrange(lo as int, hi as int),
            start == old(out)@,
            (match decode_pairs(chars@.subrange(p as int, hi as int)) {
                Some(rest) => decode_pairs(s) == Some(out@.skip(start.len() as int) + rest),
                None => decode_pairs(s) is None,
            }),
            out@.len() >= start.len(),
            out@.subrange(0, start.len() as int) == start,
        decreases hi - p,
    {
        let ghost cur = chars@.subrange(p as int, hi as int);
        proof {
            assert(cur[0] == chars@[p as int]);
            assert(cur[1] == chars@[p as int + 1]);
            assert(cur.skip(2) =~= chars@.subrange(p as int + 2, hi as int));
        }
        let h = match hex_val_exec(chars[p]) {
            Some(h) => h,
            None => {
                return false;
            },
        };
        let l = match hex_val_exec(chars[p + 1]) {
            Some(l) => l,
            None => {
                return false;
            },
        };
        let ghost pre = out@;
        out.push(h * 16 + l);
        proof {
            match decode_pairs(chars@.subrange(p as int + 2, hi as int)) {
                Some(rest) => {
                    assert(decode_pairs(cur) == Some(seq![(h * 16 + l) as u8] + rest));
                    assert(pre.skip(start.len() as int) + (seq![(h * 16 + l) as u8] + rest)
                        =~= out@.skip(start.len() as int) + rest);
                    assert(out@.subrange(0, start.len() as int) =~= start);
                },
                None => {},
            }
        }
        p = p + 2;
    }
    proof {
        let cur = chars@.subrange(p as int, hi as int);
        if p == hi {
            assert(cur.len() == 0);
            assert(decode_pairs(cur) == Some(Seq::<u8>::empty()));
            assert(out@.skip(start.len() as int) + Seq::<u8>::empty() =~= out@.skip(
                start.len() as int,
            ));
            assert(start + out@.skip(start.len() as int) =~= out@);
        } else {
            assert(cur.len() == 1);
        }
    }
    if p == hi {
        proof {
            match decode_pairs(s) {
                Some(bs) => {
                    assert(out@ =~= old(out)@ + bs);
                },
                None => {},
            }
        }
        true
    } else {
        false
    }
}

/// Reads the container text into the byte-pair-swapped raw buffer, or
/// `None` when a record line before the end-of-file record is malformed.
pub fn read_ihex(s: &str) -> (r: Option<Vec<u8>>)
    ensures
        (match ihex_bytes(s@) {
            Some(bs) => r matches Some(v) && v@ == swap_pairs(bs),
            None => r is None,
        }),
{
    let chars = str_to_chars(s);
    let n = chars.len();
    let ghost full = ihex_bytes(s@);
    let mut raw: Vec<u8> = Vec::new();
    let mut cur: usize = 0;
    proof {
        assert(chars@.subrange(0, n as int) == s@);
    }
    loop
        invariant
            cur <= n,
            n == chars@.len(),
            chars@ == s@,
            full == ihex_bytes(s@),
            (match ihex_bytes(chars@.subrange(cur as int, n as int)) {
                Some(rest) => full == Some(raw@ + rest),
                None => full is None,
            }),
        decreases n - cur,
    {
        let ghost rem = chars@.subrange(cur as int, n as int);
        proof {
            lemma_find_char(rem, '\n');
        }
        let line_end: usize;
        let has_newline: bool;
        match find_char_in(&chars, cur, n, '\n') {
            Some(i) => {
                line_end = i;
                has_newline = true;
            },
            None => {
                line_end = n;
                has_newline = false;
            },
        }
        proof {
            match find_char(rem, '\n') {
                Some(i) => {
                    assert(rem.subrange(0, i) =~= chars@.subrange(cur as int, line_end as int));
                    assert(rem.subrange(i + 1, rem.len() as int) =~= chars@.subrange(
                        line_end as int + 1,
                        n as int,
                    ));
                },
                None => {
                    assert(rem =~= chars@.subrange(cur as int, line_end as int));
                },
            }
        }
        if is_eof_line(&chars, cur, line_end) {
            proof {
                assert(ihex_bytes(rem) == Some(Seq::<u8>::empty()));
                match full {
                    Some(bs) => {
                        assert(raw@ + Seq::<u8>::empty() =~= raw@);
                    },
                    None => {},
                }
            }
            return Some(swap_pairs_exec(&raw));
        }
        if line_end - cur < 11 {
            proof {
                assert(ihex_bytes(rem) is None);
            }
            return None;
        }
        let ghost line = chars@.subrange(cur as int, line_end as int);
        proof {
            assert(line.subrange(9, line.len() - 2) =~= chars@.subrange(
                cur as int + 9,
                line_end as int - 2,
            ));
        }
        let ghost pre = raw@;
        let ok = decode_pairs_in(&chars, cur + 9, line_end - 2, &mut raw);
        if !ok {
            proof {
                assert(line_bytes(line) is None);
                assert(ihex_bytes(rem) is None);
            }
            return None;
        }
        proof {
            let bs = decode_pairs(line.subrange(9, line.len() - 2)).unwrap();
            assert(raw@ == pre + bs);
        }
        if !has_newline {
            proof {
                assert(ihex_bytes(rem) == line_bytes(line));
                match full {
                    Some(t) => {
                        assert(pre + line_bytes(line).unwrap() =~= raw@);
                    },
                    None => {},
                }
            }
            return Some(swap_pairs_exec(&raw));
        }
        let next = line_end + 1;
        proof {
            let tail = chars@.subrange(next as int, n as int);
            match ihex_bytes(tail) {
                Some(r2) => {
                    assert(ihex_bytes(rem) == Some(line_bytes(line).unwrap() + r2));
                    match full {
                        Some(t) => {
                            assert(pre + (line_bytes(line).unwrap() + r2) =~= raw@ + r2);
                        },
                        None => {},
                    }
                },
                None => {
                    assert(ihex_bytes(rem) is None);
                },
            }
        }
        cur = next;
        if cur >= n {
            proof {
                let tail = chars@.subrange(cur as int, n as int);
                assert(tail.len() == 0);
                assert(tail != eof_line()) by {
                    reveal_strlit(":00000001FF");
                }
                assert(line_bytes(tail) is None);
                assert(ihex_bytes(tail) is None);
            }
            return None;
        }
    }
}

} // verus!
