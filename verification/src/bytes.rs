//! Little-endian 32-bit integers and UTF-8 validity on byte sequences.

use vstd::prelude::*;

verus! {

/// The little-endian 32-bit unsigned integer stored at `b[pos .. pos + 4]`.
pub open spec fn le32_at(b: Seq<u8>, pos: int) -> nat {
    (b[pos] as nat) + 0x100 * (b[pos + 1] as nat) + 0x10000 * (b[pos + 2] as nat) + 0x1000000
        * (b[pos + 3] as nat)
}

/// The four bytes that encode `v` as a little-endian 32-bit integer.
pub open spec fn le32_bytes(v: nat) -> Seq<u8> {
    seq![
        (v % 0x100) as u8,
        ((v / 0x100) % 0x100) as u8,
        ((v / 0x10000) % 0x100) as u8,
        ((v / 0x1000000) % 0x100) as u8,
    ]
}

/// `le32_at` reads only the four bytes of its window.
pub proof fn lemma_le32_at_window(b: Seq<u8>, pos: int, w: Seq<u8>)
    requires
        0 <= pos,
        pos + 4 <= b.len(),
        w == b.subrange(pos, pos + 4),
    ensures
        le32_at(b, pos) == le32_at(w, 0),
{
    assert(w[0] == b[pos]);
    assert(w[1] == b[pos + 1]);
    assert(w[2] == b[pos + 2]);
    assert(w[3] == b[pos + 3]);
}

/// Decoding the four bytes that encode `v` gives `v` back.
pub proof fn lemma_le32_round_trip(v: nat)
    requires
        v < 0x100000000,
    ensures
        le32_at(le32_bytes(v), 0) == v,
{
    let b = le32_bytes(v);
    assert(v == 0x100 * (v / 0x100) + v % 0x100) by (nonlinear_arith);
    assert(v / 0x100 == 0x100 * ((v / 0x100) / 0x100) + (v / 0x100) % 0x100) by (nonlinear_arith);
    assert((v / 0x100) / 0x100 == v / 0x10000) by (nonlinear_arith);
    assert(v / 0x10000 == 0x100 * ((v / 0x10000) / 0x100) + (v / 0x10000) % 0x100)
        by (nonlinear_arith);
    assert((v / 0x10000) / 0x100 == v / 0x1000000) by (nonlinear_arith);
    assert(v / 0x1000000 < 0x100) by (nonlinear_arith)
        requires
            v < 0x100000000,
    ;
    assert((v / 0x1000000) % 0x100 == v / 0x1000000) by (nonlinear_arith)
        requires
            v / 0x1000000 < 0x100,
    ;
}

/// A UTF-8 continuation byte.
pub open spec fn is_cont_byte(b: u8) -> bool {
    0x80 <= b && b <= 0xBF
}

/// Length of the well-formed UTF-8 character starting at `s[i]`, or 0 if
/// the bytes at `i` do not begin one. The ranges follow RFC 3629: overlong
/// encodings, surrogates and values above U+10FFFF are rejected.
pub open spec fn utf8_char_len(s: Seq<u8>, i: int) -> int {
    let b0 = s[i];
    if b0 < 0x80 {
        1
    } else if 0xC2 <= b0 && b0 <= 0xDF {
        if i + 2 <= s.len() && is_cont_byte(s[i + 1]) {
            2
        } else {
            0
        }
    } else if b0 == 0xE0 {
        if i + 3 <= s.len() && 0xA0 <= s[i + 1] && s[i + 1] <= 0xBF && is_cont_byte(s[i + 2]) {
            3
        } else {
            0
        }
    } else if b0 == 0xED {
        if i + 3 <= s.len() && 0x80 <= s[i + 1] && s[i + 1] <= 0x9F && is_cont_byte(s[i + 2]) {
            3
        } else {
            0
        }
    } else if 0xE1 <= b0 && b0 <= 0xEF {
        if i + 3 <= s.len() && is_cont_byte(s[i + 1]) && is_cont_byte(s[i + 2]) {
            3
        } else {
            0
        }
    } else if b0 == 0xF0 {
        if i + 4 <= s.len() && 0x90 <= s[i + 1] && s[i + 1] <= 0xBF && is_cont_byte(s[i + 2])
            && is_cont_byte(s[i + 3]) {
            4
        } else {
            0
        }
    } else if 0xF1 <= b0 && b0 <= 0xF3 {
        if i + 4 <= s.len() && is_cont_byte(s[i + 1]) && is_cont_byte(s[i + 2]) && is_cont_byte(
            s[i + 3],
        ) {
            4
        } else {
            0
        }
    } else if b0 == 0xF4 {
        if i + 4 <= s.len() && 0x80 <= s[i + 1] && s[i + 1] <= 0x8F && is_cont_byte(s[i + 2])
            && is_cont_byte(s[i + 3]) {
            4
        } else {
            0
        }
    } else {
        0
    }
}

/// The bytes `s[i ..]` are a sequence of well-formed UTF-8 characters.
pub open spec fn is_utf8_from(s: Seq<u8>, i: int) -> bool
    decreases s.len() - i,
{
    if i >= s.len() {
        true
    } else if i < 0 {
        false
    } else {
        let k = utf8_char_len(s, i);
        k > 0 && is_utf8_from(s, i + k)
    }
}

/// The byte sequence is well-formed UTF-8 text.
pub open spec fn is_utf8(s: Seq<u8>) -> bool {
    is_utf8_from(s, 0)
}

/// Checks that `s` is well-formed UTF-8 text.
pub fn is_valid_utf8(s: &[u8]) -> (r: bool)
    ensures
        r == is_utf8(s@),
{
    let n = s.len();
    let mut i: usize = 0;
    while i < n
        invariant
            n == s@.len(),
            i <= n,
            is_utf8(s@) == is_utf8_from(s@, i as int),
        decreases n - i,
    {
        let b0 = s[i];
        let rem = n - i;
        let k: usize = if b0 < 0x80 {
            1
        } else if 0xC2 <= b0 && b0 <= 0xDF {
            if rem >= 2 && 0x80 <= s[i + 1] && s[i + 1] <= 0xBF {
                2
            } else {
                0
            }
        } else if b0 == 0xE0 {
            if rem >= 3 && 0xA0 <= s[i + 1] && s[i + 1] <= 0xBF && 0x80 <= s[i + 2] && s[i + 2]
                <= 0xBF {
                3
            } else {
                0
            }
        } else if b0 == 0xED {
            if rem >= 3 && 0x80 <= s[i + 1] && s[i + 1] <= 0x9F && 0x80 <= s[i + 2] && s[i + 2]
                <= 0xBF {
                3
            } else {
                0
            }
        } else if 0xE1 <= b0 && b0 <= 0xEF {
            if rem >= 3 && 0x80 <= s[i + 1] && s[i + 1] <= 0xBF && 0x80 <= s[i + 2] && s[i + 2]
                <= 0xBF {
                3
            } else {
                0
            }
        } else if b0 == 0xF0 {
            if rem >= 4 && 0x90 <= s[i + 1] && s[i + 1] <= 0xBF && 0x80 <= s[i + 2] && s[i + 2]
                <= 0xBF && 0x80 <= s[i + 3] && s[i + 3] <= 0xBF {
                4
            } else {
                0
            }
        } else if 0xF1 <= b0 && b0 <= 0xF3 {
            if rem >= 4 && 0x80 <= s[i + 1] && s[i + 1] <= 0xBF && 0x80 <= s[i + 2] && s[i + 2]
                <= 0xBF && 0x80 <= s[i + 3] && s[i + 3] <= 0xBF {
                4
            } else {
                0
            }
        } else if b0 == 0xF4 {
            if rem >= 4 && 0x80 <= s[i + 1] && s[i + 1] <= 0x8F && 0x80 <= s[i + 2] && s[i + 2]
                <= 0xBF && 0x80 <= s[i + 3] && s[i + 3] <= 0xBF {
                4
            } else {
                0
            }
        } else {
            0
        };
        assert(k as int == utf8_char_len(s@, i as int));
        if k == 0 {
            return false;
        }
        i = i + k;
    }
    true
}

/// Reads the little-endian `u32` stored at `data[pos .. pos + 4]`.
pub fn read_le_u32(data: &[u8], pos: usize) -> (r: u32)
    requires
        pos + 4 <= data@.len(),
    ensures
        r as nat == le32_at(data@, pos as int),
{
    let b0 = data[pos] as u32;
    let b1 = data[pos + 1] as u32;
    let b2 = data[pos + 2] as u32;
    let b3 = data[pos + 3] as u32;
    b0 + 0x100 * b1 + 0x10000 * b2 + 0x1000000 * b3
}

} // verus!
