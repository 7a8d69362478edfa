//! UTF-8 validity of byte sequences.
//!
//! The wire format requires every line of text to be valid UTF-8, and the
//! command layer requires the same of a bulk string used as text.  Validity
//! is stated byte by byte: an ASCII byte stands alone, and each multi-byte
//! sequence is a lead byte with the exact continuation range that rules out
//! overlong forms, surrogates, and code points past `U+10FFFF`.

use vstd::prelude::*;

verus! {

/// A continuation byte of a multi-byte sequence.
pub open spec fn is_cont(b: u8) -> bool {
    0x80 <= b < 0xC0
}

/// Whether `s` is a well-formed UTF-8 byte sequence.
pub open spec fn valid_utf8(s: Seq<u8>) -> bool
    decreases s.len(),
{
    if s.len() == 0 {
        true
    } else {
        let b0 = s[0];
        if b0 < 0x80 {
            valid_utf8(s.skip(1))
        } else if 0xC2 <= b0 <= 0xDF {
            s.len() >= 2 && is_cont(s[1]) && valid_utf8(s.skip(2))
        } else if b0 == 0xE0 {
            s.len() >= 3 && 0xA0 <= s[1] <= 0xBF && is_cont(s[2]) && valid_utf8(s.skip(3))
        } else if 0xE1 <= b0 <= 0xEC || b0 == 0xEE || b0 == 0xEF {
            s.len() >= 3 && is_cont(s[1]) && is_cont(s[2]) && valid_utf8(s.skip(3))
        } else if b0 == 0xED {
            s.len() >= 3 && 0x80 <= s[1] <= 0x9F && is_cont(s[2]) && valid_utf8(s.skip(3))
        } else if b0 == 0xF0 {
            s.len() >= 4 && 0x90 <= s[1] <= 0xBF && is_cont(s[2]) && is_cont(s[3])
                && valid_utf8(s.skip(4))
        } else if 0xF1 <= b0 <= 0xF3 {
            s.len() >= 4 && is_cont(s[1]) && is_cont(s[2]) && is_cont(s[3])
                && valid_utf8(s.skip(4))
        } else if b0 == 0xF4 {
            s.len() >= 4 && 0x80 <= s[1] <= 0x8F && is_cont(s[2]) && is_cont(s[3])
                && valid_utf8(s.skip(4))
        } else {
            false
        }
    }
}

/// Checks [`valid_utf8`] of a byte vector.
pub fn check_utf8(s: &Vec<u8>) -> (r: bool)
    ensures
        r == valid_utf8(s@),
{
    let n = s.len();
    let mut i: usize = 0;
    proof {
        assert(s@.skip(0) =~= s@);
    }
    while i < n
        invariant
            i <= n == s.len(),
            valid_utf8(s@) == valid_utf8(s@.skip(i as int)),
        decreases n - i,
    {
        let ghost tail = s@.skip(i as int);
        let b0 = s[i];
        let mut width: usize = 1;
        if b0 < 0x80 {
        } else if 0xC2 <= b0 && b0 <= 0xDF {
            if !(n - i > 1 && 0x80 <= s[i + 1] && s[i + 1] < 0xC0) {
                return false;
            }
            width = 2;
        } else if b0 == 0xE0 {
            if !(n - i > 2 && 0xA0 <= s[i + 1] && s[i + 1] <= 0xBF && 0x80 <= s[i + 2]
                && s[i + 2] < 0xC0) {
                return false;
            }
            width = 3;
        } else if (0xE1 <= b0 && b0 <= 0xEC) || b0 == 0xEE || b0 == 0xEF {
            if !(n - i > 2 && 0x80 <= s[i + 1] && s[i + 1] < 0xC0 && 0x80 <= s[i + 2]
                && s[i + 2] < 0xC0) {
                return false;
            }
            width = 3;
        } else if b0 == 0xED {
            if !(n - i > 2 && 0x80 <= s[i + 1] && s[i + 1] <= 0x9F && 0x80 <= s[i + 2]
                && s[i + 2] < 0xC0) {
                return false;
            }
            width = 3;
        } else if b0 == 0xF0 {
            if !(n - i > 3 && 0x90 <= s[i + 1] && s[i + 1] <= 0xBF && 0x80 <= s[i + 2]
                && s[i + 2] < 0xC0 && 0x80 <= s[i + 3] && s[i + 3] < 0xC0) {
                return false;
            }
            width = 4;
        } else if 0xF1 <= b0 && b0 <= 0xF3 {
            if !(n - i > 3 && 0x80 <= s[i + 1] && s[i + 1] < 0xC0 && 0x80 <= s[i + 2]
                && s[i + 2] < 0xC0 && 0x80 <= s[i + 3] && s[i + 3] < 0xC0) {
                return false;
            }
            width = 4;
        } else if b0 == 0xF4 {
            if !(n - i > 3 && 0x80 <= s[i + 1] && s[i + 1] <= 0x8F && 0x80 <= s[i + 2]
                && s[i + 2] < 0xC0 && 0x80 <= s[i + 3] && s[i + 3] < 0xC0) {
                return false;
            }
            width = 4;
        } else {
            return false;
        }
        proof {
            assert(tail.skip(width as int) =~= s@.skip(i + width as int));
        }
        i = i + width;
    }
    proof {
        assert(s@.skip(n as int) =~= Seq::<u8>::empty());
    }
    true
}

} // verus!
