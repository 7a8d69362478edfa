//! Decimal integer text, as the wire format writes it: integers, bulk-string
//! lengths and array counts are signed decimal lines, and the SET command's
//! expiry arguments are unsigned decimal text.

use vstd::prelude::*;

verus! {

pub open spec fn is_digit(b: u8) -> bool {
    48 <= b <= 57
}

/// Value of a run of decimal digit bytes, most significant first.
pub open spec fn digits_val(s: Seq<u8>) -> int
    decreases s.len(),
{
    if s.len() == 0 {
        0
    } else {
        digits_val(s.drop_last()) * 10 + (s.last() - 48)
    }
}

pub open spec fn all_digits(s: Seq<u8>) -> bool {
    forall|i: int| 0 <= i < s.len() ==> is_digit(#[trigger] s[i])
}

/// The digit part of signed integer text: what follows an optional leading
/// `+` or `-`.
pub open spec fn digits_of(s: Seq<u8>) -> Seq<u8> {
    if s.len() > 0 && (s[0] == 43 || s[0] == 45) {
        s.skip(1)
    } else {
        s
    }
}

/// Signed decimal integer text: an optional sign, then one or more digits.
pub open spec fn is_int_text(s: Seq<u8>) -> bool {
    digits_of(s).len() > 0 && all_digits(digits_of(s))
}

/// The value named by signed decimal integer text.
pub open spec fn int_text_val(s: Seq<u8>) -> int {
    if s.len() > 0 && s[0] == 45 {
        -digits_val(digits_of(s))
    } else {
        digits_val(digits_of(s))
    }
}

/// What parsing this text as a signed 64-bit integer yields: its value when
/// the text is a well-formed signed decimal whose value fits, nothing
/// otherwise.
pub open spec fn spec_parse_i64(s: Seq<u8>) -> Option<i64> {
    if is_int_text(s) && i64::MIN <= int_text_val(s) <= i64::MAX {
        Some(int_text_val(s) as i64)
    } else {
        None
    }
}

/// What parsing this text as an unsigned 64-bit integer yields; a `-` sign
/// is never accepted, a `+` sign is.
pub open spec fn spec_parse_u64(s: Seq<u8>) -> Option<u64> {
    if is_int_text(s) && !(s.len() > 0 && s[0] == 45) && int_text_val(s) <= u64::MAX {
        Some(int_text_val(s) as u64)
    } else {
        None
    }
}

pub proof fn lemma_digits_val_push(p: Seq<u8>, b: u8)
    ensures
        digits_val(p.push(b)) == digits_val(p) * 10 + (b - 48),
{
    assert(p.push(b).drop_last() =~= p);
}

pub proof fn lemma_digits_val_nonneg(s: Seq<u8>)
    requires
        all_digits(s),
    ensures
        digits_val(s) >= 0,
    decreases s.len(),
{
    if s.len() > 0 {
        assert(all_digits(s.drop_last())) by {
            assert(forall|i: int|
                0 <= i < s.len() - 1 ==> s.drop_last()[i] == #[trigger] s[i]);
        }
        lemma_digits_val_nonneg(s.drop_last());
        assert(is_digit(s[s.len() - 1]));
    }
}

/// Canonical decimal digits of a non-negative value: no sign, no leading
/// zeros.
pub open spec fn dec_nat(m: nat) -> Seq<u8>
    decreases m,
{
    if m < 10 {
        seq![(48 + m) as u8]
    } else {
        dec_nat(m / 10).push((48 + m % 10) as u8)
    }
}

/// Canonical signed decimal text of a value: a `-` sign for negatives, then
/// the digits.
pub open spec fn dec_i64(n: int) -> Seq<u8> {
    if n < 0 {
        seq![45u8] + dec_nat((-n) as nat)
    } else {
        dec_nat(n as nat)
    }
}

pub proof fn lemma_dec_nat(m: nat)
    ensures
        dec_nat(m).len() >= 1,
        all_digits(dec_nat(m)),
        digits_val(dec_nat(m)) == m,
    decreases m,
{
    if m < 10 {
        let s = seq![(48 + m) as u8];
        assert(s.drop_last() =~= Seq::<u8>::empty());
        assert(digits_val(s.drop_last()) == 0);
        assert(s.last() == (48 + m) as u8);
        assert((48 + m) as u8 == 48 + m);
        assert(digits_val(s) == m);
    } else {
        lemma_dec_nat(m / 10);
        lemma_digits_val_push(dec_nat(m / 10), (48 + m % 10) as u8);
        assert(all_digits(dec_nat(m))) by {
            let p = dec_nat(m / 10);
            let s = p.push((48 + m % 10) as u8);
            assert(forall|i: int| 0 <= i < p.len() ==> s[i] == #[trigger] p[i]);
        }
    }
}

/// The canonical text of any `i64` parses back to that value, holds no CR
/// byte, and is never empty.
pub proof fn lemma_dec_i64(n: int)
    requires
        i64::MIN <= n <= i64::MAX,
    ensures
        spec_parse_i64(dec_i64(n)) == Some(n as i64),
        forall|j: int| 0 <= j < dec_i64(n).len() ==> dec_i64(n)[j] != 13,
        dec_i64(n).len() >= 1,
{
    let s = dec_i64(n);
    if n < 0 {
        lemma_dec_nat((-n) as nat);
        assert(s.skip(1) =~= dec_nat((-n) as nat));
        assert(s[0] == 45);
        assert(digits_of(s) == dec_nat((-n) as nat));
        assert(int_text_val(s) == n);
        assert(forall|j: int| 1 <= j < s.len() ==> is_digit(#[trigger] s[j]));
    } else {
        lemma_dec_nat(n as nat);
        assert(is_digit(s[0]));
        assert(digits_of(s) == s);
        assert(int_text_val(s) == n);
    }
}

/// Outcome of scanning a run of bytes as digits.
enum Digits {
    /// Empty, or some byte is not a digit.
    Bad,
    /// All digits, but the value exceeds `u64::MAX`.
    Big,
    /// All digits, with this value.
    Val(u64),
}

/// Scans `s[from..]` as a run of decimal digits.
fn scan_digits(s: &Vec<u8>, from: usize) -> (r: Digits)
    requires
        from <= s.len(),
    ensures
        match r {
            Digits::Bad => !(s@.skip(from as int).len() > 0 && all_digits(s@.skip(from as int))),
            Digits::Big => s@.skip(from as int).len() > 0 && all_digits(s@.skip(from as int))
                && digits_val(s@.skip(from as int)) > u64::MAX,
            Digits::Val(v) => s@.skip(from as int).len() > 0 && all_digits(s@.skip(from as int))
                && digits_val(s@.skip(from as int)) == v,
        },
{
    let n = s.len();
    if from == n {
        return Digits::Bad;
    }
    let mut acc: u128 = 0;
    let mut big: bool = false;
    let mut i: usize = from;
    while i < n
        invariant
            from <= i <= n == s.len(),
            all_digits(s@.subrange(from as int, i as int)),
            !big ==> acc <= u64::MAX && acc == digits_val(s@.subrange(from as int, i as int)),
            big ==> digits_val(s@.subrange(from as int, i as int)) > u64::MAX,
        decreases n - i,
    {
        let b = s[i];
        if b < 48 || b > 57 {
            assert(!all_digits(s@.skip(from as int))) by {
                assert(s@.skip(from as int)[i - from] == s@[i as int]);
            }
            return Digits::Bad;
        }
        proof {
            assert(s@.subrange(from as int, i + 1 as int)
                =~= s@.subrange(from as int, i as int).push(s@[i as int]));
            lemma_digits_val_push(s@.subrange(from as int, i as int), s@[i as int]);
            lemma_digits_val_nonneg(s@.subrange(from as int, i as int));
        }
        if !big {
            let next: u128 = acc * 10 + (b - 48) as u128;
            if next > u64::MAX as u128 {
                big = true;
            } else {
                acc = next;
            }
        }
        i = i + 1;
    }
    proof {
        assert(s@.subrange(from as int, n as int) =~= s@.skip(from as int));
    }
    if big {
        Digits::Big
    } else {
        Digits::Val(acc as u64)
    }
}

/// Parses signed decimal text as an `i64`, exactly as [`spec_parse_i64`]
/// says.
pub fn parse_i64(s: &Vec<u8>) -> (r: Option<i64>)
    ensures
        r == spec_parse_i64(s@),
{
    let n = s.len();
    let mut idx: usize = 0;
    let mut neg: bool = false;
    if n > 0 && (s[0] == 43 || s[0] == 45) {
        neg = s[0] == 45;
        idx = 1;
    }
    proof {
        assert(digits_of(s@) =~= s@.skip(idx as int));
    }
    match scan_digits(s, idx) {
        Digits::Bad => None,
        Digits::Big => None,
        Digits::Val(mag) => {
            if neg {
                if mag <= 9223372036854775807 {
                    Some(-(mag as i64))
                } else if mag == 9223372036854775808 {
                    Some(i64::MIN)
                } else {
                    None
                }
            } else {
                if mag <= 9223372036854775807 {
                    Some(mag as i64)
                } else {
                    None
                }
            }
        },
    }
}

/// Parses unsigned decimal text as a `u64`, exactly as [`spec_parse_u64`]
/// says.
pub fn parse_u64(s: &Vec<u8>) -> (r: Option<u64>)
    ensures
        r == spec_parse_u64(s@),
{
    let n = s.len();
    let mut idx: usize = 0;
    if n > 0 && s[0] == 45 {
        return None;
    }
    if n > 0 && s[0] == 43 {
        idx = 1;
    }
    proof {
        assert(digits_of(s@) =~= s@.skip(idx as int));
    }
    match scan_digits(s, idx) {
        Digits::Bad => None,
        Digits::Big => None,
        Digits::Val(mag) => Some(mag),
    }
}

} // verus!
