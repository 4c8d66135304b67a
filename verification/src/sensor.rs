//! Parsing of raw illuminance readings.
//!
//! A sensor reading arrives as the bytes of a small text file: a decimal
//! integer, optionally signed, surrounded by whitespace. The parser
//! accepts exactly the well-formed readings — after trimming ASCII
//! whitespace, an optional `+` or `-` followed by at least one digit,
//! with a value that fits a signed 32-bit integer — and rejects
//! everything else. A rejected reading is fatal to the caller: the loop
//! has no sensible fallback target and must stop rather than apply a
//! stale or undefined brightness.

use vstd::prelude::*;

verus! {

/// ASCII whitespace, as trimming understands it.
pub open spec fn is_space(b: u8) -> bool {
    b == 9 || b == 10 || b == 11 || b == 12 || b == 13 || b == 32
}

/// An ASCII decimal digit.
pub open spec fn is_digit(b: u8) -> bool {
    48 <= b <= 57
}

/// The bytes with leading whitespace removed.
pub open spec fn trim_front(s: Seq<u8>) -> Seq<u8>
    decreases s.len(),
{
    if s.len() > 0 && is_space(s[0]) {
        trim_front(s.drop_first())
    } else {
        s
    }
}

/// The bytes with trailing whitespace removed.
pub open spec fn trim_back(s: Seq<u8>) -> Seq<u8>
    decreases s.len(),
{
    if s.len() > 0 && is_space(s.last()) {
        trim_back(s.drop_last())
    } else {
        s
    }
}

/// The bytes with whitespace removed from both ends.
pub open spec fn trimmed(s: Seq<u8>) -> Seq<u8> {
    trim_back(trim_front(s))
}

/// Whether the text starts with an explicit sign.
pub open spec fn has_sign(s: Seq<u8>) -> bool {
    s.len() > 0 && (s[0] == 43 || s[0] == 45)
}

/// The digit part of the text: everything after the sign, if any.
pub open spec fn digits_of(s: Seq<u8>) -> Seq<u8> {
    if has_sign(s) {
        s.drop_first()
    } else {
        s
    }
}

/// `-1` for a leading minus sign, `1` otherwise.
pub open spec fn sign_of(s: Seq<u8>) -> int {
    if s.len() > 0 && s[0] == 45 {
        -1
    } else {
        1
    }
}

/// Every byte is a digit.
pub open spec fn all_digits(s: Seq<u8>) -> bool {
    forall|i: int| 0 <= i < s.len() ==> is_digit(#[trigger] s[i])
}

/// The number the digit string denotes, most significant digit first.
pub open spec fn digits_value(s: Seq<u8>) -> int
    decreases s.len(),
{
    if s.len() == 0 {
        0
    } else {
        digits_value(s.drop_last()) * 10 + (s.last() - 48)
    }
}

/// A well-formed reading, once trimmed: an optional sign, then at least
/// one digit, denoting a value that fits a signed 32-bit integer.
pub open spec fn valid_reading(s: Seq<u8>) -> bool {
    &&& digits_of(s).len() > 0
    &&& all_digits(digits_of(s))
    &&& -0x8000_0000 <= sign_of(s) * digits_value(digits_of(s)) <= 0x7FFF_FFFF
}

/// The value a well-formed reading denotes.
pub open spec fn reading_value(s: Seq<u8>) -> int {
    sign_of(s) * digits_value(digits_of(s))
}

/// A digit string's value is non-negative.
proof fn lemma_digits_nonneg(s: Seq<u8>)
    requires
        all_digits(s),
    ensures
        digits_value(s) >= 0,
    decreases s.len(),
{
    if s.len() > 0 {
        assert(all_digits(s.drop_last())) by {
            assert(forall|i: int| 0 <= i < s.len() - 1 ==> is_digit(#[trigger] s.drop_last()[i]));
        }
        lemma_digits_nonneg(s.drop_last());
        assert(digits_value(s.drop_last()) * 10 >= 0) by (nonlinear_arith)
            requires
                digits_value(s.drop_last()) >= 0,
        ;
    }
}

/// A digit string's value is at least the value of any of its prefixes:
/// appending digits never shrinks the number.
proof fn lemma_digits_prefix_le(s: Seq<u8>, m: int)
    requires
        all_digits(s),
        0 <= m <= s.len(),
    ensures
        digits_value(s.take(m)) <= digits_value(s),
    decreases s.len() - m,
{
    if m < s.len() {
        let t = s.take(m + 1);
        assert(all_digits(t)) by {
            assert(forall|i: int| 0 <= i < t.len() ==> is_digit(#[trigger] t[i]));
        }
        assert(t.drop_last() =~= s.take(m));
        lemma_digits_nonneg(s.take(m + 1).drop_last());
        assert(digits_value(s.take(m)) * 10 + (t.last() - 48) >= digits_value(s.take(m)))
            by (nonlinear_arith)
            requires
                digits_value(s.take(m)) >= 0,
                t.last() >= 48,
        ;
        lemma_digits_prefix_le(s, m + 1);
    } else {
        assert(s.take(m) =~= s);
    }
}

/// Parses a raw sensor reading. Returns the denoted value exactly when
/// the reading is well formed, and nothing otherwise.
pub fn parse_illuminance(bytes: &[u8]) -> (r: Option<i32>)
    ensures
        valid_reading(trimmed(bytes@)) ==> (r matches Some(v) && v as int == reading_value(
            trimmed(bytes@),
        )),
        !valid_reading(trimmed(bytes@)) ==> r is None,
{
    let n = bytes.len();
    proof {
        assert(bytes@.subrange(0, n as int) =~= bytes@);
    }
    let mut lo: usize = 0;
    while lo < n && (bytes[lo] == 9 || bytes[lo] == 10 || bytes[lo] == 11 || bytes[lo] == 12
        || bytes[lo] == 13 || bytes[lo] == 32)
        invariant
            0 <= lo <= n,
            n == bytes@.len(),
            trim_front(bytes@) == trim_front(bytes@.subrange(lo as int, n as int)),
        decreases n - lo,
    {
        proof {
            let cur = bytes@.subrange(lo as int, n as int);
            assert(cur.drop_first() =~= bytes@.subrange(lo as int + 1, n as int));
        }
        lo += 1;
    }
    proof {
        let cur = bytes@.subrange(lo as int, n as int);
        if lo < n {
            assert(!is_space(cur[0]));
        }
        assert(trim_front(bytes@) == cur);
    }
    let mut hi: usize = n;
    while hi > lo && (bytes[hi - 1] == 9 || bytes[hi - 1] == 10 || bytes[hi - 1] == 11
        || bytes[hi - 1] == 12 || bytes[hi - 1] == 13 || bytes[hi - 1] == 32)
        invariant
            lo <= hi <= n,
            n == bytes@.len(),
            trim_front(bytes@) == bytes@.subrange(lo as int, n as int),
            trimmed(bytes@) == trim_back(bytes@.subrange(lo as int, hi as int)),
        decreases hi,
    {
        proof {
            let cur = bytes@.subrange(lo as int, hi as int);
            assert(cur.drop_last() =~= bytes@.subrange(lo as int, hi as int - 1));
        }
        hi -= 1;
    }
    proof {
        let cur = bytes@.subrange(lo as int, hi as int);
        if hi > lo {
            assert(!is_space(cur.last()));
        }
        assert(trimmed(bytes@) == cur);
    }
    let ghost text = trimmed(bytes@);
    if hi == lo {
        return None;
    }
    let first = bytes[lo];
    let neg = first == 45;
    let start: usize = if first == 45 || first == 43 {
        lo + 1
    } else {
        lo
    };
    proof {
        assert(text[0] == bytes@[lo as int]);
        assert(digits_of(text) =~= bytes@.subrange(start as int, hi as int));
    }
    let ghost digits = digits_of(text);
    if start == hi {
        return None;
    }
    let mut acc: u64 = 0;
    let mut k: usize = start;
    while k < hi
        invariant
            start <= k <= hi <= n,
            n == bytes@.len(),
            digits == bytes@.subrange(start as int, hi as int),
            digits == digits_of(text),
            text == trimmed(bytes@),
            acc as int == digits_value(digits.take(k - start)),
            acc <= 0x8000_0000,
            all_digits(digits.take(k - start)),
            hi > start,
            sign_of(text) == if neg { -1int } else { 1int },
        decreases hi - k,
    {
        let b = bytes[k];
        proof {
            assert(digits[k - start] == bytes@[k as int]);
        }
        if b < 48 || b > 57 {
            proof {
                assert(!all_digits(digits));
            }
            return None;
        }
        let next: u64 = acc * 10 + (b - 48) as u64;
        proof {
            assert(digits.take(k + 1 - start).drop_last() =~= digits.take(k - start));
            assert(digits.take(k + 1 - start).last() == digits[k - start]);
            assert(forall|i: int| 0 <= i < k + 1 - start ==> is_digit(
                #[trigger] digits.take(k + 1 - start)[i],
            ));
        }
        if next > 0x8000_0000 {
            proof {
                if all_digits(digits) {
                    lemma_digits_prefix_le(digits, k + 1 - start);
                    assert(digits.take(digits.len() as int) =~= digits);
                    assert(digits_value(digits) > 0x8000_0000);
                    assert(!valid_reading(text)) by (nonlinear_arith)
                        requires
                            digits_value(digits_of(text)) > 0x8000_0000,
                            sign_of(text) == -1 || sign_of(text) == 1,
                            valid_reading(text) ==> -0x8000_0000 <= sign_of(text) * digits_value(
                                digits_of(text),
                            ) <= 0x7FFF_FFFF,
                    ;
                }
            }
            return None;
        }
        acc = next;
        k += 1;
    }
    proof {
        assert(digits.take(hi - start) =~= digits);
    }
    if neg {
        let v64: i64 = -(acc as i64);
        proof {
            assert(sign_of(text) * digits_value(digits) == -(acc as int)) by (nonlinear_arith)
                requires
                    sign_of(text) == -1,
                    digits_value(digits) == acc as int,
            ;
        }
        Some(v64 as i32)
    } else if acc <= 0x7FFF_FFFF {
        proof {
            assert(sign_of(text) * digits_value(digits) == acc as int) by (nonlinear_arith)
                requires
                    sign_of(text) == 1,
                    digits_value(digits) == acc as int,
            ;
        }
        Some(acc as i32)
    } else {
        proof {
            assert(sign_of(text) * digits_value(digits) > 0x7FFF_FFFF) by (nonlinear_arith)
                requires
                    sign_of(text) == 1,
                    digits_value(digits) == acc as int,
                    acc > 0x7FFF_FFFF,
            ;
        }
        None
    }
}

} // verus!
