//! Sizes written as a decimal count with an optional binary unit:
//! digits, then any number of spaces, then optionally one of `k`, `m`, `g`,
//! `t` (either case) followed by an optional `b` (either case).
use vstd::prelude::*;
use vstd::string::*;

verus! {

/// Why a size string was refused.
#[derive(Debug, Clone, Copy, PartialEq, Eq, Structural)]
pub enum SizeError {
    /// The text does not follow the size grammar.
    Malformed,
    /// The text is well formed but its value does not fit the result type.
    TooLarge,
    /// A block size must be a power of two.
    NotPowerOfTwo,
}

pub open spec fn is_digit(c: char) -> bool {
    '0' <= c && c <= '9'
}

pub open spec fn digit_value(c: char) -> nat {
    (c as int - '0' as int) as nat
}

/// Index of the first character at or after `i` that is not a decimal digit.
pub open spec fn digits_end(s: Seq<char>, i: int) -> int
    decreases s.len() - i,
{
    if 0 <= i < s.len() && is_digit(s[i]) {
        digits_end(s, i + 1)
    } else {
        i
    }
}

/// Index of the first character at or after `i` that is not a space.
pub open spec fn spaces_end(s: Seq<char>, i: int) -> int
    decreases s.len() - i,
{
    if 0 <= i < s.len() && s[i] == ' ' {
        spaces_end(s, i + 1)
    } else {
        i
    }
}

/// The decimal number written by a sequence of digits.
pub open spec fn decimal_value(d: Seq<char>) -> nat
    decreases d.len(),
{
    if d.len() == 0 {
        0
    } else {
        decimal_value(d.drop_last()) * 10 + digit_value(d.last())
    }
}

pub open spec fn unit_factor(c: char) -> Option<nat> {
    if c == 'k' || c == 'K' {
        Some(1024)
    } else if c == 'm' || c == 'M' {
        Some(1024 * 1024)
    } else if c == 'g' || c == 'G' {
        Some(1024 * 1024 * 1024)
    } else if c == 't' || c == 'T' {
        Some(1024 * 1024 * 1024 * 1024)
    } else {
        None
    }
}

/// The multiplier written by what follows the spaces: nothing, a unit
/// letter, or a unit letter and `b`.
pub open spec fn suffix_factor(t: Seq<char>) -> Option<nat> {
    if t.len() == 0 {
        Some(1)
    } else if t.len() == 1 {
        unit_factor(t[0])
    } else if t.len() == 2 && (t[1] == 'b' || t[1] == 'B') {
        unit_factor(t[0])
    } else {
        None
    }
}

/// The number of bytes that `s` denotes, or `None` where `s` does not follow
/// the grammar.
pub open spec fn size_value(s: Seq<char>) -> Option<nat> {
    let n = digits_end(s, 0);
    let m = spaces_end(s, n);
    if n == 0 {
        None
    } else {
        match suffix_factor(s.subrange(m, s.len() as int)) {
            Some(f) => Some(decimal_value(s.subrange(0, n)) * f),
            None => None,
        }
    }
}

pub open spec fn is_pow2(n: nat) -> bool
    decreases n,
{
    if n <= 1 {
        n == 1
    } else {
        n % 2 == 0 && is_pow2(n / 2)
    }
}

proof fn lemma_digits_end_bounds(s: Seq<char>, i: int)
    requires
        0 <= i <= s.len(),
    ensures
        i <= digits_end(s, i) <= s.len(),
        forall|k: int| i <= k < digits_end(s, i) ==> is_digit(#[trigger] s[k]),
    decreases s.len() - i,
{
    if i < s.len() && is_digit(s[i]) {
        lemma_digits_end_bounds(s, i + 1);
    }
}

/// A longer run of digits never denotes a smaller number.
proof fn lemma_decimal_monotone(d: Seq<char>, i: int, j: int)
    requires
        0 <= i <= j <= d.len(),
    ensures
        decimal_value(d.subrange(0, i)) <= decimal_value(d.subrange(0, j)),
    decreases j - i,
{
    if i < j {
        lemma_decimal_monotone(d, i, j - 1);
        assert(d.subrange(0, j).drop_last() =~= d.subrange(0, j - 1));
    }
}

fn char_digit(c: char) -> (r: Option<u64>)
    ensures
        is_digit(c) ==> r == Some(digit_value(c) as u64),
        !is_digit(c) ==> r is None,
{
    if '0' <= c && c <= '9' {
        Some((c as u32 - '0' as u32) as u64)
    } else {
        None
    }
}

fn char_unit_factor(c: char) -> (r: Option<u64>)
    ensures
        r matches Some(f) ==> unit_factor(c) == Some(f as nat),
        r is None ==> unit_factor(c) is None,
{
    if c == 'k' || c == 'K' {
        Some(1024)
    } else if c == 'm' || c == 'M' {
        Some(1024 * 1024)
    } else if c == 'g' || c == 'G' {
        Some(1024 * 1024 * 1024)
    } else if c == 't' || c == 'T' {
        Some(1024 * 1024 * 1024 * 1024)
    } else {
        None
    }
}

/// Parses a byte count such as `4096`, `128k`, `2 MB` or `11T`; units are
/// powers of 1024.
pub fn parse_bytes(s: &str) -> (r: Result<u64, SizeError>)
    ensures
        match r {
            Ok(v) => size_value(s@) == Some(v as nat),
            Err(SizeError::Malformed) => size_value(s@) is None,
            Err(SizeError::TooLarge) => size_value(s@) matches Some(v) && v > u64::MAX,
            Err(SizeError::NotPowerOfTwo) => false,
        },
{
    let len = s.unicode_len();
    let ghost t = s@;
    // the run of digits
    let mut n: usize = 0;
    while n < len && char_digit(s.get_char(n)).is_some()
        invariant
            len == t.len(),
            t == s@,
            0 <= n <= len,
            digits_end(t, n as int) == digits_end(t, 0),
        decreases len - n,
    {
        n = n + 1;
    }
    // the run of spaces
    let mut m: usize = n;
    while m < len && s.get_char(m) == ' '
        invariant
            len == t.len(),
            t == s@,
            n <= m <= len,
            spaces_end(t, m as int) == spaces_end(t, n as int),
        decreases len - m,
    {
        m = m + 1;
    }
    assert(digits_end(t, 0) == n);
    assert(spaces_end(t, n as int) == m);
    if n == 0 {
        return Err(SizeError::Malformed);
    }
    let ghost rest = t.subrange(m as int, len as int);
    let factor: u64;
    if m == len {
        factor = 1;
    } else if m + 1 == len {
        match char_unit_factor(s.get_char(m)) {
            Some(f) => {
                factor = f;
            },
            None => {
                return Err(SizeError::Malformed);
            },
        }
    } else if m + 2 == len && (s.get_char(m + 1) == 'b' || s.get_char(m + 1) == 'B') {
        match char_unit_factor(s.get_char(m)) {
            Some(f) => {
                factor = f;
            },
            None => {
                return Err(SizeError::Malformed);
            },
        }
    } else {
        return Err(SizeError::Malformed);
    }
    assert(suffix_factor(rest) == Some(factor as nat));
    proof {
        lemma_digits_end_bounds(t, 0);
    }
    let ghost total = decimal_value(t.subrange(0, n as int));
    assert(size_value(t) == Some(total * factor as nat));
    // the value of the digits
    let mut acc: u64 = 0;
    let mut i: usize = 0;
    while i < n
        invariant
            len == t.len(),
            t == s@,
            0 < n <= len,
            0 <= i <= n,
            digits_end(t, 0) == n,
            forall|k: int| 0 <= k < n ==> is_digit(#[trigger] t[k]),
            acc as nat == decimal_value(t.subrange(0, i as int)),
            total == decimal_value(t.subrange(0, n as int)),
            size_value(t) == Some(total * factor as nat),
            factor >= 1,
        decreases n - i,
    {
        let c = s.get_char(i);
        let d = match char_digit(c) {
            Some(d) => d,
            None => 0,
        };
        assert(t.subrange(0, i + 1).drop_last() =~= t.subrange(0, i as int));
        match acc.checked_mul(10) {
            Some(a) => match a.checked_add(d) {
                Some(b) => {
                    acc = b;
                },
                None => {
                    proof {
                        lemma_decimal_monotone(t, i + 1, n as int);
                        assert(total * factor as nat >= total) by (nonlinear_arith)
                            requires factor >= 1;
                    }
                    return Err(SizeError::TooLarge);
                },
            },
            None => {
                proof {
                    lemma_decimal_monotone(t, i + 1, n as int);
                    assert(decimal_value(t.subrange(0, i + 1)) >= acc * 10) by (nonlinear_arith)
                        requires
                            decimal_value(t.subrange(0, i + 1)) == acc * 10 + digit_value(t[i as int]);
                    assert(total * factor as nat >= total) by (nonlinear_arith)
                        requires factor >= 1;
                }
                return Err(SizeError::TooLarge);
            },
        }
        i = i + 1;
    }
    match acc.checked_mul(factor) {
        Some(v) => Ok(v),
        None => Err(SizeError::TooLarge),
    }
}

/// Tells whether `n` is a power of two.
pub fn is_power_of_two(n: u64) -> (r: bool)
    ensures
        r == is_pow2(n as nat),
{
    let mut x: u64 = n;
    while x > 1 && x % 2 == 0
        invariant
            is_pow2(x as nat) == is_pow2(n as nat),
        decreases x,
    {
        x = x / 2;
    }
    x == 1
}

/// Parses a block size: a byte count as `parse_bytes` reads it that is also
/// a power of two.
pub fn parse_block_size(s: &str) -> (r: Result<usize, SizeError>)
    ensures
        match r {
            Ok(v) => size_value(s@) == Some(v as nat) && is_pow2(v as nat),
            Err(SizeError::Malformed) => size_value(s@) is None,
            Err(SizeError::TooLarge) => size_value(s@) matches Some(v) && v > usize::MAX && (v
                <= u64::MAX ==> is_pow2(v)),
            Err(SizeError::NotPowerOfTwo) => size_value(s@) matches Some(v) && v <= u64::MAX
                && !is_pow2(v),
        },
{
    match parse_bytes(s) {
        Ok(bytes) => {
            if !is_power_of_two(bytes) {
                Err(SizeError::NotPowerOfTwo)
            } else if bytes > usize::MAX as u64 {
                Err(SizeError::TooLarge)
            } else {
                Ok(bytes as usize)
            }
        },
        Err(e) => {
            Err(e)
        },
    }
}

} // verus!
