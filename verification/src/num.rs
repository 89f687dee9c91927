//! Decimal text: parsing integers from strings and rendering them back.
//!
//! The autogroup record ends in a decimal niceness value, and the command
//! line supplies a PID and an adjustment as decimal text.  The meaning of
//! such text is fixed by [`spec_signed_val`] and [`spec_unsigned_val`]: an
//! optional sign followed by one or more digits, most significant first.

use vstd::prelude::*;

verus! {

/// True of the ten ASCII decimal digit characters.
pub open spec fn is_digit(c: char) -> bool {
    48 <= c as u32 && c as u32 <= 57
}

/// The numeric value of a decimal digit character.
pub open spec fn digit_val(c: char) -> int
    recommends
        is_digit(c),
{
    c as u32 - 48
}

/// The digit character for a value in 0..10.
pub open spec fn digit_char(d: int) -> char
    recommends
        0 <= d < 10,
{
    if d == 0 {
        '0'
    } else if d == 1 {
        '1'
    } else if d == 2 {
        '2'
    } else if d == 3 {
        '3'
    } else if d == 4 {
        '4'
    } else if d == 5 {
        '5'
    } else if d == 6 {
        '6'
    } else if d == 7 {
        '7'
    } else if d == 8 {
        '8'
    } else {
        '9'
    }
}

/// True when every character of `s` is a decimal digit.
pub open spec fn all_digits(s: Seq<char>) -> bool {
    forall|i: int| 0 <= i < s.len() ==> is_digit(#[trigger] s[i])
}

/// The number denoted by a sequence of decimal digits, most significant
/// first.  Zero for the empty sequence.
pub open spec fn digits_val(s: Seq<char>) -> int
    decreases s.len(),
{
    if s.len() == 0 {
        0
    } else {
        digits_val(s.drop_last()) * 10 + digit_val(s.last())
    }
}

/// A digit sequence denotes a nonnegative number.
pub proof fn lemma_digits_val_nonneg(s: Seq<char>)
    requires
        all_digits(s),
    ensures
        digits_val(s) >= 0,
    decreases s.len(),
{
    if s.len() > 0 {
        assert(forall|i: int|
            0 <= i < s.drop_last().len() ==> is_digit(#[trigger] s.drop_last()[i]));
        lemma_digits_val_nonneg(s.drop_last());
    }
}

/// The integer denoted by a decimal string: an optional `+` or `-` sign
/// followed by one or more digits.  `None` when the text is not of that
/// shape.
pub open spec fn spec_signed_val(s: Seq<char>) -> Option<int> {
    if s.len() == 0 {
        None
    } else if s[0] == '-' {
        if s.len() > 1 && all_digits(s.skip(1)) {
            Some(-digits_val(s.skip(1)))
        } else {
            None
        }
    } else if s[0] == '+' {
        if s.len() > 1 && all_digits(s.skip(1)) {
            Some(digits_val(s.skip(1)))
        } else {
            None
        }
    } else {
        if all_digits(s) {
            Some(digits_val(s))
        } else {
            None
        }
    }
}

/// The nonnegative integer denoted by a decimal string: an optional `+`
/// sign followed by one or more digits.  A `-` sign is not accepted.
pub open spec fn spec_unsigned_val(s: Seq<char>) -> Option<int> {
    if s.len() == 0 {
        None
    } else if s[0] == '+' {
        if s.len() > 1 && all_digits(s.skip(1)) {
            Some(digits_val(s.skip(1)))
        } else {
            None
        }
    } else {
        if all_digits(s) {
            Some(digits_val(s))
        } else {
            None
        }
    }
}

/// The decimal strings an `i32` can be read from: a signed decimal whose
/// value fits the type.
pub open spec fn spec_parse_i32(s: Seq<char>) -> Option<int> {
    match spec_signed_val(s) {
        Some(n) => if i32::MIN <= n <= i32::MAX {
            Some(n)
        } else {
            None
        },
        None => None,
    }
}

/// The decimal strings a `usize` can be read from: an unsigned decimal
/// whose value fits the type.
pub open spec fn spec_parse_usize(s: Seq<char>) -> Option<int> {
    match spec_unsigned_val(s) {
        Some(n) => if n <= usize::MAX {
            Some(n)
        } else {
            None
        },
        None => None,
    }
}

/// Parse the digits of `s` from position `from` to the end as a base-10
/// number.  `None` when that range is empty, holds a non-digit, or denotes
/// a value above `u64::MAX`.
fn parse_digits(s: &str, from: usize) -> (r: Option<u64>)
    requires
        from as int <= s@.len(),
    ensures
        ({
            let t = s@.skip(from as int);
            match r {
                Some(v) => t.len() > 0 && all_digits(t) && digits_val(t) == v as int,
                None => t.len() == 0 || !all_digits(t) || digits_val(t) > u64::MAX,
            }
        }),
{
    let n = s.unicode_len();
    if from >= n {
        return None;
    }
    let mut i: usize = from;
    let mut acc: u64 = 0;
    let mut overflow = false;
    while i < n
        invariant
            from <= i <= n,
            n == s@.len(),
            forall|k: int| from <= k < i ==> is_digit(#[trigger] s@[k]),
            !overflow ==> acc as int == digits_val(s@.subrange(from as int, i as int)),
            overflow ==> digits_val(s@.subrange(from as int, i as int)) > u64::MAX,
        decreases n - i,
    {
        let c = s.get_char(i);
        let v = c as u32;
        if v < 48 || v > 57 {
            proof {
                let t = s@.skip(from as int);
                assert(t[i - from] == s@[i as int]);
                assert(!is_digit(t[i - from]));
            }
            return None;
        }
        let d = (v - 48) as u64;
        proof {
            let before = s@.subrange(from as int, i as int);
            let after = s@.subrange(from as int, i + 1);
            assert(after.drop_last() =~= before);
            assert(after.last() == s@[i as int]);
            assert(digit_val(s@[i as int]) == d as int);
        }
        if !overflow {
            match acc.checked_mul(10) {
                Some(m) => {
                    match m.checked_add(d) {
                        Some(a) => {
                            acc = a;
                        },
                        None => {
                            overflow = true;
                        },
                    }
                },
                None => {
                    overflow = true;
                },
            }
        }
        i = i + 1;
    }
    proof {
        assert(s@.subrange(from as int, n as int) =~= s@.skip(from as int));
    }
    if overflow {
        None
    } else {
        Some(acc)
    }
}

/// Parse a decimal string as an `i32`, accepting an optional leading `+`
/// or `-` sign.  Returns the value exactly when the text is well formed
/// and the value fits.
pub fn parse_i32(s: &str) -> (r: Option<i32>)
    ensures
        match r {
            Some(v) => spec_parse_i32(s@) == Some(v as int),
            None => spec_parse_i32(s@) is None,
        },
{
    let n = s.unicode_len();
    if n == 0 {
        return None;
    }
    let c0 = s.get_char(0);
    let neg = c0 == '-';
    let start: usize = if c0 == '-' || c0 == '+' {
        1
    } else {
        0
    };
    proof {
        if start == 0 {
            assert(s@.skip(0) =~= s@);
        }
    }
    match parse_digits(s, start) {
        None => None,
        Some(v) => {
            proof {
                lemma_digits_val_nonneg(s@.skip(start as int));
            }
            if neg {
                if v <= 2147483648u64 {
                    Some((-(v as i64)) as i32)
                } else {
                    None
                }
            } else {
                if v <= 2147483647u64 {
                    Some(v as i32)
                } else {
                    None
                }
            }
        },
    }
}

/// Parse a decimal string as a `usize`, accepting an optional leading `+`
/// sign.  Returns the value exactly when the text is well formed and the
/// value fits.
pub fn parse_usize(s: &str) -> (r: Option<usize>)
    ensures
        match r {
            Some(v) => spec_parse_usize(s@) == Some(v as int),
            None => spec_parse_usize(s@) is None,
        },
{
    let n = s.unicode_len();
    if n == 0 {
        return None;
    }
    let c0 = s.get_char(0);
    if c0 == '-' {
        return None;
    }
    let start: usize = if c0 == '+' {
        1
    } else {
        0
    };
    proof {
        if start == 0 {
            assert(s@.skip(0) =~= s@);
        }
    }
    match parse_digits(s, start) {
        None => None,
        Some(v) => {
            proof {
                lemma_digits_val_nonneg(s@.skip(start as int));
            }
            if v <= usize::MAX as u64 {
                Some(v as usize)
            } else {
                None
            }
        },
    }
}

/// The decimal digit string of a nonnegative number, most significant
/// digit first, with no leading zeros (a lone `0` for zero).
pub open spec fn spec_digits_of(n: int) -> Seq<char>
    recommends
        n >= 0,
    decreases n,
{
    if n < 10 {
        seq![digit_char(n)]
    } else {
        spec_digits_of(n / 10).push(digit_char(n % 10))
    }
}

/// The decimal text of an integer: a minus sign for negative values, then
/// the digits of the magnitude.
pub open spec fn spec_decimal(n: int) -> Seq<char> {
    if n < 0 {
        seq!['-'] + spec_digits_of(-n)
    } else {
        spec_digits_of(n)
    }
}

/// The one-character text holding the digit character for `d`.
fn digit_str(d: u32) -> (r: &'static str)
    requires
        d < 10,
    ensures
        r@ == seq![digit_char(d as int)],
{
    let digits = "0123456789";
    proof {
        reveal_strlit("0123456789");
        assert(digits@.subrange(d as int, d as int + 1) =~= seq![digits@[d as int]]);
        assert(digits@[d as int] == digit_char(d as int));
    }
    digits.substring_char(d as usize, d as usize + 1)
}

/// Append the decimal digits of `m` to `out`, most significant first.
fn push_digits(out: &mut String, m: u64)
    ensures
        final(out)@ == old(out)@ + spec_digits_of(m as int),
    decreases m,
{
    if m >= 10 {
        push_digits(out, m / 10);
    }
    let d = (m % 10) as u32;
    out.append(digit_str(d));
    proof {
        if m >= 10 {
            assert(old(out)@ + spec_digits_of(m as int / 10) + seq![digit_char(m as int % 10)]
                =~= old(out)@ + spec_digits_of(m as int));
        } else {
            assert(old(out)@ + seq![digit_char(m as int)] =~= old(out)@ + spec_digits_of(m as int));
        }
    }
}

/// A rendered digit string is all digits and reads back as the number it
/// was made from.
proof fn lemma_digits_of_val(n: int)
    requires
        n >= 0,
    ensures
        all_digits(spec_digits_of(n)),
        digits_val(spec_digits_of(n)) == n,
    decreases n,
{
    if n < 10 {
        assert(is_digit(digit_char(n)));
        assert(digit_val(digit_char(n)) == n);
        assert(spec_digits_of(n).drop_last() =~= Seq::<char>::empty());
        assert(digits_val(Seq::<char>::empty()) == 0);
    } else {
        lemma_digits_of_val(n / 10);
        let s = spec_digits_of(n);
        assert(s.drop_last() =~= spec_digits_of(n / 10));
        assert(s.last() == digit_char(n % 10));
        assert(digit_val(digit_char(n % 10)) == n % 10);
        assert forall|i: int| 0 <= i < s.len() implies is_digit(#[trigger] s[i]) by {
            if i < s.len() - 1 {
                assert(s[i] == spec_digits_of(n / 10)[i]);
            } else {
                assert(s[i] == digit_char(n % 10));
            }
        }
    }
}

/// The decimal text of a value in `i32` range parses back to exactly
/// that value.
pub proof fn lemma_decimal_round_trip(n: int)
    requires
        i32::MIN <= n <= i32::MAX,
    ensures
        spec_parse_i32(spec_decimal(n)) == Some(n),
{
    if n >= 0 {
        lemma_digits_of_val(n);
        let s = spec_digits_of(n);
        assert(s.len() >= 1);
        assert(is_digit(s[0]));
        assert(s[0] != '-' && s[0] != '+');
    } else {
        lemma_digits_of_val(-n);
        let s = spec_decimal(n);
        assert(s[0] == '-');
        assert(s.skip(1) =~= spec_digits_of(-n));
        assert(s.len() > 1);
    }
}

/// Render an `i32` in decimal.
pub fn format_i32(n: i32) -> (r: String)
    ensures
        r@ == spec_decimal(n as int),
{
    let mut out = String::new();
    if n < 0 {
        out.append("-");
        proof {
            reveal_strlit("-");
            assert(Seq::<char>::empty() + "-"@ =~= seq!['-']);
        }
        let m = (-(n as i64)) as u64;
        push_digits(&mut out, m);
        proof {
            assert(seq!['-'] + spec_digits_of(m as int) =~= spec_decimal(n as int));
        }
    } else {
        push_digits(&mut out, n as u64);
        proof {
            assert(Seq::<char>::empty() + spec_digits_of(n as int) =~= spec_decimal(n as int));
        }
    }
    out
}

} // verus!
