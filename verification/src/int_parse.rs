//! Reading a decimal `i32`, with the grammar and the error kinds of
//! `str::parse::<i32>`: an optional `+` or `-`, then one or more ASCII digits,
//! the value in range.
use vstd::prelude::*;

verus! {

/// Why a text is not a decimal `i32` (the kinds of `std::num::IntErrorKind`
/// that reading an `i32` can give).
#[derive(Debug, Clone, Copy, PartialEq, Eq, Structural)]
pub enum IntParseFailure {
    /// The text is empty.
    Empty,
    /// A character is not a digit, or the text is a lone sign.
    InvalidDigit,
    /// The value is above `i32::MAX`.
    PosOverflow,
    /// The value is below `i32::MIN`.
    NegOverflow,
}

/// Whether `c` is an ASCII decimal digit.
pub open spec fn is_digit(c: char) -> bool {
    '0' <= c && c <= '9'
}

/// The value of the decimal digit `c`.
pub open spec fn digit_value(c: char) -> int {
    c as int - '0' as int
}

/// Reads the digits `d` from left to right into `acc` (adding each digit when
/// the number is positive, subtracting it when negative); the first character
/// that is not a digit, or the first step that leaves the `i32` range, is the
/// failure.
pub open spec fn accumulate_digits(d: Seq<char>, negative: bool, acc: int) -> Result<
    int,
    IntParseFailure,
>
    decreases d.len(),
{
    if d.len() == 0 {
        Ok(acc)
    } else if !is_digit(d[0]) {
        Err(IntParseFailure::InvalidDigit)
    } else {
        let next = if negative {
            acc * 10 - digit_value(d[0])
        } else {
            acc * 10 + digit_value(d[0])
        };
        if next > i32::MAX {
            Err(IntParseFailure::PosOverflow)
        } else if next < i32::MIN {
            Err(IntParseFailure::NegOverflow)
        } else {
            accumulate_digits(d.drop_first(), negative, next)
        }
    }
}

/// Whether `c` is a sign character.
pub open spec fn is_sign(c: char) -> bool {
    c == '+' || c == '-'
}

/// The decimal `i32` written in `s`, or why there is none.
pub open spec fn parse_i32(s: Seq<char>) -> Result<i32, IntParseFailure> {
    if s.len() == 0 {
        Err(IntParseFailure::Empty)
    } else if is_sign(s[0]) && s.len() == 1 {
        Err(IntParseFailure::InvalidDigit)
    } else {
        let negative = s[0] == '-';
        let digits = if is_sign(s[0]) {
            s.drop_first()
        } else {
            s
        };
        match accumulate_digits(digits, negative, 0) {
            Ok(v) => Ok(v as i32),
            Err(e) => Err(e),
        }
    }
}

/// A successful reading stays within the `i32` range.
proof fn lemma_accumulate_in_range(d: Seq<char>, negative: bool, acc: int)
    requires
        i32::MIN <= acc <= i32::MAX,
    ensures
        accumulate_digits(d, negative, acc) matches Ok(v) ==> i32::MIN <= v <= i32::MAX,
    decreases d.len(),
{
    if d.len() > 0 && is_digit(d[0]) {
        let next = if negative {
            acc * 10 - digit_value(d[0])
        } else {
            acc * 10 + digit_value(d[0])
        };
        if i32::MIN <= next <= i32::MAX {
            lemma_accumulate_in_range(d.drop_first(), negative, next);
        }
    }
}

/// Reads the decimal `i32` written in `s`.
pub fn parse_decimal_i32(s: &Vec<char>) -> (res: Result<i32, IntParseFailure>)
    ensures
        res == parse_i32(s@),
{
    let n = s.len();
    if n == 0 {
        return Err(IntParseFailure::Empty);
    }
    let first = s[0];
    let signed = first == '+' || first == '-';
    if signed && n == 1 {
        return Err(IntParseFailure::InvalidDigit);
    }
    let negative = first == '-';
    let mut i: usize = if signed {
        1
    } else {
        0
    };
    let ghost digits = if signed {
        s@.drop_first()
    } else {
        s@
    };
    assert(s@.skip(i as int) =~= digits);
    let mut acc: i64 = 0;
    while i < n
        invariant
            n == s.len(),
            i <= n,
            i32::MIN <= acc <= i32::MAX,
            n > 0,
            !(is_sign(s@[0]) && n == 1),
            negative == (s@[0] == '-'),
            digits == if is_sign(s@[0]) {
                s@.drop_first()
            } else {
                s@
            },
            accumulate_digits(digits, negative, 0) == accumulate_digits(
                s@.skip(i as int),
                negative,
                acc as int,
            ),
        decreases n - i,
    {
        let c = s[i];
        let ghost rest = s@.skip(i as int);
        assert(rest[0] == c);
        if !('0' <= c && c <= '9') {
            return Err(IntParseFailure::InvalidDigit);
        }
        let d = (c as u32 - '0' as u32) as i64;
        let next = if negative {
            acc * 10 - d
        } else {
            acc * 10 + d
        };
        if next > i32::MAX as i64 {
            return Err(IntParseFailure::PosOverflow);
        }
        if next < i32::MIN as i64 {
            return Err(IntParseFailure::NegOverflow);
        }
        assert(rest.drop_first() =~= s@.skip(i + 1));
        acc = next;
        i = i + 1;
    }
    assert(s@.skip(n as int) =~= Seq::<char>::empty());
    proof {
        lemma_accumulate_in_range(digits, negative, 0);
    }
    Ok(acc as i32)
}

} // verus!

verus! {

/// The digit character for `d` (below 10).
pub open spec fn digit_char(d: nat) -> char {
    ('0' as nat + d) as char
}

/// The decimal digits of `n`, without sign or leading zeros.
pub open spec fn decimal(n: nat) -> Seq<char>
    decreases n,
{
    if n < 10 {
        seq![digit_char(n)]
    } else {
        decimal(n / 10) + seq![digit_char(n % 10)]
    }
}

/// The decimal digits of a number are digits, and there is at least one.
pub proof fn lemma_decimal_digits(n: nat)
    ensures
        decimal(n).len() >= 1,
        forall|m: int| 0 <= m < decimal(n).len() ==> is_digit(#[trigger] decimal(n)[m]),
    decreases n,
{
    if n >= 10 {
        lemma_decimal_digits(n / 10);
        let a = decimal(n / 10);
        let last = seq![digit_char(n % 10)];
        assert forall|m: int| 0 <= m < decimal(n).len() implies is_digit(
            #[trigger] decimal(n)[m],
        ) by {
            if m < a.len() {
                assert(decimal(n)[m] == a[m]);
            } else {
                assert(decimal(n)[m] == last[m - a.len()]);
            }
        }
    }
}

/// Reading digits one after another continues from where the first part left.
proof fn lemma_accumulate_concat(a: Seq<char>, b: Seq<char>, negative: bool, acc: int)
    ensures
        accumulate_digits(a + b, negative, acc) == match accumulate_digits(a, negative, acc) {
            Ok(x) => accumulate_digits(b, negative, x),
            Err(e) => Err(e),
        },
    decreases a.len(),
{
    if a.len() == 0 {
        assert(a + b =~= b);
    } else {
        assert((a + b)[0] == a[0]);
        assert((a + b).drop_first() =~= a.drop_first() + b);
        let next = if negative {
            acc * 10 - digit_value(a[0])
        } else {
            acc * 10 + digit_value(a[0])
        };
        lemma_accumulate_concat(a.drop_first(), b, negative, next);
    }
}

/// The decimal digits of a number read back as that number.
proof fn lemma_accumulate_decimal(n: nat)
    requires
        n <= i32::MAX,
    ensures
        accumulate_digits(decimal(n), false, 0) == Ok::<int, IntParseFailure>(n as int),
    decreases n,
{
    if n < 10 {
        let d = seq![digit_char(n)];
        assert(digit_value(d[0]) == n);
        assert(is_digit(d[0]));
        assert(d.drop_first() =~= Seq::<char>::empty());
        assert(accumulate_digits(d.drop_first(), false, n as int) == Ok::<int, IntParseFailure>(
            n as int,
        ));
    } else {
        lemma_accumulate_decimal(n / 10);
        let last = seq![digit_char(n % 10)];
        lemma_accumulate_concat(decimal(n / 10), last, false, 0);
        assert(digit_value(last[0]) == n % 10);
        assert(is_digit(last[0]));
        assert(last.drop_first() =~= Seq::<char>::empty());
        assert((n / 10) as int * 10 + (n % 10) as int == n);
        assert(accumulate_digits(last.drop_first(), false, n as int) == Ok::<
            int,
            IntParseFailure,
        >(n as int));
        assert(accumulate_digits(last, false, (n / 10) as int) == Ok::<int, IntParseFailure>(
            n as int,
        ));
    }
}

/// The decimal rendering of a number in the `i32` range reads back as it.
pub proof fn lemma_parse_decimal(n: nat)
    requires
        n <= i32::MAX,
    ensures
        parse_i32(decimal(n)) == Ok::<i32, IntParseFailure>(n as i32),
{
    lemma_decimal_digits(n);
    lemma_accumulate_decimal(n);
    assert(is_digit(decimal(n)[0]));
}

} // verus!
