use vstd::prelude::*;

use crate::text::{chars_of, decimal, digit_char};

verus! {

/// Why a text is not an unsigned integer, as the standard library's
/// integer parser reports it.
#[derive(Debug, Clone, Copy, PartialEq, Eq, Structural)]
pub enum IntError {
    Empty,
    InvalidDigit,
    PosOverflow,
}

impl IntError {
    /// The message the standard library gives for this error.
    pub fn message(&self) -> (r: &'static str)
        ensures
            r@ == match *self {
                IntError::Empty => "cannot parse integer from empty string"@,
                IntError::InvalidDigit => "invalid digit found in string"@,
                IntError::PosOverflow => "number too large to fit in target type"@,
            },
    {
        match self {
            IntError::Empty => "cannot parse integer from empty string",
            IntError::InvalidDigit => "invalid digit found in string",
            IntError::PosOverflow => "number too large to fit in target type",
        }
    }
}

/// `c` is one of `0`..`9`.
pub open spec fn is_digit(c: char) -> bool {
    '0' <= c <= '9'
}

/// The value of the digit `c`.
pub open spec fn digit_value(c: char) -> nat {
    (c as int - '0' as int) as nat
}

/// The value of a string of decimal digits, read left to right; the
/// first character that is not a digit, or the first digit that takes the
/// value past `u32::MAX`, decides the error.
pub open spec fn digits_value(d: Seq<char>) -> Result<u32, IntError>
    decreases d.len(),
{
    if d.len() == 0 {
        Ok(0u32)
    } else {
        match digits_value(d.drop_last()) {
            Err(e) => Err(e),
            Ok(v) => if !is_digit(d.last()) {
                Err(IntError::InvalidDigit)
            } else if v * 10 + digit_value(d.last()) > u32::MAX {
                Err(IntError::PosOverflow)
            } else {
                Ok((v * 10 + digit_value(d.last())) as u32)
            },
        }
    }
}

/// What `str::parse::<u32>` gives for `s`: an optional `+`, then decimal
/// digits only.
pub open spec fn u32_from_text(s: Seq<char>) -> Result<u32, IntError> {
    if s.len() == 0 {
        Err(IntError::Empty)
    } else if s.len() == 1 && (s[0] == '+' || s[0] == '-') {
        Err(IntError::InvalidDigit)
    } else if s[0] == '+' {
        digits_value(s.drop_first())
    } else {
        digits_value(s)
    }
}

/// An error in a prefix of the digits is the error of the whole.
proof fn lemma_digits_error_prefix(d: Seq<char>, k: int)
    requires
        0 <= k <= d.len(),
        digits_value(d.take(k)) is Err,
    ensures
        digits_value(d) == digits_value(d.take(k)),
    decreases d.len(),
{
    if k == d.len() {
        assert(d.take(k) =~= d);
    } else {
        assert(d.drop_last().take(k) =~= d.take(k));
        lemma_digits_error_prefix(d.drop_last(), k);
    }
}

/// The value of the digits of `d` from index `start` on.
fn digits_value_exec(d: &Vec<char>, start: usize) -> (r: Result<u32, IntError>)
    requires
        start <= d@.len(),
    ensures
        r == digits_value(d@.skip(start as int)),
{
    let ghost s = d@.skip(start as int);
    let mut acc: u32 = 0;
    let mut i: usize = start;
    assert(s.take(0) =~= Seq::<char>::empty());
    while i < d.len()
        invariant
            start <= i <= d@.len(),
            s == d@.skip(start as int),
            digits_value(s.take(i - start)) == Ok::<u32, IntError>(acc),
        decreases d@.len() - i,
    {
        let c = d[i];
        let k = i - start;
        assert(s.take(k + 1).drop_last() =~= s.take(k as int));
        assert(s.take(k + 1).last() == c);
        if !('0' <= c && c <= '9') {
            proof {
                lemma_digits_error_prefix(s, k + 1);
            }
            return Err(IntError::InvalidDigit);
        }
        let v = (c as u32) - ('0' as u32);
        if acc > 429496729 || (acc == 429496729 && v > 5) {
            proof {
                lemma_digits_error_prefix(s, k + 1);
            }
            return Err(IntError::PosOverflow);
        }
        acc = acc * 10 + v;
        i = i + 1;
    }
    assert(s.take(i - start) =~= s);
    Ok(acc)
}

/// Reads a `u32` the way `str::parse::<u32>` does.
pub fn parse_u32(text: &str) -> (r: Result<u32, IntError>)
    ensures
        r == u32_from_text(text@),
{
    let d = chars_of(text);
    if d.len() == 0 {
        return Err(IntError::Empty);
    }
    if d.len() == 1 && (d[0] == '+' || d[0] == '-') {
        return Err(IntError::InvalidDigit);
    }
    if d[0] == '+' {
        assert(d@.skip(1) =~= d@.drop_first());
        digits_value_exec(&d, 1)
    } else {
        assert(d@.skip(0) =~= d@);
        digits_value_exec(&d, 0)
    }
}

/// Reading back the decimal numeral of a `u32` gives the number.
pub proof fn lemma_decimal_reads_back(n: u32)
    ensures
        u32_from_text(decimal(n as nat)) == Ok::<u32, IntError>(n),
{
    lemma_decimal_digits(n as nat);
    let d = decimal(n as nat);
    assert(d[0] != '+' && d[0] != '-') by {
        assert(is_digit(d[0]));
    }
}

/// The decimal numeral of `n` is made of digits, and reads back as `n`.
proof fn lemma_decimal_digits(n: nat)
    requires
        n <= u32::MAX,
    ensures
        decimal(n).len() > 0,
        forall|i: int| 0 <= i < decimal(n).len() ==> is_digit(#[trigger] decimal(n)[i]),
        digits_value(decimal(n)) == Ok::<u32, IntError>(n as u32),
    decreases n,
{
    if n < 10 {
        let d = decimal(n);
        assert(d.drop_last() =~= Seq::<char>::empty());
        assert(digits_value(d.drop_last()) == Ok::<u32, IntError>(0u32));
        assert(d.last() == digit_char(n));
        assert(is_digit(digit_char(n)));
        assert(digit_value(digit_char(n)) == n);
        assert(digits_value(d) == Ok::<u32, IntError>(n as u32));
    } else {
        lemma_decimal_digits(n / 10);
        let d = decimal(n);
        assert(d.drop_last() =~= decimal(n / 10));
        assert(d.last() == digit_char(n % 10));
        assert(is_digit(digit_char(n % 10)));
        assert(digit_value(digit_char(n % 10)) == n % 10);
        assert((n / 10) * 10 + n % 10 == n);
        assert(digits_value(d.drop_last()) == Ok::<u32, IntError>((n / 10) as u32));
        assert(digits_value(d) == Ok::<u32, IntError>(n as u32));
        assert forall|i: int| 0 <= i < d.len() implies is_digit(#[trigger] d[i]) by {
            if i < d.len() - 1 {
                assert(d[i] == decimal(n / 10)[i]);
            }
        }
    }
}

/// The index just past the run of digits of `s` that starts at `i`.
pub open spec fn digit_run_end(s: Seq<char>, i: int) -> int
    decreases s.len() - i,
{
    if 0 <= i < s.len() && is_digit(s[i]) {
        digit_run_end(s, i + 1)
    } else {
        i
    }
}

/// An exponent that starts at `k` and runs to the end: an optional sign,
/// then at least one digit.
pub open spec fn exponent_syntax(b: Seq<char>, k: int) -> bool {
    let k2 = if k < b.len() && (b[k] == '+' || b[k] == '-') {
        k + 1
    } else {
        k
    };
    let k3 = digit_run_end(b, k2);
    k3 > k2 && k3 == b.len()
}

/// A decimal number: digits, an optional point with digits after it, at
/// least one digit in all, then an optional exponent `e` or `E`.
pub open spec fn decimal_number_syntax(b: Seq<char>) -> bool {
    let i1 = digit_run_end(b, 0);
    let has_point = i1 < b.len() && b[i1] == '.';
    let j = if has_point {
        digit_run_end(b, i1 + 1)
    } else {
        i1
    };
    let n_digits = if has_point {
        i1 + (j - i1 - 1)
    } else {
        i1
    };
    n_digits > 0 && (j == b.len() || ((b[j] == 'e' || b[j] == 'E') && exponent_syntax(b, j + 1)))
}

/// `c` is the upper-case letter `upper` in either case.
pub open spec fn letter_is(c: char, upper: char) -> bool {
    c == upper || c as int == upper as int + 32
}

/// `inf`, `infinity` or `nan`, in any mix of cases.
pub open spec fn special_float_syntax(b: Seq<char>) -> bool {
    ||| (b.len() == 3 && letter_is(b[0], 'I') && letter_is(b[1], 'N') && letter_is(b[2], 'F'))
    ||| (b.len() == 8 && letter_is(b[0], 'I') && letter_is(b[1], 'N') && letter_is(b[2], 'F')
        && letter_is(b[3], 'I') && letter_is(b[4], 'N') && letter_is(b[5], 'I') && letter_is(
        b[6],
        'T',
    ) && letter_is(b[7], 'Y'))
    ||| (b.len() == 3 && letter_is(b[0], 'N') && letter_is(b[1], 'A') && letter_is(b[2], 'N'))
}

/// The texts that the standard library reads as a floating-point number:
/// an optional sign, then a decimal number or `inf`, `infinity`, `nan`.
pub open spec fn float_syntax(s: Seq<char>) -> bool {
    let b = if s.len() > 0 && (s[0] == '+' || s[0] == '-') {
        s.drop_first()
    } else {
        s
    };
    b.len() > 0 && (decimal_number_syntax(b) || special_float_syntax(b))
}

/// The end of the run of digits of `v` that starts at `i`.
fn skip_digits(v: &Vec<char>, i: usize) -> (j: usize)
    requires
        i <= v@.len(),
    ensures
        j as int == digit_run_end(v@, i as int),
        i <= j <= v@.len(),
{
    let mut j = i;
    while j < v.len() && '0' <= v[j] && v[j] <= '9'
        invariant
            i <= j <= v@.len(),
            digit_run_end(v@, i as int) == digit_run_end(v@, j as int),
        decreases v@.len() - j,
    {
        j = j + 1;
    }
    j
}

/// `c` is the upper-case letter `upper` in either case.
fn letter_matches(c: char, upper: char) -> (r: bool)
    requires
        'A' <= upper <= 'Z',
    ensures
        r == letter_is(c, upper),
{
    c == upper || (c as u32) == (upper as u32) + 32
}

/// The characters of `v` from `start` on spell `inf`, `infinity` or `nan`.
fn is_special(v: &Vec<char>, start: usize) -> (r: bool)
    requires
        start <= v@.len(),
    ensures
        r == special_float_syntax(v@.skip(start as int)),
{
    let n = v.len() - start;
    if n == 3 {
        (letter_matches(v[start], 'I') && letter_matches(v[start + 1], 'N') && letter_matches(
            v[start + 2],
            'F',
        )) || (letter_matches(v[start], 'N') && letter_matches(v[start + 1], 'A')
            && letter_matches(v[start + 2], 'N'))
    } else if n == 8 {
        letter_matches(v[start], 'I') && letter_matches(v[start + 1], 'N') && letter_matches(
            v[start + 2],
            'F',
        ) && letter_matches(v[start + 3], 'I') && letter_matches(v[start + 4], 'N')
            && letter_matches(v[start + 5], 'I') && letter_matches(v[start + 6], 'T')
            && letter_matches(v[start + 7], 'Y')
    } else {
        false
    }
}

/// `digit_run_end` on a suffix, in the indices of the whole.
proof fn lemma_digit_run_skip(v: Seq<char>, start: int, i: int)
    requires
        0 <= start <= i <= v.len(),
    ensures
        digit_run_end(v.skip(start), i - start) == digit_run_end(v, i) - start,
    decreases v.len() - i,
{
    if i < v.len() {
        assert(v.skip(start)[i - start] == v[i]);
        lemma_digit_run_skip(v, start, i + 1);
    }
}

/// Whether `text` is a number that `str::parse::<f64>` (or `f32`) accepts.
pub fn is_float_text(text: &str) -> (r: bool)
    ensures
        r == float_syntax(text@),
{
    let v = chars_of(text);
    let ghost s = v@;
    let start: usize = if v.len() > 0 && (v[0] == '+' || v[0] == '-') {
        1
    } else {
        0
    };
    let ghost b = s.skip(start as int);
    assert(start == 1 ==> b =~= s.drop_first());
    assert(start == 0 ==> b =~= s);
    if v.len() == start {
        return false;
    }
    proof {
        lemma_digit_run_skip(s, start as int, start as int);
    }
    let i1 = skip_digits(&v, start);
    let has_point = i1 < v.len() && v[i1] == '.';
    let mut j = i1;
    if has_point {
        proof {
            lemma_digit_run_skip(s, start as int, i1 + 1);
        }
        j = skip_digits(&v, i1 + 1);
    }
    let n_digits = if has_point {
        (i1 - start) + (j - i1 - 1)
    } else {
        i1 - start
    };
    let mut number = false;
    if n_digits > 0 {
        if j == v.len() {
            number = true;
        } else if v[j] == 'e' || v[j] == 'E' {
            let k = j + 1;
            let k2 = if k < v.len() && (v[k] == '+' || v[k] == '-') {
                k + 1
            } else {
                k
            };
            proof {
                lemma_digit_run_skip(s, start as int, k2 as int);
            }
            let k3 = skip_digits(&v, k2);
            number = k3 > k2 && k3 == v.len();
        }
    }
    assert(number == decimal_number_syntax(b));
    number || is_special(&v, start)
}

} // verus!
