//! Reading scalars from text, and writing them.
//!
//! An integer is read from an optional sign followed by decimal digits and
//! nothing else: `+` is accepted by every integer type, `-` by the signed
//! ones. Scanning from the left, the first fault met is the one reported.
//! An integer is written without a plus sign and without leading zeros.

use vstd::prelude::*;
use crate::error::ScalarFault;
use vstd::string::StringExecFns;
use crate::text::chars_of;

verus! {

/// `c` is one of the decimal digits `0` to `9`.
pub open spec fn is_digit(c: char) -> bool {
    48 <= c as u32 <= 57
}

/// The value of a decimal digit.
pub open spec fn digit_value(c: char) -> int {
    c as u32 - 48
}

/// The number that a sequence of decimal digits denotes.
pub open spec fn decimal(digits: Seq<char>) -> int
    decreases digits.len(),
{
    if digits.len() == 0 {
        0
    } else {
        decimal(digits.drop_last()) * 10 + digit_value(digits.last())
    }
}

/// The length of the longest prefix of `text` made of decimal digits.
pub open spec fn leading_digits(text: Seq<char>) -> int
    decreases text.len(),
{
    if text.len() == 0 || !is_digit(text[0]) {
        0
    } else {
        1 + leading_digits(text.drop_first())
    }
}

/// What `text` denotes as an integer between `min` and `max`. A number out
/// of range is reported as such even if something that is no digit follows
/// its digits.
pub open spec fn parse_integer(text: Seq<char>, signed: bool, min: int, max: int) -> Result<
    int,
    ScalarFault,
> {
    if text.len() == 0 {
        Err(ScalarFault::Empty)
    } else {
        let negative = signed && text[0] == '-';
        let body = if text[0] == '+' || negative {
            text.drop_first()
        } else {
            text
        };
        let magnitude = decimal(body.take(leading_digits(body)));
        if body.len() == 0 {
            Err(ScalarFault::InvalidDigit)
        } else if !negative && magnitude > max {
            Err(ScalarFault::PosOverflow)
        } else if negative && -magnitude < min {
            Err(ScalarFault::NegOverflow)
        } else if leading_digits(body) < body.len() {
            Err(ScalarFault::InvalidDigit)
        } else if negative {
            Ok(-magnitude)
        } else {
            Ok(magnitude)
        }
    }
}

/// What `text` denotes as a truth value: exactly `true` or `false`.
pub open spec fn parse_boolean(text: Seq<char>) -> Result<bool, ScalarFault> {
    if text == seq!['t', 'r', 'u', 'e'] {
        Ok(true)
    } else if text == seq!['f', 'a', 'l', 's', 'e'] {
        Ok(false)
    } else {
        Err(ScalarFault::NotBoolean)
    }
}

/// The digit prefix is a prefix, holds digits only, and cannot be extended.
proof fn lemma_leading_digits(text: Seq<char>)
    ensures
        0 <= leading_digits(text) <= text.len(),
        forall|j: int| 0 <= j < leading_digits(text) ==> is_digit(#[trigger] text[j]),
        leading_digits(text) < text.len() ==> !is_digit(text[leading_digits(text)]),
    decreases text.len(),
{
    if text.len() > 0 && is_digit(text[0]) {
        let rest = text.drop_first();
        lemma_leading_digits(rest);
        assert forall|j: int| 0 <= j < leading_digits(text) implies is_digit(#[trigger] text[j]) by {
            if j > 0 {
                assert(text[j] == rest[j - 1]);
            }
        }
    }
}

/// The digit prefix of `text` has length `k` if the first `k` characters
/// are digits and the one behind them, if any, is not.
proof fn lemma_leading_digits_is(text: Seq<char>, k: int)
    requires
        0 <= k <= text.len(),
        forall|j: int| 0 <= j < k ==> is_digit(#[trigger] text[j]),
        k < text.len() ==> !is_digit(text[k]),
    ensures
        leading_digits(text) == k,
{
    lemma_leading_digits(text);
    let n = leading_digits(text);
    if n < k {
        assert(is_digit(text[n]));
    } else if k < n {
        assert(is_digit(text[k]));
    }
}

/// A longer run of digits denotes a number that is no smaller.
proof fn lemma_decimal_monotone(digits: Seq<char>, j: int, k: int)
    requires
        0 <= j <= k <= digits.len(),
        forall|i: int| 0 <= i < k ==> is_digit(#[trigger] digits[i]),
    ensures
        0 <= decimal(digits.take(j)) <= decimal(digits.take(k)),
    decreases k,
{
    if k == 0 {
        assert(digits.take(0).len() == 0);
    } else {
        assert(digits.take(k).drop_last() =~= digits.take(k - 1));
        if j < k {
            lemma_decimal_monotone(digits, j, k - 1);
        } else {
            lemma_decimal_monotone(digits, k - 1, k - 1);
        }
    }
}

/// Reads a decimal integer between `min` and `max`.
fn parse_decimal(text: &str, signed: bool, min: i128, max: i128) -> (r: Result<i128, ScalarFault>)
    requires
        -0x8000_0000_0000_0000 <= min <= 0 <= max <= 0xffff_ffff_ffff_ffff,
    ensures
        match r {
            Ok(v) => parse_integer(text@, signed, min as int, max as int) == Ok::<int, ScalarFault>(
                v as int,
            ) && min <= v <= max,
            Err(e) => parse_integer(text@, signed, min as int, max as int) == Err::<
                int,
                ScalarFault,
            >(e),
        },
{
    let chars = chars_of(text);
    let n = chars.len();
    if n == 0 {
        return Err(ScalarFault::Empty);
    }
    let negative = signed && chars[0] == '-';
    let start: usize = if chars[0] == '+' || negative {
        1
    } else {
        0
    };
    let ghost body = text@.skip(start as int);
    assert(body =~= if text@[0] == '+' || negative {
        text@.drop_first()
    } else {
        text@
    });
    if start == n {
        return Err(ScalarFault::InvalidDigit);
    }
    let mut acc: i128 = 0;
    let mut i: usize = start;
    assert(body.take(0).len() == 0);
    while i < n
        invariant
            start <= i <= n,
            n == chars@.len(),
            chars@ == text@,
            text@.len() > 0,
            negative == (signed && text@[0] == '-'),
            body == text@.skip(start as int),
            body == if text@[0] == '+' || negative {
                text@.drop_first()
            } else {
                text@
            },
            forall|j: int| 0 <= j < i - start ==> is_digit(#[trigger] body[j]),
            acc == decimal(body.take(i - start)),
            0 <= acc,
            !negative ==> acc <= max,
            negative ==> -acc >= min,
            -0x8000_0000_0000_0000 <= min <= 0 <= max <= 0xffff_ffff_ffff_ffff,
        decreases n - i,
    {
        let c = chars[i];
        let code: u32 = c as u32;
        assert(body[i - start] == c);
        if code < 48 || code > 57 {
            proof {
                lemma_leading_digits_is(body, i - start);
            }
            return Err(ScalarFault::InvalidDigit);
        }
        let digit: i128 = (code - 48) as i128;
        acc = acc * 10 + digit;
        proof {
            assert(body.take(i - start + 1).drop_last() =~= body.take(i - start));
            assert(acc == decimal(body.take(i - start + 1)));
            if (!negative && acc > max) || (negative && -acc < min) {
                lemma_leading_digits(body);
                let lead = leading_digits(body);
                if lead < i - start + 1 {
                    assert(is_digit(body[lead]));
                }
                lemma_decimal_monotone(body.take(lead), i - start + 1, lead);
                assert(body.take(lead).take(i - start + 1) =~= body.take(i - start + 1));
                assert(body.take(lead).take(lead) =~= body.take(lead));
            }
        }
        if !negative && acc > max {
            return Err(ScalarFault::PosOverflow);
        }
        if negative && -acc < min {
            return Err(ScalarFault::NegOverflow);
        }
        i += 1;
    }
    proof {
        lemma_leading_digits_is(body, n - start);
    }
    if negative {
        Ok(-acc)
    } else {
        Ok(acc)
    }
}

/// Reads `true` or `false`.
pub(crate) fn parse_bool(text: &str) -> (r: Result<bool, ScalarFault>)
    ensures
        r == parse_boolean(text@),
{
    let chars = chars_of(text);
    if chars.len() == 4 && chars[0] == 't' && chars[1] == 'r' && chars[2] == 'u' && chars[3] == 'e' {
        assert(text@ =~= seq!['t', 'r', 'u', 'e']);
        Ok(true)
    } else if chars.len() == 5 && chars[0] == 'f' && chars[1] == 'a' && chars[2] == 'l' && chars[3]
        == 's' && chars[4] == 'e' {
        assert(text@ =~= seq!['f', 'a', 'l', 's', 'e']);
        Ok(false)
    } else {
        Err(ScalarFault::NotBoolean)
    }
}

/// Reads an unsigned decimal integer of at most `max`.
pub(crate) fn parse_unsigned(text: &str, max: u64) -> (r: Result<u64, ScalarFault>)
    ensures
        match r {
            Ok(v) => parse_integer(text@, false, 0, max as int) == Ok::<int, ScalarFault>(v as int)
                && v <= max,
            Err(e) => parse_integer(text@, false, 0, max as int) == Err::<int, ScalarFault>(e),
        },
{
    match parse_decimal(text, false, 0, max as i128) {
        Ok(v) => Ok(v as u64),
        Err(e) => Err(e),
    }
}

/// Reads a signed decimal integer between `min` and `max`.
pub(crate) fn parse_signed(text: &str, min: i64, max: i64) -> (r: Result<i64, ScalarFault>)
    requires
        min <= 0 <= max,
    ensures
        match r {
            Ok(v) => parse_integer(text@, true, min as int, max as int) == Ok::<int, ScalarFault>(
                v as int,
            ) && min <= v <= max,
            Err(e) => parse_integer(text@, true, min as int, max as int) == Err::<int, ScalarFault>(
                e,
            ),
        },
{
    match parse_decimal(text, true, min as i128, max as i128) {
        Ok(v) => Ok(v as i64),
        Err(e) => Err(e),
    }
}

/// The character for a digit value.
pub open spec fn digit_char(d: int) -> char {
    if d == 0 {
        '0'
    } else if d == 1 {
        '1'
    } else if d == 2 {
        '2'
    } else if d == 3 {
        '3'
    } else if d == 4 {
        '4'
    } else if d == 5 {
        '5'
    } else if d == 6 {
        '6'
    } else if d == 7 {
        '7'
    } else if d == 8 {
        '8'
    } else {
        '9'
    }
}

/// The decimal digits of a number, without leading zeros.
pub open spec fn digits_of(v: nat) -> Seq<char>
    decreases v,
{
    if v < 10 {
        seq![digit_char(v as int)]
    } else {
        digits_of(v / 10).push(digit_char((v % 10) as int))
    }
}

/// How an integer is written: its decimal digits, behind a minus sign if
/// it is negative.
pub open spec fn integer_text(v: int) -> Seq<char> {
    if v < 0 {
        seq!['-'] + digits_of((-v) as nat)
    } else {
        digits_of(v as nat)
    }
}

/// How a truth value is written.
pub open spec fn boolean_text(v: bool) -> Seq<char> {
    if v {
        seq!['t', 'r', 'u', 'e']
    } else {
        seq!['f', 'a', 'l', 's', 'e']
    }
}

/// The digits of a number are digits, and denote the number.
proof fn lemma_digits_of(v: nat)
    ensures
        digits_of(v).len() > 0,
        forall|i: int| 0 <= i < digits_of(v).len() ==> is_digit(#[trigger] digits_of(v)[i]),
        decimal(digits_of(v)) == v,
    decreases v,
{
    if v < 10 {
        assert(digits_of(v).drop_last() =~= Seq::<char>::empty());
        assert(decimal(Seq::<char>::empty()) == 0);
    } else {
        lemma_digits_of(v / 10);
        assert(digits_of(v).drop_last() =~= digits_of(v / 10));
    }
}

/// Round trip of integers: an integer of the target's range, written as
/// text, is read back as itself. A negative one needs a signed target.
pub proof fn lemma_integer_round_trip(v: int, signed: bool, min: int, max: int)
    requires
        min <= v <= max,
        v < 0 ==> signed,
    ensures
        parse_integer(integer_text(v), signed, min, max) == Ok::<int, ScalarFault>(v),
{
    let text = integer_text(v);
    let digits = if v < 0 {
        digits_of((-v) as nat)
    } else {
        digits_of(v as nat)
    };
    if v < 0 {
        lemma_digits_of((-v) as nat);
        assert(text.drop_first() =~= digits);
    } else {
        lemma_digits_of(v as nat);
        assert(is_digit(digits[0]));
    }
    lemma_leading_digits_is(digits, digits.len() as int);
    assert(digits.take(digits.len() as int) =~= digits);
}

/// Round trip of truth values: a truth value, written as text, is read
/// back as itself.
pub proof fn lemma_boolean_round_trip(v: bool)
    ensures
        parse_boolean(boolean_text(v)) == Ok::<bool, ScalarFault>(v),
{
    assert(seq!['f', 'a', 'l', 's', 'e'].len() != seq!['t', 'r', 'u', 'e'].len());
}

/// The text of one decimal digit.
fn digit_text(d: u64) -> (r: &'static str)
    requires
        d < 10,
    ensures
        r@ == seq![digit_char(d as int)],
{
    proof {
        reveal_strlit("0");
        reveal_strlit("1");
        reveal_strlit("2");
        reveal_strlit("3");
        reveal_strlit("4");
        reveal_strlit("5");
        reveal_strlit("6");
        reveal_strlit("7");
        reveal_strlit("8");
        reveal_strlit("9");
    }
    let r = if d == 0 {
        "0"
    } else if d == 1 {
        "1"
    } else if d == 2 {
        "2"
    } else if d == 3 {
        "3"
    } else if d == 4 {
        "4"
    } else if d == 5 {
        "5"
    } else if d == 6 {
        "6"
    } else if d == 7 {
        "7"
    } else if d == 8 {
        "8"
    } else {
        "9"
    };
    assert(r@ =~= seq![digit_char(d as int)]);
    r
}

/// Writes the decimal digits of a number behind what `out` holds.
fn write_digits(v: u64, out: &mut String)
    ensures
        final(out)@ == old(out)@ + digits_of(v as nat),
    decreases v,
{
    if v >= 10 {
        write_digits(v / 10, out);
    }
    let ghost before = out@;
    out.append(digit_text(v % 10));
    assert(out@ =~= old(out)@ + digits_of(v as nat));
}

/// Writes an unsigned integer as text.
pub(crate) fn write_unsigned(v: u64) -> (r: String)
    ensures
        r@ == integer_text(v as int),
{
    let mut r = String::new();
    write_digits(v, &mut r);
    assert(r@ =~= integer_text(v as int));
    r
}

/// Writes a signed integer as text.
pub(crate) fn write_signed(v: i64) -> (r: String)
    ensures
        r@ == integer_text(v as int),
{
    let mut r = String::new();
    if v < 0 {
        r.append("-");
        proof {
            reveal_strlit("-");
        }
        let magnitude: u64 = (-(v + 1)) as u64 + 1;
        write_digits(magnitude, &mut r);
        assert(r@ =~= integer_text(v as int));
    } else {
        write_digits(v as u64, &mut r);
        assert(r@ =~= integer_text(v as int));
    }
    r
}

/// Writes a truth value as text.
pub(crate) fn write_bool(v: bool) -> (r: String)
    ensures
        r@ == boolean_text(v),
{
    proof {
        reveal_strlit("true");
        reveal_strlit("false");
    }
    let r = if v {
        "true"
    } else {
        "false"
    };
    assert(r@ =~= boolean_text(v));
    r.to_owned()
}

} // verus!
