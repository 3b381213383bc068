//! The wire syntax of `application/x-www-form-urlencoded` data.
//!
//! Splitting the input into pairs and unescaping them is done by the
//! `form_urlencoded` crate, which is lenient: it passes an incomplete escape
//! through as text and replaces bytes that are not UTF-8. Decoding here is
//! strict, so the input is checked before it is handed over. Of input that
//! passes the check, this module says which pairs it holds.

use vstd::prelude::*;
use vstd::utf8::{decode_utf8, valid_utf8};
use crate::text::split;

verus! {

/// `b` is an ASCII hexadecimal digit.
pub open spec fn is_hex(b: u8) -> bool {
    (0x30 <= b <= 0x39) || (0x41 <= b <= 0x46) || (0x61 <= b <= 0x66)
}

/// The value of a hexadecimal digit.
pub open spec fn hex_value(b: u8) -> int {
    if 0x30 <= b <= 0x39 {
        b - 0x30
    } else if 0x41 <= b <= 0x46 {
        b - 0x41 + 10
    } else {
        b - 0x61 + 10
    }
}

/// An escape starts at index `i`: a percent sign and two hexadecimal digits.
pub open spec fn escape_at(input: Seq<u8>, i: int) -> bool {
    &&& 0 <= i
    &&& i + 2 < input.len()
    &&& input[i] == 0x25
    &&& is_hex(input[i + 1])
    &&& is_hex(input[i + 2])
}

/// Every percent sign of the input starts an escape.
pub open spec fn escapes_complete(input: Seq<u8>) -> bool {
    forall|i: int| 0 <= i < input.len() && #[trigger] input[i] == 0x25 ==> escape_at(input, i)
}

/// The input from index `from` on, with each escape replaced by the byte
/// that it stands for. Separators stay in place: they are ASCII, so the
/// result is UTF-8 exactly if every key and every value is.
pub open spec fn unescaped_from(input: Seq<u8>, from: int) -> Seq<u8>
    decreases input.len() - from,
{
    if from < 0 || from >= input.len() {
        seq![]
    } else if escape_at(input, from) {
        seq![(hex_value(input[from + 1]) * 16 + hex_value(input[from + 2])) as u8] + unescaped_from(
            input,
            from + 3,
        )
    } else {
        seq![input[from]] + unescaped_from(input, from + 1)
    }
}

/// The input with each escape replaced by the byte that it stands for.
pub open spec fn unescaped(input: Seq<u8>) -> Seq<u8> {
    unescaped_from(input, 0)
}

/// The input can be decoded: every escape is complete, and unescaping
/// leaves UTF-8.
pub open spec fn well_formed(input: Seq<u8>) -> bool {
    escapes_complete(input) && valid_utf8(unescaped(input))
}

/// The bytes with each plus sign replaced by a space.
pub open spec fn plus_to_space(bytes: Seq<u8>) -> Seq<u8> {
    bytes.map_values(
        |b: u8|
            if b == 0x2b {
                0x20u8
            } else {
                b
            },
    )
}

/// The text that the bytes of a key or of a value stand for: plus signs
/// read as spaces, escapes replaced, and the result read as UTF-8.
pub open spec fn text_of(bytes: Seq<u8>) -> Seq<char> {
    decode_utf8(unescaped(plus_to_space(bytes)))
}

/// The pair that a piece of the input stands for: the key is what stands
/// before the first `=`, the value what stands behind it, or nothing if
/// the piece holds no `=`.
pub open spec fn pair_of(piece: Seq<u8>) -> (Seq<char>, Seq<char>) {
    let key = split(piece, 0x3du8)[0];
    let value = if key.len() < piece.len() {
        piece.skip(key.len() as int + 1)
    } else {
        Seq::empty()
    };
    (text_of(key), text_of(value))
}

/// The pairs that pieces stand for, in order; an empty piece stands for
/// nothing.
pub open spec fn pairs_from(pieces: Seq<Seq<u8>>) -> Seq<(Seq<char>, Seq<char>)>
    decreases pieces.len(),
{
    if pieces.len() == 0 {
        Seq::empty()
    } else if pieces.last().len() == 0 {
        pairs_from(pieces.drop_last())
    } else {
        pairs_from(pieces.drop_last()).push(pair_of(pieces.last()))
    }
}

/// The pairs that a well-formed input holds, in input order: the input is
/// cut at each `&`, and each piece that is not empty stands for a pair.
pub open spec fn pairs_of(input: Seq<u8>) -> Seq<(Seq<char>, Seq<char>)> {
    pairs_from(split(input, 0x26u8))
}

/// Calls `form_urlencoded::parse` and collects the pairs that it yields.
///
/// The contract is taken on trust. It claims, of well-formed input, what
/// the crate does: it cuts the input at `&`, drops empty pieces, cuts each
/// piece at its first `=`, turns `+` into a space, replaces each escape by
/// its byte and reads the result as UTF-8. On input that is not
/// well-formed the crate passes incomplete escapes through and replaces
/// what is not UTF-8; the contract says nothing of such input, and the
/// library never hands it over.
#[verifier::external_body]
pub(crate) fn parse_pairs(input: &[u8]) -> (r: Vec<(String, String)>)
    requires
        well_formed(input@),
    ensures
        r.deep_view() == pairs_of(input@),
{
    form_urlencoded::parse(input).into_owned().collect()
}

/// Calls `std::str::from_utf8` and reports whether it accepted the bytes.
///
/// The contract is taken on trust. It claims that `from_utf8` accepts
/// exactly the byte strings that are well-formed UTF-8, as `valid_utf8`
/// defines it.
#[verifier::external_body]
pub(crate) fn is_utf8(bytes: &[u8]) -> (r: bool)
    ensures
        r == valid_utf8(bytes@),
{
    std::str::from_utf8(bytes).is_ok()
}

/// The value of a hexadecimal digit, if `b` is one.
fn hex_digit(b: u8) -> (r: Option<u8>)
    ensures
        match r {
            Some(v) => is_hex(b) && v == hex_value(b) && v < 16,
            None => !is_hex(b),
        },
{
    if 0x30 <= b && b <= 0x39 {
        Some(b - 0x30)
    } else if 0x41 <= b && b <= 0x46 {
        Some(b - 0x41 + 10)
    } else if 0x61 <= b && b <= 0x66 {
        Some(b - 0x61 + 10)
    } else {
        None
    }
}

/// Replaces each escape by the byte that it stands for, or finds an
/// incomplete escape.
pub(crate) fn unescape(input: &[u8]) -> (r: Option<Vec<u8>>)
    ensures
        match r {
            Some(bytes) => escapes_complete(input@) && bytes@ == unescaped(input@),
            None => !escapes_complete(input@),
        },
{
    let mut out: Vec<u8> = Vec::new();
    let mut i: usize = 0;
    while i < input.len()
        invariant
            i <= input.len(),
            forall|j: int| 0 <= j < i && #[trigger] input@[j] == 0x25 ==> escape_at(input@, j),
            out@ + unescaped_from(input@, i as int) == unescaped(input@),
        decreases input.len() - i,
    {
        let b = input[i];
        if b == 0x25 {
            if input.len() - i < 3 {
                return None;
            }
            let high = hex_digit(input[i + 1]);
            let low = hex_digit(input[i + 2]);
            match (high, low) {
                (Some(h), Some(l)) => {
                    let ghost before = out@;
                    out.push(h * 16 + l);
                    assert(out@ + unescaped_from(input@, i + 3) =~= before + unescaped_from(
                        input@,
                        i as int,
                    ));
                    i += 3;
                },
                _ => {
                    return None;
                },
            }
        } else {
            let ghost before = out@;
            out.push(b);
            assert(out@ + unescaped_from(input@, i + 1) =~= before + unescaped_from(
                input@,
                i as int,
            ));
            i += 1;
        }
    }
    assert(out@ + unescaped_from(input@, i as int) =~= out@);
    Some(out)
}

} // verus!
