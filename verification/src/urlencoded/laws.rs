//! What encoding writes, decoding reads back.
//!
//! The text written for any pairs has only complete escapes, and
//! unescaping it leaves UTF-8: decoding it never fails as malformed. The
//! pairs that it holds are the pairs that were written. With the round trip
//! from a record to its pairs and back, a record that was encoded as text is
//! decoded from that text as itself.

use vstd::prelude::*;
use vstd::utf8::*;
use crate::error::DecodingError;
use crate::text::{join, lemma_split_concat, lemma_split_join, lemma_split_plain, split};
use crate::urlencoded::de::{is_grouping, struct_value};
use crate::urlencoded::form::{
    escape_at, escapes_complete, hex_value, pair_of, pairs_from, pairs_of, plus_to_space, text_of,
    unescaped, unescaped_from, well_formed,
};
use crate::urlencoded::value::ValueView;
use crate::urlencoded::ser::{
    encoded, encoded_pair, escaped, escaped_byte, flattened, kept, lemma_round_trip, representable,
    shapes_of, values_of,
};

verus! {

/// The bytes of a text of ASCII characters.
pub open spec fn ascii_bytes(text: Seq<char>) -> Seq<u8> {
    text.map_values(|c: char| c as u8)
}

/// A byte string with each space replaced by a plus sign: what is left of
/// a byte string after escaping and unescaping, before a plus sign is read
/// as a space again.
pub open spec fn plus_for_space(bytes: Seq<u8>) -> Seq<u8> {
    bytes.map_values(
        |b: u8|
            if b == 0x20 {
                0x2bu8
            } else {
                b
            },
    )
}

/// A text that decoding accepts: ASCII, with complete escapes, and UTF-8
/// once unescaped.
pub open spec fn accepted(text: Seq<char>) -> bool {
    &&& is_ascii_chars(text)
    &&& escapes_complete(ascii_bytes(text))
    &&& valid_utf8(unescaped(ascii_bytes(text)))
}

/// Behind the end of a first byte string, unescaping goes on as in the
/// second alone.
proof fn lemma_unescaped_shift(x: Seq<u8>, y: Seq<u8>, k: int)
    requires
        0 <= k,
    ensures
        unescaped_from(x + y, x.len() + k) == unescaped_from(y, k),
    decreases y.len() - k,
{
    let whole = x + y;
    let at = x.len() + k;
    if k < y.len() {
        assert(whole[at] == y[k]);
        if k + 2 < y.len() {
            assert(whole[at + 1] == y[k + 1]);
            assert(whole[at + 2] == y[k + 2]);
        }
        assert(escape_at(whole, at) == escape_at(y, k));
        if escape_at(y, k) {
            lemma_unescaped_shift(x, y, k + 3);
        } else {
            lemma_unescaped_shift(x, y, k + 1);
        }
    }
}

/// Unescaping two byte strings in a row, the first with complete escapes,
/// is unescaping each.
proof fn lemma_unescaped_concat_from(x: Seq<u8>, y: Seq<u8>, from: int)
    requires
        escapes_complete(x),
        0 <= from <= x.len(),
    ensures
        unescaped_from(x + y, from) == unescaped_from(x, from) + unescaped(y),
    decreases x.len() - from,
{
    let whole = x + y;
    if from == x.len() {
        lemma_unescaped_shift(x, y, 0);
        assert(unescaped_from(x, from) + unescaped(y) =~= unescaped(y));
    } else {
        assert(whole[from] == x[from]);
        if x[from] == 0x25 {
            assert(escape_at(x, from));
            assert(whole[from + 1] == x[from + 1]);
            assert(whole[from + 2] == x[from + 2]);
            assert(escape_at(whole, from));
            lemma_unescaped_concat_from(x, y, from + 3);
            assert(unescaped_from(whole, from) =~= unescaped_from(x, from) + unescaped(y));
        } else {
            assert(!escape_at(whole, from));
            assert(!escape_at(x, from));
            lemma_unescaped_concat_from(x, y, from + 1);
            assert(unescaped_from(whole, from) =~= unescaped_from(x, from) + unescaped(y));
        }
    }
}

/// Two byte strings with complete escapes, in a row, have complete
/// escapes, and unescaping them is unescaping each.
proof fn lemma_unescaped_concat(x: Seq<u8>, y: Seq<u8>)
    requires
        escapes_complete(x),
        escapes_complete(y),
    ensures
        escapes_complete(x + y),
        unescaped(x + y) == unescaped(x) + unescaped(y),
{
    let whole = x + y;
    lemma_unescaped_concat_from(x, y, 0);
    assert forall|i: int| 0 <= i < whole.len() && #[trigger] whole[i] == 0x25 implies escape_at(
        whole,
        i,
    ) by {
        if i < x.len() {
            assert(x[i] == 0x25);
            assert(escape_at(x, i));
            assert(whole[i + 1] == x[i + 1]);
            assert(whole[i + 2] == x[i + 2]);
        } else {
            let k = i - x.len();
            assert(y[k] == 0x25);
            assert(escape_at(y, k));
            assert(whole[i + 1] == y[k + 1]);
            assert(whole[i + 2] == y[k + 2]);
        }
    }
}

/// Texts that decoding accepts, in a row, are a text that decoding
/// accepts.
proof fn lemma_accepted_concat(a: Seq<char>, b: Seq<char>)
    requires
        accepted(a),
        accepted(b),
    ensures
        accepted(a + b),
{
    assert(ascii_bytes(a + b) =~= ascii_bytes(a) + ascii_bytes(b));
    lemma_unescaped_concat(ascii_bytes(a), ascii_bytes(b));
    valid_utf8_concat(unescaped(ascii_bytes(a)), unescaped(ascii_bytes(b)));
    assert forall|i: int| 0 <= i < (a + b).len() implies '\0' <= #[trigger] (a + b)[i]
        <= '\u{7f}' by {
        if i < a.len() {
            assert((a + b)[i] == a[i]);
        } else {
            assert((a + b)[i] == b[i - a.len()]);
        }
    }
}

/// A byte that holds an ASCII character other than the percent sign is
/// accepted as a text of its own.
proof fn lemma_accepted_plain(c: char)
    requires
        c as u32 <= 0x7f,
        c != '%',
    ensures
        accepted(seq![c]),
        unescaped(ascii_bytes(seq![c])) == seq![c as u8],
{
    let bytes = ascii_bytes(seq![c]);
    assert(bytes =~= seq![c as u8]);
    assert(!escape_at(bytes, 0));
    assert(unescaped_from(bytes, 1) =~= Seq::<u8>::empty());
    assert(unescaped(bytes) =~= seq![c as u8]);
    let only = seq![c as u8];
    assert(valid_first_scalar(only));
    assert(pop_first_scalar(only) =~= Seq::<u8>::empty());
    assert(valid_utf8(Seq::<u8>::empty()));
    assert(valid_utf8(only));
}

/// What is written for one byte has complete escapes, and unescaping it
/// gives the byte back, a space as a plus sign.
proof fn lemma_escaped_byte(b: u8)
    ensures
        is_ascii_chars(escaped_byte(b)),
        escapes_complete(ascii_bytes(escaped_byte(b))),
        unescaped(ascii_bytes(escaped_byte(b))) == plus_for_space(seq![b]),
{
    let text = escaped_byte(b);
    let bytes = ascii_bytes(text);
    assert(plus_for_space(seq![b]) =~= seq![if b == 0x20 {
        0x2bu8
    } else {
        b
    }]);
    if kept(b) {
        assert(bytes =~= seq![b]);
        assert(!escape_at(bytes, 0));
        assert(unescaped_from(bytes, 1) =~= Seq::<u8>::empty());
        assert(unescaped(bytes) =~= seq![b]);
    } else if b == 0x20 {
        assert(bytes =~= seq![0x2bu8]);
        assert(!escape_at(bytes, 0));
        assert(unescaped_from(bytes, 1) =~= Seq::<u8>::empty());
        assert(unescaped(bytes) =~= seq![0x2bu8]);
    } else {
        let high = b as int / 16;
        let low = b as int % 16;
        assert(bytes.len() == 3);
        assert(bytes[0] == 0x25);
        assert(escape_at(bytes, 0));
        assert(unescaped_from(bytes, 3) =~= Seq::<u8>::empty());
        assert(crate::urlencoded::form::hex_value(bytes[1]) == high);
        assert(crate::urlencoded::form::hex_value(bytes[2]) == low);
        assert(unescaped(bytes) =~= seq![b]);
    }
}

/// What is written for a byte string has complete escapes, and unescaping
/// it gives the bytes back, each space as a plus sign.
proof fn lemma_escaped(bytes: Seq<u8>)
    ensures
        is_ascii_chars(escaped(bytes)),
        escapes_complete(ascii_bytes(escaped(bytes))),
        unescaped(ascii_bytes(escaped(bytes))) == plus_for_space(bytes),
    decreases bytes.len(),
{
    if bytes.len() == 0 {
        assert(ascii_bytes(escaped(bytes)) =~= Seq::<u8>::empty());
        assert(plus_for_space(bytes) =~= Seq::<u8>::empty());
    } else {
        let front = bytes.drop_last();
        let a = escaped(front);
        let b = escaped_byte(bytes.last());
        lemma_escaped(front);
        lemma_escaped_byte(bytes.last());
        assert(ascii_bytes(a + b) =~= ascii_bytes(a) + ascii_bytes(b));
        lemma_unescaped_concat(ascii_bytes(a), ascii_bytes(b));
        assert(plus_for_space(front) + plus_for_space(seq![bytes.last()]) =~= plus_for_space(
            bytes,
        ));
        assert forall|i: int| 0 <= i < (a + b).len() implies '\0' <= #[trigger] (a + b)[i]
            <= '\u{7f}' by {
            if i < a.len() {
                assert((a + b)[i] == a[i]);
            } else {
                assert((a + b)[i] == b[i - a.len()]);
            }
        }
    }
}

/// Replacing spaces by plus signs leaves UTF-8 as UTF-8.
proof fn lemma_plus_for_space_valid(bytes: Seq<u8>)
    requires
        valid_utf8(bytes),
    ensures
        valid_utf8(plus_for_space(bytes)),
    decreases bytes.len(),
{
    if bytes.len() > 0 {
        let mapped = plus_for_space(bytes);
        let rest = pop_first_scalar(bytes);
        let width = length_of_first_scalar(bytes);
        assert(forall|i: int| 0 <= i < bytes.len() && bytes[i] >= 0x80 ==> mapped[i] == bytes[i]);
        assert(mapped[0] < 0x80 <==> bytes[0] < 0x80);
        assert(valid_first_scalar(mapped)) by {
            if bytes[0] < 0x80 {
                let m = mapped[0];
                assert(((m & 0x7f) as u32) < 0xD800u32) by (bit_vector)
                    requires
                        m < 0x80,
                ;
            }
        }
        assert(length_of_first_scalar(mapped) == width);
        assert(pop_first_scalar(mapped) =~= plus_for_space(rest));
        lemma_plus_for_space_valid(rest);
    }
}

/// What is written for a text is accepted by decoding.
proof fn lemma_escaped_accepted(text: Seq<char>)
    ensures
        accepted(escaped(encode_utf8(text))),
{
    lemma_escaped(encode_utf8(text));
    encode_utf8_valid_utf8(text);
    lemma_plus_for_space_valid(encode_utf8(text));
}

/// What is written for a pair is accepted by decoding.
proof fn lemma_encoded_pair_accepted(pair: (Seq<char>, Seq<char>))
    ensures
        accepted(encoded_pair(pair)),
{
    lemma_escaped_accepted(pair.0);
    lemma_escaped_accepted(pair.1);
    lemma_accepted_plain('=');
    lemma_accepted_concat(escaped(encode_utf8(pair.0)), seq!['=']);
    lemma_accepted_concat(escaped(encode_utf8(pair.0)) + seq!['='], escaped(encode_utf8(pair.1)));
}

/// What is written for pairs is accepted by decoding.
proof fn lemma_encoded_accepted(pairs: Seq<(Seq<char>, Seq<char>)>)
    ensures
        accepted(encoded(pairs)),
    decreases pairs.len(),
{
    if pairs.len() == 0 {
        assert(ascii_bytes(encoded(pairs)) =~= Seq::<u8>::empty());
    } else if pairs.len() == 1 {
        lemma_encoded_pair_accepted(pairs[0]);
    } else {
        lemma_encoded_accepted(pairs.drop_last());
        lemma_encoded_pair_accepted(pairs.last());
        lemma_accepted_plain('&');
        lemma_accepted_concat(encoded(pairs.drop_last()), seq!['&']);
        lemma_accepted_concat(encoded(pairs.drop_last()) + seq!['&'], encoded_pair(pairs.last()));
    }
}

/// Encoding never writes what decoding refuses: the text written for any
/// pairs is well-formed input.
pub proof fn lemma_encoded_well_formed(pairs: Seq<(Seq<char>, Seq<char>)>)
    ensures
        well_formed(encode_utf8(encoded(pairs))),
{
    let text = encoded(pairs);
    lemma_encoded_accepted(pairs);
    is_ascii_chars_encode_utf8(text);
    assert(encode_utf8(text) =~= ascii_bytes(text));
}

/// The bytes hold no `&` and no `=`: they are not cut when the input is.
pub open spec fn uncut(bytes: Seq<u8>) -> bool {
    !bytes.contains(0x26u8) && !bytes.contains(0x3du8)
}

/// Bytes that are not cut, in a row, are not cut.
proof fn lemma_uncut_concat(x: Seq<u8>, y: Seq<u8>)
    requires
        uncut(x),
        uncut(y),
    ensures
        uncut(x + y),
{
    let whole = x + y;
    assert forall|i: int| 0 <= i < whole.len() implies whole[i] != 0x26u8 && whole[i] != 0x3du8 by {
        if i < x.len() {
            assert(whole[i] == x[i]);
            assert(x.contains(x[i]));
        } else {
            assert(whole[i] == y[i - x.len()]);
            assert(y.contains(y[i - x.len()]));
        }
    }
}

/// What is written for one byte is not cut, and reading it gives the byte
/// back.
proof fn lemma_escaped_byte_back(b: u8)
    ensures
        uncut(ascii_bytes(escaped_byte(b))),
        escapes_complete(plus_to_space(ascii_bytes(escaped_byte(b)))),
        unescaped(plus_to_space(ascii_bytes(escaped_byte(b)))) == seq![b],
{
    let written = ascii_bytes(escaped_byte(b));
    let bytes = plus_to_space(written);
    if kept(b) {
        assert(written =~= seq![b]);
        assert(bytes =~= seq![b]);
        assert(!escape_at(bytes, 0));
        assert(unescaped_from(bytes, 1) =~= Seq::<u8>::empty());
        assert(unescaped(bytes) =~= seq![b]);
    } else if b == 0x20 {
        assert(written =~= seq![0x2bu8]);
        assert(bytes =~= seq![0x20u8]);
        assert(!escape_at(bytes, 0));
        assert(unescaped_from(bytes, 1) =~= Seq::<u8>::empty());
        assert(unescaped(bytes) =~= seq![0x20u8]);
    } else {
        let high = b as int / 16;
        let low = b as int % 16;
        assert(written.len() == 3);
        assert(written[0] == 0x25);
        assert(bytes.len() == 3);
        assert(bytes[0] == 0x25);
        assert(bytes[1] == written[1]);
        assert(bytes[2] == written[2]);
        assert(escape_at(bytes, 0));
        assert(unescaped_from(bytes, 3) =~= Seq::<u8>::empty());
        assert(hex_value(bytes[1]) == high);
        assert(hex_value(bytes[2]) == low);
        assert(unescaped(bytes) =~= seq![b]);
    }
    assert forall|i: int| 0 <= i < written.len() implies written[i] != 0x26u8 && written[i]
        != 0x3du8 by {}
}

/// What is written for a byte string is not cut, and reading it gives the
/// bytes back.
proof fn lemma_escaped_back(bytes: Seq<u8>)
    ensures
        uncut(ascii_bytes(escaped(bytes))),
        escapes_complete(plus_to_space(ascii_bytes(escaped(bytes)))),
        unescaped(plus_to_space(ascii_bytes(escaped(bytes)))) == bytes,
    decreases bytes.len(),
{
    if bytes.len() == 0 {
        assert(ascii_bytes(escaped(bytes)) =~= Seq::<u8>::empty());
        assert(plus_to_space(Seq::<u8>::empty()) =~= Seq::<u8>::empty());
    } else {
        let front = bytes.drop_last();
        let a = ascii_bytes(escaped(front));
        let b = ascii_bytes(escaped_byte(bytes.last()));
        lemma_escaped_back(front);
        lemma_escaped_byte_back(bytes.last());
        assert(ascii_bytes(escaped(bytes)) =~= a + b);
        assert(plus_to_space(a + b) =~= plus_to_space(a) + plus_to_space(b));
        lemma_unescaped_concat(plus_to_space(a), plus_to_space(b));
        lemma_uncut_concat(a, b);
        assert(front + seq![bytes.last()] =~= bytes);
    }
}

/// The piece written for a pair is not empty, holds no `&`, and stands for
/// the pair.
proof fn lemma_pair_back(pair: (Seq<char>, Seq<char>))
    ensures
        ascii_bytes(encoded_pair(pair)).len() > 0,
        !ascii_bytes(encoded_pair(pair)).contains(0x26u8),
        pair_of(ascii_bytes(encoded_pair(pair))) == pair,
{
    let a = ascii_bytes(escaped(encode_utf8(pair.0)));
    let c = ascii_bytes(escaped(encode_utf8(pair.1)));
    let piece = ascii_bytes(encoded_pair(pair));
    assert(piece =~= a + seq![0x3du8] + c);
    lemma_escaped_back(encode_utf8(pair.0));
    lemma_escaped_back(encode_utf8(pair.1));
    lemma_split_concat(a, c, 0x3du8);
    lemma_split_plain(a, 0x3du8);
    lemma_split_plain(c, 0x3du8);
    assert((seq![a] + seq![c])[0] == a);
    assert(piece.skip(a.len() as int + 1) =~= c);
    encode_utf8_decode_utf8(pair.0);
    encode_utf8_decode_utf8(pair.1);
    assert(text_of(a) == pair.0);
    assert(text_of(c) == pair.1);
    assert forall|i: int| 0 <= i < piece.len() implies piece[i] != 0x26u8 by {
        if i < a.len() {
            assert(piece[i] == a[i]);
            assert(a.contains(a[i]));
        } else if i > a.len() {
            assert(piece[i] == c[i - a.len() - 1]);
            assert(c.contains(c[i - a.len() - 1]));
        }
    }
}

/// The pieces written for pairs, one for each.
pub open spec fn pieces_of(pairs: Seq<(Seq<char>, Seq<char>)>) -> Seq<Seq<u8>> {
    pairs.map_values(|pair: (Seq<char>, Seq<char>)| ascii_bytes(encoded_pair(pair)))
}

/// The text written for pairs is their pieces joined by `&`.
proof fn lemma_encoded_join(pairs: Seq<(Seq<char>, Seq<char>)>)
    ensures
        ascii_bytes(encoded(pairs)) == join(pieces_of(pairs), 0x26u8),
    decreases pairs.len(),
{
    let pieces = pieces_of(pairs);
    if pairs.len() == 0 {
        assert(ascii_bytes(encoded(pairs)) =~= Seq::<u8>::empty());
    } else if pairs.len() == 1 {
    } else {
        lemma_encoded_join(pairs.drop_last());
        assert(pieces.drop_last() =~= pieces_of(pairs.drop_last()));
        assert(ascii_bytes(encoded(pairs)) =~= ascii_bytes(encoded(pairs.drop_last())) + seq![
            0x26u8,
        ] + ascii_bytes(encoded_pair(pairs.last())));
    }
}

/// The first `n` pieces written for pairs stand for the first `n` pairs.
proof fn lemma_pairs_from_pieces(pairs: Seq<(Seq<char>, Seq<char>)>, n: int)
    requires
        0 <= n <= pairs.len(),
    ensures
        pairs_from(pieces_of(pairs).take(n)) == pairs.take(n),
    decreases n,
{
    let pieces = pieces_of(pairs).take(n);
    if n == 0 {
        assert(pairs.take(0) =~= Seq::<(Seq<char>, Seq<char>)>::empty());
    } else {
        lemma_pairs_from_pieces(pairs, n - 1);
        lemma_pair_back(pairs[n - 1]);
        assert(pieces.drop_last() =~= pieces_of(pairs).take(n - 1));
        assert(pieces.last() == ascii_bytes(encoded_pair(pairs[n - 1])));
        assert(pairs.take(n - 1).push(pairs[n - 1]) =~= pairs.take(n));
    }
}

/// Decoding reads back what encoding wrote: the text written for any pairs
/// is well-formed input, and the pairs that it holds are those pairs.
pub proof fn lemma_decode_encoded(pairs: Seq<(Seq<char>, Seq<char>)>)
    ensures
        well_formed(encode_utf8(encoded(pairs))),
        pairs_of(encode_utf8(encoded(pairs))) == pairs,
{
    let text = encoded(pairs);
    let pieces = pieces_of(pairs);
    lemma_encoded_well_formed(pairs);
    lemma_encoded_accepted(pairs);
    is_ascii_chars_encode_utf8(text);
    assert(encode_utf8(text) =~= ascii_bytes(text));
    if pairs.len() == 0 {
        let none = Seq::<u8>::empty();
        assert(ascii_bytes(text) =~= none);
        assert(split(none, 0x26u8) =~= seq![none]);
        assert(seq![none].drop_last() =~= Seq::<Seq<u8>>::empty());
        assert(pairs_from(Seq::<Seq<u8>>::empty()) =~= Seq::<(Seq<char>, Seq<char>)>::empty());
        assert(pairs_from(seq![none]) =~= Seq::<(Seq<char>, Seq<char>)>::empty());
        assert(pairs =~= Seq::<(Seq<char>, Seq<char>)>::empty());
    } else {
        lemma_encoded_join(pairs);
        assert forall|i: int| 0 <= i < pieces.len() implies !(#[trigger] pieces[i]).contains(
            0x26u8,
        ) by {
            lemma_pair_back(pairs[i]);
        }
        lemma_split_join(pieces, 0x26u8);
        lemma_pairs_from_pieces(pairs, pairs.len() as int);
        assert(pieces.take(pairs.len() as int) =~= pieces);
        assert(pairs.take(pairs.len() as int) =~= pairs);
    }
}

/// Round trip: a record of scalars and non-empty sequences of scalars
/// under distinct names, encoded as text, is decoded from that text as
/// itself. The text is well-formed input, and the grouping of the pairs
/// that it holds, decoded as a struct with the fields of the record, gives
/// the values of the record.
pub proof fn lemma_round_trip_text(
    record: Seq<(Seq<char>, ValueView)>,
    groups: Seq<(Seq<char>, crate::urlencoded::val_or_vec::Group)>,
)
    requires
        representable(record),
        is_grouping(groups, pairs_of(encode_utf8(encoded(flattened(record))))),
    ensures
        well_formed(encode_utf8(encoded(flattened(record)))),
        struct_value(groups, shapes_of(record)) == Ok::<Seq<ValueView>, DecodingError>(
            values_of(record),
        ),
{
    lemma_decode_encoded(flattened(record));
    lemma_round_trip(record, groups);
}

} // verus!
