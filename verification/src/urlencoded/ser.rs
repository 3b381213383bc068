//! Encoding of `application/x-www-form-urlencoded` data.
//!
//! Encoding is the structural inverse of decoding: a scalar field becomes
//! one pair, a sequence field one pair for each element under the same key,
//! and keys and values are escaped.

use vstd::prelude::*;
use vstd::string::StringExecFns;
use vstd::utf8::encode_utf8;
use crate::error::{DecodingError, EncodingError, ScalarFault};
use crate::urlencoded::de::{
    entry_for, field_value, is_grouping, lemma_entry_of_grouping, struct_value, values_for, Part,
    Variant, VariantKind,
};
use crate::urlencoded::scalar::{
    boolean_text, integer_text, lemma_boolean_round_trip, lemma_integer_round_trip, parse_boolean,
    parse_integer, write_bool, write_signed, write_unsigned,
};
use crate::urlencoded::form::{pairs_of, well_formed};
use crate::urlencoded::laws::lemma_decode_encoded;
use crate::urlencoded::val_or_vec::Group;
use crate::urlencoded::value::{Shape, Value, ValueView};

verus! {

/// Bytes that are written as they are: letters, digits, `*`, `-`, `.` and
/// `_`.
pub open spec fn kept(b: u8) -> bool {
    ||| b == 0x2a
    ||| b == 0x2d
    ||| b == 0x2e
    ||| b == 0x5f
    ||| 0x30 <= b <= 0x39
    ||| 0x41 <= b <= 0x5a
    ||| 0x61 <= b <= 0x7a
}

/// The upper-case hexadecimal digit for a value below 16.
pub open spec fn upper_hex(n: int) -> char {
    if n < 10 {
        (0x30 + n) as u8 as char
    } else {
        (0x41 + n - 10) as u8 as char
    }
}

/// How one byte is written: kept, a space as `+`, anything else as an
/// escape of a percent sign and two upper-case hexadecimal digits.
pub open spec fn escaped_byte(b: u8) -> Seq<char> {
    if kept(b) {
        seq![b as char]
    } else if b == 0x20 {
        seq!['+']
    } else {
        seq!['%', upper_hex(b as int / 16), upper_hex(b as int % 16)]
    }
}

/// How a byte string is written: byte by byte.
pub open spec fn escaped(bytes: Seq<u8>) -> Seq<char>
    decreases bytes.len(),
{
    if bytes.len() == 0 {
        seq![]
    } else {
        escaped(bytes.drop_last()) + escaped_byte(bytes.last())
    }
}

/// How a pair is written: the escaped key, `=`, the escaped value.
pub open spec fn encoded_pair(pair: (Seq<char>, Seq<char>)) -> Seq<char> {
    escaped(encode_utf8(pair.0)) + seq!['='] + escaped(encode_utf8(pair.1))
}

/// How pairs are written: one after the other, with `&` between them.
pub open spec fn encoded(pairs: Seq<(Seq<char>, Seq<char>)>) -> Seq<char>
    decreases pairs.len(),
{
    if pairs.len() == 0 {
        seq![]
    } else if pairs.len() == 1 {
        encoded_pair(pairs[0])
    } else {
        encoded(pairs.drop_last()) + seq!['&'] + encoded_pair(pairs.last())
    }
}

/// The pairs that a field is written as: one for each text, all under the
/// field's name.
pub open spec fn field_pairs(name: Seq<char>, texts: Seq<Seq<char>>) -> Seq<(Seq<char>, Seq<char>)> {
    Seq::new(texts.len(), |i: int| (name, texts[i]))
}

/// The pairs that a record is written as: those of its fields, in order.
pub open spec fn flattened(record: Seq<(Seq<char>, ValueView)>) -> Seq<(Seq<char>, Seq<char>)>
    decreases record.len(),
{
    if record.len() == 0 {
        seq![]
    } else {
        flattened(record.drop_last()) + field_pairs(record.last().0, record.last().1.texts())
    }
}

/// Calls `form_urlencoded::byte_serialize` on the bytes of the text and
/// joins the pieces that it yields.
///
/// The contract is taken on trust. It claims that the crate writes each
/// byte as [`escaped_byte`] says: a letter, a digit and any of `*-._` as it
/// is, a space as `+`, and any other byte as `%` and two upper-case
/// hexadecimal digits.
#[verifier::external_body]
pub(crate) fn escape(text: &str) -> (r: String)
    ensures
        r@ == escaped(encode_utf8(text@)),
{
    form_urlencoded::byte_serialize(text.as_bytes()).collect()
}

/// The pairs of one field: one pair for a scalar, one pair for each element
/// of a sequence, all under the field's name.
pub fn field_to_pairs(name: &str, value: &Value) -> (r: Vec<(String, String)>)
    ensures
        r.deep_view() == field_pairs(name@, value@.texts()),
{
    let mut r: Vec<(String, String)> = Vec::new();
    match value {
        Value::Scalar(part) => {
            r.push((name.to_owned(), part.0.clone()));
            assert(r.deep_view() =~= field_pairs(name@, seq![part@]));
        },
        Value::Sequence(parts) => {
            let mut j: usize = 0;
            let ghost texts = parts.deep_view();
            assert(r.deep_view() =~= field_pairs(name@, texts.take(0)));
            while j < parts.len()
                invariant
                    j <= parts.len(),
                    texts == parts.deep_view(),
                    r.deep_view() == field_pairs(name@, texts.take(j as int)),
                decreases parts.len() - j,
            {
                let ghost sofar = r.deep_view();
                r.push((name.to_owned(), parts[j].0.clone()));
                assert(r.deep_view() =~= sofar.push((name@, parts[j as int]@)));
                assert(r.deep_view() =~= field_pairs(name@, texts.take(j + 1)));
                j += 1;
            }
            assert(texts.take(parts.len() as int) =~= texts);
        },
    }
    r
}

/// Moves the pairs of `more` behind those of `out`.
pub(crate) fn append_pairs(out: &mut Vec<(String, String)>, more: Vec<(String, String)>)
    ensures
        final(out).deep_view() == old(out).deep_view() + more.deep_view(),
{
    let mut more = more;
    let ghost added = more.deep_view();
    out.append(&mut more);
    assert(out.deep_view() =~= old(out).deep_view() + added);
}

/// Flattens a record into pairs: one pair for a scalar, one pair for each
/// element of a sequence, in the order of the record.
pub fn to_pairs(record: &Vec<(String, Value)>) -> (r: Vec<(String, String)>)
    ensures
        r.deep_view() == flattened(record.deep_view()),
{
    let mut r: Vec<(String, String)> = Vec::new();
    let ghost fields = record.deep_view();
    let mut i: usize = 0;
    assert(r.deep_view() =~= Seq::empty());
    assert(fields.take(0) =~= Seq::empty());
    while i < record.len()
        invariant
            i <= record.len(),
            fields == record.deep_view(),
            r.deep_view() == flattened(fields.take(i as int)),
        decreases record.len() - i,
    {
        assert(fields[i as int] == (record[i as int].0@, record[i as int].1@));
        assert(fields.take(i + 1).drop_last() =~= fields.take(i as int));
        assert(fields.take(i + 1).last() == fields[i as int]);
        let more = field_to_pairs(record[i].0.as_str(), &record[i].1);
        append_pairs(&mut r, more);
        i += 1;
    }
    assert(fields.take(record.len() as int) =~= fields);
    r
}

/// Writes pairs as `application/x-www-form-urlencoded` text. The text is
/// well-formed input for decoding, and holds the pairs that were written.
pub fn encode_pairs(pairs: &Vec<(String, String)>) -> (r: String)
    ensures
        r@ == encoded(pairs.deep_view()),
        well_formed(encode_utf8(r@)),
        pairs_of(encode_utf8(r@)) == pairs.deep_view(),
{
    proof {
        lemma_decode_encoded(pairs.deep_view());
    }
    let mut r = String::new();
    let ghost all = pairs.deep_view();
    let mut i: usize = 0;
    assert(all.take(0) =~= Seq::empty());
    while i < pairs.len()
        invariant
            i <= pairs.len(),
            all == pairs.deep_view(),
            r@ == encoded(all.take(i as int)),
        decreases pairs.len() - i,
    {
        let ghost before = r@;
        assert(all[i as int] == (pairs[i as int].0@, pairs[i as int].1@));
        assert(all.take(i + 1).drop_last() =~= all.take(i as int));
        assert(all.take(i + 1).last() == all[i as int]);
        if i > 0 {
            r.append("&");
        }
        let key = escape(pairs[i].0.as_str());
        let value = escape(pairs[i].1.as_str());
        r.append(key.as_str());
        r.append("=");
        r.append(value.as_str());
        proof {
            reveal_strlit("&");
            reveal_strlit("=");
            assert("&"@ =~= seq!['&']);
            assert("="@ =~= seq!['=']);
            if i == 0 {
                assert(before =~= Seq::empty());
                assert(all.take(1)[0] == all[0]);
                assert(r@ =~= encoded_pair(all[0]));
            } else {
                assert(r@ =~= before + seq!['&'] + encoded_pair(all[i as int]));
            }
        }
        i += 1;
    }
    assert(all.take(pairs.len() as int) =~= all);
    r
}

/// Encodes a record as `application/x-www-form-urlencoded` text. The text
/// is well-formed input for decoding, and holds the pairs of the record.
pub fn to_string(record: &Vec<(String, Value)>) -> (r: String)
    ensures
        r@ == encoded(flattened(record.deep_view())),
        well_formed(encode_utf8(r@)),
        pairs_of(encode_utf8(r@)) == flattened(record.deep_view()),
{
    let pairs = to_pairs(record);
    encode_pairs(&pairs)
}

/// Writes a variant of an enum as its name. Only a unit variant has such a
/// form: a variant that carries data cannot be represented, nor can an
/// index that is no variant of the enum.
pub fn serialize_unit_variant(variants: &Vec<Variant>, index: usize) -> (r: Result<
    Part,
    EncodingError,
>)
    ensures
        match r {
            Ok(part) => index < variants.len() && variants[index as int].kind == VariantKind::Unit
                && part@ == variants[index as int].name@,
            Err(e) => e == EncodingError::Unrepresentable && !(index < variants.len()
                && variants[index as int].kind == VariantKind::Unit),
        },
{
    if index >= variants.len() {
        return Err(EncodingError::Unrepresentable);
    }
    match variants[index].kind {
        VariantKind::Unit => Ok(Part(variants[index].name.clone())),
        _ => Err(EncodingError::Unrepresentable),
    }
}

/// Writes a truth value. Reading the result as a truth value gives it
/// back.
pub fn serialize_bool(v: bool) -> (r: Part)
    ensures
        r@ == boolean_text(v),
        parse_boolean(r@) == Ok::<bool, ScalarFault>(v),
{
    proof {
        lemma_boolean_round_trip(v);
    }
    Part(write_bool(v))
}

/// Writes an unsigned integer in decimal. Reading the result as an
/// unsigned integer of 64 bits gives it back.
pub fn serialize_u64(v: u64) -> (r: Part)
    ensures
        r@ == integer_text(v as int),
        parse_integer(r@, false, 0, u64::MAX as int) == Ok::<int, ScalarFault>(v as int),
{
    proof {
        lemma_integer_round_trip(v as int, false, 0, u64::MAX as int);
    }
    Part(write_unsigned(v))
}

/// Writes a signed integer in decimal. Reading the result as a signed
/// integer of 64 bits gives it back.
pub fn serialize_i64(v: i64) -> (r: Part)
    ensures
        r@ == integer_text(v as int),
        parse_integer(r@, true, i64::MIN as int, i64::MAX as int) == Ok::<int, ScalarFault>(
            v as int,
        ),
{
    proof {
        lemma_integer_round_trip(v as int, true, i64::MIN as int, i64::MAX as int);
    }
    Part(write_signed(v))
}

/// The names and shapes of the fields of a record.
pub open spec fn shapes_of(record: Seq<(Seq<char>, ValueView)>) -> Seq<(Seq<char>, Shape)> {
    Seq::new(record.len(), |i: int| (record[i].0, record[i].1.shape()))
}

/// The values of the fields of a record.
pub open spec fn values_of(record: Seq<(Seq<char>, ValueView)>) -> Seq<ValueView> {
    Seq::new(record.len(), |i: int| record[i].1)
}

/// A record that decoding can give back: no two fields share a name, and no
/// sequence is empty. An empty sequence is written as no pair at all, so
/// its field would be missing on the way back.
pub open spec fn representable(record: Seq<(Seq<char>, ValueView)>) -> bool {
    &&& forall|i: int, j: int|
        0 <= i < j < record.len() ==> (#[trigger] record[i]).0 != (#[trigger] record[j]).0
    &&& forall|i: int| 0 <= i < record.len() ==> (#[trigger] record[i]).1.texts().len() > 0
}

/// The values under a key in two runs of pairs are those of the first run
/// followed by those of the second.
pub proof fn lemma_values_for_concat(
    a: Seq<(Seq<char>, Seq<char>)>,
    b: Seq<(Seq<char>, Seq<char>)>,
    key: Seq<char>,
)
    ensures
        values_for(a + b, key) == values_for(a, key) + values_for(b, key),
    decreases b.len(),
{
    if b.len() == 0 {
        assert(a + b =~= a);
        assert(values_for(a, key) + values_for(b, key) =~= values_for(a, key));
    } else {
        assert((a + b).drop_last() =~= a + b.drop_last());
        assert((a + b).last() == b.last());
        lemma_values_for_concat(a, b.drop_last(), key);
        if b.last().0 == key {
            assert(values_for(a + b, key) =~= values_for(a, key) + values_for(b, key));
        }
    }
}

/// The pairs of a field give its texts under its name and nothing under
/// any other key.
pub proof fn lemma_values_for_field(name: Seq<char>, texts: Seq<Seq<char>>, key: Seq<char>)
    ensures
        values_for(field_pairs(name, texts), key) == if key == name {
            texts
        } else {
            Seq::empty()
        },
    decreases texts.len(),
{
    let pairs = field_pairs(name, texts);
    if texts.len() == 0 {
        assert(texts =~= Seq::empty());
    } else {
        assert(pairs.drop_last() =~= field_pairs(name, texts.drop_last()));
        lemma_values_for_field(name, texts.drop_last(), key);
        if key == name {
            assert(texts.drop_last().push(texts.last()) =~= texts);
        }
    }
}

/// A key that names no field of a record has no value among its pairs.
proof fn lemma_values_for_other(record: Seq<(Seq<char>, ValueView)>, key: Seq<char>)
    requires
        forall|i: int| 0 <= i < record.len() ==> (#[trigger] record[i]).0 != key,
    ensures
        values_for(flattened(record), key) == Seq::<Seq<char>>::empty(),
    decreases record.len(),
{
    if record.len() > 0 {
        let front = record.drop_last();
        assert forall|i: int| 0 <= i < front.len() implies (#[trigger] front[i]).0 != key by {
            assert(front[i] == record[i]);
        }
        lemma_values_for_other(front, key);
        assert(record.last() == record[record.len() - 1]);
        lemma_values_for_field(record.last().0, record.last().1.texts(), key);
        lemma_values_for_concat(
            flattened(front),
            field_pairs(record.last().0, record.last().1.texts()),
            key,
        );
        assert(Seq::<Seq<char>>::empty() + Seq::<Seq<char>>::empty() =~= Seq::<Seq<char>>::empty());
    }
}

/// Among the pairs of a record with distinct field names, the values under
/// the name of a field are the texts of that field.
proof fn lemma_values_for_record(record: Seq<(Seq<char>, ValueView)>, at: int)
    requires
        0 <= at < record.len(),
        forall|i: int, j: int|
            0 <= i < j < record.len() ==> (#[trigger] record[i]).0 != (#[trigger] record[j]).0,
    ensures
        values_for(flattened(record), record[at].0) == record[at].1.texts(),
    decreases record.len(),
{
    let key = record[at].0;
    let front = record.drop_last();
    let last = record.last();
    assert(last == record[record.len() - 1]);
    lemma_values_for_field(last.0, last.1.texts(), key);
    lemma_values_for_concat(flattened(front), field_pairs(last.0, last.1.texts()), key);
    if at == record.len() - 1 {
        assert forall|i: int| 0 <= i < front.len() implies (#[trigger] front[i]).0 != key by {
            assert(front[i] == record[i]);
        }
        lemma_values_for_other(front, key);
        assert(Seq::<Seq<char>>::empty() + last.1.texts() =~= last.1.texts());
    } else {
        assert forall|i: int, j: int| 0 <= i < j < front.len() implies (#[trigger] front[i]).0 != (
        #[trigger] front[j]).0 by {
            assert(front[i] == record[i]);
            assert(front[j] == record[j]);
        }
        assert(front[at] == record[at]);
        lemma_values_for_record(front, at);
        assert(record[at].0 != last.0);
        assert(record[at].1.texts() + Seq::<Seq<char>>::empty() =~= record[at].1.texts());
    }
}

/// Decoding a field from the grouping of an encoded record gives back the
/// value of the field.
proof fn lemma_field_round_trip(
    record: Seq<(Seq<char>, ValueView)>,
    groups: Seq<(Seq<char>, Group)>,
    at: int,
)
    requires
        representable(record),
        is_grouping(groups, flattened(record)),
        0 <= at < record.len(),
    ensures
        field_value(groups, record[at].0, record[at].1.shape()) == Ok::<ValueView, DecodingError>(
            record[at].1,
        ),
{
    let key = record[at].0;
    let texts = record[at].1.texts();
    lemma_values_for_record(record, at);
    lemma_entry_of_grouping(groups, flattened(record), key);
    assert(entry_for(groups, key) == Some(Group::of(texts)));
    match record[at].1 {
        ValueView::Scalar(v) => {},
        ValueView::Sequence(vs) => {
            if vs.len() == 1 {
                assert(seq![vs[0]] =~= vs);
            }
        },
    }
}

/// Round trip: a record of scalars and non-empty sequences of scalars
/// under distinct names, flattened into pairs, grouped, and decoded as a
/// struct with the fields of the record, comes back unchanged.
pub proof fn lemma_round_trip(
    record: Seq<(Seq<char>, ValueView)>,
    groups: Seq<(Seq<char>, Group)>,
)
    requires
        representable(record),
        is_grouping(groups, flattened(record)),
    ensures
        struct_value(groups, shapes_of(record)) == Ok::<Seq<ValueView>, DecodingError>(
            values_of(record),
        ),
{
    lemma_round_trip_upto(record, groups, record.len() as int);
    assert(shapes_of(record).take(record.len() as int) =~= shapes_of(record));
    assert(values_of(record).take(record.len() as int) =~= values_of(record));
}

/// The round trip holds of the first `upto` fields.
proof fn lemma_round_trip_upto(
    record: Seq<(Seq<char>, ValueView)>,
    groups: Seq<(Seq<char>, Group)>,
    upto: int,
)
    requires
        representable(record),
        is_grouping(groups, flattened(record)),
        0 <= upto <= record.len(),
    ensures
        struct_value(groups, shapes_of(record).take(upto)) == Ok::<Seq<ValueView>, DecodingError>(
            values_of(record).take(upto),
        ),
    decreases upto,
{
    let fields = shapes_of(record).take(upto);
    if upto == 0 {
        assert(values_of(record).take(0) =~= Seq::empty());
    } else {
        lemma_round_trip_upto(record, groups, upto - 1);
        lemma_field_round_trip(record, groups, upto - 1);
        assert(fields.drop_last() =~= shapes_of(record).take(upto - 1));
        assert(fields.last() == (record[upto - 1].0, record[upto - 1].1.shape()));
        assert(values_of(record).take(upto - 1).push(record[upto - 1].1) =~= values_of(record).take(
            upto,
        ));
    }
}

} // verus!
