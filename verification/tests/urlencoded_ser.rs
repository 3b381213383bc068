use wire_binding::error::EncodingError;
use wire_binding::urlencoded::de::{decode_pairs, from_str, Deserializer, Part, Variant, VariantKind};
use wire_binding::urlencoded::ser::{
    encode_pairs, field_to_pairs, serialize_bool, serialize_i64, serialize_u64,
    serialize_unit_variant, to_pairs, to_string,
};
use wire_binding::urlencoded::value::{Field, Shape, Value};

fn pair(key: &str, value: &str) -> (String, String) {
    (key.to_owned(), value.to_owned())
}

fn scalar(text: &str) -> Value {
    Value::Scalar(Part(text.to_owned()))
}

fn sequence(texts: &[&str]) -> Value {
    Value::Sequence(texts.iter().map(|t| Part((*t).to_owned())).collect())
}

fn meal() -> Vec<(String, Value)> {
    vec![
        ("bread".to_owned(), scalar("baguette")),
        ("cheese".to_owned(), scalar("comté")),
        ("meat".to_owned(), sequence(&["ham", "saucisson sec"])),
        ("fat".to_owned(), scalar("butter")),
    ]
}

#[test]
fn a_record_is_flattened_in_field_order() {
    assert_eq!(
        to_pairs(&meal()),
        vec![
            pair("bread", "baguette"),
            pair("cheese", "comté"),
            pair("meat", "ham"),
            pair("meat", "saucisson sec"),
            pair("fat", "butter"),
        ]
    );
}

#[test]
fn an_empty_sequence_gives_no_pair() {
    assert_eq!(field_to_pairs("a", &sequence(&[])), vec![]);
    assert_eq!(field_to_pairs("a", &sequence(&["x"])), vec![pair("a", "x")]);
    assert_eq!(field_to_pairs("a", &scalar("")), vec![pair("a", "")]);
}

#[test]
fn a_record_is_encoded() {
    assert_eq!(
        to_string(&meal()),
        "bread=baguette&cheese=comt%C3%A9&meat=ham&meat=saucisson+sec&fat=butter"
    );
}

#[test]
fn keys_and_values_are_escaped() {
    assert_eq!(
        encode_pairs(&vec![pair("foo", "bar & baz"), pair("saison", "Été+hiver")]),
        "foo=bar+%26+baz&saison=%C3%89t%C3%A9%2Bhiver"
    );
    assert_eq!(encode_pairs(&vec![pair("a=b", "c=d")]), "a%3Db=c%3Dd");
    assert_eq!(encode_pairs(&vec![pair("*-._", "~!%/")]), "*-._=%7E%21%25%2F");
    assert_eq!(encode_pairs(&vec![pair("A9z", "\u{0}\u{7f}")]), "A9z=%00%7F");
}

#[test]
fn empty_keys_and_values_are_written() {
    assert_eq!(encode_pairs(&vec![]), "");
    assert_eq!(encode_pairs(&vec![pair("", "")]), "=");
    assert_eq!(encode_pairs(&vec![pair("a", ""), pair("", "b")]), "a=&=b");
}

#[test]
fn pairs_survive_encoding_and_decoding() {
    let pairs = vec![
        pair("plain", "text"),
        pair("space", "a b  c"),
        pair("marks", "&=+%#?/;"),
        pair("ünï", "cødé ☃ 𝄞"),
        pair("", ""),
        pair("k=&", ""),
        pair("plain", "again"),
    ];
    let text = encode_pairs(&pairs);
    assert_eq!(decode_pairs(text.as_bytes()), Ok(pairs));
}

#[test]
fn a_record_survives_encoding_and_decoding() {
    let record = meal();
    let fields: Vec<Field> = vec![
        Field { name: "bread".to_owned(), shape: Shape::Scalar },
        Field { name: "cheese".to_owned(), shape: Shape::Scalar },
        Field { name: "meat".to_owned(), shape: Shape::Sequence },
        Field { name: "fat".to_owned(), shape: Shape::Scalar },
    ];
    let values: Vec<Value> = record.iter().map(|(_, v)| v.clone()).collect();
    let text = to_string(&record);
    assert_eq!(from_str(&text).unwrap().deserialize_struct(&fields), Ok(values.clone()));
    let grouped = Deserializer::new(to_pairs(&record));
    assert_eq!(grouped.deserialize_struct(&fields), Ok(values));
}

#[test]
fn a_sequence_of_one_survives_as_a_sequence() {
    let record = vec![("a".to_owned(), sequence(&["only"]))];
    let fields = vec![Field { name: "a".to_owned(), shape: Shape::Sequence }];
    let text = to_string(&record);
    assert_eq!(text, "a=only");
    assert_eq!(
        from_str(&text).unwrap().deserialize_struct(&fields),
        Ok(vec![sequence(&["only"])])
    );
}

#[test]
fn unit_variants_are_written_as_their_name() {
    let variants = vec![
        Variant { name: "Foo".to_owned(), kind: VariantKind::Unit },
        Variant { name: "Bar".to_owned(), kind: VariantKind::Newtype },
        Variant { name: "Baz".to_owned(), kind: VariantKind::Tuple },
        Variant { name: "Qux".to_owned(), kind: VariantKind::Struct },
    ];
    assert_eq!(serialize_unit_variant(&variants, 0), Ok(Part("Foo".to_owned())));
    assert_eq!(serialize_unit_variant(&variants, 1), Err(EncodingError::Unrepresentable));
    assert_eq!(serialize_unit_variant(&variants, 2), Err(EncodingError::Unrepresentable));
    assert_eq!(serialize_unit_variant(&variants, 3), Err(EncodingError::Unrepresentable));
    assert_eq!(serialize_unit_variant(&variants, 4), Err(EncodingError::Unrepresentable));
    let written = serialize_unit_variant(&variants, 0).unwrap();
    assert_eq!(written.deserialize_enum(&variants), Ok(0));
}

#[test]
fn scalars_are_written_as_text() {
    assert_eq!(serialize_bool(true), Part("true".to_owned()));
    assert_eq!(serialize_bool(false), Part("false".to_owned()));
    assert_eq!(serialize_u64(0), Part("0".to_owned()));
    assert_eq!(serialize_u64(7), Part("7".to_owned()));
    assert_eq!(serialize_u64(10), Part("10".to_owned()));
    assert_eq!(serialize_u64(1203), Part("1203".to_owned()));
    assert_eq!(serialize_u64(u64::MAX), Part("18446744073709551615".to_owned()));
    assert_eq!(serialize_i64(0), Part("0".to_owned()));
    assert_eq!(serialize_i64(-1), Part("-1".to_owned()));
    assert_eq!(serialize_i64(-120), Part("-120".to_owned()));
    assert_eq!(serialize_i64(i64::MAX), Part("9223372036854775807".to_owned()));
    assert_eq!(serialize_i64(i64::MIN), Part("-9223372036854775808".to_owned()));
}

#[test]
fn scalars_survive_writing_and_reading() {
    for v in [0u64, 1, 9, 10, 99, 100, 255, 256, 65535, 65536, u32::MAX as u64, u64::MAX] {
        assert_eq!(serialize_u64(v).deserialize_u64(), Ok(v));
        assert_eq!(serialize_u64(v).0, v.to_string());
    }
    for v in [0i64, 1, -1, 9, -9, 10, -10, 127, -128, 32767, -32768, i64::MAX, i64::MIN] {
        assert_eq!(serialize_i64(v).deserialize_i64(), Ok(v));
        assert_eq!(serialize_i64(v).0, v.to_string());
    }
    assert_eq!(serialize_u64(255).deserialize_u8(), Ok(255));
    assert_eq!(serialize_i64(-128).deserialize_i8(), Ok(-128));
    assert_eq!(serialize_bool(true).deserialize_bool(), Ok(true));
    assert_eq!(serialize_bool(false).deserialize_bool(), Ok(false));
    let record = vec![
        ("limit".to_owned(), Value::Scalar(serialize_u64(20))),
        ("offsets".to_owned(), Value::Sequence(vec![serialize_i64(-3), serialize_i64(4)])),
        ("full".to_owned(), Value::Scalar(serialize_bool(true))),
    ];
    let text = to_string(&record);
    assert_eq!(text, "limit=20&offsets=-3&offsets=4&full=true");
    let fields = vec![
        Field { name: "limit".to_owned(), shape: Shape::Scalar },
        Field { name: "offsets".to_owned(), shape: Shape::Sequence },
        Field { name: "full".to_owned(), shape: Shape::Scalar },
    ];
    let values = from_str(&text).unwrap().deserialize_struct(&fields).unwrap();
    match &values[0] {
        Value::Scalar(part) => assert_eq!(part.deserialize_u32(), Ok(20)),
        Value::Sequence(_) => panic!("limit is a scalar"),
    }
    match &values[1] {
        Value::Sequence(parts) => {
            assert_eq!(parts[0].deserialize_i16(), Ok(-3));
            assert_eq!(parts[1].deserialize_i16(), Ok(4));
        }
        Value::Scalar(_) => panic!("offsets is a sequence"),
    }
    match &values[2] {
        Value::Scalar(part) => assert_eq!(part.deserialize_bool(), Ok(true)),
        Value::Sequence(_) => panic!("full is a scalar"),
    }
}
