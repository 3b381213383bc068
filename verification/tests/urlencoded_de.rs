use wire_binding::error::{DecodingError, ScalarFault};
use wire_binding::urlencoded::de::{
    decode_pairs, from_bytes, from_str, group_entries, Deserializer, Part, UnitOnlyVariantAccess,
    ValueEnumAccess, Variant, VariantKind,
};
use wire_binding::urlencoded::val_or_vec::ValOrVec;
use wire_binding::urlencoded::value::{Field, Shape, Value};

fn pair(key: &str, value: &str) -> (String, String) {
    (key.to_owned(), value.to_owned())
}

fn val(key: &str, value: &str) -> (String, ValOrVec) {
    (key.to_owned(), ValOrVec::Val(Part(value.to_owned())))
}

fn vec_of(key: &str, values: &[&str]) -> (String, ValOrVec) {
    (key.to_owned(), ValOrVec::Vec(values.iter().map(|v| Part((*v).to_owned())).collect()))
}

fn field(name: &str, shape: Shape) -> Field {
    Field { name: name.to_owned(), shape }
}

#[test]
fn from_bytes_sorts_pairs_by_key() {
    let de = from_bytes(b"bread=baguette&cheese=comt%C3%A9&meat=ham&fat=butter").unwrap();
    assert_eq!(
        de.deserialize_seq(),
        vec![
            val("bread", "baguette"),
            val("cheese", "comté"),
            val("fat", "butter"),
            val("meat", "ham"),
        ]
    );
}

#[test]
fn from_str_sorts_pairs_by_key() {
    let de = from_str("bread=baguette&cheese=comt%C3%A9&meat=ham&fat=butter").unwrap();
    assert_eq!(
        de.deserialize_map(),
        vec![
            val("bread", "baguette"),
            val("cheese", "comté"),
            val("fat", "butter"),
            val("meat", "ham"),
        ]
    );
}

#[test]
fn from_bytes_decodes_a_sequence_of_pairs() {
    let meal = vec![
        pair("bread", "baguette"),
        pair("cheese", "comté"),
        pair("fat", "butter"),
        pair("meat", "ham"),
    ];
    assert_eq!(
        from_bytes(b"bread=baguette&cheese=comt%C3%A9&meat=ham&fat=butter")
            .unwrap()
            .deserialize_pairs(),
        Ok(meal.clone())
    );
    assert_eq!(
        from_str("bread=baguette&cheese=comt%C3%A9&meat=ham&fat=butter")
            .unwrap()
            .deserialize_pairs(),
        Ok(meal)
    );
    assert_eq!(
        from_bytes(b"a=b&c=d&a=c").unwrap().deserialize_pairs(),
        Err(DecodingError::StructuralMismatch)
    );
    assert_eq!(from_bytes(b"").unwrap().deserialize_pairs(), Ok(vec![]));
}

#[test]
fn decode_pairs_keeps_input_order_and_unescapes() {
    assert_eq!(
        decode_pairs(b"%23first=%25try%25&b=x+y&a"),
        Ok(vec![pair("#first", "%try%"), pair("b", "x y"), pair("a", "")])
    );
}

#[test]
fn decode_pairs_of_empty_input_is_empty() {
    assert_eq!(decode_pairs(b""), Ok(vec![]));
    assert_eq!(decode_pairs(b"&&"), Ok(vec![]));
}

#[test]
fn incomplete_escape_is_malformed() {
    assert_eq!(decode_pairs(b"a=%"), Err(DecodingError::Malformed));
    assert_eq!(decode_pairs(b"a=%4"), Err(DecodingError::Malformed));
    assert_eq!(decode_pairs(b"a=%zz"), Err(DecodingError::Malformed));
    assert_eq!(decode_pairs(b"%4g=a"), Err(DecodingError::Malformed));
    assert!(matches!(from_bytes(b"a=%"), Err(DecodingError::Malformed)));
    assert!(matches!(from_str("a=%2"), Err(DecodingError::Malformed)));
}

#[test]
fn invalid_utf8_is_malformed() {
    assert_eq!(decode_pairs(b"a=%ff"), Err(DecodingError::Malformed));
    assert_eq!(decode_pairs(b"a=%C3"), Err(DecodingError::Malformed));
    assert_eq!(decode_pairs(b"a=%C3&%A9=b"), Err(DecodingError::Malformed));
    assert_eq!(decode_pairs(&[b'a', b'=', 0xff]), Err(DecodingError::Malformed));
}

#[test]
fn lower_case_escapes_are_accepted() {
    assert_eq!(decode_pairs(b"a=%c3%a9"), Ok(vec![pair("a", "é")]));
}

#[test]
fn repeated_keys_become_a_sequence() {
    let groups = group_entries(vec![pair("a", "b"), pair("c", "d"), pair("a", "c")]);
    assert_eq!(groups, vec![vec_of("a", &["b", "c"]), val("c", "d")]);
}

#[test]
fn repeated_keys_decode_into_a_sequence_field() {
    let fields = vec![field("a", Shape::Sequence), field("c", Shape::Scalar)];
    let de = from_bytes(b"a=b&c=d&a=c").unwrap();
    assert_eq!(
        de.deserialize_struct(&fields),
        Ok(vec![
            Value::Sequence(vec![Part("b".to_owned()), Part("c".to_owned())]),
            Value::Scalar(Part("d".to_owned())),
        ])
    );
}

#[test]
fn repeated_keys_do_not_decode_into_a_scalar_field() {
    let fields = vec![field("a", Shape::Scalar)];
    let de = from_bytes(b"a=b&c=d&a=c").unwrap();
    assert_eq!(de.deserialize_struct(&fields), Err(DecodingError::StructuralMismatch));
}

#[test]
fn a_single_value_decodes_into_a_sequence_of_one() {
    let fields = vec![field("a", Shape::Sequence), field("c", Shape::Sequence)];
    let de = from_bytes(b"a=b&c=d&a=c").unwrap();
    assert_eq!(
        de.deserialize_struct(&fields),
        Ok(vec![
            Value::Sequence(vec![Part("b".to_owned()), Part("c".to_owned())]),
            Value::Sequence(vec![Part("d".to_owned())]),
        ])
    );
}

#[test]
fn single_fields_are_decoded_in_their_shape() {
    let de = from_bytes(b"a=b&c=d&a=c").unwrap();
    assert_eq!(de.deserialize_field("c", Shape::Scalar), Ok(Value::Scalar(Part("d".to_owned()))));
    assert_eq!(
        de.deserialize_field("c", Shape::Sequence),
        Ok(Value::Sequence(vec![Part("d".to_owned())]))
    );
    assert_eq!(de.deserialize_field("a", Shape::Scalar), Err(DecodingError::StructuralMismatch));
    assert_eq!(
        de.deserialize_field("a", Shape::Sequence),
        Ok(Value::Sequence(vec![Part("b".to_owned()), Part("c".to_owned())]))
    );
    assert_eq!(de.deserialize_field("z", Shape::Scalar), Err(DecodingError::MissingField));
    assert_eq!(de.deserialize_field("z", Shape::Sequence), Err(DecodingError::MissingField));
    assert_eq!(Value::Scalar(Part("d".to_owned())).shape(), Shape::Scalar);
    assert_eq!(Value::Sequence(vec![]).shape(), Shape::Sequence);
}

#[test]
fn a_missing_field_is_reported() {
    let fields = vec![field("a", Shape::Scalar), field("z", Shape::Scalar)];
    let de = from_bytes(b"a=b").unwrap();
    assert_eq!(de.deserialize_struct(&fields), Err(DecodingError::MissingField));
}

#[test]
fn the_first_failing_field_decides() {
    let fields = vec![field("z", Shape::Scalar), field("a", Shape::Scalar)];
    let de = from_bytes(b"a=b&a=c").unwrap();
    assert_eq!(de.deserialize_struct(&fields), Err(DecodingError::MissingField));
    let fields = vec![field("a", Shape::Scalar), field("z", Shape::Scalar)];
    let de = from_bytes(b"a=b&a=c").unwrap();
    assert_eq!(de.deserialize_struct(&fields), Err(DecodingError::StructuralMismatch));
}

#[test]
fn unit_takes_no_entries() {
    assert_eq!(from_bytes(b"").unwrap().deserialize_unit(), Ok(()));
    assert_eq!(from_bytes(b"a=b").unwrap().deserialize_unit(), Err(DecodingError::UnexpectedData));
}

#[test]
fn keys_are_ordered_by_their_bytes() {
    let de = Deserializer::new(vec![
        pair("b", "1"),
        pair("ab", "2"),
        pair("a", "3"),
        pair("B", "4"),
        pair("é", "5"),
        pair("", "6"),
        pair("z", "7"),
    ]);
    assert_eq!(
        de.deserialize_any(),
        vec![
            val("", "6"),
            val("B", "4"),
            val("a", "3"),
            val("ab", "2"),
            val("b", "1"),
            val("z", "7"),
            val("é", "5"),
        ]
    );
}

#[test]
fn entries_are_found_by_key() {
    let de = from_bytes(b"b=2&a=1&c=3&b=4&%C3%A9=5").unwrap();
    assert_eq!(de.get("a"), Some(&ValOrVec::Val(Part("1".to_owned()))));
    assert_eq!(
        de.get("b"),
        Some(&ValOrVec::Vec(vec![Part("2".to_owned()), Part("4".to_owned())]))
    );
    assert_eq!(de.get("c"), Some(&ValOrVec::Val(Part("3".to_owned()))));
    assert_eq!(de.get("é"), Some(&ValOrVec::Val(Part("5".to_owned()))));
    assert_eq!(de.get(""), None);
    assert_eq!(de.get("ab"), None);
    assert_eq!(de.get("d"), None);
    assert_eq!(from_bytes(b"").unwrap().get("a"), None);
}

#[test]
fn many_keys_are_grouped() {
    let mut pairs = Vec::new();
    for round in 0..3 {
        for key in (0..40).rev() {
            pairs.push((format!("k{:02}", (key * 7) % 40), format!("{round}")));
        }
    }
    let groups = group_entries(pairs);
    assert_eq!(groups.len(), 40);
    for (index, (key, entry)) in groups.iter().enumerate() {
        assert_eq!(key, &format!("k{index:02}"));
        assert_eq!(
            entry,
            &ValOrVec::Vec(vec![
                Part("0".to_owned()),
                Part("1".to_owned()),
                Part("2".to_owned())
            ])
        );
    }
}

#[test]
fn val_or_vec_push_promotes() {
    let mut entry = ValOrVec::Val(Part("a".to_owned()));
    entry.push(Part("b".to_owned()));
    assert_eq!(entry, ValOrVec::Vec(vec![Part("a".to_owned()), Part("b".to_owned())]));
    entry.push(Part("c".to_owned()));
    assert_eq!(
        entry,
        ValOrVec::Vec(vec![Part("a".to_owned()), Part("b".to_owned()), Part("c".to_owned())])
    );
    assert_eq!(entry.clone().deserialize_any(), Err(DecodingError::StructuralMismatch));
    assert_eq!(entry.deserialize_seq().len(), 3);
    let single = ValOrVec::Val(Part("x".to_owned()));
    assert_eq!(single.clone().deserialize_any(), Ok(Part("x".to_owned())));
    assert_eq!(single.deserialize_seq(), vec![Part("x".to_owned())]);
}

fn variants() -> Vec<Variant> {
    vec![
        Variant { name: "Foo".to_owned(), kind: VariantKind::Unit },
        Variant { name: "Bar".to_owned(), kind: VariantKind::Newtype },
        Variant { name: "Baz".to_owned(), kind: VariantKind::Tuple },
        Variant { name: "Qux".to_owned(), kind: VariantKind::Struct },
    ]
}

#[test]
fn unit_variant_is_selected_by_name() {
    assert_eq!(Part("Foo".to_owned()).deserialize_enum(&variants()), Ok(0));
}

#[test]
fn variant_with_data_is_refused() {
    let all = variants();
    assert_eq!(
        Part("Bar".to_owned()).deserialize_enum(&all),
        Err(DecodingError::ExpectedUnitVariant)
    );
    assert_eq!(
        Part("Baz".to_owned()).deserialize_enum(&all),
        Err(DecodingError::ExpectedUnitVariant)
    );
    assert_eq!(
        Part("Qux".to_owned()).deserialize_enum(&all),
        Err(DecodingError::ExpectedUnitVariant)
    );
    let carrying = vec![Variant { name: "Foo".to_owned(), kind: VariantKind::Newtype }];
    assert_eq!(
        Part("Foo".to_owned()).deserialize_enum(&carrying),
        Err(DecodingError::ExpectedUnitVariant)
    );
}

#[test]
fn variant_names_match_exactly() {
    let all = variants();
    assert_eq!(
        Part("foo".to_owned()).deserialize_enum(&all),
        Err(DecodingError::StructuralMismatch)
    );
    assert_eq!(
        Part("Foo ".to_owned()).deserialize_enum(&all),
        Err(DecodingError::StructuralMismatch)
    );
    assert_eq!(Part("".to_owned()).deserialize_enum(&all), Err(DecodingError::StructuralMismatch));
}

#[test]
fn variant_access_only_reads_unit_variants() {
    let (index, access) = ValueEnumAccess("Baz".to_owned()).variant_seed(&variants()).unwrap();
    assert_eq!(index, 2);
    assert_eq!(access.unit_variant(), Ok(()));
    assert_eq!(UnitOnlyVariantAccess.newtype_variant_seed(), Err(DecodingError::ExpectedUnitVariant));
    assert_eq!(UnitOnlyVariantAccess.tuple_variant(), Err(DecodingError::ExpectedUnitVariant));
    assert_eq!(UnitOnlyVariantAccess.struct_variant(), Err(DecodingError::ExpectedUnitVariant));
    assert!(ValueEnumAccess("Nope".to_owned()).variant_seed(&variants()).is_err());
}

#[test]
fn part_passes_text_through() {
    assert_eq!(Part("héllo".to_owned()).deserialize_any(), "héllo".to_owned());
    assert_eq!(Part("x".to_owned()).deserialize_option(), Some(Part("x".to_owned())));
    assert_eq!(Part("".to_owned()).deserialize_option(), Some(Part("".to_owned())));
    assert_eq!(Part("x".to_owned()).deserialize_newtype_struct(), Part("x".to_owned()));
}

#[test]
fn booleans_are_read_exactly() {
    assert_eq!(Part("true".to_owned()).deserialize_bool(), Ok(true));
    assert_eq!(Part("false".to_owned()).deserialize_bool(), Ok(false));
    let fault = Err(DecodingError::InvalidScalar(ScalarFault::NotBoolean));
    assert_eq!(Part("True".to_owned()).deserialize_bool(), fault);
    assert_eq!(Part("1".to_owned()).deserialize_bool(), fault);
    assert_eq!(Part("".to_owned()).deserialize_bool(), fault);
    assert_eq!(Part("truee".to_owned()).deserialize_bool(), fault);
}

fn invalid<T>(fault: ScalarFault) -> Result<T, DecodingError> {
    Err(DecodingError::InvalidScalar(fault))
}

#[test]
fn unsigned_integers_are_read() {
    assert_eq!(Part("0".to_owned()).deserialize_u8(), Ok(0));
    assert_eq!(Part("255".to_owned()).deserialize_u8(), Ok(255));
    assert_eq!(Part("+7".to_owned()).deserialize_u8(), Ok(7));
    assert_eq!(Part("007".to_owned()).deserialize_u8(), Ok(7));
    assert_eq!(Part("256".to_owned()).deserialize_u8(), invalid(ScalarFault::PosOverflow));
    assert_eq!(Part("65535".to_owned()).deserialize_u16(), Ok(65535));
    assert_eq!(Part("65536".to_owned()).deserialize_u16(), invalid(ScalarFault::PosOverflow));
    assert_eq!(Part("4294967295".to_owned()).deserialize_u32(), Ok(4294967295));
    assert_eq!(Part("4294967296".to_owned()).deserialize_u32(), invalid(ScalarFault::PosOverflow));
    assert_eq!(Part("18446744073709551615".to_owned()).deserialize_u64(), Ok(u64::MAX));
    assert_eq!(
        Part("18446744073709551616".to_owned()).deserialize_u64(),
        invalid(ScalarFault::PosOverflow)
    );
    assert_eq!(
        Part("99999999999999999999999999999999999999999999".to_owned()).deserialize_u64(),
        invalid(ScalarFault::PosOverflow)
    );
}

#[test]
fn signed_integers_are_read() {
    assert_eq!(Part("-128".to_owned()).deserialize_i8(), Ok(-128));
    assert_eq!(Part("127".to_owned()).deserialize_i8(), Ok(127));
    assert_eq!(Part("+127".to_owned()).deserialize_i8(), Ok(127));
    assert_eq!(Part("-0".to_owned()).deserialize_i8(), Ok(0));
    assert_eq!(Part("128".to_owned()).deserialize_i8(), invalid(ScalarFault::PosOverflow));
    assert_eq!(Part("-129".to_owned()).deserialize_i8(), invalid(ScalarFault::NegOverflow));
    assert_eq!(Part("-32768".to_owned()).deserialize_i16(), Ok(-32768));
    assert_eq!(Part("32768".to_owned()).deserialize_i16(), invalid(ScalarFault::PosOverflow));
    assert_eq!(Part("-2147483648".to_owned()).deserialize_i32(), Ok(i32::MIN));
    assert_eq!(Part("2147483647".to_owned()).deserialize_i32(), Ok(i32::MAX));
    assert_eq!(Part("-9223372036854775808".to_owned()).deserialize_i64(), Ok(i64::MIN));
    assert_eq!(Part("9223372036854775807".to_owned()).deserialize_i64(), Ok(i64::MAX));
    assert_eq!(
        Part("9223372036854775808".to_owned()).deserialize_i64(),
        invalid(ScalarFault::PosOverflow)
    );
    assert_eq!(
        Part("-9223372036854775809".to_owned()).deserialize_i64(),
        invalid(ScalarFault::NegOverflow)
    );
}

#[test]
fn integer_faults_are_told_apart() {
    assert_eq!(Part("".to_owned()).deserialize_u32(), invalid(ScalarFault::Empty));
    assert_eq!(Part("+".to_owned()).deserialize_u32(), invalid(ScalarFault::InvalidDigit));
    assert_eq!(Part("-".to_owned()).deserialize_i32(), invalid(ScalarFault::InvalidDigit));
    assert_eq!(Part("-1".to_owned()).deserialize_u32(), invalid(ScalarFault::InvalidDigit));
    assert_eq!(Part("12a".to_owned()).deserialize_u32(), invalid(ScalarFault::InvalidDigit));
    assert_eq!(Part(" 12".to_owned()).deserialize_u32(), invalid(ScalarFault::InvalidDigit));
    assert_eq!(Part("1_000".to_owned()).deserialize_u32(), invalid(ScalarFault::InvalidDigit));
    assert_eq!(Part("١٢".to_owned()).deserialize_u32(), invalid(ScalarFault::InvalidDigit));
    assert_eq!(Part("99x".to_owned()).deserialize_u8(), invalid(ScalarFault::InvalidDigit));
    assert_eq!(Part("999x".to_owned()).deserialize_u8(), invalid(ScalarFault::PosOverflow));
    assert_eq!(Part("-999x".to_owned()).deserialize_i8(), invalid(ScalarFault::NegOverflow));
}

#[test]
fn integers_agree_with_the_standard_library() {
    let texts = [
        "", "+", "-", "0", "-0", "+0", "00", "1", "-1", "+1", "127", "128", "-128", "-129",
        "255", "256", "999", "99x", "x99", "2560x", "--1", "+-1", "1 ", " 1", "1.0", "0x10",
        "65535", "65536", "-32768", "-32769", "18446744073709551615", "18446744073709551616",
    ];
    for text in texts {
        let part = Part(text.to_owned());
        assert_eq!(part.deserialize_u8().ok(), text.parse::<u8>().ok(), "u8 {text:?}");
        assert_eq!(part.deserialize_i8().ok(), text.parse::<i8>().ok(), "i8 {text:?}");
        assert_eq!(part.deserialize_u16().ok(), text.parse::<u16>().ok(), "u16 {text:?}");
        assert_eq!(part.deserialize_i16().ok(), text.parse::<i16>().ok(), "i16 {text:?}");
        assert_eq!(part.deserialize_u64().ok(), text.parse::<u64>().ok(), "u64 {text:?}");
        assert_eq!(part.deserialize_i64().ok(), text.parse::<i64>().ok(), "i64 {text:?}");
        assert_eq!(part.deserialize_bool().ok(), text.parse::<bool>().ok(), "bool {text:?}");
    }
}

fn hex(b: u8) -> Option<u8> {
    match b {
        b'0'..=b'9' => Some(b - b'0'),
        b'a'..=b'f' => Some(b - b'a' + 10),
        b'A'..=b'F' => Some(b - b'A' + 10),
        _ => None,
    }
}

fn text_by_hand(bytes: &[u8]) -> String {
    let mut out = Vec::new();
    let mut i = 0;
    while i < bytes.len() {
        let b = if bytes[i] == b'+' { b' ' } else { bytes[i] };
        if b == b'%' && i + 2 < bytes.len() && hex(bytes[i + 1]).is_some() && hex(bytes[i + 2]).is_some() {
            out.push(hex(bytes[i + 1]).unwrap() * 16 + hex(bytes[i + 2]).unwrap());
            i += 3;
        } else {
            out.push(b);
            i += 1;
        }
    }
    String::from_utf8(out).unwrap()
}

fn pairs_by_hand(input: &[u8]) -> Vec<(String, String)> {
    let mut pairs = Vec::new();
    for piece in input.split(|b| *b == b'&') {
        if piece.is_empty() {
            continue;
        }
        let cut = piece.iter().position(|b| *b == b'=');
        let (key, value) = match cut {
            Some(at) => (&piece[..at], &piece[at + 1..]),
            None => (piece, &piece[piece.len()..]),
        };
        pairs.push((text_by_hand(key), text_by_hand(value)));
    }
    pairs
}

#[test]
fn well_formed_input_holds_the_pairs_that_the_syntax_says() {
    let inputs: [&[u8]; 24] = [
        b"",
        b"&",
        b"&&&",
        b"=",
        b"==",
        b"a",
        b"a=",
        b"=b",
        b"a=b=c",
        b"a==b",
        b"&&a=1&&b=2&&",
        b"a=1&a=2&a=3",
        b"%3D=%26",
        b"%26%3D%26=%3D%26%3D",
        b"a+b=c+d",
        b"%2B=+",
        b"+=%20",
        b"%25=%2525",
        b"%c3%a9=%C3%A9",
        "é=ü&𝄞=☃".as_bytes(),
        b"%F0%9D%84%9E=%E2%98%83",
        b"k=%00%7F",
        b"a=b&c=d&a=c",
        b"bread=baguette&cheese=comt%C3%A9&meat=ham&fat=butter",
    ];
    for input in inputs {
        assert_eq!(decode_pairs(input), Ok(pairs_by_hand(input)), "{:?}", input);
    }
}
