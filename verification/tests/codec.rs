use kafka_jq::bson::{
    binary_subtype_to_hex, binary_to_jv, bson_to_jv, hex_to_binary_subtype, jv_to_bson,
    number_to_bson, ordered_doc_to_jv, payload_to_bson, BinarySubtype, Bson, DecodeError,
    OrderedDocument,
};
use kafka_jq::jq::Jv;

fn number(value: f64) -> Jv {
    Jv::Number(value.to_bits())
}

fn text(value: &str) -> Jv {
    Jv::String(value.to_string())
}

fn object(fields: Vec<(&str, Jv)>) -> Jv {
    Jv::Object(fields.into_iter().map(|(key, value)| (key.to_string(), value)).collect())
}

fn document(entries: Vec<(&str, Bson)>) -> Bson {
    let mut doc = OrderedDocument::new();
    for (key, value) in entries {
        doc.insert_bson(key.to_string(), value);
    }
    Bson::Document(doc)
}

fn float(value: f64) -> Bson {
    Bson::FloatingPoint(value.to_bits())
}

#[test]
fn it_converts_bson_bool_to_jv_bool() {
    let jv_from_bson_true = bson_to_jv(&Bson::Boolean(true));
    let jv_from_bson_false = bson_to_jv(&Bson::Boolean(false));
    let jv_true = Jv::Bool(true);
    let jv_false = Jv::Bool(false);

    assert_eq!(jv_from_bson_true, jv_true);
    assert_eq!(jv_from_bson_false, jv_false);
}

#[test]
fn it_converts_bson_null_to_jv_null() {
    let jv_from_bson_null = bson_to_jv(&Bson::Null);
    let jv_null = Jv::Null;

    assert_eq!(jv_from_bson_null, jv_null);
}

#[test]
fn it_round_trips_bson_and_jv() {
    for string in ["", "a", "hello world", "$binary", "\\x00", "ünïcödé ✓", "line\nbreak"] {
        let bson_string = Bson::String(string.to_owned());
        let jv_string = text(string);

        assert_eq!(bson_to_jv(&bson_string), jv_string);
        assert_eq!(jv_to_bson(&jv_string).unwrap(), bson_string);
        assert_eq!(jv_to_bson(&bson_to_jv(&bson_string)).unwrap(), bson_string);
        assert_eq!(bson_to_jv(&jv_to_bson(&jv_string).unwrap()), jv_string);
    }
}

#[test]
fn it_converts_bson_float_to_jv_double() {
    for float64 in [0.0, -0.0, 0.1, 3.5, -2.25, 1e300, f64::INFINITY, f64::NAN, f64::MIN_POSITIVE] {
        let jv = bson_to_jv(&Bson::FloatingPoint(float64.to_bits()));
        assert_eq!(jv, Jv::Number(float64.to_bits()));
    }
}

#[test]
fn it_converts_bson_i32_to_jv_integer() {
    for int in [0, 1, -1, 5, 1024, i32::MAX, i32::MIN, 123_456_789] {
        let jv = bson_to_jv(&Bson::I32(int));
        assert_eq!(jv, number(int as f64));
        assert!(kafka_jq::jq::jv_is_integer(&jv));
    }
}

#[test]
fn it_converts_bson_i64_to_jv_integer() {
    for int in [2_147_483_648i64, -2_147_483_649, 9_999_999_999, i64::MAX, i64::MIN, 1 << 53] {
        let jv = bson_to_jv(&Bson::I64(int));
        assert_eq!(jv, number(int as f64));
        assert!(!kafka_jq::jq::jv_is_integer(&jv));
    }
}

#[test]
fn a_document_becomes_an_object_with_the_same_fields() {
    let decoded = document(vec![("a", Bson::I32(5))]);
    assert_eq!(bson_to_jv(&decoded), object(vec![("a", number(5.0))]));
}

#[test]
fn a_binary_value_becomes_its_two_field_object_and_comes_back() {
    let binary = Bson::Binary(BinarySubtype::Generic, vec![0x01, 0x02, 0x03]);
    let encoded = bson_to_jv(&binary);
    assert_eq!(encoded, object(vec![("$type", text("\\x00")), ("$binary", text("AQID"))]));
    assert_eq!(jv_to_bson(&encoded), Ok(binary));
}

#[test]
fn base64_text_is_not_the_payload_itself() {
    let payload = "hello".as_bytes().to_vec();
    let encoded = bson_to_jv(&Bson::Binary(BinarySubtype::Md5, payload));
    assert_eq!(encoded, object(vec![("$type", text("\\x05")), ("$binary", text("aGVsbG8="))]));
    let empty = bson_to_jv(&Bson::Binary(BinarySubtype::Generic, vec![]));
    assert_eq!(empty, object(vec![("$type", text("\\x00")), ("$binary", text(""))]));
}

#[test]
fn base64_text_decodes_to_other_bytes_than_its_own() {
    let decoded = jv_to_bson(&object(vec![("$binary", text("aGVsbG8="))]));
    assert_eq!(decoded, Ok(Bson::Binary(BinarySubtype::Generic, "hello".as_bytes().to_vec())));
}

#[test]
fn a_number_decodes_by_what_it_holds() {
    assert_eq!(jv_to_bson(&number(3.0)), Ok(Bson::I32(3)));
    assert_eq!(jv_to_bson(&number(9_999_999_999.0)), Ok(Bson::I64(9_999_999_999)));
    assert_eq!(jv_to_bson(&number(3.5)), Ok(float(3.5)));
}

#[test]
fn the_range_of_i32_is_closed_below_and_open_above() {
    assert_eq!(number_to_bson((-2_147_483_648.0f64).to_bits()), Bson::I32(i32::MIN));
    assert_eq!(number_to_bson(2_147_483_647.0f64.to_bits()), Bson::I32(i32::MAX));
    assert_eq!(number_to_bson(2_147_483_648.0f64.to_bits()), Bson::I64(2_147_483_648));
    assert_eq!(number_to_bson((-2_147_483_649.0f64).to_bits()), Bson::I64(-2_147_483_649));
}

#[test]
fn special_numbers_decode_as_the_rule_says() {
    assert_eq!(number_to_bson((-0.0f64).to_bits()), Bson::I32(0));
    assert_eq!(number_to_bson(f64::INFINITY.to_bits()), Bson::I64(i64::MAX));
    assert_eq!(number_to_bson(f64::NEG_INFINITY.to_bits()), Bson::I64(i64::MIN));
    assert_eq!(number_to_bson(f64::NAN.to_bits()), Bson::FloatingPoint(f64::NAN.to_bits()));
    assert_eq!(number_to_bson(1e300f64.to_bits()), Bson::I64(i64::MAX));
    assert_eq!(number_to_bson(0.5f64.to_bits()), float(0.5));
    assert_eq!(number_to_bson(5e-324f64.to_bits()), float(5e-324));
}

#[test]
fn scalars_decode_to_their_counterparts() {
    assert_eq!(jv_to_bson(&Jv::Null), Ok(Bson::Null));
    assert_eq!(jv_to_bson(&Jv::Bool(true)), Ok(Bson::Boolean(true)));
    assert_eq!(jv_to_bson(&Jv::Bool(false)), Ok(Bson::Boolean(false)));
    assert_eq!(jv_to_bson(&text("x")), Ok(Bson::String("x".to_string())));
}

#[test]
fn an_invalid_value_fails_the_whole_value() {
    assert_eq!(jv_to_bson(&Jv::Invalid), Err(DecodeError::MalformedPayload));
    let nested = Jv::Array(vec![number(1.0), Jv::Array(vec![Jv::Invalid]), number(2.0)]);
    assert_eq!(jv_to_bson(&nested), Err(DecodeError::MalformedPayload));
    let in_object = object(vec![("a", number(1.0)), ("b", Jv::Invalid)]);
    assert_eq!(jv_to_bson(&in_object), Err(DecodeError::MalformedPayload));
}

#[test]
fn a_payload_that_is_not_base64_fails_the_whole_value() {
    let bad = object(vec![("$type", text("\\x00")), ("$binary", text("not base64!"))]);
    assert_eq!(jv_to_bson(&bad), Err(DecodeError::InvalidBase64));
    let nested = object(vec![("a", number(1.0)), ("b", Jv::Array(vec![bad]))]);
    assert_eq!(jv_to_bson(&nested), Err(DecodeError::InvalidBase64));
}

#[test]
fn the_first_error_in_reading_order_is_reported() {
    let bad_payload = object(vec![("$binary", text("***"))]);
    let first_invalid = Jv::Array(vec![Jv::Invalid, bad_payload]);
    assert_eq!(jv_to_bson(&first_invalid), Err(DecodeError::MalformedPayload));
    let bad_payload = object(vec![("$binary", text("***"))]);
    let first_payload = Jv::Array(vec![bad_payload, Jv::Invalid]);
    assert_eq!(jv_to_bson(&first_payload), Err(DecodeError::InvalidBase64));
}

#[test]
fn a_binary_object_needs_strings() {
    let number_payload = object(vec![("$type", text("\\x00")), ("$binary", number(1.0))]);
    assert_eq!(jv_to_bson(&number_payload), Err(DecodeError::MalformedPayload));
    let number_tag = object(vec![("$type", number(0.0)), ("$binary", text("AQID"))]);
    assert_eq!(jv_to_bson(&number_tag), Err(DecodeError::MalformedPayload));
}

#[test]
fn a_missing_or_unknown_tag_counts_as_generic() {
    let without_tag = object(vec![("$binary", text("AQID"))]);
    assert_eq!(jv_to_bson(&without_tag), Ok(Bson::Binary(BinarySubtype::Generic, vec![1, 2, 3])));
    let unknown_tag = object(vec![("$type", text("\\x7f")), ("$binary", text("AQID"))]);
    assert_eq!(jv_to_bson(&unknown_tag), Ok(Bson::Binary(BinarySubtype::Generic, vec![1, 2, 3])));
}

#[test]
fn an_object_with_a_payload_field_is_read_as_binary_only() {
    let with_more = object(vec![
        ("other", number(1.0)),
        ("$binary", text("AQID")),
        ("$type", text("\\x04")),
        ("more", Jv::Invalid),
    ]);
    assert_eq!(jv_to_bson(&with_more), Ok(Bson::Binary(BinarySubtype::Uuid, vec![1, 2, 3])));
}

#[test]
fn an_object_with_the_tag_alone_is_a_document() {
    let tag_only = object(vec![("$type", text("\\x00"))]);
    assert_eq!(
        jv_to_bson(&tag_only),
        Ok(document(vec![("$type", Bson::String("\\x00".to_string()))]))
    );
}

#[test]
fn every_named_subtype_comes_back_from_its_tag() {
    let named = [
        (BinarySubtype::Generic, "\\x00"),
        (BinarySubtype::Function, "\\x01"),
        (BinarySubtype::BinaryOld, "\\x02"),
        (BinarySubtype::UuidOld, "\\x03"),
        (BinarySubtype::Uuid, "\\x04"),
        (BinarySubtype::Md5, "\\x05"),
    ];
    for (subtype, hex) in named {
        assert_eq!(binary_subtype_to_hex(subtype), hex);
        assert_eq!(hex_to_binary_subtype(hex), Some(subtype));
        assert_eq!(hex_to_binary_subtype(binary_subtype_to_hex(subtype)), Some(subtype));
    }
}

#[test]
fn a_user_defined_subtype_comes_back_with_discriminator_zero() {
    for discriminator in [0u8, 1, 0x80, 0xff] {
        let subtype = BinarySubtype::UserDefined(discriminator);
        assert_eq!(binary_subtype_to_hex(subtype), "\\x80");
        assert_eq!(
            hex_to_binary_subtype(binary_subtype_to_hex(subtype)),
            Some(BinarySubtype::UserDefined(0))
        );
    }
    let binary = Bson::Binary(BinarySubtype::UserDefined(0x85), vec![9]);
    assert_eq!(
        jv_to_bson(&bson_to_jv(&binary)),
        Ok(Bson::Binary(BinarySubtype::UserDefined(0), vec![9]))
    );
}

#[test]
fn what_is_no_tag_stands_for_no_subtype() {
    for hex in ["", "x00", "\\x06", "\\x0", "\\x000", "\\X00", "\u{0}"] {
        assert_eq!(hex_to_binary_subtype(hex), None);
    }
}

#[test]
fn the_keys_of_a_document_keep_their_order() {
    let doc = document(vec![("k1", Bson::I32(1)), ("k2", Bson::I32(2)), ("k3", Bson::I32(3))]);
    let decoded = jv_to_bson(&bson_to_jv(&doc)).unwrap();
    match &decoded {
        Bson::Document(entries) => {
            assert_eq!(entries.len(), 3);
            assert_eq!(entries.key_at(0), "k1");
            assert_eq!(entries.key_at(1), "k2");
            assert_eq!(entries.key_at(2), "k3");
        }
        other => panic!("not a document: {:?}", other),
    }
    let reversed = document(vec![("k3", Bson::I32(3)), ("k2", Bson::I32(2)), ("k1", Bson::I32(1))]);
    assert_ne!(decoded, reversed);
}

#[test]
fn a_repeated_key_overwrites_in_place() {
    let mut doc = OrderedDocument::new();
    doc.insert_bson("a".to_string(), Bson::I32(1));
    doc.insert_bson("b".to_string(), Bson::I32(2));
    doc.insert_bson("a".to_string(), Bson::I32(3));
    assert_eq!(doc.len(), 2);
    assert_eq!(doc.key_at(0), "a");
    assert_eq!(doc.value_at(0), &Bson::I32(3));
    assert_eq!(doc.key_at(1), "b");
    assert_eq!(doc.get("a"), Some(&Bson::I32(3)));
    assert_eq!(doc.get("b"), Some(&Bson::I32(2)));
    assert_eq!(doc.get("c"), None);

    let repeated = object(vec![("a", number(1.0)), ("b", number(2.0)), ("a", number(3.0))]);
    assert_eq!(jv_to_bson(&repeated), Ok(Bson::Document(doc)));
}

#[test]
fn an_empty_document_and_an_empty_array_come_back() {
    let mut empty = OrderedDocument::new();
    assert_eq!(empty.len(), 0);
    assert_eq!(ordered_doc_to_jv(&empty), Jv::Object(vec![]));
    assert_eq!(jv_to_bson(&Jv::Object(vec![])), Ok(Bson::Document(OrderedDocument::new())));
    assert_eq!(jv_to_bson(&Jv::Array(vec![])), Ok(Bson::Array(vec![])));
    empty.insert_bson("k".to_string(), Bson::Null);
    assert_eq!(ordered_doc_to_jv(&empty), object(vec![("k", Jv::Null)]));
}

#[test]
fn it_converts_arb_bson_to_jv_with_equality() {
    let inner = document(vec![
        ("x-0", Bson::Null),
        ("x-1", Bson::Boolean(true)),
        ("x-2", Bson::I32(-7)),
        ("x-3", Bson::I64(2_147_483_649)),
        ("x-4", float(199_254_740_991.1)),
        ("x-5", Bson::String("text".to_string())),
        ("x-6", Bson::Binary(BinarySubtype::Function, vec![0, 255, 16])),
        ("x-7", Bson::Binary(BinarySubtype::UuidOld, vec![])),
    ]);
    let bson = Bson::Array(vec![
        inner,
        Bson::Array(vec![Bson::I32(i32::MIN), Bson::I64(-(1 << 53)), float(0.1)]),
        document(vec![("nested", document(vec![("deep", Bson::Array(vec![]))]))]),
        Bson::Binary(BinarySubtype::BinaryOld, vec![1; 9]),
    ]);
    let jv1 = bson_to_jv(&bson);
    let jv2 = bson_to_jv(&bson);
    let bson_roundtrip = jv_to_bson(&bson_to_jv(&bson)).unwrap();

    assert_eq!(jv1, jv2);
    assert_eq!(jv2, jv1);
    assert_eq!(bson_roundtrip, bson);
}

#[test]
fn a_value_encodes_the_same_after_a_round_trip() {
    let lossy = Bson::Array(vec![
        Bson::I64(5),
        Bson::I64(i64::MAX),
        Bson::I64((1 << 53) + 1),
        float(3.0),
        float(9_223_372_036_854_775_808.0),
        Bson::Binary(BinarySubtype::UserDefined(200), vec![1, 2]),
        document(vec![("n", Bson::I64(-1))]),
    ]);
    let encoded = bson_to_jv(&lossy);
    let decoded = jv_to_bson(&encoded).unwrap();
    assert_ne!(decoded, lossy);
    assert_eq!(bson_to_jv(&decoded), encoded);
}

#[test]
fn some_values_do_not_round_trip() {
    assert_eq!(jv_to_bson(&bson_to_jv(&Bson::I64(5))), Ok(Bson::I32(5)));
    assert_eq!(jv_to_bson(&bson_to_jv(&float(3.0))), Ok(Bson::I32(3)));
    assert_eq!(
        jv_to_bson(&bson_to_jv(&Bson::I64((1 << 53) + 1))),
        Ok(Bson::I64(1 << 53))
    );
    let misread = document(vec![("$binary", Bson::String("AQID".to_string()))]);
    assert_eq!(
        jv_to_bson(&bson_to_jv(&misread)),
        Ok(Bson::Binary(BinarySubtype::Generic, vec![1, 2, 3]))
    );
}

#[test]
fn a_binary_object_holds_the_tag_and_then_the_text() {
    assert_eq!(
        binary_to_jv(BinarySubtype::Uuid, "AQID".to_string()),
        object(vec![("$type", text("\\x04")), ("$binary", text("AQID"))])
    );
    assert_eq!(
        binary_to_jv(BinarySubtype::UserDefined(7), String::new()),
        object(vec![("$type", text("\\x80")), ("$binary", text(""))])
    );
}

#[test]
fn a_decoded_payload_makes_the_binary_value() {
    assert_eq!(
        payload_to_bson(BinarySubtype::Md5, Some(vec![1, 2, 3])),
        Ok(Bson::Binary(BinarySubtype::Md5, vec![1, 2, 3]))
    );
    assert_eq!(payload_to_bson(BinarySubtype::Md5, None), Err(DecodeError::InvalidBase64));
}
