use form_codec::codec::{decode, encode};
use form_codec::decode::DecodeError;
use form_codec::label::readable;
use form_codec::path::FlatEntry;
use form_codec::value::{FieldShape, FieldVal, PairVal, Payload, PayloadShape, Shape, Value,
    VariantShape};

fn fe(name: &str, text: &str) -> FlatEntry {
    FlatEntry { name: name.to_string(), text: text.to_string() }
}

#[test]
fn label_first_name() {
    assert_eq!(readable("first_name"), "First name");
}

#[test]
fn label_a_b_c() {
    assert_eq!(readable("a_b_c"), "A b c");
}

#[test]
fn label_empty() {
    assert_eq!(readable(""), "");
}

#[test]
fn label_keeps_order() {
    assert_eq!(readable("zip_code_extra"), "Zip code extra");
}

#[test]
fn encode_int_leaf() {
    let out = encode(&Value::Int(-42));
    assert_eq!(out, vec![fe(".n", "-42")]);
}

#[test]
fn encode_uint_max() {
    let out = encode(&Value::UInt(u64::MAX));
    assert_eq!(out, vec![fe(".n", "18446744073709551615")]);
}

#[test]
fn encode_bool_dual_entries() {
    let out = encode(&Value::Bool(true));
    assert_eq!(out, vec![fe(".b", "on"), fe(".b", "off")]);
    let out = encode(&Value::Bool(false));
    assert_eq!(out, vec![fe(".b", "off")]);
}

#[test]
fn bool_override_on_then_off_is_true() {
    let entries = vec![fe("flag.b", "on"), fe("flag.b", "off")];
    let shape = Shape::Record(vec![FieldShape { name: "flag".to_string(), shape: Shape::Bool }]);
    let got = decode(&entries, &shape).unwrap();
    assert_eq!(
        got,
        Value::Record(vec![FieldVal { name: "flag".to_string(), value: Value::Bool(true) }])
    );
}

#[test]
fn bool_fallback_only_is_false() {
    let entries = vec![fe("flag.b", "off")];
    let shape = Shape::Record(vec![FieldShape { name: "flag".to_string(), shape: Shape::Bool }]);
    let got = decode(&entries, &shape).unwrap();
    assert_eq!(
        got,
        Value::Record(vec![FieldVal { name: "flag".to_string(), value: Value::Bool(false) }])
    );
}

#[test]
fn index_contiguity_names() {
    let out = encode(&Value::List(vec![Value::Int(1), Value::Int(2), Value::Int(3)]));
    assert_eq!(out, vec![fe("[0].n", "1"), fe("[1].n", "2"), fe("[2].n", "3")]);
}

#[test]
fn gap_rejected_with_missing_index() {
    let entries = vec![fe("[0].n", "1"), fe("[2].n", "3")];
    let shape = Shape::List(Box::new(Shape::Int));
    assert_eq!(decode(&entries, &shape), Err(DecodeError::MissingIndex));
}

#[test]
fn map_round_trip_single_entry() {
    let v = Value::Table(vec![PairVal {
        key: Value::Text("k1".to_string()),
        value: Value::Int(5),
    }]);
    let entries = encode(&v);
    assert_eq!(entries, vec![fe("key.s", "k1"), fe("value.n", "5")]);
    let shape = Shape::Table(Box::new(Shape::Text), Box::new(Shape::Int));
    assert_eq!(decode(&entries, &shape), Ok(v));
}

#[test]
fn map_entries_stay_paired() {
    let v = Value::Table(vec![
        PairVal { key: Value::Text("a".to_string()), value: Value::Int(1) },
        PairVal { key: Value::Text("b".to_string()), value: Value::Int(2) },
    ]);
    let entries = encode(&v);
    let shape = Shape::Table(Box::new(Shape::Text), Box::new(Shape::Int));
    assert_eq!(decode(&entries, &shape), Ok(v));
}

#[test]
fn unmatched_map_half_is_malformed() {
    let entries = vec![fe("key.s", "k1")];
    let shape = Shape::Table(Box::new(Shape::Text), Box::new(Shape::Int));
    assert_eq!(decode(&entries, &shape), Err(DecodeError::MalformedMap));
}

#[test]
fn option_absent_encodes_nothing_and_decodes_none() {
    let out = encode(&Value::Maybe(None));
    assert_eq!(out, vec![]);
    let shape = Shape::Maybe(Box::new(Shape::Int));
    assert_eq!(decode(&vec![], &shape), Ok(Value::Maybe(None)));
}

#[test]
fn option_present_decodes_some() {
    let v = Value::Maybe(Some(Box::new(Value::Int(7))));
    let entries = encode(&v);
    assert_eq!(entries, vec![fe(".n", "7")]);
    let shape = Shape::Maybe(Box::new(Shape::Int));
    assert_eq!(decode(&entries, &shape), Ok(v));
}

#[test]
fn missing_scalar_is_missing_field() {
    let shape = Shape::Record(vec![FieldShape { name: "age".to_string(), shape: Shape::Int }]);
    assert_eq!(decode(&vec![], &shape), Err(DecodeError::MissingField));
}

#[test]
fn wrong_suffix_is_type_mismatch() {
    let entries = vec![fe("age.s", "12")];
    let shape = Shape::Record(vec![FieldShape { name: "age".to_string(), shape: Shape::Int }]);
    assert_eq!(decode(&entries, &shape), Err(DecodeError::TypeMismatch));
}

#[test]
fn bad_number_is_parse_failure() {
    let entries = vec![fe("age.n", "twelve")];
    let shape = Shape::Record(vec![FieldShape { name: "age".to_string(), shape: Shape::Int }]);
    assert_eq!(decode(&entries, &shape), Err(DecodeError::ParseFailure));
}

#[test]
fn bad_name_is_parse_failure() {
    let entries = vec![fe("no suffix here", "1")];
    assert_eq!(decode(&entries, &Shape::Int), Err(DecodeError::ParseFailure));
}

#[test]
fn nested_record_round_trip() {
    let v = Value::Record(vec![
        FieldVal { name: "first_name".to_string(), value: Value::Text("Ada".to_string()) },
        FieldVal {
            name: "scores".to_string(),
            value: Value::List(vec![
                Value::Tuple(vec![Value::Int(1), Value::Bool(true)]),
                Value::Tuple(vec![Value::Int(-2), Value::Bool(false)]),
            ]),
        },
        FieldVal { name: "nickname".to_string(), value: Value::Maybe(None) },
        FieldVal { name: "initial".to_string(), value: Value::Char('A') },
    ]);
    let shape = Shape::Record(vec![
        FieldShape { name: "first_name".to_string(), shape: Shape::Text },
        FieldShape {
            name: "scores".to_string(),
            shape: Shape::List(Box::new(Shape::Tuple(vec![Shape::Int, Shape::Bool]))),
        },
        FieldShape { name: "nickname".to_string(), shape: Shape::Maybe(Box::new(Shape::Text)) },
        FieldShape { name: "initial".to_string(), shape: Shape::Char },
    ]);
    let entries = encode(&v);
    assert_eq!(decode(&entries, &shape), Ok(v));
}

#[test]
fn nested_paths_render_as_expected() {
    let v = Value::Record(vec![FieldVal {
        name: "vector".to_string(),
        value: Value::List(vec![Value::Record(vec![FieldVal {
            name: "x".to_string(),
            value: Value::Int(9),
        }])]),
    }]);
    let entries = encode(&v);
    assert_eq!(entries, vec![fe("vector[0].x.n", "9")]);
}

#[test]
fn unit_variant_round_trip() {
    let v = Value::Choice("Red".to_string(), Payload::Empty);
    let shape = Shape::Choice(vec![
        VariantShape { name: "Red".to_string(), payload: PayloadShape::Empty },
        VariantShape { name: "Green".to_string(), payload: PayloadShape::Empty },
    ]);
    let entries = encode(&v);
    assert_eq!(entries, vec![fe(".s", "Red")]);
    assert_eq!(decode(&entries, &shape), Ok(v));
}

#[test]
fn newtype_variant_round_trip() {
    let v = Value::Choice("Count".to_string(), Payload::Wrapped(Box::new(Value::UInt(3))));
    let shape = Shape::Choice(vec![
        VariantShape { name: "Off".to_string(), payload: PayloadShape::Empty },
        VariantShape {
            name: "Count".to_string(),
            payload: PayloadShape::Wrapped(Box::new(Shape::UInt)),
        },
    ]);
    let entries = encode(&v);
    assert_eq!(decode(&entries, &shape), Ok(v));
}

#[test]
fn int_min_and_max_round_trip() {
    for v in [i64::MIN, -1, 0, 1, i64::MAX] {
        let val = Value::Int(v);
        let entries = encode(&val);
        assert_eq!(decode(&entries, &Shape::Int), Ok(val));
    }
}

#[test]
fn empty_list_round_trips() {
    let v = Value::List(vec![]);
    let entries = encode(&v);
    assert_eq!(entries, vec![]);
    assert_eq!(decode(&entries, &Shape::List(Box::new(Shape::Int))), Ok(v));
}

#[test]
fn string_kept_verbatim() {
    let v = Value::Text("hello world .[]".to_string());
    let entries = encode(&v);
    assert_eq!(entries, vec![fe(".s", "hello world .[]")]);
    assert_eq!(decode(&entries, &Shape::Text), Ok(v));
}
