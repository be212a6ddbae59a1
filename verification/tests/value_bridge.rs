use baml_optimize::measure::Measure;
use baml_optimize::value_bridge::{
    bex_to_json_value, json_to_bex_value, BexExternalValue, BridgeError, JsonValue, ValueType,
};

fn measure(x: f64) -> Measure {
    Measure::from_bits(x.to_bits())
}

fn text(s: &str) -> JsonValue {
    JsonValue::Text(s.to_string())
}

fn pair(key: &str, value: JsonValue) -> (String, JsonValue) {
    (key.to_string(), value)
}

fn same(a: &JsonValue, b: &JsonValue) -> bool {
    format!("{a:?}") == format!("{b:?}")
}

#[test]
fn primitives_round_trip() {
    let samples: Vec<JsonValue> = vec![
        JsonValue::Null,
        JsonValue::Bool(true),
        JsonValue::PosInt(42),
        JsonValue::Float(measure(3.14_f64)),
        text("hello"),
    ];
    for s in samples {
        let bex = json_to_bex_value(&s);
        let back = bex_to_json_value(&bex).expect("round-trip");
        assert!(same(&back, &s), "round-trip should preserve {s:?}");
    }
}

#[test]
fn nested_object_round_trips() {
    let src = JsonValue::Object(vec![
        pair("name", text("Alice")),
        pair("age", JsonValue::PosInt(30)),
        pair("tags", JsonValue::Array(vec![text("admin"), text("qa")])),
        pair(
            "address",
            JsonValue::Object(vec![pair("city", text("SF")), pair("zip", JsonValue::PosInt(94107))]),
        ),
        pair("active", JsonValue::Bool(true)),
        pair("notes", JsonValue::Null),
    ]);
    let bex = json_to_bex_value(&src);
    let back = bex_to_json_value(&bex).expect("round-trip");
    assert!(same(&back, &src), "got {back:?}");
}

#[test]
fn instance_value_projects_to_object() {
    let inst = BexExternalValue::Instance {
        class_name: "Person".into(),
        fields: vec![
            ("name".to_string(), BexExternalValue::Text("Meg".into())),
            ("age".to_string(), BexExternalValue::Int(21)),
        ],
    };
    let json = bex_to_json_value(&inst).expect("instance to json");
    let want = JsonValue::Object(vec![pair("name", text("Meg")), pair("age", JsonValue::PosInt(21))]);
    assert!(same(&json, &want), "got {json:?}");
}

#[test]
fn union_unwraps_to_inner_value() {
    let union_value = BexExternalValue::Union { value: Box::new(BexExternalValue::Int(5)) };
    let json = bex_to_json_value(&union_value).expect("union to json");
    assert!(same(&json, &JsonValue::PosInt(5)));
}

#[test]
fn negative_integers_and_variants_have_a_json_form() {
    let json = bex_to_json_value(&BexExternalValue::Int(-3)).unwrap();
    assert!(same(&json, &JsonValue::NegInt(-3)));
    let variant = BexExternalValue::Variant { enum_name: "Mood".into(), variant_name: "Sad".into() };
    assert!(same(&bex_to_json_value(&variant).unwrap(), &text("Sad")));
}

#[test]
fn objects_lower_to_maps_of_unknown_values() {
    match json_to_bex_value(&JsonValue::Object(vec![pair("a", JsonValue::Null)])) {
        BexExternalValue::Mapping { key_type, value_type, entries } => {
            assert_eq!(key_type, ValueType::Text);
            assert_eq!(value_type, ValueType::Unknown);
            assert_eq!(entries.len(), 1);
            assert_eq!(entries[0].0, "a");
        },
        other => panic!("expected a map, got {other:?}"),
    }
    match json_to_bex_value(&JsonValue::Array(vec![])) {
        BexExternalValue::Array { element_type, items } => {
            assert_eq!(element_type, ValueType::Unknown);
            assert!(items.is_empty());
        },
        other => panic!("expected an array, got {other:?}"),
    }
}

#[test]
fn wide_integers_become_the_nearest_double() {
    let edges = [
        i64::MAX as u64 + 1,
        i64::MAX as u64 + 1024,
        i64::MAX as u64 + 1025,
        i64::MAX as u64 + 1026,
        i64::MAX as u64 + 3073,
        u64::MAX,
        u64::MAX - 1024,
        u64::MAX - 1023,
        12345678901234567890,
    ];
    for n in edges {
        match json_to_bex_value(&JsonValue::PosInt(n)) {
            BexExternalValue::Float(x) => assert_eq!(f64::from_bits(x.bits), n as f64, "{n}"),
            other => panic!("expected a float, got {other:?}"),
        }
    }
    match json_to_bex_value(&JsonValue::PosInt(i64::MAX as u64)) {
        BexExternalValue::Int(i) => assert_eq!(i, i64::MAX),
        other => panic!("expected an integer, got {other:?}"),
    }
}

#[test]
fn a_key_that_occurs_twice_keeps_its_place_and_takes_the_last_value() {
    let value = BexExternalValue::Mapping {
        key_type: ValueType::Text,
        value_type: ValueType::Declared,
        entries: vec![
            ("a".to_string(), BexExternalValue::Int(1)),
            ("b".to_string(), BexExternalValue::Int(2)),
            ("a".to_string(), BexExternalValue::Int(3)),
        ],
    };
    let want =
        JsonValue::Object(vec![pair("a", JsonValue::PosInt(3)), pair("b", JsonValue::PosInt(2))]);
    assert!(same(&bex_to_json_value(&value).unwrap(), &want));
}

#[test]
fn the_first_value_without_a_json_form_is_reported() {
    let value = BexExternalValue::Array {
        element_type: ValueType::Unknown,
        items: vec![
            BexExternalValue::Int(1),
            BexExternalValue::Instance {
                class_name: "C".into(),
                fields: vec![("f".to_string(), BexExternalValue::Opaque { kind: "image".into() })],
            },
            BexExternalValue::Float(measure(f64::NAN)),
        ],
    };
    let e = bex_to_json_value(&value).unwrap_err();
    assert!(matches!(e, BridgeError::NotJson { .. }));
    assert_eq!(e.message(), "cannot convert image to JSON");
    for (x, shown) in [(f64::NAN, "NaN"), (f64::INFINITY, "inf"), (f64::NEG_INFINITY, "-inf")] {
        let e = bex_to_json_value(&BexExternalValue::Float(measure(x))).unwrap_err();
        assert_eq!(e.message(), format!("non-finite float cannot be encoded as JSON: {shown}"));
    }
}

#[test]
fn converted_json_survives_the_way_back() {
    let value = BexExternalValue::Instance {
        class_name: "C".into(),
        fields: vec![
            ("a".to_string(), BexExternalValue::Int(i64::MIN)),
            ("b".to_string(), BexExternalValue::Variant { enum_name: "E".into(), variant_name: "V".into() }),
            ("a".to_string(), BexExternalValue::Float(measure(-0.5))),
        ],
    };
    let once = bex_to_json_value(&value).unwrap();
    let twice = bex_to_json_value(&json_to_bex_value(&once)).unwrap();
    assert!(same(&once, &twice));
}
