use backup_inventory::codec::READ_DEPTH;
use backup_inventory::json::{decimal_numbers, Json};
use backup_inventory::text::{decimal_text, hex_text};
use serde_json::{Number, Value};

fn object(members: Vec<(&str, Value)>) -> Value {
    let mut map = serde_json::Map::new();
    for (key, value) in members {
        map.insert(key.to_string(), value);
    }
    Value::Object(map)
}

#[test]
fn large_inventory_counters_are_exact_decimal_strings() {
    let value = decimal_numbers(Json::from_value(object(vec![
        ("n", Value::from(u64::MAX)),
        ("nested", Value::Array(vec![Value::from(9007199254740993_u64)])),
    ])));
    assert_eq!(
        value.into_value(),
        object(vec![
            ("n", Value::from("18446744073709551615")),
            ("nested", Value::Array(vec![Value::from("9007199254740993")])),
        ])
    );
}

#[test]
fn every_number_becomes_text_and_nothing_else_changes() {
    let value = || {
        Json::Array(vec![
            Json::Null,
            Json::Bool(true),
            Json::text("7"),
            Json::Number(Number::from(-12)),
            Json::Number(Number::from_f64(1.5).unwrap()),
            Json::Object(vec![("k".to_string(), Json::unsigned(0))]),
        ])
    };
    let expected = Json::Array(vec![
        Json::Null,
        Json::Bool(true),
        Json::text("7"),
        Json::text("-12"),
        Json::text("1.5"),
        Json::Object(vec![("k".to_string(), Json::text("0"))]),
    ]);
    assert_eq!(decimal_numbers(value()), expected);
    assert_eq!(decimal_numbers(decimal_numbers(value())), expected);
}

#[test]
fn neighbouring_counters_stay_apart() {
    let text = |n: u64| decimal_numbers(Json::unsigned(n));
    assert_ne!(text(9007199254740992), text(9007199254740993));
    assert_eq!(text(9007199254740993), Json::text("9007199254740993"));
}

#[test]
fn integers_of_either_sign_become_exact_text() {
    for n in [0, 7, -1, -9007199254740993, i64::MIN, i64::MAX] {
        assert_eq!(Json::signed(n).into_text(), n.to_string());
        assert_eq!(decimal_numbers(Json::signed(n)), Json::text(&n.to_string()));
    }
    assert_eq!(
        decimal_numbers(Json::signed(i64::MIN)),
        Json::text("-9223372036854775808")
    );
    assert_eq!(Json::signed(12), Json::unsigned(12));
}

#[test]
fn what_is_written_reads_back() {
    let json = || {
        Json::Array(vec![
            Json::Null,
            Json::Bool(true),
            Json::unsigned(u64::MAX),
            Json::signed(i64::MIN),
            Json::signed(0),
            Json::text("line\n\"quoted\" \\ \u{1} \u{fc} \u{1f600}"),
            Json::Object(vec![
                ("".to_string(), Json::Array(Vec::new())),
                ("k\n".to_string(), Json::Object(Vec::new())),
            ]),
        ])
    };
    let text = json().into_fragments().concat();
    assert!(!text.contains(&b'\n'));
    assert!(!json().into_text().contains('\n'));
    assert_eq!(Json::read(&text), Some(json()));
    assert_eq!(Json::read(json().into_text().as_bytes()), Some(json()));
}

#[test]
fn reading_is_bounded_in_depth() {
    let nested = |depth: usize| {
        let mut json = Json::Null;
        for _ in 0..depth {
            json = Json::Array(vec![json]);
        }
        json
    };
    let read = |depth: usize| Json::read(nested(depth).into_text().as_bytes());
    assert_eq!(read(READ_DEPTH as usize), Some(nested(READ_DEPTH as usize)));
    assert_eq!(read(READ_DEPTH as usize + 1), None);
}

#[test]
fn an_object_cut_short_is_not_read() {
    let json = Json::Object(vec![
        ("float".to_string(), Json::Number(Number::from_f64(2.5e-7).unwrap())),
        ("inner".to_string(), Json::Object(vec![("n".to_string(), Json::signed(-12))])),
        ("list".to_string(), Json::Array(vec![Json::Null, Json::Bool(true)])),
        ("text".to_string(), Json::text("}\" \u{fc} \u{1f600}")),
    ]);
    let text = json.into_fragments().concat();
    for n in 0..text.len() {
        assert_eq!(Json::read(&text[..n]), None, "{n} bytes");
    }
    let whole = Json::read(&text);
    assert!(whole.is_some());
    assert_eq!(Json::read(&[text.as_slice(), b"\n"].concat()), whole);
}

#[test]
fn floats_leave_the_strings_around_them_alone() {
    for float in [0.1, 1.0, -1e300, f64::MAX, f64::MIN_POSITIVE, 123456789.12345679] {
        let json = Json::Object(vec![
            ("amount".to_string(), Json::Number(Number::from_f64(float).unwrap())),
            ("type".to_string(), Json::text("header")),
        ]);
        let Some(Json::Object(members)) = Json::read(json.into_text().as_bytes()) else {
            panic!("an object is read");
        };
        assert_eq!(members.len(), 2);
        assert_eq!(members[0].0, "amount");
        assert!(matches!(members[0].1, Json::Number(_)));
        assert_eq!(members[1], ("type".to_string(), Json::text("header")));
    }
}

#[test]
fn what_is_not_json_is_not_read() {
    assert_eq!(Json::read(b""), None);
    assert_eq!(Json::read(b"{\"key\":\"value\""), None);
    assert_eq!(Json::read(b"1 2"), None);
    assert_eq!(Json::read(b" [1] "), Some(Json::Array(vec![Json::unsigned(1)])));
}

#[test]
fn values_survive_the_way_through_serde_json() {
    let value = object(vec![
        ("z", Value::Null),
        ("a", Value::Array(vec![Value::Bool(false), Value::from("x"), Value::from(-3)])),
        ("m", object(vec![("inner", Value::from(2))])),
    ]);
    let json = Json::from_value(value.clone());
    assert_eq!(
        json,
        Json::Object(vec![
            (
                "a".to_string(),
                Json::Array(vec![
                    Json::Bool(false),
                    Json::text("x"),
                    Json::Number(Number::from(-3))
                ])
            ),
            (
                "m".to_string(),
                Json::Object(vec![("inner".to_string(), Json::unsigned(2))])
            ),
            ("z".to_string(), Json::Null),
        ])
    );
    assert_eq!(json.into_value(), value);
}

#[test]
fn the_later_of_two_members_with_one_key_counts() {
    let json = Json::Object(vec![
        ("k".to_string(), Json::unsigned(1)),
        ("k".to_string(), Json::unsigned(2)),
    ]);
    assert_eq!(json.into_value(), object(vec![("k", Value::from(2))]));
}

#[test]
fn text_and_fragments_are_the_same_bytes() {
    let json = || {
        Json::Object(vec![
            ("tab".to_string(), Json::text("a\tb")),
            ("list".to_string(), Json::Array(vec![Json::unsigned(12), Json::Null])),
        ])
    };
    let text = "{\"list\":[12,null],\"tab\":\"a\\tb\"}";
    assert_eq!(json().into_text(), text);
    assert_eq!(json().into_fragments().concat(), text.as_bytes());
    assert!(json().into_fragments().len() > 1);
}

#[test]
fn decimal_text_is_canonical() {
    for n in [
        0,
        9,
        10,
        -1,
        -10,
        u64::MAX as i128,
        i64::MIN as i128,
        i128::MAX,
        i128::MIN,
    ] {
        assert_eq!(decimal_text(n), n.to_string());
    }
}

#[test]
fn hex_text_spells_every_byte() {
    assert_eq!(hex_text(&[]), "");
    assert_eq!(hex_text(&[0x00, 0x0f, 0xa0, 0xff, 0x19]), "000fa0ff19");
}
