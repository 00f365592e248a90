use kv3::mapping::{int_to_text, map_kv3, map_value, Field, Kv3Error, MapError, Mapped, Schema, Shape};
use kv3::KV3Value;

fn req(name: &str, schema: Schema) -> Field {
    Field { name: name.to_string(), key: name.to_string(), required: true, schema }
}

fn int_any() -> Schema {
    Schema::Int { min: i64::MIN, max: i64::MAX }
}

#[test]
fn missing_required_field() {
    let schema = Schema::Record(vec![req("x", int_any())]);
    match map_kv3("{ y = 1 }", &schema) {
        Err(Kv3Error::Mapping(MapError::MissingField(k))) => assert_eq!(k, "x"),
        other => panic!("{:?}", other),
    }
}

#[test]
fn optional_field_may_be_absent() {
    let schema = Schema::Record(vec![
        Field { name: "x".to_string(), key: "x".to_string(), required: false, schema: int_any() },
        req("y", int_any()),
    ]);
    match map_kv3("{ y = 1 }", &schema) {
        Ok(Mapped::Record(fs)) => {
            assert_eq!(fs.len(), 1);
            assert_eq!(fs[0].0, "y");
        }
        other => panic!("{:?}", other),
    }
}

#[test]
fn renamed_key() {
    let schema = Schema::Record(vec![Field {
        name: "flags".to_string(),
        key: "m_nFlags".to_string(),
        required: true,
        schema: int_any(),
    }]);
    match map_kv3("{ m_nFlags = 7 extra = \"ignored\" }", &schema) {
        Ok(Mapped::Record(fs)) => {
            assert_eq!(fs[0].0, "flags");
            assert!(matches!(fs[0].1, Mapped::Int(7)));
        }
        other => panic!("{:?}", other),
    }
}

#[test]
fn type_mismatch() {
    match map_value(&KV3Value::Double("1.5".to_string()), &int_any()) {
        Err(MapError::TypeMismatch { expected, found }) => {
            assert_eq!(expected, Shape::Int);
            assert_eq!(found, Shape::Float);
        }
        other => panic!("{:?}", other),
    }
    match map_value(&KV3Value::Int(1), &Schema::Str) {
        Err(MapError::TypeMismatch { expected, found }) => {
            assert_eq!(expected, Shape::Str);
            assert_eq!(found, Shape::Int);
        }
        other => panic!("{:?}", other),
    }
}

#[test]
fn integer_out_of_range() {
    let schema = Schema::Int { min: 0, max: 255 };
    assert!(matches!(map_value(&KV3Value::Int(256), &schema), Err(MapError::OutOfRange(256))));
    assert!(matches!(map_value(&KV3Value::Int(255), &schema), Ok(Mapped::Int(255))));
}

#[test]
fn hex_array_as_integer_list() {
    let schema = Schema::List(Box::new(Schema::Int { min: 0, max: 255 }));
    match map_value(&KV3Value::HexArray(vec![255, 0]), &schema) {
        Ok(Mapped::List(items)) => {
            assert!(matches!(items[0], Mapped::Int(255)));
            assert!(matches!(items[1], Mapped::Int(0)));
        }
        other => panic!("{:?}", other),
    }
}

#[test]
fn float_accepts_integers() {
    match map_value(&KV3Value::Int(-120), &Schema::Float) {
        Ok(Mapped::Float(t)) => assert_eq!(t, "-120"),
        other => panic!("{:?}", other),
    }
    assert_eq!(int_to_text(0), "0");
    assert_eq!(int_to_text(i64::MIN), "-9223372036854775808");
    assert_eq!(int_to_text(1234567), "1234567");
}

#[test]
fn any_keeps_the_tree() {
    match map_value(&KV3Value::String("s".to_string()), &Schema::Any) {
        Ok(Mapped::Tree(KV3Value::String(t))) => assert_eq!(t, "s"),
        other => panic!("{:?}", other),
    }
}

#[test]
fn first_failing_element_wins() {
    let schema = Schema::List(Box::new(Schema::Bool));
    let v = KV3Value::Array(vec![KV3Value::Bool(true), KV3Value::Null, KV3Value::Int(1)]);
    match map_value(&v, &schema) {
        Err(MapError::TypeMismatch { found, .. }) => assert_eq!(found, Shape::Null),
        other => panic!("{:?}", other),
    }
}

#[test]
fn unit_and_strings() {
    assert!(matches!(map_value(&KV3Value::Null, &Schema::Unit), Ok(Mapped::Unit)));
    match map_value(&KV3Value::String("x".to_string()), &Schema::Str) {
        Ok(Mapped::Str(t)) => assert_eq!(t, "x"),
        other => panic!("{:?}", other),
    }
}

#[test]
fn parse_error_surfaces() {
    assert!(matches!(map_kv3("nope", &Schema::Any), Err(Kv3Error::Parse(_))));
}
