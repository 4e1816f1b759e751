use hyperion::number::{Number, Order};
use hyperion::path::Path;
use hyperion::value::Value;
use std::str::FromStr;

fn float(text: &str) -> Value {
    Value::Float(Number::parse(text).unwrap())
}

#[test]
fn test_value_types() {
    let null = Value::Null;
    let boolean = Value::Boolean(true);
    let integer = Value::Integer(42);
    let float = float("3.14");
    let string = Value::String("Hello".to_string());
    let binary = Value::Binary(vec![1, 2, 3], Some("image/jpeg".to_string()));
    let reference = Value::Reference(Path::from_str("users.u-123456").unwrap());

    assert!(null.is_null());
    assert!(boolean.is_boolean());
    assert!(integer.is_integer());
    assert!(float.is_float());
    assert!(integer.is_number());
    assert!(float.is_number());
    assert!(string.is_string());
    assert!(binary.is_binary());
    assert!(reference.is_reference());
}

#[test]
fn test_value_conversion() {
    let int_value: Value = 42.into();
    let bool_value: Value = true.into();
    let string_value: Value = "Hello".into();

    assert_eq!(int_value, Value::Integer(42));
    assert_eq!(bool_value, Value::Boolean(true));
    assert_eq!(string_value, Value::String("Hello".to_string()));
}

#[test]
fn test_value_display() {
    let null = Value::Null;
    let boolean = Value::Boolean(true);
    let integer = Value::Integer(42);
    let float = float("3.14");
    let string = Value::String("Hello".to_string());

    assert_eq!(null.to_string(), "null");
    assert_eq!(boolean.to_string(), "true");
    assert_eq!(integer.to_string(), "42");
    assert_eq!(float.to_string(), "3.14");
    assert_eq!(string.to_string(), "\"Hello\"");
}

#[test]
fn value_display_of_the_other_variants() {
    assert_eq!(Value::Boolean(false).to_string(), "false");
    assert_eq!(Value::Integer(-7).to_string(), "-7");
    assert_eq!(Value::Integer(0).to_string(), "0");
    assert_eq!(Value::Integer(i64::MIN).to_string(), "-9223372036854775808");
    assert_eq!(Value::Integer(i64::MAX).to_string(), "9223372036854775807");
    assert_eq!(Value::Binary(vec![1], None).to_string(), "[binary data]");
    assert_eq!(
        Value::Binary(vec![1], Some("image/png".to_string())).to_string(),
        "[binary data: image/png]"
    );
    assert_eq!(
        Value::Reference(Path::from_str("users.u1").unwrap()).to_string(),
        "@users.u1"
    );
    assert_eq!(float("-0.5").to_string(), "-0.5");
    assert_eq!(float("NaN").to_string(), "NaN");
    assert_eq!(float("inf").to_string(), "inf");
    assert_eq!(float("-inf").to_string(), "-inf");
}

#[test]
fn strings_are_quoted_with_escapes() {
    assert_eq!(Value::String("a\"b".to_string()).to_string(), "\"a\\\"b\"");
    assert_eq!(Value::String("a\\b".to_string()).to_string(), "\"a\\\\b\"");
    assert_eq!(Value::String("a\nb\tc\r".to_string()).to_string(), "\"a\\nb\\tc\\r\"");
    assert_eq!(Value::String("\u{1}\u{8}\u{c}\u{1f}".to_string()).to_string(), "\"\\u0001\\b\\f\\u001f\"");
    assert_eq!(Value::String("é€".to_string()).to_string(), "\"é€\"");
    assert_eq!(Value::String(String::new()).to_string(), "\"\"");
}

#[test]
fn kind_names() {
    assert_eq!(Value::Null.kind_name(), "null");
    assert_eq!(Value::Boolean(true).kind_name(), "boolean");
    assert_eq!(Value::Integer(1).kind_name(), "integer");
    assert_eq!(float("1.5").kind_name(), "float");
    assert_eq!(Value::String(String::new()).kind_name(), "string");
    assert_eq!(Value::Binary(vec![], None).kind_name(), "binary");
    assert_eq!(Value::Reference(Path::new()).kind_name(), "reference");
}

#[test]
fn value_equality() {
    assert!(Value::Null.same_as(&Value::Null));
    assert!(Value::Integer(3).same_as(&Value::Integer(3)));
    assert!(!Value::Integer(3).same_as(&Value::Integer(4)));
    assert!(!Value::Integer(3).same_as(&float("3")));
    assert!(float("3.10").same_as(&float("3.1")));
    assert!(float("-0").same_as(&float("0")));
    assert!(!float("NaN").same_as(&float("NaN")));
    assert!(Value::String("a".to_string()).same_as(&Value::String("a".to_string())));
    assert!(!Value::String("a".to_string()).same_as(&Value::String("b".to_string())));
    assert!(Value::Binary(vec![1, 2], None).same_as(&Value::Binary(vec![1, 2], None)));
    assert!(!Value::Binary(vec![1, 2], None).same_as(&Value::Binary(vec![1, 3], None)));
    assert!(!Value::Binary(vec![1], None).same_as(&Value::Binary(vec![1], Some("x".to_string()))));
    let a = Value::Reference(Path::from_str("a.b").unwrap());
    assert!(a.same_as(&a.clone()));
    assert!(!a.same_as(&Value::Reference(Path::from_str("a").unwrap())));
    assert!(!Value::Boolean(true).same_as(&Value::Null));
}

#[test]
fn number_notation() {
    for text in ["0", "42", "-42", "3.14", "-0.001", "100.100", "NaN", "inf", "-inf"] {
        assert_eq!(Number::parse(text).unwrap().text(), text);
    }
    for text in ["", "-", ".", "1.", ".5", "1e5", "+1", "1.2.3", "abc", " 1", "--1", "infinity"] {
        assert!(Number::parse(text).is_none(), "{}", text);
    }
    assert_eq!(Number::from_int(0).text(), "0");
    assert_eq!(Number::from_int(-15).text(), "-15");
    assert_eq!(Number::from_int(i64::MIN).text(), "-9223372036854775808");
    assert!(Number::nan().is_nan());
    assert!(!Number::infinity(true).is_nan());
    assert_eq!(Number::infinity(true).text(), "-inf");
}

fn order(a: &str, b: &str) -> Option<Order> {
    Number::parse(a).unwrap().order(&Number::parse(b).unwrap())
}

#[test]
fn number_order_follows_the_floats() {
    let samples: [f64; 16] = [
        0.0, -0.0, 1.0, -1.0, 0.1, 0.25, 3.14, -3.14, 10.0, 9.99, 100.5, 1e21, -1e21, 1e-7,
        f64::INFINITY, f64::NEG_INFINITY,
    ];
    for x in samples {
        for y in samples {
            let expected = if x < y {
                Order::Less
            } else if x > y {
                Order::Greater
            } else {
                Order::Equal
            };
            assert_eq!(order(&x.to_string(), &y.to_string()), Some(expected), "{} {}", x, y);
        }
    }
    assert_eq!(order("NaN", "1"), None);
    assert_eq!(order("1", "NaN"), None);
    assert_eq!(order("NaN", "NaN"), None);
}

#[test]
fn number_order_exact_cases() {
    assert_eq!(order("2", "10"), Some(Order::Less));
    assert_eq!(order("10", "2"), Some(Order::Greater));
    assert_eq!(order("007", "7.000"), Some(Order::Equal));
    assert_eq!(order("1.5", "1.25"), Some(Order::Greater));
    assert_eq!(order("-1.5", "-1.25"), Some(Order::Less));
    assert_eq!(order("-0.0", "0"), Some(Order::Equal));
    assert_eq!(order("-1", "1"), Some(Order::Less));
    assert_eq!(order("1", "-1"), Some(Order::Greater));
    assert_eq!(order("123456789012345678901234567890", "123456789012345678901234567891"), Some(Order::Less));
    assert_eq!(order("inf", "999999999999999999999999"), Some(Order::Greater));
    assert_eq!(order("-inf", "-999999999999999999999999"), Some(Order::Less));
    assert_eq!(order("inf", "inf"), Some(Order::Equal));
    assert_eq!(order("-inf", "inf"), Some(Order::Less));
    assert_eq!(
        Number::from_int(9007199254740993).order(&Number::parse("9007199254740992.5").unwrap()),
        Some(Order::Greater)
    );
}
