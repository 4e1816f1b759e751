use hyperion::codec::{
    decode_path, decode_paths, decode_value, encode_path, encode_paths, encode_value, join_frames,
    split_frames,
};
use hyperion::number::Number;
use hyperion::path::{Path, PathSegment};
use hyperion::value::Value;
use std::str::FromStr;

fn p(text: &str) -> Path {
    Path::from_str(text).unwrap()
}

#[test]
fn frames_are_length_prefixed() {
    let contents = vec![vec![1u8, 2, 3], Vec::new(), vec![9u8]];
    let bytes = join_frames(&contents);
    assert_eq!(
        bytes,
        vec![3, 0, 0, 0, 0, 0, 0, 0, 1, 2, 3, 0, 0, 0, 0, 0, 0, 0, 0, 1, 0, 0, 0, 0, 0, 0, 0, 9]
    );
    assert_eq!(split_frames(&bytes), Some(contents));
    assert_eq!(split_frames(&Vec::new()), Some(Vec::new()));
    assert_eq!(split_frames(&vec![1, 0, 0]), None);
    assert_eq!(split_frames(&vec![2, 0, 0, 0, 0, 0, 0, 0, 1]), None);
    assert_eq!(split_frames(&vec![255, 255, 255, 255, 255, 255, 255, 255, 1]), None);
}

#[test]
fn path_bytes_round_trip() {
    let odd = Path::from_segments(vec![
        PathSegment::new("a:b"),
        PathSegment::named("*".to_string()),
        PathSegment::new("*"),
        PathSegment::new("**"),
        PathSegment::index(usize::MAX),
        PathSegment::new(""),
        PathSegment::new("é.€"),
    ]);
    for path in [p("users.u1.name"), p("a.[0].*.**"), Path::new(), odd] {
        let bytes = encode_path(&path);
        assert_eq!(decode_path(&bytes), Some(path));
    }
    assert_eq!(
        encode_path(&p("ab.[1]")),
        vec![
            3, 0, 0, 0, 0, 0, 0, 0, 0, b'a', b'b', 9, 0, 0, 0, 0, 0, 0, 0, 3, 1, 0, 0, 0, 0, 0, 0,
            0
        ]
    );
    assert_eq!(encode_path(&Path::new()), Vec::<u8>::new());
    assert_eq!(decode_path(&vec![1, 0, 0, 0, 0, 0, 0, 0, 7]), None);
    assert_eq!(decode_path(&vec![2, 0, 0, 0, 0, 0, 0, 0, 0, 0xff]), None);
    assert_eq!(decode_path(&vec![2, 0, 0, 0, 0, 0, 0, 0, 1, 1]), None);
}

#[test]
fn value_bytes_round_trip() {
    let values = vec![
        Value::Null,
        Value::Boolean(true),
        Value::Integer(-5),
        Value::Float(Number::parse("-12.5").unwrap()),
        Value::String("héllo".to_string()),
        Value::Binary(vec![1, 2], Some("a/b".to_string())),
        Value::Binary(vec![], None),
        Value::Reference(p("a.b")),
    ];
    for value in values {
        let bytes = encode_value(&value);
        assert_eq!(decode_value(&bytes), Some(value));
    }
    assert_eq!(encode_value(&Value::Null), vec![0]);
    assert_eq!(encode_value(&Value::Boolean(false)), vec![1, 0]);
    assert_eq!(encode_value(&Value::Integer(0)), vec![2, 0, 0, 0, 0, 0, 0, 0, 0x80]);
    assert_eq!(encode_value(&Value::Integer(-1)), vec![2, 255, 255, 255, 255, 255, 255, 255, 0x7f]);
    assert_eq!(encode_value(&Value::String("hi".to_string())), vec![4, b'h', b'i']);
    assert_eq!(decode_value(&Vec::new()), None);
    assert_eq!(decode_value(&vec![0, 0]), None);
    assert_eq!(decode_value(&vec![1, 2]), None);
    assert_eq!(decode_value(&vec![2, 0]), None);
    assert_eq!(decode_value(&vec![3, b'x']), None);
    assert_eq!(decode_value(&vec![4, 0xff]), None);
    assert_eq!(decode_value(&vec![9]), None);
}

#[test]
fn path_lists_round_trip() {
    let paths = vec![p("a.b"), Path::new(), p("c.[3]")];
    let bytes = encode_paths(&paths);
    assert_eq!(decode_paths(&bytes), Some(paths));
    assert_eq!(decode_paths(&Vec::new()), Some(Vec::new()));
    assert_eq!(decode_paths(&vec![1, 0, 0, 0, 0, 0, 0, 0, 5]), None);
}
