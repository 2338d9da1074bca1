use minikv::serialization::{
    response_array, response_err, response_integer, response_nil, response_string,
    SerializationType,
};

#[test]
fn test_response_nil() {
    let mut out = Vec::new();
    response_nil(&mut out);
    assert_eq!(out, vec![0]);
}

#[test]
fn test_response_err() {
    let mut out = Vec::new();
    response_err(&mut out, 123, "Error message");
    assert_eq!(out.len(), 22);

    let expected = vec![
        SerializationType::Error.as_num(),
        0x7b,
        0x00,
        0x00,
        0x00,
        0x0d,
        0x00,
        0x00,
        0x00,
        b'E',
        b'r',
        b'r',
        b'o',
        b'r',
        b' ',
        b'm',
        b'e',
        b's',
        b's',
        b'a',
        b'g',
        b'e',
    ];
    assert_eq!(out, expected);
}

#[test]
fn test_response_integer() {
    let mut out = Vec::new();
    response_integer(&mut out, 123456789);
    assert_eq!(out.len(), 9);

    let expected = vec![
        SerializationType::Integer.as_num(),
        0x15,
        0xcd,
        0x5b,
        0x07,
        0x00,
        0x00,
        0x00,
        0x00,
    ];
    assert_eq!(out, expected);
}

#[test]
fn response_integer_negative() {
    let mut out = Vec::new();
    response_integer(&mut out, -1);
    assert_eq!(out, vec![2, 0xff, 0xff, 0xff, 0xff, 0xff, 0xff, 0xff, 0xff]);
}

#[test]
fn response_string_bytes() {
    let mut out = Vec::new();
    response_string(&mut out, b"32");
    assert_eq!(out, vec![3, 2, 0, 0, 0, b'3', b'2']);
}

#[test]
fn response_array_bytes() {
    let mut out = Vec::new();
    response_array(&mut out, 7);
    assert_eq!(out, vec![4, 7, 0, 0, 0]);
}

#[test]
fn serialization_is_canonical() {
    // equal values produce equal byte strings
    let mut a = Vec::new();
    let mut b = Vec::new();
    response_integer(&mut a, 42);
    response_integer(&mut b, 42);
    assert_eq!(a, b);
    let mut c = Vec::new();
    let mut d = Vec::new();
    response_string(&mut c, b"abc");
    response_string(&mut d, b"abc");
    assert_eq!(c, d);
    // and distinct values distinct byte strings
    let mut e = Vec::new();
    response_integer(&mut e, 43);
    assert_ne!(a, e);
}

#[test]
fn tag_names_and_numbers() {
    assert_eq!(SerializationType::Null.as_num(), 0);
    assert_eq!(SerializationType::Error.as_num(), 1);
    assert_eq!(SerializationType::Integer.as_num(), 2);
    assert_eq!(SerializationType::String.as_num(), 3);
    assert_eq!(SerializationType::Array.as_num(), 4);
    assert_eq!(SerializationType::Null.as_str(), "null");
    assert_eq!(SerializationType::Error.as_str(), "err");
    assert_eq!(SerializationType::Integer.as_str(), "integer");
    assert_eq!(SerializationType::String.as_str(), "string");
    assert_eq!(SerializationType::Array.as_str(), "array");
}
