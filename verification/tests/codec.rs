use winebridge::codec::{decode, encode, Data, ValueType};
use winebridge::errors::{BridgeError, CodecError};

#[test]
fn dword_round_trip() {
    let v = Data::DWord(42);
    let bytes = encode(&v).unwrap();
    assert_eq!(bytes, vec![42, 0, 0, 0]);
    assert_eq!(decode(ValueType::DWord, bytes).unwrap(), v);
}

#[test]
fn qword_round_trip() {
    let v = Data::QWord(0x0102030405060708);
    let bytes = encode(&v).unwrap();
    assert_eq!(bytes, vec![8, 7, 6, 5, 4, 3, 2, 1]);
    assert_eq!(decode(ValueType::QWord, bytes).unwrap(), v);
}

#[test]
fn string_round_trip_keeps_non_ascii_text() {
    let v = Data::String(String::from("h\u{e9}llo \u{20ac}"));
    let bytes = encode(&v).unwrap();
    assert_eq!(bytes, "h\u{e9}llo \u{20ac}".as_bytes().to_vec());
    assert_eq!(decode(ValueType::String, bytes).unwrap(), v);
}

#[test]
fn expand_string_round_trip() {
    let v = Data::ExpandString(String::from("%PATH%;extra"));
    let bytes = encode(&v).unwrap();
    assert_eq!(decode(ValueType::ExpandString, bytes).unwrap(), v);
}

#[test]
fn multi_string_round_trip() {
    let v = Data::MultiString(vec![
        String::from("a"),
        String::from("b"),
        String::new(),
    ]);
    let bytes = encode(&v).unwrap();
    assert_eq!(bytes, b"a\0b\0".to_vec());
    assert_eq!(decode(ValueType::MultiString, bytes).unwrap(), v);
}

#[test]
fn bytes_round_trip() {
    let v = Data::Bytes(vec![0, 255, 7]);
    let bytes = encode(&v).unwrap();
    assert_eq!(bytes, vec![0, 255, 7]);
    assert_eq!(decode(ValueType::Bytes, bytes).unwrap(), v);
}

#[test]
fn dword_length_mismatch() {
    assert_eq!(
        decode(ValueType::DWord, vec![1, 2, 3]).unwrap_err(),
        CodecError::LengthMismatch
    );
    assert_eq!(
        decode(ValueType::DWord, vec![1, 2, 3, 4, 5]).unwrap_err(),
        CodecError::LengthMismatch
    );
    assert_eq!(
        decode(ValueType::DWord, Vec::new()).unwrap_err(),
        CodecError::LengthMismatch
    );
}

#[test]
fn qword_length_mismatch() {
    assert_eq!(
        decode(ValueType::QWord, vec![1, 2, 3, 4]).unwrap_err(),
        CodecError::LengthMismatch
    );
    assert_eq!(
        decode(ValueType::QWord, vec![0; 9]).unwrap_err(),
        CodecError::LengthMismatch
    );
}

#[test]
fn multi_string_split_keeps_trailing_empty_element() {
    let decoded = decode(ValueType::MultiString, b"a\0b\0".to_vec()).unwrap();
    assert_eq!(
        decoded,
        Data::MultiString(vec![String::from("a"), String::from("b"), String::new()])
    );
}

#[test]
fn multi_string_of_empty_buffer_is_one_empty_element() {
    let decoded = decode(ValueType::MultiString, Vec::new()).unwrap();
    assert_eq!(decoded, Data::MultiString(vec![String::new()]));
}

#[test]
fn malformed_text_is_rejected() {
    assert_eq!(
        decode(ValueType::String, vec![0xff, 0xfe]).unwrap_err(),
        CodecError::InvalidText
    );
    assert_eq!(
        decode(ValueType::ExpandString, vec![0xc3]).unwrap_err(),
        CodecError::InvalidText
    );
    assert_eq!(
        decode(ValueType::MultiString, vec![b'a', 0, 0xff]).unwrap_err(),
        CodecError::InvalidText
    );
}

#[test]
fn other_decodes_to_opaque_and_cannot_be_encoded() {
    assert_eq!(decode(ValueType::Other, vec![1, 2, 3]).unwrap(), Data::Other);
    assert_eq!(encode(&Data::Other).unwrap_err(), BridgeError::Rejected);
}

#[test]
fn utf8_boundary_is_exact() {
    let bytes = vec![0xe2, 0x82, 0xac];
    assert_eq!(
        decode(ValueType::String, bytes.clone()).unwrap(),
        Data::String(String::from("\u{20ac}"))
    );
    assert_eq!(
        encode(&Data::String(String::from("\u{20ac}"))).unwrap(),
        bytes
    );
}
