use bittorrent::decode::decode_bencoded_value;
use bittorrent::error::Error;
use bittorrent::json::{convert_bencode_to_json, Json};
use bittorrent::value::Bencoded;

fn convert(input: &[u8]) -> Result<Json, Error> {
    let (value, _) = decode_bencoded_value(input).unwrap();
    convert_bencode_to_json(&value)
}

#[test]
fn byte_string_becomes_text() {
    assert_eq!(convert(b"5:hello"), Ok(Json::String("hello".to_string())));
    assert_eq!(convert(b"0:"), Ok(Json::String(String::new())));
}

#[test]
fn byte_string_beyond_ascii_becomes_text() {
    let text = "na\u{ef}ve \u{1f600}";
    let value = Bencoded::String(text.as_bytes().to_vec());
    assert_eq!(convert_bencode_to_json(&value), Ok(Json::String(text.to_string())));
}

#[test]
fn integer_becomes_number() {
    assert_eq!(convert(b"i52e"), Ok(Json::Number(52)));
    assert_eq!(convert(b"i-52e"), Ok(Json::Number(-52)));
}

#[test]
fn list_becomes_array() {
    assert_eq!(
        convert(b"l5:helloi52ee"),
        Ok(Json::Array(vec![Json::String("hello".to_string()), Json::Number(52)]))
    );
    assert_eq!(convert(b"le"), Ok(Json::Array(vec![])));
}

#[test]
fn dictionary_becomes_object_in_key_order() {
    assert_eq!(
        convert(b"d5:helloi52e3:foo3:bare"),
        Ok(Json::Object(vec![
            ("foo".to_string(), Json::String("bar".to_string())),
            ("hello".to_string(), Json::Number(52)),
        ]))
    );
    assert_eq!(convert(b"de"), Ok(Json::Object(vec![])));
}

#[test]
fn nested_terms() {
    assert_eq!(
        convert(b"d1:al1:bd1:ci1eeee"),
        Ok(Json::Object(vec![(
            "a".to_string(),
            Json::Array(vec![
                Json::String("b".to_string()),
                Json::Object(vec![("c".to_string(), Json::Number(1))]),
            ]),
        )]))
    );
}

#[test]
fn byte_string_that_is_no_text_fails() {
    assert_eq!(convert_bencode_to_json(&Bencoded::String(vec![0xff])), Err(Error::SchemaError));
    assert_eq!(
        convert_bencode_to_json(&Bencoded::List(vec![
            Bencoded::Integer(1),
            Bencoded::String(vec![0xc3, 0x28]),
        ])),
        Err(Error::SchemaError)
    );
}

#[test]
fn key_or_value_that_is_no_text_fails() {
    assert_eq!(convert(&[b'd', b'1', b':', 0xff, b'i', b'1', b'e', b'e']), Err(Error::SchemaError));
    assert_eq!(convert(&[b'd', b'1', b':', b'k', b'1', b':', 0x80, b'e']), Err(Error::SchemaError));
}
