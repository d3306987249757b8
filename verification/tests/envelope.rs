use vigenere::envelope::{
    decode_envelope, encode_envelope, DecodeError, Envelope, MAX_ENVELOPE_BYTES,
};
use vigenere::cipher::CipherError;

fn envelope(message: &[u8], key: &[u8]) -> Envelope {
    Envelope { message: message.to_vec(), key: key.to_vec() }
}

#[test]
fn encode_is_the_tagged_text_form() {
    let wire = encode_envelope(&envelope(b"Attack at dawn", b"key")).unwrap();
    assert_eq!(wire, br#"{"message":"Attack at dawn","encrypt_key":"key"}"#.to_vec());
}

#[test]
fn encode_decode_round_trip() {
    let wire = encode_envelope(&envelope(b"Attack at dawn", b"key")).unwrap();
    let back = decode_envelope(&wire).unwrap();
    assert_eq!(back.message, b"Attack at dawn".to_vec());
    assert_eq!(back.key, b"key".to_vec());
}

#[test]
fn escapes_round_trip() {
    let message = b"a\"b\\c\nd\te\rf".to_vec();
    let key = b"\"\\".to_vec();
    let wire = encode_envelope(&envelope(&message, &key)).unwrap();
    let back = decode_envelope(&wire).unwrap();
    assert_eq!(back.message, message);
    assert_eq!(back.key, key);
}

#[test]
fn escaped_bytes_on_the_wire() {
    let wire = encode_envelope(&envelope(b"a\"b", b"c\\d")).unwrap();
    assert_eq!(wire, br#"{"message":"a\"b","encrypt_key":"c\\d"}"#.to_vec());
}

#[test]
fn wire_form_matches_the_json_of_the_fields() {
    let mut fields = serde_json::Map::new();
    fields.insert(
        "message".to_string(),
        serde_json::Value::String("Hello, World!".to_string()),
    );
    fields.insert(
        "encrypt_key".to_string(),
        serde_json::Value::String("key".to_string()),
    );
    let json = serde_json::Value::Object(fields).to_string();
    let wire = encode_envelope(&envelope(b"Hello, World!", b"key")).unwrap();
    assert_eq!(wire, json.into_bytes());
}

#[test]
fn json_produced_elsewhere_decodes() {
    let mut fields = serde_json::Map::new();
    fields.insert(
        "message".to_string(),
        serde_json::Value::String("line one\nline \"two\"".to_string()),
    );
    fields.insert(
        "encrypt_key".to_string(),
        serde_json::Value::String("k".to_string()),
    );
    let json = serde_json::Value::Object(fields).to_string();
    let back = decode_envelope(json.as_bytes()).unwrap();
    assert_eq!(back.message, b"line one\nline \"two\"".to_vec());
    assert_eq!(back.key, b"k".to_vec());
}

#[test]
fn malformed_buffers_are_refused() {
    assert!(matches!(decode_envelope(b"garbage"), Err(DecodeError::MalformedEnvelope)));
    assert!(matches!(decode_envelope(b""), Err(DecodeError::MalformedEnvelope)));
    // the wrong field tag
    assert!(matches!(
        decode_envelope(br#"{"msg":"a","encrypt_key":"k"}"#),
        Err(DecodeError::MalformedEnvelope)
    ));
    // an unterminated field
    assert!(matches!(
        decode_envelope(br#"{"message":"a"#),
        Err(DecodeError::MalformedEnvelope)
    ));
    // an unknown escape code
    assert!(matches!(
        decode_envelope(b"{\"message\":\"a\\x\",\"encrypt_key\":\"k\"}"),
        Err(DecodeError::MalformedEnvelope)
    ));
    // trailing bytes after the closing brace
    assert!(matches!(
        decode_envelope(br#"{"message":"a","encrypt_key":"k"} "#),
        Err(DecodeError::MalformedEnvelope)
    ));
}

#[test]
fn full_buffer_reported_as_truncation() {
    let buf = vec![b'a'; MAX_ENVELOPE_BYTES];
    assert!(matches!(decode_envelope(&buf), Err(DecodeError::EnvelopeTooLarge)));
}

#[test]
fn oversized_envelope_refused_at_encode() {
    // Fixed overhead is 31 bytes; with a one-byte key the largest message
    // without escapes is 992 bytes.
    let fits = envelope(&vec![b'a'; 992], b"k");
    let wire = encode_envelope(&fits).unwrap();
    assert_eq!(wire.len(), MAX_ENVELOPE_BYTES);
    assert!(matches!(decode_envelope(&wire), Ok(_)));

    let too_big = envelope(&vec![b'a'; 993], b"k");
    assert!(matches!(encode_envelope(&too_big), Err(DecodeError::EnvelopeTooLarge)));
}

#[test]
fn envelope_constructor_rejects_empty_key() {
    assert!(matches!(
        Envelope::new(b"hi".to_vec(), Vec::new()),
        Err(CipherError::EmptyKey)
    ));
    let e = Envelope::new(b"hi".to_vec(), b"k".to_vec()).unwrap();
    assert_eq!(e.message, b"hi".to_vec());
    assert_eq!(e.key, b"k".to_vec());
}
