use vigenere::cipher::{decrypt_message, CipherError};
use vigenere::envelope::{encode_envelope, DecodeError, Envelope, MAX_ENVELOPE_BYTES};
use vigenere::protocol::{handle_request, HandlerError};

fn request(message: &[u8], key: &[u8]) -> Vec<u8> {
    let e = Envelope { message: message.to_vec(), key: key.to_vec() };
    encode_envelope(&e).unwrap()
}

#[test]
fn one_request_one_response() {
    // The relay end to end, minus the sockets: the client encodes, the
    // handler decodes and encrypts, the client decrypts its own answer.
    let wire = request(b"Attack at dawn", b"key");
    let response = handle_request(&wire).unwrap();
    let plaintext = decrypt_message(&response, b"key");
    assert_eq!(plaintext, b"Attack at dawn".to_vec());
}

#[test]
fn response_is_the_raw_ciphertext() {
    let wire = request(b"Hello, World!", b"key");
    let response = handle_request(&wire).unwrap();
    assert_eq!(response, b"Rijvs, Uyvjn!".to_vec());
}

#[test]
fn malformed_request_closes_with_decode_error() {
    assert!(matches!(
        handle_request(b"not an envelope"),
        Err(HandlerError::Decode(DecodeError::MalformedEnvelope))
    ));
}

#[test]
fn full_unparseable_request_reported_as_truncation() {
    let buf = vec![b'x'; MAX_ENVELOPE_BYTES];
    assert!(matches!(
        handle_request(&buf),
        Err(HandlerError::Decode(DecodeError::EnvelopeTooLarge))
    ));
}

#[test]
fn empty_key_closes_with_cipher_error() {
    let wire = request(b"Attack at dawn", b"");
    assert!(matches!(
        handle_request(&wire),
        Err(HandlerError::Cipher(CipherError::EmptyKey))
    ));
}

#[test]
fn ten_connections_with_distinct_keys_do_not_mix() {
    // Handlers share no state: served in any order, every client's answer
    // decrypts to its own message under its own key.
    let connections: Vec<(Vec<u8>, Vec<u8>)> = (0..10)
        .map(|i| {
            (
                format!("message number {} with its own text", i).into_bytes(),
                format!("Key{}", i).into_bytes(),
            )
        })
        .collect();
    let responses: Vec<Vec<u8>> = connections
        .iter()
        .map(|(m, k)| handle_request(&request(m, k)).unwrap())
        .collect();
    for (i, (m, k)) in connections.iter().enumerate() {
        assert_eq!(&decrypt_message(&responses[i], k), m);
    }
}
