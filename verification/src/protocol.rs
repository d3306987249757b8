//! The per-connection protocol: what one handler decides.
//!
//! A connection carries exactly one request and one response.  Between
//! accepting and closing, a handler decodes the received buffer into an
//! envelope, refuses an empty key, encrypts the message under the key, and
//! answers with the raw ciphertext; each failure closes the connection
//! instead, and says why.  The decision is pure, so handlers for different
//! connections can run in any interleaving without affecting one another.

use crate::cipher::{
    decrypt_spec, encrypt_spec, lemma_round_trip, transform, CipherError, Direction,
};
use crate::envelope::{
    decode_envelope, encode_spec, lemma_codec_round_trip, parse_envelope, DecodeError,
    MAX_ENVELOPE_BYTES,
};
use vstd::prelude::*;

verus! {

/// Why a handler closed its connection without responding.
#[derive(Clone, Copy, Debug, PartialEq, Eq, Structural)]
pub enum HandlerError {
    /// The received buffer never became an envelope.
    Decode(DecodeError),
    /// The envelope carried an empty key.
    Cipher(CipherError),
}

/// Everything one handler decides for one connection: the response to send
/// back, or the exact reason the connection closes with none.
pub fn handle_request(request: &[u8]) -> (r: Result<Vec<u8>, HandlerError>)
    ensures
        r is Ok <==> parse_envelope(request@) is Some && parse_envelope(
            request@,
        )->Some_0.1.len() > 0,
        r is Ok ==> r->Ok_0@ == encrypt_spec(
            parse_envelope(request@)->Some_0.0,
            parse_envelope(request@)->Some_0.1,
        ),
        parse_envelope(request@) is None ==> r == Err::<Vec<u8>, HandlerError>(
            HandlerError::Decode(
                if request@.len() >= MAX_ENVELOPE_BYTES {
                    DecodeError::EnvelopeTooLarge
                } else {
                    DecodeError::MalformedEnvelope
                },
            ),
        ),
        parse_envelope(request@) is Some && parse_envelope(request@)->Some_0.1.len() == 0 ==> r
            == Err::<Vec<u8>, HandlerError>(HandlerError::Cipher(CipherError::EmptyKey)),
{
    match decode_envelope(request) {
        Err(e) => Err(HandlerError::Decode(e)),
        Ok(env) => match transform(
            env.message.as_slice(),
            env.key.as_slice(),
            Direction::Encrypt,
        ) {
            Err(ce) => Err(HandlerError::Cipher(ce)),
            Ok(ciphertext) => Ok(ciphertext),
        },
    }
}

/// The whole relay, end to end: a message and a non-empty key, encoded by
/// the client, come out of the wire form as themselves; encrypted by the
/// handler and decrypted by the client again, the message is itself.
pub proof fn lemma_relay_round_trip(m: Seq<u8>, k: Seq<u8>)
    requires
        k.len() > 0,
    ensures
        parse_envelope(encode_spec(m, k)) == Some((m, k)),
        decrypt_spec(encrypt_spec(m, k), k) == m,
{
    lemma_codec_round_trip(m, k);
    lemma_round_trip(m, k);
}

} // verus!
