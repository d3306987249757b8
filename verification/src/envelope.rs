//! The wire codec: the request envelope and its byte encoding.
//!
//! A request travels as one self-describing, field-tagged text buffer,
//! `{"message":"...","encrypt_key":"..."}`.  Quotes, backslashes, newlines,
//! tabs and carriage returns inside a field are backslash-escaped; every
//! other byte stands for itself.  The receive buffer has a fixed capacity
//! ([`MAX_ENVELOPE_BYTES`]): encoding refuses a larger envelope, and a full
//! buffer that does not parse is reported as truncation.  The response needs
//! no envelope: it is the raw ciphertext.

use crate::cipher::CipherError;
use vstd::prelude::*;

verus! {

/// The fixed capacity of the receive buffer, and so the hard ceiling on the
/// size of an encoded envelope.
pub const MAX_ENVELOPE_BYTES: usize = 1024;

/// The byte value of `'"'`.
pub const QUOTE: u8 = 34;

/// The byte value of `'\'`.
pub const BACKSLASH: u8 = 92;

/// The byte value of `'}'`.
pub const RBRACE: u8 = 125;

/// The byte value of a newline.
pub const NEWLINE: u8 = 10;

/// The byte value of a horizontal tab.
pub const TAB: u8 = 9;

/// The byte value of a carriage return.
pub const CARRIAGE: u8 = 13;

/// The byte value of `'n'`, the escape code for a newline.
pub const CODE_N: u8 = 110;

/// The byte value of `'t'`, the escape code for a tab.
pub const CODE_T: u8 = 116;

/// The byte value of `'r'`, the escape code for a carriage return.
pub const CODE_R: u8 = 114;

/// Why a buffer failed to become an envelope.
#[derive(Clone, Copy, Debug, PartialEq, Eq, Structural)]
pub enum DecodeError {
    /// The buffer is not a well-formed envelope.
    MalformedEnvelope,
    /// The envelope does not fit the fixed receive buffer; a full buffer
    /// that does not parse was most likely cut short.
    EnvelopeTooLarge,
}

/// The request payload: a message and the non-empty key to encrypt it with.
pub struct Envelope {
    /// The plaintext to encrypt.
    pub message: Vec<u8>,
    /// The cipher key; an [`Envelope`] made through [`Envelope::new`] never
    /// carries an empty one.
    pub key: Vec<u8>,
}

impl Envelope {
    /// The envelope invariant: the key is non-empty.
    pub open spec fn wf(self) -> bool {
        self.key@.len() > 0
    }

    /// Builds an envelope, rejecting an empty key before anything is sent
    /// or transformed.
    pub fn new(message: Vec<u8>, key: Vec<u8>) -> (r: Result<Envelope, CipherError>)
        ensures
            r is Ok <==> key@.len() > 0,
            r is Ok ==> r->Ok_0.message@ == message@ && r->Ok_0.key@ == key@ && r->Ok_0.wf(),
            r is Err ==> r->Err_0 == CipherError::EmptyKey,
    {
        if key.len() == 0 {
            Err(CipherError::EmptyKey)
        } else {
            Ok(Envelope { message, key })
        }
    }
}

/// The bytes that stand for one field byte: the escaped pair, or the byte
/// itself.
pub open spec fn esc_byte(b: u8) -> Seq<u8> {
    if b == QUOTE {
        seq![BACKSLASH, QUOTE]
    } else if b == BACKSLASH {
        seq![BACKSLASH, BACKSLASH]
    } else if b == NEWLINE {
        seq![BACKSLASH, CODE_N]
    } else if b == TAB {
        seq![BACKSLASH, CODE_T]
    } else if b == CARRIAGE {
        seq![BACKSLASH, CODE_R]
    } else {
        seq![b]
    }
}

/// The field byte an escape code stands for, if it is a valid code.
pub open spec fn unesc_byte(e: u8) -> Option<u8> {
    if e == QUOTE {
        Some(QUOTE)
    } else if e == BACKSLASH {
        Some(BACKSLASH)
    } else if e == CODE_N {
        Some(NEWLINE)
    } else if e == CODE_T {
        Some(TAB)
    } else if e == CODE_R {
        Some(CARRIAGE)
    } else {
        None
    }
}

/// A whole field, escaped.
pub open spec fn esc(s: Seq<u8>) -> Seq<u8>
    decreases s.len(),
{
    if s.len() == 0 {
        Seq::empty()
    } else {
        esc_byte(s[0]) + esc(s.skip(1))
    }
}

/// The tag that opens the envelope and its first field: `{"message":"`.
pub open spec fn tag_message_spec() -> Seq<u8> {
    seq![123u8, 34u8, 109u8, 101u8, 115u8, 115u8, 97u8, 103u8, 101u8, 34u8, 58u8, 34u8]
}

/// The tag between the fields: `,"encrypt_key":"`.
pub open spec fn tag_key_spec() -> Seq<u8> {
    seq![
        44u8,
        34u8,
        101u8,
        110u8,
        99u8,
        114u8,
        121u8,
        112u8,
        116u8,
        95u8,
        107u8,
        101u8,
        121u8,
        34u8,
        58u8,
        34u8,
    ]
}

/// The one encoding of a message and a key: tags around the two escaped
/// fields, each field closed by its quote, the envelope by its brace.
pub open spec fn encode_spec(m: Seq<u8>, k: Seq<u8>) -> Seq<u8> {
    tag_message_spec() + esc(m) + seq![QUOTE] + tag_key_spec() + esc(k) + seq![QUOTE, RBRACE]
}

/// Reads one field from the front of `s` up to and including its closing
/// quote: the field's bytes and how many bytes of `s` they took, or `None`
/// where the field is unterminated or an escape code is unknown.
pub open spec fn parse_field(s: Seq<u8>) -> Option<(Seq<u8>, int)>
    decreases s.len(),
{
    if s.len() == 0 {
        None
    } else if s[0] == QUOTE {
        Some((Seq::empty(), 1))
    } else if s[0] == BACKSLASH {
        if s.len() >= 2 {
            match unesc_byte(s[1]) {
                Some(b) => match parse_field(s.skip(2)) {
                    Some(p) => Some((seq![b] + p.0, p.1 + 2)),
                    None => None,
                },
                None => None,
            }
        } else {
            None
        }
    } else {
        match parse_field(s.skip(1)) {
            Some(p) => Some((seq![s[0]] + p.0, p.1 + 1)),
            None => None,
        }
    }
}

/// What a byte buffer says, if it is a well-formed envelope: the message
/// and the key.  Exactly the buffers this returns `Some` for decode.
pub open spec fn parse_envelope(b: Seq<u8>) -> Option<(Seq<u8>, Seq<u8>)> {
    if b.len() >= 12 && b.take(12) == tag_message_spec() {
        match parse_field(b.skip(12)) {
            Some(p1) => {
                let rest = b.skip(12).skip(p1.1);
                if rest.len() >= 16 && rest.take(16) == tag_key_spec() {
                    match parse_field(rest.skip(16)) {
                        Some(p2) => if rest.skip(16).skip(p2.1) == seq![RBRACE] {
                            Some((p1.0, p2.0))
                        } else {
                            None
                        },
                        None => None,
                    }
                } else {
                    None
                }
            },
            None => None,
        }
    } else {
        None
    }
}

/// Escaping a text one byte longer appends that byte's escape.
proof fn lemma_esc_push(s: Seq<u8>, b: u8)
    ensures
        esc(s.push(b)) == esc(s) + esc_byte(b),
    decreases s.len(),
{
    if s.len() == 0 {
        assert(s.push(b) =~= seq![b]);
        assert(seq![b].skip(1) =~= Seq::<u8>::empty());
        assert(esc(Seq::<u8>::empty()) == Seq::<u8>::empty());
        assert(esc(seq![b]) == esc_byte(b) + esc(seq![b].skip(1)));
        assert(esc_byte(b) + Seq::<u8>::empty() =~= esc_byte(b));
        assert(esc(s) + esc_byte(b) =~= esc_byte(b));
    } else {
        assert(s.push(b).skip(1) =~= s.skip(1).push(b));
        lemma_esc_push(s.skip(1), b);
        assert(esc(s.push(b)) =~= esc(s) + esc_byte(b));
    }
}

/// Reading a field back out of its escaped form, up to a closing quote,
/// recovers the field: nothing is lost or invented on the way in.
proof fn lemma_parse_field_esc(s: Seq<u8>, rest: Seq<u8>)
    requires
        rest.len() > 0,
        rest[0] == QUOTE,
    ensures
        parse_field(esc(s) + rest) == Some((s, esc(s).len() as int + 1)),
    decreases s.len(),
{
    let t = esc(s) + rest;
    if s.len() == 0 {
        assert(esc(s) == Seq::<u8>::empty());
        assert(t =~= rest);
        assert(parse_field(t) == Some((Seq::<u8>::empty(), 1int)));
        assert(s =~= Seq::<u8>::empty());
    } else {
        let b = s[0];
        lemma_parse_field_esc(s.skip(1), rest);
        assert(seq![b] + s.skip(1) =~= s);
        if b == QUOTE || b == BACKSLASH || b == NEWLINE || b == TAB || b == CARRIAGE {
            assert(t[0] == BACKSLASH);
            assert(t.len() >= 2);
            assert(t[1] == esc_byte(b)[1]);
            assert(unesc_byte(esc_byte(b)[1]) == Some(b));
            assert(t.skip(2) =~= esc(s.skip(1)) + rest);
            assert(esc(s).len() == 2 + esc(s.skip(1)).len());
            assert(parse_field(t) == Some((s, esc(s).len() as int + 1)));
        } else {
            assert(t[0] == b);
            assert(b != QUOTE && b != BACKSLASH);
            assert(t.skip(1) =~= esc(s.skip(1)) + rest);
            assert(esc(s).len() == 1 + esc(s.skip(1)).len());
            assert(parse_field(t) == Some((s, esc(s).len() as int + 1)));
        }
    }
}

/// Codec round trip: every message and key come back out of their own
/// encoding, exactly.
pub proof fn lemma_codec_round_trip(m: Seq<u8>, k: Seq<u8>)
    ensures
        parse_envelope(encode_spec(m, k)) == Some((m, k)),
{
    let b = encode_spec(m, k);
    let tail1 = seq![QUOTE] + tag_key_spec() + esc(k) + seq![QUOTE, RBRACE];
    assert(b.take(12) =~= tag_message_spec());
    assert(b.skip(12) =~= esc(m) + tail1);
    assert(tail1[0] == QUOTE);
    lemma_parse_field_esc(m, tail1);
    let n1 = esc(m).len() + 1;
    let rest = b.skip(12).skip(n1 as int);
    assert(rest =~= tag_key_spec() + (esc(k) + seq![QUOTE, RBRACE]));
    assert(rest.take(16) =~= tag_key_spec());
    assert(rest.skip(16) =~= esc(k) + seq![QUOTE, RBRACE]);
    assert((seq![QUOTE, RBRACE])[0] == QUOTE);
    lemma_parse_field_esc(k, seq![QUOTE, RBRACE]);
    let n2 = esc(k).len() + 1;
    assert(rest.skip(16).skip(n2 as int) =~= seq![RBRACE]);
    assert(parse_envelope(b) == Some((m, k)));
}

/// The exec tag for [`tag_message_spec`].
fn tag_message() -> (r: Vec<u8>)
    ensures
        r@ == tag_message_spec(),
{
    let mut v: Vec<u8> = Vec::new();
    v.push(123);
    v.push(34);
    v.push(109);
    v.push(101);
    v.push(115);
    v.push(115);
    v.push(97);
    v.push(103);
    v.push(101);
    v.push(34);
    v.push(58);
    v.push(34);
    proof {
        assert(v@ =~= tag_message_spec());
    }
    v
}

/// The exec tag for [`tag_key_spec`].
fn tag_key() -> (r: Vec<u8>)
    ensures
        r@ == tag_key_spec(),
{
    let mut v: Vec<u8> = Vec::new();
    v.push(44);
    v.push(34);
    v.push(101);
    v.push(110);
    v.push(99);
    v.push(114);
    v.push(121);
    v.push(112);
    v.push(116);
    v.push(95);
    v.push(107);
    v.push(101);
    v.push(121);
    v.push(34);
    v.push(58);
    v.push(34);
    proof {
        assert(v@ =~= tag_key_spec());
    }
    v
}

/// Appends the escaped form of `data` to `out`.
fn push_escaped(out: &mut Vec<u8>, data: &[u8])
    ensures
        final(out)@ == old(out)@ + esc(data@),
{
    let mut i: usize = 0;
    while i < data.len()
        invariant
            i <= data@.len(),
            out@ == old(out)@ + esc(data@.take(i as int)),
        decreases data@.len() - i,
    {
        let b = data[i];
        proof {
            assert(data@.take(i as int + 1) =~= data@.take(i as int).push(b));
            lemma_esc_push(data@.take(i as int), b);
        }
        if b == QUOTE {
            out.push(BACKSLASH);
            out.push(QUOTE);
        } else if b == BACKSLASH {
            out.push(BACKSLASH);
            out.push(BACKSLASH);
        } else if b == NEWLINE {
            out.push(BACKSLASH);
            out.push(CODE_N);
        } else if b == TAB {
            out.push(BACKSLASH);
            out.push(CODE_T);
        } else if b == CARRIAGE {
            out.push(BACKSLASH);
            out.push(CODE_R);
        } else {
            out.push(b);
        }
        proof {
            assert(out@ =~= old(out)@ + esc(data@.take(i as int + 1)));
        }
        i = i + 1;
    }
    proof {
        assert(data@.take(data@.len() as int) =~= data@);
    }
}

/// Turns an envelope into its one wire form, refusing one that would not
/// fit the fixed receive buffer.
pub fn encode_envelope(e: &Envelope) -> (r: Result<Vec<u8>, DecodeError>)
    ensures
        r is Ok <==> encode_spec(e.message@, e.key@).len() <= MAX_ENVELOPE_BYTES,
        r is Ok ==> r->Ok_0@ == encode_spec(e.message@, e.key@),
        r is Err ==> r->Err_0 == DecodeError::EnvelopeTooLarge,
{
    let mut out = tag_message();
    push_escaped(&mut out, e.message.as_slice());
    out.push(QUOTE);
    let mut t = tag_key();
    out.append(&mut t);
    push_escaped(&mut out, e.key.as_slice());
    out.push(QUOTE);
    out.push(RBRACE);
    proof {
        assert(out@ =~= encode_spec(e.message@, e.key@));
    }
    if out.len() > MAX_ENVELOPE_BYTES {
        Err(DecodeError::EnvelopeTooLarge)
    } else {
        Ok(out)
    }
}

/// Whether `pat` stands letter for letter in `buf` at position `at`.
fn slice_matches_at(buf: &[u8], at: usize, pat: &[u8]) -> (r: bool)
    requires
        at <= buf@.len(),
    ensures
        r == (at + pat@.len() <= buf@.len() && buf@.subrange(
            at as int,
            at as int + pat@.len() as int,
        ) == pat@),
{
    if pat.len() > buf.len() - at {
        proof {
            assert(!(at + pat@.len() <= buf@.len()));
        }
        return false;
    }
    let n: usize = buf.len();
    let mut j: usize = 0;
    while j < pat.len()
        invariant
            n == buf@.len(),
            at + pat@.len() <= buf@.len(),
            j <= pat@.len(),
            forall|x: int| 0 <= x < j ==> buf@[at + x] == pat@[x],
        decreases pat@.len() - j,
    {
        if buf[at + j] != pat[j] {
            proof {
                if buf@.subrange(at as int, at as int + pat@.len() as int) == pat@ {
                    assert(buf@.subrange(at as int, at as int + pat@.len() as int)[j as int]
                        == pat@[j as int]);
                }
            }
            return false;
        }
        j = j + 1;
    }
    proof {
        assert(buf@.subrange(at as int, at as int + pat@.len() as int) =~= pat@);
    }
    true
}

/// Reads one field of `buf` from `start`, the exec twin of [`parse_field`]
/// on `buf` from that point on.
fn parse_field_at(buf: &[u8], start: usize) -> (r: Option<(Vec<u8>, usize)>)
    requires
        start <= buf@.len(),
    ensures
        r is Some <==> parse_field(buf@.skip(start as int)) is Some,
        r is Some ==> {
            let p = parse_field(buf@.skip(start as int))->Some_0;
            r->Some_0.0@ == p.0 && r->Some_0.1 as int == p.1 && start + r->Some_0.1 <= buf@.len()
        },
{
    let ghost s_start = buf@.skip(start as int);
    let mut pos: usize = start;
    let mut acc: Vec<u8> = Vec::new();
    loop
        invariant
            start <= pos <= buf@.len(),
            parse_field(s_start) is Some <==> parse_field(buf@.skip(pos as int)) is Some,
            parse_field(buf@.skip(pos as int)) is Some ==> {
                let p = parse_field(buf@.skip(pos as int))->Some_0;
                let q = parse_field(s_start)->Some_0;
                q.0 == acc@ + p.0 && q.1 == pos - start + p.1
            },
            s_start == buf@.skip(start as int),
        decreases buf@.len() - pos,
    {
        let ghost s_pos = buf@.skip(pos as int);
        if pos == buf.len() {
            proof {
                assert(s_pos.len() == 0);
            }
            return None;
        }
        let c = buf[pos];
        proof {
            assert(s_pos[0] == c);
        }
        if c == QUOTE {
            proof {
                assert(parse_field(s_pos) == Some((Seq::<u8>::empty(), 1int)));
                assert(acc@ + Seq::<u8>::empty() =~= acc@);
            }
            return Some((acc, pos + 1 - start));
        } else if c == BACKSLASH {
            if pos + 1 == buf.len() {
                proof {
                    assert(s_pos.len() == 1);
                    assert(parse_field(s_pos) is None);
                }
                return None;
            }
            let e = buf[pos + 1];
            proof {
                assert(s_pos.len() >= 2);
                assert(s_pos[1] == e);
                assert(s_pos.skip(2) =~= buf@.skip(pos as int + 2));
            }
            let u: u8 = if e == QUOTE {
                QUOTE
            } else if e == BACKSLASH {
                BACKSLASH
            } else if e == CODE_N {
                NEWLINE
            } else if e == CODE_T {
                TAB
            } else if e == CODE_R {
                CARRIAGE
            } else {
                proof {
                    assert(unesc_byte(e) is None);
                    assert(parse_field(s_pos) is None);
                }
                return None;
            };
            proof {
                assert(unesc_byte(e) == Some(u));
                if parse_field(buf@.skip(pos as int + 2)) is Some {
                    let p = parse_field(buf@.skip(pos as int + 2))->Some_0;
                    assert(parse_field(s_pos) == Some((seq![u] + p.0, p.1 + 2)));
                    assert(acc@ + (seq![u] + p.0) =~= acc@.push(u) + p.0);
                }
            }
            acc.push(u);
            pos = pos + 2;
        } else {
            proof {
                assert(s_pos.skip(1) =~= buf@.skip(pos as int + 1));
                if parse_field(buf@.skip(pos as int + 1)) is Some {
                    let p = parse_field(buf@.skip(pos as int + 1))->Some_0;
                    assert(parse_field(s_pos) == Some((seq![c] + p.0, p.1 + 1)));
                    assert(acc@ + (seq![c] + p.0) =~= acc@.push(c) + p.0);
                }
            }
            acc.push(c);
            pos = pos + 1;
        }
    }
}

/// Reads an envelope back out of a received buffer, saying exactly why a
/// buffer is refused: a full buffer that does not parse was cut short by
/// the receive window, any other unparseable buffer is malformed.
pub fn decode_envelope(buf: &[u8]) -> (r: Result<Envelope, DecodeError>)
    ensures
        r is Ok <==> parse_envelope(buf@) is Some,
        r is Ok ==> r->Ok_0.message@ == parse_envelope(buf@)->Some_0.0 && r->Ok_0.key@
            == parse_envelope(buf@)->Some_0.1,
        r is Err ==> r->Err_0 == (if buf@.len() >= MAX_ENVELOPE_BYTES {
            DecodeError::EnvelopeTooLarge
        } else {
            DecodeError::MalformedEnvelope
        }),
{
    let too_large = buf.len() >= MAX_ENVELOPE_BYTES;
    let refusal = if too_large {
        DecodeError::EnvelopeTooLarge
    } else {
        DecodeError::MalformedEnvelope
    };
    let open_tag = tag_message();
    if !slice_matches_at(buf, 0, open_tag.as_slice()) {
        proof {
            if buf@.len() >= 12 {
                assert(buf@.subrange(0, 12) =~= buf@.take(12));
            }
        }
        return Err(refusal);
    }
    proof {
        assert(buf@.subrange(0, 12) =~= buf@.take(12));
    }
    let message = match parse_field_at(buf, 12) {
        None => {
            return Err(refusal);
        },
        Some(p) => p,
    };
    let pos1 = 12 + message.1;
    proof {
        assert(buf@.skip(12).skip(message.1 as int) =~= buf@.skip(pos1 as int));
    }
    let key_tag = tag_key();
    if !slice_matches_at(buf, pos1, key_tag.as_slice()) {
        proof {
            if pos1 as int + 16 <= buf@.len() {
                assert(buf@.skip(pos1 as int).take(16) =~= buf@.subrange(
                    pos1 as int,
                    pos1 as int + 16,
                ));
            } else {
                assert(buf@.skip(pos1 as int).len() < 16);
            }
        }
        return Err(refusal);
    }
    proof {
        assert(buf@.skip(pos1 as int).take(16) =~= buf@.subrange(pos1 as int, pos1 as int + 16));
    }
    let key = match parse_field_at(buf, pos1 + 16) {
        None => {
            proof {
                assert(buf@.skip(pos1 as int).skip(16) =~= buf@.skip(pos1 as int + 16));
            }
            return Err(refusal);
        },
        Some(p) => p,
    };
    let pos2 = pos1 + 16 + key.1;
    proof {
        assert(buf@.skip(pos1 as int).skip(16) =~= buf@.skip(pos1 as int + 16));
        assert(buf@.skip(pos1 as int + 16).skip(key.1 as int) =~= buf@.skip(pos2 as int));
    }
    if buf.len() - pos2 == 1 && buf[pos2] == RBRACE {
        proof {
            assert(buf@.skip(pos2 as int) =~= seq![RBRACE]);
        }
        Ok(Envelope { message: message.0, key: key.0 })
    } else {
        proof {
            if buf@.skip(pos2 as int) == seq![RBRACE] {
                assert(buf@.skip(pos2 as int).len() == 1);
                assert(buf@.skip(pos2 as int)[0] == RBRACE);
                assert(buf@[pos2 as int] == RBRACE);
            }
        }
        Err(refusal)
    }
}

} // verus!
