//! The Vigenere cipher engine: pure, stateless transforms over bytes.
//!
//! Letters are shifted by the key byte at the current cursor position and
//! keep their case; every other byte passes through unchanged and does not
//! advance the cursor.  A key byte that is not a letter contributes a zero
//! shift but still occupies its cursor position.

use vstd::arithmetic::div_mod::{
    lemma_mod_add_multiples_vanish, lemma_mod_sub_multiples_vanish, lemma_small_mod,
};
use vstd::prelude::*;

verus! {

/// The byte value of `'A'`.
pub const UPPER_A: u8 = 65;

/// The byte value of `'Z'`.
pub const UPPER_Z: u8 = 90;

/// The byte value of `'a'`.
pub const LOWER_A: u8 = 97;

/// The byte value of `'z'`.
pub const LOWER_Z: u8 = 122;

/// Misuse of the cipher: the key may not be empty.
#[derive(Clone, Copy, Debug, PartialEq, Eq, Structural)]
pub enum CipherError {
    EmptyKey,
}

/// Which way the transform runs.
#[derive(Clone, Copy, Debug, PartialEq, Eq, Structural)]
pub enum Direction {
    Encrypt,
    Decrypt,
}

/// `b` is an ASCII upper-case letter.
pub open spec fn is_upper(b: u8) -> bool {
    UPPER_A <= b <= UPPER_Z
}

/// `b` is an ASCII lower-case letter.
pub open spec fn is_lower(b: u8) -> bool {
    LOWER_A <= b <= LOWER_Z
}

/// `b` is an ASCII letter.
pub open spec fn is_alpha(b: u8) -> bool {
    is_upper(b) || is_lower(b)
}

/// The shift amount one key byte contributes: its position in the alphabet,
/// or zero for a byte that is not a letter.
pub open spec fn shift_of(k: u8) -> int {
    if is_upper(k) {
        k - UPPER_A
    } else if is_lower(k) {
        k - LOWER_A
    } else {
        0
    }
}

/// One letter encrypted under one key byte, case preserved.
pub open spec fn enc_byte(c: u8, k: u8) -> u8
    recommends
        is_alpha(c),
{
    if is_upper(c) {
        (((c - UPPER_A + shift_of(k)) % 26) + UPPER_A) as u8
    } else {
        (((c - LOWER_A + shift_of(k)) % 26) + LOWER_A) as u8
    }
}

/// One letter decrypted under one key byte, case preserved.
pub open spec fn dec_byte(c: u8, k: u8) -> u8
    recommends
        is_alpha(c),
{
    if is_upper(c) {
        (((c - UPPER_A + 26 - shift_of(k)) % 26) + UPPER_A) as u8
    } else {
        (((c - LOWER_A + 26 - shift_of(k)) % 26) + LOWER_A) as u8
    }
}

/// One byte transformed in the given direction.
pub open spec fn transform_byte(c: u8, k: u8, d: Direction) -> u8
    recommends
        is_alpha(c),
{
    match d {
        Direction::Encrypt => enc_byte(c, k),
        Direction::Decrypt => dec_byte(c, k),
    }
}

/// How many of the first `i` bytes of `m` are letters: the value of the key
/// cursor when the transform reaches position `i`.
pub open spec fn alpha_count(m: Seq<u8>, i: int) -> int
    decreases i,
{
    if i <= 0 {
        0
    } else {
        alpha_count(m, i - 1) + if is_alpha(m[i - 1]) {
            1int
        } else {
            0int
        }
    }
}

/// The key byte selected at a cursor position: the key repeats.
pub open spec fn key_byte(k: Seq<u8>, cursor: int) -> u8
    recommends
        k.len() > 0,
        cursor >= 0,
{
    k[cursor % k.len() as int]
}

/// The whole transform: position `i` of the result is the letter `m[i]`
/// shifted by the key byte at cursor `alpha_count(m, i)`, or `m[i]` itself
/// if it is not a letter.
pub open spec fn transform_spec(m: Seq<u8>, k: Seq<u8>, d: Direction) -> Seq<u8>
    recommends
        k.len() > 0,
{
    Seq::new(
        m.len(),
        |i: int|
            if is_alpha(m[i]) {
                transform_byte(m[i], key_byte(k, alpha_count(m, i)), d)
            } else {
                m[i]
            },
    )
}

/// What encryption returns.
pub open spec fn encrypt_spec(m: Seq<u8>, k: Seq<u8>) -> Seq<u8>
    recommends
        k.len() > 0,
{
    transform_spec(m, k, Direction::Encrypt)
}

/// What decryption returns.
pub open spec fn decrypt_spec(m: Seq<u8>, k: Seq<u8>) -> Seq<u8>
    recommends
        k.len() > 0,
{
    transform_spec(m, k, Direction::Decrypt)
}

/// The cursor never runs backwards and counts at most one per byte.
pub proof fn lemma_alpha_count_bounds(m: Seq<u8>, i: int)
    requires
        0 <= i,
    ensures
        0 <= alpha_count(m, i) <= i,
    decreases i,
{
    if i > 0 {
        lemma_alpha_count_bounds(m, i - 1);
    }
}

/// How one transformed letter relates to the letter it came from: the case
/// is kept either way round, and the two directions undo each other.
proof fn lemma_byte_props(c: u8, k: u8)
    requires
        is_alpha(c),
    ensures
        is_upper(enc_byte(c, k)) == is_upper(c),
        is_lower(enc_byte(c, k)) == is_lower(c),
        is_upper(dec_byte(c, k)) == is_upper(c),
        is_lower(dec_byte(c, k)) == is_lower(c),
        dec_byte(enc_byte(c, k), k) == c,
        enc_byte(dec_byte(c, k), k) == c,
{
    let s = shift_of(k);
    let base: int = if is_upper(c) {
        UPPER_A as int
    } else {
        LOWER_A as int
    };
    let x = c - base;
    // The encrypted letter position: (x + s) % 26, written without the mod.
    if x + s < 26 {
        lemma_small_mod((x + s) as nat, 26);
    } else {
        lemma_mod_sub_multiples_vanish(x + s, 26);
        lemma_small_mod((x + s - 26) as nat, 26);
    }
    let e = if x + s < 26 {
        x + s
    } else {
        x + s - 26
    };
    assert((x + s) % 26 == e);
    // Decrypting it: (e + 26 - s) % 26 recovers x.
    lemma_mod_add_multiples_vanish(e - s, 26);
    if e - s >= 0 {
        lemma_small_mod((e - s) as nat, 26);
    } else {
        lemma_mod_add_multiples_vanish(e - s + 26 - 26, 26);
        lemma_small_mod((e - s + 26) as nat, 26);
    }
    assert((e + 26 - s) % 26 == x);
    // The decrypted letter position: (x + 26 - s) % 26, written without the mod.
    if x - s >= 0 {
        lemma_mod_add_multiples_vanish(x - s, 26);
        lemma_small_mod((x - s) as nat, 26);
    } else {
        lemma_small_mod((x + 26 - s) as nat, 26);
    }
    let d = if x - s >= 0 {
        x - s
    } else {
        x + 26 - s
    };
    assert((x + 26 - s) % 26 == d);
    // Encrypting it again: (d + s) % 26 recovers x.
    if d + s < 26 {
        lemma_small_mod((d + s) as nat, 26);
    } else {
        lemma_mod_sub_multiples_vanish(d + s, 26);
        lemma_small_mod((d + s - 26) as nat, 26);
    }
    assert((d + s) % 26 == x);
}

/// Transforming never turns a letter into a non-letter or back: the cursor
/// advances through a transformed text exactly as through the original.
proof fn lemma_alpha_count_transform(m: Seq<u8>, k: Seq<u8>, d: Direction, i: int)
    requires
        k.len() > 0,
        0 <= i <= m.len(),
    ensures
        alpha_count(transform_spec(m, k, d), i) == alpha_count(m, i),
    decreases i,
{
    if i > 0 {
        lemma_alpha_count_transform(m, k, d, i - 1);
        if is_alpha(m[i - 1]) {
            lemma_byte_props(m[i - 1], key_byte(k, alpha_count(m, i - 1)));
        }
    }
}

/// Round trip: decrypting an encrypted text with the same non-empty key
/// gives the text back, whatever bytes the text and the key hold.
pub proof fn lemma_round_trip(m: Seq<u8>, k: Seq<u8>)
    requires
        k.len() > 0,
    ensures
        decrypt_spec(encrypt_spec(m, k), k) == m,
{
    let e = encrypt_spec(m, k);
    assert forall|i: int| 0 <= i < m.len() implies decrypt_spec(e, k)[i] == m[i] by {
        lemma_alpha_count_transform(m, k, Direction::Encrypt, i);
        if is_alpha(m[i]) {
            lemma_byte_props(m[i], key_byte(k, alpha_count(m, i)));
        }
    }
    assert(decrypt_spec(e, k) =~= m);
}

/// Bytes that are not letters come through either transform unchanged, and
/// do not advance the key cursor.
pub proof fn lemma_non_alpha_passthrough(m: Seq<u8>, k: Seq<u8>, d: Direction, i: int)
    requires
        k.len() > 0,
        0 <= i < m.len(),
        !is_alpha(m[i]),
    ensures
        transform_spec(m, k, d)[i] == m[i],
        alpha_count(m, i + 1) == alpha_count(m, i),
{
}

/// Case preservation: a transformed letter keeps the case of the letter it
/// came from, whatever the case of the key byte.
pub proof fn lemma_case_preserved(m: Seq<u8>, k: Seq<u8>, d: Direction, i: int)
    requires
        k.len() > 0,
        0 <= i < m.len(),
        is_alpha(m[i]),
    ensures
        is_upper(transform_spec(m, k, d)[i]) == is_upper(m[i]),
        is_lower(transform_spec(m, k, d)[i]) == is_lower(m[i]),
{
    lemma_byte_props(m[i], key_byte(k, alpha_count(m, i)));
}

fn transform_inner(msg: &[u8], key: &[u8], d: Direction) -> (r: Vec<u8>)
    requires
        key@.len() > 0,
    ensures
        r@ == transform_spec(msg@, key@, d),
{
    let mut result: Vec<u8> = Vec::new();
    let mut key_index: usize = 0;
    let key_len: usize = key.len();
    let mut i: usize = 0;
    while i < msg.len()
        invariant
            key_len == key@.len(),
            key_len > 0,
            i <= msg@.len(),
            key_index == alpha_count(msg@, i as int),
            result@ == transform_spec(msg@, key@, d).take(i as int),
        decreases msg@.len() - i,
    {
        proof {
            lemma_alpha_count_bounds(msg@, i as int);
        }
        let c = msg[i];
        let is_up = UPPER_A <= c && c <= UPPER_Z;
        let is_low = LOWER_A <= c && c <= LOWER_Z;
        if !is_up && !is_low {
            result.push(c);
        } else {
            let key_char = key[key_index % key_len];
            let shift: u8 = if UPPER_A <= key_char && key_char <= UPPER_Z {
                key_char - UPPER_A
            } else if LOWER_A <= key_char && key_char <= LOWER_Z {
                key_char - LOWER_A
            } else {
                0
            };
            let base: u8 = if is_up {
                UPPER_A
            } else {
                LOWER_A
            };
            let t: u8 = match d {
                Direction::Encrypt => ((c - base + shift) % 26) + base,
                Direction::Decrypt => ((c - base + 26 - shift) % 26) + base,
            };
            result.push(t);
            key_index = key_index + 1;
        }
        proof {
            assert(result@ =~= transform_spec(msg@, key@, d).take(i as int + 1));
        }
        i = i + 1;
    }
    proof {
        assert(result@ =~= transform_spec(msg@, key@, d));
    }
    result
}

/// The cipher contract: an empty key is rejected before any transform is
/// attempted; otherwise the input is transformed in the given direction.
pub fn transform(input: &[u8], key: &[u8], direction: Direction) -> (r: Result<
    Vec<u8>,
    CipherError,
>)
    ensures
        r is Ok <==> key@.len() > 0,
        r is Ok ==> r->Ok_0@ == transform_spec(input@, key@, direction),
        r is Err ==> r->Err_0 == CipherError::EmptyKey,
{
    if key.len() == 0 {
        Err(CipherError::EmptyKey)
    } else {
        Ok(transform_inner(input, key, direction))
    }
}

/// Applies the Vigenere shift to every letter of `msg`, as the server does
/// to a decoded request.
pub fn encrypt_message(msg: &[u8], key: &[u8]) -> (r: Vec<u8>)
    requires
        key@.len() > 0,
    ensures
        r@ == encrypt_spec(msg@, key@),
{
    transform_inner(msg, key, Direction::Encrypt)
}

/// Reverses the Vigenere shift on every letter of `msg`, as the client does
/// to the server's response.
pub fn decrypt_message(msg: &[u8], key: &[u8]) -> (r: Vec<u8>)
    requires
        key@.len() > 0,
    ensures
        r@ == decrypt_spec(msg@, key@),
{
    transform_inner(msg, key, Direction::Decrypt)
}

} // verus!
