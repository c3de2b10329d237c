//! Fresh identifiers (random UUIDs) and the base64 text form of binary
//! attachments.

use vstd::prelude::*;

verus! {

#[verifier::external_type_specification]
#[verifier::external_body]
pub struct ExDecodeError(base64::DecodeError);

/// The character that the hyphenated lower-case form of a UUID has at
/// position `i` may be: `-` at 8, 13, 18 and 23, a lower-case hex digit
/// elsewhere.
pub open spec fn uuid_char_ok(i: int, c: char) -> bool {
    if i == 8 || i == 13 || i == 18 || i == 23 {
        c == '-'
    } else {
        ('0' <= c <= '9') || ('a' <= c <= 'f')
    }
}

/// A hyphenated lower-case UUID: 36 characters as `uuid_char_ok` allows.
pub open spec fn is_uuid_text(s: Seq<char>) -> bool {
    s.len() == 36 && forall|i: int| 0 <= i < 36 ==> uuid_char_ok(i, #[trigger] s[i])
}

/// A version-4 UUID in text: hyphenated lower case, the version digit `4`
/// at position 14 and one of `8 9 a b` (the RFC 4122 variant) at 19.
pub open spec fn is_uuid_v4_text(s: Seq<char>) -> bool {
    is_uuid_text(s) && s[14] == '4' && (s[19] == '8' || s[19] == '9' || s[19] == 'a' || s[19] == 'b')
}

/// Calls `ring::rand::SecureRandom::fill` on a `SystemRandom` for 16 bytes.
/// Nothing is claimed of the bytes or of whether the system generator
/// answers.
#[verifier::external_body]
fn random_uuid_bytes() -> (r: Result<[u8; 16], ring::error::Unspecified>) {
    let mut bytes = [0u8; 16];
    ring::rand::SecureRandom::fill(&ring::rand::SystemRandom::new(), &mut bytes)?;
    Ok(bytes)
}

/// A lower-case hexadecimal digit of a value below 16.
pub open spec fn hex_digit(n: int) -> char {
    if n < 10 {
        (48 + n) as char
    } else {
        (87 + n) as char
    }
}

/// Byte `i` of a version-4 UUID made of `bytes`: byte 6 with its high
/// nibble set to 4 (the version), byte 8 with its two high bits set to
/// `10` (the RFC 4122 variant), the others as they are.
pub open spec fn uuid_v4_byte(bytes: Seq<u8>, i: int) -> int {
    if i == 6 {
        bytes[6] as int % 16 + 64
    } else if i == 8 {
        bytes[8] as int % 64 + 128
    } else {
        bytes[i] as int
    }
}

/// Hex digit `j` (0 to 31) of that UUID, high nibble first.
pub open spec fn uuid_v4_nibble(bytes: Seq<u8>, j: int) -> char {
    let b = uuid_v4_byte(bytes, j / 2);
    if j % 2 == 0 {
        hex_digit(b / 16)
    } else {
        hex_digit(b % 16)
    }
}

/// The text of the UUID that `uuid::Builder::from_random_bytes` makes of
/// 16 bytes, as `to_string` writes it: the 32 hex digits in groups of 8,
/// 4, 4, 4 and 12, joined by `-`.
pub open spec fn uuid_v4_of(bytes: Seq<u8>) -> Seq<char> {
    Seq::new(
        36,
        |i: int|
            if i == 8 || i == 13 || i == 18 || i == 23 {
                '-'
            } else if i < 8 {
                uuid_v4_nibble(bytes, i)
            } else if i < 13 {
                uuid_v4_nibble(bytes, i - 1)
            } else if i < 18 {
                uuid_v4_nibble(bytes, i - 2)
            } else if i < 23 {
                uuid_v4_nibble(bytes, i - 3)
            } else {
                uuid_v4_nibble(bytes, i - 4)
            },
    )
}

/// The text of a version-4 UUID has that form.
proof fn lemma_uuid_v4_of(bytes: Seq<u8>)
    requires
        bytes.len() == 16,
    ensures
        is_uuid_v4_text(uuid_v4_of(bytes)),
{
    let t = uuid_v4_of(bytes);
    assert forall|i: int| 0 <= i < 36 implies uuid_char_ok(i, #[trigger] t[i]) by {
        let j = if i < 8 { i } else if i < 13 { i - 1 } else if i < 18 { i - 2 } else if i < 23 { i - 3 } else { i - 4 };
        if !(i == 8 || i == 13 || i == 18 || i == 23) {
            assert(0 <= j < 32);
            let b = uuid_v4_byte(bytes, j / 2);
            assert(0 <= b < 256);
            assert(t[i] == uuid_v4_nibble(bytes, j));
        }
    }
    assert(t[14] == hex_digit(uuid_v4_byte(bytes, 6) / 16));
    assert(t[19] == hex_digit(uuid_v4_byte(bytes, 8) / 16));
}

/// Calls `uuid::Builder::from_random_bytes(bytes).into_uuid()` and formats
/// it with `to_string`. Claimed: the text is `uuid_v4_of` of the bytes
/// (`with_version` and `with_variant` in the crate's `builder.rs`, then
/// `format_hyphenated` in `fmt.rs`).
#[verifier::external_body]
fn uuid_text_from(bytes: [u8; 16]) -> (r: String)
    ensures
        r@ == uuid_v4_of(bytes@),
{
    uuid::Builder::from_random_bytes(bytes).into_uuid().to_string()
}

/// A fresh random identifier: the version-4 UUID of 16 bytes from the
/// system generator; `None` when the generator gives none.
pub fn new_id() -> (r: Option<String>)
    ensures
        r matches Some(s) ==> is_uuid_v4_text(s@) && exists|b: Seq<u8>| b.len() == 16 && s@ == uuid_v4_of(b),
{
    match random_uuid_bytes() {
        Ok(b) => {
            let s = uuid_text_from(b);
            proof {
                lemma_uuid_v4_of(b@);
            }
            Some(s)
        },
        Err(_) => None,
    }
}

/// The standard base64 digit of a 6-bit value: `A-Z`, `a-z`, `0-9`, `+`,
/// `/`.
pub open spec fn base64_digit(v: int) -> char {
    if v < 26 {
        (65 + v) as char
    } else if v < 52 {
        (97 + v - 26) as char
    } else if v < 62 {
        (48 + v - 52) as char
    } else if v == 62 {
        '+'
    } else {
        '/'
    }
}

/// The standard base64 text of `bytes`, as
/// `base64::engine::general_purpose::STANDARD.encode` gives it: each group
/// of three bytes as four digits of six bits each, a last group of one or
/// two bytes padded with `=`.
pub open spec fn base64_text(bytes: Seq<u8>) -> Seq<char>
    decreases bytes.len(),
{
    if bytes.len() == 0 {
        Seq::empty()
    } else if bytes.len() == 1 {
        let x = bytes[0] as int;
        seq![base64_digit(x / 4), base64_digit((x % 4) * 16), '=', '=']
    } else if bytes.len() == 2 {
        let x = bytes[0] as int;
        let y = bytes[1] as int;
        seq![base64_digit(x / 4), base64_digit((x % 4) * 16 + y / 16), base64_digit((y % 16) * 4), '=']
    } else {
        let x = bytes[0] as int;
        let y = bytes[1] as int;
        let z = bytes[2] as int;
        seq![base64_digit(x / 4), base64_digit((x % 4) * 16 + y / 16), base64_digit((y % 16) * 4 + z / 64), base64_digit(z % 64)]
            + base64_text(bytes.subrange(3, bytes.len() as int))
    }
}

/// The bytes whose standard base64 text is `text`, if there are any (by
/// `lemma_base64_injective` there is at most one such byte string).
pub open spec fn base64_decoded(text: Seq<char>) -> Option<Seq<u8>> {
    if exists|b: Seq<u8>| #[trigger] base64_text(b) == text {
        Some(choose|b: Seq<u8>| #[trigger] base64_text(b) == text)
    } else {
        None
    }
}

/// The base64 text of `n` bytes has four characters for every started
/// group of three.
pub proof fn lemma_base64_len(bytes: Seq<u8>)
    ensures
        base64_text(bytes).len() == (bytes.len() + 2) / 3 * 4,
    decreases bytes.len(),
{
    if bytes.len() >= 3 {
        lemma_base64_len(bytes.subrange(3, bytes.len() as int));
    }
}

/// Three bytes are given back by their four six-bit digits.
proof fn lemma_group3(x1: u8, y1: u8, z1: u8, x2: u8, y2: u8, z2: u8)
    by (bit_vector)
    requires
        x1 / 4 == x2 / 4,
        (x1 % 4) * 16 + y1 / 16 == (x2 % 4) * 16 + y2 / 16,
        (y1 % 16) * 4 + z1 / 64 == (y2 % 16) * 4 + z2 / 64,
        z1 % 64 == z2 % 64,
    ensures
        x1 == x2 && y1 == y2 && z1 == z2,
{
}

/// Two bytes are given back by their three six-bit digits.
proof fn lemma_group2(x1: u8, y1: u8, x2: u8, y2: u8)
    by (bit_vector)
    requires
        x1 / 4 == x2 / 4,
        (x1 % 4) * 16 + y1 / 16 == (x2 % 4) * 16 + y2 / 16,
        (y1 % 16) * 4 == (y2 % 16) * 4,
    ensures
        x1 == x2 && y1 == y2,
{
}

/// One byte is given back by its two six-bit digits.
proof fn lemma_group1(x1: u8, x2: u8)
    by (bit_vector)
    requires
        x1 / 4 == x2 / 4,
        (x1 % 4) * 16 == (x2 % 4) * 16,
    ensures
        x1 == x2,
{
}

/// Different bytes have different base64 texts.
pub proof fn lemma_base64_injective(b1: Seq<u8>, b2: Seq<u8>)
    requires
        base64_text(b1) == base64_text(b2),
    ensures
        b1 == b2,
    decreases b1.len(),
{
    let t = base64_text(b1);
    lemma_base64_len(b1);
    lemma_base64_len(b2);
    if b1.len() == 0 || b2.len() == 0 {
        assert(b1 =~= b2);
    } else {
        let t2 = base64_text(b2);
        assert(t2 == t);
        if b1.len() == 1 {
            assert(t[2] == '=');
            if b2.len() >= 2 {
                assert(t2[2] != '=');
            }
            assert(b2.len() == 1);
            lemma_group1(b1[0], b2[0]);
            assert(b1 =~= b2);
        } else if b1.len() == 2 {
            assert(t[2] != '=' && t[3] == '=');
            if b2.len() >= 3 {
                assert(t2[3] != '=');
            }
            assert(b2.len() == 2);
            lemma_group2(b1[0], b1[1], b2[0], b2[1]);
            assert(b1 =~= b2);
        } else {
            assert(t[2] != '=' && t[3] != '=');
            assert(b2.len() >= 3);
            let (x1, y1, z1) = (b1[0] as int, b1[1] as int, b1[2] as int);
            let (x2, y2, z2) = (b2[0] as int, b2[1] as int, b2[2] as int);
            assert(t[0] == base64_digit(x1 / 4) && t2[0] == base64_digit(x2 / 4));
            assert(t[1] == base64_digit((x1 % 4) * 16 + y1 / 16) && t2[1] == base64_digit((x2 % 4) * 16 + y2 / 16));
            assert(t[2] == base64_digit((y1 % 16) * 4 + z1 / 64) && t2[2] == base64_digit((y2 % 16) * 4 + z2 / 64));
            assert(t[3] == base64_digit(z1 % 64) && t2[3] == base64_digit(z2 % 64));
            lemma_group3(b1[0], b1[1], b1[2], b2[0], b2[1], b2[2]);
            let r1 = b1.subrange(3, b1.len() as int);
            let r2 = b2.subrange(3, b2.len() as int);
            assert(base64_text(r1) =~= t.subrange(4, t.len() as int));
            assert(base64_text(r2) =~= t2.subrange(4, t2.len() as int));
            lemma_base64_injective(r1, r2);
            assert forall|i: int| 0 <= i < b1.len() implies b1[i] == b2[i] by {
                if i >= 3 {
                    assert(b1[i] == r1[i - 3]);
                    assert(b2[i] == r2[i - 3]);
                }
            }
            assert(b1 =~= b2);
        }
    }
}

/// Decoding the base64 text of some bytes gives those bytes back.
pub proof fn lemma_base64_round_trip(bytes: Seq<u8>)
    ensures
        base64_decoded(base64_text(bytes)) == Some(bytes),
{
    let t = base64_text(bytes);
    assert(exists|b: Seq<u8>| #[trigger] base64_text(b) == t);
    let c = choose|b: Seq<u8>| #[trigger] base64_text(b) == t;
    lemma_base64_injective(c, bytes);
}

/// Calls `STANDARD.encode`. Claimed: the result is `base64_text` of the
/// bytes (the engine's padded standard alphabet). Inputs so long that the
/// length of the text overflows `usize` (where the crate panics) are left
/// out.
#[verifier::external_body]
fn b64_encode(bytes: &[u8]) -> (r: String)
    requires
        bytes@.len() <= usize::MAX / 2,
    ensures
        r@ == base64_text(bytes@),
{
    base64::Engine::encode(&base64::engine::general_purpose::STANDARD, bytes)
}

/// Calls `STANDARD.decode`. Claimed: the engine (standard alphabet,
/// canonical padding required, trailing bits refused) accepts exactly the
/// UTF-8 bytes of the texts that `base64_text` gives, and gives back bytes
/// whose text the input is.
#[verifier::external_body]
fn b64_decode(text: &[u8]) -> (r: Result<Vec<u8>, base64::DecodeError>)
    ensures
        r matches Ok(v) ==> vstd::utf8::encode_utf8(base64_text(v@)) == text@,
        r is Err <==> !exists|b: Seq<u8>| #[trigger] vstd::utf8::encode_utf8(base64_text(b)) == text@,
{
    base64::Engine::decode(&base64::engine::general_purpose::STANDARD, text)
}

/// The base64 text of an attachment's bytes.
pub fn encode_attachment(bytes: &[u8]) -> (r: String)
    requires
        bytes@.len() <= usize::MAX / 2,
    ensures
        r@ == base64_text(bytes@),
{
    b64_encode(bytes)
}

/// The bytes of an attachment from their base64 text; `None` where the text
/// is not valid standard base64.
pub fn decode_attachment(text: &str) -> (r: Option<Vec<u8>>)
    ensures
        match base64_decoded(text@) {
            Some(b) => r matches Some(v) && v@ == b,
            None => r is None,
        },
{
    let raw = text.as_bytes();
    proof {
        broadcast use vstd::utf8::encode_utf8_decode_utf8;
    }
    match b64_decode(raw) {
        Ok(v) => {
            proof {
                assert(base64_text(v@) == text@) by {
                    broadcast use vstd::utf8::encode_utf8_decode_utf8;
                    assert(vstd::utf8::decode_utf8(vstd::utf8::encode_utf8(base64_text(v@))) == base64_text(v@));
                }
                assert(exists|b: Seq<u8>| #[trigger] base64_text(b) == text@);
                let c = choose|b: Seq<u8>| #[trigger] base64_text(b) == text@;
                lemma_base64_injective(c, v@);
            }
            Some(v)
        },
        Err(_) => {
            proof {
                if exists|b: Seq<u8>| #[trigger] base64_text(b) == text@ {
                    let c = choose|b: Seq<u8>| #[trigger] base64_text(b) == text@;
                    assert(vstd::utf8::encode_utf8(base64_text(c)) == raw@);
                }
            }
            None
        },
    }
}

} // verus!
