//! Payload codec: the transport carries payloads as text in the URL-safe
//! base64 alphabet without padding. Decoding recovers the payload bytes,
//! which must themselves be UTF-8 text.

use vstd::prelude::*;

verus! {

/// Why a payload failed to decode.
#[derive(Clone, Copy, Debug, PartialEq, Eq, Structural)]
pub enum DecodeError {
    /// The input holds a byte outside the URL-safe alphabet, or has an
    /// impossible length, or non-zero trailing bits in its last group.
    InvalidEncoding,
    /// The input decodes to bytes that are not valid UTF-8 text.
    InvalidText,
}

/// Value of one alphabet byte: `A`..`Z` = 0..25, `a`..`z` = 26..51,
/// `0`..`9` = 52..61, `-` = 62, `_` = 63; -1 for any byte outside it.
pub open spec fn b64_value(b: u8) -> int {
    if 65 <= b && b <= 90 {
        b - 65
    } else if 97 <= b && b <= 122 {
        b - 97 + 26
    } else if 48 <= b && b <= 57 {
        b - 48 + 52
    } else if b == 45 {
        62
    } else if b == 95 {
        63
    } else {
        -1
    }
}

pub open spec fn is_b64_byte(b: u8) -> bool {
    b64_value(b) >= 0
}

/// Alphabet byte for a six-bit value.
pub open spec fn b64_digit(v: int) -> u8 {
    if 0 <= v && v < 26 {
        (65 + v) as u8
    } else if 26 <= v && v < 52 {
        (97 + v - 26) as u8
    } else if 52 <= v && v < 62 {
        (48 + v - 52) as u8
    } else if v == 62 {
        45
    } else {
        95
    }
}

/// Encoding of a byte sequence: three bytes become four alphabet bytes;
/// a final byte or pair becomes two or three alphabet bytes, no padding.
pub open spec fn encode_spec(s: Seq<u8>) -> Seq<u8>
    decreases s.len(),
{
    if s.len() == 0 {
        Seq::empty()
    } else if s.len() == 1 {
        seq![b64_digit(s[0] as int / 4), b64_digit((s[0] as int % 4) * 16)]
    } else if s.len() == 2 {
        seq![
            b64_digit(s[0] as int / 4),
            b64_digit((s[0] as int % 4) * 16 + s[1] as int / 16),
            b64_digit((s[1] as int % 16) * 4),
        ]
    } else {
        seq![
            b64_digit(s[0] as int / 4),
            b64_digit((s[0] as int % 4) * 16 + s[1] as int / 16),
            b64_digit((s[1] as int % 16) * 4 + s[2] as int / 64),
            b64_digit(s[2] as int % 64),
        ] + encode_spec(s.skip(3))
    }
}

/// Decoding of an encoded sequence; `None` when the input is not a valid
/// URL-safe-no-pad encoding: a foreign byte, a length leaving a single
/// trailing alphabet byte, or non-zero trailing bits in the last group.
pub open spec fn decode_spec(s: Seq<u8>) -> Option<Seq<u8>>
    decreases s.len(),
{
    if s.len() == 0 {
        Some(Seq::empty())
    } else if s.len() == 1 {
        None
    } else if s.len() == 2 {
        if is_b64_byte(s[0]) && is_b64_byte(s[1]) && b64_value(s[1]) % 16 == 0 {
            Some(seq![(b64_value(s[0]) * 4 + b64_value(s[1]) / 16) as u8])
        } else {
            None
        }
    } else if s.len() == 3 {
        if is_b64_byte(s[0]) && is_b64_byte(s[1]) && is_b64_byte(s[2]) && b64_value(s[2]) % 4
            == 0 {
            Some(
                seq![
                    (b64_value(s[0]) * 4 + b64_value(s[1]) / 16) as u8,
                    ((b64_value(s[1]) % 16) * 16 + b64_value(s[2]) / 4) as u8,
                ],
            )
        } else {
            None
        }
    } else {
        if is_b64_byte(s[0]) && is_b64_byte(s[1]) && is_b64_byte(s[2]) && is_b64_byte(s[3]) {
            match decode_spec(s.skip(4)) {
                Some(rest) => Some(
                    seq![
                        (b64_value(s[0]) * 4 + b64_value(s[1]) / 16) as u8,
                        ((b64_value(s[1]) % 16) * 16 + b64_value(s[2]) / 4) as u8,
                        ((b64_value(s[2]) % 4) * 64 + b64_value(s[3])) as u8,
                    ] + rest,
                ),
                None => None,
            }
        } else {
            None
        }
    }
}

/// Alphabet byte for a six-bit value.
fn digit_of(v: u8) -> (r: u8)
    requires
        v < 64,
    ensures
        r == b64_digit(v as int),
{
    if v < 26 {
        65 + v
    } else if v < 52 {
        97 + v - 26
    } else if v < 62 {
        48 + v - 52
    } else if v == 62 {
        45
    } else {
        95
    }
}

/// Value of one alphabet byte, `None` outside the alphabet.
fn value_of(b: u8) -> (r: Option<u8>)
    ensures
        match r {
            Some(v) => b64_value(b) == v as int && v < 64,
            None => !is_b64_byte(b),
        },
{
    if 65 <= b && b <= 90 {
        Some(b - 65)
    } else if 97 <= b && b <= 122 {
        Some(b - 97 + 26)
    } else if 48 <= b && b <= 57 {
        Some(b - 48 + 52)
    } else if b == 45 {
        Some(62)
    } else if b == 95 {
        Some(63)
    } else {
        None
    }
}

/// Encodes bytes into the URL-safe-no-pad alphabet.
pub fn b64_encode(data: &Vec<u8>) -> (r: Vec<u8>)
    ensures
        r@ == encode_spec(data@),
{
    let mut out: Vec<u8> = Vec::new();
    let mut i: usize = 0;
    proof {
        assert(data@.skip(0) =~= data@);
        assert(Seq::<u8>::empty() + encode_spec(data@) =~= encode_spec(data@));
    }
    while data.len() - i >= 3
        invariant
            i <= data.len(),
            encode_spec(data@) == out@ + encode_spec(data@.skip(i as int)),
        decreases data.len() - i,
    {
        let ghost pre = out@;
        let b0 = data[i];
        let b1 = data[i + 1];
        let b2 = data[i + 2];
        out.push(digit_of(b0 / 4));
        out.push(digit_of((b0 % 4) * 16 + b1 / 16));
        out.push(digit_of((b1 % 16) * 4 + b2 / 64));
        out.push(digit_of(b2 % 64));
        proof {
            let t = data@.skip(i as int);
            assert(t[0] == b0 && t[1] == b1 && t[2] == b2);
            assert(t.skip(3) =~= data@.skip(i + 3));
            assert(out@ =~= pre + seq![
                b64_digit(b0 as int / 4),
                b64_digit((b0 as int % 4) * 16 + b1 as int / 16),
                b64_digit((b1 as int % 16) * 4 + b2 as int / 64),
                b64_digit(b2 as int % 64),
            ]);
            assert(encode_spec(data@) =~= out@ + encode_spec(data@.skip(i + 3)));
        }
        i = i + 3;
    }
    let ghost pre = out@;
    let ghost t = data@.skip(i as int);
    if data.len() - i == 1 {
        let b0 = data[i];
        out.push(digit_of(b0 / 4));
        out.push(digit_of((b0 % 4) * 16));
        proof {
            assert(t[0] == b0);
            assert(encode_spec(t) =~= seq![b64_digit(b0 as int / 4), b64_digit((b0 as int % 4) * 16)]);
            assert(out@ =~= pre + encode_spec(t));
        }
    } else if data.len() - i == 2 {
        let b0 = data[i];
        let b1 = data[i + 1];
        out.push(digit_of(b0 / 4));
        out.push(digit_of((b0 % 4) * 16 + b1 / 16));
        out.push(digit_of((b1 % 16) * 4));
        proof {
            assert(t[0] == b0 && t[1] == b1);
            assert(encode_spec(t) =~= seq![
                b64_digit(b0 as int / 4),
                b64_digit((b0 as int % 4) * 16 + b1 as int / 16),
                b64_digit((b1 as int % 16) * 4),
            ]);
            assert(out@ =~= pre + encode_spec(t));
        }
    } else {
        proof {
            assert(t =~= Seq::<u8>::empty());
            assert(encode_spec(t) =~= Seq::<u8>::empty());
            assert(out@ =~= pre + encode_spec(t));
        }
    }
    out
}

/// The decode so far decomposes: what the whole input decodes to is
/// what is already decoded followed by what the remaining input decodes
/// to, and the whole fails exactly when the remainder fails.
spec fn decode_decomposes(whole: Option<Seq<u8>>, done: Seq<u8>, rest: Option<Seq<u8>>) -> bool {
    match rest {
        Some(r) => whole == Some(done + r),
        None => whole is None,
    }
}

/// Decodes a URL-safe-no-pad encoded sequence, `None` on any encoding
/// violation.
pub fn b64_decode(data: &Vec<u8>) -> (r: Option<Vec<u8>>)
    ensures
        match r {
            Some(v) => decode_spec(data@) == Some(v@),
            None => decode_spec(data@) is None,
        },
{
    let mut out: Vec<u8> = Vec::new();
    let mut i: usize = 0;
    proof {
        assert(data@.skip(0) =~= data@);
        if decode_spec(data@) is Some {
            assert(Seq::<u8>::empty() + decode_spec(data@).unwrap() =~= decode_spec(data@).unwrap());
        }
    }
    while data.len() - i >= 4
        invariant
            i <= data.len(),
            decode_decomposes(decode_spec(data@), out@, decode_spec(data@.skip(i as int))),
        decreases data.len() - i,
    {
        let ghost t = data@.skip(i as int);
        let ghost pre = out@;
        proof {
            assert(t.len() >= 4);
            assert(t[0] == data@[i as int] && t[1] == data@[i + 1] && t[2] == data@[i + 2] && t[3]
                == data@[i + 3]);
            assert(t.skip(4) =~= data@.skip(i + 4));
        }
        let v0 = match value_of(data[i]) {
            Some(v) => v,
            None => {
                return None;
            },
        };
        let v1 = match value_of(data[i + 1]) {
            Some(v) => v,
            None => {
                return None;
            },
        };
        let v2 = match value_of(data[i + 2]) {
            Some(v) => v,
            None => {
                return None;
            },
        };
        let v3 = match value_of(data[i + 3]) {
            Some(v) => v,
            None => {
                return None;
            },
        };
        let b0 = v0 * 4 + v1 / 16;
        let b1 = (v1 % 16) * 16 + v2 / 4;
        let b2 = (v2 % 4) * 64 + v3;
        out.push(b0);
        out.push(b1);
        out.push(b2);
        proof {
            assert(out@ =~= pre + seq![b0, b1, b2]);
            match decode_spec(data@.skip(i + 4)) {
                Some(rest) => {
                    assert(decode_spec(t) == Some(seq![b0, b1, b2] + rest));
                    assert(pre + (seq![b0, b1, b2] + rest) =~= out@ + rest);
                },
                None => {
                    assert(decode_spec(t) is None);
                },
            }
        }
        i = i + 4;
    }
    let ghost t = data@.skip(i as int);
    let ghost pre = out@;
    let rem = data.len() - i;
    if rem == 0 {
        proof {
            assert(t =~= Seq::<u8>::empty());
            assert(out@ + Seq::<u8>::empty() =~= out@);
        }
        Some(out)
    } else if rem == 1 {
        proof {
            assert(decode_spec(t) is None);
        }
        None
    } else {
        proof {
            assert(t[0] == data@[i as int] && t[1] == data@[i + 1]);
            if rem == 3 {
                assert(t[2] == data@[i + 2]);
            }
        }
        let v0 = match value_of(data[i]) {
            Some(v) => v,
            None => {
                return None;
            },
        };
        let v1 = match value_of(data[i + 1]) {
            Some(v) => v,
            None => {
                return None;
            },
        };
        if rem == 2 {
            if v1 % 16 != 0 {
                return None;
            }
            out.push(v0 * 4 + v1 / 16);
            proof {
                assert(decode_spec(t) == Some(seq![(b64_value(t[0]) * 4 + b64_value(t[1]) / 16) as u8]));
                assert(out@ =~= pre + seq![(b64_value(t[0]) * 4 + b64_value(t[1]) / 16) as u8]);
            }
            Some(out)
        } else {
            let v2 = match value_of(data[i + 2]) {
                Some(v) => v,
                None => {
                    return None;
                },
            };
            if v2 % 4 != 0 {
                return None;
            }
            out.push(v0 * 4 + v1 / 16);
            out.push((v1 % 16) * 16 + v2 / 4);
            proof {
                assert(decode_spec(t) == Some(seq![
                    (b64_value(t[0]) * 4 + b64_value(t[1]) / 16) as u8,
                    ((b64_value(t[1]) % 16) * 16 + b64_value(t[2]) / 4) as u8,
                ]));
                assert(out@ =~= pre + seq![
                    (b64_value(t[0]) * 4 + b64_value(t[1]) / 16) as u8,
                    ((b64_value(t[1]) % 16) * 16 + b64_value(t[2]) / 4) as u8,
                ]);
            }
            Some(out)
        }
    }
}

/// Relies on core::str::from_utf8: it accepts a byte slice exactly when
/// the slice is valid UTF-8, which vstd's `valid_utf8` spells out.
#[verifier::external_body]
fn utf8_check(bytes: &[u8]) -> (r: bool)
    ensures
        r == vstd::utf8::valid_utf8(bytes@),
{
    core::str::from_utf8(bytes).is_ok()
}

/// Decodes a raw transport payload. An empty input is a message without
/// a payload: `Ok(None)`, not an error. Anything else must be a valid
/// URL-safe-no-pad encoding of UTF-8 text; the two ways it can fail are
/// told apart in the error.
pub fn unwrap_data(data: &Vec<u8>) -> (r: Result<Option<Vec<u8>>, DecodeError>)
    ensures
        match r {
            Ok(None) => data@.len() == 0,
            Ok(Some(m)) => data@.len() > 0 && decode_spec(data@) == Some(m@)
                && vstd::utf8::valid_utf8(m@),
            Err(DecodeError::InvalidEncoding) => data@.len() > 0 && decode_spec(data@) is None,
            Err(DecodeError::InvalidText) => data@.len() > 0 && (decode_spec(
                data@,
            ) matches Some(m) && !vstd::utf8::valid_utf8(m)),
        },
{
    if data.len() == 0 {
        return Ok(None);
    }
    match b64_decode(data) {
        None => Err(DecodeError::InvalidEncoding),
        Some(m) => {
            if utf8_check(m.as_slice()) {
                Ok(Some(m))
            } else {
                Err(DecodeError::InvalidText)
            }
        },
    }
}

/// An alphabet byte carries back its six-bit value.
proof fn lemma_digit_value(v: int)
    requires
        0 <= v < 64,
    ensures
        is_b64_byte(b64_digit(v)),
        b64_value(b64_digit(v)) == v,
{
}

/// Round trip: decoding an encoding gives back what was encoded, for
/// every byte sequence.
pub proof fn lemma_decode_encode(s: Seq<u8>)
    ensures
        decode_spec(encode_spec(s)) == Some(s),
    decreases s.len(),
{
    let e = encode_spec(s);
    if s.len() == 0 {
        assert(e =~= Seq::<u8>::empty());
        assert(s =~= Seq::<u8>::empty());
    } else if s.len() == 1 {
        let c0 = s[0] as int;
        lemma_digit_value(c0 / 4);
        lemma_digit_value((c0 % 4) * 16);
        assert(e =~= seq![b64_digit(c0 / 4), b64_digit((c0 % 4) * 16)]);
        assert((c0 / 4) * 4 + ((c0 % 4) * 16) / 16 == c0);
        assert(seq![(b64_value(e[0]) * 4 + b64_value(e[1]) / 16) as u8] =~= s);
    } else if s.len() == 2 {
        let c0 = s[0] as int;
        let c1 = s[1] as int;
        lemma_digit_value(c0 / 4);
        lemma_digit_value((c0 % 4) * 16 + c1 / 16);
        lemma_digit_value((c1 % 16) * 4);
        assert(e =~= seq![
            b64_digit(c0 / 4),
            b64_digit((c0 % 4) * 16 + c1 / 16),
            b64_digit((c1 % 16) * 4),
        ]);
        assert((c0 / 4) * 4 + ((c0 % 4) * 16 + c1 / 16) / 16 == c0);
        assert((((c0 % 4) * 16 + c1 / 16) % 16) * 16 + ((c1 % 16) * 4) / 4 == c1);
        assert(seq![
            (b64_value(e[0]) * 4 + b64_value(e[1]) / 16) as u8,
            ((b64_value(e[1]) % 16) * 16 + b64_value(e[2]) / 4) as u8,
        ] =~= s);
    } else {
        let c0 = s[0] as int;
        let c1 = s[1] as int;
        let c2 = s[2] as int;
        let rest = encode_spec(s.skip(3));
        lemma_digit_value(c0 / 4);
        lemma_digit_value((c0 % 4) * 16 + c1 / 16);
        lemma_digit_value((c1 % 16) * 4 + c2 / 64);
        lemma_digit_value(c2 % 64);
        lemma_decode_encode(s.skip(3));
        assert(e[0] == b64_digit(c0 / 4) && e[1] == b64_digit((c0 % 4) * 16 + c1 / 16) && e[2]
            == b64_digit((c1 % 16) * 4 + c2 / 64) && e[3] == b64_digit(c2 % 64));
        assert(e.skip(4) =~= rest);
        assert((c0 / 4) * 4 + ((c0 % 4) * 16 + c1 / 16) / 16 == c0);
        assert((((c0 % 4) * 16 + c1 / 16) % 16) * 16 + (((c1 % 16) * 4 + c2 / 64)) / 4 == c1);
        assert(((((c1 % 16) * 4 + c2 / 64)) % 4) * 64 + c2 % 64 == c2);
        assert(decode_spec(e) == Some(seq![s[0], s[1], s[2]] + s.skip(3)));
        assert(seq![s[0], s[1], s[2]] + s.skip(3) =~= s);
    }
}

/// A byte outside the URL-safe alphabet anywhere in the input makes the
/// whole decode fail.
pub proof fn lemma_foreign_byte_rejected(s: Seq<u8>, i: int)
    requires
        0 <= i < s.len(),
        !is_b64_byte(s[i]),
    ensures
        decode_spec(s) is None,
    decreases s.len(),
{
    if s.len() >= 4 && i >= 4 {
        lemma_foreign_byte_rejected(s.skip(4), i - 4);
    }
}

} // verus!
