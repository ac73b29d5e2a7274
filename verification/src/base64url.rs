//! Unpadded base64url coding of byte strings, the segment encoding of the
//! compact token format.
//!
//! `b64url_encode` and `b64url_decode` are verified against the spec-level
//! `spec_b64_encode` / `spec_b64_decode`, and `lemma_b64_roundtrip` shows
//! that decoding inverts encoding.

use vstd::prelude::*;

verus! {

/// The base64url alphabet: `A`-`Z`, `a`-`z`, `0`-`9`, `-`, `_`.
pub open spec fn is_b64_byte(b: u8) -> bool {
    (65 <= b <= 90) || (97 <= b <= 122) || (48 <= b <= 57) || b == 45 || b == 95
}

/// The alphabet byte standing for a six-bit value.
pub open spec fn b64_char_of(v: u8) -> u8
    recommends
        v < 64,
{
    if v < 26 {
        (65 + v) as u8
    } else if v < 52 {
        (71 + v) as u8
    } else if v < 62 {
        (v - 4) as u8
    } else if v == 62 {
        45u8
    } else {
        95u8
    }
}

/// The six-bit value of an alphabet byte.
pub open spec fn b64_val_of(b: u8) -> u8
    recommends
        is_b64_byte(b),
{
    if 65 <= b <= 90 {
        (b - 65) as u8
    } else if 97 <= b <= 122 {
        (b - 71) as u8
    } else if 48 <= b <= 57 {
        (b + 4) as u8
    } else if b == 45 {
        62u8
    } else {
        63u8
    }
}

/// Unpadded base64url encoding: groups of three bytes become four alphabet
/// bytes; a final group of one or two bytes becomes two or three.
pub open spec fn spec_b64_encode(s: Seq<u8>) -> Seq<u8>
    decreases s.len(),
{
    if s.len() == 0 {
        seq![]
    } else if s.len() == 1 {
        let b0 = s[0];
        seq![b64_char_of(b0 >> 2), b64_char_of((b0 & 3) << 4)]
    } else if s.len() == 2 {
        let b0 = s[0];
        let b1 = s[1];
        seq![
            b64_char_of(b0 >> 2),
            b64_char_of(((b0 & 3) << 4) | (b1 >> 4)),
            b64_char_of((b1 & 15) << 2),
        ]
    } else {
        let b0 = s[0];
        let b1 = s[1];
        let b2 = s[2];
        seq![
            b64_char_of(b0 >> 2),
            b64_char_of(((b0 & 3) << 4) | (b1 >> 4)),
            b64_char_of(((b1 & 15) << 2) | (b2 >> 6)),
            b64_char_of(b2 & 63),
        ] + spec_b64_encode(s.skip(3))
    }
}

/// The three bytes packed into one full quad of six-bit values.
pub open spec fn b64_unpack3(v0: u8, v1: u8, v2: u8, v3: u8) -> Seq<u8>
    recommends
        v0 < 64,
        v1 < 64,
        v2 < 64,
        v3 < 64,
{
    seq![
        ((v0 << 2) | (v1 >> 4)) as u8,
        (((v1 & 15) << 4) | (v2 >> 2)) as u8,
        (((v2 & 3) << 6) | v3) as u8,
    ]
}

/// Unpadded base64url decoding, forgiving of nonzero leftover bits in the
/// last group. `None` on a byte outside the alphabet or on a length that no
/// encoding produces (one more than a multiple of four).
pub open spec fn spec_b64_decode(s: Seq<u8>) -> Option<Seq<u8>>
    decreases s.len(),
{
    if s.len() == 0 {
        Some(seq![])
    } else if s.len() == 1 {
        None
    } else if s.len() == 2 {
        if is_b64_byte(s[0]) && is_b64_byte(s[1]) {
            Some(seq![((b64_val_of(s[0]) << 2) | (b64_val_of(s[1]) >> 4)) as u8])
        } else {
            None
        }
    } else if s.len() == 3 {
        if is_b64_byte(s[0]) && is_b64_byte(s[1]) && is_b64_byte(s[2]) {
            Some(
                seq![
                    ((b64_val_of(s[0]) << 2) | (b64_val_of(s[1]) >> 4)) as u8,
                    (((b64_val_of(s[1]) & 15) << 4) | (b64_val_of(s[2]) >> 2)) as u8,
                ],
            )
        } else {
            None
        }
    } else {
        if is_b64_byte(s[0]) && is_b64_byte(s[1]) && is_b64_byte(s[2]) && is_b64_byte(s[3]) {
            match spec_b64_decode(s.skip(4)) {
                Some(rest) => Some(
                    b64_unpack3(b64_val_of(s[0]), b64_val_of(s[1]), b64_val_of(s[2]), b64_val_of(s[3]))
                        + rest,
                ),
                None => None,
            }
        } else {
            None
        }
    }
}

/// Every byte of an encoding lies in the base64url alphabet; in particular
/// no separator byte (`.`) and no whitespace ever occurs in one.
pub proof fn lemma_b64_encode_alphabet(s: Seq<u8>)
    ensures
        forall|i: int| 0 <= i < spec_b64_encode(s).len() ==> is_b64_byte(#[trigger] spec_b64_encode(s)[i]),
    decreases s.len(),
{
    let e = spec_b64_encode(s);
    assert(forall|v: u8| is_b64_byte(#[trigger] b64_char_of(v)));
    if s.len() > 3 {
        lemma_b64_encode_alphabet(s.skip(3));
        assert forall|i: int| 0 <= i < e.len() implies is_b64_byte(e[i]) by {
            if i >= 4 {
                assert(e[i] == spec_b64_encode(s.skip(3))[i - 4]);
            }
        }
    }
}

/// The value of an alphabet byte inverts the byte of a value.
proof fn lemma_b64_char_val(v: u8)
    requires
        v < 64,
    ensures
        is_b64_byte(b64_char_of(v)),
        b64_val_of(b64_char_of(v)) == v,
{
}

/// Decoding inverts encoding.
pub proof fn lemma_b64_roundtrip(s: Seq<u8>)
    ensures
        spec_b64_decode(spec_b64_encode(s)) == Some(s),
    decreases s.len(),
{
    if s.len() == 0 {
    } else if s.len() == 1 {
        let b0 = s[0];
        assert(b0 >> 2 < 64 && (b0 & 3) << 4 < 64) by (bit_vector);
        lemma_b64_char_val(b0 >> 2);
        lemma_b64_char_val((b0 & 3) << 4);
        assert((((b0 >> 2) << 2) | (((b0 & 3) << 4) >> 4)) == b0) by (bit_vector);
        assert(spec_b64_decode(spec_b64_encode(s)).unwrap() =~= s);
    } else if s.len() == 2 {
        let b0 = s[0];
        let b1 = s[1];
        assert(b0 >> 2 < 64 && ((b0 & 3) << 4) | (b1 >> 4) < 64 && (b1 & 15) << 2 < 64)
            by (bit_vector);
        lemma_b64_char_val(b0 >> 2);
        lemma_b64_char_val(((b0 & 3) << 4) | (b1 >> 4));
        lemma_b64_char_val((b1 & 15) << 2);
        assert(((b0 >> 2) << 2) | ((((b0 & 3) << 4) | (b1 >> 4)) >> 4) == b0) by (bit_vector);
        assert((((((b0 & 3) << 4) | (b1 >> 4)) & 15) << 4) | (((b1 & 15) << 2) >> 2) == b1)
            by (bit_vector);
        assert(spec_b64_decode(spec_b64_encode(s)).unwrap() =~= s);
    } else {
        let b0 = s[0];
        let b1 = s[1];
        let b2 = s[2];
        let v0 = b0 >> 2;
        let v1 = ((b0 & 3) << 4) | (b1 >> 4);
        let v2 = ((b1 & 15) << 2) | (b2 >> 6);
        let v3 = b2 & 63;
        assert(b0 >> 2 < 64 && ((b0 & 3) << 4) | (b1 >> 4) < 64 && (((b1 & 15) << 2) | (b2 >> 6))
            < 64 && b2 & 63 < 64) by (bit_vector);
        lemma_b64_char_val(v0);
        lemma_b64_char_val(v1);
        lemma_b64_char_val(v2);
        lemma_b64_char_val(v3);
        assert(((b0 >> 2) << 2) | ((((b0 & 3) << 4) | (b1 >> 4)) >> 4) == b0) by (bit_vector);
        assert((((((b0 & 3) << 4) | (b1 >> 4)) & 15) << 4) | (((((b1 & 15) << 2) | (b2 >> 6)))
            >> 2) == b1) by (bit_vector);
        assert((((((b1 & 15) << 2) | (b2 >> 6)) & 3) << 6) | (b2 & 63) == b2) by (bit_vector);
        lemma_b64_roundtrip(s.skip(3));
        let e = spec_b64_encode(s);
        let quad = seq![b64_char_of(v0), b64_char_of(v1), b64_char_of(v2), b64_char_of(v3)];
        assert(e =~= quad + spec_b64_encode(s.skip(3)));
        assert(e.skip(4) =~= spec_b64_encode(s.skip(3)));
        assert(b64_unpack3(v0, v1, v2, v3) =~= seq![b0, b1, b2]);
        if spec_b64_encode(s.skip(3)).len() == 0 {
            assert(s.skip(3).len() == 0);
            assert(e.len() == 4);
            // a quad followed by nothing decodes through the recursive branch
            assert(spec_b64_decode(e.skip(4)) == Some(Seq::<u8>::empty()));
            assert(spec_b64_decode(e).unwrap() =~= s);
        } else {
            assert(spec_b64_decode(e).unwrap() =~= seq![b0, b1, b2] + s.skip(3));
            assert(seq![b0, b1, b2] + s.skip(3) =~= s);
        }
    }
}

/// Returns the alphabet byte of a six-bit value.
fn b64_byte_of(v: u8) -> (r: u8)
    requires
        v < 64,
    ensures
        r == b64_char_of(v),
{
    if v < 26 {
        65 + v
    } else if v < 52 {
        71 + v
    } else if v < 62 {
        v - 4
    } else if v == 62 {
        45
    } else {
        95
    }
}

/// Returns the six-bit value of an alphabet byte, or `None` outside the
/// alphabet.
fn b64_try_val(b: u8) -> (r: Option<u8>)
    ensures
        match r {
            Some(v) => is_b64_byte(b) && v == b64_val_of(b) && v < 64,
            None => !is_b64_byte(b),
        },
{
    if 65 <= b && b <= 90 {
        Some(b - 65)
    } else if 97 <= b && b <= 122 {
        Some(b - 71)
    } else if 48 <= b && b <= 57 {
        Some(b + 4)
    } else if b == 45 {
        Some(62)
    } else if b == 95 {
        Some(63)
    } else {
        None
    }
}

/// Encodes bytes as unpadded base64url.
pub fn b64url_encode(s: &[u8]) -> (r: Vec<u8>)
    ensures
        r@ == spec_b64_encode(s@),
{
    let mut r: Vec<u8> = Vec::new();
    let mut i: usize = 0;
    proof {
        assert(s@.skip(0) =~= s@);
    }
    while s.len() - i >= 3
        invariant
            i <= s@.len(),
            spec_b64_encode(s@) =~= r@ + spec_b64_encode(s@.skip(i as int)),
        decreases s@.len() - i,
    {
        let b0 = s[i];
        let b1 = s[i + 1];
        let b2 = s[i + 2];
        proof {
            assert(b0 >> 2 < 64 && ((b0 & 3) << 4) | (b1 >> 4) < 64 && ((b1 & 15) << 2) | (b2
                >> 6) < 64 && b2 & 63 < 64) by (bit_vector);
        }
        r.push(b64_byte_of(b0 >> 2));
        r.push(b64_byte_of(((b0 & 3) << 4) | (b1 >> 4)));
        r.push(b64_byte_of(((b1 & 15) << 2) | (b2 >> 6)));
        r.push(b64_byte_of(b2 & 63));
        proof {
            assert(s@.skip(i as int)[0] == b0 && s@.skip(i as int)[1] == b1 && s@.skip(i as int)[2]
                == b2);
            assert(s@.skip(i as int).skip(3) =~= s@.skip(i as int + 3));
        }
        i += 3;
    }
    if s.len() - i == 1 {
        let b0 = s[i];
        proof {
            assert(b0 >> 2 < 64 && (b0 & 3) << 4 < 64) by (bit_vector);
        }
        r.push(b64_byte_of(b0 >> 2));
        r.push(b64_byte_of((b0 & 3) << 4));
        proof {
            assert(spec_b64_encode(s@.skip(i as int)) =~= seq![
                b64_char_of(b0 >> 2),
                b64_char_of((b0 & 3) << 4),
            ]);
        }
    } else if s.len() - i == 2 {
        let b0 = s[i];
        let b1 = s[i + 1];
        proof {
            assert(b0 >> 2 < 64 && ((b0 & 3) << 4) | (b1 >> 4) < 64 && (b1 & 15) << 2 < 64)
                by (bit_vector);
        }
        r.push(b64_byte_of(b0 >> 2));
        r.push(b64_byte_of(((b0 & 3) << 4) | (b1 >> 4)));
        r.push(b64_byte_of((b1 & 15) << 2));
    } else {
        proof {
            assert(s@.skip(i as int).len() == 0);
        }
    }
    r
}

/// Decodes unpadded base64url; `None` on input no encoding produces.
pub fn b64url_decode(s: &[u8]) -> (r: Option<Vec<u8>>)
    ensures
        match r {
            Some(d) => spec_b64_decode(s@) == Some(d@),
            None => spec_b64_decode(s@) is None,
        },
{
    let n = s.len();
    if n % 4 == 1 {
        proof {
            lemma_b64_decode_bad_len(s@);
        }
        return None;
    }
    let mut r: Vec<u8> = Vec::new();
    let mut i: usize = 0;
    proof {
        assert(s@.skip(0) =~= s@);
    }
    while n - i >= 4
        invariant
            n == s@.len(),
            i <= n,
            i % 4 == 0,
            n % 4 != 1,
            spec_b64_decode(s@) == match spec_b64_decode(s@.skip(i as int)) {
                Some(rest) => Some(r@ + rest),
                None => None::<Seq<u8>>,
            },
        decreases n - i,
    {
        let c0 = b64_try_val(s[i]);
        let c1 = b64_try_val(s[i + 1]);
        let c2 = b64_try_val(s[i + 2]);
        let c3 = b64_try_val(s[i + 3]);
        proof {
            assert(s@.skip(i as int)[0] == s@[i as int] && s@.skip(i as int)[1] == s@[i as int + 1]
                && s@.skip(i as int)[2] == s@[i as int + 2] && s@.skip(i as int)[3] == s@[i as int
                + 3]);
        }
        match (c0, c1, c2, c3) {
            (Some(v0), Some(v1), Some(v2), Some(v3)) => {
                proof {
                    assert((v0 << 2) | (v1 >> 4) < 256 && ((v1 & 15) << 4) | (v2 >> 2) < 256 && ((
                    v2 & 3) << 6) | v3 < 256) by (bit_vector);
                }
                r.push((v0 << 2) | (v1 >> 4));
                r.push(((v1 & 15) << 4) | (v2 >> 2));
                r.push(((v2 & 3) << 6) | v3);
                proof {
                    assert(s@.skip(i as int).skip(4) =~= s@.skip(i as int + 4));
                }
                i += 4;
            },
            _ => {
                return None;
            },
        }
    }
    // the remainder holds zero, two or three alphabet bytes
    if i == n {
        proof {
            assert(s@.skip(i as int).len() == 0);
        }
        Some(r)
    } else if n - i == 2 {
        let c0 = b64_try_val(s[i]);
        let c1 = b64_try_val(s[i + 1]);
        proof {
            assert(s@.skip(i as int)[0] == s@[i as int] && s@.skip(i as int)[1] == s@[i as int
                + 1]);
        }
        match (c0, c1) {
            (Some(v0), Some(v1)) => {
                proof {
                    assert((v0 << 2) | (v1 >> 4) < 256) by (bit_vector);
                }
                r.push((v0 << 2) | (v1 >> 4));
                Some(r)
            },
            _ => None,
        }
    } else {
        let c0 = b64_try_val(s[i]);
        let c1 = b64_try_val(s[i + 1]);
        let c2 = b64_try_val(s[i + 2]);
        proof {
            assert(i + 3 == n);
            assert(s@.skip(i as int)[0] == s@[i as int] && s@.skip(i as int)[1] == s@[i as int + 1]
                && s@.skip(i as int)[2] == s@[i as int + 2]);
        }
        match (c0, c1, c2) {
            (Some(v0), Some(v1), Some(v2)) => {
                proof {
                    assert(((v0 << 2) | (v1 >> 4)) < 256 && (((v1 & 15) << 4) | (v2 >> 2)) < 256)
                        by (bit_vector);
                }
                r.push((v0 << 2) | (v1 >> 4));
                r.push(((v1 & 15) << 4) | (v2 >> 2));
                Some(r)
            },
            _ => None,
        }
    }
}

/// No encoding has a length of one more than a multiple of four.
proof fn lemma_b64_decode_bad_len(s: Seq<u8>)
    requires
        s.len() % 4 == 1,
    ensures
        spec_b64_decode(s) is None,
    decreases s.len(),
{
    if s.len() > 4 {
        lemma_b64_decode_bad_len(s.skip(4));
    }
}

} // verus!
