//! URL-safe base64 without padding, over bytes.
//!
//! Encoding is total; decoding accepts exactly the canonical encodings: no
//! padding characters, no length of the form `4k + 1`, and zero trailing bits
//! in a final partial group.

use vstd::prelude::*;
use crate::text::{all_ascii, ascii_seq, ascii_string};

verus! {

/// The alphabet byte for a 6-bit value.
pub open spec fn b64_byte(v: int) -> u8 {
    if v < 26 {
        (0x41 + v) as u8  // 'A'..='Z'
    } else if v < 52 {
        (0x61 + (v - 26)) as u8  // 'a'..='z'
    } else if v < 62 {
        (0x30 + (v - 52)) as u8  // '0'..='9'
    } else if v == 62 {
        0x2D  // '-'
    } else {
        0x5F  // '_'
    }
}

/// Encoding of a final group of 1 to 3 bytes.
pub open spec fn b64_group(s: Seq<u8>) -> Seq<u8>
    recommends
        1 <= s.len() <= 3,
{
    let b0 = s[0] as int;
    if s.len() == 1 {
        seq![b64_byte(b0 / 4), b64_byte((b0 % 4) * 16)]
    } else {
        let b1 = s[1] as int;
        if s.len() == 2 {
            seq![
                b64_byte(b0 / 4),
                b64_byte((b0 % 4) * 16 + b1 / 16),
                b64_byte((b1 % 16) * 4),
            ]
        } else {
            let b2 = s[2] as int;
            seq![
                b64_byte(b0 / 4),
                b64_byte((b0 % 4) * 16 + b1 / 16),
                b64_byte((b1 % 16) * 4 + b2 / 64),
                b64_byte(b2 % 64),
            ]
        }
    }
}

/// The base64url encoding of a byte sequence, as ASCII bytes.
pub open spec fn b64_encode(s: Seq<u8>) -> Seq<u8>
    decreases s.len(),
{
    if s.len() == 0 {
        Seq::empty()
    } else if s.len() <= 3 {
        b64_group(s)
    } else {
        b64_group(s.take(3)) + b64_encode(s.skip(3))
    }
}

/// The base64url encoding of a byte sequence, as characters.
pub open spec fn b64_chars(s: Seq<u8>) -> Seq<char> {
    ascii_seq(b64_encode(s))
}

/// The 6-bit value of an alphabet byte, `None` outside the alphabet.
pub open spec fn b64_val(b: u8) -> Option<int> {
    if 0x41 <= b <= 0x5A {
        Some(b - 0x41)
    } else if 0x61 <= b <= 0x7A {
        Some(b - 0x61 + 26)
    } else if 0x30 <= b <= 0x39 {
        Some(b - 0x30 + 52)
    } else if b == 0x2D {
        Some(62int)
    } else if b == 0x5F {
        Some(63int)
    } else {
        None
    }
}

/// Canonical base64url decoding: `None` on any byte outside the alphabet, a
/// length of the form `4k + 1`, or non-zero trailing bits.
pub open spec fn b64_decode(t: Seq<u8>) -> Option<Seq<u8>>
    decreases t.len(),
{
    if t.len() == 0 {
        Some(Seq::empty())
    } else if t.len() == 1 {
        None
    } else if t.len() == 2 {
        match (b64_val(t[0]), b64_val(t[1])) {
            (Some(v0), Some(v1)) => if v1 % 16 == 0 {
                Some(seq![(v0 * 4 + v1 / 16) as u8])
            } else {
                None
            },
            _ => None,
        }
    } else if t.len() == 3 {
        match (b64_val(t[0]), b64_val(t[1]), b64_val(t[2])) {
            (Some(v0), Some(v1), Some(v2)) => if v2 % 4 == 0 {
                Some(seq![(v0 * 4 + v1 / 16) as u8, ((v1 % 16) * 16 + v2 / 4) as u8])
            } else {
                None
            },
            _ => None,
        }
    } else {
        match (b64_val(t[0]), b64_val(t[1]), b64_val(t[2]), b64_val(t[3])) {
            (Some(v0), Some(v1), Some(v2), Some(v3)) => {
                let g = seq![
                    (v0 * 4 + v1 / 16) as u8,
                    ((v1 % 16) * 16 + v2 / 4) as u8,
                    ((v2 % 4) * 64 + v3) as u8,
                ];
                match b64_decode(t.skip(4)) {
                    Some(rest) => Some(g + rest),
                    None => None,
                }
            },
            _ => None,
        }
    }
}

/// Every encoded byte is ASCII.
pub proof fn lemma_b64_encode_ascii(s: Seq<u8>)
    ensures
        all_ascii(b64_encode(s)),
        b64_encode(s).len() == (s.len() * 4 + 2) / 3,
    decreases s.len(),
{
    if s.len() > 3 {
        lemma_b64_encode_ascii(s.skip(3));
        assert((s.len() * 4 + 2) / 3 == 4 + ((s.len() - 3) * 4 + 2) / 3) by (nonlinear_arith)
            requires s.len() > 3;
    }
}

/// Encoding splits at any group boundary.
pub proof fn lemma_b64_encode_split(s: Seq<u8>, i: int)
    requires
        0 <= i <= s.len(),
        i % 3 == 0,
    ensures
        b64_encode(s) == b64_encode(s.take(i)) + b64_encode(s.skip(i)),
    decreases i,
{
    if i == 0 {
        assert(s.take(0) =~= Seq::empty());
        assert(s.skip(0) =~= s);
        assert(b64_encode(s.take(0)) + b64_encode(s.skip(0)) =~= b64_encode(s));
    } else {
        // i >= 3, so s has at least one full leading group.
        lemma_b64_encode_split(s.skip(3), i - 3);
        assert(s.skip(3).take(i - 3) =~= s.take(i).skip(3));
        assert(s.skip(3).skip(i - 3) =~= s.skip(i));
        assert(s.take(3) =~= s.take(i).take(3));
        if i == s.len() {
            assert(b64_encode(s.skip(i)) =~= Seq::<u8>::empty());
            assert(s.skip(3) =~= s.take(i).skip(3));
            if s.len() == 3 {
                assert(s.take(i) =~= s);
                assert(b64_encode(s.take(i)) + b64_encode(s.skip(i)) =~= b64_encode(s));
            } else {
                assert(b64_encode(s) == b64_group(s.take(3)) + b64_encode(s.skip(3)));
                assert(b64_encode(s.take(i)) == b64_group(s.take(i).take(3)) + b64_encode(
                    s.take(i).skip(3),
                ));
                assert(b64_encode(s.take(i)) + b64_encode(s.skip(i)) =~= b64_encode(s));
            }
        } else {
            // 3 <= i < s.len()
            assert(b64_encode(s) == b64_group(s.take(3)) + b64_encode(s.skip(3)));
            if i == 3 {
                assert(b64_encode(s.take(3)) == b64_group(s.take(3)));
                assert(b64_encode(s.take(i)) + b64_encode(s.skip(i)) =~= b64_encode(s));
            } else {
                assert(b64_encode(s.take(i)) == b64_group(s.take(3)) + b64_encode(
                    s.take(i).skip(3),
                ));
                assert(b64_encode(s.take(i)) + b64_encode(s.skip(i)) =~= b64_encode(s));
            }
        }
    }
}


/// An alphabet byte decodes to the value it encodes.
proof fn lemma_b64_byte_val(v: int)
    requires
        0 <= v < 64,
    ensures
        b64_val(b64_byte(v)) == Some(v),
{
}

/// Decoding an encoded final group of one byte gives it back.
proof fn lemma_group1_round_trip(b0: u8)
    ensures
        b64_decode(b64_group(seq![b0])) == Some(seq![b0]),
{
    let g = b64_group(seq![b0]);
    let v0 = b0 as int / 4;
    let v1 = (b0 as int % 4) * 16;
    lemma_b64_byte_val(v0);
    lemma_b64_byte_val(v1);
    assert(g =~= seq![b64_byte(v0), b64_byte(v1)]);
    assert(v1 % 16 == 0);
    assert(v0 * 4 + v1 / 16 == b0) by (nonlinear_arith)
        requires v0 == b0 as int / 4, v1 == (b0 as int % 4) * 16;
    assert(b64_decode(g) == Some(seq![(v0 * 4 + v1 / 16) as u8]));
    assert(seq![(v0 * 4 + v1 / 16) as u8] =~= seq![b0]);
}

/// Decoding an encoded final group of two bytes gives them back.
proof fn lemma_group2_round_trip(b0: u8, b1: u8)
    ensures
        b64_decode(b64_group(seq![b0, b1])) == Some(seq![b0, b1]),
{
    let g = b64_group(seq![b0, b1]);
    let v0 = b0 as int / 4;
    let v1 = (b0 as int % 4) * 16 + b1 as int / 16;
    let v2 = (b1 as int % 16) * 4;
    lemma_b64_byte_val(v0);
    lemma_b64_byte_val(v1);
    lemma_b64_byte_val(v2);
    assert(g =~= seq![b64_byte(v0), b64_byte(v1), b64_byte(v2)]);
    assert(v2 % 4 == 0);
    assert(v0 * 4 + v1 / 16 == b0 && (v1 % 16) * 16 + v2 / 4 == b1) by (nonlinear_arith)
        requires
            v0 == b0 as int / 4,
            v1 == (b0 as int % 4) * 16 + b1 as int / 16,
            v2 == (b1 as int % 16) * 4;
    assert(seq![(v0 * 4 + v1 / 16) as u8, ((v1 % 16) * 16 + v2 / 4) as u8] =~= seq![b0, b1]);
}

/// The values of an encoded full group, and the bytes they decode to.
proof fn lemma_group3_round_trip(b0: u8, b1: u8, b2: u8)
    ensures
        ({
            let g = b64_group(seq![b0, b1, b2]);
            &&& g.len() == 4
            &&& b64_val(g[0]) is Some
            &&& b64_val(g[1]) is Some
            &&& b64_val(g[2]) is Some
            &&& b64_val(g[3]) is Some
            &&& seq![
                (b64_val(g[0])->Some_0 * 4 + b64_val(g[1])->Some_0 / 16) as u8,
                ((b64_val(g[1])->Some_0 % 16) * 16 + b64_val(g[2])->Some_0 / 4) as u8,
                ((b64_val(g[2])->Some_0 % 4) * 64 + b64_val(g[3])->Some_0) as u8,
            ] == seq![b0, b1, b2]
        }),
{
    let v0 = b0 as int / 4;
    let v1 = (b0 as int % 4) * 16 + b1 as int / 16;
    let v2 = (b1 as int % 16) * 4 + b2 as int / 64;
    let v3 = b2 as int % 64;
    lemma_b64_byte_val(v0);
    lemma_b64_byte_val(v1);
    lemma_b64_byte_val(v2);
    lemma_b64_byte_val(v3);
    let g = b64_group(seq![b0, b1, b2]);
    assert(g =~= seq![b64_byte(v0), b64_byte(v1), b64_byte(v2), b64_byte(v3)]);
    assert(v0 * 4 + v1 / 16 == b0 && (v1 % 16) * 16 + v2 / 4 == b1 && (v2 % 4) * 64 + v3 == b2)
        by (nonlinear_arith)
        requires
            v0 == b0 as int / 4,
            v1 == (b0 as int % 4) * 16 + b1 as int / 16,
            v2 == (b1 as int % 16) * 4 + b2 as int / 64,
            v3 == b2 as int % 64;
    assert(seq![(v0 * 4 + v1 / 16) as u8, ((v1 % 16) * 16 + v2 / 4) as u8, ((v2 % 4) * 64
        + v3) as u8] =~= seq![b0, b1, b2]);
}

/// Decoding an encoding yields the original bytes: the codec loses nothing.
pub proof fn lemma_b64_round_trip(s: Seq<u8>)
    ensures
        b64_decode(b64_encode(s)) == Some(s),
    decreases s.len(),
{
    if s.len() == 0 {
        assert(b64_encode(s) =~= Seq::<u8>::empty());
        assert(Seq::<u8>::empty() =~= s);
    } else if s.len() == 1 {
        assert(seq![s[0]] =~= s);
        lemma_group1_round_trip(s[0]);
    } else if s.len() == 2 {
        assert(seq![s[0], s[1]] =~= s);
        lemma_group2_round_trip(s[0], s[1]);
    } else {
        let head = if s.len() == 3 {
            s
        } else {
            s.take(3)
        };
        assert(seq![s[0], s[1], s[2]] =~= head);
        lemma_group3_round_trip(s[0], s[1], s[2]);
        let g = b64_group(head);
        if s.len() == 3 {
            let t = b64_encode(s);
            assert(t == g && t.len() == 4);
            assert(t.skip(4) =~= Seq::<u8>::empty());
            assert(b64_decode(t.skip(4)) == Some(Seq::<u8>::empty()));
            assert(seq![s[0], s[1], s[2]] + Seq::<u8>::empty() =~= s);
        } else {
            lemma_b64_round_trip(s.skip(3));
            let t = b64_encode(s);
            assert(t == g + b64_encode(s.skip(3)));
            assert(t.len() > 4) by {
                lemma_b64_encode_ascii(s.skip(3));
            }
            assert(t[0] == g[0] && t[1] == g[1] && t[2] == g[2] && t[3] == g[3]);
            assert(t.skip(4) =~= b64_encode(s.skip(3)));
            assert(seq![s[0], s[1], s[2]] + s.skip(3) =~= s);
        }
    }
}

/// The alphabet byte for a 6-bit value.
fn b64_byte_of(v: u8) -> (r: u8)
    requires
        v < 64,
    ensures
        r == b64_byte(v as int),
{
    if v < 26 {
        0x41 + v
    } else if v < 52 {
        0x61 + (v - 26)
    } else if v < 62 {
        0x30 + (v - 52)
    } else if v == 62 {
        0x2D
    } else {
        0x5F
    }
}

/// Encode bytes as base64url, yielding the ASCII bytes of the encoding.
pub fn base64url_encode(s: &[u8]) -> (r: Vec<u8>)
    ensures
        r@ == b64_encode(s@),
{
    let mut out: Vec<u8> = Vec::new();
    let mut i: usize = 0;

    proof {
        assert(s@.take(0) =~= Seq::empty());
    }

    while s.len() - i > 3
        invariant
            i <= s@.len(),
            i % 3 == 0,
            out@ == b64_encode(s@.take(i as int)),
        decreases s@.len() - i,
    {
        let b0 = s[i];
        let b1 = s[i + 1];
        let b2 = s[i + 2];
        out.push(b64_byte_of(b0 / 4));
        out.push(b64_byte_of((b0 % 4) * 16 + b1 / 16));
        out.push(b64_byte_of((b1 % 16) * 4 + b2 / 64));
        out.push(b64_byte_of(b2 % 64));
        proof {
            let pre = s@.take(i as int);
            let next = s@.take(i + 3);
            lemma_b64_encode_split(next, i as int);
            assert(next.take(i as int) =~= pre);
            assert(next.skip(i as int) =~= s@.subrange(i as int, i + 3));
            let g = s@.subrange(i as int, i + 3);
            assert(g.len() == 3 && g[0] == b0 && g[1] == b1 && g[2] == b2);
            assert(b64_encode(g) == b64_group(g));
            assert(b64_group(g) =~= seq![
                b64_byte(b0 as int / 4),
                b64_byte((b0 as int % 4) * 16 + b1 as int / 16),
                b64_byte((b1 as int % 16) * 4 + b2 as int / 64),
                b64_byte(b2 as int % 64),
            ]);
            assert(out@ =~= b64_encode(pre) + b64_encode(g));
        }
        i = i + 3;
    }

    let rem = s.len() - i;
    if rem == 0 {
        proof {
            assert(s@.take(i as int) =~= s@);
        }
    } else {
        let b0 = s[i];
        out.push(b64_byte_of(b0 / 4));
        if rem == 1 {
            out.push(b64_byte_of((b0 % 4) * 16));
        } else {
            let b1 = s[i + 1];
            out.push(b64_byte_of((b0 % 4) * 16 + b1 / 16));
            if rem == 2 {
                out.push(b64_byte_of((b1 % 16) * 4));
            } else {
                let b2 = s[i + 2];
                out.push(b64_byte_of((b1 % 16) * 4 + b2 / 64));
                out.push(b64_byte_of(b2 % 64));
            }
        }
        proof {
            lemma_b64_encode_split(s@, i as int);
            let g = s@.skip(i as int);
            assert(1 <= g.len() <= 3);
            assert(b64_encode(g) == b64_group(g));
            assert(g[0] == s@[i as int]);
            assert(out@ =~= b64_encode(s@.take(i as int)) + b64_group(g));
        }
    }
    out
}

/// Encode bytes as base64url, yielding the encoding as a string.
pub fn base64url_encode_string(s: &[u8]) -> (r: String)
    ensures
        r@ == b64_chars(s@),
{
    let bytes = base64url_encode(s);
    proof {
        lemma_b64_encode_ascii(s@);
    }
    ascii_string(bytes)
}

/// The decoded bytes of one full group of 6-bit values.
fn full_group(v0: u8, v1: u8, v2: u8, v3: u8) -> (r: [u8; 3])
    requires
        v0 < 64 && v1 < 64 && v2 < 64 && v3 < 64,
    ensures
        r@ =~= seq![
            (v0 as int * 4 + v1 as int / 16) as u8,
            ((v1 as int % 16) * 16 + v2 as int / 4) as u8,
            ((v2 as int % 4) * 64 + v3 as int) as u8,
        ],
{
    [(v0 * 4 + v1 / 16), ((v1 % 16) * 16 + v2 / 4), ((v2 % 4) * 64 + v3)]
}

/// The 6-bit value of an alphabet byte.
fn b64_val_of(b: u8) -> (r: Option<u8>)
    ensures
        match r {
            Some(v) => b64_val(b) == Some(v as int) && v < 64,
            None => b64_val(b) is None,
        },
{
    if 0x41 <= b && b <= 0x5A {
        Some(b - 0x41)
    } else if 0x61 <= b && b <= 0x7A {
        Some(b - 0x61 + 26)
    } else if 0x30 <= b && b <= 0x39 {
        Some(b - 0x30 + 52)
    } else if b == 0x2D {
        Some(62)
    } else if b == 0x5F {
        Some(63)
    } else {
        None
    }
}

spec fn append_opt(pre: Seq<u8>, o: Option<Seq<u8>>) -> Option<Seq<u8>> {
    match o {
        Some(r) => Some(pre + r),
        None => None,
    }
}

/// Decode canonical base64url bytes; `None` exactly where the input is not a
/// canonical encoding.
pub fn base64url_decode(t: &[u8]) -> (r: Option<Vec<u8>>)
    ensures
        match r {
            Some(v) => b64_decode(t@) == Some(v@),
            None => b64_decode(t@) is None,
        },
{
    let mut out: Vec<u8> = Vec::new();
    let mut i: usize = 0;

    proof {
        assert(t@.skip(0) =~= t@);
        assert(Seq::<u8>::empty() + b64_decode(t@).unwrap() =~= b64_decode(t@).unwrap());
    }

    while t.len() - i > 4
        invariant
            i <= t@.len(),
            i % 4 == 0,
            b64_decode(t@) == append_opt(out@, b64_decode(t@.skip(i as int))),
        decreases t@.len() - i,
    {
        let ghost rest = t@.skip(i as int);
        proof {
            assert(rest.len() > 4);
            assert(rest[0] == t@[i as int]);
            assert(rest[1] == t@[i + 1]);
            assert(rest[2] == t@[i + 2]);
            assert(rest[3] == t@[i + 3]);
            assert(rest.skip(4) =~= t@.skip(i + 4));
        }
        let v0 = match b64_val_of(t[i]) {
            Some(v) => v,
            None => {
                return None;
            },
        };
        let v1 = match b64_val_of(t[i + 1]) {
            Some(v) => v,
            None => {
                return None;
            },
        };
        let v2 = match b64_val_of(t[i + 2]) {
            Some(v) => v,
            None => {
                return None;
            },
        };
        let v3 = match b64_val_of(t[i + 3]) {
            Some(v) => v,
            None => {
                return None;
            },
        };
        let g = full_group(v0, v1, v2, v3);
        let ghost old_out = out@;
        out.push(g[0]);
        out.push(g[1]);
        out.push(g[2]);
        proof {
            let gs = seq![g@[0], g@[1], g@[2]];
            assert(out@ =~= old_out + gs);
            match b64_decode(t@.skip(i + 4)) {
                Some(r2) => {
                    assert(b64_decode(rest) == Some(gs + r2));
                    assert(old_out + (gs + r2) =~= (old_out + gs) + r2);
                },
                None => {
                    assert(b64_decode(rest) is None);
                },
            }
        }
        i = i + 4;
    }

    let rem = t.len() - i;
    let ghost rest = t@.skip(i as int);
    proof {
        assert(rest.len() == rem);
        if rem >= 1 {
            assert(rest[0] == t@[i as int]);
        }
        if rem >= 2 {
            assert(rest[1] == t@[i + 1]);
        }
        if rem >= 3 {
            assert(rest[2] == t@[i + 2]);
        }
        if rem >= 4 {
            assert(rest[3] == t@[i + 3]);
            assert(rest.skip(4) =~= Seq::<u8>::empty());
        }
    }
    if rem == 0 {
        proof {
            assert(out@ + Seq::<u8>::empty() =~= out@);
        }
        return Some(out);
    }
    if rem == 1 {
        return None;
    }
    let v0 = match b64_val_of(t[i]) {
        Some(v) => v,
        None => {
            return None;
        },
    };
    let v1 = match b64_val_of(t[i + 1]) {
        Some(v) => v,
        None => {
            return None;
        },
    };
    if rem == 2 {
        if v1 % 16 != 0 {
            return None;
        }
        let ghost old_out = out@;
        out.push(v0 * 4 + v1 / 16);
        proof {
            assert(out@ =~= old_out + seq![(v0 as int * 4 + v1 as int / 16) as u8]);
        }
        return Some(out);
    }
    let v2 = match b64_val_of(t[i + 2]) {
        Some(v) => v,
        None => {
            return None;
        },
    };
    if rem == 3 {
        if v2 % 4 != 0 {
            return None;
        }
        let ghost old_out = out@;
        out.push(v0 * 4 + v1 / 16);
        out.push((v1 % 16) * 16 + v2 / 4);
        proof {
            assert(out@ =~= old_out + seq![
                (v0 as int * 4 + v1 as int / 16) as u8,
                ((v1 as int % 16) * 16 + v2 as int / 4) as u8,
            ]);
        }
        return Some(out);
    }
    let v3 = match b64_val_of(t[i + 3]) {
        Some(v) => v,
        None => {
            return None;
        },
    };
    let g = full_group(v0, v1, v2, v3);
    let ghost old_out = out@;
    out.push(g[0]);
    out.push(g[1]);
    out.push(g[2]);
    proof {
        reveal_with_fuel(b64_decode, 2);
        assert(rest.len() == 4);
        assert(b64_val(rest[0]) == Some(v0 as int));
        assert(b64_val(rest[1]) == Some(v1 as int));
        assert(b64_val(rest[2]) == Some(v2 as int));
        assert(b64_val(rest[3]) == Some(v3 as int));
        assert(b64_decode(rest.skip(4)) == Some(Seq::<u8>::empty()));
        let gs = seq![g@[0], g@[1], g@[2]];
        assert(b64_decode(rest) == Some(gs + Seq::<u8>::empty()));
        assert(out@ =~= old_out + (gs + Seq::<u8>::empty()));
    }
    Some(out)
}

} // verus!
