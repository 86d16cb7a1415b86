//! A small JSON writer and a strict reader for what it writes, over bytes.
//!
//! Strings escape the quote, the backslash and control bytes; everything
//! else, multi-byte UTF-8 included, passes through unchanged. The reader
//! accepts exactly the writer's output shape: no padding, fixed key order
//! where a caller expects keys. Reading what was written gives the original
//! value back, which the lemmas here state.

use vstd::prelude::*;

verus! {

/// A lowercase hexadecimal digit.
pub open spec fn hex_digit(v: int) -> u8 {
    if v < 10 {
        (0x30 + v) as u8
    } else {
        (0x61 + (v - 10)) as u8
    }
}

/// The numeric value of a hexadecimal digit byte.
pub open spec fn hex_val(b: u8) -> Option<int> {
    if 0x30 <= b <= 0x39 {
        Some(b - 0x30)
    } else if 0x61 <= b <= 0x66 {
        Some(b - 0x61 + 10)
    } else if 0x41 <= b <= 0x46 {
        Some(b - 0x41 + 10)
    } else {
        None
    }
}

/// The escape of one string byte.
pub open spec fn esc_byte(b: u8) -> Seq<u8> {
    if b == 0x22 {
        seq![0x5C, 0x22]  // escaped quote
    } else if b == 0x5C {
        seq![0x5C, 0x5C]  // escaped backslash
    } else if b == 0x08 {
        seq![0x5C, 0x62]  // \b
    } else if b == 0x09 {
        seq![0x5C, 0x74]  // \t
    } else if b == 0x0A {
        seq![0x5C, 0x6E]  // \n
    } else if b == 0x0C {
        seq![0x5C, 0x66]  // \f
    } else if b == 0x0D {
        seq![0x5C, 0x72]  // \r
    } else if b < 0x20 {
        seq![0x5C, 0x75, 0x30, 0x30, hex_digit(b as int / 16), hex_digit(b as int % 16)]
    } else {
        seq![b]
    }
}

/// The escape of a whole byte string.
pub open spec fn esc(s: Seq<u8>) -> Seq<u8>
    decreases s.len(),
{
    if s.len() == 0 {
        Seq::empty()
    } else {
        esc_byte(s[0]) + esc(s.drop_first())
    }
}

/// A quoted, escaped JSON string.
pub open spec fn json_string(s: Seq<u8>) -> Seq<u8> {
    seq![0x22u8] + esc(s) + seq![0x22u8]
}

/// The decimal digits of a number.
pub open spec fn dec_digits(n: nat) -> Seq<u8>
    decreases n,
{
    if n < 10 {
        seq![(0x30 + n) as u8]
    } else {
        dec_digits(n / 10).push((0x30 + n % 10) as u8)
    }
}

/// Escaping splits at any byte boundary.
pub proof fn lemma_esc_split(s: Seq<u8>, i: int)
    requires
        0 <= i <= s.len(),
    ensures
        esc(s) == esc(s.take(i)) + esc(s.skip(i)),
    decreases i,
{
    if i == 0 {
        assert(s.take(0) =~= Seq::empty());
        assert(s.skip(0) =~= s);
        assert(esc(s.take(0)) + esc(s.skip(0)) =~= esc(s));
    } else {
        lemma_esc_split(s.drop_first(), i - 1);
        assert(s.drop_first().take(i - 1) =~= s.take(i).drop_first());
        assert(s.drop_first().skip(i - 1) =~= s.skip(i));
        assert(s.take(i).len() != 0 && s.take(i)[0] == s[0]);
        assert(esc(s.take(i)) == esc_byte(s[0]) + esc(s.take(i).drop_first()));
        assert(esc(s.take(i)) + esc(s.skip(i)) =~= esc_byte(s[0]) + (esc(s.drop_first().take(i - 1))
            + esc(s.drop_first().skip(i - 1))));
        assert(esc_byte(s[0]) + esc(s.drop_first()) =~= esc_byte(s[0]) + (esc(
            s.drop_first().take(i - 1),
        ) + esc(s.drop_first().skip(i - 1))));
    }
}

/// Append raw bytes.
pub fn push_bytes(out: &mut Vec<u8>, s: &[u8])
    ensures
        final(out)@ == old(out)@ + s@,
{
    let mut i: usize = 0;
    while i < s.len()
        invariant
            i <= s@.len(),
            out@ == old(out)@ + s@.take(i as int),
        decreases s@.len() - i,
    {
        out.push(s[i]);
        proof {
            assert(old(out)@ + s@.take(i + 1) =~= (old(out)@ + s@.take(i as int)).push(
                s@[i as int],
            ));
        }
        i = i + 1;
    }
    proof {
        assert(s@.take(s@.len() as int) =~= s@);
    }
}

fn push_esc_byte(out: &mut Vec<u8>, b: u8)
    ensures
        final(out)@ == old(out)@ + esc_byte(b),
{
    if b == 0x22 {
        out.push(0x5C);
        out.push(0x22);
        proof {
            assert(out@ =~= old(out)@ + esc_byte(b));
        }
    } else if b == 0x5C {
        out.push(0x5C);
        out.push(0x5C);
        proof {
            assert(out@ =~= old(out)@ + esc_byte(b));
        }
    } else if b == 0x08 {
        out.push(0x5C);
        out.push(0x62);
        proof {
            assert(out@ =~= old(out)@ + esc_byte(b));
        }
    } else if b == 0x09 {
        out.push(0x5C);
        out.push(0x74);
        proof {
            assert(out@ =~= old(out)@ + esc_byte(b));
        }
    } else if b == 0x0A {
        out.push(0x5C);
        out.push(0x6E);
        proof {
            assert(out@ =~= old(out)@ + esc_byte(b));
        }
    } else if b == 0x0C {
        out.push(0x5C);
        out.push(0x66);
        proof {
            assert(out@ =~= old(out)@ + esc_byte(b));
        }
    } else if b == 0x0D {
        out.push(0x5C);
        out.push(0x72);
        proof {
            assert(out@ =~= old(out)@ + esc_byte(b));
        }
    } else if b < 0x20 {
        out.push(0x5C);
        out.push(0x75);
        out.push(0x30);
        out.push(0x30);
        let hi = b / 16;
        let lo = b % 16;
        out.push(
            if hi < 10 {
                0x30 + hi
            } else {
                0x61 + (hi - 10)
            },
        );
        out.push(
            if lo < 10 {
                0x30 + lo
            } else {
                0x61 + (lo - 10)
            },
        );
        proof {
            assert(out@ =~= old(out)@ + esc_byte(b));
        }
    } else {
        out.push(b);
        proof {
            assert(out@ =~= old(out)@ + esc_byte(b));
        }
    }
}

/// Append a quoted, escaped JSON string.
pub fn push_json_string(out: &mut Vec<u8>, s: &[u8])
    ensures
        final(out)@ == old(out)@ + json_string(s@),
{
    out.push(0x22);
    let ghost base = out@;
    let mut i: usize = 0;
    proof {
        assert(esc(s@.take(0)) =~= Seq::<u8>::empty());
        assert(base + esc(s@.take(0)) =~= base);
    }
    while i < s.len()
        invariant
            i <= s@.len(),
            out@ == base + esc(s@.take(i as int)),
        decreases s@.len() - i,
    {
        push_esc_byte(out, s[i]);
        proof {
            lemma_esc_split(s@.take(i + 1), i as int);
            assert(s@.take(i + 1).take(i as int) =~= s@.take(i as int));
            let last = s@.take(i + 1).skip(i as int);
            assert(last =~= seq![s@[i as int]]);
            assert(esc(last) == esc_byte(s@[i as int]) + esc(last.drop_first()));
            assert(last.drop_first() =~= Seq::<u8>::empty());
            assert(esc(last) =~= esc_byte(s@[i as int]));
            assert(base + esc(s@.take(i + 1)) =~= (base + esc(s@.take(i as int))) + esc_byte(
                s@[i as int],
            ));
        }
        i = i + 1;
    }
    out.push(0x22);
    proof {
        assert(s@.take(s@.len() as int) =~= s@);
        assert(out@ =~= old(out)@ + json_string(s@));
    }
}

/// Append a decimal number.
pub fn push_decimal(out: &mut Vec<u8>, n: u64)
    ensures
        final(out)@ == old(out)@ + dec_digits(n as nat),
    decreases n,
{
    if n < 10 {
        out.push(0x30 + (n as u8));
        proof {
            assert(out@ =~= old(out)@ + dec_digits(n as nat));
        }
    } else {
        push_decimal(out, n / 10);
        out.push(0x30 + ((n % 10) as u8));
        proof {
            assert(out@ =~= old(out)@ + dec_digits(n as nat));
        }
    }
}

/// A string body read from `pos`, just after an opening quote: the unescaped
/// content and the position after the closing quote.
pub open spec fn parse_string_body(s: Seq<u8>, pos: int) -> Option<(Seq<u8>, int)>
    decreases s.len() - pos,
{
    if pos < 0 || pos >= s.len() {
        None
    } else if s[pos] == 0x22 {
        Some((Seq::empty(), pos + 1))
    } else if s[pos] == 0x5C {
        if pos + 1 >= s.len() {
            None
        } else {
            let e = s[pos + 1];
            if e == 0x22 || e == 0x5C {
                cons_parsed(e, parse_string_body(s, pos + 2))
            } else if e == 0x62 {
                cons_parsed(0x08, parse_string_body(s, pos + 2))
            } else if e == 0x74 {
                cons_parsed(0x09, parse_string_body(s, pos + 2))
            } else if e == 0x6E {
                cons_parsed(0x0A, parse_string_body(s, pos + 2))
            } else if e == 0x66 {
                cons_parsed(0x0C, parse_string_body(s, pos + 2))
            } else if e == 0x72 {
                cons_parsed(0x0D, parse_string_body(s, pos + 2))
            } else if e == 0x75 {
                if pos + 6 > s.len() {
                    None
                } else if s[pos + 2] == 0x30 && s[pos + 3] == 0x30 {
                    match (hex_val(s[pos + 4]), hex_val(s[pos + 5])) {
                        (Some(hi), Some(lo)) => cons_parsed(
                            (hi * 16 + lo) as u8,
                            parse_string_body(s, pos + 6),
                        ),
                        _ => None,
                    }
                } else {
                    None
                }
            } else {
                None
            }
        }
    } else {
        cons_parsed(s[pos], parse_string_body(s, pos + 1))
    }
}

/// Prepend a byte to a parse result.
pub open spec fn cons_parsed(b: u8, r: Option<(Seq<u8>, int)>) -> Option<(Seq<u8>, int)> {
    match r {
        Some((rest, end)) => Some((seq![b] + rest, end)),
        None => None,
    }
}

/// Reading a written string gives the original bytes back: at `pos` the
/// input holds the escape of `x`, a closing quote, and anything after.
pub proof fn lemma_parse_esc(s: Seq<u8>, pos: int, x: Seq<u8>)
    requires
        0 <= pos,
        pos + esc(x).len() + 1 <= s.len(),
        s.subrange(pos, pos + esc(x).len() + 1) == esc(x) + seq![0x22u8],
    ensures
        parse_string_body(s, pos) == Some((x, pos + esc(x).len() + 1)),
    decreases x.len(),
{
    let w = esc(x) + seq![0x22u8];
    if x.len() == 0 {
        assert(esc(x).len() == 0);
        assert(s[pos] == w[0]);
        assert(s[pos] == 0x22);
    } else {
        let b = x[0];
        let eb = esc_byte(b);
        let xt = x.drop_first();
        assert(esc(x) == eb + esc(xt));
        assert forall|j: int| 0 <= j < eb.len() implies s[pos + j] == eb[j] by {
            assert(s.subrange(pos, pos + esc(x).len() + 1)[j] == s[pos + j]);
            assert(w[j] == eb[j]);
        }
        assert(s[pos] == eb[0]) by {
            assert(s[pos + 0] == eb[0]);
        }
        if eb.len() >= 2 {
            assert(s[pos + 1] == eb[1]);
        }
        if eb.len() >= 6 {
            assert(s[pos + 2] == eb[2]);
            assert(s[pos + 3] == eb[3]);
            assert(s[pos + 4] == eb[4]);
            assert(s[pos + 5] == eb[5]);
        }
        let pos2 = pos + eb.len();
        assert(s.subrange(pos2, pos2 + esc(xt).len() + 1) =~= esc(xt) + seq![0x22u8]) by {
            assert forall|j: int| 0 <= j < esc(xt).len() + 1 implies s.subrange(
                pos2,
                pos2 + esc(xt).len() + 1,
            )[j] == (esc(xt) + seq![0x22u8])[j] by {
                assert(s[pos2 + j] == s.subrange(pos, pos + esc(x).len() + 1)[eb.len() + j]);
                assert(w[eb.len() + j] == (esc(xt) + seq![0x22u8])[j]);
            }
        }
        lemma_parse_esc(s, pos2, xt);
        if b == 0x22 || b == 0x5C {
            assert(eb =~= seq![0x5Cu8, b]);
            assert(s[pos] == 0x5C && s[pos + 1] == b);
            assert(parse_string_body(s, pos) == cons_parsed(b, parse_string_body(s, pos + 2)));
            assert(seq![b] + xt =~= x);
        } else if b == 0x08 || b == 0x09 || b == 0x0A || b == 0x0C || b == 0x0D {
            assert(s[pos] == 0x5C);
            assert(seq![b] + xt =~= x);
        } else if b < 0x20 {
            assert(eb =~= seq![
                0x5Cu8,
                0x75u8,
                0x30u8,
                0x30u8,
                hex_digit(b as int / 16),
                hex_digit(b as int % 16),
            ]);
            assert(s[pos] == 0x5C && s[pos + 1] == 0x75 && s[pos + 2] == 0x30 && s[pos + 3]
                == 0x30);
            assert(hex_val(hex_digit(b as int / 16)) == Some(b as int / 16));
            assert(hex_val(hex_digit(b as int % 16)) == Some(b as int % 16));
            assert(((b as int / 16) * 16 + (b as int % 16)) as u8 == b);
            assert(seq![b] + xt =~= x);
        } else {
            assert(eb =~= seq![b]);
            assert(s[pos] == b);
            assert(b != 0x22 && b != 0x5C);
            assert(seq![b] + xt =~= x);
        }
    }
}

/// Read a string body, as `parse_string_body` describes.
pub fn parse_string_at(s: &[u8], pos: usize) -> (r: Option<(Vec<u8>, usize)>)
    ensures
        match r {
            Some((v, end)) => parse_string_body(s@, pos as int) == Some((v@, end as int)) && pos
                < end <= s@.len(),
            None => parse_string_body(s@, pos as int) is None,
        },
    decreases s@.len() - pos,
{
    if pos >= s.len() {
        return None;
    }
    let b = s[pos];
    if b == 0x22 {
        let v: Vec<u8> = Vec::new();
        proof {
            assert(v@ =~= Seq::<u8>::empty());
        }
        return Some((v, pos + 1));
    }
    if b == 0x5C {
        if pos + 1 >= s.len() {
            return None;
        }
        let e = s[pos + 1];
        let (decoded, next): (u8, usize) = if e == 0x22 || e == 0x5C {
            (e, pos + 2)
        } else if e == 0x62 {
            (0x08, pos + 2)
        } else if e == 0x74 {
            (0x09, pos + 2)
        } else if e == 0x6E {
            (0x0A, pos + 2)
        } else if e == 0x66 {
            (0x0C, pos + 2)
        } else if e == 0x72 {
            (0x0D, pos + 2)
        } else if e == 0x75 {
            if s.len() - pos < 6 {
                return None;
            }
            if !(s[pos + 2] == 0x30 && s[pos + 3] == 0x30) {
                return None;
            }
            let hi = match hex_val_of(s[pos + 4]) {
                Some(v) => v,
                None => {
                    return None;
                },
            };
            let lo = match hex_val_of(s[pos + 5]) {
                Some(v) => v,
                None => {
                    return None;
                },
            };
            (hi * 16 + lo, pos + 6)
        } else {
            return None;
        };
        match parse_string_at(s, next) {
            Some((mut rest, end)) => {
                let ghost before = rest@;
                rest.insert(0, decoded);
                proof {
                    assert(rest@ =~= seq![decoded] + before);
                }
                return Some((rest, end));
            },
            None => {
                return None;
            },
        }
    }
    match parse_string_at(s, pos + 1) {
        Some((mut rest, end)) => {
            let ghost before = rest@;
            rest.insert(0, b);
            proof {
                assert(rest@ =~= seq![b] + before);
            }
            Some((rest, end))
        },
        None => None,
    }
}

fn hex_val_of(b: u8) -> (r: Option<u8>)
    ensures
        match r {
            Some(v) => hex_val(b) == Some(v as int) && v < 16,
            None => hex_val(b) is None,
        },
{
    if 0x30 <= b && b <= 0x39 {
        Some(b - 0x30)
    } else if 0x61 <= b && b <= 0x66 {
        Some(b - 0x61 + 10)
    } else if 0x41 <= b && b <= 0x46 {
        Some(b - 0x41 + 10)
    } else {
        None
    }
}

/// A decimal run read from `pos` with digits already read in `acc`: the
/// value and the position of the first non-digit. Fails past 64 bits.
pub open spec fn parse_decimal_from(s: Seq<u8>, pos: int, acc: nat) -> Option<(u64, int)>
    decreases s.len() - pos,
{
    if pos < 0 || pos >= s.len() || !(0x30 <= s[pos] <= 0x39) {
        Some((acc as u64, pos))
    } else {
        let acc2 = (acc * 10 + (s[pos] - 0x30)) as nat;
        if acc2 > u64::MAX {
            None
        } else {
            parse_decimal_from(s, pos + 1, acc2)
        }
    }
}

/// A decimal number at `pos`: at least one digit, value within 64 bits.
pub open spec fn parse_decimal(s: Seq<u8>, pos: int) -> Option<(u64, int)> {
    if 0 <= pos < s.len() && 0x30 <= s[pos] <= 0x39 {
        parse_decimal_from(s, pos, 0)
    } else {
        None
    }
}

/// Read a decimal number, as `parse_decimal` describes.
pub fn parse_decimal_at(s: &[u8], pos: usize) -> (r: Option<(u64, usize)>)
    ensures
        match r {
            Some((v, end)) => parse_decimal(s@, pos as int) == Some((v, end as int)) && pos < end
                <= s@.len(),
            None => parse_decimal(s@, pos as int) is None,
        },
{
    if pos >= s.len() || s[pos] < 0x30 || s[pos] > 0x39 {
        return None;
    }
    let mut acc: u64 = 0;
    let mut i: usize = pos;
    while i < s.len() && 0x30 <= s[i] && s[i] <= 0x39
        invariant
            pos <= i <= s@.len(),
            parse_decimal_from(s@, pos as int, 0) == parse_decimal_from(s@, i as int, acc as nat),
        decreases s@.len() - i,
    {
        let d = (s[i] - 0x30) as u64;
        let shifted = match acc.checked_mul(10) {
            Some(v) => v,
            None => {
                return None;
            },
        };
        acc = match shifted.checked_add(d) {
            Some(v) => v,
            None => {
                return None;
            },
        };
        i = i + 1;
    }
    proof {
        assert(parse_decimal_from(s@, i as int, acc as nat) == Some((acc, i as int)));
        assert(pos < i);
    }
    Some((acc, i))
}

/// Reading a written number gives it back, when a non-digit follows.
pub proof fn lemma_parse_decimal(s: Seq<u8>, pos: int, n: u64)
    requires
        0 <= pos,
        pos + dec_digits(n as nat).len() <= s.len(),
        s.subrange(pos, pos + dec_digits(n as nat).len()) == dec_digits(n as nat),
        pos + dec_digits(n as nat).len() == s.len() || !(0x30 <= s[pos + dec_digits(
            n as nat,
        ).len()] <= 0x39),
    ensures
        parse_decimal(s, pos) == Some((n, pos + dec_digits(n as nat).len())),
{
    lemma_dec_digits_shape(n as nat);
    lemma_parse_decimal_from(s, pos, 0, n as nat);
}

/// Every digit byte of a written number is a digit, and the first digit of a
/// multi-digit number keeps the whole value reachable from accumulator zero.
proof fn lemma_dec_digits_shape(n: nat)
    ensures
        dec_digits(n).len() >= 1,
        forall|j: int| 0 <= j < dec_digits(n).len() ==> 0x30 <= #[trigger] dec_digits(n)[j]
            <= 0x39,
    decreases n,
{
    if n >= 10 {
        lemma_dec_digits_shape(n / 10);
    }
}

/// Parsing the digits of `v`, arriving with `acc` already read, yields
/// `acc * 10^digits + v`; stated here only for `acc` carrying the digits
/// that precede those of `v` in one written number.
proof fn lemma_parse_decimal_from(s: Seq<u8>, pos: int, acc: nat, v: nat)
    requires
        0 <= pos,
        acc * pow10(dec_digits(v).len()) + v <= u64::MAX,
        pos + dec_digits(v).len() <= s.len(),
        s.subrange(pos, pos + dec_digits(v).len()) == dec_digits(v),
        pos + dec_digits(v).len() == s.len() || !(0x30 <= s[pos + dec_digits(v).len()] <= 0x39),
    ensures
        parse_decimal_from(s, pos, acc) == Some(
            ((acc * pow10(dec_digits(v).len()) + v) as u64, pos + dec_digits(v).len()),
        ),
    decreases v,
{
    lemma_dec_digits_shape(v);
    if v < 10 {
        assert(dec_digits(v) =~= seq![(0x30 + v) as u8]);
        assert(s.subrange(pos, pos + dec_digits(v).len())[0] == s[pos + 0]);
        assert(s[pos] == (0x30 + v) as u8);
        assert(pow10(1) == 10) by {
            reveal_with_fuel(pow10, 2);
        }
        let acc2 = (acc * 10 + v) as nat;
        assert(acc2 <= u64::MAX);
        assert(parse_decimal_from(s, pos, acc) == parse_decimal_from(s, pos + 1, acc2));
        assert(pos + 1 == s.len() || !(0x30 <= s[pos + 1] <= 0x39));
        assert(parse_decimal_from(s, pos + 1, acc2) == Some((acc2 as u64, pos + 1)));
    } else {
        let head = dec_digits(v / 10);
        let k = head.len();
        assert(dec_digits(v) == head.push((0x30 + v % 10) as u8));
        assert(dec_digits(v).len() == k + 1);
        // The head digits parse first, with the last digit still unread.
        assert(s.subrange(pos, pos + k) =~= head) by {
            assert forall|j: int| 0 <= j < k implies s.subrange(pos, pos + k)[j] == head[j] by {
                assert(s[pos + j] == s.subrange(pos, pos + (k + 1))[j]);
                assert(dec_digits(v)[j] == head[j]);
            }
        }
        assert(s.subrange(pos, pos + dec_digits(v).len())[k as int] == s[pos + k]);
        assert(dec_digits(v)[k as int] == (0x30 + v % 10) as u8);
        assert(s[pos + k] == (0x30 + v % 10) as u8);
        assert(pow10((k + 1) as nat) == pow10(k as nat) * 10) by {
            lemma_pow10_step(k as nat);
        }
        assert(acc * (pow10(k as nat) * 10) + v == (acc * pow10(k as nat) + v / 10) * 10 + v % 10)
            by (nonlinear_arith);
        lemma_parse_decimal_from_partial(s, pos, acc, v / 10, k as int);
        let acc3 = (acc * pow10(k as nat) + v / 10) as nat;
        assert(parse_decimal_from(s, pos, acc) == parse_decimal_from(s, pos + k, acc3));
        assert(0x30 <= s[pos + k] <= 0x39);
        let acc4 = (acc3 * 10 + v % 10) as nat;
        assert(acc4 == acc * pow10((k + 1) as nat) + v);
        assert(parse_decimal_from(s, pos + k, acc3) == parse_decimal_from(s, pos + k + 1, acc4));
        assert(parse_decimal_from(s, pos + k + 1, acc4) == Some((acc4 as u64, pos + k + 1)));
    }
}

/// Parsing stops nowhere inside the digits of `v/10`: after its digits the
/// accumulator holds them and the position sits on the last digit.
proof fn lemma_parse_decimal_from_partial(s: Seq<u8>, pos: int, acc: nat, h: nat, k: int)
    requires
        0 <= pos,
        k == dec_digits(h).len(),
        acc * (pow10(k as nat) * 10) + h * 10 + 9 <= u64::MAX + 9,
        acc * pow10(k as nat) + h <= u64::MAX,
        pos + k < s.len(),
        s.subrange(pos, pos + k) == dec_digits(h),
        0x30 <= s[pos + k] <= 0x39,
    ensures
        parse_decimal_from(s, pos, acc) == parse_decimal_from(
            s,
            pos + k,
            (acc * pow10(k as nat) + h) as nat,
        ),
    decreases h,
{
    lemma_dec_digits_shape(h);
    if h < 10 {
        assert(dec_digits(h) =~= seq![(0x30 + h) as u8]);
        assert(s.subrange(pos, pos + k)[0] == s[pos + 0]);
        assert(s[pos] == (0x30 + h) as u8);
        assert(pow10(1) == 10) by {
            reveal_with_fuel(pow10, 2);
        }
        let acc2 = (acc * 10 + h) as nat;
        assert(acc2 <= u64::MAX);
        assert(parse_decimal_from(s, pos, acc) == parse_decimal_from(s, pos + 1, acc2));
    } else {
        let head = dec_digits(h / 10);
        let k1 = head.len();
        assert(dec_digits(h) == head.push((0x30 + h % 10) as u8));
        assert(k == k1 + 1);
        assert(s.subrange(pos, pos + k1) =~= head) by {
            assert forall|j: int| 0 <= j < k1 implies s.subrange(pos, pos + k1)[j] == head[j] by {
                assert(s[pos + j] == s.subrange(pos, pos + k)[j]);
                assert(dec_digits(h)[j] == head[j]);
            }
        }
        assert(s.subrange(pos, pos + k)[k1 as int] == s[pos + k1]);
        assert(dec_digits(h)[k1 as int] == (0x30 + h % 10) as u8);
        assert(s[pos + k1] == (0x30 + h % 10) as u8);
        assert(pow10((k1 + 1) as nat) == pow10(k1 as nat) * 10) by {
            lemma_pow10_step(k1 as nat);
        }
        assert(acc * (pow10(k1 as nat) * 10) + h == (acc * pow10(k1 as nat) + h / 10) * 10 + h % 10)
            by (nonlinear_arith);
        assert(acc * (pow10(k1 as nat) * 10 * 10) + (h / 10) * 10 + 9 <= acc * (pow10(
            (k1 + 1) as nat,
        ) * 10) + h * 10 + 9) by (nonlinear_arith)
            requires pow10((k1 + 1) as nat) == pow10(k1 as nat) * 10, h >= 10;
        lemma_parse_decimal_from_partial(s, pos, acc, h / 10, k1 as int);
        let acc3 = (acc * pow10(k1 as nat) + h / 10) as nat;
        assert(0x30 <= s[pos + k1] <= 0x39);
        let acc4 = (acc3 * 10 + h % 10) as nat;
        assert(acc4 == acc * pow10(k as nat) + h);
        assert(acc4 <= u64::MAX);
        assert(parse_decimal_from(s, pos + k1, acc3) == parse_decimal_from(s, pos + k1 + 1, acc4));
    }
}

/// Ten raised to `n`.
pub open spec fn pow10(n: nat) -> nat
    decreases n,
{
    if n == 0 {
        1
    } else {
        10 * pow10((n - 1) as nat)
    }
}

proof fn lemma_pow10_step(k: nat)
    ensures
        pow10(k + 1) == pow10(k) * 10,
    decreases k,
{
    if k > 0 {
        lemma_pow10_step((k - 1) as nat);
    }
}

/// Whether the bytes at `pos` start with `lit`.
pub open spec fn starts_with(s: Seq<u8>, pos: int, lit: Seq<u8>) -> bool {
    0 <= pos && pos + lit.len() <= s.len() && s.subrange(pos, pos + lit.len()) == lit
}

/// Check a literal at `pos`, returning the position after it.
pub fn expect_lit(s: &[u8], pos: usize, lit: &[u8]) -> (r: Option<usize>)
    ensures
        match r {
            Some(end) => starts_with(s@, pos as int, lit@) && end == pos + lit@.len(),
            None => !starts_with(s@, pos as int, lit@),
        },
{
    if pos > s.len() || s.len() - pos < lit.len() {
        return None;
    }
    let mut i: usize = 0;
    while i < lit.len()
        invariant
            i <= lit@.len(),
            pos + lit@.len() <= s@.len(),
            s@.len() <= usize::MAX,
            forall|j: int| 0 <= j < i ==> s@[pos + j] == lit@[j],
        decreases lit@.len() - i,
    {
        proof {
            assert(pos + i < s@.len());
        }
        if s[pos + i] != lit[i] {
            proof {
                assert(s@.subrange(pos as int, pos + lit@.len())[i as int] != lit@[i as int]);
            }
            return None;
        }
        i = i + 1;
    }
    proof {
        assert(s@.subrange(pos as int, pos + lit@.len()) =~= lit@);
    }
    Some(pos + lit.len())
}

} // verus!
