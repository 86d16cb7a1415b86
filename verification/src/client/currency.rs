//! Arweave currency amounts: whole AR and a Winston remainder.

use vstd::prelude::*;
use vstd::utf8::encode_utf8;

verus! {

/// Winstons in one AR.
pub const WINSTONS_PER_AR: u64 = 1_000_000_000_000;

/// Failure while parsing a currency string.
#[derive(Debug, Clone, Copy, PartialEq, Eq, Structural)]
pub enum Error {
    ParseIntError,
}

/// An amount split into whole AR and the Winston remainder below one AR.
#[derive(Clone, Copy, Debug, Eq, PartialEq)]
pub struct Currency {
    pub arweave: u64,
    pub winston: u64,
}

/// The value of a decimal digit run, `None` on a non-digit or overflow past
/// 64 bits. `acc` carries digits already read.
pub open spec fn dec_value(b: Seq<u8>, acc: nat) -> Option<nat>
    decreases b.len(),
{
    if b.len() == 0 {
        Some(acc)
    } else if 0x30 <= b[0] <= 0x39 {
        let acc2 = (acc * 10 + (b[0] - 0x30)) as nat;
        if acc2 > u64::MAX {
            None
        } else {
            dec_value(b.drop_first(), acc2)
        }
    } else {
        None
    }
}

/// A decimal `u64` as `str::parse` reads it: an optional leading plus sign,
/// then at least one digit, with the value fitting in 64 bits.
pub open spec fn parse_u64_spec(b: Seq<u8>) -> Option<u64> {
    let digits = if b.len() > 0 && b[0] == 0x2B {
        b.drop_first()
    } else {
        b
    };
    if digits.len() == 0 {
        None
    } else {
        match dec_value(digits, 0) {
            Some(v) => Some(v as u64),
            None => None,
        }
    }
}

/// How many dot separators a byte sequence holds.
pub open spec fn count_dots(s: Seq<u8>) -> nat
    decreases s.len(),
{
    if s.len() == 0 {
        0
    } else {
        (if s[0] == 0x2E {
            1nat
        } else {
            0nat
        }) + count_dots(s.drop_first())
    }
}

/// What a currency string parses to: `whole.frac` gives AR and Winston,
/// a plain number gives Winston alone.
pub open spec fn parse_currency_spec(s: Seq<u8>) -> Option<(u64, u64)> {
    if count_dots(s) == 1 {
        let cut = choose|cut: int| 0 <= cut < s.len() && s[cut] == 0x2E;
        match (parse_u64_spec(s.take(cut)), parse_u64_spec(s.skip(cut + 1))) {
            (Some(a), Some(w)) => Some((a, w)),
            _ => None,
        }
    } else {
        match parse_u64_spec(s) {
            Some(w) => Some((0, w)),
            None => None,
        }
    }
}

fn parse_u64_bytes(b: &[u8]) -> (r: Result<u64, Error>)
    ensures
        match r {
            Ok(v) => parse_u64_spec(b@) == Some(v),
            Err(Error::ParseIntError) => parse_u64_spec(b@) is None,
        },
{
    let start: usize = if b.len() > 0 && b[0] == 0x2B {
        1
    } else {
        0
    };
    let ghost digits = if b@.len() > 0 && b@[0] == 0x2B {
        b@.drop_first()
    } else {
        b@
    };
    proof {
        assert(digits =~= b@.skip(start as int));
    }
    if b.len() == start {
        return Err(Error::ParseIntError);
    }
    let mut acc: u64 = 0;
    let mut i: usize = start;
    while i < b.len()
        invariant
            start <= i <= b@.len(),
            digits == b@.skip(start as int),
            digits == (if b@.len() > 0 && b@[0] == 0x2B {
                b@.drop_first()
            } else {
                b@
            }),
            dec_value(digits, 0) == dec_value(b@.skip(i as int), acc as nat),
        decreases b@.len() - i,
    {
        let ghost rest = b@.skip(i as int);
        proof {
            assert(rest[0] == b@[i as int]);
            assert(rest.drop_first() =~= b@.skip(i + 1));
        }
        let d = b[i];
        if d < 0x30 || d > 0x39 {
            return Err(Error::ParseIntError);
        }
        let dv = (d - 0x30) as u64;
        let shifted = match acc.checked_mul(10) {
            Some(v) => v,
            None => {
                proof {
                    assert(acc * 10 + (rest[0] - 0x30) > u64::MAX);
                }
                return Err(Error::ParseIntError);
            },
        };
        acc = match shifted.checked_add(dv) {
            Some(v) => v,
            None => {
                proof {
                    assert(acc * 10 + (rest[0] - 0x30) > u64::MAX);
                }
                return Err(Error::ParseIntError);
            },
        };
        i = i + 1;
    }
    proof {
        assert(b@.skip(b@.len() as int) =~= Seq::<u8>::empty());
    }
    Ok(acc)
}

impl Currency {
    /// Split an integral Winston amount into AR and remainder.
    ///
    /// The AR part must fit in 64 bits, which holds for any amount below
    /// about 1.8 * 10^31 Winstons.
    pub fn from_u128(u: u128) -> (r: Currency)
        requires
            u as nat / (WINSTONS_PER_AR as nat) <= u64::MAX,
        ensures
            r.arweave == u as nat / (WINSTONS_PER_AR as nat),
            r.winston == u as nat % (WINSTONS_PER_AR as nat),
    {
        let per: u128 = 1_000_000_000_000;
        let arweave = (u / per) as u64;
        let winston = (u % per) as u64;
        proof {
            assert(u as nat % (WINSTONS_PER_AR as nat) < WINSTONS_PER_AR as nat) by (nonlinear_arith);
        }
        Currency { arweave, winston }
    }

    /// Parse a currency string: `AR.winston` or a bare Winston amount.
    pub fn parse(s: &str) -> (r: Result<Currency, Error>)
        ensures
            match r {
                Ok(c) => parse_currency_spec(encode_utf8(s@)) == Some((c.arweave, c.winston)),
                Err(Error::ParseIntError) => parse_currency_spec(encode_utf8(s@)) is None,
            },
    {
        let b = s.as_bytes();
        let ghost bs = b@;

        // Find the dot, and reject more than one.
        let mut dot: Option<usize> = None;
        let mut i: usize = 0;
        let mut ndots: usize = 0;
        proof {
            assert(bs.skip(0) =~= bs);
        }
        while i < b.len()
            invariant
                i <= bs.len(),
                bs == b@,
                ndots <= i,
                count_dots(bs) == ndots + count_dots(bs.skip(i as int)),
                match dot {
                    Some(c) => ndots >= 1 && c < i && bs[c as int] == 0x2E,
                    None => ndots == 0,
                },
            decreases bs.len() - i,
        {
            proof {
                let rest = bs.skip(i as int);
                assert(rest[0] == bs[i as int]);
                assert(rest.drop_first() =~= bs.skip(i + 1));
            }
            if b[i] == 0x2E {
                if dot.is_none() {
                    dot = Some(i);
                }
                ndots = ndots + 1;
            }
            i = i + 1;
        }
        proof {
            assert(bs.skip(bs.len() as int) =~= Seq::<u8>::empty());
        }

        if ndots == 1 {
            let cut = match dot {
                Some(c) => c,
                None => {
                    proof {
                        assert(false);
                    }
                    0
                },
            };
            let ghost chosen = choose|c: int| 0 <= c < bs.len() && bs[c] == 0x2E;
            proof {
                assert(0 <= cut < bs.len() && bs[cut as int] == 0x2E);
                assert(exists|c: int| 0 <= c < bs.len() && bs[c] == 0x2E);
                // With a single dot, any position holding one is the found one.
                lemma_single_dot_unique(bs, cut as int, chosen);
            }
            let whole = match parse_u64_bytes(vstd::slice::slice_subrange(b, 0, cut)) {
                Ok(v) => v,
                Err(e) => {
                    return Err(e);
                },
            };
            let frac = match parse_u64_bytes(
                vstd::slice::slice_subrange(b, cut + 1, b.len()),
            ) {
                Ok(v) => v,
                Err(e) => {
                    return Err(e);
                },
            };
            proof {
                assert(bs.take(chosen) =~= bs.subrange(0, cut as int));
                assert(bs.skip(chosen + 1) =~= bs.subrange(cut + 1, bs.len() as int));
            }
            Ok(Currency { arweave: whole, winston: frac })
        } else {
            match parse_u64_bytes(b) {
                Ok(v) => Ok(Currency { arweave: 0, winston: v }),
                Err(e) => Err(e),
            }
        }
    }
}

/// In a byte sequence whose dot count is one, all dot positions coincide.
proof fn lemma_single_dot_unique(s: Seq<u8>, a: int, c: int)
    requires
        count_dots(s) == 1,
        0 <= a < s.len() && s[a] == 0x2E,
        0 <= c < s.len() && s[c] == 0x2E,
    ensures
        a == c,
{
    if a != c {
        let lo = if a < c {
            a
        } else {
            c
        };
        let hi = if a < c {
            c
        } else {
            a
        };
        lemma_two_dots(s, lo, hi);
    }
}

/// Dots at two distinct positions count as at least two.
proof fn lemma_two_dots(s: Seq<u8>, lo: int, hi: int)
    requires
        0 <= lo < hi < s.len(),
        s[lo] == 0x2E,
        s[hi] == 0x2E,
    ensures
        count_dots(s) >= 2,
    decreases s.len(),
{
    if lo == 0 {
        assert(s.drop_first()[hi - 1] == s[hi]);
        lemma_one_dot(s.drop_first(), hi - 1);
    } else {
        assert(s.drop_first()[lo - 1] == s[lo]);
        assert(s.drop_first()[hi - 1] == s[hi]);
        lemma_two_dots(s.drop_first(), lo - 1, hi - 1);
    }
}

/// A dot at some position counts as at least one.
proof fn lemma_one_dot(s: Seq<u8>, at: int)
    requires
        0 <= at < s.len(),
        s[at] == 0x2E,
    ensures
        count_dots(s) >= 1,
    decreases s.len(),
{
    if at > 0 {
        assert(s.drop_first()[at - 1] == s[at]);
        lemma_one_dot(s.drop_first(), at - 1);
    }
}

} // verus!
