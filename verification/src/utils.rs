//! Little-endian byte decoding and hashing.

use sha2::Digest;
use vstd::prelude::*;
use vstd::arithmetic::power::{pow, lemma_pow_adds, lemma_pow_increases, lemma_pow_positive};

verus! {

/// Failure of a byte-level numeric conversion.
#[derive(Debug, Clone, Copy, PartialEq, Eq, Structural)]
pub enum Error {
    OverflowError,
}

/// The value of a byte sequence read as a little-endian unsigned integer,
/// with no bound on its width.
pub open spec fn le_bytes_val(s: Seq<u8>) -> nat
    decreases s.len(),
{
    if s.len() == 0 {
        0
    } else {
        s[0] as nat + 256 * le_bytes_val(s.drop_first())
    }
}

/// 256 raised to `n`: the weight of the byte at index `n`.
pub open spec fn pow256(n: nat) -> nat {
    pow(256, n) as nat
}

proof fn lemma_le_bytes_val_unfold(s: Seq<u8>, j: int)
    requires
        0 <= j < s.len(),
    ensures
        le_bytes_val(s.skip(j)) == s[j] as nat + 256 * le_bytes_val(s.skip(j + 1)),
{
    assert(s.skip(j).drop_first() =~= s.skip(j + 1));
    assert(s.skip(j)[0] == s[j]);
}

/// A little-endian value decomposes over concatenation: the right part is
/// weighted by 256 to the length of the left part.
pub proof fn lemma_le_bytes_val_concat(a: Seq<u8>, b: Seq<u8>)
    ensures
        le_bytes_val(a + b) == le_bytes_val(a) + pow256(a.len()) * le_bytes_val(b),
    decreases a.len(),
{
    if a.len() == 0 {
        assert(a + b =~= b);
        assert(pow256(0) == 1) by {
            vstd::arithmetic::power::lemma_pow0(256);
        }
    } else {
        lemma_le_bytes_val_concat(a.drop_first(), b);
        assert((a + b).drop_first() =~= a.drop_first() + b);
        let x = le_bytes_val(a.drop_first());
        let y = le_bytes_val(b);
        let p = pow256((a.len() - 1) as nat);
        assert(le_bytes_val(a + b) == a[0] as nat + 256 * (x + p * y));
        assert(256 * (x + p * y) == 256 * x + (256 * p) * y) by (nonlinear_arith);
        assert(pow256(a.len()) == 256 * p) by {
            lemma_pow_positive(256, (a.len() - 1) as nat);
            lemma_pow_positive(256, a.len());
            assert(1 + ((a.len() - 1) as nat) == a.len());
            lemma_pow_adds(256, 1, (a.len() - 1) as nat);
            vstd::arithmetic::power::lemma_pow1(256);
        }
    }
}

/// A value of `n` bytes is below `256^n`.
pub proof fn lemma_le_bytes_val_bound(s: Seq<u8>)
    ensures
        le_bytes_val(s) < pow256(s.len()),
    decreases s.len(),
{
    if s.len() == 0 {
        assert(pow256(0) == 1) by {
            vstd::arithmetic::power::lemma_pow0(256);
        }
    } else {
        lemma_le_bytes_val_bound(s.drop_first());
        let x = le_bytes_val(s.drop_first());
        let p = pow256((s.len() - 1) as nat);
        lemma_pow_positive(256, (s.len() - 1) as nat);
        assert(256 * x <= 256 * (p - 1)) by (nonlinear_arith)
            requires x <= p - 1, p >= 1;
        assert(pow256(s.len()) == 256 * p) by {
            lemma_pow_adds(256, 1, (s.len() - 1) as nat);
            vstd::arithmetic::power::lemma_pow1(256);
        }
    }
}

/// Appending zero bytes does not change the little-endian value.
pub proof fn lemma_le_bytes_val_zero_pad(s: Seq<u8>, pad: Seq<u8>)
    requires
        forall|i: int| 0 <= i < pad.len() ==> pad[i] == 0,
    ensures
        le_bytes_val(s + pad) == le_bytes_val(s),
{
    lemma_le_bytes_val_concat(s, pad);
    lemma_le_bytes_val_zeros(pad);
    assert(pow256(s.len()) * 0 == 0) by (nonlinear_arith);
}

proof fn lemma_le_bytes_val_zeros(pad: Seq<u8>)
    requires
        forall|i: int| 0 <= i < pad.len() ==> pad[i] == 0,
    ensures
        le_bytes_val(pad) == 0,
    decreases pad.len(),
{
    if pad.len() > 0 {
        lemma_le_bytes_val_zeros(pad.drop_first());
    }
}

/// Any slice of at most 8 bytes has a value that fits in 64 bits.
pub proof fn lemma_le_bytes_val_fits_u64(s: Seq<u8>)
    requires
        s.len() <= 8,
    ensures
        le_bytes_val(s) <= u64::MAX,
{
    lemma_le_bytes_val_bound(s);
    lemma_pow_positive(256, s.len());
    lemma_pow_increases(256, s.len(), 8);
    lemma_pow256_8();
    assert(le_bytes_val(s) < pow(256, s.len()));
    assert(pow(256, s.len()) <= pow(256, 8));
}

proof fn lemma_pow256_8()
    ensures
        pow(256, 8) == 0x1_0000_0000_0000_0000,
{
    reveal_with_fuel(pow, 9);
}

/// A non-zero byte at index 8 or above pushes the value past 64 bits.
pub proof fn lemma_le_bytes_val_high_byte(s: Seq<u8>, i: int)
    requires
        8 <= i < s.len(),
        s[i] != 0,
    ensures
        le_bytes_val(s) > u64::MAX,
{
    let a = s.take(i);
    let b = s.skip(i);
    assert(a + b =~= s);
    lemma_le_bytes_val_concat(a, b);
    lemma_le_bytes_val_unfold(s, i);
    assert(s.skip(i) == b);
    assert(le_bytes_val(b) >= s[i] as nat);
    lemma_pow_increases(256, 8, i as nat);
    lemma_pow256_8();
    lemma_pow_positive(256, i as nat);
    assert(pow256(i as nat) * le_bytes_val(b) >= pow256(i as nat) * 1) by (nonlinear_arith)
        requires le_bytes_val(b) >= 1, pow256(i as nat) > 0;
}

proof fn lemma_le_bytes_val_skip_le(s: Seq<u8>, j: int)
    requires
        0 <= j <= s.len(),
    ensures
        le_bytes_val(s.skip(j)) <= le_bytes_val(s),
    decreases j,
{
    if j > 0 {
        lemma_le_bytes_val_skip_le(s, j - 1);
        lemma_le_bytes_val_unfold(s, j - 1);
    } else {
        assert(s.skip(0) =~= s);
    }
}

/// Read a byte slice as a little-endian unsigned 64-bit integer.
///
/// Slices of any width are accepted; the conversion fails exactly when the
/// value does not fit in 64 bits, so wide slices pass only when their high
/// bytes are all zero.
pub fn byte_array_to_u64(slice: &[u8]) -> (r: Result<u64, Error>)
    ensures
        match r {
            Ok(v) => le_bytes_val(slice@) <= u64::MAX && v == le_bytes_val(slice@),
            Err(e) => le_bytes_val(slice@) > u64::MAX && e == Error::OverflowError,
        },
{
    let mut num: u64 = 0;
    let mut i: usize = slice.len();

    proof {
        assert(slice@.skip(slice@.len() as int) =~= Seq::<u8>::empty());
    }

    while i > 0
        invariant
            i <= slice@.len(),
            num == le_bytes_val(slice@.skip(i as int)),
        decreases i,
    {
        proof {
            lemma_le_bytes_val_unfold(slice@, i - 1);
            lemma_le_bytes_val_skip_le(slice@, i - 1);
        }
        let shifted = match num.checked_mul(256) {
            Some(v) => v,
            None => {
                return Err(Error::OverflowError);
            },
        };
        num = match shifted.checked_add(slice[i - 1] as u64) {
            Some(v) => v,
            None => {
                return Err(Error::OverflowError);
            },
        };
        i = i - 1;
    }
    proof {
        assert(slice@.skip(0) =~= slice@);
    }
    Ok(num)
}

/// The SHA-256 digest of a byte sequence. The digest is a pure function of
/// the message, so two hashes of equal inputs are equal.
pub uninterp spec fn sha256_of(m: Seq<u8>) -> Seq<u8>;

/// The digest is a function of the message alone: equal messages hash to
/// equal digests, in every call and every process.
pub proof fn lemma_sha256_deterministic(a: Seq<u8>, b: Seq<u8>)
    requires
        a == b,
    ensures
        sha256_of(a) == sha256_of(b),
{
}

/// Relies on `sha2::Sha256`: the SHA-256 digest is a deterministic function
/// of the message alone and is exactly 32 bytes long.
#[verifier::external_body]
pub fn sha256(message: &[u8]) -> (r: [u8; 32])
    ensures
        r@ == sha256_of(message@),
        r@.len() == 32,
{
    let mut context = sha2::Sha256::new();
    context.update(message);
    let mut result: [u8; 32] = [0; 32];
    result.copy_from_slice(context.finalize().as_ref());
    result
}

} // verus!
