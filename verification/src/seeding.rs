//! Deriving a 64-bit seed from user-supplied text: text that reads as a
//! decimal `u64` is taken at face value; anything else is hashed with
//! SHA3-256 and the first eight bytes of the digest are read big-endian.

use vstd::prelude::*;

use vstd::string::StringSliceAdditionalSpecFns;

use sha3::Digest;
use sha3::Sha3_256;

verus! {

/// An ASCII decimal digit.
pub open spec fn is_ascii_digit(c: char) -> bool {
    48 <= c as u32 <= 57
}

pub open spec fn digit_val(c: char) -> int {
    c as u32 - 48
}

pub open spec fn all_digits(s: Seq<char>) -> bool {
    forall|i: int| 0 <= i < s.len() ==> is_ascii_digit(#[trigger] s[i])
}

/// The value of a string of decimal digits, most significant first.
pub open spec fn dec_value(s: Seq<char>) -> int
    decreases s.len(),
{
    if s.len() == 0 {
        0
    } else {
        dec_value(s.drop_last()) * 10 + digit_val(s.last())
    }
}

/// The digit part of a decimal literal: an optional leading `+` sign is
/// dropped, as `u64::from_str` does.
pub open spec fn u64_digits(s: Seq<char>) -> Seq<char> {
    if s.len() > 0 && s[0] == '+' {
        s.skip(1)
    } else {
        s
    }
}

/// Whether `u64::from_str` accepts the string.
pub open spec fn is_u64_string(s: Seq<char>) -> bool {
    let d = u64_digits(s);
    d.len() > 0 && all_digits(d) && dec_value(d) <= u64::MAX
}

pub open spec fn u64_string_value(s: Seq<char>) -> int {
    dec_value(u64_digits(s))
}

proof fn lemma_dec_value_nonneg(s: Seq<char>)
    requires
        all_digits(s),
    ensures
        0 <= dec_value(s),
    decreases s.len(),
{
    if s.len() > 0 {
        assert(all_digits(s.drop_last())) by {
            assert(forall|i: int| 0 <= i < s.len() - 1 ==> s.drop_last()[i] == s[i]);
        }
        lemma_dec_value_nonneg(s.drop_last());
    }
}

/// Appending digits never decreases the value of a digit string.
proof fn lemma_dec_value_prefix_le(s: Seq<char>, k: int)
    requires
        all_digits(s),
        0 <= k <= s.len(),
    ensures
        dec_value(s.take(k)) <= dec_value(s),
    decreases s.len(),
{
    if k == s.len() {
        assert(s.take(k) =~= s);
    } else {
        assert(all_digits(s.drop_last())) by {
            assert(forall|i: int| 0 <= i < s.len() - 1 ==> s.drop_last()[i] == s[i]);
        }
        assert(s.drop_last().take(k) =~= s.take(k));
        lemma_dec_value_prefix_le(s.drop_last(), k);
        lemma_dec_value_nonneg(s.drop_last());
    }
}

/// Reading one more digit multiplies the prefix value by ten.
proof fn lemma_dec_value_step(s: Seq<char>, k: int)
    requires
        0 <= k < s.len(),
    ensures
        dec_value(s.take(k + 1)) == dec_value(s.take(k)) * 10 + digit_val(s[k]),
{
    assert(s.take(k + 1).drop_last() =~= s.take(k));
    assert(s.take(k + 1).last() == s[k]);
}

/// Parses a decimal `u64` exactly as `u64::from_str` does: an optional
/// leading `+`, then one or more ASCII digits, rejecting anything else and
/// values above `u64::MAX`.
pub fn parse_u64(s: &str) -> (r: Option<u64>)
    ensures
        is_u64_string(s@) ==> (r matches Some(v) && v == u64_string_value(s@)),
        !is_u64_string(s@) ==> r is None,
{
    let len = s.unicode_len();
    let mut start: usize = 0;
    if len > 0 && s.get_char(0) == '+' {
        start = 1;
    }
    let ghost digits = u64_digits(s@);
    proof {
        assert(digits =~= s@.skip(start as int));
    }
    if start >= len {
        // Empty input, or a bare sign.
        return None;
    }
    let mut val: u64 = 0;
    let mut i: usize = start;
    while i < len
        invariant
            start <= i <= len,
            len == s@.len(),
            digits == u64_digits(s@),
            digits == s@.skip(start as int),
            digits.len() == len - start,
            all_digits(digits.take(i - start)),
            val == dec_value(digits.take(i - start)),
        decreases len - i,
    {
        let c = s.get_char(i);
        let cu = c as u32;
        proof {
            assert(digits[i - start] == s@[i as int]);
            lemma_dec_value_step(digits, i - start);
        }
        if cu < 48 || cu > 57 {
            proof {
                assert(!all_digits(digits)) by {
                    assert(!is_ascii_digit(digits[i - start]));
                }
            }
            return None;
        }
        let d = (cu - 48) as u64;
        if val > (u64::MAX - d) / 10 {
            // The digits read so far already exceed u64::MAX.
            proof {
                vstd::arithmetic::div_mod::lemma_fundamental_div_mod(
                    (u64::MAX - d) as int,
                    10,
                );
                assert(val * 10 + d > u64::MAX);
                assert(all_digits(digits.take(i - start + 1)));
                if is_u64_string(s@) {
                    lemma_dec_value_prefix_le(digits, i - start + 1);
                    assert(dec_value(digits) <= u64::MAX);
                    assert(false);
                }
            }
            return None;
        }
        proof {
            vstd::arithmetic::div_mod::lemma_fundamental_div_mod((u64::MAX - d) as int, 10);
            assert(val * 10 + d <= u64::MAX);
        }
        val = val * 10 + d;
        i = i + 1;
    }
    proof {
        assert(digits.take(i - start) =~= digits);
    }
    Some(val)
}

/// The greatest value `i` big-endian bytes can hold.
spec fn be_max(i: int) -> int
    decreases i,
{
    if i <= 0 {
        0
    } else {
        be_max(i - 1) * 256 + 255
    }
}

/// The big-endian value of a byte string, most significant first.
pub open spec fn be_value(b: Seq<u8>) -> int
    decreases b.len(),
{
    if b.len() == 0 {
        0
    } else {
        be_value(b.drop_last()) * 256 + b.last()
    }
}

proof fn lemma_be_max_nonneg(i: int)
    ensures
        0 <= be_max(i),
    decreases i,
{
    if i > 0 {
        lemma_be_max_nonneg(i - 1);
    }
}

proof fn lemma_be_max_mono(i: int, j: int)
    requires
        0 <= i <= j,
    ensures
        be_max(i) <= be_max(j),
    decreases j - i,
{
    if i < j {
        lemma_be_max_mono(i, j - 1);
        lemma_be_max_nonneg(j - 1);
    }
}

/// Reads the first eight bytes as a big-endian unsigned integer.
fn be_u64(bytes: &Vec<u8>) -> (r: u64)
    requires
        bytes@.len() >= 8,
    ensures
        r == be_value(bytes@.take(8)),
{
    let mut val: u64 = 0;
    let mut i: usize = 0;
    while i < 8
        invariant
            0 <= i <= 8,
            bytes@.len() >= 8,
            val == be_value(bytes@.take(i as int)),
            val <= be_max(i as int),
        decreases 8 - i,
    {
        proof {
            assert(bytes@.take(i + 1).drop_last() =~= bytes@.take(i as int));
            lemma_be_max_mono(i as int, 7);
            assert(be_max(7) == 0xff_ffff_ffff_ffff) by {
                assert(be_max(0) == 0);
                assert(be_max(1) == 255);
                assert(be_max(2) == 0xffff);
                assert(be_max(3) == 0xff_ffff);
                assert(be_max(4) == 0xffff_ffff);
                assert(be_max(5) == 0xff_ffff_ffff);
                assert(be_max(6) == 0xffff_ffff_ffff);
            }
        }
        val = val * 256 + (bytes[i] as u64);
        i = i + 1;
    }
    val
}

/// What the SHA3-256 digest of a byte string is; the digest is a function
/// of the bytes alone.
pub uninterp spec fn sha3_256_of(bytes: Seq<u8>) -> Seq<u8>;

/// Relies on `sha3::Sha3_256` through `Digest::digest`: the 32-byte
/// SHA3-256 digest of the input bytes.
#[verifier::external_body]
fn sha3_256(s: &str) -> (r: Vec<u8>)
    ensures
        r@ == sha3_256_of(s.spec_bytes()),
        r@.len() == 32,
{
    Sha3_256::digest(s.as_bytes()).to_vec()
}

/// The seed a piece of text denotes.
pub open spec fn spec_get_seed(s: &str) -> int {
    if is_u64_string(s@) {
        u64_string_value(s@)
    } else {
        be_value(sha3_256_of(s.spec_bytes()).take(8))
    }
}

/// Derives the random seed from free-form text: a decimal number is used
/// as it stands, any other text through its SHA3-256 digest.
pub fn get_seed(seed: &str) -> (r: u64)
    ensures
        r == spec_get_seed(seed),
{
    match parse_u64(seed) {
        Some(v) => v,
        None => {
            let h = sha3_256(seed);
            be_u64(&h)
        },
    }
}

} // verus!
