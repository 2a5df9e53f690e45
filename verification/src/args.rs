//! What the command line asks for, read from the words given on it.

use vstd::prelude::*;
use vstd::string::StrSliceExecFns;

verus! {

/// Why a threshold was refused.
#[derive(Debug, PartialEq, Eq, Clone, Copy)]
pub enum Error {
    /// The word is not a number that fits 16 bits.
    ThresholdParsingError,
    /// The threshold is below 2.
    ThresholdTooSmall,
}

/// Why shares cannot be generated as asked.
#[derive(Debug, PartialEq, Eq, Clone, Copy)]
pub enum GenerateError {
    /// There is no secret to share.
    EmptySecret,
    /// The threshold was refused.
    Threshold(Error),
    /// The number of shares is not a number that fits 16 bits.
    NumberParsingError,
    /// The number of bits is not a number that fits 16 bits.
    BitsParsingError,
    /// More than [`MAX_BITS`] bits are asked for.
    SecretTooLarge,
    /// Fewer shares than the threshold are asked for.
    NumberBelowThreshold,
}

/// The most bits that a secret may have on the command line.
pub const MAX_BITS: u16 = 8000;

/// What `generate` is to do.
#[derive(Debug, PartialEq, Eq, Clone, Copy)]
pub struct GenerateParameters {
    pub bits: u16,
    pub number: u16,
    pub threshold: u16,
}

/// The number that decimal digits write; `None` when `s` holds anything
/// else. No digits write 0.
pub open spec fn decimal(s: Seq<char>) -> Option<nat>
    decreases s.len(),
{
    if s.len() == 0 {
        Some(0)
    } else {
        match decimal(s.drop_last()) {
            None => None,
            Some(v) => if '0' <= s.last() <= '9' {
                Some((10 * v + (s.last() as nat - 48)) as nat)
            } else {
                None
            },
        }
    }
}

/// The 16-bit number that `s` writes: one or more decimal digits, with a
/// `+` allowed before them, and a value that fits.
pub open spec fn written_u16(s: Seq<char>) -> Option<u16> {
    let digits = if s.len() > 0 && s[0] == '+' {
        s.skip(1)
    } else {
        s
    };
    if digits.len() == 0 {
        None
    } else {
        match decimal(digits) {
            Some(v) => if v <= u16::MAX {
                Some(v as u16)
            } else {
                None
            },
            None => None,
        }
    }
}

/// What the start of a string of digits writes is not above what all of
/// it writes, and where the start is no number the whole is none.
pub proof fn lemma_decimal_prefix(s: Seq<char>, k: int)
    requires
        0 <= k <= s.len(),
    ensures
        decimal(s) is Some ==> decimal(s.take(k)) is Some && decimal(s.take(k))->0 <= decimal(s)->0,
    decreases s.len() - k,
{
    if k == s.len() {
        assert(s.take(k) =~= s);
    } else {
        lemma_decimal_prefix(s.drop_last(), k);
        assert(s.drop_last().take(k) =~= s.take(k));
    }
}

/// Reads a 16-bit number.
pub fn parse_u16(s: &str) -> (r: Option<u16>)
    ensures
        r == written_u16(s@),
{
    let n = s.unicode_len();
    let start: usize = if n > 0 && s.get_char(0) == '+' {
        1
    } else {
        0
    };
    if start == n {
        return None;
    }
    let ghost digits = s@.skip(start as int);
    assert(s@.skip(0) =~= s@);
    let mut acc: u32 = 0;
    let mut k: usize = start;
    assert(digits.take(0) =~= Seq::<char>::empty());
    while k < n
        invariant
            n == s@.len(),
            start <= k <= n,
            digits == s@.skip(start as int),
            digits == if s@.len() > 0 && s@[0] == '+' {
                s@.skip(1)
            } else {
                s@
            },
            digits.len() == n - start,
            digits.len() > 0,
            acc <= u16::MAX,
            decimal(digits.take(k - start)) == Some(acc as nat),
        decreases n - k,
    {
        let c = s.get_char(k);
        let v = c as u32;
        proof {
            let next = digits.take(k - start + 1);
            assert(next.drop_last() =~= digits.take(k - start));
            assert(next.last() == c);
            lemma_decimal_prefix(digits, k - start + 1);
            assert(decimal(next) == if '0' <= c <= '9' {
                Some((10 * acc + (c as nat - 48)) as nat)
            } else {
                None
            });
        }
        if v < 48 || v > 57 {
            return None;
        }
        acc = 10 * acc + (v - 48);
        if acc > 65535 {
            return None;
        }
        k += 1;
    }
    assert(digits.take(n - start) =~= digits);
    Some(acc as u16)
}

/// What a threshold word stands for: a 16-bit number that is at least 2.
pub open spec fn threshold_of(value: Seq<char>) -> Result<u16, Error> {
    match written_u16(value) {
        None => Err(Error::ThresholdParsingError),
        Some(t) => if t < 2 {
            Err(Error::ThresholdTooSmall)
        } else {
            Ok(t)
        },
    }
}

/// Reads the threshold.
pub fn parse_threshold(value: &str) -> (r: Result<u16, Error>)
    ensures
        r == threshold_of(value@),
{
    match parse_u16(value) {
        None => Err(Error::ThresholdParsingError),
        Some(t) => {
            if t < 2 {
                return Err(Error::ThresholdTooSmall);
            }
            Ok(t)
        },
    }
}

/// What `generate` is to do for a secret of `secret_len` bytes: the number
/// of shares is the threshold unless given, the number of bits is that of
/// the secret unless given. The first thing wrong is the error, in this
/// order: the secret, the threshold, the number of shares, the bits.
pub open spec fn generate_plan(
    secret_len: nat,
    threshold: Seq<char>,
    number: Option<Seq<char>>,
    bits: Option<Seq<char>>,
) -> Result<GenerateParameters, GenerateError> {
    if secret_len < 1 {
        Err(GenerateError::EmptySecret)
    } else if threshold_of(threshold) is Err {
        Err(GenerateError::Threshold(threshold_of(threshold)->Err_0))
    } else if number is Some && written_u16(number->0) is None {
        Err(GenerateError::NumberParsingError)
    } else if bits is Some && written_u16(bits->0) is None {
        Err(GenerateError::BitsParsingError)
    } else if (bits is Some && written_u16(bits->0)->0 > MAX_BITS) || (bits is None && 8 * secret_len
        > MAX_BITS) {
        Err(GenerateError::SecretTooLarge)
    } else {
        let t = threshold_of(threshold)->Ok_0;
        let n = if number is Some {
            written_u16(number->0)->0
        } else {
            t
        };
        if n < t {
            Err(GenerateError::NumberBelowThreshold)
        } else {
            Ok(
                GenerateParameters {
                    bits: if bits is Some {
                        written_u16(bits->0)->0
                    } else {
                        (8 * secret_len) as u16
                    },
                    number: n,
                    threshold: t,
                },
            )
        }
    }
}

/// Works out what `generate` is to do.
pub fn plan_generate(
    secret_len: usize,
    threshold: &str,
    number: Option<&str>,
    bits: Option<&str>,
) -> (r: Result<GenerateParameters, GenerateError>)
    ensures
        r == generate_plan(
            secret_len as nat,
            threshold@,
            match number {
                Some(w) => Some(w@),
                None => None,
            },
            match bits {
                Some(w) => Some(w@),
                None => None,
            },
        ),
        r matches Ok(p) ==> p.threshold >= 2 && p.number >= p.threshold && p.bits <= MAX_BITS,
{
    if secret_len < 1 {
        return Err(GenerateError::EmptySecret);
    }
    let threshold = match parse_threshold(threshold) {
        Err(e) => {
            return Err(GenerateError::Threshold(e));
        },
        Ok(t) => t,
    };
    let number = match number {
        Some(w) => match parse_u16(w) {
            None => {
                return Err(GenerateError::NumberParsingError);
            },
            Some(n) => n,
        },
        None => threshold,
    };
    let bits = match bits {
        Some(w) => match parse_u16(w) {
            None => {
                return Err(GenerateError::BitsParsingError);
            },
            Some(b) => b,
        },
        None => {
            if secret_len > (MAX_BITS / 8) as usize {
                return Err(GenerateError::SecretTooLarge);
            }
            (secret_len * 8) as u16
        },
    };
    if bits > MAX_BITS {
        return Err(GenerateError::SecretTooLarge);
    }
    if number < threshold {
        return Err(GenerateError::NumberBelowThreshold);
    }
    Ok(GenerateParameters { bits, number, threshold })
}

} // verus!
