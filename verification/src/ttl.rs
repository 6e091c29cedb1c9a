//! Parsing of TTL duration strings: a decimal number with an optional
//! unit suffix (seconds, minutes, hours, days or weeks).

use vstd::prelude::*;
use vstd::string::StrSliceExecFns;

verus! {

#[derive(Clone, Copy, PartialEq, PartialOrd, Eq, Ord, Debug, Hash, Structural)]
pub struct NotATtlError;

pub trait Parse<T, E> {
    fn parse(s: &str) -> Result<T, E>;
}

pub open spec fn spec_is_digit(c: char) -> bool {
    '0' <= c && c <= '9'
}

pub open spec fn spec_all_digits(s: Seq<char>) -> bool {
    forall|i: int| 0 <= i < s.len() ==> spec_is_digit(#[trigger] s[i])
}

/// The value of a decimal digit string.
pub open spec fn spec_digits_value(s: Seq<char>) -> int
    decreases s.len(),
{
    if s.len() == 0 {
        0
    } else {
        spec_digits_value(s.drop_last()) * 10 + (s.last() as int - '0' as int)
    }
}

pub open spec fn spec_is_unit(c: char) -> bool {
    c == 's' || c == 'm' || c == 'h' || c == 'd' || c == 'w'
}

pub open spec fn spec_unit_mult(c: char) -> int {
    if c == 'm' {
        60
    } else if c == 'h' {
        3600
    } else if c == 'd' {
        86400
    } else if c == 'w' {
        604800
    } else {
        1
    }
}

/// The digit part of a duration string: everything before the optional
/// unit suffix.
pub open spec fn spec_ttl_digits(s: Seq<char>) -> Seq<char> {
    if s.len() > 0 && spec_is_unit(s.last()) {
        s.drop_last()
    } else {
        s
    }
}

pub open spec fn spec_ttl_mult(s: Seq<char>) -> int {
    if s.len() > 0 && spec_is_unit(s.last()) {
        spec_unit_mult(s.last())
    } else {
        1
    }
}

/// Whether the string has the shape digits then an optional unit, with
/// at least one digit.
pub open spec fn spec_ttl_ok(s: Seq<char>) -> bool {
    spec_ttl_digits(s).len() > 0 && spec_all_digits(spec_ttl_digits(s))
}

/// The seconds a duration string stands for.
pub open spec fn spec_ttl_secs(s: Seq<char>) -> int {
    spec_digits_value(spec_ttl_digits(s)) * spec_ttl_mult(s)
}

proof fn lemma_digits_value_nonneg(s: Seq<char>)
    requires
        spec_all_digits(s),
    ensures
        spec_digits_value(s) >= 0,
    decreases s.len(),
{
    if s.len() > 0 {
        assert(spec_all_digits(s.drop_last())) by {
            assert(forall|i: int| 0 <= i < s.len() - 1 ==> s.drop_last()[i] == #[trigger] s[i]);
        }
        lemma_digits_value_nonneg(s.drop_last());
    }
}

/// The value of a digit string only grows as digits are appended.
proof fn lemma_digits_value_monotone(s: Seq<char>, i: int)
    requires
        spec_all_digits(s),
        0 <= i <= s.len(),
    ensures
        spec_digits_value(s.take(i)) <= spec_digits_value(s),
    decreases s.len() - i,
{
    assert(spec_all_digits(s.take(i))) by {
        assert(forall|j: int| 0 <= j < i ==> s.take(i)[j] == #[trigger] s[j]);
    }
    if i == s.len() {
        assert(s.take(i) =~= s);
    } else {
        lemma_digits_value_monotone(s, i + 1);
        assert(s.take(i + 1).drop_last() =~= s.take(i));
        assert(s.take(i + 1).last() == s[i]);
        lemma_digits_value_nonneg(s.take(i));
        assert(spec_digits_value(s.take(i + 1)) == spec_digits_value(s.take(i)) * 10 + (
        s[i] as int - '0' as int));
    }
}

/// Parses a duration: a decimal number followed by an optional unit
/// (`s`, `m`, `h`, `d`, `w`), as seconds. Anything else — including a
/// value that does not fit in 64 bits — is not a TTL.
pub fn parse_ttl(time: &str) -> (r: Result<u64, NotATtlError>)
    ensures
        r is Ok <==> spec_ttl_ok(time@) && spec_ttl_secs(time@) <= u64::MAX,
        r is Ok ==> r->Ok_0 as int == spec_ttl_secs(time@),
{
    let n = time.unicode_len();
    if n == 0 {
        return Err(NotATtlError);
    }
    let last = time.get_char(n - 1);
    let has_unit = last == 's' || last == 'm' || last == 'h' || last == 'd' || last == 'w';
    let dlen: usize = if has_unit {
        n - 1
    } else {
        n
    };
    let ghost digits = spec_ttl_digits(time@);
    proof {
        assert(time@.drop_last() =~= time@.take(n as int - 1));
        assert(time@.take(n as int) =~= time@);
        assert(digits =~= time@.take(dlen as int));
    }
    if dlen == 0 {
        return Err(NotATtlError);
    }
    let mut acc: u64 = 0;
    let mut i: usize = 0;
    while i < dlen
        invariant
            n == time@.len(),
            dlen <= n,
            digits == spec_ttl_digits(time@),
            digits == time@.take(dlen as int),
            digits.len() == dlen,
            i <= dlen,
            spec_all_digits(digits.take(i as int)),
            acc as int == spec_digits_value(digits.take(i as int)),
        decreases dlen - i,
    {
        let c = time.get_char(i);
        if !('0' <= c && c <= '9') {
            proof {
                assert(digits[i as int] == time@[i as int]);
                assert(!spec_is_digit(digits[i as int]));
                assert(!spec_all_digits(digits));
            }
            return Err(NotATtlError);
        }
        let d: u64 = (c as u32 - 48) as u64;
        proof {
            assert(digits.take(i as int + 1).drop_last() =~= digits.take(i as int));
            assert(digits.take(i as int + 1).last() == digits[i as int]);
            assert(digits[i as int] == time@[i as int]);
            assert(spec_all_digits(digits.take(i as int + 1))) by {
                assert(forall|j: int|
                    0 <= j < i + 1 ==> digits.take(i as int + 1)[j] == #[trigger] digits[j]);
            }
        }
        if acc > (0xFFFFFFFFFFFFFFFF - d) / 10 {
            // the number alone is already beyond 64 bits
            proof {
                assert(acc as int * 10 + d as int > u64::MAX);
                assert(spec_digits_value(digits.take(i as int + 1)) > u64::MAX);
                if spec_all_digits(digits) {
                    lemma_digits_value_monotone(digits, i as int + 1);
                    lemma_digits_value_nonneg(digits);
                    let m = spec_ttl_mult(time@);
                    let v = spec_digits_value(digits);
                    assert(m == 1 || m == 60 || m == 3600 || m == 86400 || m == 604800);
                    assert(v > u64::MAX);
                    if m == 1 {
                        assert(v * m == v);
                    } else if m == 60 {
                        assert(v * m == v * 60);
                        assert(v * 60 > u64::MAX);
                    } else if m == 3600 {
                        assert(v * m == v * 3600);
                        assert(v * 3600 > u64::MAX);
                    } else if m == 86400 {
                        assert(v * m == v * 86400);
                        assert(v * 86400 > u64::MAX);
                    } else {
                        assert(v * m == v * 604800);
                        assert(v * 604800 > u64::MAX);
                    }
                    assert(spec_ttl_secs(time@) > u64::MAX);
                }
            }
            return Err(NotATtlError);
        }
        acc = acc * 10 + d;
        i += 1;
    }
    proof {
        assert(digits.take(dlen as int) =~= digits);
        assert(spec_ttl_ok(time@));
        lemma_digits_value_nonneg(digits);
    }
    if !has_unit || last == 's' {
        proof {
            assert(spec_ttl_mult(time@) == 1);
        }
        Ok(acc)
    } else if last == 'm' {
        proof {
            assert(spec_ttl_mult(time@) == 60);
        }
        if acc > 0xFFFFFFFFFFFFFFFF / 60 {
            proof {
                assert(spec_ttl_secs(time@) > u64::MAX);
            }
            return Err(NotATtlError);
        }
        Ok(acc * 60)
    } else if last == 'h' {
        proof {
            assert(spec_ttl_mult(time@) == 3600);
        }
        if acc > 0xFFFFFFFFFFFFFFFF / 3600 {
            proof {
                assert(spec_ttl_secs(time@) > u64::MAX);
            }
            return Err(NotATtlError);
        }
        Ok(acc * 3600)
    } else if last == 'd' {
        proof {
            assert(spec_ttl_mult(time@) == 86400);
        }
        if acc > 0xFFFFFFFFFFFFFFFF / 86400 {
            proof {
                assert(spec_ttl_secs(time@) > u64::MAX);
            }
            return Err(NotATtlError);
        }
        Ok(acc * 86400)
    } else {
        proof {
            assert(spec_ttl_mult(time@) == 604800);
        }
        if acc > 0xFFFFFFFFFFFFFFFF / 604800 {
            proof {
                assert(spec_ttl_secs(time@) > u64::MAX);
            }
            return Err(NotATtlError);
        }
        Ok(acc * 604800)
    }
}

impl Parse<u64, NotATtlError> for u64 {
    fn parse(s: &str) -> Result<u64, NotATtlError> {
        parse_ttl(s)
    }
}

} // verus!
