use vstd::prelude::*;

verus! {

/// Why a line of text is not a decimal integer in the requested range.
#[derive(PartialEq, Eq, Structural, Clone, Copy, Debug)]
pub enum NumberError {
    Empty,
    InvalidDigit,
    TooLarge,
    TooSmall,
}

pub open spec fn is_digit(b: u8) -> bool {
    48 <= b <= 57
}

pub open spec fn all_digits(d: Seq<u8>) -> bool {
    forall|i: int| 0 <= i < d.len() ==> is_digit(#[trigger] d[i])
}

/// Value of a sequence of decimal digits, most significant first.
pub open spec fn digits_value(d: Seq<u8>) -> nat
    decreases d.len(),
{
    if d.len() == 0 {
        0
    } else {
        digits_value(d.drop_last()) * 10 + (d.last() - 48) as nat
    }
}

/// Decimal text of a natural number, without sign or leading zeros.
pub open spec fn nat_text(n: nat) -> Seq<u8>
    decreases n,
{
    if n < 10 {
        seq![(48 + n) as u8]
    } else {
        nat_text(n / 10).push((48 + n % 10) as u8)
    }
}

/// Decimal text of an integer, with a leading `-` when negative.
pub open spec fn int_text(n: int) -> Seq<u8> {
    if n < 0 {
        seq![45u8] + nat_text((-n) as nat)
    } else {
        nat_text(n as nat)
    }
}

/// Reads `s` as an optionally signed decimal integer that must lie in `[min, max]`.
pub open spec fn parse_int(s: Seq<u8>, min: int, max: int) -> Result<int, NumberError> {
    if s.len() == 0 {
        Err(NumberError::Empty)
    } else {
        let neg = s[0] == 45;
        let d = if s[0] == 45 || s[0] == 43 { s.drop_first() } else { s };
        if d.len() == 0 || !all_digits(d) {
            Err(NumberError::InvalidDigit)
        } else {
            let v = if neg { -digits_value(d) } else { digits_value(d) as int };
            if v > max {
                Err(NumberError::TooLarge)
            } else if v < min {
                Err(NumberError::TooSmall)
            } else {
                Ok(v)
            }
        }
    }
}

proof fn lemma_digits_value_prefix(d: Seq<u8>, k: int)
    requires
        0 <= k <= d.len(),
    ensures
        digits_value(d.take(k)) <= digits_value(d),
    decreases d.len() - k,
{
    if k < d.len() {
        lemma_digits_value_prefix(d, k + 1);
        assert(d.take(k + 1).drop_last() =~= d.take(k));
    } else {
        assert(d.take(k) =~= d);
    }
}

/// Parses an optionally signed decimal integer in the range of `i64`.
pub fn parse_i64(s: &[u8]) -> (r: Result<i64, NumberError>)
    ensures
        match parse_int(s@, i64::MIN as int, i64::MAX as int) {
            Ok(v) => r == Ok::<i64, NumberError>(v as i64),
            Err(e) => r == Err::<i64, NumberError>(e),
        },
{
    if s.len() == 0 {
        return Err(NumberError::Empty);
    }
    let neg = s[0] == 45;
    let start: usize = if s[0] == 45 || s[0] == 43 { 1 } else { 0 };
    let ghost d = if s@[0] == 45 || s@[0] == 43 { s@.drop_first() } else { s@ };
    assert(d =~= s@.subrange(start as int, s@.len() as int));
    if start == s.len() {
        return Err(NumberError::InvalidDigit);
    }
    let mut i: usize = start;
    while i < s.len()
        invariant
            start <= i <= s.len(),
            d =~= s@.subrange(start as int, s@.len() as int),
            d == (if s@[0] == 45 || s@[0] == 43 { s@.drop_first() } else { s@ }),
            s@.len() > 0,
            neg == (s@[0] == 45),
            forall|j: int| start <= j < i ==> is_digit(#[trigger] s@[j]),
        decreases s.len() - i,
    {
        if s[i] < 48 || s[i] > 57 {
            assert(d[i - start] == s@[i as int]);
            assert(!is_digit(d[i - start]));
            assert(!all_digits(d));
            return Err(NumberError::InvalidDigit);
        }
        i = i + 1;
    }
    assert(all_digits(d)) by {
        assert forall|j: int| 0 <= j < d.len() implies is_digit(#[trigger] d[j]) by {
            assert(d[j] == s@[start + j]);
        }
    }
    // magnitude bound: i64::MAX for a positive number, its successor for a negative one
    let limit: u64 = if neg { 9223372036854775808 } else { 9223372036854775807 };
    let mut m: u64 = 0;
    let mut k: usize = start;
    while k < s.len()
        invariant
            start <= k <= s.len(),
            d =~= s@.subrange(start as int, s@.len() as int),
            d == (if s@[0] == 45 || s@[0] == 43 { s@.drop_first() } else { s@ }),
            s@.len() > 0,
            neg == (s@[0] == 45),
            all_digits(d),
            m as nat == digits_value(d.take(k - start)),
            m <= limit,
            limit == if neg { 9223372036854775808u64 } else { 9223372036854775807u64 },
        decreases s.len() - k,
    {
        assert(s@[k as int] == d[k - start]);
        let digit: u64 = (s[k] - 48) as u64;
        assert(d.take(k + 1 - start).drop_last() =~= d.take(k - start));
        if m > (limit - digit) / 10 {
            proof {
                lemma_digits_value_prefix(d, k + 1 - start);
                assert(d.take(k + 1 - start).last() == d[k - start]);
                assert(digits_value(d.take(k + 1 - start)) == m * 10 + digit);
                assert(m * 10 + digit > limit) by (nonlinear_arith)
                    requires m > (limit - digit) / 10, digit <= 9, limit >= 9;
            }
            return if neg { Err(NumberError::TooSmall) } else { Err(NumberError::TooLarge) };
        }
        assert(m * 10 + digit <= limit) by (nonlinear_arith)
            requires m <= (limit - digit) / 10, digit <= 9, limit >= 9;
        m = m * 10 + digit;
        k = k + 1;
    }
    assert(d.take(d.len() as int) =~= d);
    if neg {
        if m == 9223372036854775808 {
            Ok(i64::MIN)
        } else {
            Ok(-(m as i64))
        }
    } else {
        Ok(m as i64)
    }
}

/// Appends the decimal text of `n` to `out`.
pub fn push_nat_text(out: &mut Vec<u8>, n: u64)
    ensures
        final(out)@ == old(out)@ + nat_text(n as nat),
    decreases n,
{
    if n >= 10 {
        push_nat_text(out, n / 10);
    }
    out.push((48 + n % 10) as u8);
    proof {
        if n < 10 {
            assert(final(out)@ =~= old(out)@ + nat_text(n as nat));
        } else {
            assert(final(out)@ =~= old(out)@ + nat_text(n as nat));
        }
    }
}

/// Appends the decimal text of `n`, signed, to `out`.
pub fn push_int_text(out: &mut Vec<u8>, n: i64)
    ensures
        final(out)@ == old(out)@ + int_text(n as int),
{
    if n < 0 {
        out.push(45u8);
        let m: u64 = if n == i64::MIN { 9223372036854775808u64 } else { (-n) as u64 };
        push_nat_text(out, m);
        assert(final(out)@ =~= old(out)@ + int_text(n as int));
    } else {
        push_nat_text(out, n as u64);
    }
}

} // verus!
