//! Naming of segment files: the stem of a segment's `.log` and `.idx`
//! files is its base offset, zero-padded to 20 decimal digits, and
//! discovery parses any stem that reads as an unsigned 64-bit decimal
//! number (an optional leading plus sign included), ignoring the rest.

use vstd::prelude::*;

verus! {

/// The decimal digit character of `v`'s lowest digit.
pub open spec fn dec_digit(v: int) -> u8 {
    (48 + v % 10) as u8
}

/// The `n`-digit decimal rendering of `v`, most significant digit first,
/// zero-padded (and truncated to the low `n` digits if `v` is too large).
pub open spec fn dec_seq(v: int, n: nat) -> Seq<u8>
    decreases n,
{
    if n == 0 {
        Seq::empty()
    } else {
        dec_seq(v / 10, (n - 1) as nat).push(dec_digit(v))
    }
}

/// The numeric value of a big-endian decimal digit string.
pub open spec fn dec_value(s: Seq<u8>) -> int
    decreases s.len(),
{
    if s.len() == 0 {
        0
    } else {
        dec_value(s.drop_last()) * 10 + (s.last() - 48)
    }
}

/// Whether every byte is a decimal digit (and there is at least one).
pub open spec fn is_digit_seq(s: Seq<u8>) -> bool {
    s.len() > 0 && forall|i: int| 0 <= i < s.len() ==> 48 <= #[trigger] s[i] <= 57
}

/// The digits of a stem: the whole stem, or what follows one leading
/// plus sign.
pub open spec fn digits_part(s: Seq<u8>) -> Seq<u8> {
    if s.len() > 0 && s[0] == 43 {
        s.drop_first()
    } else {
        s
    }
}

/// Powers of ten.
pub open spec fn pow10(n: nat) -> int
    decreases n,
{
    if n == 0 {
        1
    } else {
        10 * pow10((n - 1) as nat)
    }
}

/// Rendering a value in enough digits and reading the digits back gives
/// the value, and every rendered byte is a decimal digit.
pub proof fn lemma_dec_seq_value(v: int, n: nat)
    requires
        0 <= v < pow10(n),
    ensures
        dec_value(dec_seq(v, n)) == v,
        dec_seq(v, n).len() == n,
        forall|i: int| 0 <= i < n ==> 48 <= #[trigger] dec_seq(v, n)[i] <= 57,
    decreases n,
{
    if n == 0 {
    } else {
        vstd::arithmetic::div_mod::lemma_fundamental_div_mod(v, 10);
        assert(v / 10 < pow10((n - 1) as nat)) by {
            if v / 10 >= pow10((n - 1) as nat) {
                assert(v >= 10 * (v / 10));
            }
        }
        lemma_dec_seq_value(v / 10, (n - 1) as nat);
        let s = dec_seq(v, n);
        assert(s.drop_last() =~= dec_seq(v / 10, (n - 1) as nat));
        assert(s.last() == dec_digit(v));
        assert forall|i: int| 0 <= i < n implies 48 <= #[trigger] s[i] <= 57 by {
            if i < n - 1 {
                assert(s[i] == dec_seq(v / 10, (n - 1) as nat)[i]);
            }
        }
    }
}

/// Every 64-bit value fits in 20 decimal digits.
pub proof fn lemma_u64_fits_20_digits(v: u64)
    ensures
        0 <= v < pow10(20),
{
    assert(pow10(20) == 0x56bc75e2d63100000) by {
        reveal_with_fuel(pow10, 21);
    }
}

/// Appends the `n`-digit decimal rendering of `v` to `out`.
fn push_decimal(out: &mut Vec<u8>, v: u64, n: u64)
    ensures
        final(out)@ == old(out)@ + dec_seq(v as int, n as nat),
    decreases n,
{
    if n == 0 {
        proof {
            assert(old(out)@ + dec_seq(v as int, 0) =~= old(out)@);
        }
    } else {
        push_decimal(out, v / 10, n - 1);
        out.push(48 + (v % 10) as u8);
        proof {
            assert(final(out)@ =~= old(out)@ + dec_seq(v as int, n as nat));
        }
    }
}

/// The file stem of the segment with this base offset: the offset
/// zero-padded to 20 decimal digits, as ASCII bytes. The embedding
/// application appends `.log` or `.idx` to it.
pub fn segment_file_stem(base_offset: u64) -> (r: Vec<u8>)
    ensures
        r@ == dec_seq(base_offset as int, 20),
        r@.len() == 20,
        dec_value(r@) == base_offset,
        is_digit_seq(r@),
{
    let mut out: Vec<u8> = Vec::new();
    push_decimal(&mut out, base_offset, 20);
    proof {
        lemma_u64_fits_20_digits(base_offset);
        lemma_dec_seq_value(base_offset as int, 20);
        assert(Seq::<u8>::empty() + dec_seq(base_offset as int, 20)
            =~= dec_seq(base_offset as int, 20));
    }
    out
}

/// Parses a file stem as an unsigned 64-bit base offset: an optional
/// leading plus sign, then decimal digits; anything else, or a value
/// beyond 64 bits, is not a segment stem.
#[verifier::loop_isolation(false)]
pub fn parse_base_offset(stem: &[u8]) -> (r: Option<u64>)
    ensures
        ({
            let digits = digits_part(stem@);
            &&& ((is_digit_seq(digits) && dec_value(digits) <= u64::MAX) <==> r is Some)
            &&& (r matches Some(v) ==> v == dec_value(digits))
        }),
    {
        let n = stem.len();
        let mut start: usize = 0;
        if n > 0 && stem[0] == 43 {
            start = 1;
        }
        let ghost digits = digits_part(stem@);
        proof {
            assert(digits =~= stem@.skip(start as int));
        }
        if n == start {
            return None;
        }
        let mut val: u64 = 0;
        let mut i: usize = start;
        proof {
            assert(digits.take(0) =~= Seq::<u8>::empty());
        }
        while i < n
            invariant
                start <= i <= n,
                n == stem@.len(),
                digits == stem@.skip(start as int),
                forall|j: int| 0 <= j < i - start ==> 48 <= #[trigger] digits[j] <= 57,
                val == dec_value(digits.take(i - start)),
            decreases n - i,
        {
            let b = stem[i];
            if b < 48 || b > 57 {
                proof {
                    assert(digits[i - start] == stem@[i as int]);
                    assert(!is_digit_seq(digits));
                }
                return None;
            }
            let wide: u128 = (val as u128) * 10 + ((b - 48) as u128);
            if wide > u64::MAX as u128 {
                proof {
                    if is_digit_seq(digits) {
                        assert(digits.take(i + 1 - start).drop_last() =~= digits.take(i - start));
                        assert(digits.take(i + 1 - start).last() == digits[i - start]);
                        assert(digits[i - start] == stem@[i as int]);
                        assert(dec_value(digits.take(i + 1 - start)) == wide);
                        lemma_dec_value_monotone(digits, i + 1 - start);
                    }
                }
                return None;
            }
            val = wide as u64;
            proof {
                assert(digits.take(i + 1 - start).drop_last() =~= digits.take(i - start));
                assert(digits.take(i + 1 - start).last() == digits[i - start]);
            }
            i = i + 1;
        }
        proof {
            assert(digits.take(n - start) =~= digits);
        }
        Some(val)
    }

/// A digit string's value only grows as digits are appended.
proof fn lemma_dec_value_monotone(s: Seq<u8>, i: int)
    requires
        0 <= i <= s.len(),
        forall|j: int| 0 <= j < s.len() ==> 48 <= #[trigger] s[j] <= 57,
    ensures
        dec_value(s.take(i)) <= dec_value(s),
        dec_value(s) >= 0,
    decreases s.len(),
{
    if s.len() == 0 {
        assert(s.take(i) =~= s);
    } else {
        assert(forall|j: int| 0 <= j < s.drop_last().len()
            ==> 48 <= #[trigger] s.drop_last()[j] <= 57);
        if i == s.len() {
            assert(s.take(i) =~= s);
            lemma_dec_value_monotone(s.drop_last(), s.len() - 1);
        } else {
            assert(s.take(i) =~= s.drop_last().take(i));
            lemma_dec_value_monotone(s.drop_last(), i);
            assert(dec_value(s) == dec_value(s.drop_last()) * 10 + (s.last() - 48));
            assert(dec_value(s.drop_last()) * 10 >= dec_value(s.drop_last())) by {
                assert(dec_value(s.drop_last()) >= 0);
            }
        }
    }
}

} // verus!
