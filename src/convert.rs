use vstd::prelude::*;
use crate::error::Error;
use crate::integer::{
    arith_result, wrap, lemma_wrap_add, lemma_wrap_in_range, lemma_wrap_mul, lemma_wrapping_add,
    lemma_wrapping_mul, lemma_wrapping_sub,
};
use crate::options::Options;
use crate::string::KString;

verus! {

pub open spec fn is_digit(b: u8) -> bool {
    48 <= b <= 57
}

pub open spec fn is_space(b: u8) -> bool {
    b == 32 || (9 <= b <= 13)
}

/// The decimal digits of `n`, most significant first.
pub open spec fn digits_of(n: nat) -> Seq<u8>
    decreases n,
{
    if n < 10 {
        seq![(48 + n) as u8]
    } else {
        digits_of(n / 10).push((48 + n % 10) as u8)
    }
}

/// How an integer is written: an optional `-`, then its digits.
pub open spec fn decimal(i: int) -> Seq<u8> {
    if i < 0 {
        seq![45u8] + digits_of((-i) as nat)
    } else {
        digits_of(i as nat)
    }
}

/// Where the run of digits of `s` that starts at `i` ends.
pub open spec fn digit_run(s: Seq<u8>, i: int) -> int
    decreases s.len() - i,
{
    if i < 0 || i >= s.len() || !is_digit(s[i]) {
        i
    } else {
        digit_run(s, i + 1)
    }
}

/// Where the run of whitespace of `s` that starts at `i` ends.
pub open spec fn space_run(s: Seq<u8>, i: int) -> int
    decreases s.len() - i,
{
    if i < 0 || i >= s.len() || !is_space(s[i]) {
        i
    } else {
        space_run(s, i + 1)
    }
}

/// The value of a run of decimal digits.
pub open spec fn number(d: Seq<u8>) -> int
    decreases d.len(),
{
    if d.len() == 0 {
        0
    } else {
        10 * number(d.drop_last()) + (d.last() - 48)
    }
}

/// The integer that a string starts with: leading whitespace, an optional sign, then as many
/// digits as follow; zero where there are none.
pub open spec fn leading_integer(s: Seq<u8>) -> int {
    let a = space_run(s, 0);
    let signed = a < s.len() && (s[a] == 45 || s[a] == 43);
    let b = if signed { a + 1 } else { a };
    let v = number(s.subrange(b, digit_run(s, b)));
    if a < s.len() && s[a] == 45 { -v } else { v }
}

proof fn lemma_number_step(s: Seq<u8>, b: int, j: int)
    requires
        0 <= b <= j < s.len(),
    ensures
        number(s.subrange(b, j + 1)) == 10 * number(s.subrange(b, j)) + (s[j] - 48),
{
    assert(s.subrange(b, j + 1).drop_last() =~= s.subrange(b, j));
}

proof fn lemma_number_grows(s: Seq<u8>, b: int, j: int)
    requires
        0 <= b <= j < s.len(),
        is_digit(s[j]),
        number(s.subrange(b, j)) >= 0,
    ensures
        number(s.subrange(b, j + 1)) >= number(s.subrange(b, j)),
        number(s.subrange(b, j + 1)) >= 0,
{
    lemma_number_step(s, b, j);
}

/// Writes the decimal digits of `n` after what `out` holds.
fn push_digits(n: u64, out: &mut Vec<u8>)
    ensures
        final(out)@ == old(out)@ + digits_of(n as nat),
    decreases n,
{
    if n < 10 {
        out.push((48 + n) as u8);
        assert(final(out)@ =~= old(out)@ + digits_of(n as nat));
    } else {
        push_digits(n / 10, out);
        out.push((48 + n % 10) as u8);
        assert(final(out)@ =~= old(out)@ + digits_of(n as nat));
    }
}

/// The decimal text of `n`.
pub fn nat_to_text(n: u64) -> (r: KString)
    ensures
        r@ == decimal(n as int),
{
    let mut out: Vec<u8> = Vec::new();
    push_digits(n, &mut out);
    assert(out@ =~= digits_of(n as nat));
    KString::new_unvalidated(out)
}

/// The decimal text of `i`.
pub fn int_to_text(i: i64) -> (r: KString)
    ensures
        r@ == decimal(i as int),
{
    let mut out: Vec<u8> = Vec::new();
    if i < 0 {
        out.push(45u8);
        let mag: u64 = if i == i64::MIN {
            0x8000_0000_0000_0000u64
        } else {
            (-i) as u64
        };
        push_digits(mag, &mut out);
        assert(out@ =~= seq![45u8] + digits_of((-i) as nat));
    } else {
        push_digits(i as u64, &mut out);
        assert(out@ =~= digits_of(i as nat));
    }
    KString::new_unvalidated(out)
}

/// The integer that `s` starts with, as `leading_integer` reads it, under the width and overflow
/// rules of `opts`.
#[verifier::rlimit(40)]
pub fn text_to_int(s: &KString, opts: &Options) -> (r: Result<i64, Error>)
    ensures
        r == arith_result(leading_integer(s@), *opts),
{
    let bytes = s.as_bytes();
    let n = bytes.len();
    let mut a: usize = 0;
    while a < n && (bytes[a] == 32 || (9 <= bytes[a] && bytes[a] <= 13))
        invariant
            0 <= a <= n,
            n == s@.len(),
            bytes@ == s@,
            space_run(s@, 0) == space_run(s@, a as int),
        decreases n - a,
    {
        a = a + 1;
    }
    assert(space_run(s@, a as int) == a);
    let negative = a < n && bytes[a] == 45;
    let b: usize = if a < n && (bytes[a] == 45 || bytes[a] == 43) { a + 1 } else { a };
    let mut j: usize = b;
    let mut wrapped: i64 = 0;
    let mut exact: u64 = 0;
    let mut big = false;
    proof {
        assert(s@.subrange(b as int, b as int) =~= Seq::<u8>::empty());
        lemma_wrap_in_range(0);
    }
    while j < n && 48 <= bytes[j] && bytes[j] <= 57
        invariant
            b <= j <= n,
            n == s@.len(),
            bytes@ == s@,
            digit_run(s@, b as int) == digit_run(s@, j as int),
            number(s@.subrange(b as int, j as int)) >= 0,
            wrapped as int == wrap(number(s@.subrange(b as int, j as int))),
            !big ==> exact as int == number(s@.subrange(b as int, j as int)),
            big ==> number(s@.subrange(b as int, j as int)) > u64::MAX,
        decreases n - j,
    {
        let d = (bytes[j] - 48) as i64;
        proof {
            let v = number(s@.subrange(b as int, j as int));
            lemma_number_step(s@, b as int, j as int);
            lemma_number_grows(s@, b as int, j as int);
            lemma_wrapping_mul(wrapped, 10);
            lemma_wrapping_add(wrapped.wrapping_mul(10), d);
            lemma_wrap_mul(v, 10);
            assert(wrap(v) * 10 == wrapped * 10);
            assert(v * 10 == 10 * v);
            lemma_wrap_add(v * 10, d as int);
            lemma_wrap_add(wrapped * 10, d as int);
            assert(number(s@.subrange(b as int, j + 1)) >= 10 * v);
        }
        wrapped = wrapped.wrapping_mul(10).wrapping_add(d);
        if !big {
            match exact.checked_mul(10) {
                Some(t) => match t.checked_add(d as u64) {
                    Some(u) => {
                        exact = u;
                    },
                    None => {
                        big = true;
                    },
                },
                None => {
                    big = true;
                },
            }
        }
        j = j + 1;
    }
    assert(digit_run(s@, j as int) == j);
    let ghost v = number(s@.subrange(b as int, j as int));
    assert(leading_integer(s@) == if negative { -v } else { v });
    if opts.compliance.check_overflow {
        if big {
            return Err(Error::IntegerOverflow);
        }
        if negative {
            if exact > 0x8000_0000_0000_0000u64 {
                return Err(Error::IntegerOverflow);
            }
            let value: i64 = if exact == 0x8000_0000_0000_0000u64 {
                i64::MIN
            } else {
                -(exact as i64)
            };
            proof {
                lemma_wrap_in_range(value as int);
            }
            crate::integer::new_integer(value, opts)
        } else {
            if exact > i64::MAX as u64 {
                return Err(Error::IntegerOverflow);
            }
            proof {
                lemma_wrap_in_range(exact as int);
            }
            crate::integer::new_integer(exact as i64, opts)
        }
    } else {
        let value: i64 = if negative {
            proof {
                lemma_wrapping_sub(0, wrapped);
                lemma_wrap_mul(v, -1);
                assert(wrap(v) * -1 == 0 - wrapped);
                assert(v * -1 == -v);
            }
            0i64.wrapping_sub(wrapped)
        } else {
            wrapped
        };
        proof {
            lemma_wrap_in_range(value as int);
            crate::integer::lemma_wrap_bounds(v);
            crate::integer::lemma_wrap_bounds(-v);
            crate::integer::lemma_arith_rewrap(leading_integer(s@), *opts);
        }
        crate::integer::new_integer(value, opts)
    }
}

proof fn lemma_digits_are_digits(n: nat)
    ensures
        digits_of(n).len() >= 1,
        forall|k: int| 0 <= k < digits_of(n).len() ==> is_digit(#[trigger] digits_of(n)[k]),
    decreases n,
{
    if n >= 10 {
        lemma_digits_are_digits(n / 10);
    }
}

/// Each byte of the digits of `n` is a decimal digit.
pub proof fn lemma_digit_bytes(n: nat, k: int)
    requires
        0 <= k < digits_of(n).len(),
    ensures
        is_digit(digits_of(n)[k]),
{
    lemma_digits_are_digits(n);
}

proof fn lemma_number_of_digits(n: nat)
    ensures
        number(digits_of(n)) == n,
    decreases n,
{
    if n < 10 {
        assert(digits_of(n).drop_last() =~= Seq::<u8>::empty());
        assert(number(Seq::<u8>::empty()) == 0);
        assert(number(digits_of(n)) == 10 * number(digits_of(n).drop_last()) + (digits_of(n).last() - 48));
    } else {
        lemma_number_of_digits(n / 10);
        assert(digits_of(n).drop_last() =~= digits_of(n / 10));
        vstd::arithmetic::div_mod::lemma_fundamental_div_mod(n as int, 10);
        assert(digits_of(n).last() == (48 + n % 10) as u8);
        assert(number(digits_of(n)) == 10 * number(digits_of(n).drop_last()) + (digits_of(n).last() - 48));
    }
}

proof fn lemma_digit_run_to_end(s: Seq<u8>, i: int)
    requires
        0 <= i <= s.len(),
        forall|k: int| i <= k < s.len() ==> is_digit(#[trigger] s[k]),
    ensures
        digit_run(s, i) == s.len(),
    decreases s.len() - i,
{
    if i < s.len() {
        lemma_digit_run_to_end(s, i + 1);
    }
}

/// Reading back the decimal text of an integer gives the integer.
pub proof fn lemma_decimal_round_trip(i: int)
    ensures
        leading_integer(decimal(i)) == i,
{
    let s = decimal(i);
    if i < 0 {
        let d = digits_of((-i) as nat);
        lemma_digits_are_digits((-i) as nat);
        lemma_number_of_digits((-i) as nat);
        assert(space_run(s, 0) == 0);
        assert forall|k: int| 1 <= k < s.len() implies is_digit(#[trigger] s[k]) by {
            assert(s[k] == d[k - 1]);
        }
        lemma_digit_run_to_end(s, 1);
        assert(s.subrange(1, s.len() as int) =~= d);
    } else {
        let d = digits_of(i as nat);
        lemma_digits_are_digits(i as nat);
        lemma_number_of_digits(i as nat);
        assert(!is_space(s[0]));
        assert(space_run(s, 0) == 0);
        lemma_digit_run_to_end(s, 0);
        assert(s.subrange(0, s.len() as int) =~= d);
    }
}

/// Writing an integer out and reading it back under any options yields that integer wherever it
/// fits the configured width.
pub proof fn lemma_integer_text_round_trip(i: i64, opts: Options)
    requires
        crate::integer::fits(i as int, opts),
    ensures
        arith_result(leading_integer(decimal(i as int)), opts) == Ok::<i64, Error>(i),
{
    lemma_decimal_round_trip(i as int);
    lemma_wrap_in_range(i as int);
}

} // verus!
