use vstd::prelude::*;
use crate::error::{Domain, Error};
use crate::options::Options;

verus! {

/// The number of values of a 64-bit word.
pub open spec fn word_range() -> int {
    0x1_0000_0000_0000_0000
}

/// `x` reduced into the signed 64-bit range, two's-complement style.
pub open spec fn wrap(x: int) -> int {
    let m = x % word_range();
    if m > i64::MAX as int { m - word_range() } else { m }
}

/// Whether `x` fits in the configured integer width.
pub open spec fn fits(x: int, opts: Options) -> bool {
    if opts.compliance.i32_integer {
        i32::MIN as int <= x <= i32::MAX as int
    } else {
        i64::MIN as int <= x <= i64::MAX as int
    }
}

/// The number of values of a 32-bit word.
pub open spec fn half_word_range() -> int {
    0x1_0000_0000
}

/// `x` reduced into the signed 32-bit range, two's-complement style.
pub open spec fn wrap32(x: int) -> int {
    let m = x % half_word_range();
    if m > i32::MAX as int { m - half_word_range() } else { m }
}

/// `x` reduced into the configured width, two's-complement style.
pub open spec fn wrap_width(x: int, opts: Options) -> int {
    if opts.compliance.i32_integer { wrap32(x) } else { wrap(x) }
}

/// What an arithmetic operator yields when its exact mathematical result is `exact`: an overflow
/// error where overflow is checked and `exact` does not fit the configured width, else `exact`
/// wrapped into that width.
pub open spec fn arith_result(exact: int, opts: Options) -> Result<i64, Error> {
    if opts.compliance.check_overflow && !fits(exact, opts) {
        Err(Error::IntegerOverflow)
    } else {
        Ok(wrap_width(exact, opts) as i64)
    }
}

/// Division rounding toward zero.
pub open spec fn trunc_div(a: int, b: int) -> int {
    if a == 0 {
        0
    } else if a > 0 && b > 0 {
        a / b
    } else if a < 0 && b < 0 {
        (-a) / (-b)
    } else if a < 0 {
        -((-a) / b)
    } else {
        -(a / (-b))
    }
}

/// The remainder that goes with `trunc_div`: it takes the sign of `a`.
pub open spec fn trunc_rem(a: int, b: int) -> int {
    if a == 0 {
        0
    } else if a > 0 && b > 0 {
        a % b
    } else if a < 0 && b < 0 {
        -((-a) % (-b))
    } else if a < 0 {
        -((-a) % b)
    } else {
        a % (-b)
    }
}

/// `base` raised to `exp`.
pub open spec fn power(base: int, exp: nat) -> int
    decreases exp,
{
    if exp == 0 { 1 } else { base * power(base, (exp - 1) as nat) }
}

/// The exact result of `base ^ exp` for a negative exponent, where one exists: `1 / base^-exp`
/// rounded toward zero.
pub open spec fn negative_power(base: int, exp: int) -> int {
    if base == 1 {
        1
    } else if base == -1 {
        if exp % 2 == 0 { 1 } else { -1 }
    } else {
        0
    }
}

pub open spec fn pow_result(base: int, exp: int, opts: Options) -> Result<i64, Error> {
    if exp < 0 {
        if opts.compliance.check_integer_function_bounds {
            Err(Error::Domain(Domain::NegativeExponent))
        } else if base == 0 {
            Err(Error::DivisionByZero)
        } else {
            arith_result(negative_power(base, exp), opts)
        }
    } else {
        arith_result(power(base, exp as nat), opts)
    }
}

pub proof fn lemma_wrap_in_range(x: int)
    requires
        i64::MIN as int <= x <= i64::MAX as int,
    ensures
        wrap(x) == x,
{
    if x >= 0 {
        vstd::arithmetic::div_mod::lemma_small_mod(x as nat, word_range() as nat);
    } else {
        vstd::arithmetic::div_mod::lemma_fundamental_div_mod(x, word_range());
        assert(x % word_range() == x + word_range()) by {
            vstd::arithmetic::div_mod::lemma_mod_add_multiples_vanish(x, word_range());
            vstd::arithmetic::div_mod::lemma_small_mod((x + word_range()) as nat, word_range() as nat);
        }
    }
}

pub proof fn lemma_wrap_shift(x: int, k: int)
    ensures
        wrap(x + k * word_range()) == wrap(x),
{
    vstd::arithmetic::div_mod::lemma_mod_multiples_vanish(k, x, word_range());
    assert(k * word_range() + x == x + k * word_range());
}

/// The wrapped value of a sum is what `wrapping_add` computes.
pub proof fn lemma_wrapping_add(a: i64, b: i64)
    ensures
        wrap(a + b) == a.wrapping_add(b) as int,
{
    let s = a as int + b as int;
    if s > i64::MAX as int {
        lemma_wrap_shift(s - word_range(), 1);
        lemma_wrap_in_range(s - word_range());
    } else if s < i64::MIN as int {
        lemma_wrap_shift(s + word_range(), -1);
        lemma_wrap_in_range(s + word_range());
    } else {
        lemma_wrap_in_range(s);
    }
}

pub proof fn lemma_wrapping_sub(a: i64, b: i64)
    ensures
        wrap(a - b) == a.wrapping_sub(b) as int,
{
    let s = a as int - b as int;
    if s > i64::MAX as int {
        lemma_wrap_shift(s - word_range(), 1);
        lemma_wrap_in_range(s - word_range());
    } else if s < i64::MIN as int {
        lemma_wrap_shift(s + word_range(), -1);
        lemma_wrap_in_range(s + word_range());
    } else {
        lemma_wrap_in_range(s);
    }
}

pub proof fn lemma_wrap_bounds(x: int)
    ensures
        i64::MIN as int <= wrap(x) <= i64::MAX as int,
{
    vstd::arithmetic::div_mod::lemma_mod_bound(x, word_range());
}

pub proof fn lemma_wrapping_mul(a: i64, b: i64)
    ensures
        wrap(a * b) == a.wrapping_mul(b) as int,
{
    lemma_wrap_bounds(a * b);
}

/// Wrapping before a multiplication changes nothing after wrapping.
pub proof fn lemma_wrap_mul(x: int, y: int)
    ensures
        wrap(wrap(x) * y) == wrap(x * y),
{
    let m = x % word_range();
    vstd::arithmetic::div_mod::lemma_fundamental_div_mod(x, word_range());
    let q = x / word_range();
    assert(x == word_range() * q + m);
    let w = wrap(x);
    let k: int = if m > i64::MAX as int { -q - 1 } else { -q };
    assert(w == x + k * word_range());
    assert(w * y == x * y + (k * y) * word_range()) by (nonlinear_arith)
        requires
            w == x + k * word_range(),
    ;
    lemma_wrap_shift(x * y, k * y);
}

/// Wrapping before an addition changes nothing after wrapping.
pub proof fn lemma_wrap_add(x: int, y: int)
    ensures
        wrap(wrap(x) + y) == wrap(x + y),
{
    let m = x % word_range();
    vstd::arithmetic::div_mod::lemma_fundamental_div_mod(x, word_range());
    let q = x / word_range();
    let k: int = if m > i64::MAX as int { -q - 1 } else { -q };
    assert(wrap(x) == x + k * word_range()) by (nonlinear_arith)
        requires
            x == word_range() * q + m,
            k == (if m > i64::MAX as int { -q - 1 } else { -q }),
            wrap(x) == (if m > i64::MAX as int { m - word_range() } else { m }),
    ;
    lemma_wrap_shift(x + y, k);
    assert(wrap(x) + y == (x + y) + k * word_range());
}

/// Dividing by anything but zero does not grow the magnitude.
proof fn lemma_div_shrinks(x: int, d: int)
    requires
        0 <= x,
        1 <= d,
    ensures
        0 <= x / d <= x,
{
    vstd::arithmetic::div_mod::lemma_div_is_ordered_by_denominator(x, 1, d);
    vstd::arithmetic::div_mod::lemma_div_pos_is_pos(x, d);
}

/// A value of the configured width, or an overflow error.
pub fn new_integer(value: i64, opts: &Options) -> (r: Result<i64, Error>)
    ensures
        r == arith_result(value as int, *opts),
{
    proof {
        lemma_wrap_in_range(value as int);
    }
    if !opts.compliance.i32_integer {
        return Ok(value);
    }
    if i32::MIN as i64 <= value && value <= i32::MAX as i64 {
        proof {
            if value < 0 {
                vstd::arithmetic::div_mod::lemma_small_mod((value + half_word_range()) as nat, half_word_range() as nat);
                vstd::arithmetic::div_mod::lemma_mod_add_multiples_vanish(value as int, half_word_range());
            } else {
                vstd::arithmetic::div_mod::lemma_small_mod(value as nat, half_word_range() as nat);
            }
        }
        return Ok(value);
    }
    if opts.compliance.check_overflow {
        return Err(Error::IntegerOverflow);
    }
    let u: u64 = (value as i128 + 0x8000_0000_0000_0000i128) as u64;
    let m: u64 = u % 0x1_0000_0000;
    let r: i64 = if m > 0x7fff_ffff { m as i64 - 0x1_0000_0000 } else { m as i64 };
    proof {
        vstd::arithmetic::div_mod::lemma_mod_multiples_vanish(0x8000_0000, value as int, half_word_range());
        assert(0x8000_0000 * half_word_range() + value == u as int);
    }
    Ok(r)
}

/// Wrapping into 64 bits first changes nothing once the result is wrapped into the configured
/// width; where the exact value fits 64 bits the two agree anyway.
pub proof fn lemma_arith_rewrap(x: int, opts: Options)
    requires
        !opts.compliance.check_overflow || (i64::MIN as int <= x <= i64::MAX as int),
    ensures
        arith_result(wrap(x), opts) == arith_result(x, opts),
{
    lemma_wrap_bounds(x);
    if i64::MIN as int <= x <= i64::MAX as int {
        lemma_wrap_in_range(x);
    } else {
        lemma_wrap_in_range(wrap(x));
        let m = x % word_range();
        vstd::arithmetic::div_mod::lemma_fundamental_div_mod(x, word_range());
        let q = x / word_range();
        let k: int = if m > i64::MAX as int { -q - 1 } else { -q };
        assert(wrap(x) == x + (k * half_word_range()) * half_word_range()) by (nonlinear_arith)
            requires
                x == word_range() * q + m,
                k == (if m > i64::MAX as int { -q - 1 } else { -q }),
                wrap(x) == (if m > i64::MAX as int { m - word_range() } else { m }),
                word_range() == half_word_range() * half_word_range(),
        ;
        vstd::arithmetic::div_mod::lemma_mod_multiples_vanish(k * half_word_range(), x, half_word_range());
        assert(k * half_word_range() * half_word_range() + x == x + (k * half_word_range()) * half_word_range());
    }
}

/// The integer for a length `n`, under the width and overflow rules of `opts`.
pub fn from_length(n: usize, opts: &Options) -> (r: Result<i64, Error>)
    ensures
        r == arith_result(n as int, *opts),
{
    if n as u64 > i64::MAX as u64 {
        if opts.compliance.check_overflow {
            return Err(Error::IntegerOverflow);
        }
        let w: i64 = (n as u64 - i64::MAX as u64 - 1) as i64 + i64::MIN;
        proof {
            lemma_wrap_shift(w as int, 1);
            lemma_wrap_in_range(w as int);
            lemma_arith_rewrap(n as int, *opts);
        }
        return new_integer(w, opts);
    }
    new_integer(n as i64, opts)
}

/// `a + b`.
pub fn add(a: i64, b: i64, opts: &Options) -> (r: Result<i64, Error>)
    ensures
        r == arith_result(a + b, *opts),
{
    proof {
        lemma_wrapping_add(a, b);
    }
    if opts.compliance.check_overflow {
        match a.checked_add(b) {
            Some(s) => new_integer(s, opts),
            None => Err(Error::IntegerOverflow),
        }
    } else {
        new_integer(a.wrapping_add(b), opts)
    }
}

/// `a - b`.
pub fn subtract(a: i64, b: i64, opts: &Options) -> (r: Result<i64, Error>)
    ensures
        r == arith_result(a - b, *opts),
{
    proof {
        lemma_wrapping_sub(a, b);
    }
    if opts.compliance.check_overflow {
        match a.checked_sub(b) {
            Some(s) => new_integer(s, opts),
            None => Err(Error::IntegerOverflow),
        }
    } else {
        new_integer(a.wrapping_sub(b), opts)
    }
}

/// `a * b`.
pub fn multiply(a: i64, b: i64, opts: &Options) -> (r: Result<i64, Error>)
    ensures
        r == arith_result(a * b, *opts),
{
    proof {
        lemma_wrapping_mul(a, b);
    }
    if opts.compliance.check_overflow {
        match a.checked_mul(b) {
            Some(s) => new_integer(s, opts),
            None => Err(Error::IntegerOverflow),
        }
    } else {
        new_integer(a.wrapping_mul(b), opts)
    }
}

/// `-a`.
pub fn negate(a: i64, opts: &Options) -> (r: Result<i64, Error>)
    ensures
        r == arith_result(-a, *opts),
{
    subtract(0, a, opts)
}

/// `a / b`, rounding toward zero; a zero divisor is always an error.
pub fn divide(a: i64, b: i64, opts: &Options) -> (r: Result<i64, Error>)
    ensures
        b == 0 ==> r == Err::<i64, Error>(Error::DivisionByZero),
        b != 0 ==> r == arith_result(trunc_div(a as int, b as int), *opts),
{
    if b == 0 {
        return Err(Error::DivisionByZero);
    }
    if a == i64::MIN && b == -1 {
        if opts.compliance.check_overflow {
            assert(trunc_div(a as int, b as int) == 0x8000_0000_0000_0000);
            return Err(Error::IntegerOverflow);
        }
        proof {
            assert(trunc_div(a as int, b as int) == 0x8000_0000_0000_0000);
            lemma_wrap_shift(i64::MIN as int, 1);
            lemma_wrap_in_range(i64::MIN as int);
            lemma_arith_rewrap(0x8000_0000_0000_0000, *opts);
        }
        return new_integer(i64::MIN, opts);
    }
    match a.checked_div(b) {
        Some(q) => {
            proof {
                lemma_wrap_in_range(q as int);
            }
            new_integer(q, opts)
        },
        None => {
            proof {
                let x = a as int;
                let d = b as int;
                if x > 0 && d > 0 {
                    lemma_div_shrinks(x, d);
                } else if x < 0 && d < 0 {
                    lemma_div_shrinks(-x, -d);
                    if d == -1 {
                        assert(-x <= i64::MAX);
                    } else {
                        assert((-x) / (-d) <= i64::MAX) by {
                            vstd::arithmetic::div_mod::lemma_div_is_ordered_by_denominator(-x, 2, -d);
                        }
                    }
                } else if x < 0 {
                    lemma_div_shrinks(-x, d);
                } else if x > 0 {
                    lemma_div_shrinks(x, -d);
                }
            }
            Err(Error::IntegerOverflow)
        },
    }
}

/// `a % b`, taking the sign of `a`; a zero divisor is always an error, a negative `a` is one
/// where integer function bounds are checked.
pub fn remainder(a: i64, b: i64, opts: &Options) -> (r: Result<i64, Error>)
    ensures
        b == 0 ==> r == Err::<i64, Error>(Error::DivisionByZero),
        b != 0 && opts.compliance.check_integer_function_bounds && a < 0 ==> r == Err::<i64, Error>(
            Error::Domain(Domain::NegativeModulusBase),
        ),
        b != 0 && !(opts.compliance.check_integer_function_bounds && a < 0) ==> r == arith_result(
            trunc_rem(a as int, b as int),
            *opts,
        ),
{
    if b == 0 {
        return Err(Error::DivisionByZero);
    }
    if opts.compliance.check_integer_function_bounds && a < 0 {
        return Err(Error::Domain(Domain::NegativeModulusBase));
    }
    if b == -1 {
        proof {
            lemma_wrap_in_range(0);
        }
        return new_integer(0, opts);
    }
    match a.checked_rem(b) {
        Some(m) => {
            proof {
                lemma_wrap_in_range(m as int);
            }
            new_integer(m, opts)
        },
        None => Err(Error::IntegerOverflow),
    }
}

pub open spec fn abs(x: int) -> int {
    if x < 0 { -x } else { x }
}

proof fn lemma_abs_power_step(b: int, n: nat)
    ensures
        abs(power(b, n + 1)) == abs(b) * abs(power(b, n)),
{
    let p = power(b, n);
    assert(power(b, n + 1) == b * p);
    assert(abs(b * p) == abs(b) * abs(p)) by (nonlinear_arith);
}

proof fn lemma_power_small_base(b: int, n: nat)
    requires
        abs(b) <= 1,
    ensures
        abs(power(b, n)) <= 1,
    decreases n,
{
    if n > 0 {
        lemma_power_small_base(b, (n - 1) as nat);
        lemma_abs_power_step(b, (n - 1) as nat);
        let p = abs(power(b, (n - 1) as nat));
        assert(abs(b) * p <= 1) by (nonlinear_arith)
            requires
                0 <= abs(b) <= 1,
                0 <= p <= 1,
        ;
    }
}

proof fn lemma_power_grows(b: int, k: nat, n: nat)
    requires
        abs(b) >= 2,
        k <= n,
    ensures
        abs(power(b, n)) >= abs(power(b, k)),
    decreases n,
{
    if n > k {
        lemma_power_grows(b, k, (n - 1) as nat);
        lemma_abs_power_step(b, (n - 1) as nat);
        let p = abs(power(b, (n - 1) as nat));
        assert(abs(b) * p >= p) by (nonlinear_arith)
            requires
                abs(b) >= 2,
                p >= 0,
        ;
    }
}

/// Once a power of `b` leaves the 64-bit range, every higher power stays outside it.
proof fn lemma_power_escapes(b: int, k: nat, n: nat)
    requires
        k <= n,
        !(i64::MIN as int <= power(b, k) <= i64::MAX as int),
        abs(power(b, (k - 1) as nat)) <= i64::MAX + 1,
        k >= 1,
    ensures
        !(i64::MIN as int <= power(b, n) <= i64::MAX as int),
{
    lemma_abs_power_step(b, (k - 1) as nat);
    if abs(b) <= 1 {
        lemma_power_small_base(b, k);
    } else if n > k {
        lemma_abs_power_step(b, k);
        lemma_power_grows(b, k + 1, n);
        let p = abs(power(b, k));
        assert(abs(b) * p >= 2 * p) by (nonlinear_arith)
            requires
                abs(b) >= 2,
                p >= 0,
        ;
    }
}

/// `base ^ exp`. A negative exponent is an error where integer function bounds are checked, and a
/// division by zero for a zero base; otherwise it yields `1 / base^-exp` rounded toward zero.
#[verifier::rlimit(40)]
pub fn power_of(base: i64, exp: i64, opts: &Options) -> (r: Result<i64, Error>)
    ensures
        r == pow_result(base as int, exp as int, *opts),
{
    if exp < 0 {
        if opts.compliance.check_integer_function_bounds {
            return Err(Error::Domain(Domain::NegativeExponent));
        }
        if base == 0 {
            return Err(Error::DivisionByZero);
        }
        let v: i64 = if base == 1 {
            1
        } else if base == -1 {
            if exp % 2 == 0 { 1 } else { -1 }
        } else {
            0
        };
        proof {
            lemma_wrap_in_range(v as int);
        }
        return new_integer(v, opts);
    }
    let mut acc: i64 = 1;
    let mut i: i64 = 0;
    if opts.compliance.check_overflow {
        while i < exp
            invariant
                0 <= i <= exp,
                acc as int == power(base as int, i as nat),
                opts.compliance.check_overflow,
            decreases exp - i,
        {
            match acc.checked_mul(base) {
                Some(p) => {
                    acc = p;
                },
                None => {
                    proof {
                        assert(power(base as int, (i + 1) as nat) == base * acc);
                        lemma_power_escapes(base as int, (i + 1) as nat, exp as nat);
                    }
                    return Err(Error::IntegerOverflow);
                },
            }
            i = i + 1;
        }
        proof {
            lemma_wrap_in_range(acc as int);
        }
        new_integer(acc, opts)
    } else {
        proof {
            lemma_wrap_in_range(1);
        }
        while i < exp
            invariant
                0 <= i <= exp,
                acc as int == wrap(power(base as int, i as nat)),
                !opts.compliance.check_overflow,
            decreases exp - i,
        {
            proof {
                lemma_wrapping_mul(acc, base);
                lemma_wrap_mul(power(base as int, i as nat), base as int);
                let p = power(base as int, i as nat);
                assert(power(base as int, (i + 1) as nat) == base * p);
                assert(base * p == p * base) by (nonlinear_arith);
            }
            acc = acc.wrapping_mul(base);
            i = i + 1;
        }
        proof {
            lemma_wrap_in_range(acc as int);
            lemma_arith_rewrap(power(base as int, exp as nat), *opts);
        }
        new_integer(acc, opts)
    }
}

} // verus!
