//! The catalog of operations and what each does to a value.

use vstd::prelude::*;

use crate::decimal::{decimal_of, parse_spec, replace_all_spec, to_decimal, parse_decimal, replace_all};

verus! {

/// One operation of the catalog, with its parameters.
#[derive(Clone, Copy, Debug, PartialEq, Eq, Structural)]
pub enum Op {
    Add(i32),
    Subtract(i32),
    Multiply(i32),
    Divide(i32),
    /// Appends the decimal digits of the parameter to those of the value.
    Insert(i32),
    /// Replaces every occurrence of the first parameter's digits by the second's.
    Transform(i32, i32),
    Exponent(u32),
    Negate,
    /// Drops the last decimal digit.
    Backspace,
}

/// Why an operation yields no value.
#[derive(Clone, Copy, Debug, PartialEq, Eq, Structural)]
pub enum OpError {
    /// The exact result lies outside the range of `i32`.
    Overflow,
    /// A `Divide` by zero.
    DivideByZero,
    /// Digit manipulation left text that is not an integer literal, or one
    /// whose value lies outside the range of `i32`.
    InvalidLiteral,
}

/// Whether `x` is representable as an `i32`.
pub open spec fn in_range(x: int) -> bool {
    i32::MIN <= x <= i32::MAX
}

/// The exact value as an `i32`, or `Overflow` when it does not fit.
pub open spec fn fit(x: int) -> Result<i32, OpError> {
    if in_range(x) {
        Ok(x as i32)
    } else {
        Err(OpError::Overflow)
    }
}

pub open spec fn abs(x: int) -> nat {
    if x < 0 {
        (-x) as nat
    } else {
        x as nat
    }
}

/// Division that truncates toward zero.
pub open spec fn trunc_div(a: int, b: int) -> int {
    let q = (abs(a) / abs(b)) as int;
    if (a < 0) != (b < 0) {
        -q
    } else {
        q
    }
}

/// `b` raised to the power `e`, with `power(b, 0) == 1` for every `b` (also 0).
pub open spec fn power(b: int, e: nat) -> int
    decreases e,
{
    if e == 0 {
        1
    } else {
        b * power(b, (e - 1) as nat)
    }
}

/// What applying `op` to `v` yields.
pub open spec fn apply_spec(v: i32, op: Op) -> Result<i32, OpError> {
    match op {
        Op::Add(n) => fit(v + n),
        Op::Subtract(n) => fit(v - n),
        Op::Multiply(n) => fit(v * n),
        Op::Divide(n) => if n == 0 {
            Err(OpError::DivideByZero)
        } else {
            fit(trunc_div(v as int, n as int))
        },
        Op::Insert(n) => parse_spec(decimal_of(v as int) + decimal_of(n as int)),
        Op::Transform(from, to) => parse_spec(
            replace_all_spec(decimal_of(v as int), decimal_of(from as int), decimal_of(to as int)),
        ),
        Op::Exponent(n) => fit(power(v as int, n as nat)),
        Op::Negate => fit(-v),
        Op::Backspace => fit(trunc_div(v as int, 10)),
    }
}

fn fit_i64(x: i64) -> (r: Result<i32, OpError>)
    ensures
        r == fit(x as int),
{
    if i32::MIN as i64 <= x && x <= i32::MAX as i64 {
        Ok(x as i32)
    } else {
        Err(OpError::Overflow)
    }
}

fn abs_i64(x: i32) -> (r: u64)
    ensures
        r == abs(x as int),
{
    if x < 0 {
        (-(x as i64)) as u64
    } else {
        x as u64
    }
}

fn trunc_div_exec(a: i32, b: i32) -> (r: Result<i32, OpError>)
    requires
        b != 0,
    ensures
        r == fit(trunc_div(a as int, b as int)),
{
    let q = abs_i64(a) / abs_i64(b);
    assert(q <= abs(a as int)) by (nonlinear_arith)
        requires
            q == abs(a as int) / abs(b as int),
            abs(b as int) >= 1,
    ;
    if (a < 0) != (b < 0) {
        fit_i64(-(q as i64))
    } else {
        fit_i64(q as i64)
    }
}

proof fn lemma_abs_mul(a: int, b: int)
    ensures
        abs(a * b) == abs(a) * abs(b),
{
    if a < 0 && b < 0 {
        assert(a * b == (-a) * (-b)) by (nonlinear_arith);
        assert((-a) * (-b) >= 0) by (nonlinear_arith) requires -a > 0, -b > 0;
    } else if a < 0 {
        assert(a * b == -((-a) * b)) by (nonlinear_arith);
        assert((-a) * b >= 0) by (nonlinear_arith) requires -a > 0, b >= 0;
    } else if b < 0 {
        assert(a * b == -(a * (-b))) by (nonlinear_arith);
        assert(a * (-b) >= 0) by (nonlinear_arith) requires a >= 0, -b > 0;
    } else {
        assert(a * b >= 0) by (nonlinear_arith) requires a >= 0, b >= 0;
    }
}

/// Once the base is at least 2 in magnitude, each further factor at least
/// doubles the magnitude of the power.
proof fn lemma_power_grows(v: int, e1: nat, e2: nat)
    requires
        abs(v) >= 2,
        e1 < e2,
    ensures
        abs(power(v, e2)) >= 2 * abs(power(v, e1)),
    decreases e2,
{
    let prev = power(v, (e2 - 1) as nat);
    lemma_abs_mul(v, prev);
    assert(abs(v) * abs(prev) >= 2 * abs(prev)) by (nonlinear_arith)
        requires
            abs(v) >= 2,
    ;
    if e1 + 1 < e2 {
        lemma_power_grows(v, e1, (e2 - 1) as nat);
    }
}

/// Powers of 0, 1 and -1.
proof fn lemma_power_unit(v: int, n: nat)
    requires
        -1 <= v <= 1,
    ensures
        power(v, n) == if v == 0 {
            if n == 0 {
                1int
            } else {
                0
            }
        } else if v == 1 || n % 2 == 0 {
            1
        } else {
            -1
        },
    decreases n,
{
    if n > 0 {
        let k = (n - 1) as nat;
        lemma_power_unit(v, k);
        assert(power(v, n) == v * power(v, k));
        if v == -1 {
            assert(n % 2 == 0 <==> k % 2 == 1);
        }
    }
}

fn power_exec(v: i32, n: u32) -> (r: Result<i32, OpError>)
    ensures
        r == fit(power(v as int, n as nat)),
{
    if -1 <= v && v <= 1 {
        proof {
            lemma_power_unit(v as int, n as nat);
        }
        return if v == 0 {
            if n == 0 {
                Ok(1)
            } else {
                Ok(0)
            }
        } else if v == 1 || n % 2 == 0 {
            Ok(1)
        } else {
            Ok(-1)
        };
    }
    let mut acc: i32 = 1;
    let mut k: u32 = 0;
    while k < n
        invariant
            k <= n,
            acc == power(v as int, k as nat),
            abs(v as int) <= 1 ==> abs(acc as int) <= 1,
        decreases n - k,
    {
        proof {
            lemma_abs_mul(acc as int, v as int);
        }
        assert(abs(acc as int) * abs(v as int) <= 0x8000_0000 * 0x8000_0000) by (nonlinear_arith)
            requires
                abs(acc as int) <= 0x8000_0000,
                abs(v as int) <= 0x8000_0000,
        ;
        assert(abs(v as int) <= 1 ==> abs(acc as int) * abs(v as int) <= 1) by (nonlinear_arith)
            requires
                abs(v as int) <= 1 ==> abs(acc as int) <= 1,
        ;
        let p: i64 = acc as i64 * v as i64;
        assert((acc as int) * (v as int) == (v as int) * (acc as int)) by (nonlinear_arith);
        assert(p == power(v as int, (k + 1) as nat));
        if p < i32::MIN as i64 || p > i32::MAX as i64 {
            proof {
                if k + 1 < n {
                    lemma_power_grows(v as int, (k + 1) as nat, n as nat);
                }
            }
            return Err(OpError::Overflow);
        }
        acc = p as i32;
        k = k + 1;
    }
    Ok(acc)
}

/// Applies `op` to `value`. Arithmetic is exact: a result outside `i32` is
/// an `Overflow`, never a wrapped value.
pub fn apply_op(value: i32, op: &Op) -> (r: Result<i32, OpError>)
    ensures
        r == apply_spec(value, *op),
{
    match *op {
        Op::Add(n) => fit_i64(value as i64 + n as i64),
        Op::Subtract(n) => fit_i64(value as i64 - n as i64),
        Op::Multiply(n) => {
            assert(abs(value as int) * abs(n as int) <= 0x8000_0000 * 0x8000_0000) by (nonlinear_arith)
                requires
                    abs(value as int) <= 0x8000_0000,
                    abs(n as int) <= 0x8000_0000,
            ;
            proof {
                lemma_abs_mul(value as int, n as int);
            }
            fit_i64(value as i64 * n as i64)
        },
        Op::Divide(n) => if n == 0 {
            Err(OpError::DivideByZero)
        } else {
            trunc_div_exec(value, n)
        },
        Op::Insert(n) => {
            let mut text = to_decimal(value);
            let mut digits = to_decimal(n);
            text.append(&mut digits);
            parse_decimal(&text)
        },
        Op::Transform(from, to) => {
            let text = replace_all(&to_decimal(value), &to_decimal(from), &to_decimal(to));
            parse_decimal(&text)
        },
        Op::Exponent(n) => power_exec(value, n),
        Op::Negate => fit_i64(-(value as i64)),
        Op::Backspace => trunc_div_exec(value, 10),
    }
}

} // verus!
