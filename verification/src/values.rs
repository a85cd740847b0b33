//! Runtime values and the five arithmetic operators on them. Every
//! operation is total: instead of overflowing or dividing by zero it
//! returns `None`, and the contract says exactly when.

use vstd::prelude::*;

use vstd::arithmetic::power::pow;

verus! {

#[derive(Clone, Copy, Debug, PartialEq, Eq, Structural)]
pub enum Value {
    Int(i64),
}

/// The integer a value carries.
pub open spec fn int_of(v: Value) -> int {
    match v {
        Value::Int(i) => i as int,
    }
}

/// Truncated (round-toward-zero) quotient, as hardware division computes it.
pub open spec fn trunc_div(x: int, d: int) -> int {
    if x == 0 {
        0
    } else if x > 0 && d > 0 {
        x / d
    } else if x < 0 && d < 0 {
        (-x) / (-d)
    } else if x < 0 {
        -((-x) / d)
    } else {
        -(x / (-d))
    }
}

/// Truncated remainder (the sign follows the dividend).
pub open spec fn trunc_rem(x: int, d: int) -> int {
    if x == 0 {
        0
    } else if x > 0 && d > 0 {
        x % d
    } else if x < 0 && d < 0 {
        -((-x) % (-d))
    } else if x < 0 {
        -((-x) % d)
    } else {
        x % (-d)
    }
}

/// Whether `n` is representable as an `i64`.
pub open spec fn fits_i64(n: int) -> bool {
    i64::MIN <= n <= i64::MAX
}

/// What negation returns: the negated value, or nothing on overflow.
pub open spec fn spec_neg(v: Value) -> Option<Value> {
    if fits_i64(-int_of(v)) {
        Some(Value::Int((-int_of(v)) as i64))
    } else {
        None
    }
}

pub open spec fn spec_add(x: Value, y: Value) -> Option<Value> {
    if fits_i64(int_of(x) + int_of(y)) {
        Some(Value::Int((int_of(x) + int_of(y)) as i64))
    } else {
        None
    }
}

pub open spec fn spec_sub(x: Value, y: Value) -> Option<Value> {
    if fits_i64(int_of(x) - int_of(y)) {
        Some(Value::Int((int_of(x) - int_of(y)) as i64))
    } else {
        None
    }
}

pub open spec fn spec_mul(x: Value, y: Value) -> Option<Value> {
    if fits_i64(int_of(x) * int_of(y)) {
        Some(Value::Int((int_of(x) * int_of(y)) as i64))
    } else {
        None
    }
}

/// What division returns: the truncated quotient, or nothing when the
/// divisor is zero or the quotient is unrepresentable.
pub open spec fn spec_div(x: Value, y: Value) -> Option<Value> {
    if int_of(y) == 0 {
        None
    } else if fits_i64(trunc_div(int_of(x), int_of(y))) {
        Some(Value::Int(trunc_div(int_of(x), int_of(y)) as i64))
    } else {
        None
    }
}

/// What remainder returns: the truncated remainder, or nothing when the
/// divisor is zero or the division itself would overflow.
pub open spec fn spec_rem(x: Value, y: Value) -> Option<Value> {
    if int_of(y) == 0 || (int_of(x) == i64::MIN && int_of(y) == -1) {
        None
    } else {
        Some(Value::Int(trunc_rem(int_of(x), int_of(y)) as i64))
    }
}

/// What exponentiation returns: nothing for negative exponents or an
/// unrepresentable power.
pub open spec fn spec_pow(x: Value, y: Value) -> Option<Value> {
    if int_of(y) < 0 {
        None
    } else if fits_i64(pow(int_of(x), int_of(y) as nat)) {
        Some(Value::Int(pow(int_of(x), int_of(y) as nat) as i64))
    } else {
        None
    }
}

impl Value {
    pub fn neg(self) -> (r: Option<Value>)
        ensures
            r == spec_neg(self),
    {
        match self {
            Value::Int(i) => {
                if i == i64::MIN {
                    None
                } else {
                    Some(Value::Int(-i))
                }
            },
        }
    }

    pub fn add(self, rhs: Value) -> (r: Option<Value>)
        ensures
            r == spec_add(self, rhs),
    {
        match (self, rhs) {
            (Value::Int(x), Value::Int(y)) => match x.checked_add(y) {
                Some(v) => Some(Value::Int(v)),
                None => None,
            },
        }
    }

    pub fn sub(self, rhs: Value) -> (r: Option<Value>)
        ensures
            r == spec_sub(self, rhs),
    {
        match (self, rhs) {
            (Value::Int(x), Value::Int(y)) => match x.checked_sub(y) {
                Some(v) => Some(Value::Int(v)),
                None => None,
            },
        }
    }

    pub fn mul(self, rhs: Value) -> (r: Option<Value>)
        ensures
            r == spec_mul(self, rhs),
    {
        match (self, rhs) {
            (Value::Int(x), Value::Int(y)) => match x.checked_mul(y) {
                Some(v) => Some(Value::Int(v)),
                None => None,
            },
        }
    }

    pub fn div(self, rhs: Value) -> (r: Option<Value>)
        ensures
            r == spec_div(self, rhs),
    {
        match (self, rhs) {
            (Value::Int(x), Value::Int(y)) => match x.checked_div(y) {
                Some(v) => Some(Value::Int(v)),
                None => None,
            },
        }
    }

    pub fn rem(self, rhs: Value) -> (r: Option<Value>)
        ensures
            r == spec_rem(self, rhs),
    {
        proof {
            if int_of(rhs) != 0 && !(int_of(self) == i64::MIN && int_of(rhs) == -1) {
                lemma_trunc_rem_bounds(int_of(self), int_of(rhs));
            }
        }
        match (self, rhs) {
            (Value::Int(x), Value::Int(y)) => match x.checked_rem(y) {
                Some(v) => Some(Value::Int(v)),
                None => None,
            },
        }
    }

    /// Exponentiation. Negative exponents and unrepresentable results give
    /// `None`.
    pub fn pow(self, rhs: Value) -> (r: Option<Value>)
        ensures
            r == spec_pow(self, rhs),
    {
        let (x, y): (i64, i64) = match (self, rhs) {
            (Value::Int(x), Value::Int(y)) => (x, y),
        };
        if y < 0 {
            return None;
        }
        let ghost xi = x as int;
        let ghost yn = y as nat;
        // magnitude of the base, with room for |i64::MIN|
        let a: u64 = if x < 0 {
            ((-(x as i128)) as u64)
        } else {
            x as u64
        };
        let neg = x < 0 && y % 2 == 1;
        proof {
            if x < 0 {
                assert(xi == -(a as int));
            } else {
                assert(xi == a as int);
            }
        }
        // |x| ^ y, with overflow capped just past |i64::MIN|
        let cap: u64 = 9223372036854775808u64;
        let mut p: u64 = 1;
        let mut overflow = false;
        let mut k: u64 = 0;
        let yk: u64 = y as u64;
        proof {
            vstd::arithmetic::power::lemma_pow0(a as int);
        }
        while k < yk && !overflow
            invariant
                0 <= k <= yk,
                yk == yn,
                cap == 9223372036854775808u64,
                !overflow ==> {
                    &&& p == pow(a as int, k as nat)
                    &&& p <= cap
                },
                overflow ==> !(pow(a as int, yn) <= 9223372036854775808),
            decreases yk - k,
        {
            proof {
                lemma_pow_nonneg(a as int, k as nat);
                lemma_pow_step(a as int, (k + 1) as nat);
            }
            proof {
                assert(pow(a as int, (k + 1) as nat) == (a as int) * (p as int));
            }
            let q = p.checked_mul(a);
            match q {
                Some(qq) => {
                    if qq <= cap {
                        p = qq;
                    } else {
                        overflow = true;
                        proof {
                            assert(qq == (p as int) * (a as int));
                            assert((a as int) * (p as int) == (p as int) * (a as int))
                                by (nonlinear_arith);
                            assert(pow(a as int, (k + 1) as nat) > 9223372036854775808);
                            lemma_pow_magnitude_grows(a as int, (k + 1) as nat, yn);
                        }
                    }
                },
                None => {
                    overflow = true;
                    proof {
                        assert((p as int) * (a as int) > u64::MAX);
                        assert((a as int) * (p as int) == (p as int) * (a as int))
                            by (nonlinear_arith);
                        assert(pow(a as int, (k + 1) as nat) > 9223372036854775808);
                        lemma_pow_magnitude_grows(a as int, (k + 1) as nat, yn);
                    }
                },
            }
            k = k + 1;
        }
        proof {
            if x < 0 {
                lemma_pow_neg_base(a as int, yn);
            }
        }
        if overflow {
            None
        } else {
            if neg {
                proof {
                    lemma_pow_nonneg(a as int, yn);
                    assert(pow(xi, yn) == -(p as int));
                }
                let v = (-(p as i128)) as i64;
                Some(Value::Int(v))
            } else {
                proof {
                    lemma_pow_nonneg(a as int, yn);
                    assert(pow(xi, yn) == p as int);
                }
                if p <= 9223372036854775807u64 {
                    Some(Value::Int(p as i64))
                } else {
                    None
                }
            }
        }
    }
}

/// One unfolding of `pow`: the next power multiplies by the base once more.
proof fn lemma_pow_step(b: int, e: nat)
    requires
        e >= 1,
    ensures
        pow(b, e) == b * pow(b, (e - 1) as nat),
{
    reveal(vstd::arithmetic::power::pow);
}

/// Powers of a nonnegative base are nonnegative.
proof fn lemma_pow_nonneg(b: int, e: nat)
    requires
        b >= 0,
    ensures
        pow(b, e) >= 0,
    decreases e,
{
    reveal(vstd::arithmetic::power::pow);
    if e > 0 {
        lemma_pow_nonneg(b, (e - 1) as nat);
        assert(b * pow(b, (e - 1) as nat) >= 0) by (nonlinear_arith)
            requires
                b >= 0,
                pow(b, (e - 1) as nat) >= 0,
        ;
    }
}

/// `x % d` stays within `(-|d|, |d|)`, so a truncated remainder of two
/// `i64`s always fits.
proof fn lemma_trunc_rem_bounds(x: int, d: int)
    requires
        d != 0,
        i64::MIN <= x <= i64::MAX,
        i64::MIN <= d <= i64::MAX,
    ensures
        fits_i64(trunc_rem(x, d)),
{
    if x > 0 && d > 0 {
        vstd::arithmetic::div_mod::lemma_mod_bound(x, d);
    } else if x < 0 && d < 0 {
        vstd::arithmetic::div_mod::lemma_mod_bound(-x, -d);
    } else if x < 0 {
        vstd::arithmetic::div_mod::lemma_mod_bound(-x, d);
    } else if x > 0 {
        vstd::arithmetic::div_mod::lemma_mod_bound(x, -d);
    }
}

/// A power of a negated base is the power of the base, negated on odd
/// exponents.
proof fn lemma_pow_neg_base(a: int, e: nat)
    ensures
        e % 2 == 0 ==> pow(-a, e) == pow(a, e),
        e % 2 == 1 ==> pow(-a, e) == -pow(a, e),
    decreases e,
{
    reveal(vstd::arithmetic::power::pow);
    if e > 0 {
        lemma_pow_neg_base(a, (e - 1) as nat);
        assert(pow(-a, e) == (-a) * pow(-a, (e - 1) as nat));
        assert(pow(a, e) == a * pow(a, (e - 1) as nat));
        if e % 2 == 0 {
            assert((e - 1) as nat % 2 == 1);
            assert((-a) * (-pow(a, (e - 1) as nat)) == a * pow(a, (e - 1) as nat))
                by (nonlinear_arith);
        } else {
            assert((e - 1) as nat % 2 == 0);
            assert((-a) * pow(a, (e - 1) as nat) == -(a * pow(a, (e - 1) as nat)))
                by (nonlinear_arith);
        }
    }
}

/// Once some power of a nonnegative base has left the representable
/// magnitude, every later power stays out.
proof fn lemma_pow_magnitude_grows(a: int, e1: nat, e2: nat)
    requires
        a >= 0,
        e1 <= e2,
        pow(a, e1) > 9223372036854775808,
    ensures
        pow(a, e2) > 9223372036854775808,
    decreases e2 - e1,
{
    if e1 < e2 {
        lemma_pow_nonneg(a, e1);
        if a == 0 {
            reveal(vstd::arithmetic::power::pow);
            if e1 == 0 {
                assert(pow(a, e1) == 1);
            } else {
                vstd::arithmetic::power::lemma0_pow(e1);
            }
            assert(false);
        }
        lemma_pow_step(a, (e1 + 1) as nat);
        assert(a * pow(a, e1) >= pow(a, e1)) by (nonlinear_arith)
            requires
                a >= 1,
                pow(a, e1) >= 0,
        ;
        lemma_pow_magnitude_grows(a, (e1 + 1) as nat, e2);
    }
}

} // verus!
