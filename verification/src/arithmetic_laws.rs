//! What the arithmetic of the language is, in terms of the integers.
use vstd::prelude::*;
#[allow(unused_imports)]
use vstd::arithmetic::power::pow as int_pow;

#[allow(unused_imports)]
use crate::builtins::{arith, arith_faults, magnitude, power, quotient, remainder, wrap};
#[allow(unused_imports)]
use crate::types::{ArithOp, Value};

verus! {

/// The number of different values that a cell can hold.
pub open spec fn cell_count() -> int {
    i64::MAX - i64::MIN + 1
}

/// Whether a cell that cannot hold an integer holds this instead: the value that differs from it by
/// a multiple of the number of values.
pub open spec fn stands_for_integer(v: Value, x: int) -> bool {
    (x - v) % cell_count() == 0
}

/// What is kept of an integer stands for it.
pub proof fn law_wrapped_stands(x: int)
    ensures
        stands_for_integer(wrap(x), x),
{
    let m = 0x1_0000_0000_0000_0000int;
    assert(cell_count() == m);
    let low = x % m;
    assert(x == m * (x / m) + low && 0 <= low < m) by (nonlinear_arith)
        requires
            m == 0x1_0000_0000_0000_0000int,
            low == x % m,
    ;
    let k = if low > i64::MAX {
        x / m + 1
    } else {
        x / m
    };
    assert(x - wrap(x) == m * k) by (nonlinear_arith)
        requires
            x == m * (x / m) + low,
            wrap(x) == (if low > i64::MAX {
                low - m
            } else {
                low
            }),
            k == (if low > i64::MAX {
                x / m + 1
            } else {
                x / m
            }),
    ;
    assert((m * k) % m == 0) by (nonlinear_arith)
        requires
            m > 0,
    ;
}

/// No two values stand for the same integer.
pub proof fn law_one_value_stands_for_an_integer(v: Value, w: Value, x: int)
    requires
        stands_for_integer(v, x),
        stands_for_integer(w, x),
    ensures
        v == w,
{
    let m = cell_count();
    let j = (x - v) / m;
    let k = (x - w) / m;
    assert(x - v == m * j && x - w == m * k) by (nonlinear_arith)
        requires
            m == 0x1_0000_0000_0000_0000int,
            (x - v) % m == 0,
            (x - w) % m == 0,
            j == (x - v) / m,
            k == (x - w) / m,
    ;
    assert(w - v == m * (j - k)) by (nonlinear_arith)
        requires
            x - v == m * j,
            x - w == m * k,
    ;
    if j > k {
        assert(m * (j - k) >= m) by (nonlinear_arith)
            requires
                j - k >= 1,
                m > 0,
        ;
    } else if j < k {
        assert(m * (j - k) <= -m) by (nonlinear_arith)
            requires
                j - k <= -1,
                m > 0,
        ;
    }
}

/// Sums, differences and products are those of the integers, but for a multiple of the number of
/// values; they always exist.
pub proof fn law_sums_and_products(a: Value, b: Value)
    ensures
        !arith_faults(ArithOp::Add, a, b),
        !arith_faults(ArithOp::Sub, a, b),
        !arith_faults(ArithOp::Mul, a, b),
        arith(ArithOp::Add, a, b) matches Some(v) && stands_for_integer(v, a + b),
        arith(ArithOp::Sub, a, b) matches Some(v) && stands_for_integer(v, a - b),
        arith(ArithOp::Mul, a, b) matches Some(v) && stands_for_integer(v, a * b),
{
    law_wrapped_stands(a + b);
    law_wrapped_stands(a - b);
    law_wrapped_stands(a * b);
}

/// Subtracting undoes adding, and adding undoes subtracting.
pub proof fn law_subtraction_undoes_addition(a: Value, b: Value)
    ensures
        arith(ArithOp::Sub, arith(ArithOp::Add, a, b)->0, b) == Some(a),
        arith(ArithOp::Add, arith(ArithOp::Sub, a, b)->0, b) == Some(a),
{
    let m = cell_count();
    let sum = arith(ArithOp::Add, a, b)->0;
    let difference = arith(ArithOp::Sub, a, b)->0;
    law_sums_and_products(a, b);
    law_sums_and_products(sum, b);
    law_sums_and_products(difference, b);
    let back = arith(ArithOp::Sub, sum, b)->0;
    let forth = arith(ArithOp::Add, difference, b)->0;
    assert((a - back) % m == 0) by (nonlinear_arith)
        requires
            m == 0x1_0000_0000_0000_0000int,
            (a + b - sum) % m == 0,
            (sum - b - back) % m == 0,
    ;
    assert((a - forth) % m == 0) by (nonlinear_arith)
        requires
            m == 0x1_0000_0000_0000_0000int,
            (a - b - difference) % m == 0,
            (difference + b - forth) % m == 0,
    ;
    assert((a - a) % m == 0);
    law_one_value_stands_for_an_integer(back, a, a as int);
    law_one_value_stands_for_an_integer(forth, a, a as int);
}

proof fn lemma_quotient(a: Value, b: Value)
    requires
        b != 0,
    ensures
        ({
            let q = quotient(a as int, b as int);
            let r = remainder(a as int, b as int);
            &&& a == q * b + r
            &&& -magnitude(b as int) < r < magnitude(b as int)
            &&& a >= 0 ==> r >= 0
            &&& a <= 0 ==> r <= 0
            &&& (i64::MIN <= q <= i64::MAX || (a == i64::MIN && b == -1))
        }),
{
    let m = magnitude(a as int);
    let d = magnitude(b as int);
    let q = quotient(a as int, b as int);
    assert(0 <= m / d <= m && m % d < d && 0 <= m % d && m == d * (m / d) + m % d && (d > 1
        ==> 2 * (m / d) <= m)) by (nonlinear_arith)
        requires
            0 <= m,
            0 < d,
    ;
    assert(q * b == if (a < 0) {
        -(d * (m / d))
    } else {
        d * (m / d)
    }) by (nonlinear_arith)
        requires
            m == magnitude(a as int),
            d == magnitude(b as int),
            b != 0,
            q == (if (a < 0) == (b < 0) {
                m / d
            } else {
                -(m / d)
            }),
    ;
    if a == 0 {
        assert(m / d == 0);
    }
}

/// Quotient and remainder make up the dividend. The remainder is smaller than the divisor, and has
/// the sign of the dividend.
pub proof fn law_division(a: Value, b: Value)
    requires
        !arith_faults(ArithOp::Div, a, b),
    ensures
        !arith_faults(ArithOp::Rem, a, b),
        arith(ArithOp::Div, a, b) matches Some(q) && (arith(ArithOp::Rem, a, b) matches Some(r) && {
            &&& a == q * b + r
            &&& (if b < 0 {
                b < r < -b
            } else {
                -b < r < b
            })
            &&& a >= 0 ==> r >= 0
            &&& a <= 0 ==> r <= 0
        }),
{
    lemma_quotient(a, b);
}

/// Division has no result just where there are no quotient and remainder that cells can hold.
pub proof fn law_division_faults(op: ArithOp, a: Value, b: Value)
    ensures
        !(op is Div || op is Rem) ==> !arith_faults(op, a, b),
        op is Div || op is Rem ==> (arith_faults(op, a, b) <==> !exists|q: Value, r: Value|
            #[trigger] divides_into(a, b, q, r)),
{
    if op is Div || op is Rem {
        if arith_faults(op, a, b) {
            assert forall|q: Value, r: Value| !#[trigger] divides_into(a, b, q, r) by {
                if divides_into(a, b, q, r) {
                    if b == 0 {
                        assert(false);
                    } else {
                        assert(r == 0);
                        assert(q * b == -q) by (nonlinear_arith)
                            requires
                                b == -1,
                        ;
                    }
                }
            }
        } else {
            law_division(a, b);
            let q = arith(ArithOp::Div, a, b)->0;
            let r = arith(ArithOp::Rem, a, b)->0;
            assert(divides_into(a, b, q, r));
        }
    }
}

/// Whether `q` and `r` are quotient and remainder, without regard to signs.
pub open spec fn divides_into(a: Value, b: Value, q: Value, r: Value) -> bool {
    a == q * b + r && (if b < 0 {
        b < r < -b
    } else {
        -b < r < b
    })
}

/// `<` is the strict order of the integers: it answers 1 just where the difference is positive, and
/// else 0; never both ways, and never of a value and itself.
pub proof fn law_less_than(a: Value, b: Value)
    ensures
        !arith_faults(ArithOp::Lt, a, b),
        arith(ArithOp::Lt, a, b) == Some(1i64) <==> b - a > 0,
        arith(ArithOp::Lt, a, b) == Some(0i64) <==> b - a <= 0,
        !(arith(ArithOp::Lt, a, b) == Some(1i64) && arith(ArithOp::Lt, b, a) == Some(1i64)),
        a != b ==> (arith(ArithOp::Lt, a, b) == Some(1i64) <==> arith(ArithOp::Lt, b, a) == Some(
            0i64,
        )),
        arith(ArithOp::Lt, a, a) == Some(0i64),
{
}

/// `<` leads on from one value to the next.
pub proof fn law_less_than_leads_on(a: Value, b: Value, c: Value)
    requires
        arith(ArithOp::Lt, a, b) == Some(1i64),
        arith(ArithOp::Lt, b, c) == Some(1i64),
    ensures
        arith(ArithOp::Lt, a, c) == Some(1i64),
{
}

/// The power stands for that of the integers.
pub proof fn lemma_power(a: Value, n: Value)
    requires
        0 <= n < 0x1_0000_0000,
    ensures
        arith(ArithOp::Pow, a, n) matches Some(v) && stands_for_integer(
            v,
            int_pow(a as int, n as nat),
        ),
{
    law_wrapped_stands(int_pow(a as int, n as nat));
}

/// The power with exponent 0 is 1. Each power is the one before it, multiplied once more. There is
/// one for every exponent that 32 bits hold without a sign, and for no other.
pub proof fn law_powers(a: Value, n: Value)
    ensures
        !arith_faults(ArithOp::Pow, a, n),
        arith(ArithOp::Pow, a, 0) == Some(1i64),
        arith(ArithOp::Pow, a, n) is Some <==> 0 <= n < 0x1_0000_0000,
        0 <= n < 0xffff_ffff ==> arith(ArithOp::Pow, a, (n + 1) as i64) == arith(
            ArithOp::Mul,
            arith(ArithOp::Pow, a, n)->0,
            a,
        ),
{
    assert(int_pow(a as int, 0) == 1) by {
        reveal(int_pow);
    }
    if 0 <= n < 0xffff_ffff {
        let x = int_pow(a as int, n as nat);
        assert(int_pow(a as int, (n + 1) as nat) == a * x) by {
            reveal(int_pow);
        }
        let m = cell_count();
        let v = wrap(x);
        law_wrapped_stands(x);
        law_wrapped_stands(v * a);
        law_wrapped_stands(a * x);
        let product = wrap(v * a);
        let k = (x - v) / m;
        assert(x - v == m * k) by (nonlinear_arith)
            requires
                m == 0x1_0000_0000_0000_0000int,
                (x - v) % m == 0,
                k == (x - v) / m,
        ;
        let j = (v * a - product) / m;
        assert(v * a - product == m * j) by (nonlinear_arith)
            requires
                m == 0x1_0000_0000_0000_0000int,
                (v * a - product) % m == 0,
                j == (v * a - product) / m,
        ;
        assert(a * x - product == m * (a * k + j)) by (nonlinear_arith)
            requires
                x - v == m * k,
                v * a - product == m * j,
        ;
        assert((m * (a * k + j)) % m == 0) by (nonlinear_arith)
            requires
                m > 0,
        ;
        law_one_value_stands_for_an_integer(product, wrap(a * x), a * x);
    }
}

} // verus!
