//! The functions that every program starts with, and the arithmetic behind them.
use vstd::prelude::*;
use vstd::arithmetic::power::pow as int_pow;

use crate::types::{ArithOp, BasicBlockInstr, Instr, MemOp, Value};

verus! {

/// The value that an unbounded integer leaves in a 64-bit two's complement cell.
pub open spec fn wrap(x: int) -> Value {
    let low = x % 0x1_0000_0000_0000_0000;
    (if low > i64::MAX {
        low - 0x1_0000_0000_0000_0000
    } else {
        low
    }) as i64
}

/// The integer quotient, rounded towards zero.
pub open spec fn quotient(a: int, b: int) -> int {
    if (a < 0) == (b < 0) {
        magnitude(a) / magnitude(b)
    } else {
        -(magnitude(a) / magnitude(b))
    }
}

/// What the quotient leaves over; it has the sign of `a`.
pub open spec fn remainder(a: int, b: int) -> int {
    a - quotient(a, b) * b
}

/// The distance of `a` from zero.
pub open spec fn magnitude(a: int) -> int {
    if a < 0 {
        -a
    } else {
        a
    }
}

/// `x` to the power `y` in a cell, for the exponents that a cell of half the width can hold.
pub open spec fn power(x: Value, y: Value) -> Option<Value> {
    if 0 <= y <= u32::MAX {
        Some(wrap(int_pow(x as int, y as nat)))
    } else {
        None
    }
}

/// Whether two strings hold the same characters.
pub fn same_text(a: &str, b: &str) -> (r: bool)
    ensures
        r == (a@ == b@),
{
    a.to_string() == b.to_string()
}

/// `i64::wrapping_pow`: the power is taken in the integers, and of the result a cell keeps its
/// low 64 bits.
pub assume_specification[ i64::wrapping_pow ](x: i64, exp: u32) -> (r: i64)
    ensures
        r == wrap(int_pow(x as int, exp as nat)),
;

/// Wrapping power; `None` if the exponent is negative or does not fit in 32 bits.
pub fn pow(x: Value, y: Value) -> (r: Option<Value>)
    ensures
        r == power(x, y),
{
    match u32::try_from(y) {
        Ok(exp) => Some(x.wrapping_pow(exp)),
        Err(_) => None,
    }
}

/// Whether the operation has no result: it divides by zero, or its quotient is too large.
pub open spec fn arith_faults(op: ArithOp, a: Value, b: Value) -> bool {
    (op is Div || op is Rem) && (b == 0 || (a == i64::MIN && b == -1))
}

/// The result of an operation that does not fault; `None` for an exponent out of range.
pub open spec fn arith(op: ArithOp, a: Value, b: Value) -> Option<Value> {
    match op {
        ArithOp::Add => Some(wrap(a + b)),
        ArithOp::Sub => Some(wrap(a - b)),
        ArithOp::Mul => Some(wrap(a * b)),
        ArithOp::Div => Some(quotient(a as int, b as int) as i64),
        ArithOp::Rem => Some(remainder(a as int, b as int) as i64),
        ArithOp::Lt => Some(
            if a < b {
                1
            } else {
                0
            },
        ),
        ArithOp::Pow => power(a, b),
    }
}

proof fn lemma_division(a: Value, b: Value)
    requires
        b != 0,
        !(a == i64::MIN && b == -1),
    ensures
        a.checked_div(b) == Some(quotient(a as int, b as int) as i64),
        a.checked_rem(b) == Some(remainder(a as int, b as int) as i64),
        i64::MIN <= quotient(a as int, b as int) <= i64::MAX,
        i64::MIN <= remainder(a as int, b as int) <= i64::MAX,
{
    let m = magnitude(a as int);
    let d = magnitude(b as int);
    assert(0 <= m / d <= m && m % d < d && 0 <= m % d && m == d * (m / d) + m % d && (d > 1
        ==> 2 * (m / d) <= m)) by (nonlinear_arith)
        requires
            0 <= m,
            0 < d,
    ;
    assert(quotient(a as int, b as int) * b == if (a < 0) {
        -(d * (m / d))
    } else {
        d * (m / d)
    }) by (nonlinear_arith)
        requires
            m == magnitude(a as int),
            d == magnitude(b as int),
            b != 0,
            quotient(a as int, b as int) == (if (a < 0) == (b < 0) {
                m / d
            } else {
                -(m / d)
            }),
    ;
    if a == 0 {
        assert(m / d == 0);
    }
}

/// Carries out an operation.
pub fn compute(op: ArithOp, a: Value, b: Value) -> (r: Option<Value>)
    requires
        !arith_faults(op, a, b),
    ensures
        r == arith(op, a, b),
{
    match op {
        ArithOp::Add => Some(a.wrapping_add(b)),
        ArithOp::Sub => Some(a.wrapping_sub(b)),
        ArithOp::Mul => Some(a.wrapping_mul(b)),
        ArithOp::Div => {
            proof {
                lemma_division(a, b);
            }
            a.checked_div(b)
        },
        ArithOp::Rem => {
            proof {
                lemma_division(a, b);
            }
            a.checked_rem(b)
        },
        ArithOp::Lt => Some(
            if a < b {
                1
            } else {
                0
            },
        ),
        ArithOp::Pow => pow(a, b),
    }
}

/// The instruction that a builtin name stands for.
pub open spec fn builtin_instr(name: Seq<char>) -> Option<Instr> {
    match builtin_basic(name) {
        Some(instr) => Some(Instr::BBInstr(instr)),
        None => None,
    }
}

/// The builtin names, one by one.
pub open spec fn builtin_basic(name: Seq<char>) -> Option<BasicBlockInstr> {
    if name == "+"@ {
        Some(BasicBlockInstr::Arith(ArithOp::Add))
    } else if name == "-"@ {
        Some(BasicBlockInstr::Arith(ArithOp::Sub))
    } else if name == "*"@ {
        Some(BasicBlockInstr::Arith(ArithOp::Mul))
    } else if name == "/"@ {
        Some(BasicBlockInstr::Arith(ArithOp::Div))
    } else if name == "%"@ {
        Some(BasicBlockInstr::Arith(ArithOp::Rem))
    } else if name == "<"@ {
        Some(BasicBlockInstr::Arith(ArithOp::Lt))
    } else if name == "**"@ {
        Some(BasicBlockInstr::Arith(ArithOp::Pow))
    } else if name == "read8"@ {
        Some(BasicBlockInstr::Mem(MemOp::Read8))
    } else if name == "write8"@ {
        Some(BasicBlockInstr::Mem(MemOp::Write8))
    } else if name == "read_native"@ {
        Some(BasicBlockInstr::Mem(MemOp::ReadNative))
    } else if name == "write_native"@ {
        Some(BasicBlockInstr::Mem(MemOp::WriteNative))
    } else if name == "width_native"@ {
        Some(BasicBlockInstr::Mem(MemOp::WidthNative))
    } else if name == "syscall"@ {
        Some(BasicBlockInstr::Syscall)
    } else if name == "drop_range"@ {
        Some(BasicBlockInstr::BadDropRange)
    } else {
        None
    }
}

/// Looks a name up among the builtins.
pub fn lookup(name: &str) -> (r: Option<Instr>)
    ensures
        r == builtin_instr(name@),
{
    let found = if same_text(name, "+") {
        BasicBlockInstr::Arith(ArithOp::Add)
    } else if same_text(name, "-") {
        BasicBlockInstr::Arith(ArithOp::Sub)
    } else if same_text(name, "*") {
        BasicBlockInstr::Arith(ArithOp::Mul)
    } else if same_text(name, "/") {
        BasicBlockInstr::Arith(ArithOp::Div)
    } else if same_text(name, "%") {
        BasicBlockInstr::Arith(ArithOp::Rem)
    } else if same_text(name, "<") {
        BasicBlockInstr::Arith(ArithOp::Lt)
    } else if same_text(name, "**") {
        BasicBlockInstr::Arith(ArithOp::Pow)
    } else if same_text(name, "read8") {
        BasicBlockInstr::Mem(MemOp::Read8)
    } else if same_text(name, "write8") {
        BasicBlockInstr::Mem(MemOp::Write8)
    } else if same_text(name, "read_native") {
        BasicBlockInstr::Mem(MemOp::ReadNative)
    } else if same_text(name, "write_native") {
        BasicBlockInstr::Mem(MemOp::WriteNative)
    } else if same_text(name, "width_native") {
        BasicBlockInstr::Mem(MemOp::WidthNative)
    } else if same_text(name, "syscall") {
        BasicBlockInstr::Syscall
    } else if same_text(name, "drop_range") {
        BasicBlockInstr::BadDropRange
    } else {
        return None;
    };
    Some(Instr::BBInstr(found))
}

} // verus!
