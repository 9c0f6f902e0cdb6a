//! The instruction set: decoding a color-transition key into an opcode, and
//! the stack effects of the primitive operations, including the cyclic roll.

use vstd::prelude::*;
use vstd::arithmetic::div_mod::lemma_fundamental_div_mod;
use vstd::arithmetic::div_mod::lemma_fundamental_div_mod_converse;

use crate::pietcolor::Hue;

verus! {

/// A fatal condition: the run aborts immediately, with no partial recovery.
#[derive(Debug, Clone, Copy, PartialEq, Eq, Structural)]
pub enum PietError {
    /// A divide transition popped a zero divisor.
    DivisionByZero,
    /// A modulo transition popped a zero divisor.
    ModuloByZero,
    /// A roll transition asked for a depth below zero or beyond the stack.
    StackTooShallow,
    /// A transition key outside the instruction table: unreachable when
    /// blocks are resolved correctly, so it signals a logic error.
    BadTransition,
    /// In debug mode only: a number read from input did not parse.
    BadNumberInput,
}

/// The eighteen primitive operations, the no-op for transitions through
/// White or Black, and the raw-host-call extension.
#[derive(Debug, Clone, Copy, PartialEq, Eq, Structural)]
pub enum Op {
    Push,
    Pop,
    Add,
    Subtract,
    Multiply,
    Divide,
    Modulo,
    Not,
    Greater,
    Pointer,
    Switch,
    Duplicate,
    Roll,
    InNumber,
    InChar,
    OutNumber,
    OutChar,
    NoOp,
    Syscall,
}

/// The instruction selected by a transition key (hue distance, lightness
/// distance). A hue distance of 6 is a no-op, or the raw-host-call extension
/// when the cell being left carries the Smoke sentinel hue. Keys outside the
/// table decode to nothing.
pub open spec fn decode_spec(hd: int, ld: int, from_hue: Hue) -> Option<Op> {
    if hd == 6 {
        if from_hue == Hue::Smoke {
            Some(Op::Syscall)
        } else {
            Some(Op::NoOp)
        }
    } else if hd == 0 && ld == 1 {
        Some(Op::Push)
    } else if hd == 0 && ld == 2 {
        Some(Op::Pop)
    } else if hd == 1 && ld == 0 {
        Some(Op::Add)
    } else if hd == 1 && ld == 1 {
        Some(Op::Subtract)
    } else if hd == 1 && ld == 2 {
        Some(Op::Multiply)
    } else if hd == 2 && ld == 0 {
        Some(Op::Divide)
    } else if hd == 2 && ld == 1 {
        Some(Op::Modulo)
    } else if hd == 2 && ld == 2 {
        Some(Op::Not)
    } else if hd == 3 && ld == 0 {
        Some(Op::Greater)
    } else if hd == 3 && ld == 1 {
        Some(Op::Pointer)
    } else if hd == 3 && ld == 2 {
        Some(Op::Switch)
    } else if hd == 4 && ld == 0 {
        Some(Op::Duplicate)
    } else if hd == 4 && ld == 1 {
        Some(Op::Roll)
    } else if hd == 4 && ld == 2 {
        Some(Op::InNumber)
    } else if hd == 5 && ld == 0 {
        Some(Op::InChar)
    } else if hd == 5 && ld == 1 {
        Some(Op::OutNumber)
    } else if hd == 5 && ld == 2 {
        Some(Op::OutChar)
    } else {
        None
    }
}

/// Decodes a transition key, given the hue of the cell being left.
pub fn decode(hd: usize, ld: usize, from_hue: Hue) -> (r: Option<Op>)
    ensures
        r == decode_spec(hd as int, ld as int, from_hue),
{
    if hd == 6 {
        if from_hue == Hue::Smoke {
            Some(Op::Syscall)
        } else {
            Some(Op::NoOp)
        }
    } else {
        match (hd, ld) {
            (0, 1) => Some(Op::Push),
            (0, 2) => Some(Op::Pop),
            (1, 0) => Some(Op::Add),
            (1, 1) => Some(Op::Subtract),
            (1, 2) => Some(Op::Multiply),
            (2, 0) => Some(Op::Divide),
            (2, 1) => Some(Op::Modulo),
            (2, 2) => Some(Op::Not),
            (3, 0) => Some(Op::Greater),
            (3, 1) => Some(Op::Pointer),
            (3, 2) => Some(Op::Switch),
            (4, 0) => Some(Op::Duplicate),
            (4, 1) => Some(Op::Roll),
            (4, 2) => Some(Op::InNumber),
            (5, 0) => Some(Op::InChar),
            (5, 1) => Some(Op::OutNumber),
            (5, 2) => Some(Op::OutChar),
            _ => None,
        }
    }
}

/// The stack after a pop: the top value discarded, or unchanged when empty.
pub open spec fn stack_after_pop(s: Seq<i64>) -> Seq<i64> {
    if s.len() > 0 {
        s.drop_last()
    } else {
        s
    }
}

/// The stack after an add: the two topmost values replaced by their
/// wrapping sum, or unchanged when fewer than two are present.
pub open spec fn stack_after_add(s: Seq<i64>) -> Seq<i64> {
    if s.len() >= 2 {
        s.drop_last().drop_last().push(
            vstd::wrapping::i64_specs::wrapping_add(s[s.len() - 2], s.last()),
        )
    } else {
        s
    }
}

/// The stack after a subtract: the two topmost values replaced by their
/// wrapping difference (lower minus top), or unchanged when fewer than two
/// are present.
pub open spec fn stack_after_subtract(s: Seq<i64>) -> Seq<i64> {
    if s.len() >= 2 {
        s.drop_last().drop_last().push(
            vstd::wrapping::i64_specs::wrapping_sub(s[s.len() - 2], s.last()),
        )
    } else {
        s
    }
}

/// The stack after a multiply: the two topmost values replaced by their
/// wrapping product, or unchanged when fewer than two are present.
pub open spec fn stack_after_multiply(s: Seq<i64>) -> Seq<i64> {
    if s.len() >= 2 {
        s.drop_last().drop_last().push(
            vstd::wrapping::i64_specs::wrapping_mul(s[s.len() - 2], s.last()),
        )
    } else {
        s
    }
}

/// The stack after a divide with a nonzero divisor on top.
pub open spec fn stack_after_divide(s: Seq<i64>) -> Seq<i64>
    recommends
        s.len() >= 2,
        s.last() != 0,
{
    s.drop_last().drop_last().push(div_result(s[s.len() - 2], s.last()))
}

/// The stack after a modulo with a nonzero divisor on top.
pub open spec fn stack_after_modulo(s: Seq<i64>) -> Seq<i64>
    recommends
        s.len() >= 2,
        s.last() != 0,
{
    s.drop_last().drop_last().push(mod_result(s[s.len() - 2], s.last()))
}

/// The stack after a not: the top value replaced by 1 if it was 0 and by 0
/// otherwise, or unchanged when empty.
pub open spec fn stack_after_not(s: Seq<i64>) -> Seq<i64> {
    if s.len() > 0 {
        s.drop_last().push(if s.last() == 0 { 1i64 } else { 0i64 })
    } else {
        s
    }
}

/// The stack after a greater: the two topmost values replaced by 1 if the
/// lower exceeded the top and by 0 otherwise, or unchanged when fewer than
/// two are present.
pub open spec fn stack_after_greater(s: Seq<i64>) -> Seq<i64> {
    if s.len() >= 2 {
        s.drop_last().drop_last().push(if s[s.len() - 2] > s.last() { 1i64 } else { 0i64 })
    } else {
        s
    }
}

/// The stack after a duplicate: a second copy of the top value pushed, or
/// unchanged when empty.
pub open spec fn stack_after_duplicate(s: Seq<i64>) -> Seq<i64> {
    if s.len() > 0 {
        s.push(s.last())
    } else {
        s
    }
}

/// Discards the top of the stack; does nothing on an empty stack.
pub fn op_pop(stack: &mut Vec<i64>)
    ensures
        final(stack)@ == stack_after_pop(old(stack)@),
{
    if stack.len() > 0 {
        stack.pop();
    }
}

/// Pops a then b and pushes b + a, wrapping on overflow; does nothing unless
/// two operands are present.
pub fn op_add(stack: &mut Vec<i64>)
    ensures
        final(stack)@ == stack_after_add(old(stack)@),
{
    if stack.len() >= 2 {
        let a = stack.pop().unwrap();
        let b = stack.pop().unwrap();
        stack.push(b.wrapping_add(a));
    }
}

/// Pops a then b and pushes b - a, wrapping on overflow; does nothing unless
/// two operands are present.
pub fn op_subtract(stack: &mut Vec<i64>)
    ensures
        final(stack)@ == stack_after_subtract(old(stack)@),
{
    if stack.len() >= 2 {
        let a = stack.pop().unwrap();
        let b = stack.pop().unwrap();
        stack.push(b.wrapping_sub(a));
    }
}

/// Pops a then b and pushes b * a, wrapping on overflow; does nothing unless
/// two operands are present.
pub fn op_multiply(stack: &mut Vec<i64>)
    ensures
        final(stack)@ == stack_after_multiply(old(stack)@),
{
    if stack.len() >= 2 {
        let a = stack.pop().unwrap();
        let b = stack.pop().unwrap();
        stack.push(b.wrapping_mul(a));
    }
}

/// The quotient the divide transition pushes: b over a truncated toward
/// zero, wrapping on the one overflowing case.
pub open spec fn div_result(b: i64, a: i64) -> i64
    recommends
        a != 0,
{
    match b.checked_div(a) {
        Some(q) => q,
        None => i64::MIN,
    }
}

/// Pops a then b and pushes b / a truncated toward zero (wrapping on
/// overflow); division by zero is fatal and leaves the stack untouched;
/// does nothing unless two operands are present.
pub fn op_divide(stack: &mut Vec<i64>) -> (r: Result<(), PietError>)
    ensures
        ({
            let s = old(stack)@;
            if s.len() >= 2 {
                if s.last() == 0 {
                    r == Err::<(), PietError>(PietError::DivisionByZero) && final(stack)@ == s
                } else {
                    r == Ok::<(), PietError>(()) && final(stack)@ == stack_after_divide(s)
                }
            } else {
                r == Ok::<(), PietError>(()) && final(stack)@ == s
            }
        }),
{
    if stack.len() >= 2 {
        let a = stack[stack.len() - 1];
        if a == 0 {
            return Err(PietError::DivisionByZero);
        }
        let a = stack.pop().unwrap();
        let b = stack.pop().unwrap();
        match b.checked_div(a) {
            Some(q) => stack.push(q),
            None => stack.push(i64::MIN),
        }
    }
    Ok(())
}

/// The remainder the modulo transition pushes: the truncated remainder of b
/// by a, plus a, wrapping on overflow. The sum shares the sign of `a`
/// whenever it is nonzero, whatever the host's remainder convention.
pub open spec fn mod_result(b: i64, a: i64) -> i64
    recommends
        a != 0,
{
    let rem = match b.checked_rem(a) {
        Some(rm) => rm,
        None => 0,
    };
    vstd::wrapping::i64_specs::wrapping_add(rem, a)
}

/// Pops a then b and pushes (b % a) + a, with % the host's truncated
/// remainder; modulo by zero is fatal and leaves the stack untouched; does
/// nothing unless two operands are present.
pub fn op_modulo(stack: &mut Vec<i64>) -> (r: Result<(), PietError>)
    ensures
        ({
            let s = old(stack)@;
            if s.len() >= 2 {
                if s.last() == 0 {
                    r == Err::<(), PietError>(PietError::ModuloByZero) && final(stack)@ == s
                } else {
                    r == Ok::<(), PietError>(()) && final(stack)@ == stack_after_modulo(s)
                }
            } else {
                r == Ok::<(), PietError>(()) && final(stack)@ == s
            }
        }),
{
    if stack.len() >= 2 {
        let a = stack[stack.len() - 1];
        if a == 0 {
            return Err(PietError::ModuloByZero);
        }
        let a = stack.pop().unwrap();
        let b = stack.pop().unwrap();
        let rem = match b.checked_rem(a) {
            Some(rm) => rm,
            None => 0,
        };
        stack.push(rem.wrapping_add(a));
    }
    Ok(())
}

/// Pops a value and pushes 1 if it was 0, else 0; does nothing on an empty
/// stack.
pub fn op_not(stack: &mut Vec<i64>)
    ensures
        final(stack)@ == stack_after_not(old(stack)@),
{
    if stack.len() > 0 {
        let v = stack.pop().unwrap();
        stack.push(if v == 0 { 1 } else { 0 });
    }
}

/// Pops a then b and pushes 1 if b > a, else 0; does nothing unless two
/// operands are present.
pub fn op_greater(stack: &mut Vec<i64>)
    ensures
        final(stack)@ == stack_after_greater(old(stack)@),
{
    if stack.len() >= 2 {
        let a = stack.pop().unwrap();
        let b = stack.pop().unwrap();
        stack.push(if b > a { 1 } else { 0 });
    }
}

/// Pushes a second copy of the top value; does nothing on an empty stack.
pub fn op_duplicate(stack: &mut Vec<i64>)
    ensures
        final(stack)@ == stack_after_duplicate(old(stack)@),
{
    if stack.len() > 0 {
        let v = stack[stack.len() - 1];
        stack.push(v);
    }
}

/// The stack after rolling its top `d` values cyclically by `c` steps:
/// positive `c` moves the top `c` values of the segment to its bottom,
/// preserving their relative order. Meaningful for 0 <= d <= len; a depth of
/// 0 rolls nothing.
pub open spec fn roll_spec(s: Seq<i64>, c: int, d: int) -> Seq<i64> {
    if d <= 0 || d > s.len() {
        s
    } else {
        let lo = s.len() - d;
        let k = c % d;
        s.take(lo as int) + s.subrange(lo + d - k, s.len() as int) + s.subrange(
            lo as int,
            lo + d - k,
        )
    }
}

/// The nonnegative residue of `c` modulo `d`, computed from the host's
/// truncated remainder; equals the mathematical (Euclidean) `c % d`.
fn floor_mod(c: i64, d: i64) -> (r: i64)
    requires
        d > 0,
    ensures
        r as int == (c as int) % (d as int),
        0 <= r < d,
{
    let rem = c.checked_rem(d).unwrap();
    let r = if rem < 0 {
        rem + d
    } else {
        rem
    };
    proof {
        let ci = c as int;
        let di = d as int;
        if ci > 0 {
            assert(rem == ci % di);
        } else if ci == 0 {
            assert(rem == 0);
            assert((0int) % di == 0);
        } else {
            let m = -ci;
            assert(rem == -(m % di));
            lemma_fundamental_div_mod(m, di);
            assert(m == di * (m / di) + m % di);
            let q = m / di;
            if m % di == 0 {
                assert(ci == (-q) * di + 0) by (nonlinear_arith)
                    requires ci == -m, m == di * q,
                ;
                lemma_fundamental_div_mod_converse(ci, di, -q, 0);
            } else {
                assert(ci == (-q - 1) * di + (di - m % di)) by (nonlinear_arith)
                    requires ci == -m, m == di * q + m % di,
                ;
                lemma_fundamental_div_mod_converse(ci, di, -q - 1, di - m % di);
            }
        }
    }
    r
}

/// Rolls the top `depth` values of the stack cyclically by `count` steps:
/// positive counts bury the top values at the bottom of the segment, their
/// relative order kept; negative counts roll the opposite way. A depth below
/// zero or beyond the stack is fatal and leaves the stack untouched.
pub fn roll(stack: &mut Vec<i64>, count: i64, depth: i64) -> (r: Result<(), PietError>)
    ensures
        ({
            let s = old(stack)@;
            if 0 <= depth && depth <= s.len() {
                r == Ok::<(), PietError>(()) && final(stack)@ == roll_spec(
                    s,
                    count as int,
                    depth as int,
                )
            } else {
                r == Err::<(), PietError>(PietError::StackTooShallow) && final(stack)@ == s
            }
        }),
{
    let len = stack.len();
    if depth < 0 || depth as u64 > len as u64 {
        return Err(PietError::StackTooShallow);
    }
    let d = depth as usize;
    if d == 0 {
        proof {
            assert(roll_spec(old(stack)@, count as int, 0) == old(stack)@);
        }
        return Ok(());
    }
    let lo = len - d;
    let k = floor_mod(count, depth) as usize;
    let ghost s = old(stack)@;
    let ghost ki = k as int;
    let ghost loi = lo as int;
    let ghost di = d as int;
    let cut = lo + d - k;
    let mut out: Vec<i64> = Vec::new();
    let mut i: usize = 0;
    while i < lo
        invariant
            i <= lo,
            lo <= len,
            len == s.len(),
            stack@ == s,
            out@ == s.take(i as int),
        decreases lo - i,
    {
        out.push(stack[i]);
        proof {
            assert(out@ =~= s.take(i + 1));
        }
        i = i + 1;
    }
    proof {
        assert(out@ =~= s.take(loi) + s.subrange(cut as int, cut as int));
    }
    let mut i: usize = cut;
    while i < len
        invariant
            cut <= i <= len,
            cut == loi + di - ki,
            0 <= ki < di <= len,
            len == s.len(),
            loi == len - di,
            stack@ == s,
            out@ == s.take(loi) + s.subrange(cut as int, i as int),
        decreases len - i,
    {
        out.push(stack[i]);
        proof {
            assert(out@ =~= s.take(loi) + s.subrange(cut as int, i + 1));
        }
        i = i + 1;
    }
    proof {
        assert(out@ =~= s.take(loi) + s.subrange(cut as int, len as int) + s.subrange(loi, loi));
    }
    let mut i: usize = lo;
    while i < cut
        invariant
            loi <= i <= cut,
            cut == loi + di - ki,
            0 <= ki < di <= len,
            len == s.len(),
            loi == len - di,
            stack@ == s,
            out@ == s.take(loi) + s.subrange(cut as int, len as int) + s.subrange(loi, i as int),
        decreases cut - i,
    {
        out.push(stack[i]);
        proof {
            assert(out@ =~= s.take(loi) + s.subrange(cut as int, len as int) + s.subrange(
                loi,
                i + 1,
            ));
        }
        i = i + 1;
    }
    *stack = out;
    Ok(())
}

/// Rolling by `c` and then by `-c` at the same depth restores the stack:
/// the two cyclic rotations cancel, whatever the depth and step count.
pub proof fn lemma_roll_inverse(s: Seq<i64>, c: int, d: int)
    requires
        0 <= d <= s.len(),
    ensures
        roll_spec(roll_spec(s, c, d), -c, d) == s,
{
    if d == 0 {
    } else {
        let lo = s.len() - d;
        let k = c % d;
        vstd::arithmetic::div_mod::lemma_mod_bound(c, d);
        let r1 = roll_spec(s, c, d);
        assert(r1.len() == s.len()) by {
            assert(r1 =~= s.take(lo as int) + s.subrange(lo + d - k, s.len() as int) + s.subrange(
                lo as int,
                lo + d - k,
            ));
        }
        let k2 = (-c) % d;
        vstd::arithmetic::div_mod::lemma_mod_bound(-c, d);
        assert(k2 == if k == 0 { 0int } else { d - k }) by {
            lemma_fundamental_div_mod(c, d);
            if k == 0 {
                assert(-c == (-(c / d)) * d + 0) by (nonlinear_arith)
                    requires c == d * (c / d) + 0;
                lemma_fundamental_div_mod_converse(-c, d, -(c / d), 0);
            } else {
                assert(-c == (-(c / d) - 1) * d + (d - k)) by (nonlinear_arith)
                    requires c == d * (c / d) + k;
                lemma_fundamental_div_mod_converse(-c, d, -(c / d) - 1, d - k);
            }
        }
        assert(roll_spec(r1, -c, d) =~= s);
    }
}

} // verus!
