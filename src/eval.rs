use crate::arith::{
    addmod, addmod_spec, byte_at, byte_spec, exp, exp_spec, mulmod, mulmod_spec, sar, sar_spec,
    sdiv, sdiv_spec, shl, shl_spec, shr, shr_spec, sign_extend, sign_extend_spec, smod, smod_spec,
};
use crate::memory::{grown, Memory};
use crate::opcode::Opcode;
use crate::stack::Stack;
use crate::trap::{ExitError, ExitReason, ExitSucceed};
use crate::word::{
    be_value, from_be_bytes, lemma_word_of_value, signed_value, to_be_bytes, word_bytes,
    word_modulus, word_of, Word,
};
use core::ops::Range;
use vstd::prelude::*;

verus! {

/// What an instruction asks of the program counter.
#[derive(Clone, Copy, Debug, PartialEq, Eq, Structural)]
pub enum Control {
    /// Go on `n` bytes further.
    Continue(usize),
    /// Halt for the given reason.
    Exit(ExitReason),
    /// Go to an absolute offset, once it is checked to be a legal target.
    Jump(usize),
}

/// The parts of the machine that an instruction may change.
pub struct MachineState {
    pub stack: Seq<Word>,
    pub memory: Seq<u8>,
    pub return_range: Range<usize>,
}

pub open spec fn bool_word(b: bool) -> Word {
    if b {
        Word { lo: 1, hi: 0 }
    } else {
        Word { lo: 0, hi: 0 }
    }
}

pub open spec fn fail(s: MachineState, e: ExitError) -> (Control, MachineState) {
    (Control::Exit(ExitReason::Error(e)), s)
}

/// The state with a new stack.
pub open spec fn with_stack(s: MachineState, st: Seq<Word>) -> MachineState {
    MachineState { stack: st, memory: s.memory, return_range: s.return_range }
}

/// Pops two words (the top is `a`) and pushes `f(a, b)`.
pub open spec fn binary(s: MachineState, f: spec_fn(Word, Word) -> Word) -> (Control, MachineState) {
    let n = s.stack.len();
    if n < 2 {
        fail(s, ExitError::StackUnderflow)
    } else {
        let r = f(s.stack[n - 1], s.stack[n - 2]);
        (Control::Continue(1), with_stack(s, s.stack.drop_last().drop_last().push(r)))
    }
}

/// Pops three words (the top is `a`, then `b`, then `n`) and pushes `f(a, b, n)`.
pub open spec fn ternary(s: MachineState, f: spec_fn(Word, Word, Word) -> Word) -> (
    Control,
    MachineState,
) {
    let n = s.stack.len();
    if n < 3 {
        fail(s, ExitError::StackUnderflow)
    } else {
        let r = f(s.stack[n - 1], s.stack[n - 2], s.stack[n - 3]);
        (Control::Continue(1), with_stack(s, s.stack.drop_last().drop_last().drop_last().push(r)))
    }
}

/// Replaces the top with `f(top)`.
pub open spec fn unary(s: MachineState, f: spec_fn(Word) -> Word) -> (Control, MachineState) {
    let n = s.stack.len();
    if n < 1 {
        fail(s, ExitError::StackUnderflow)
    } else {
        (Control::Continue(1), with_stack(s, s.stack.drop_last().push(f(s.stack[n - 1]))))
    }
}

/// Pushes `w` if there is room.
pub open spec fn push_word(s: MachineState, cap: nat, w: Word, n: usize) -> (Control, MachineState) {
    if s.stack.len() >= cap {
        fail(s, ExitError::StackOverflow)
    } else {
        (Control::Continue(n), with_stack(s, s.stack.push(w)))
    }
}

/// Where a jump to the word `w` leads.
pub open spec fn jump_to(w: Word) -> Control {
    if w.value() <= usize::MAX {
        Control::Jump(w.value() as usize)
    } else {
        Control::Exit(ExitReason::Error(ExitError::InvalidJump))
    }
}

/// Pops an offset and a size and ends with `reason`, designating those bytes of
/// memory (grown to hold them) as the output.
pub open spec fn finish(s: MachineState, mem_cap: nat, reason: ExitReason) -> (Control, MachineState) {
    let n = s.stack.len();
    if n < 2 {
        fail(s, ExitError::StackUnderflow)
    } else {
        let (off, size) = (s.stack[n - 1].value(), s.stack[n - 2].value());
        let st = s.stack.drop_last().drop_last();
        if size == 0 {
            (
                Control::Exit(reason),
                MachineState { stack: st, memory: s.memory, return_range: 0..0 },
            )
        } else if off + size > mem_cap {
            fail(s, ExitError::InvalidRange)
        } else {
            (
                Control::Exit(reason),
                MachineState {
                    stack: st,
                    memory: grown(s.memory, off + size),
                    return_range: (off as usize)..((off + size) as usize),
                },
            )
        }
    }
}

/// What a two-operand instruction computes from the top `a` and the word `b` below
/// it. Arithmetic wraps modulo 2^256; division and remainder by zero give zero.
pub open spec fn binary_result(op: Opcode, a: Word, b: Word) -> Word {
    match op {
        Opcode::Add => word_of(a.value() + b.value()),
        Opcode::Mul => word_of(a.value() * b.value()),
        Opcode::Sub => word_of((word_modulus() + a.value() - b.value()) as nat),
        Opcode::Div => if b.value() == 0 {
            word_of(0)
        } else {
            word_of(a.value() / b.value())
        },
        Opcode::Mod => if b.value() == 0 {
            word_of(0)
        } else {
            word_of(a.value() % b.value())
        },
        Opcode::SDiv => sdiv_spec(a, b),
        Opcode::SMod => smod_spec(a, b),
        Opcode::Exp => exp_spec(a, b),
        Opcode::SignExtend => sign_extend_spec(a, b),
        Opcode::Byte => byte_spec(a, b),
        Opcode::Shl => shl_spec(a, b),
        Opcode::Shr => shr_spec(a, b),
        Opcode::Sar => sar_spec(a, b),
        Opcode::Lt => bool_word(a.value() < b.value()),
        Opcode::Gt => bool_word(a.value() > b.value()),
        Opcode::SignedLt => bool_word(signed_value(a) < signed_value(b)),
        Opcode::SignedGt => bool_word(signed_value(a) > signed_value(b)),
        Opcode::Equal => bool_word(a == b),
        Opcode::And => Word { lo: a.lo & b.lo, hi: a.hi & b.hi },
        Opcode::Or => Word { lo: a.lo | b.lo, hi: a.hi | b.hi },
        _ => Word { lo: a.lo ^ b.lo, hi: a.hi ^ b.hi },
    }
}

/// The effect of one instruction at offset `pos`, on a stack of capacity `cap` and a
/// memory of at most `mem_cap` bytes.
pub open spec fn eval_spec(
    op: Opcode,
    pos: nat,
    code: Seq<u8>,
    s: MachineState,
    cap: nat,
    mem_cap: nat,
) -> (Control, MachineState) {
    let st = s.stack;
    let n = st.len();
    match op {
        Opcode::Stop => (Control::Exit(ExitReason::Succeeded(ExitSucceed::Stopped)), s),
        Opcode::Add | Opcode::Mul | Opcode::Sub | Opcode::Div | Opcode::SDiv | Opcode::Mod
        | Opcode::SMod | Opcode::Exp | Opcode::SignExtend | Opcode::Lt | Opcode::Gt
        | Opcode::SignedLt | Opcode::SignedGt | Opcode::Equal | Opcode::And | Opcode::Or
        | Opcode::Xor | Opcode::Byte | Opcode::Shl | Opcode::Shr | Opcode::Sar => binary(
            s,
            |a: Word, b: Word| binary_result(op, a, b),
        ),
        Opcode::AddMod => ternary(s, |a: Word, b: Word, n: Word| addmod_spec(a, b, n)),
        Opcode::MulMod => ternary(s, |a: Word, b: Word, n: Word| mulmod_spec(a, b, n)),
        Opcode::IsZero => unary(s, |a: Word| bool_word(a.value() == 0)),
        Opcode::Not => unary(s, |a: Word| Word { lo: !a.lo, hi: !a.hi }),
        Opcode::Pop => if n < 1 {
            fail(s, ExitError::StackUnderflow)
        } else {
            (Control::Continue(1), with_stack(s, st.drop_last()))
        },
        Opcode::MLoad => if n < 1 {
            fail(s, ExitError::StackUnderflow)
        } else if st[n - 1].value() + 32 > mem_cap {
            fail(s, ExitError::InvalidRange)
        } else {
            let off = st[n - 1].value();
            let m = grown(s.memory, off + 32);
            let w = word_of(be_value(m.subrange(off as int, off + 32 as int)));
            (
                Control::Continue(1),
                MachineState {
                    stack: st.drop_last().push(w),
                    memory: m,
                    return_range: s.return_range,
                },
            )
        },
        Opcode::MStore => if n < 2 {
            fail(s, ExitError::StackUnderflow)
        } else if st[n - 1].value() + 32 > mem_cap {
            fail(s, ExitError::InvalidRange)
        } else {
            let off = st[n - 1].value();
            let g = grown(s.memory, off + 32);
            let m = g.subrange(0, off as int) + word_bytes(st[n - 2]) + g.subrange(
                off + 32 as int,
                g.len() as int,
            );
            (
                Control::Continue(1),
                MachineState {
                    stack: st.drop_last().drop_last(),
                    memory: m,
                    return_range: s.return_range,
                },
            )
        },
        Opcode::MStore8 => if n < 2 {
            fail(s, ExitError::StackUnderflow)
        } else if st[n - 1].value() + 1 > mem_cap {
            fail(s, ExitError::InvalidRange)
        } else {
            let off = st[n - 1].value();
            let m = grown(s.memory, off + 1).update(off as int, (st[n - 2].value() % 256) as u8);
            (
                Control::Continue(1),
                MachineState {
                    stack: st.drop_last().drop_last(),
                    memory: m,
                    return_range: s.return_range,
                },
            )
        },
        Opcode::Jump => if n < 1 {
            fail(s, ExitError::StackUnderflow)
        } else {
            (jump_to(st[n - 1]), with_stack(s, st.drop_last()))
        },
        Opcode::JumpI => if n < 2 {
            fail(s, ExitError::StackUnderflow)
        } else if st[n - 2].value() == 0 {
            (Control::Continue(1), with_stack(s, st.drop_last().drop_last()))
        } else {
            (jump_to(st[n - 1]), with_stack(s, st.drop_last().drop_last()))
        },
        Opcode::Pc => push_word(s, cap, word_of(pos), 1),
        Opcode::MSize => push_word(s, cap, word_of(s.memory.len()), 1),
        Opcode::JumpDest => (Control::Continue(1), s),
        Opcode::Push(k) => if pos + 1 + k > code.len() {
            fail(s, ExitError::OutOfOffset)
        } else {
            push_word(
                s,
                cap,
                word_of(be_value(code.subrange(pos + 1 as int, pos + 1 + k as int))),
                (k + 1) as usize,
            )
        },
        Opcode::Dup(k) => if n < k {
            fail(s, ExitError::StackUnderflow)
        } else {
            push_word(s, cap, st[n - k], 1)
        },
        Opcode::Swap(k) => if n < k + 1 {
            fail(s, ExitError::StackUnderflow)
        } else {
            (
                Control::Continue(1),
                with_stack(s, st.update(n - 1, st[n - 1 - k]).update(n - 1 - k, st[n - 1])),
            )
        },
        Opcode::Return => finish(s, mem_cap, ExitReason::Succeeded(ExitSucceed::Returned)),
        Opcode::Revert => finish(s, mem_cap, ExitReason::Reverted),
        Opcode::Invalid => fail(s, ExitError::DesignatedInvalid),
    }
}

/// Push and Dup carry a count from 1 to 32 and 1 to 16, Swap one from 1 to 16, as
/// `Opcode::parse` gives them.
pub open spec fn op_wf(op: Opcode) -> bool {
    match op {
        Opcode::Push(k) => 1 <= k <= 32,
        Opcode::Dup(k) => 1 <= k <= 16,
        Opcode::Swap(k) => 1 <= k <= 16,
        _ => true,
    }
}

pub open spec fn state_of(stack: Seq<Word>, memory: Seq<u8>, return_range: Range<usize>) -> MachineState {
    MachineState { stack, memory, return_range }
}

fn pop1(stack: &mut Stack) -> (r: Word)
    requires
        old(stack).wf(),
        old(stack)@.len() >= 1,
    ensures
        final(stack).wf(),
        final(stack).capacity() == old(stack).capacity(),
        r == old(stack)@.last(),
        final(stack)@ == old(stack)@.drop_last(),
{
    match stack.pop() {
        Ok(w) => w,
        Err(_) => Word::zero(),
    }
}

fn pop2(stack: &mut Stack) -> (r: (Word, Word))
    requires
        old(stack).wf(),
        old(stack)@.len() >= 2,
    ensures
        final(stack).wf(),
        final(stack).capacity() == old(stack).capacity(),
        r.0 == old(stack)@[old(stack)@.len() - 1],
        r.1 == old(stack)@[old(stack)@.len() - 2],
        final(stack)@ == old(stack)@.drop_last().drop_last(),
{
    let a = pop1(stack);
    let b = pop1(stack);
    (a, b)
}

fn peek_at(stack: &Stack, n: usize) -> (r: Word)
    requires
        n < stack@.len(),
    ensures
        r == stack@[stack@.len() - 1 - n],
{
    match stack.peek(n) {
        Ok(w) => w,
        Err(_) => Word::zero(),
    }
}

fn push_room(stack: &mut Stack, w: Word)
    requires
        old(stack).wf(),
        old(stack)@.len() < old(stack).capacity(),
    ensures
        final(stack).wf(),
        final(stack).capacity() == old(stack).capacity(),
        final(stack)@ == old(stack)@.push(w),
{
    let _ = stack.push(w);
}

fn bool_to_word(b: bool) -> (r: Word)
    ensures
        r == bool_word(b),
{
    if b {
        Word { lo: 1, hi: 0 }
    } else {
        Word { lo: 0, hi: 0 }
    }
}

fn underflow() -> (r: Control)
    ensures
        r == Control::Exit(ExitReason::Error(ExitError::StackUnderflow)),
{
    Control::Exit(ExitReason::Error(ExitError::StackUnderflow))
}

fn error(e: ExitError) -> (r: Control)
    ensures
        r == Control::Exit(ExitReason::Error(e)),
{
    Control::Exit(ExitReason::Error(e))
}

fn jump_exec(w: Word) -> (r: Control)
    ensures
        r == jump_to(w),
{
    match w.to_usize() {
        Some(t) => Control::Jump(t),
        None => error(ExitError::InvalidJump),
    }
}

/// Computes `binary_result(op, a, b)`.
fn binary_exec(op: Opcode, a: Word, b: Word) -> (r: Word)
    ensures
        r == binary_result(op, a, b),
{
    match op {
        Opcode::Add => a.wrapping_add(b),
        Opcode::Mul => a.wrapping_mul(b),
        Opcode::Sub => a.wrapping_sub(b),
        Opcode::Div | Opcode::Mod => {
            if b.is_zero() {
                return Word::zero();
            }
            let (q, m) = a.div_rem(b);
            let r = match op {
                Opcode::Div => q,
                _ => m,
            };
            proof {
                lemma_word_of_value(r);
            }
            r
        },
        Opcode::SDiv => sdiv(a, b),
        Opcode::SMod => smod(a, b),
        Opcode::Exp => exp(a, b),
        Opcode::SignExtend => sign_extend(a, b),
        Opcode::Byte => byte_at(a, b),
        Opcode::Shl => shl(a, b),
        Opcode::Shr => shr(a, b),
        Opcode::Sar => sar(a, b),
        Opcode::Lt => bool_to_word(a.lt(&b)),
        Opcode::Gt => bool_to_word(b.lt(&a)),
        Opcode::SignedLt => bool_to_word(a.signed_lt(&b)),
        Opcode::SignedGt => bool_to_word(b.signed_lt(&a)),
        Opcode::Equal => bool_to_word(a.eq_word(&b)),
        Opcode::And => a.bit_and(&b),
        Opcode::Or => a.bit_or(&b),
        _ => a.bit_xor(&b),
    }
}

/// Return and Revert: designate the output range and end with `reason`.
fn finish_exec(
    stack: &mut Stack,
    memory: &mut Memory,
    return_range: &mut Range<usize>,
    reason: ExitReason,
) -> (r: Control)
    requires
        old(stack).wf(),
        old(memory).wf(),
    ensures
        final(stack).wf(),
        final(memory).wf(),
        final(stack).capacity() == old(stack).capacity(),
        final(memory).max_len() == old(memory).max_len(),
        (r, state_of(final(stack)@, final(memory)@, *final(return_range))) == finish(
            state_of(old(stack)@, old(memory)@, *old(return_range)),
            old(memory).max_len(),
            reason,
        ),
{
    if stack.len() < 2 {
        return underflow();
    }
    let off_w = peek_at(stack, 0);
    let size_w = peek_at(stack, 1);
    if size_w.is_zero() {
        let _ = pop2(stack);
        *return_range = 0..0;
        return Control::Exit(reason);
    }
    let limit = memory.limit();
    let off = match off_w.to_usize() {
        Some(v) => v,
        None => {
            return error(ExitError::InvalidRange);
        },
    };
    let size = match size_w.to_usize() {
        Some(v) => v,
        None => {
            return error(ExitError::InvalidRange);
        },
    };
    if size > limit || off > limit - size {
        return error(ExitError::InvalidRange);
    }
    let _ = memory.resize(off + size);
    let _ = pop2(stack);
    *return_range = off..(off + size);
    Control::Exit(reason)
}

/// Loads and stores between the stack and memory.
fn eval_memory(
    op: Opcode,
    pos: usize,
    code: &[u8],
    stack: &mut Stack,
    memory: &mut Memory,
    return_range: &mut Range<usize>,
) -> (r: Control)
    requires
        old(stack).wf(),
        old(memory).wf(),
        op is MLoad || op is MStore || op is MStore8,
    ensures
        final(stack).wf(),
        final(memory).wf(),
        final(stack).capacity() == old(stack).capacity(),
        final(memory).max_len() == old(memory).max_len(),
        *final(return_range) == *old(return_range),
        (r, state_of(final(stack)@, final(memory)@, *final(return_range))) == eval_spec(
            op,
            pos as nat,
            code@,
            state_of(old(stack)@, old(memory)@, *old(return_range)),
            old(stack).capacity(),
            old(memory).max_len(),
        ),
        r is Continue ==> r->Continue_0 == 1,
{
    match op {
        Opcode::MLoad => {
            if stack.len() < 1 {
                return underflow();
            }
            let off_w = peek_at(stack, 0);
            let limit = memory.limit();
            let off = match off_w.to_usize() {
                Some(v) => v,
                None => {
                    return error(ExitError::InvalidRange);
                },
            };
            if limit < 32 || off > limit - 32 {
                return error(ExitError::InvalidRange);
            }
            let _ = memory.resize(off + 32);
            let bytes = match memory.get(off, 32) {
                Ok(v) => v,
                Err(_) => Vec::new(),
            };
            proof {
                assert(bytes@.subrange(0, 32) =~= bytes@);
            }
            let w = from_be_bytes(bytes.as_slice(), 0, 32);
            proof {
                lemma_word_of_value(w);
            }
            let _ = pop1(stack);
            push_room(stack, w);
            Control::Continue(1)
        },
        Opcode::MStore => {
            if stack.len() < 2 {
                return underflow();
            }
            let off_w = peek_at(stack, 0);
            let limit = memory.limit();
            let off = match off_w.to_usize() {
                Some(v) => v,
                None => {
                    return error(ExitError::InvalidRange);
                },
            };
            if limit < 32 || off > limit - 32 {
                return error(ExitError::InvalidRange);
            }
            let (_, v) = pop2(stack);
            let _ = memory.resize(off + 32);
            let bytes = to_be_bytes(&v);
            let _ = memory.set(off, bytes.as_slice());
            Control::Continue(1)
        },
        _ => {
            if stack.len() < 2 {
                return underflow();
            }
            let off_w = peek_at(stack, 0);
            let limit = memory.limit();
            let off = match off_w.to_usize() {
                Some(v) => v,
                None => {
                    return error(ExitError::InvalidRange);
                },
            };
            if limit < 1 || off > limit - 1 {
                return error(ExitError::InvalidRange);
            }
            let (_, v) = pop2(stack);
            let _ = memory.resize(off + 1);
            let byte: Vec<u8> = vec![v.low_byte()];
            let ghost m1 = memory@;
            let _ = memory.set(off, byte.as_slice());
            proof {
                assert(memory@ =~= m1.update(off as int, (v.value() % 256) as u8));
            }
            Control::Continue(1)
        },
    }
}

/// Carries out `op`, found at offset `pos` of `code`, on the stack, the memory and
/// the return range.
#[verifier::rlimit(30)]
pub fn eval(
    op: Opcode,
    pos: usize,
    code: &[u8],
    stack: &mut Stack,
    memory: &mut Memory,
    return_range: &mut Range<usize>,
) -> (r: Control)
    requires
        old(stack).wf(),
        old(memory).wf(),
        pos < code@.len(),
        op_wf(op),
    ensures
        final(stack).wf(),
        final(memory).wf(),
        final(stack).capacity() == old(stack).capacity(),
        final(memory).max_len() == old(memory).max_len(),
        (r, state_of(final(stack)@, final(memory)@, *final(return_range))) == eval_spec(
            op,
            pos as nat,
            code@,
            state_of(old(stack)@, old(memory)@, *old(return_range)),
            old(stack).capacity(),
            old(memory).max_len(),
        ),
        r is Continue ==> pos + r->Continue_0 <= code@.len(),
{
    match op {
        Opcode::Stop => Control::Exit(ExitReason::Succeeded(ExitSucceed::Stopped)),
        Opcode::Add | Opcode::Mul | Opcode::Sub | Opcode::Div | Opcode::SDiv | Opcode::Mod
        | Opcode::SMod | Opcode::Exp | Opcode::SignExtend | Opcode::Lt | Opcode::Gt
        | Opcode::SignedLt | Opcode::SignedGt | Opcode::Equal | Opcode::And | Opcode::Or
        | Opcode::Xor | Opcode::Byte | Opcode::Shl | Opcode::Shr | Opcode::Sar => {
            if stack.len() < 2 {
                return underflow();
            }
            let (a, b) = pop2(stack);
            let r = binary_exec(op, a, b);
            push_room(stack, r);
            Control::Continue(1)
        },
        Opcode::AddMod | Opcode::MulMod => {
            if stack.len() < 3 {
                return underflow();
            }
            let (a, b) = pop2(stack);
            let n = pop1(stack);
            let r = match op {
                Opcode::AddMod => addmod(a, b, n),
                _ => mulmod(a, b, n),
            };
            push_room(stack, r);
            Control::Continue(1)
        },
        Opcode::IsZero | Opcode::Not => {
            if stack.len() < 1 {
                return underflow();
            }
            let a = pop1(stack);
            let r = match op {
                Opcode::IsZero => bool_to_word(a.is_zero()),
                _ => a.bit_not(),
            };
            push_room(stack, r);
            Control::Continue(1)
        },
        Opcode::Pop => {
            if stack.len() < 1 {
                return underflow();
            }
            let _ = pop1(stack);
            Control::Continue(1)
        },
        Opcode::MLoad | Opcode::MStore | Opcode::MStore8 => eval_memory(
            op,
            pos,
            code,
            stack,
            memory,
            return_range,
        ),
        Opcode::Jump => {
            if stack.len() < 1 {
                return underflow();
            }
            let t = pop1(stack);
            jump_exec(t)
        },
        Opcode::JumpI => {
            if stack.len() < 2 {
                return underflow();
            }
            let (t, c) = pop2(stack);
            if c.is_zero() {
                Control::Continue(1)
            } else {
                jump_exec(t)
            }
        },
        Opcode::Pc | Opcode::MSize => {
            if stack.len() >= stack.limit() {
                return error(ExitError::StackOverflow);
            }
            let w = match op {
                Opcode::Pc => Word::from_usize(pos),
                _ => Word::from_usize(memory.len()),
            };
            proof {
                lemma_word_of_value(w);
            }
            push_room(stack, w);
            Control::Continue(1)
        },
        Opcode::JumpDest => Control::Continue(1),
        Opcode::Push(k) => {
            let k = k as usize;
            if k > code.len() - pos - 1 {
                return error(ExitError::OutOfOffset);
            }
            if stack.len() >= stack.limit() {
                return error(ExitError::StackOverflow);
            }
            let w = from_be_bytes(code, pos + 1, pos + 1 + k);
            proof {
                lemma_word_of_value(w);
            }
            push_room(stack, w);
            Control::Continue(k + 1)
        },
        Opcode::Dup(k) => {
            let k = k as usize;
            if stack.len() < k {
                return underflow();
            }
            if stack.len() >= stack.limit() {
                return error(ExitError::StackOverflow);
            }
            let w = peek_at(stack, k - 1);
            push_room(stack, w);
            Control::Continue(1)
        },
        Opcode::Swap(k) => {
            let k = k as usize;
            if stack.len() < k + 1 {
                return underflow();
            }
            let a = peek_at(stack, 0);
            let b = peek_at(stack, k);
            let _ = stack.set(0, b);
            let _ = stack.set(k, a);
            Control::Continue(1)
        },
        Opcode::Return => finish_exec(
            stack,
            memory,
            return_range,
            ExitReason::Succeeded(ExitSucceed::Returned),
        ),
        Opcode::Revert => finish_exec(stack, memory, return_range, ExitReason::Reverted),
        Opcode::Invalid => error(ExitError::DesignatedInvalid),
    }
}

} // verus!
