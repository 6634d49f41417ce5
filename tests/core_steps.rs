use evm_core::arith::{addmod, mulmod};
use evm_core::opcode::{ExternalOpcode, Opcode};
use evm_core::trap::{ExitError, ExitReason, ExitSucceed, Trap};
use evm_core::word::Word;
use evm_core::Core;
use std::rc::Rc;

fn core_of(code: Vec<u8>) -> Core {
    Core::new(Rc::new(code), 1024, 1 << 20)
}

fn top(core: &Core, n: usize) -> Word {
    core.stack().peek(n).unwrap()
}

fn small(x: u128) -> Word {
    Word::from_u128(x)
}

fn error_exit(e: ExitError) -> Result<(), Trap> {
    Err(Trap::Exit(ExitReason::Error(e)))
}

#[test]
fn push_push_add_stop() {
    let mut core = core_of(vec![0x60, 0x05, 0x60, 0x03, 0x01, 0x00]);
    assert_eq!(core.step(), Ok(()));
    assert_eq!(core.stack().len(), 1);
    assert_eq!(top(&core, 0), small(5));
    assert_eq!(core.step(), Ok(()));
    assert_eq!(core.stack().len(), 2);
    assert_eq!(top(&core, 0), small(3));
    assert_eq!(top(&core, 1), small(5));
    assert_eq!(core.step(), Ok(()));
    assert_eq!(core.stack().len(), 1);
    assert_eq!(top(&core, 0), small(8));
    let stopped = ExitReason::Succeeded(ExitSucceed::Stopped);
    assert_eq!(core.step(), Err(Trap::Exit(stopped)));
    assert_eq!(core.position(), Err(stopped));
}

#[test]
fn truncated_push32_halts() {
    let mut core = core_of(vec![0x7f, 0x01, 0x02, 0x03]);
    assert_eq!(core.step(), error_exit(ExitError::OutOfOffset));
    assert_eq!(core.position(), Err(ExitReason::Error(ExitError::OutOfOffset)));
    assert_eq!(core.stack().len(), 0);
}

#[test]
fn full_push32_reads_all_bytes() {
    let mut code = vec![0x7f];
    for i in 0..32u8 {
        code.push(i);
    }
    let mut core = core_of(code);
    assert_eq!(core.step(), Ok(()));
    assert_eq!(core.position(), Ok(33));
    let w = top(&core, 0);
    assert_eq!(w.hi, 0x000102030405060708090a0b0c0d0e0f);
    assert_eq!(w.lo, 0x101112131415161718191a1b1c1d1e1f);
}

#[test]
fn external_opcode_suspends_then_resumes() {
    let mut core = core_of(vec![0x55, 0x5b]);
    assert_eq!(core.step(), Err(Trap::External(ExternalOpcode(0x55))));
    assert_eq!(core.position(), Ok(1));
    assert_eq!(core.step(), Ok(()));
    assert_eq!(core.position(), Ok(2));
}

#[test]
fn straight_line_visits_each_offset() {
    let mut core = core_of(vec![0x5b, 0x5b, 0x5b]);
    assert_eq!(core.position(), Ok(0));
    for i in 1..4usize {
        assert_eq!(core.step(), Ok(()));
        assert_eq!(core.position(), Ok(i));
    }
    assert_eq!(core.step(), error_exit(ExitError::CodeEnded));
    assert_eq!(core.position(), Err(ExitReason::Error(ExitError::CodeEnded)));
}

#[test]
fn empty_code_ends_at_once() {
    let mut core = core_of(vec![]);
    assert_eq!(core.step(), error_exit(ExitError::CodeEnded));
}

#[test]
fn push_data_is_never_a_jump_target() {
    let core = core_of(vec![0x61, 0x5b, 0x5b, 0x5b, 0x60]);
    let v = core.valids();
    assert_eq!(v.len(), 5);
    assert!(!v.is_valid(0));
    assert!(!v.is_valid(1));
    assert!(!v.is_valid(2));
    assert!(v.is_valid(3));
    assert!(!v.is_valid(4));
    assert!(!v.is_valid(5));
    assert!(!v.is_valid(usize::MAX));
}

#[test]
fn jump_into_push_data_is_invalid() {
    let mut core = core_of(vec![0x60, 0x01, 0x56]);
    assert_eq!(core.step(), Ok(()));
    assert_eq!(core.step(), error_exit(ExitError::InvalidJump));
    assert_eq!(core.position(), Err(ExitReason::Error(ExitError::InvalidJump)));
    assert_eq!(core.stack().len(), 0);
    assert_eq!(core.memory().len(), 0);
}

#[test]
fn jump_past_code_end_is_invalid() {
    let mut core = core_of(vec![0x60, 0xff, 0x56]);
    assert_eq!(core.step(), Ok(()));
    assert_eq!(core.step(), error_exit(ExitError::InvalidJump));
}

#[test]
fn jump_to_huge_target_is_invalid() {
    let mut core = core_of(vec![0x60, 0x00, 0x19, 0x56]);
    assert_eq!(core.step(), Ok(()));
    assert_eq!(core.step(), Ok(()));
    assert_eq!(core.step(), error_exit(ExitError::InvalidJump));
}

#[test]
fn jump_to_jumpdest() {
    let mut core = core_of(vec![0x60, 0x04, 0x56, 0x00, 0x5b, 0x00]);
    assert_eq!(core.step(), Ok(()));
    assert_eq!(core.step(), Ok(()));
    assert_eq!(core.position(), Ok(4));
    assert_eq!(core.step(), Ok(()));
    assert_eq!(
        core.step(),
        Err(Trap::Exit(ExitReason::Succeeded(ExitSucceed::Stopped)))
    );
}

#[test]
fn conditional_jump() {
    // condition zero: falls through
    let mut core = core_of(vec![0x60, 0x00, 0x60, 0x06, 0x57, 0x00, 0x5b]);
    for _ in 0..3 {
        assert_eq!(core.step(), Ok(()));
    }
    assert_eq!(core.position(), Ok(5));
    assert_eq!(core.stack().len(), 0);
    // condition nonzero: jumps
    let mut core = core_of(vec![0x60, 0x01, 0x60, 0x06, 0x57, 0x00, 0x5b]);
    for _ in 0..3 {
        assert_eq!(core.step(), Ok(()));
    }
    assert_eq!(core.position(), Ok(6));
    // nonzero condition, bad target
    let mut core = core_of(vec![0x60, 0x01, 0x60, 0x05, 0x57, 0x00]);
    assert_eq!(core.step(), Ok(()));
    assert_eq!(core.step(), Ok(()));
    assert_eq!(core.step(), error_exit(ExitError::InvalidJump));
    assert_eq!(core.stack().len(), 0);
}

#[test]
fn halted_core_reports_same_reason() {
    let mut core = core_of(vec![0x00, 0x5b]);
    let stopped = Err(Trap::Exit(ExitReason::Succeeded(ExitSucceed::Stopped)));
    assert_eq!(core.step(), stopped);
    assert_eq!(core.step(), stopped);
    assert_eq!(core.step(), stopped);
    assert_eq!(core.position(), Err(ExitReason::Succeeded(ExitSucceed::Stopped)));
}

#[test]
fn pop_underflow_halts() {
    let mut core = core_of(vec![0x50]);
    assert_eq!(core.step(), error_exit(ExitError::StackUnderflow));
    assert_eq!(core.step(), error_exit(ExitError::StackUnderflow));
}

#[test]
fn add_underflow_leaves_stack() {
    let mut core = core_of(vec![0x60, 0x01, 0x01]);
    assert_eq!(core.step(), Ok(()));
    assert_eq!(core.step(), error_exit(ExitError::StackUnderflow));
    assert_eq!(core.stack().len(), 1);
}

#[test]
fn push_overflow_halts() {
    let mut core = Core::new(Rc::new(vec![0x60, 0x01, 0x60, 0x02]), 1, 64);
    assert_eq!(core.step(), Ok(()));
    assert_eq!(core.step(), error_exit(ExitError::StackOverflow));
    assert_eq!(core.stack().len(), 1);
}

#[test]
fn sub_wraps_below_zero() {
    // push 1, push 0, sub: 0 - 1
    let mut core = core_of(vec![0x60, 0x01, 0x60, 0x00, 0x03]);
    for _ in 0..3 {
        assert_eq!(core.step(), Ok(()));
    }
    assert_eq!(top(&core, 0), Word { lo: u128::MAX, hi: u128::MAX });
}

#[test]
fn sub_in_order() {
    // push 3, push 10, sub: 10 - 3
    let mut core = core_of(vec![0x60, 0x03, 0x60, 0x0a, 0x03]);
    for _ in 0..3 {
        assert_eq!(core.step(), Ok(()));
    }
    assert_eq!(top(&core, 0), small(7));
}

#[test]
fn comparisons() {
    // push 2, push 1: top 1, second 2
    let cases: Vec<(u8, u128)> = vec![(0x10, 1), (0x11, 0), (0x14, 0)];
    for (op, expected) in cases {
        let mut core = core_of(vec![0x60, 0x02, 0x60, 0x01, op]);
        for _ in 0..3 {
            assert_eq!(core.step(), Ok(()));
        }
        assert_eq!(top(&core, 0), small(expected));
    }
    let mut core = core_of(vec![0x60, 0x07, 0x60, 0x07, 0x14]);
    for _ in 0..3 {
        assert_eq!(core.step(), Ok(()));
    }
    assert_eq!(top(&core, 0), small(1));
}

#[test]
fn is_zero_and_not() {
    let mut core = core_of(vec![0x60, 0x00, 0x15, 0x15, 0x19]);
    assert_eq!(core.step(), Ok(()));
    assert_eq!(core.step(), Ok(()));
    assert_eq!(top(&core, 0), small(1));
    assert_eq!(core.step(), Ok(()));
    assert_eq!(top(&core, 0), small(0));
    assert_eq!(core.step(), Ok(()));
    assert_eq!(top(&core, 0), Word { lo: u128::MAX, hi: u128::MAX });
}

#[test]
fn bitwise_ops() {
    let cases: Vec<(u8, u128)> = vec![(0x16, 0x08), (0x17, 0x0e), (0x18, 0x06)];
    for (op, expected) in cases {
        let mut core = core_of(vec![0x60, 0x0c, 0x60, 0x0a, op]);
        for _ in 0..3 {
            assert_eq!(core.step(), Ok(()));
        }
        assert_eq!(top(&core, 0), small(expected));
    }
}

#[test]
fn dup_and_swap() {
    // push 1, push 2, dup2, swap2
    let mut core = core_of(vec![0x60, 0x01, 0x60, 0x02, 0x81, 0x91]);
    for _ in 0..3 {
        assert_eq!(core.step(), Ok(()));
    }
    assert_eq!(core.stack().len(), 3);
    assert_eq!(top(&core, 0), small(1));
    assert_eq!(top(&core, 1), small(2));
    assert_eq!(core.step(), Ok(()));
    assert_eq!(top(&core, 0), small(1));
    assert_eq!(top(&core, 1), small(2));
    assert_eq!(top(&core, 2), small(1));
    let mut core = core_of(vec![0x60, 0x01, 0x82]);
    assert_eq!(core.step(), Ok(()));
    assert_eq!(core.step(), error_exit(ExitError::StackUnderflow));
    let mut core = core_of(vec![0x60, 0x01, 0x90]);
    assert_eq!(core.step(), Ok(()));
    assert_eq!(core.step(), error_exit(ExitError::StackUnderflow));
}

#[test]
fn pc_and_msize() {
    let mut core = core_of(vec![0x5b, 0x58, 0x59]);
    for _ in 0..3 {
        assert_eq!(core.step(), Ok(()));
    }
    assert_eq!(top(&core, 0), small(0));
    assert_eq!(top(&core, 1), small(1));
}

#[test]
fn mstore8_then_mload() {
    // push 0xab, push 0, mstore8, push 0, mload, msize
    let mut core = core_of(vec![0x60, 0xab, 0x60, 0x00, 0x53, 0x60, 0x00, 0x51, 0x59]);
    for _ in 0..3 {
        assert_eq!(core.step(), Ok(()));
    }
    assert_eq!(core.memory().len(), 1);
    assert_eq!(core.memory().get(0, 1), Ok(vec![0xab]));
    assert_eq!(core.step(), Ok(()));
    assert_eq!(core.step(), Ok(()));
    assert_eq!(core.memory().len(), 32);
    assert_eq!(top(&core, 0), Word { lo: 0, hi: 0xab << 120 });
    assert_eq!(core.step(), Ok(()));
    assert_eq!(top(&core, 0), small(32));
}

#[test]
fn mload_past_limit_fails() {
    let mut core = Core::new(Rc::new(vec![0x60, 0x40, 0x51]), 16, 64);
    assert_eq!(core.step(), Ok(()));
    assert_eq!(core.step(), error_exit(ExitError::InvalidRange));
    assert_eq!(core.memory().len(), 0);
}

#[test]
fn return_designates_output() {
    // push 2 (size), push 0 (offset), return
    let mut core = core_of(vec![0x60, 0x02, 0x60, 0x00, 0xf3]);
    assert_eq!(core.step(), Ok(()));
    assert_eq!(core.step(), Ok(()));
    assert_eq!(
        core.step(),
        Err(Trap::Exit(ExitReason::Succeeded(ExitSucceed::Returned)))
    );
    assert_eq!(core.return_range(), 0..2);
    assert_eq!(core.memory().len(), 2);
}

#[test]
fn revert_with_empty_output() {
    let mut core = core_of(vec![0x60, 0x00, 0x60, 0x09, 0xfd]);
    assert_eq!(core.step(), Ok(()));
    assert_eq!(core.step(), Ok(()));
    assert_eq!(core.step(), Err(Trap::Exit(ExitReason::Reverted)));
    assert_eq!(core.return_range(), 0..0);
    assert_eq!(core.memory().len(), 0);
}

#[test]
fn return_past_limit_fails() {
    let mut core = Core::new(Rc::new(vec![0x60, 0x02, 0x60, 0x3f, 0xf3]), 16, 64);
    assert_eq!(core.step(), Ok(()));
    assert_eq!(core.step(), Ok(()));
    assert_eq!(core.step(), error_exit(ExitError::InvalidRange));
}

#[test]
fn designated_invalid_halts() {
    let mut core = core_of(vec![0xfe]);
    assert_eq!(core.step(), error_exit(ExitError::DesignatedInvalid));
}

#[test]
fn parse_decodes_every_byte() {
    assert_eq!(Opcode::parse(0x00), Ok(Opcode::Stop));
    assert_eq!(Opcode::parse(0x60), Ok(Opcode::Push(1)));
    assert_eq!(Opcode::parse(0x7f), Ok(Opcode::Push(32)));
    assert_eq!(Opcode::parse(0x80), Ok(Opcode::Dup(1)));
    assert_eq!(Opcode::parse(0x9f), Ok(Opcode::Swap(16)));
    assert_eq!(Opcode::parse(0x5b), Ok(Opcode::JumpDest));
    assert_eq!(Opcode::parse(0x55), Err(ExternalOpcode(0x55)));
    assert_eq!(Opcode::parse(0xff), Err(ExternalOpcode(0xff)));
    for b in 0..=255u8 {
        let _ = Opcode::parse(b);
    }
    assert_eq!(Opcode::push_len(0x7f), 32);
    assert_eq!(Opcode::push_len(0x01), 0);
}

fn run_three(code: Vec<u8>) -> Word {
    let mut core = core_of(code);
    for _ in 0..3 {
        assert_eq!(core.step(), Ok(()));
    }
    top(&core, 0)
}

#[test]
fn mul_div_mod() {
    assert_eq!(run_three(vec![0x60, 0x07, 0x60, 0x06, 0x02]), small(42));
    // push 3, push 10: 10 / 3 and 10 % 3
    assert_eq!(run_three(vec![0x60, 0x03, 0x60, 0x0a, 0x04]), small(3));
    assert_eq!(run_three(vec![0x60, 0x03, 0x60, 0x0a, 0x06]), small(1));
}

#[test]
fn division_by_zero_gives_zero() {
    assert_eq!(run_three(vec![0x60, 0x00, 0x60, 0x0a, 0x04]), small(0));
    assert_eq!(run_three(vec![0x60, 0x00, 0x60, 0x0a, 0x06]), small(0));
}

#[test]
fn mstore_writes_big_endian() {
    // push 0x1234, push 0, mstore, push 0, mload
    let mut core = core_of(vec![0x61, 0x12, 0x34, 0x60, 0x00, 0x52, 0x60, 0x00, 0x51]);
    for _ in 0..3 {
        assert_eq!(core.step(), Ok(()));
    }
    assert_eq!(core.stack().len(), 0);
    assert_eq!(core.memory().len(), 32);
    assert_eq!(core.memory().get(30, 2), Ok(vec![0x12, 0x34]));
    assert_eq!(core.memory().get(0, 30), Ok(vec![0; 30]));
    assert_eq!(core.step(), Ok(()));
    assert_eq!(core.step(), Ok(()));
    assert_eq!(top(&core, 0), small(0x1234));
}

#[test]
fn mstore_underflow_and_range() {
    let mut core = core_of(vec![0x60, 0x00, 0x52]);
    assert_eq!(core.step(), Ok(()));
    assert_eq!(core.step(), error_exit(ExitError::StackUnderflow));
    let mut core = Core::new(Rc::new(vec![0x60, 0x01, 0x60, 0x21, 0x52]), 16, 64);
    assert_eq!(core.step(), Ok(()));
    assert_eq!(core.step(), Ok(()));
    assert_eq!(core.step(), error_exit(ExitError::InvalidRange));
    assert_eq!(core.memory().len(), 0);
}

#[test]
fn signed_comparisons() {
    // push 1, push 0, not (top is -1), then compare -1 with 1
    let cases: Vec<(u8, u128)> = vec![(0x12, 1), (0x13, 0), (0x10, 0), (0x11, 1)];
    for (op, expected) in cases {
        let mut core = core_of(vec![0x60, 0x01, 0x60, 0x00, 0x19, op]);
        for _ in 0..4 {
            assert_eq!(core.step(), Ok(()));
        }
        assert_eq!(top(&core, 0), small(expected));
    }
}

/// Runs `code` (pushes, then one instruction) to the end and returns the top word.
fn result_of(code: Vec<u8>, steps: usize) -> Word {
    let mut core = core_of(code);
    for _ in 0..steps {
        assert_eq!(core.step(), Ok(()));
    }
    assert_eq!(core.stack().len(), 1);
    top(&core, 0)
}

const MINUS_ONE: Word = Word { lo: u128::MAX, hi: u128::MAX };

#[test]
fn new_instructions_are_not_external() {
    for b in [0x05u8, 0x07, 0x08, 0x09, 0x0a, 0x0b, 0x1a, 0x1b, 0x1c, 0x1d] {
        assert!(Opcode::parse(b).is_ok());
    }
    assert_eq!(Opcode::parse(0x1c), Ok(Opcode::Shr));
    assert_eq!(Opcode::parse(0x38), Err(ExternalOpcode(0x38)));
}

#[test]
fn signed_division_and_remainder() {
    // push 3, push 0, not, sdiv: -1 / 3 == 0
    assert_eq!(result_of(vec![0x60, 0x03, 0x60, 0x00, 0x19, 0x05], 4), small(0));
    // push 2, push 7, push 0, sub (-7), sdiv: -7 / 2 == -3
    let r = result_of(vec![0x60, 0x02, 0x60, 0x07, 0x60, 0x00, 0x03, 0x05], 5);
    assert_eq!(r, Word { lo: u128::MAX - 2, hi: u128::MAX });
    // -7 smod 2 == -1
    let r = result_of(vec![0x60, 0x02, 0x60, 0x07, 0x60, 0x00, 0x03, 0x07], 5);
    assert_eq!(r, MINUS_ONE);
    // division and remainder by zero
    assert_eq!(result_of(vec![0x60, 0x00, 0x60, 0x07, 0x05], 3), small(0));
    assert_eq!(result_of(vec![0x60, 0x00, 0x60, 0x07, 0x07], 3), small(0));
}

#[test]
fn addmod_and_mulmod() {
    // push n, push b, push a, op
    assert_eq!(result_of(vec![0x60, 0x05, 0x60, 0x04, 0x60, 0x03, 0x08], 4), small(2));
    assert_eq!(result_of(vec![0x60, 0x05, 0x60, 0x04, 0x60, 0x03, 0x09], 4), small(2));
    assert_eq!(result_of(vec![0x60, 0x00, 0x60, 0x04, 0x60, 0x03, 0x08], 4), small(0));
    assert_eq!(result_of(vec![0x60, 0x00, 0x60, 0x04, 0x60, 0x03, 0x09], 4), small(0));
    let mut core = core_of(vec![0x60, 0x05, 0x60, 0x04, 0x08]);
    assert_eq!(core.step(), Ok(()));
    assert_eq!(core.step(), Ok(()));
    assert_eq!(core.step(), error_exit(ExitError::StackUnderflow));
}

#[test]
fn addmod_mulmod_do_not_wrap_first() {
    // (2^256 - 1) + 2 = 2^256 + 1, mod 3 == 2 (2^256 == 1 mod 3)
    assert_eq!(addmod(MINUS_ONE, small(2), small(3)), small(2));
    // (2^256 - 1)^2 mod 7: 2^256 == 2 mod 7, so (2 - 1)^2 == 1
    assert_eq!(mulmod(MINUS_ONE, MINUS_ONE, small(7)), small(1));
    assert_eq!(mulmod(small(6), small(7), small(10)), small(2));
}

#[test]
fn exponentiation() {
    // push 10 (exponent), push 2 (base), exp
    assert_eq!(result_of(vec![0x60, 0x0a, 0x60, 0x02, 0x0a], 3), small(1024));
    assert_eq!(result_of(vec![0x60, 0x00, 0x60, 0x00, 0x0a], 3), small(1));
    // 2^256 wraps to 0
    assert_eq!(result_of(vec![0x61, 0x01, 0x00, 0x60, 0x02, 0x0a], 3), small(0));
    // 3^200 modulo 2^256 has low limb 3^200 mod 2^128
    let low = (0..200).fold(1u128, |acc, _| acc.wrapping_mul(3));
    assert_eq!(result_of(vec![0x60, 0xc8, 0x60, 0x03, 0x0a], 3).lo, low);
}

#[test]
fn sign_extension() {
    // push 0xff, push 0 (byte index), signextend: -1
    assert_eq!(result_of(vec![0x60, 0xff, 0x60, 0x00, 0x0b], 3), MINUS_ONE);
    assert_eq!(result_of(vec![0x60, 0x7f, 0x60, 0x00, 0x0b], 3), small(0x7f));
    assert_eq!(result_of(vec![0x61, 0x01, 0x80, 0x60, 0x00, 0x0b], 3), Word { lo: u128::MAX - 0x7f, hi: u128::MAX });
    assert_eq!(result_of(vec![0x60, 0xff, 0x60, 0x1f, 0x0b], 3), small(0xff));
}

#[test]
fn byte_extraction() {
    // push 0x1234, push 30, byte: 0x12
    assert_eq!(result_of(vec![0x61, 0x12, 0x34, 0x60, 0x1e, 0x1a], 3), small(0x12));
    assert_eq!(result_of(vec![0x61, 0x12, 0x34, 0x60, 0x1f, 0x1a], 3), small(0x34));
    assert_eq!(result_of(vec![0x61, 0x12, 0x34, 0x60, 0x00, 0x1a], 3), small(0));
    assert_eq!(result_of(vec![0x61, 0x12, 0x34, 0x60, 0x20, 0x1a], 3), small(0));
}

#[test]
fn shifts() {
    // push value, push shift, op
    assert_eq!(result_of(vec![0x60, 0x01, 0x60, 0x04, 0x1b], 3), small(16));
    assert_eq!(result_of(vec![0x60, 0x01, 0x60, 0xff, 0x1b], 3), Word { lo: 0, hi: 1 << 127 });
    assert_eq!(result_of(vec![0x60, 0x01, 0x61, 0x01, 0x00, 0x1b], 3), small(0));
    assert_eq!(result_of(vec![0x60, 0x10, 0x60, 0x04, 0x1c], 3), small(1));
    assert_eq!(result_of(vec![0x60, 0x10, 0x61, 0x01, 0x00, 0x1c], 3), small(0));
    // sar of -16 by 2 == -4; by 300 == -1; of 16 by 2 == 4
    let minus_16 = vec![0x60, 0x10, 0x60, 0x00, 0x03];
    let mut code = minus_16.clone();
    code.extend([0x60, 0x02, 0x1d]);
    assert_eq!(result_of(code, 5), Word { lo: u128::MAX - 3, hi: u128::MAX });
    let mut code = minus_16.clone();
    code.extend([0x61, 0x01, 0x2c, 0x1d]);
    assert_eq!(result_of(code, 5), MINUS_ONE);
    assert_eq!(result_of(vec![0x60, 0x10, 0x60, 0x02, 0x1d], 3), small(4));
    assert_eq!(result_of(vec![0x60, 0x10, 0x61, 0x01, 0x2c, 0x1d], 3), small(0));
}
