use vstd::prelude::*;

pub mod arith;
pub mod eval;
pub mod memory;
pub mod opcode;
pub mod stack;
pub mod trap;
pub mod valids;
pub mod word;

use crate::eval::{eval, eval_spec, state_of, Control, MachineState};
use crate::memory::Memory;
use crate::opcode::{spec_parse, ExternalOpcode, Opcode};
use crate::stack::Stack;
use crate::trap::{ExitError, ExitReason, Trap};
use crate::valids::{valid_targets, Valids};
use crate::word::Word;
use std::ops::Range;
use std::rc::Rc;

verus! {

/// The execution core: code, program counter (or the reason it halted), return range,
/// jump-target map, memory and stack.
pub struct Core {
    code: Rc<Vec<u8>>,
    position: Result<usize, ExitReason>,
    return_range: Range<usize>,
    valids: Valids,
    memory: Memory,
    stack: Stack,
}

/// What a `Core` holds, as mathematical values.
pub struct CoreView {
    pub code: Seq<u8>,
    pub position: Result<usize, ExitReason>,
    pub return_range: Range<usize>,
    pub valids: Seq<bool>,
    pub memory: Seq<u8>,
    pub memory_limit: nat,
    pub stack: Seq<Word>,
    pub stack_limit: nat,
}

impl View for Core {
    type V = CoreView;

    closed spec fn view(&self) -> CoreView {
        CoreView {
            code: self.code@,
            position: self.position,
            return_range: self.return_range,
            valids: self.valids@,
            memory: self.memory@,
            memory_limit: self.memory.max_len(),
            stack: self.stack@,
            stack_limit: self.stack.capacity(),
        }
    }
}

/// The invariant of a core: the jump map is that of its code, stack and memory stay
/// within their limits, and a running position lies within the code or just past it.
pub open spec fn core_wf(c: CoreView) -> bool {
    &&& c.valids == valid_targets(c.code)
    &&& c.stack.len() <= c.stack_limit
    &&& c.memory.len() <= c.memory_limit
    &&& c.position is Ok ==> c.position->Ok_0 <= c.code.len()
}

/// `c` with a new position.
pub open spec fn at(c: CoreView, position: Result<usize, ExitReason>) -> CoreView {
    CoreView { position, ..c }
}

/// `c` halted for `reason`, reporting it.
pub open spec fn halt(c: CoreView, reason: ExitReason) -> (CoreView, Result<(), Trap>) {
    (at(c, Err(reason)), Err(Trap::Exit(reason)))
}

/// One step of the machine: the state after it, and what the step reports.
pub open spec fn step_spec(c: CoreView) -> (CoreView, Result<(), Trap>) {
    match c.position {
        Err(reason) => (c, Err(Trap::Exit(reason))),
        Ok(p) => if p >= c.code.len() {
            halt(c, ExitReason::Error(ExitError::CodeEnded))
        } else {
            match spec_parse(c.code[p as int]) {
                Err(external) => (at(c, Ok((p + 1) as usize)), Err(Trap::External(external))),
                Ok(op) => {
                    let (control, s) = eval_spec(
                        op,
                        p as nat,
                        c.code,
                        state_of(c.stack, c.memory, c.return_range),
                        c.stack_limit,
                        c.memory_limit,
                    );
                    let c2 = CoreView {
                        stack: s.stack,
                        memory: s.memory,
                        return_range: s.return_range,
                        ..c
                    };
                    match control {
                        Control::Continue(n) => (at(c2, Ok((p + n) as usize)), Ok(())),
                        Control::Jump(t) => if t < c.valids.len() && c.valids[t as int] {
                            (at(c2, Ok(t)), Ok(()))
                        } else {
                            halt(c2, ExitReason::Error(ExitError::InvalidJump))
                        },
                        Control::Exit(reason) => halt(c2, reason),
                    }
                },
            }
        },
    }
}

/// `n` steps from `c`.
pub open spec fn run(c: CoreView, n: nat) -> CoreView
    decreases n,
{
    if n == 0 {
        c
    } else {
        step_spec(run(c, (n - 1) as nat)).0
    }
}

/// The byte at `p` decodes to an instruction that, in every state, goes on to the next
/// byte.
pub open spec fn falls_through(code: Seq<u8>, p: int, cap: nat, mem_cap: nat) -> bool {
    &&& spec_parse(code[p]) is Ok
    &&& forall|s: MachineState|
        (#[trigger] eval_spec(spec_parse(code[p])->Ok_0, p as nat, code, s, cap, mem_cap)).0
            == Control::Continue(1)
}

proof fn lemma_run_prefix(c: CoreView, i: nat)
    requires
        c.position == Ok::<usize, ExitReason>(0),
        c.code.len() <= usize::MAX,
        forall|p: int|
            0 <= p < c.code.len() ==> #[trigger] falls_through(
                c.code,
                p,
                c.stack_limit,
                c.memory_limit,
            ),
        i <= c.code.len(),
    ensures
        run(c, i).position == Ok::<usize, ExitReason>(i as usize),
        run(c, i).code == c.code,
        run(c, i).valids == c.valids,
        run(c, i).stack_limit == c.stack_limit,
        run(c, i).memory_limit == c.memory_limit,
    decreases i,
{
    if i > 0 {
        let j = (i - 1) as nat;
        lemma_run_prefix(c, j);
        let d = run(c, j);
        assert(falls_through(c.code, j as int, c.stack_limit, c.memory_limit));
        let _ = eval_spec(
            spec_parse(c.code[j as int])->Ok_0,
            j,
            c.code,
            state_of(d.stack, d.memory, d.return_range),
            c.stack_limit,
            c.memory_limit,
        );
    }
}

/// Where every byte of the code decodes to an instruction with no immediate data that
/// always goes on to the next byte, the steps from offset 0 visit offsets 0, 1, 2, ...
/// in order, and the step at the end of the code halts with `CodeEnded`.
pub proof fn lemma_straight_line(c: CoreView)
    requires
        c.position == Ok::<usize, ExitReason>(0),
        c.code.len() <= usize::MAX,
        forall|p: int|
            0 <= p < c.code.len() ==> #[trigger] falls_through(
                c.code,
                p,
                c.stack_limit,
                c.memory_limit,
            ),
    ensures
        forall|i: nat|
            i <= c.code.len() ==> (#[trigger] run(c, i)).position == Ok::<usize, ExitReason>(
                i as usize,
            ),
        run(c, c.code.len() + 1).position == Err::<usize, ExitReason>(
            ExitReason::Error(ExitError::CodeEnded),
        ),
        step_spec(run(c, c.code.len())).1 == Err::<(), Trap>(
            Trap::Exit(ExitReason::Error(ExitError::CodeEnded)),
        ),
{
    assert forall|i: nat| i <= c.code.len() implies (#[trigger] run(c, i)).position == Ok::<
        usize,
        ExitReason,
    >(i as usize) by {
        lemma_run_prefix(c, i);
    }
    lemma_run_prefix(c, c.code.len());
}

/// A jump whose target is no legal jump target halts the core with `InvalidJump`: the
/// jump has popped its target, and nothing else has changed.
pub proof fn lemma_invalid_jump(c: CoreView, p: usize)
    requires
        c.position == Ok::<usize, ExitReason>(p),
        p < c.code.len(),
        spec_parse(c.code[p as int]) == Ok::<Opcode, ExternalOpcode>(Opcode::Jump),
        c.stack.len() >= 1,
        !(c.stack.last().value() < c.valids.len() && c.valids[c.stack.last().value() as int]),
    ensures
        step_spec(c) == halt(
            CoreView { stack: c.stack.drop_last(), ..c },
            ExitReason::Error(ExitError::InvalidJump),
        ),
{
}

/// A conditional jump with a nonzero condition to an offset that is no legal target
/// halts the core with `InvalidJump`, having popped its two operands and nothing else.
pub proof fn lemma_invalid_conditional_jump(c: CoreView, p: usize)
    requires
        c.position == Ok::<usize, ExitReason>(p),
        p < c.code.len(),
        spec_parse(c.code[p as int]) == Ok::<Opcode, ExternalOpcode>(Opcode::JumpI),
        c.stack.len() >= 2,
        c.stack[c.stack.len() - 2].value() != 0,
        !(c.stack.last().value() < c.valids.len() && c.valids[c.stack.last().value() as int]),
    ensures
        step_spec(c) == halt(
            CoreView { stack: c.stack.drop_last().drop_last(), ..c },
            ExitReason::Error(ExitError::InvalidJump),
        ),
{
}

/// A halted core stays as it is, and every further step reports the same reason.
pub proof fn lemma_halted_is_final(c: CoreView, reason: ExitReason, n: nat)
    requires
        c.position == Err::<usize, ExitReason>(reason),
    ensures
        step_spec(c) == (c, Err::<(), Trap>(Trap::Exit(reason))),
        run(c, n) == c,
    decreases n,
{
    if n > 0 {
        lemma_halted_is_final(c, reason, (n - 1) as nat);
    }
}

impl Core {
    pub closed spec fn wf(&self) -> bool {
        &&& core_wf(self@)
        &&& self.stack.wf()
        &&& self.memory.wf()
    }

    /// What a well-formed core holds satisfies `core_wf`: in particular, its jump map is
    /// the one of its code.
    pub proof fn lemma_wf_view(&self)
        requires
            self.wf(),
        ensures
            core_wf(self@),
    {
    }

    /// A core at offset 0 of `code`, with an empty stack of capacity `stack_limit` and
    /// an empty memory that may grow to `memory_limit` bytes.
    pub fn new(code: Rc<Vec<u8>>, stack_limit: usize, memory_limit: usize) -> (r: Core)
        ensures
            r.wf(),
            r@.code == code@,
            r@.position == Ok::<usize, ExitReason>(0),
            r@.return_range == (0..0usize),
            r@.valids == valid_targets(code@),
            r@.memory == Seq::<u8>::empty(),
            r@.memory_limit == memory_limit,
            r@.stack == Seq::<Word>::empty(),
            r@.stack_limit == stack_limit,
    {
        let valids = Valids::new(code.as_slice());
        Core {
            code,
            position: Ok(0),
            return_range: 0..0,
            valids,
            memory: Memory::new(memory_limit),
            stack: Stack::new(stack_limit),
        }
    }

    /// Where execution stands: the offset of the next instruction, or why it halted.
    pub fn position(&self) -> (r: Result<usize, ExitReason>)
        ensures
            r == self@.position,
    {
        self.position
    }

    /// The memory range designated as output.
    pub fn return_range(&self) -> (r: Range<usize>)
        ensures
            r == self@.return_range,
    {
        self.return_range.start..self.return_range.end
    }

    pub fn stack(&self) -> (r: &Stack)
        ensures
            r@ == self@.stack,
            r.capacity() == self@.stack_limit,
    {
        &self.stack
    }

    pub fn memory(&self) -> (r: &Memory)
        ensures
            r@ == self@.memory,
            r.max_len() == self@.memory_limit,
    {
        &self.memory
    }

    pub fn valids(&self) -> (r: &Valids)
        ensures
            r@ == self@.valids,
    {
        &self.valids
    }

    pub fn code(&self) -> (r: &[u8])
        ensures
            r@ == self@.code,
    {
        self.code.as_slice()
    }

    /// Executes one instruction, or reports why none can run.
    pub fn step(&mut self) -> (r: Result<(), Trap>)
        requires
            old(self).wf(),
        ensures
            final(self).wf(),
            (final(self)@, r) == step_spec(old(self)@),
    {
        let position = match self.position {
            Ok(p) => p,
            Err(e) => {
                return Err(Trap::Exit(e));
            },
        };
        if position >= self.code.len() {
            self.position = Err(ExitReason::Error(ExitError::CodeEnded));
            return Err(Trap::Exit(ExitReason::Error(ExitError::CodeEnded)));
        }
        match Opcode::parse(self.code[position]) {
            Ok(opcode) => {
                match eval(
                    opcode,
                    position,
                    self.code.as_slice(),
                    &mut self.stack,
                    &mut self.memory,
                    &mut self.return_range,
                ) {
                    Control::Continue(n) => {
                        self.position = Ok(position + n);
                        Ok(())
                    },
                    Control::Exit(e) => {
                        self.position = Err(e);
                        Err(Trap::Exit(e))
                    },
                    Control::Jump(t) => {
                        if self.valids.is_valid(t) {
                            self.position = Ok(t);
                            Ok(())
                        } else {
                            self.position = Err(ExitReason::Error(ExitError::InvalidJump));
                            Err(Trap::Exit(ExitReason::Error(ExitError::InvalidJump)))
                        }
                    },
                }
            },
            Err(external) => {
                self.position = Ok(position + 1);
                Err(Trap::External(external))
            },
        }
    }
}

} // verus!
