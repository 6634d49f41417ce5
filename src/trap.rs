use crate::opcode::ExternalOpcode;
use vstd::prelude::*;

verus! {

/// How an execution ended well.
#[derive(Clone, Copy, Debug, PartialEq, Eq, Structural)]
pub enum ExitSucceed {
    Stopped,
    Returned,
    SelfDestructed,
}

/// Faults that the program itself caused.
#[derive(Clone, Copy, Debug, PartialEq, Eq, Structural)]
pub enum ExitError {
    StackUnderflow,
    StackOverflow,
    InvalidJump,
    InvalidRange,
    OutOfOffset,
    PCUnderflow,
    DesignatedInvalid,
    CodeEnded,
    Other,
}

/// Faults that cannot be laid to the program.
#[derive(Clone, Copy, Debug, PartialEq, Eq, Structural)]
pub enum ExitFatal {
    NotSupported,
    UnhandledInterrupt,
    Other,
}

/// The terminal classification of a halted execution.
#[derive(Clone, Copy, Debug, PartialEq, Eq, Structural)]
pub enum ExitReason {
    Succeeded(ExitSucceed),
    Reverted,
    Error(ExitError),
    Fatal(ExitFatal),
}

/// Why a step did not simply go on: the machine halted, or the host must act.
#[derive(Clone, Copy, Debug, PartialEq, Eq, Structural)]
pub enum Trap {
    Exit(ExitReason),
    External(ExternalOpcode),
}

} // verus!
