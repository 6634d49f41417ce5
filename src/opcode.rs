use vstd::prelude::*;

verus! {

/// An instruction byte that the host interprets: storage, calls, contract creation,
/// logs, self-destruction, and queries of the environment (among them CODESIZE and
/// CODECOPY, since the code a host reports for a frame is the host's to decide), plus
/// every byte with no defined meaning.
#[derive(Clone, Copy, Debug, PartialEq, Eq, Structural)]
pub struct ExternalOpcode(pub u8);

/// An instruction that the core carries out itself: arithmetic, comparison, bitwise
/// and shift operations, stack and memory access, control flow, and the halts.
#[derive(Clone, Copy, Debug, PartialEq, Eq, Structural)]
pub enum Opcode {
    Stop,
    Add,
    Mul,
    Sub,
    Div,
    SDiv,
    Mod,
    SMod,
    AddMod,
    MulMod,
    Exp,
    SignExtend,
    Lt,
    Gt,
    SignedLt,
    SignedGt,
    Equal,
    IsZero,
    And,
    Or,
    Xor,
    Not,
    Byte,
    Shl,
    Shr,
    Sar,
    Pop,
    MLoad,
    MStore,
    MStore8,
    Jump,
    JumpI,
    Pc,
    MSize,
    JumpDest,
    /// Pushes the next `n` bytes of code, `1 <= n <= 32`.
    Push(u8),
    /// Duplicates the `n`-th word from the top, `1 <= n <= 16`.
    Dup(u8),
    /// Swaps the top with the word `n` below it, `1 <= n <= 16`.
    Swap(u8),
    Return,
    Revert,
    Invalid,
}

pub const JUMPDEST_BYTE: u8 = 0x5b;

/// What a byte decodes to.
pub open spec fn spec_parse(b: u8) -> Result<Opcode, ExternalOpcode> {
    if b == 0x00 {
        Ok(Opcode::Stop)
    } else if b == 0x01 {
        Ok(Opcode::Add)
    } else if b == 0x02 {
        Ok(Opcode::Mul)
    } else if b == 0x03 {
        Ok(Opcode::Sub)
    } else if b == 0x04 {
        Ok(Opcode::Div)
    } else if b == 0x05 {
        Ok(Opcode::SDiv)
    } else if b == 0x06 {
        Ok(Opcode::Mod)
    } else if b == 0x07 {
        Ok(Opcode::SMod)
    } else if b == 0x08 {
        Ok(Opcode::AddMod)
    } else if b == 0x09 {
        Ok(Opcode::MulMod)
    } else if b == 0x0a {
        Ok(Opcode::Exp)
    } else if b == 0x0b {
        Ok(Opcode::SignExtend)
    } else if b == 0x10 {
        Ok(Opcode::Lt)
    } else if b == 0x11 {
        Ok(Opcode::Gt)
    } else if b == 0x12 {
        Ok(Opcode::SignedLt)
    } else if b == 0x13 {
        Ok(Opcode::SignedGt)
    } else if b == 0x14 {
        Ok(Opcode::Equal)
    } else if b == 0x15 {
        Ok(Opcode::IsZero)
    } else if b == 0x16 {
        Ok(Opcode::And)
    } else if b == 0x17 {
        Ok(Opcode::Or)
    } else if b == 0x18 {
        Ok(Opcode::Xor)
    } else if b == 0x19 {
        Ok(Opcode::Not)
    } else if b == 0x1a {
        Ok(Opcode::Byte)
    } else if b == 0x1b {
        Ok(Opcode::Shl)
    } else if b == 0x1c {
        Ok(Opcode::Shr)
    } else if b == 0x1d {
        Ok(Opcode::Sar)
    } else if b == 0x50 {
        Ok(Opcode::Pop)
    } else if b == 0x51 {
        Ok(Opcode::MLoad)
    } else if b == 0x52 {
        Ok(Opcode::MStore)
    } else if b == 0x53 {
        Ok(Opcode::MStore8)
    } else if b == 0x56 {
        Ok(Opcode::Jump)
    } else if b == 0x57 {
        Ok(Opcode::JumpI)
    } else if b == 0x58 {
        Ok(Opcode::Pc)
    } else if b == 0x59 {
        Ok(Opcode::MSize)
    } else if b == 0x5b {
        Ok(Opcode::JumpDest)
    } else if 0x60 <= b <= 0x7f {
        Ok(Opcode::Push((b - 0x5f) as u8))
    } else if 0x80 <= b <= 0x8f {
        Ok(Opcode::Dup((b - 0x7f) as u8))
    } else if 0x90 <= b <= 0x9f {
        Ok(Opcode::Swap((b - 0x8f) as u8))
    } else if b == 0xf3 {
        Ok(Opcode::Return)
    } else if b == 0xfd {
        Ok(Opcode::Revert)
    } else if b == 0xfe {
        Ok(Opcode::Invalid)
    } else {
        Err(ExternalOpcode(b))
    }
}

/// How many bytes of immediate data follow the instruction byte `b`.
pub open spec fn immediate_len(b: u8) -> nat {
    if 0x60 <= b <= 0x7f {
        (b - 0x5f) as nat
    } else {
        0
    }
}

impl Opcode {
    /// Decodes one byte; every byte decodes to something.
    pub fn parse(b: u8) -> (r: Result<Opcode, ExternalOpcode>)
        ensures
            r == spec_parse(b),
    {
        match b {
            0x00 => Ok(Opcode::Stop),
            0x01 => Ok(Opcode::Add),
            0x02 => Ok(Opcode::Mul),
            0x03 => Ok(Opcode::Sub),
            0x04 => Ok(Opcode::Div),
            0x05 => Ok(Opcode::SDiv),
            0x06 => Ok(Opcode::Mod),
            0x07 => Ok(Opcode::SMod),
            0x08 => Ok(Opcode::AddMod),
            0x09 => Ok(Opcode::MulMod),
            0x0a => Ok(Opcode::Exp),
            0x0b => Ok(Opcode::SignExtend),
            0x10 => Ok(Opcode::Lt),
            0x11 => Ok(Opcode::Gt),
            0x12 => Ok(Opcode::SignedLt),
            0x13 => Ok(Opcode::SignedGt),
            0x14 => Ok(Opcode::Equal),
            0x15 => Ok(Opcode::IsZero),
            0x16 => Ok(Opcode::And),
            0x17 => Ok(Opcode::Or),
            0x18 => Ok(Opcode::Xor),
            0x19 => Ok(Opcode::Not),
            0x1a => Ok(Opcode::Byte),
            0x1b => Ok(Opcode::Shl),
            0x1c => Ok(Opcode::Shr),
            0x1d => Ok(Opcode::Sar),
            0x50 => Ok(Opcode::Pop),
            0x51 => Ok(Opcode::MLoad),
            0x52 => Ok(Opcode::MStore),
            0x53 => Ok(Opcode::MStore8),
            0x56 => Ok(Opcode::Jump),
            0x57 => Ok(Opcode::JumpI),
            0x58 => Ok(Opcode::Pc),
            0x59 => Ok(Opcode::MSize),
            0x5b => Ok(Opcode::JumpDest),
            0x60..=0x7f => Ok(Opcode::Push(b - 0x5f)),
            0x80..=0x8f => Ok(Opcode::Dup(b - 0x7f)),
            0x90..=0x9f => Ok(Opcode::Swap(b - 0x8f)),
            0xf3 => Ok(Opcode::Return),
            0xfd => Ok(Opcode::Revert),
            0xfe => Ok(Opcode::Invalid),
            _ => Err(ExternalOpcode(b)),
        }
    }

    /// The number of immediate bytes after a push instruction's byte.
    pub fn push_len(b: u8) -> (r: usize)
        ensures
            r == immediate_len(b),
    {
        if 0x60 <= b && b <= 0x7f {
            (b - 0x5f) as usize
        } else {
            0
        }
    }
}

} // verus!
