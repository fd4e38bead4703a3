//! The instruction set: six external opcodes and the internal SPILL marker.

use vstd::prelude::*;

verus! {

pub const HALT_BYTE: u8 = 0;
pub const CLRA_BYTE: u8 = 1;
pub const INC3A_BYTE: u8 = 2;
pub const DECA_BYTE: u8 = 3;
pub const SETL_BYTE: u8 = 4;
pub const BACK7_BYTE: u8 = 5;
/// Byte of the synthetic block-boundary marker; never accepted from outside.
pub const SPILL_BYTE: u8 = 6;

/// One instruction of the machine.
#[allow(non_camel_case_types, clippy::upper_case_acronyms)]
#[derive(Debug, Clone, Copy, PartialEq, Eq, Structural)]
pub enum OpCode {
    HALT,
    CLRA,
    INC3A,
    DECA,
    SETL,
    BACK7,
    SPILL,
}

/// A byte that is not one of the six external opcodes.
#[derive(Debug, Clone, Copy, PartialEq, Eq, Structural)]
pub struct DecodeError {
    pub byte: u8,
}

/// Whether `b` is the byte of one of the six external opcodes.
pub open spec fn is_external_byte(b: u8) -> bool {
    b < 6
}

/// The instruction that a byte stands for, the SPILL marker included.
pub open spec fn opcode_of(b: u8) -> OpCode
    recommends
        b <= 6,
{
    if b == 0 {
        OpCode::HALT
    } else if b == 1 {
        OpCode::CLRA
    } else if b == 2 {
        OpCode::INC3A
    } else if b == 3 {
        OpCode::DECA
    } else if b == 4 {
        OpCode::SETL
    } else if b == 5 {
        OpCode::BACK7
    } else {
        OpCode::SPILL
    }
}

/// The byte of an instruction.
pub open spec fn byte_of(op: OpCode) -> u8 {
    match op {
        OpCode::HALT => 0,
        OpCode::CLRA => 1,
        OpCode::INC3A => 2,
        OpCode::DECA => 3,
        OpCode::SETL => 4,
        OpCode::BACK7 => 5,
        OpCode::SPILL => 6,
    }
}

/// Reads an external opcode; SPILL and every byte above it are refused.
pub fn decode(b: u8) -> (r: Result<OpCode, DecodeError>)
    ensures
        is_external_byte(b) ==> r == Ok::<OpCode, DecodeError>(opcode_of(b)),
        !is_external_byte(b) ==> r == Err::<OpCode, DecodeError>(DecodeError { byte: b }),
{
    match b {
        0 => Ok(OpCode::HALT),
        1 => Ok(OpCode::CLRA),
        2 => Ok(OpCode::INC3A),
        3 => Ok(OpCode::DECA),
        4 => Ok(OpCode::SETL),
        5 => Ok(OpCode::BACK7),
        _ => Err(DecodeError { byte: b }),
    }
}

/// Writes an instruction as its byte.
pub fn encode(op: OpCode) -> (r: u8)
    ensures
        r == byte_of(op),
{
    match op {
        OpCode::HALT => 0,
        OpCode::CLRA => 1,
        OpCode::INC3A => 2,
        OpCode::DECA => 3,
        OpCode::SETL => 4,
        OpCode::BACK7 => 5,
        OpCode::SPILL => 6,
    }
}

impl OpCode {
    /// The mnemonic, for diagnostics.
    pub fn mnemonic(&self) -> (r: &'static str) {
        match self {
            OpCode::HALT => "HALT",
            OpCode::CLRA => "CLRA",
            OpCode::INC3A => "INC3A",
            OpCode::DECA => "DECA",
            OpCode::SETL => "SETL",
            OpCode::BACK7 => "BACK7",
            OpCode::SPILL => "SPILL",
        }
    }
}

/// Decoding refuses every byte from the SPILL marker up, and encoding what
/// was decoded gives back the byte.
pub proof fn lemma_decode_encode(b: u8)
    ensures
        b >= 6 ==> !is_external_byte(b),
        is_external_byte(b) ==> byte_of(opcode_of(b)) == b,
{
}

/// Every instruction but SPILL encodes to an external byte that decodes to it.
pub proof fn lemma_encode_decode(op: OpCode)
    ensures
        op != OpCode::SPILL ==> is_external_byte(byte_of(op)),
        opcode_of(byte_of(op)) == op,
{
}

} // verus!
