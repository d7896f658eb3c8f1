//! Operation kinds of the Tier-1 x86 decoder and its error type.

use vstd::prelude::*;

verus! {

/// Two-operand arithmetic and logic operations.
#[derive(Debug, Clone, Copy, PartialEq, Eq, Structural)]
pub enum AluOp {
    Add,
    Adc,
    Sub,
    Sbb,
    And,
    Or,
    Xor,
    Shl,
    Shr,
    Sar,
    Imul,
}

/// Shift and rotate operations.
#[derive(Debug, Clone, Copy, PartialEq, Eq, Structural)]
pub enum ShiftOp {
    Rol,
    Ror,
    Shl,
    Shr,
    Sar,
}

/// Why an instruction could not be decoded.
#[derive(Debug, Clone, PartialEq, Eq)]
pub struct DecodeError {
    pub message: &'static str,
}

} // verus!
