//! What the assembler reports when it gives up on a program.

use vstd::prelude::*;
use vstd::string::StringExecFns;
use crate::text::{decimal_string, decimal_text};

verus! {

/// Message for a statement with a wrong number of words.
pub const E_WRONG_FORMAT_OF_INSTRUCTION: &'static str = "Instruction is in the incorrect format.";

/// Message for a mnemonic that names no instruction.
pub const E_UNKNOWN_OPERATION: &'static str = "Instruction code given is unknown.";

/// Message for a word that selects no directly manipulated register.
pub const E_UNKNOWN_DESTINATION_DMR: &'static str = "The DMR provided does not exist.";

/// Message for the index of no general register.
pub const E_UNKNOWN_DESTINATION_IMR: &'static str = "The IMR provided does not exist.";

/// Message for a jump to a label that is not declared.
pub const E_UNKNOWN_LABEL: &'static str = "The label provided does not exist.";

/// Message for an operand that is no number, or no immediate, where one is due.
pub const E_MALFORMED_LITERAL: &'static str = "The number provided is malformed.";

/// Message for a write to general register 0.
pub const E_MODIFYING_ZEROTH_REGISTER_ERROR: &'static str =
    "Error while trying to move value into non-modifeable register $0";

/// Message for the code of no system call.
pub const E_UNKNOWN_SYSTEM_CALL_ERROR: &'static str = "Error while calling an unknown system call";

/// Stands between the message of an error and the number of the instruction.
pub const AT_INSTRUCTION: &'static str = " At instruction: ";

/// The operand that a statement is wrong in.
#[derive(Clone, Copy, Debug, PartialEq, Eq, Structural)]
pub enum Operand {
    /// The word that selects a directly manipulated register selects none.
    Dmr,
    /// The index of a general register lies beyond the last register.
    Register,
    /// The label of a jump is not declared in the program.
    Label,
    /// Where a number is due there is none, or where an immediate is due, a
    /// number too large for one.
    Literal,
}

/// Why a statement cannot be assembled.
#[derive(Clone, Copy, Debug, PartialEq, Eq, Structural)]
pub enum ErrorKind {
    /// The statement has neither two nor three words.
    Format,
    /// The first word is no mnemonic of an instruction with that many words.
    UnknownOperation,
    /// An operand is not one that the instruction can take.
    UnknownOperand(Operand),
    /// The statement would write to general register 0.
    ProtectedRegister,
    /// The operand is the code of no system call.
    UnknownSyscall,
}

impl ErrorKind {
    /// The message that belongs to this kind of error.
    pub open spec fn message_text(self) -> Seq<char> {
        match self {
            ErrorKind::Format => E_WRONG_FORMAT_OF_INSTRUCTION@,
            ErrorKind::UnknownOperation => E_UNKNOWN_OPERATION@,
            ErrorKind::UnknownOperand(Operand::Dmr) => E_UNKNOWN_DESTINATION_DMR@,
            ErrorKind::UnknownOperand(Operand::Register) => E_UNKNOWN_DESTINATION_IMR@,
            ErrorKind::UnknownOperand(Operand::Label) => E_UNKNOWN_LABEL@,
            ErrorKind::UnknownOperand(Operand::Literal) => E_MALFORMED_LITERAL@,
            ErrorKind::ProtectedRegister => E_MODIFYING_ZEROTH_REGISTER_ERROR@,
            ErrorKind::UnknownSyscall => E_UNKNOWN_SYSTEM_CALL_ERROR@,
        }
    }

    /// The message that belongs to this kind of error.
    pub fn message(&self) -> (text: &'static str)
        ensures
            text@ == self.message_text(),
    {
        match self {
            ErrorKind::Format => E_WRONG_FORMAT_OF_INSTRUCTION,
            ErrorKind::UnknownOperation => E_UNKNOWN_OPERATION,
            ErrorKind::UnknownOperand(Operand::Dmr) => E_UNKNOWN_DESTINATION_DMR,
            ErrorKind::UnknownOperand(Operand::Register) => E_UNKNOWN_DESTINATION_IMR,
            ErrorKind::UnknownOperand(Operand::Label) => E_UNKNOWN_LABEL,
            ErrorKind::UnknownOperand(Operand::Literal) => E_MALFORMED_LITERAL,
            ErrorKind::ProtectedRegister => E_MODIFYING_ZEROTH_REGISTER_ERROR,
            ErrorKind::UnknownSyscall => E_UNKNOWN_SYSTEM_CALL_ERROR,
        }
    }
}

/// An error that ended an assembly: its kind, and the number of the
/// instruction at which it was met, counting the instructions from one.
#[derive(Clone, Copy, Debug, PartialEq, Eq, Structural)]
pub struct AssemblyError {
    pub kind: ErrorKind,
    pub instruction: usize,
}

impl AssemblyError {
    /// The text of the report: the message of the kind, then the number of
    /// the instruction.
    pub open spec fn report_text(self) -> Seq<char> {
        self.kind.message_text() + AT_INSTRUCTION@ + decimal_text(self.instruction as nat)
    }

    /// Writes the report out.
    pub fn report(&self) -> (text: String)
        ensures
            text@ == self.report_text(),
    {
        let number = decimal_string(self.instruction);
        String::from_str(self.kind.message()).concat(AT_INSTRUCTION).concat(number.as_str())
    }
}

/// The error of kind `error` met while the instruction counter stood at
/// `program_counter_at_error`. The counter starts at zero, the report counts
/// from one.
pub fn panic_at_instruction(error: ErrorKind, program_counter_at_error: usize) -> (report:
    AssemblyError)
    requires
        program_counter_at_error < usize::MAX,
    ensures
        report.kind == error,
        report.instruction == program_counter_at_error + 1,
{
    AssemblyError { kind: error, instruction: program_counter_at_error + 1 }
}

} // verus!
