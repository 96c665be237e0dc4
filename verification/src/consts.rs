//! The instruction format: opcodes, operand fields, masks and system calls.
//!
//! An instruction is one byte. Its top three bits are the opcode. For the four
//! manipulation opcodes bit 4 selects a directly manipulated register and the
//! low four bits hold an immediate or a register index; for the three jumps
//! bit 4 is the sign and the low four bits the magnitude of the displacement;
//! for a system call the low five bits hold its code.

use vstd::prelude::*;

pub mod error_handling;

verus! {

/// Number of general registers.
pub const REGISTER_AMOUNT: usize = 16;

/// Number of directly manipulated registers.
pub const R_DMR_AMOUNT: usize = 2;

/// Sets a directly manipulated register to an immediate.
pub const OP_SET: u8 = 0b000_00000;

/// Moves a directly manipulated register into a general register.
pub const OP_MOV: u8 = 0b001_00000;

/// Loads a general register into a directly manipulated register.
pub const OP_GET: u8 = 0b010_00000;

/// Compares a directly manipulated register with a general register.
pub const OP_CMP: u8 = 0b011_00000;

/// Jumps, saving the return position.
pub const OP_JMP: u8 = 0b100_00000;

/// Jumps if the latest comparison found equality.
pub const OP_JIE: u8 = 0b101_00000;

/// Jumps if the latest comparison found the first operand greater.
pub const OP_JIG: u8 = 0b110_00000;

/// Calls a system call.
pub const OP_CAL: u8 = 0b111_00000;

/// Selects the first directly manipulated register.
pub const DMR_0: u8 = 0b000_0_0000;

/// Selects the second directly manipulated register.
pub const DMR_1: u8 = 0b000_1_0000;

/// Selects the bit that names the directly manipulated register.
pub const DMR_MSK: u8 = 0b000_1_0000;

/// Selects the opcode.
pub const OP_MSK: u8 = 0b111_00000;

/// Selects the system call code.
pub const CAL_MSK: u8 = 0b000_11111;

/// Selects the register index, the immediate or the jump magnitude.
pub const REG_MSK: u8 = 0b0000_1111;

/// Marks a jump as going backward.
pub const JUMP_BACK: u8 = 0b000_1_0000;

/// General register that receives the result of an arithmetic system call
/// and the integer that was read.
pub const R_RESULT: usize = 11;

/// General register that is printed.
pub const R_OUTPUT: usize = 12;

/// General register that holds the saved program counter.
pub const R_RETURN: usize = 13;

/// General register that is 1 after a comparison that found the directly
/// manipulated register greater, else 0.
pub const R_GREATER: usize = 14;

/// General register that is 1 after a comparison that found the directly
/// manipulated register less, else 0.
pub const R_LESS: usize = 15;

/// Ends the program.
pub const C_EXIT: u8 = 0;

/// Register 11 becomes the sum of the two directly manipulated registers.
pub const C_ADD: u8 = 1;

/// Register 11 becomes the first directly manipulated register less the second.
pub const C_SUB: u8 = 2;

/// Register 11 becomes the bitwise and of the two directly manipulated registers.
pub const C_AND: u8 = 3;

/// Register 11 becomes the bitwise or of the two directly manipulated registers.
pub const C_OR: u8 = 4;

/// Register 11 becomes the bitwise exclusive or of the two directly
/// manipulated registers.
pub const C_XOR: u8 = 5;

/// Register 11 becomes the bitwise complement of the first directly
/// manipulated register.
pub const C_NOT: u8 = 6;

/// Register 11 becomes the first directly manipulated register plus one.
pub const C_INC: u8 = 7;

/// Register 11 becomes the first directly manipulated register less one.
pub const C_DEC: u8 = 8;

/// Saves the program counter to register 13.
pub const C_PC: u8 = 9;

/// Sets the program counter from register 13.
pub const C_RET: u8 = 10;

/// Reads an unsigned integer into register 11.
pub const C_GETI: u8 = 11;

/// Prints register 12 as an unsigned integer.
pub const C_PUTI: u8 = 12;

/// Number of system calls that are defined: their codes lie below it.
pub const CALL_AMOUNT: u8 = 13;

/// The instruction that ends every program: the system call `C_EXIT`.
pub const HALT: u8 = 0b111_00000;

} // verus!
