//! An assembler and a virtual machine for a small instruction set in which
//! every instruction is a single byte.
//!
//! [`compiler::compile`] turns program text into the byte image, and
//! [`emulator::emulate`] runs such an image on a [`emulator::Machine`]. The two
//! agree on the encoding that [`consts`] lays down.

pub mod compiler;
pub mod consts;
pub mod emulator;
pub mod text;
