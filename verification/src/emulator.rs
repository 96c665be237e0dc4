//! The virtual machine: runs a byte image one instruction at a time.
//!
//! The machine holds a program counter, two directly manipulated registers
//! and sixteen general registers. It reads no input and prints nothing: where
//! an instruction asks for either, [`step`] and [`emulate`] say so in their
//! outcome and leave it to the caller.

use vstd::prelude::*;
use crate::consts::{
    CAL_MSK, C_ADD, C_AND, C_DEC, C_GETI, C_INC, C_NOT, C_OR, C_PC, C_PUTI, C_RET, C_SUB, C_XOR,
    DMR_MSK, HALT, JUMP_BACK, OP_CMP, OP_GET, OP_JIE, OP_JIG, OP_JMP, OP_MOV, OP_MSK,
    OP_SET, REGISTER_AMOUNT, REG_MSK, R_DMR_AMOUNT, R_GREATER, R_LESS, R_OUTPUT, R_RESULT,
    R_RETURN,
};
use crate::text::{characters, number_of, parse_number, trim, trim_bounds};

verus! {

/// The opcode of `instruction`: its top three bits, in place.
pub open spec fn spec_get_operation(instruction: u8) -> u8 {
    instruction & OP_MSK
}

/// The directly manipulated register that `instruction` selects: its bit 4.
pub open spec fn spec_get_dmr(instruction: u8) -> u8 {
    (instruction & DMR_MSK) >> 4
}

/// The register index or immediate of `instruction`: its low four bits.
pub open spec fn spec_get_register(instruction: u8) -> u8 {
    instruction & REG_MSK
}

/// The system call code of `instruction`: its low five bits.
pub open spec fn spec_get_call_code(instruction: u8) -> u8 {
    instruction & CAL_MSK
}

/// The displacement of the jump `instruction`: the low four bits say how
/// far, and bit 4 says that the jump goes backward.
pub open spec fn spec_calculate_jump(instruction: u8) -> int {
    if instruction & JUMP_BACK == JUMP_BACK {
        -((instruction & REG_MSK) as int)
    } else {
        (instruction & REG_MSK) as int
    }
}

/// What the fields of an instruction are as numbers: the opcode is the byte
/// without its remainder by 32, the selector is bit 4, the register the
/// remainder by 16, the call code the remainder by 32.
pub proof fn lemma_fields(instruction: u8)
    ensures
        spec_get_operation(instruction) == (instruction / 32) * 32,
        spec_get_dmr(instruction) == (instruction / 16) % 2,
        spec_get_register(instruction) == instruction % 16,
        spec_get_call_code(instruction) == instruction % 32,
        -15 <= spec_calculate_jump(instruction) <= 15,
        spec_calculate_jump(instruction) == if (instruction / 16) % 2 == 1 {
            -(instruction % 16)
        } else {
            (instruction % 16) as int
        },
{
    assert(instruction & 0b111_00000 == (instruction / 32) * 32) by (bit_vector);
    assert((instruction & 0b000_1_0000) >> 4 == (instruction / 16) % 2) by (bit_vector);
    assert(instruction & 0b0000_1111 == instruction % 16) by (bit_vector);
    assert(instruction & 0b000_11111 == instruction % 32) by (bit_vector);
    assert((instruction & 0b000_1_0000 == 0b000_1_0000) == ((instruction / 16) % 2 == 1))
        by (bit_vector);
}

/// Gets the opcode of `instruction`.
pub fn get_operation(instruction: &u8) -> (operation: u8)
    ensures
        operation == spec_get_operation(*instruction),
{
    *instruction & OP_MSK
}

/// Gets the number of the directly manipulated register of `instruction`.
pub fn get_dmr(instruction: &u8) -> (dmr: u8)
    ensures
        dmr == spec_get_dmr(*instruction),
        dmr < R_DMR_AMOUNT,
{
    proof {
        lemma_fields(*instruction);
    }
    (*instruction & DMR_MSK) >> 4
}

/// Gets the register index of `instruction`, which for `OP_SET` is the
/// immediate.
pub fn get_register(instruction: &u8) -> (register: u8)
    ensures
        register == spec_get_register(*instruction),
        register < REGISTER_AMOUNT,
{
    proof {
        lemma_fields(*instruction);
    }
    *instruction & REG_MSK
}

/// Gets the system call code of `instruction`.
pub fn get_call_code(instruction: &u8) -> (code: u8)
    ensures
        code == spec_get_call_code(*instruction),
        code < 32,
{
    proof {
        lemma_fields(*instruction);
    }
    *instruction & CAL_MSK
}

/// Gets the displacement of the jump `instruction`.
pub fn calculate_jump(instruction: &u8) -> (displacement: isize)
    ensures
        displacement == spec_calculate_jump(*instruction),
        -15 <= displacement <= 15,
{
    proof {
        lemma_fields(*instruction);
    }
    let destination: isize = (*instruction & REG_MSK) as isize;
    if *instruction & JUMP_BACK == JUMP_BACK {
        -destination
    } else {
        destination
    }
}

/// The registers of the machine and its place in the program.
#[derive(Clone, Copy, Debug)]
pub struct Machine {
    /// Index of the instruction that is executed next.
    pub program_counter: usize,
    /// The directly manipulated registers.
    pub dmr: [u32; R_DMR_AMOUNT],
    /// The general registers.
    pub registers: [u32; REGISTER_AMOUNT],
}

/// A machine as the contracts see it.
pub struct State {
    /// Index of the instruction that is executed next.
    pub program_counter: nat,
    /// What the directly manipulated registers hold.
    pub dmr: Seq<u32>,
    /// What the general registers hold.
    pub registers: Seq<u32>,
}

impl View for Machine {
    type V = State;

    open spec fn view(&self) -> State {
        State {
            program_counter: self.program_counter as nat,
            dmr: self.dmr@,
            registers: self.registers@,
        }
    }
}

/// What the caller of the machine has to do after an instruction.
#[derive(Clone, Copy, Debug, PartialEq, Eq, Structural)]
pub enum Outcome {
    /// Nothing: the program goes on.
    Continue,
    /// Nothing more: the program has reached the instruction that halts.
    Halt,
    /// Print this unsigned integer, with nothing after it.
    Print(u32),
    /// Read an unsigned integer and hand it to the machine.
    Read,
    /// Give up: the program counter does not point into the program, or
    /// cannot hold where the program wants to go.
    OutOfRange,
}

/// The number `n` as a register holds it: its remainder by 2^32.
pub open spec fn wrap(n: int) -> u32 {
    (n % 0x1_0000_0000) as u32
}

impl State {
    /// Whether the state has two directly manipulated registers and sixteen
    /// general ones.
    pub open spec fn well_formed(self) -> bool {
        self.dmr.len() == R_DMR_AMOUNT && self.registers.len() == REGISTER_AMOUNT
    }

    /// The state of a machine before it has run.
    pub open spec fn initial() -> State {
        State {
            program_counter: 0,
            dmr: Seq::new(R_DMR_AMOUNT as nat, |i: int| 0u32),
            registers: Seq::new(REGISTER_AMOUNT as nat, |i: int| 0u32),
        }
    }

    /// This state with `value` in the directly manipulated register `index`.
    pub open spec fn with_dmr(self, index: int, value: u32) -> State {
        State { dmr: self.dmr.update(index, value), ..self }
    }

    /// This state with `value` in the general register `index`.
    pub open spec fn with_register(self, index: int, value: u32) -> State {
        State { registers: self.registers.update(index, value), ..self }
    }

    /// This state with the program counter on the next instruction.
    pub open spec fn advance(self) -> State {
        State { program_counter: self.program_counter + 1, ..self }
    }

    /// This state after a jump over `displacement` instructions, and what
    /// comes of it: the machine gives up if the program counter cannot hold
    /// the target.
    pub open spec fn jump(self, displacement: int) -> (State, Outcome) {
        let target = self.program_counter + displacement;
        if 0 <= target <= usize::MAX {
            (State { program_counter: target as nat, ..self }, Outcome::Continue)
        } else {
            (self, Outcome::OutOfRange)
        }
    }

    /// This state after the system call `code`, and what comes of it. `input`
    /// is the integer that was read for the machine, if one was.
    pub open spec fn call(self, code: u8, input: Option<u32>) -> (State, Outcome) {
        let first = self.dmr[0];
        let second = self.dmr[1];
        let result = R_RESULT as int;
        if code == C_ADD {
            (self.with_register(result, wrap(first + second)).advance(), Outcome::Continue)
        } else if code == C_SUB {
            (self.with_register(result, wrap(first - second)).advance(), Outcome::Continue)
        } else if code == C_AND {
            (self.with_register(result, first & second).advance(), Outcome::Continue)
        } else if code == C_OR {
            (self.with_register(result, first | second).advance(), Outcome::Continue)
        } else if code == C_XOR {
            (self.with_register(result, first ^ second).advance(), Outcome::Continue)
        } else if code == C_NOT {
            (self.with_register(result, !first).advance(), Outcome::Continue)
        } else if code == C_INC {
            (self.with_register(result, wrap(first + 1)).advance(), Outcome::Continue)
        } else if code == C_DEC {
            (self.with_register(result, wrap(first - 1)).advance(), Outcome::Continue)
        } else if code == C_PC {
            (
                self.with_register(R_RETURN as int, wrap(self.program_counter as int)).advance(),
                Outcome::Continue,
            )
        } else if code == C_RET {
            State { program_counter: self.registers[R_RETURN as int] as nat, ..self }.jump(1)
        } else if code == C_GETI {
            match input {
                Some(value) => (self.with_register(result, value).advance(), Outcome::Continue),
                None => (self, Outcome::Read),
            }
        } else if code == C_PUTI {
            (self.advance(), Outcome::Print(self.registers[R_OUTPUT as int]))
        } else {
            (self.advance(), Outcome::Continue)
        }
    }
}

/// The state after the machine in `state` has executed one instruction of
/// `program`, and what comes of it. `input` is the integer that was read for
/// the machine, if one was; only the system call that reads takes it.
///
/// The machine gives up, unchanged, if the program counter does not point
/// into the program, and halts, unchanged, on the instruction that halts.
pub open spec fn spec_step(program: Seq<u8>, state: State, input: Option<u32>) -> (State, Outcome) {
    if state.program_counter >= program.len() {
        (state, Outcome::OutOfRange)
    } else if program[state.program_counter as int] == HALT {
        (state, Outcome::Halt)
    } else {
        let instruction = program[state.program_counter as int];
        let operation = spec_get_operation(instruction);
        let dmr = spec_get_dmr(instruction) as int;
        let register = spec_get_register(instruction) as int;
        let greater = state.registers[R_GREATER as int];
        let less = state.registers[R_LESS as int];
        if operation == OP_SET {
            (state.with_dmr(dmr, register as u32).advance(), Outcome::Continue)
        } else if operation == OP_MOV {
            if register != 0 {
                (state.with_register(register, state.dmr[dmr]).advance(), Outcome::Continue)
            } else {
                (state.advance(), Outcome::Continue)
            }
        } else if operation == OP_GET {
            (state.with_dmr(dmr, state.registers[register]).advance(), Outcome::Continue)
        } else if operation == OP_CMP {
            let left = state.dmr[dmr];
            let right = state.registers[register];
            (
                state.with_register(R_GREATER as int, if left > right {
                    1u32
                } else {
                    0u32
                }).with_register(R_LESS as int, if left < right {
                    1u32
                } else {
                    0u32
                }).advance(),
                Outcome::Continue,
            )
        } else if operation == OP_JMP {
            state.with_register(R_RETURN as int, wrap(state.program_counter as int)).jump(
                spec_calculate_jump(instruction),
            )
        } else if operation == OP_JIE {
            if greater == 0 && less == 0 {
                state.jump(spec_calculate_jump(instruction))
            } else {
                (state.advance(), Outcome::Continue)
            }
        } else if operation == OP_JIG {
            if greater == 1 && less == 0 {
                state.jump(spec_calculate_jump(instruction))
            } else {
                (state.advance(), Outcome::Continue)
            }
        } else {
            state.call(spec_get_call_code(instruction), input)
        }
    }
}

/// The state after the machine in `state` has run `program` until it has
/// executed `fuel` instructions or an instruction has left something for the
/// caller to do, and what that is. `input` is offered to the first
/// instruction.
pub open spec fn spec_run(program: Seq<u8>, state: State, input: Option<u32>, fuel: nat) -> (
    State,
    Outcome,
)
    decreases fuel,
{
    if fuel == 0 {
        (state, Outcome::Continue)
    } else {
        let (next, outcome) = spec_step(program, state, input);
        if outcome == Outcome::Continue {
            spec_run(program, next, None, (fuel - 1) as nat)
        } else {
            (next, outcome)
        }
    }
}

/// The low 32 bits of `n`.
fn low_word(n: usize) -> (word: u32)
    ensures
        word == wrap(n as int),
{
    (n as u64 % 0x1_0000_0000) as u32
}

impl Machine {
    /// A machine before it has run: all registers hold zero, and the program
    /// counter is at the first instruction.
    pub fn new() -> (machine: Machine)
        ensures
            machine@ == State::initial(),
    {
        let machine = Machine {
            program_counter: 0,
            dmr: [0;R_DMR_AMOUNT],
            registers: [0;REGISTER_AMOUNT],
        };
        assert(machine@.dmr =~= State::initial().dmr);
        assert(machine@.registers =~= State::initial().registers);
        machine
    }

    /// Moves the program counter by `displacement` instructions.
    fn jump(&mut self, displacement: isize) -> (outcome: Outcome)
        requires
            -15 <= displacement <= 15,
        ensures
            (final(self)@, outcome) == old(self)@.jump(displacement as int),
    {
        if displacement < 0 {
            let back = (-displacement) as usize;
            if back > self.program_counter {
                return Outcome::OutOfRange;
            }
            self.program_counter -= back;
        } else {
            let forth = displacement as usize;
            if forth > usize::MAX - self.program_counter {
                return Outcome::OutOfRange;
            }
            self.program_counter += forth;
        }
        Outcome::Continue
    }

    /// Executes the system call `code`.
    fn call(&mut self, code: u8, input: Option<u32>) -> (outcome: Outcome)
        requires
            old(self).program_counter < usize::MAX,
        ensures
            (final(self)@, outcome) == old(self)@.call(code, input),
    {
        let first = self.dmr[0];
        let second = self.dmr[1];
        if code == C_ADD {
            self.registers[R_RESULT] = first.wrapping_add(second);
        } else if code == C_SUB {
            self.registers[R_RESULT] = first.wrapping_sub(second);
        } else if code == C_AND {
            self.registers[R_RESULT] = first & second;
        } else if code == C_OR {
            self.registers[R_RESULT] = first | second;
        } else if code == C_XOR {
            self.registers[R_RESULT] = first ^ second;
        } else if code == C_NOT {
            self.registers[R_RESULT] = !first;
        } else if code == C_INC {
            self.registers[R_RESULT] = first.wrapping_add(1);
        } else if code == C_DEC {
            self.registers[R_RESULT] = first.wrapping_sub(1);
        } else if code == C_PC {
            self.registers[R_RETURN] = low_word(self.program_counter);
        } else if code == C_RET {
            self.program_counter = self.registers[R_RETURN] as usize;
            return self.jump(1);
        } else if code == C_GETI {
            match input {
                Some(value) => {
                    self.registers[R_RESULT] = value;
                },
                None => {
                    return Outcome::Read;
                },
            }
        } else if code == C_PUTI {
            self.program_counter += 1;
            return Outcome::Print(self.registers[R_OUTPUT]);
        }
        self.program_counter += 1;
        Outcome::Continue
    }
}

/// Executes one instruction of `program` on `machine`, and tells what the
/// caller has to do. `input` is the integer that was read for the machine, if
/// one was.
pub fn step(program: &[u8], machine: &mut Machine, input: Option<u32>) -> (outcome: Outcome)
    ensures
        (final(machine)@, outcome) == spec_step(program@, old(machine)@, input),
{
    if machine.program_counter >= program.len() {
        return Outcome::OutOfRange;
    }
    let instruction = program[machine.program_counter];
    if instruction == HALT {
        return Outcome::Halt;
    }
    let operation = get_operation(&instruction);
    let dmr = get_dmr(&instruction) as usize;
    let register = get_register(&instruction) as usize;
    if operation == OP_SET {
        machine.dmr[dmr] = register as u32;
    } else if operation == OP_MOV {
        if register != 0 {
            machine.registers[register] = machine.dmr[dmr];
        }
    } else if operation == OP_GET {
        machine.dmr[dmr] = machine.registers[register];
    } else if operation == OP_CMP {
        let left = machine.dmr[dmr];
        let right = machine.registers[register];
        machine.registers[R_GREATER] = if left > right {
            1
        } else {
            0
        };
        machine.registers[R_LESS] = if left < right {
            1
        } else {
            0
        };
    } else if operation == OP_JMP {
        machine.registers[R_RETURN] = low_word(machine.program_counter);
        return machine.jump(calculate_jump(&instruction));
    } else if operation == OP_JIE {
        if machine.registers[R_GREATER] == 0 && machine.registers[R_LESS] == 0 {
            return machine.jump(calculate_jump(&instruction));
        }
    } else if operation == OP_JIG {
        if machine.registers[R_GREATER] == 1 && machine.registers[R_LESS] == 0 {
            return machine.jump(calculate_jump(&instruction));
        }
    } else {
        return machine.call(get_call_code(&instruction), input);
    }
    machine.program_counter += 1;
    Outcome::Continue
}

/// Runs `program` on `machine` until `fuel` instructions have been executed
/// or an instruction has left something for the caller to do, and tells what
/// that is: `Outcome::Continue` if the fuel has run out. `input` is the
/// integer that was read for the machine, if one was; it is offered to the
/// first instruction.
pub fn emulate(program: &[u8], machine: &mut Machine, input: Option<u32>, fuel: usize) -> (outcome:
    Outcome)
    ensures
        (final(machine)@, outcome) == spec_run(program@, old(machine)@, input, fuel as nat),
{
    let mut left: usize = fuel;
    let mut offer: Option<u32> = input;
    while left > 0
        invariant
            spec_run(program@, machine@, offer, left as nat) == spec_run(
                program@,
                old(machine)@,
                input,
                fuel as nat,
            ),
        decreases left,
    {
        let outcome = step(program, machine, offer);
        if outcome != Outcome::Continue {
            return outcome;
        }
        offer = None;
        left -= 1;
    }
    Outcome::Continue
}

/// The unsigned integer that the line `line` of input holds, if it holds
/// one: a number that fits a register, with white space around it or none.
pub open spec fn spec_parse_input(line: Seq<char>) -> Option<u32> {
    match number_of(trim(line)) {
        Some(value) => if value <= u32::MAX {
            Some(value as u32)
        } else {
            None
        },
        None => None,
    }
}

/// Reads the unsigned integer that the line `line` of input holds.
pub fn parse_input(line: &str) -> (value: Option<u32>)
    ensures
        value == spec_parse_input(line@),
{
    let text = characters(line);
    let (start, end) = trim_bounds(text.as_slice(), 0, text.len());
    assert(text@.subrange(0, text.len() as int) =~= text@);
    match parse_number(
        vstd::slice::slice_subrange(text.as_slice(), start, end),
        0x1_0000_0000,
    ) {
        Some(value) => if value <= 0xFFFF_FFFF {
            Some(value as u32)
        } else {
            None
        },
        None => None,
    }
}

/// Every machine has two directly manipulated registers and sixteen general
/// ones.
pub proof fn lemma_machine_well_formed(machine: Machine)
    ensures
        machine@.well_formed(),
{
}

/// A run may be made in stages: if the fuel runs out after `first`
/// instructions, running on with `second` is the same as a run with the fuel
/// of both; and a run that ends before its fuel is spent ends the same way
/// with more.
pub proof fn lemma_run_in_stages(
    program: Seq<u8>,
    state: State,
    input: Option<u32>,
    first: nat,
    second: nat,
)
    requires
        first > 0 || input is None,
    ensures
        spec_run(program, state, input, first + second) == if spec_run(
            program,
            state,
            input,
            first,
        ).1 == Outcome::Continue {
            spec_run(program, spec_run(program, state, input, first).0, None, second)
        } else {
            spec_run(program, state, input, first)
        },
    decreases first,
{
    if first > 0 {
        let (next, outcome) = spec_step(program, state, input);
        if outcome == Outcome::Continue {
            lemma_run_in_stages(program, next, None, (first - 1) as nat, second);
        }
    }
}

/// The machine steps from one well-formed state to another.
pub proof fn lemma_step_well_formed(program: Seq<u8>, state: State, input: Option<u32>)
    requires
        state.well_formed(),
    ensures
        spec_step(program, state, input).0.well_formed(),
{
    if state.program_counter < program.len() {
        lemma_fields(program[state.program_counter as int]);
    }
}

/// No instruction changes general register 0: not even an `OP_MOV` that
/// names it.
pub proof fn lemma_register_zero_is_kept(program: Seq<u8>, state: State, input: Option<u32>)
    requires
        state.well_formed(),
    ensures
        spec_step(program, state, input).0.registers[0] == state.registers[0],
{
    if state.program_counter < program.len() {
        lemma_fields(program[state.program_counter as int]);
    }
}

/// However long the machine runs, general register 0 holds what it held.
pub proof fn lemma_run_keeps_register_zero(
    program: Seq<u8>,
    state: State,
    input: Option<u32>,
    fuel: nat,
)
    requires
        state.well_formed(),
    ensures
        spec_run(program, state, input, fuel).0.well_formed(),
        spec_run(program, state, input, fuel).0.registers[0] == state.registers[0],
    decreases fuel,
{
    if fuel > 0 {
        let (next, outcome) = spec_step(program, state, input);
        lemma_step_well_formed(program, state, input);
        lemma_register_zero_is_kept(program, state, input);
        if outcome == Outcome::Continue {
            lemma_run_keeps_register_zero(program, next, None, (fuel - 1) as nat);
        }
    }
}

/// After a comparison general register 14 holds 1 if the directly
/// manipulated register was greater than the general register and else 0,
/// and general register 15 holds 1 if it was less and else 0; so both hold 0
/// exactly if the two were equal. The registers are compared as they were
/// before the instruction.
pub proof fn lemma_comparison_sets_flags(program: Seq<u8>, state: State, input: Option<u32>)
    requires
        state.well_formed(),
        state.program_counter < program.len(),
        spec_get_operation(program[state.program_counter as int]) == OP_CMP,
    ensures
        ({
            let instruction = program[state.program_counter as int];
            let left = state.dmr[spec_get_dmr(instruction) as int];
            let right = state.registers[spec_get_register(instruction) as int];
            let (next, outcome) = spec_step(program, state, input);
            &&& outcome == Outcome::Continue
            &&& next.registers[R_GREATER as int] == if left > right {
                1u32
            } else {
                0u32
            }
            &&& next.registers[R_LESS as int] == if left < right {
                1u32
            } else {
                0u32
            }
            &&& left == right <==> next.registers[R_GREATER as int] == 0
                && next.registers[R_LESS as int] == 0
            &&& next.program_counter == state.program_counter + 1
            &&& next.dmr == state.dmr
            &&& forall|i: int|
                0 <= i < REGISTER_AMOUNT && i != R_GREATER && i != R_LESS ==> next.registers[i]
                    == state.registers[i]
        }),
{
    let instruction = program[state.program_counter as int];
    lemma_fields(instruction);
    assert(instruction & 0xE0 == 0x60 ==> instruction != 0xE0) by (bit_vector);
}

/// The machine halts on the instruction that halts and on no other, and
/// halting changes nothing.
pub proof fn lemma_halts_on_halt(program: Seq<u8>, state: State, input: Option<u32>)
    ensures
        spec_step(program, state, input).1 == Outcome::Halt <==> state.program_counter
            < program.len() && program[state.program_counter as int] == HALT,
        spec_step(program, state, input).1 == Outcome::Halt ==> spec_step(program, state, input).0
            == state,
{
}

/// A run that ends in a halt ends on the instruction that halts, and a run
/// that starts there ends there at once: nothing after that instruction is
/// executed.
pub proof fn lemma_run_halts_on_halt(
    program: Seq<u8>,
    state: State,
    input: Option<u32>,
    fuel: nat,
)
    ensures
        spec_run(program, state, input, fuel).1 == Outcome::Halt ==> {
            let end = spec_run(program, state, input, fuel).0;
            end.program_counter < program.len() && program[end.program_counter as int] == HALT
        },
        fuel > 0 && state.program_counter < program.len() && program[state.program_counter as int]
            == HALT ==> spec_run(program, state, input, fuel) == (state, Outcome::Halt),
    decreases fuel,
{
    if fuel > 0 {
        let (next, outcome) = spec_step(program, state, input);
        lemma_halts_on_halt(program, state, input);
        if outcome == Outcome::Continue {
            lemma_run_halts_on_halt(program, next, None, (fuel - 1) as nat);
        }
    }
}

} // verus!
