//! The assembler: from program text to the byte image.
//!
//! A program is read statement by statement. A statement that ends in a colon
//! declares a label; every other statement is an instruction of two or three
//! words and becomes one byte. A first pass records for each label the index
//! of the instruction that follows it, so that a jump may name a label that is
//! declared further down; a second pass encodes the instructions. The image
//! ends with one more byte, the instruction that halts the machine.

use vstd::prelude::*;

pub mod laws;

use crate::consts::{
    CALL_AMOUNT, DMR_0, DMR_1, HALT, JUMP_BACK, OP_CAL, OP_CMP, OP_GET, OP_JIE, OP_JIG, OP_JMP,
    OP_MOV, OP_SET, REGISTER_AMOUNT, REG_MSK,
};
use crate::consts::error_handling::{panic_at_instruction, AssemblyError, ErrorKind, Operand};
use crate::text::{
    characters, number_of, parse_number, same_text, spells, split_statements, split_words,
    statements, texts, words,
};

verus! {

/// Whether the statement `line` declares a label: it ends in a colon.
pub open spec fn is_label(line: Seq<char>) -> bool {
    line.len() > 0 && line.last() == ':'
}

/// The name that the label declaration `line` declares: what stands before
/// the colon.
pub open spec fn label_name(line: Seq<char>) -> Seq<char>
    recommends
        is_label(line),
{
    line.drop_last()
}

/// The statements among `lines` that are instructions, in order.
pub open spec fn instructions(lines: Seq<Seq<char>>) -> Seq<Seq<char>>
    decreases lines.len(),
{
    if lines.len() == 0 {
        Seq::empty()
    } else if is_label(lines.last()) {
        instructions(lines.drop_last())
    } else {
        instructions(lines.drop_last()).push(lines.last())
    }
}

/// The number of statements among `lines` that declare a label.
pub open spec fn label_count(lines: Seq<Seq<char>>) -> nat
    decreases lines.len(),
{
    if lines.len() == 0 {
        0
    } else if is_label(lines.last()) {
        label_count(lines.drop_last()) + 1
    } else {
        label_count(lines.drop_last())
    }
}

/// The labels that `lines` declare, each with the index of the instruction
/// that follows its declaration: the position of the declaration among the
/// statements, less the number of declarations before it. Of two
/// declarations of one name the later counts.
pub open spec fn label_table(lines: Seq<Seq<char>>) -> Map<Seq<char>, nat>
    decreases lines.len(),
{
    if lines.len() == 0 {
        Map::empty()
    } else {
        let before = lines.drop_last();
        if is_label(lines.last()) {
            label_table(before).insert(
                label_name(lines.last()),
                (before.len() - label_count(before)) as nat,
            )
        } else {
            label_table(before)
        }
    }
}

/// Every statement is a label declaration or an instruction.
pub proof fn lemma_statement_counts(lines: Seq<Seq<char>>)
    ensures
        instructions(lines).len() + label_count(lines) == lines.len(),
    decreases lines.len(),
{
    if lines.len() > 0 {
        lemma_statement_counts(lines.drop_last());
    }
}

/// The instructions among the first `i` statements are the first among all.
pub proof fn lemma_instructions_prefix(lines: Seq<Seq<char>>, i: int)
    requires
        0 <= i <= lines.len(),
    ensures
        instructions(lines.take(i)).len() <= instructions(lines).len(),
        instructions(lines.take(i)) == instructions(lines).take(
            instructions(lines.take(i)).len() as int,
        ),
    decreases lines.len() - i,
{
    if i == lines.len() {
        assert(lines.take(i) =~= lines);
        assert(instructions(lines).take(instructions(lines).len() as int) =~= instructions(lines));
    } else {
        let before = lines.drop_last();
        lemma_instructions_prefix(before, i);
        assert(before.take(i) =~= lines.take(i));
        let n = instructions(lines.take(i)).len() as int;
        assert(instructions(before).take(n) =~= instructions(lines).take(n));
    }
}

/// A declared label and the index of the instruction that follows it.
struct Label {
    name: Vec<char>,
    target: usize,
}

/// The labels of a program, by name.
pub struct LabelTable {
    entries: Vec<Label>,
}

/// The mapping that `entries` make when each is recorded in turn, a later one
/// replacing an earlier one of the same name.
spec fn recorded(entries: Seq<Label>) -> Map<Seq<char>, nat>
    decreases entries.len(),
{
    if entries.len() == 0 {
        Map::empty()
    } else {
        recorded(entries.drop_last()).insert(entries.last().name@, entries.last().target as nat)
    }
}

/// Entries that do not bear `name` make no difference to what is recorded
/// under it.
proof fn lemma_recorded_skips(entries: Seq<Label>, from: int, name: Seq<char>)
    requires
        0 <= from <= entries.len(),
        forall|k: int| from <= k < entries.len() ==> entries[k].name@ != name,
    ensures
        recorded(entries).contains_key(name) == recorded(entries.take(from)).contains_key(name),
        recorded(entries).contains_key(name) ==> recorded(entries)[name] == recorded(
            entries.take(from),
        )[name],
    decreases entries.len() - from,
{
    if from == entries.len() {
        assert(entries.take(from) =~= entries);
    } else {
        let before = entries.drop_last();
        lemma_recorded_skips(before, from, name);
        assert(before.take(from) =~= entries.take(from));
    }
}

impl View for LabelTable {
    type V = Map<Seq<char>, nat>;

    closed spec fn view(&self) -> Map<Seq<char>, nat> {
        recorded(self.entries@)
    }
}

impl LabelTable {
    /// A table without labels.
    pub fn new() -> (table: LabelTable)
        ensures
            table@ == Map::<Seq<char>, nat>::empty(),
    {
        LabelTable { entries: Vec::new() }
    }

    /// Records that the label `name` stands before the instruction `target`,
    /// in place of what was recorded under that name.
    pub fn insert(&mut self, name: Vec<char>, target: usize)
        ensures
            final(self)@ == old(self)@.insert(name@, target as nat),
    {
        let ghost before = self.entries@;
        self.entries.push(Label { name, target });
        assert(self.entries@.drop_last() =~= before);
    }

    /// The index of the instruction that the label `name` stands before, if
    /// the table has that label.
    pub fn get(&self, name: &[char]) -> (target: Option<usize>)
        ensures
            match target {
                Some(index) => self@.contains_key(name@) && self@[name@] == index,
                None => !self@.contains_key(name@),
            },
    {
        let mut at: usize = self.entries.len();
        while at > 0
            invariant
                at <= self.entries.len(),
                forall|k: int| at <= k < self.entries.len() ==> self.entries@[k].name@ != name@,
            decreases at,
        {
            at -= 1;
            if same_text(self.entries[at].name.as_slice(), name) {
                proof {
                    lemma_recorded_skips(self.entries@, at + 1, name@);
                    assert(self.entries@.take(at + 1).drop_last() =~= self.entries@.take(
                        at as int,
                    ));
                }
                return Some(self.entries[at].target);
            }
        }
        proof {
            lemma_recorded_skips(self.entries@, 0, name@);
        }
        None
    }
}

/// Tells whether the statement `line` declares a label.
pub fn is_label_line(line: &[char]) -> (label: bool)
    ensures
        label == is_label(line@),
{
    line.len() > 0 && line[line.len() - 1] == ':'
}

/// The first pass: records the labels that `lines` declare.
pub fn resolve_labels(lines: &Vec<Vec<char>>) -> (table: LabelTable)
    ensures
        table@ == label_table(texts(lines@)),
{
    let ghost all = texts(lines@);
    let mut table = LabelTable::new();
    let mut shift: usize = 0;
    let mut at: usize = 0;
    while at < lines.len()
        invariant
            at <= lines.len(),
            all == texts(lines@),
            shift == label_count(all.take(at as int)),
            shift <= at,
            table@ == label_table(all.take(at as int)),
        decreases lines.len() - at,
    {
        let line = lines[at].as_slice();
        proof {
            assert(all.take(at + 1).drop_last() =~= all.take(at as int));
            assert(all.take(at + 1).last() == line@);
        }
        if is_label_line(line) {
            let name = vstd::slice::slice_to_vec(
                vstd::slice::slice_subrange(line, 0, line.len() - 1),
            );
            assert(name@ =~= label_name(line@));
            table.insert(name, at - shift);
            shift += 1;
        }
        at += 1;
    }
    assert(all.take(at as int) =~= all);
    table
}

/// The byte of a jump with opcode `operation` over `displacement`
/// instructions. The low four bits hold how far the jump goes and bit 4
/// tells whether it goes backward. A jump over more than 15 instructions
/// does not fit: the low eight bits of its distance are put in as they are,
/// and those above the fourth fall on the sign and on the opcode.
pub open spec fn spec_encode_jump(operation: u8, displacement: int) -> u8 {
    if displacement < 0 {
        operation | JUMP_BACK | ((-displacement) % 256) as u8
    } else {
        operation | (displacement % 256) as u8
    }
}

/// Encodes the jump with opcode `operation` that stands at index
/// `program_counter` and goes to index `target`.
pub fn encode_jump(operation: u8, target: usize, program_counter: usize) -> (byte: u8)
    ensures
        byte == spec_encode_jump(operation, target - program_counter),
{
    if target < program_counter {
        let distance = program_counter - target;
        operation | JUMP_BACK | (distance % 256) as u8
    } else {
        let distance = target - program_counter;
        operation | (distance % 256) as u8
    }
}

/// Checks if the system call code passed exists.
pub fn check_call_existance(code: u8) -> (exists: bool)
    ensures
        exists == (code < CALL_AMOUNT),
{
    code < CALL_AMOUNT
}

/// The selector bit that the word `token` stands for, if it names a directly
/// manipulated register.
pub open spec fn dmr_selector(token: Seq<char>) -> Option<u8> {
    if token == "#0"@ {
        Some(DMR_0)
    } else if token == "#1"@ {
        Some(DMR_1)
    } else {
        None
    }
}

/// The opcode of the instruction between a directly manipulated register and
/// a general register that `mnemonic` names, if it names one.
pub open spec fn register_opcode(mnemonic: Seq<char>) -> Option<u8> {
    if mnemonic == "mov"@ {
        Some(OP_MOV)
    } else if mnemonic == "get"@ {
        Some(OP_GET)
    } else if mnemonic == "cmp"@ {
        Some(OP_CMP)
    } else {
        None
    }
}

/// The opcode of the jump that `mnemonic` names, if it names one.
pub open spec fn jump_opcode(mnemonic: Seq<char>) -> Option<u8> {
    if mnemonic == "jmp"@ {
        Some(OP_JMP)
    } else if mnemonic == "jie"@ {
        Some(OP_JIE)
    } else if mnemonic == "jig"@ {
        Some(OP_JIG)
    } else {
        None
    }
}

/// What follows the sigil in an operand that names a general register.
pub open spec fn register_numeral(operand: Seq<char>) -> Seq<char> {
    if operand.len() > 0 {
        operand.drop_first()
    } else {
        operand
    }
}

/// The immediate that the word `operand` denotes, if it denotes one: a
/// number from 0 to 15.
pub open spec fn immediate_of(operand: Seq<char>) -> Option<u8> {
    match number_of(operand) {
        Some(value) => if value <= REG_MSK {
            Some(value as u8)
        } else {
            None
        },
        None => None,
    }
}

/// The byte of the instruction of three words `mnemonic selector operand`,
/// or why there is none.
///
/// `set` takes an immediate from 0 to 15. `mov`, `get` and `cmp` take a
/// general register: one character, the sigil, and after it the index from 0
/// to 15, and `mov` not index 0. Of several faults the one named first here
/// is reported: for `set` the operand and then the selector; for the others
/// the selector, then an operand that is no number, one that is too large,
/// and register 0.
pub open spec fn spec_encode_manipulation(
    mnemonic: Seq<char>,
    selector: Seq<char>,
    operand: Seq<char>,
) -> Result<u8, ErrorKind> {
    if mnemonic == "set"@ {
        match immediate_of(operand) {
            None => Err(ErrorKind::UnknownOperand(Operand::Literal)),
            Some(value) => match dmr_selector(selector) {
                None => Err(ErrorKind::UnknownOperand(Operand::Dmr)),
                Some(dmr) => Ok(OP_SET | dmr | value),
            },
        }
    } else {
        match register_opcode(mnemonic) {
            None => Err(ErrorKind::UnknownOperation),
            Some(operation) => match dmr_selector(selector) {
                None => Err(ErrorKind::UnknownOperand(Operand::Dmr)),
                Some(dmr) => match number_of(register_numeral(operand)) {
                    None => Err(ErrorKind::UnknownOperand(Operand::Literal)),
                    Some(index) => if index >= REGISTER_AMOUNT {
                        Err(ErrorKind::UnknownOperand(Operand::Register))
                    } else if operation == OP_MOV && index == 0 {
                        Err(ErrorKind::ProtectedRegister)
                    } else {
                        Ok(operation | dmr | index as u8)
                    },
                },
            },
        }
    }
}

/// The byte of the instruction of two words `mnemonic operand` that stands
/// at index `counter`, or why there is none.
///
/// A jump takes the name of a label that `labels` has, and goes from `counter`
/// to the index recorded for that label. `cal` takes the code of a system call
/// that is defined.
pub open spec fn spec_encode_branch(
    mnemonic: Seq<char>,
    operand: Seq<char>,
    labels: Map<Seq<char>, nat>,
    counter: int,
) -> Result<u8, ErrorKind> {
    if mnemonic == "cal"@ {
        match number_of(operand) {
            None => Err(ErrorKind::UnknownOperand(Operand::Literal)),
            Some(code) => if code < CALL_AMOUNT {
                Ok(OP_CAL | code as u8)
            } else {
                Err(ErrorKind::UnknownSyscall)
            },
        }
    } else {
        match jump_opcode(mnemonic) {
            None => Err(ErrorKind::UnknownOperation),
            Some(operation) => if labels.contains_key(operand) {
                Ok(spec_encode_jump(operation, labels[operand] - counter))
            } else {
                Err(ErrorKind::UnknownOperand(Operand::Label))
            },
        }
    }
}

/// The byte of the instruction with the words `tokens` that stands at index
/// `counter`, or why there is none.
pub open spec fn spec_encode(
    tokens: Seq<Seq<char>>,
    labels: Map<Seq<char>, nat>,
    counter: int,
) -> Result<u8, ErrorKind> {
    if tokens.len() == 3 {
        spec_encode_manipulation(tokens[0], tokens[1], tokens[2])
    } else if tokens.len() == 2 {
        spec_encode_branch(tokens[0], tokens[1], labels, counter)
    } else {
        Err(ErrorKind::Format)
    }
}

/// Reads the word that holds an immediate.
fn read_immediate(operand: &[char]) -> (value: Option<u8>)
    ensures
        value == immediate_of(operand@),
{
    match parse_number(operand, REG_MSK as u64 + 1) {
        Some(value) => if value <= REG_MSK as u64 {
            Some(value as u8)
        } else {
            None
        },
        None => None,
    }
}

/// Reads the word that selects a directly manipulated register.
fn read_dmr_selector(token: &[char]) -> (selector: Option<u8>)
    ensures
        selector == dmr_selector(token@),
{
    if spells(token, "#0") {
        Some(DMR_0)
    } else if spells(token, "#1") {
        Some(DMR_1)
    } else {
        None
    }
}

/// Reads the mnemonic of an instruction between a directly manipulated
/// register and a general register.
fn read_register_opcode(mnemonic: &[char]) -> (operation: Option<u8>)
    ensures
        operation == register_opcode(mnemonic@),
{
    if spells(mnemonic, "mov") {
        Some(OP_MOV)
    } else if spells(mnemonic, "get") {
        Some(OP_GET)
    } else if spells(mnemonic, "cmp") {
        Some(OP_CMP)
    } else {
        None
    }
}

/// Reads the mnemonic of a jump.
fn read_jump_opcode(mnemonic: &[char]) -> (operation: Option<u8>)
    ensures
        operation == jump_opcode(mnemonic@),
{
    if spells(mnemonic, "jmp") {
        Some(OP_JMP)
    } else if spells(mnemonic, "jie") {
        Some(OP_JIE)
    } else if spells(mnemonic, "jig") {
        Some(OP_JIG)
    } else {
        None
    }
}

/// Encodes an instruction of three words.
pub fn encode_manipulation(mnemonic: &[char], selector: &[char], operand: &[char]) -> (byte:
    Result<u8, ErrorKind>)
    ensures
        byte == spec_encode_manipulation(mnemonic@, selector@, operand@),
{
    if spells(mnemonic, "set") {
        match read_immediate(operand) {
            None => Err(ErrorKind::UnknownOperand(Operand::Literal)),
            Some(value) => match read_dmr_selector(selector) {
                None => Err(ErrorKind::UnknownOperand(Operand::Dmr)),
                Some(dmr) => Ok(OP_SET | dmr | value),
            },
        }
    } else {
        match read_register_opcode(mnemonic) {
            None => Err(ErrorKind::UnknownOperation),
            Some(operation) => match read_dmr_selector(selector) {
                None => Err(ErrorKind::UnknownOperand(Operand::Dmr)),
                Some(dmr) => {
                    let numeral = if operand.len() > 0 {
                        vstd::slice::slice_subrange(operand, 1, operand.len())
                    } else {
                        operand
                    };
                    assert(numeral@ =~= register_numeral(operand@));
                    match parse_number(numeral, REGISTER_AMOUNT as u64) {
                        None => Err(ErrorKind::UnknownOperand(Operand::Literal)),
                        Some(index) => if index >= REGISTER_AMOUNT as u64 {
                            Err(ErrorKind::UnknownOperand(Operand::Register))
                        } else if operation == OP_MOV && index == 0 {
                            Err(ErrorKind::ProtectedRegister)
                        } else {
                            Ok(operation | dmr | index as u8)
                        },
                    }
                },
            },
        }
    }
}

/// Encodes an instruction of two words that stands at index
/// `program_counter`.
pub fn encode_branch(
    mnemonic: &[char],
    operand: &[char],
    labels: &LabelTable,
    program_counter: usize,
) -> (byte: Result<u8, ErrorKind>)
    ensures
        byte == spec_encode_branch(mnemonic@, operand@, labels@, program_counter as int),
{
    if spells(mnemonic, "cal") {
        match parse_number(operand, u8::MAX as u64) {
            None => Err(ErrorKind::UnknownOperand(Operand::Literal)),
            Some(code) => if check_call_existance(code as u8) {
                Ok(OP_CAL | code as u8)
            } else {
                Err(ErrorKind::UnknownSyscall)
            },
        }
    } else {
        match read_jump_opcode(mnemonic) {
            None => Err(ErrorKind::UnknownOperation),
            Some(operation) => match labels.get(operand) {
                None => Err(ErrorKind::UnknownOperand(Operand::Label)),
                Some(target) => Ok(encode_jump(operation, target, program_counter)),
            },
        }
    }
}

/// Encodes the instruction with the words `tokens` that stands at index
/// `program_counter`.
pub fn encode(tokens: &Vec<Vec<char>>, labels: &LabelTable, program_counter: usize) -> (byte:
    Result<u8, ErrorKind>)
    ensures
        byte == spec_encode(texts(tokens@), labels@, program_counter as int),
{
    if tokens.len() == 3 {
        encode_manipulation(tokens[0].as_slice(), tokens[1].as_slice(), tokens[2].as_slice())
    } else if tokens.len() == 2 {
        encode_branch(tokens[0].as_slice(), tokens[1].as_slice(), labels, program_counter)
    } else {
        Err(ErrorKind::Format)
    }
}

/// The byte of the instruction at index `k` of the program with the
/// statements `lines`, or why there is none.
pub open spec fn encoded(lines: Seq<Seq<char>>, k: int) -> Result<u8, ErrorKind>
    recommends
        0 <= k < instructions(lines).len(),
{
    spec_encode(words(instructions(lines)[k]), label_table(lines), k)
}

/// Whether assembling the program `text` gives `outcome`.
///
/// It gives an image if every instruction has a byte: the image holds those
/// bytes in order, and after them the instruction that halts. Else it gives
/// the error of the first instruction without a byte, with the number of that
/// instruction, counted from one.
pub open spec fn assembles(text: Seq<char>, outcome: Result<Seq<u8>, AssemblyError>) -> bool {
    let lines = statements(text);
    let count = instructions(lines).len() as int;
    match outcome {
        Ok(image) => {
            &&& image.len() == count + 1
            &&& forall|k: int| 0 <= k < count ==> encoded(lines, k) == Ok::<u8, ErrorKind>(image[k])
            &&& image[count] == HALT
        },
        Err(error) => {
            &&& 1 <= error.instruction <= count
            &&& forall|k: int| 0 <= k < error.instruction - 1 ==> encoded(lines, k) is Ok
            &&& encoded(lines, error.instruction - 1) == Err::<u8, ErrorKind>(error.kind)
        },
    }
}

/// Assembles the program `source`: gives its image, or the error of the
/// first instruction that cannot be encoded.
pub fn compile(source: &str) -> (outcome: Result<Vec<u8>, AssemblyError>)
    ensures
        match outcome {
            Ok(image) => assembles(source@, Ok(image@)),
            Err(error) => assembles(source@, Err(error)),
        },
{
    let text = characters(source);
    let lines = split_statements(text.as_slice());
    let labels = resolve_labels(&lines);
    let ghost all = texts(lines@);
    proof {
        lemma_instructions_prefix(all, 0);
    }
    let mut program_counter: usize = 0;
    let mut instruction_bits: Vec<u8> = Vec::new();
    let mut at: usize = 0;
    while at < lines.len()
        invariant
            at <= lines.len(),
            all == texts(lines@),
            all == statements(source@),
            labels@ == label_table(all),
            program_counter == instructions(all.take(at as int)).len(),
            program_counter <= at,
            program_counter <= instructions(all).len(),
            instruction_bits.len() == program_counter,
            forall|k: int|
                0 <= k < program_counter ==> encoded(all, k) == Ok::<u8, ErrorKind>(
                    instruction_bits@[k],
                ),
        decreases lines.len() - at,
    {
        let line = lines[at].as_slice();
        proof {
            assert(all.take(at + 1).drop_last() =~= all.take(at as int));
            assert(all.take(at + 1).last() == line@);
            lemma_instructions_prefix(all, at + 1);
        }
        if !is_label_line(line) {
            proof {
                let found = instructions(all.take(at + 1));
                assert(found == instructions(all.take(at as int)).push(line@));
                assert(found[program_counter as int] == line@);
                assert(instructions(all).take(found.len() as int)[program_counter as int]
                    == instructions(all)[program_counter as int]);
            }
            let tokens = split_words(line);
            match encode(&tokens, &labels, program_counter) {
                Ok(instruction_as_byte) => {
                    instruction_bits.push(instruction_as_byte);
                    program_counter += 1;
                },
                Err(kind) => {
                    return Err(panic_at_instruction(kind, program_counter));
                },
            }
        }
        at += 1;
    }
    assert(all.take(at as int) =~= all);
    instruction_bits.push(HALT);
    Ok(instruction_bits)
}

} // verus!
