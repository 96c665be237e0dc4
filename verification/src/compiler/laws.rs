//! What holds of every program that is assembled.

use vstd::prelude::*;
use crate::consts::{
    C_EXIT, HALT, JUMP_BACK, OP_CAL, OP_JIE, OP_JIG, OP_JMP, OP_MOV, OP_SET, REG_MSK,
};
use crate::consts::error_handling::{AssemblyError, ErrorKind};
use crate::compiler::{
    assembles, dmr_selector, encoded, immediate_of, instructions, is_label, jump_opcode,
    label_count, label_name, label_table, lemma_statement_counts, register_numeral,
    register_opcode, spec_encode, spec_encode_branch, spec_encode_jump,
    spec_encode_manipulation,
};
use crate::emulator::{
    spec_calculate_jump, spec_get_call_code, spec_get_dmr, spec_get_operation,
    spec_get_register, spec_run, Outcome, State,
};
use crate::text::{
    is_solid, is_space, is_trimmed, lemma_last_word, lemma_one_word_is_all,
    lemma_solid_is_one_word, lemma_statements_trimmed, lemma_words_are_solid, number_of,
    statements, words,
};

verus! {

/// A jump over at most 15 instructions, forward or backward, is decoded as
/// it was encoded: the opcode and the displacement are those that went in,
/// the sign bit is set exactly for a backward jump, and the low four bits
/// hold the distance.
pub proof fn lemma_jump_round_trip(operation: u8, displacement: int)
    requires
        operation == OP_JMP || operation == OP_JIE || operation == OP_JIG,
        -15 <= displacement <= 15,
    ensures
        spec_get_operation(spec_encode_jump(operation, displacement)) == operation,
        spec_calculate_jump(spec_encode_jump(operation, displacement)) == displacement,
        (spec_encode_jump(operation, displacement) & JUMP_BACK == JUMP_BACK) == (displacement < 0),
        (spec_encode_jump(operation, displacement) & REG_MSK) as int == if displacement < 0 {
            -displacement
        } else {
            displacement
        },
{
    let distance: u8 = if displacement < 0 {
        (-displacement) as u8
    } else {
        displacement as u8
    };
    assert(distance <= 15 && (operation == 0x80 || operation == 0xA0 || operation == 0xC0) ==> {
        &&& (operation | 0x10 | distance) & 0xE0 == operation
        &&& (operation | 0x10 | distance) & 0x10 == 0x10
        &&& (operation | 0x10 | distance) & 0x0F == distance
        &&& (operation | distance) & 0xE0 == operation
        &&& (operation | distance) & 0x10 == 0
        &&& (operation | distance) & 0x0F == distance
    }) by (bit_vector);
}

/// The machine reads from the byte of an instruction of three words what
/// the assembler wrote there: the opcode that the mnemonic names, the
/// directly manipulated register that the selector names, and the immediate
/// or the register index that the operand holds.
pub proof fn lemma_manipulation_is_decoded(
    mnemonic: Seq<char>,
    selector: Seq<char>,
    operand: Seq<char>,
)
    requires
        spec_encode_manipulation(mnemonic, selector, operand) is Ok,
    ensures
        ({
            let byte = spec_encode_manipulation(mnemonic, selector, operand)->Ok_0;
            &&& spec_get_operation(byte) == if mnemonic == "set"@ {
                OP_SET
            } else {
                register_opcode(mnemonic)->Some_0
            }
            &&& spec_get_dmr(byte) == if selector == "#0"@ {
                0u8
            } else {
                1u8
            }
            &&& spec_get_register(byte) == if mnemonic == "set"@ {
                immediate_of(operand)->Some_0 as nat
            } else {
                number_of(register_numeral(operand))->Some_0
            }
        }),
{
    let byte = spec_encode_manipulation(mnemonic, selector, operand)->Ok_0;
    let dmr = dmr_selector(selector)->Some_0;
    let operation = if mnemonic == "set"@ {
        OP_SET
    } else {
        register_opcode(mnemonic)->Some_0
    };
    let low = if mnemonic == "set"@ {
        immediate_of(operand)->Some_0
    } else {
        number_of(register_numeral(operand))->Some_0 as u8
    };
    assert(byte == operation | dmr | low);
    assert(low <= 15 && (dmr == 0 || dmr == 0x10) && (operation == 0 || operation == 0x20
        || operation == 0x40 || operation == 0x60) ==> {
        &&& (operation | dmr | low) & 0xE0 == operation
        &&& ((operation | dmr | low) & 0x10) >> 4 == dmr >> 4
        &&& (operation | dmr | low) & 0x0F == low
    }) by (bit_vector);
    assert(0x10u8 >> 4 == 1 && 0u8 >> 4 == 0) by (bit_vector);
}

/// The machine reads from the byte of a system call the code that the
/// assembler wrote there.
pub proof fn lemma_call_is_decoded(operand: Seq<char>, labels: Map<Seq<char>, nat>, counter: int)
    requires
        spec_encode_branch("cal"@, operand, labels, counter) is Ok,
    ensures
        ({
            let byte = spec_encode_branch("cal"@, operand, labels, counter)->Ok_0;
            &&& spec_get_operation(byte) == OP_CAL
            &&& spec_get_call_code(byte) == number_of(operand)->Some_0
            &&& byte == HALT <==> number_of(operand)->Some_0 == C_EXIT
        }),
{
    let code = number_of(operand)->Some_0 as u8;
    assert(code < 13 ==> {
        &&& (0xE0u8 | code) & 0xE0 == 0xE0
        &&& (0xE0u8 | code) & 0x1F == code
        &&& ((0xE0u8 | code) == 0xE0 <==> code == 0)
    }) by (bit_vector);
}

/// The machine reads from the byte of a jump to a label at most 15
/// instructions away the opcode that the assembler wrote there, and the way
/// to the label: the sign bit is set exactly if the label lies before the
/// jump, and the low four bits hold the distance.
pub proof fn lemma_jump_is_decoded(
    mnemonic: Seq<char>,
    operand: Seq<char>,
    labels: Map<Seq<char>, nat>,
    counter: int,
)
    requires
        jump_opcode(mnemonic) is Some,
        mnemonic != "cal"@,
        labels.contains_key(operand),
        -15 <= labels[operand] - counter <= 15,
    ensures
        ({
            let way = labels[operand] - counter;
            let distance = if way < 0 {
                -way
            } else {
                way
            };
            &&& spec_encode_branch(mnemonic, operand, labels, counter) is Ok
            &&& spec_get_operation(spec_encode_branch(mnemonic, operand, labels, counter)->Ok_0)
                == jump_opcode(mnemonic)->Some_0
            &&& spec_calculate_jump(
                spec_encode_branch(mnemonic, operand, labels, counter)->Ok_0,
            ) == way
            &&& (spec_encode_branch(mnemonic, operand, labels, counter)->Ok_0 & JUMP_BACK
                == JUMP_BACK) == (way < 0)
            &&& (spec_encode_branch(mnemonic, operand, labels, counter)->Ok_0 & REG_MSK) as int
                == distance
        }),
{
    lemma_jump_round_trip(jump_opcode(mnemonic)->Some_0, labels[operand] - counter);
}

/// A label that is declared by statement `i`, and not again further down, is
/// recorded with `i` less the number of declarations before it, which is the
/// index of the instruction that follows the declaration.
pub proof fn lemma_label_resolution(lines: Seq<Seq<char>>, i: int)
    requires
        0 <= i < lines.len(),
        is_label(lines[i]),
        forall|j: int|
            i < j < lines.len() && is_label(lines[j]) ==> label_name(lines[j]) != label_name(
                lines[i],
            ),
    ensures
        label_table(lines).contains_key(label_name(lines[i])),
        label_table(lines)[label_name(lines[i])] == i - label_count(lines.take(i)),
        i - label_count(lines.take(i)) == instructions(lines.take(i)).len(),
    decreases lines.len(),
{
    let before = lines.drop_last();
    lemma_statement_counts(lines.take(i));
    if i == lines.len() - 1 {
        assert(before =~= lines.take(i));
    } else {
        assert(before.take(i) =~= lines.take(i));
        lemma_label_resolution(before, i);
    }
}

/// The image of a program ends with the instruction that halts, which is the
/// system call that ends the program.
pub proof fn lemma_image_ends_with_halt(text: Seq<char>, image: Seq<u8>)
    requires
        assembles(text, Ok(image)),
    ensures
        image.len() > 0,
        image.last() == HALT,
        spec_get_operation(image.last()) == OP_CAL,
        spec_get_call_code(image.last()) == C_EXIT,
{
    assert(0xE0u8 & 0xE0 == 0xE0 && 0xE0u8 & 0x1F == 0) by (bit_vector);
}

/// The machine that stands at the last byte of an image halts there, and one
/// that stands behind it gives up: it executes nothing at or after the end.
pub proof fn lemma_image_ends_the_run(
    text: Seq<char>,
    image: Seq<u8>,
    state: State,
    input: Option<u32>,
    fuel: nat,
)
    requires
        assembles(text, Ok(image)),
        state.program_counter >= image.len() - 1,
        fuel > 0,
    ensures
        spec_run(image, state, input, fuel) == if state.program_counter == image.len() - 1 {
            (state, Outcome::Halt)
        } else {
            (state, Outcome::OutOfRange)
        },
{
}

/// Assembling a program has one outcome.
pub proof fn lemma_assembly_is_determined(
    text: Seq<char>,
    first: Result<Seq<u8>, AssemblyError>,
    second: Result<Seq<u8>, AssemblyError>,
)
    requires
        assembles(text, first),
        assembles(text, second),
    ensures
        first == second,
{
    let lines = statements(text);
    match (first, second) {
        (Ok(a), Ok(b)) => {
            assert forall|k: int| 0 <= k < a.len() implies a[k] == b[k] by {
                if k < a.len() - 1 {
                    assert(encoded(lines, k) == Ok::<u8, ErrorKind>(a[k]));
                    assert(encoded(lines, k) == Ok::<u8, ErrorKind>(b[k]));
                }
            }
            assert(a =~= b);
        },
        (Ok(a), Err(e)) => {
            assert(encoded(lines, e.instruction - 1) == Ok::<u8, ErrorKind>(a[e.instruction - 1]));
        },
        (Err(e), Ok(b)) => {
            assert(encoded(lines, e.instruction - 1) == Ok::<u8, ErrorKind>(b[e.instruction - 1]));
        },
        (Err(d), Err(e)) => {
            if d.instruction < e.instruction {
                assert(encoded(lines, d.instruction - 1) is Ok);
            } else if e.instruction < d.instruction {
                assert(encoded(lines, e.instruction - 1) is Ok);
            }
        },
    }
}

/// A `mov` into general register 0 is rejected as a write to the protected
/// register, when the word before the register selects a directly
/// manipulated register (a `mov` that does not is rejected for that).
pub proof fn lemma_protected_register(
    selector: Seq<char>,
    operand: Seq<char>,
    labels: Map<Seq<char>, nat>,
    counter: int,
)
    requires
        dmr_selector(selector) is Some,
        number_of(register_numeral(operand)) == Some(0nat),
    ensures
        spec_encode(seq!["mov"@, selector, operand], labels, counter) == Err::<u8, ErrorKind>(
            ErrorKind::ProtectedRegister,
        ),
{
    reveal_strlit("mov");
    reveal_strlit("set");
    assert("mov"@[0] != "set"@[0]);
}

/// A byte that the assembler gives for an instruction is no `OP_MOV` into
/// general register 0.
pub proof fn lemma_encoding_spares_register_zero(
    tokens: Seq<Seq<char>>,
    labels: Map<Seq<char>, nat>,
    counter: int,
)
    requires
        spec_encode(tokens, labels, counter) is Ok,
    ensures
        !(spec_get_operation(spec_encode(tokens, labels, counter)->Ok_0) == OP_MOV
            && spec_get_register(spec_encode(tokens, labels, counter)->Ok_0) == 0),
{
    let byte = spec_encode(tokens, labels, counter)->Ok_0;
    if tokens.len() == 3 {
        let selector = dmr_selector(tokens[1])->Some_0;
        if tokens[0] == "set"@ {
            let value = immediate_of(tokens[2])->Some_0;
            assert(byte == OP_SET | selector | value);
            assert(value <= 15 && (selector == 0 || selector == 0x10) ==> (0x00u8 | selector
                | value) & 0xE0 != 0x20) by (bit_vector);
        } else {
            let operation = register_opcode(tokens[0])->Some_0;
            let index = number_of(register_numeral(tokens[2]))->Some_0 as u8;
            assert(byte == operation | selector | index);
            assert(index <= 15 && (selector == 0 || selector == 0x10) && (operation == 0x20
                || operation == 0x40 || operation == 0x60) ==> {
                &&& (operation | selector | index) & 0xE0 == operation
                &&& (operation | selector | index) & 0x0F == index
            }) by (bit_vector);
        }
    } else {
        if tokens[0] == "cal"@ {
            let code = number_of(tokens[1])->Some_0 as u8;
            assert(byte == OP_CAL | code);
            assert(code < 13 ==> (0xE0u8 | code) & 0xE0 != 0x20) by (bit_vector);
        } else {
            let operation = jump_opcode(tokens[0])->Some_0;
            let displacement = labels[tokens[1]] - counter;
            let low: u8 = if displacement < 0 {
                ((-displacement) % 256) as u8
            } else {
                (displacement % 256) as u8
            };
            assert(byte == operation | low || byte == operation | JUMP_BACK | low);
            assert(operation == 0x80 || operation == 0xA0 || operation == 0xC0 ==> {
                &&& (operation | low) & 0xE0 != 0x20
                &&& (operation | 0x10 | low) & 0xE0 != 0x20
            }) by (bit_vector);
        }
    }
}

/// No byte of an image is an `OP_MOV` into general register 0.
pub proof fn lemma_image_spares_register_zero(text: Seq<char>, image: Seq<u8>, k: int)
    requires
        assembles(text, Ok(image)),
        0 <= k < image.len(),
    ensures
        !(spec_get_operation(image[k]) == OP_MOV && spec_get_register(image[k]) == 0),
{
    let lines = statements(text);
    if k < image.len() - 1 {
        assert(encoded(lines, k) == Ok::<u8, ErrorKind>(image[k]));
        lemma_encoding_spares_register_zero(
            words(instructions(lines)[k]),
            label_table(lines),
            k,
        );
    } else {
        assert(0xE0u8 & 0xE0 != 0x20) by (bit_vector);
    }
}

/// Whether the statements `a` and the statements `b` are as many, and hold
/// the same words one by one.
pub open spec fn same_words(a: Seq<Seq<char>>, b: Seq<Seq<char>>) -> bool {
    a.len() == b.len() && forall|i: int| 0 <= i < a.len() ==> words(a[i]) == words(b[i])
}

/// Whether each of `lines` has a character and neither starts nor ends with
/// white space, as the statements of a text do.
pub open spec fn are_statements(lines: Seq<Seq<char>>) -> bool {
    forall|i: int| 0 <= i < lines.len() ==> (#[trigger] lines[i]).len() > 0 && is_trimmed(lines[i])
}

/// Of two statements with the same words both declare a label or neither
/// does.
proof fn lemma_same_kind(a: Seq<char>, b: Seq<char>)
    requires
        a.len() > 0,
        b.len() > 0,
        is_trimmed(a),
        is_trimmed(b),
        words(a) == words(b),
    ensures
        is_label(a) == is_label(b),
{
    lemma_last_word(a);
    lemma_last_word(b);
}

/// Of two label declarations with the same words both declare the name
/// `word` or neither does, if `word` holds no white space.
proof fn lemma_same_name(a: Seq<char>, b: Seq<char>, word: Seq<char>)
    requires
        is_label(a),
        is_label(b),
        is_trimmed(a),
        is_trimmed(b),
        words(a) == words(b),
        is_solid(word),
    ensures
        (label_name(a) == word) == (label_name(b) == word),
{
    assert(!is_space(':'));
    if label_name(a) == word {
        assert(a =~= word.push(':'));
        assert(is_solid(a));
        lemma_solid_is_one_word(a);
        lemma_one_word_is_all(b);
    }
    if label_name(b) == word {
        assert(b =~= word.push(':'));
        assert(is_solid(b));
        lemma_solid_is_one_word(b);
        lemma_one_word_is_all(a);
    }
}

/// Programs with the same words still have the same words without their
/// last statements, and those two are of one kind.
proof fn lemma_same_without_last(a: Seq<Seq<char>>, b: Seq<Seq<char>>)
    requires
        a.len() > 0,
        are_statements(a),
        are_statements(b),
        same_words(a, b),
    ensures
        are_statements(a.drop_last()),
        are_statements(b.drop_last()),
        same_words(a.drop_last(), b.drop_last()),
        words(a.last()) == words(b.last()),
        is_trimmed(a.last()),
        is_trimmed(b.last()),
        is_label(a.last()) == is_label(b.last()),
{
    let shorter_a = a.drop_last();
    let shorter_b = b.drop_last();
    assert forall|i: int| 0 <= i < shorter_a.len() implies (#[trigger] shorter_a[i]).len() > 0
        && is_trimmed(shorter_a[i]) by {
        assert(shorter_a[i] == a[i]);
    }
    assert forall|i: int| 0 <= i < shorter_b.len() implies (#[trigger] shorter_b[i]).len() > 0
        && is_trimmed(shorter_b[i]) by {
        assert(shorter_b[i] == b[i]);
    }
    assert forall|i: int| 0 <= i < shorter_a.len() implies words(shorter_a[i]) == words(
        shorter_b[i],
    ) by {
        assert(shorter_a[i] == a[i] && shorter_b[i] == b[i]);
    }
    assert(a.last() == a[a.len() - 1] && b.last() == b[b.len() - 1]);
    lemma_same_kind(a.last(), b.last());
}

/// Programs with the same words have as many labels, and the same
/// instructions word by word.
proof fn lemma_same_instructions(a: Seq<Seq<char>>, b: Seq<Seq<char>>)
    requires
        are_statements(a),
        are_statements(b),
        same_words(a, b),
    ensures
        label_count(a) == label_count(b),
        same_words(instructions(a), instructions(b)),
    decreases a.len(),
{
    if a.len() > 0 {
        lemma_same_without_last(a, b);
        lemma_same_instructions(a.drop_last(), b.drop_last());
    }
}

/// Programs with the same words record the same for every name that holds
/// no white space.
proof fn lemma_same_labels(a: Seq<Seq<char>>, b: Seq<Seq<char>>, word: Seq<char>)
    requires
        are_statements(a),
        are_statements(b),
        same_words(a, b),
        is_solid(word),
    ensures
        label_table(a).contains_key(word) == label_table(b).contains_key(word),
        label_table(a).contains_key(word) ==> label_table(a)[word] == label_table(b)[word],
    decreases a.len(),
{
    if a.len() > 0 {
        lemma_same_without_last(a, b);
        lemma_same_labels(a.drop_last(), b.drop_last(), word);
        lemma_same_instructions(a.drop_last(), b.drop_last());
        if is_label(a.last()) {
            lemma_same_name(a.last(), b.last(), word);
        }
    }
}

/// Two programs whose statements hold the same words are assembled to the
/// same outcome: blank lines, and white space around and between the words
/// of a statement, make no difference.
pub proof fn lemma_layout_is_immaterial(
    a: Seq<char>,
    b: Seq<char>,
    outcome: Result<Seq<u8>, AssemblyError>,
)
    requires
        same_words(statements(a), statements(b)),
        assembles(a, outcome),
    ensures
        assembles(b, outcome),
{
    let lines_a = statements(a);
    let lines_b = statements(b);
    lemma_statements_trimmed(a);
    lemma_statements_trimmed(b);
    lemma_same_instructions(lines_a, lines_b);
    let count = instructions(lines_a).len() as int;
    assert forall|k: int| 0 <= k < count implies encoded(lines_a, k) == encoded(lines_b, k) by {
        let tokens = words(instructions(lines_a)[k]);
        assert(tokens == words(instructions(lines_b)[k]));
        if tokens.len() == 2 {
            lemma_words_are_solid(instructions(lines_a)[k]);
            lemma_same_labels(lines_a, lines_b, tokens[1]);
        }
    }
}

/// Two programs whose statements hold the same words have the same image,
/// and so the machine does the same on both.
pub proof fn lemma_layout_keeps_image(
    a: Seq<char>,
    b: Seq<char>,
    image_a: Seq<u8>,
    image_b: Seq<u8>,
)
    requires
        same_words(statements(a), statements(b)),
        assembles(a, Ok(image_a)),
        assembles(b, Ok(image_b)),
    ensures
        image_a == image_b,
        forall|state: State, input: Option<u32>, fuel: nat|
            spec_run(image_a, state, input, fuel) == spec_run(image_b, state, input, fuel),
{
    lemma_layout_is_immaterial(a, b, Ok(image_a));
    lemma_assembly_is_determined(b, Ok(image_a), Ok(image_b));
}

} // verus!
