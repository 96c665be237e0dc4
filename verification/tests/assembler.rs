use viv::compiler::{
    check_call_existance, compile, encode, encode_branch, encode_jump, encode_manipulation,
    is_label_line, resolve_labels, LabelTable,
};
use viv::consts::error_handling::{
    panic_at_instruction, AssemblyError, ErrorKind, Operand, E_MALFORMED_LITERAL,
    E_MODIFYING_ZEROTH_REGISTER_ERROR, E_UNKNOWN_DESTINATION_DMR, E_UNKNOWN_DESTINATION_IMR,
    E_UNKNOWN_LABEL, E_UNKNOWN_OPERATION, E_UNKNOWN_SYSTEM_CALL_ERROR,
    E_WRONG_FORMAT_OF_INSTRUCTION,
};
use viv::consts::{HALT, OP_CAL, OP_JIE, OP_JIG, OP_JMP, OP_MOV};
use viv::emulator::{calculate_jump, get_call_code, get_operation, get_register};

fn chars(text: &str) -> Vec<char> {
    text.chars().collect()
}

fn lines(texts: &[&str]) -> Vec<Vec<char>> {
    texts.iter().map(|text| chars(text)).collect()
}

fn failure(kind: ErrorKind, instruction: usize) -> Result<Vec<u8>, AssemblyError> {
    Err(AssemblyError { kind, instruction })
}

#[test]
fn assembles_an_addition() {
    let image = compile("set #0 5\nset #1 3\ncal 1");
    assert_eq!(image, Ok(vec![0x05, 0x13, 0xE1, 0xE0]));
}

#[test]
fn assembles_every_manipulation() {
    let image = compile("set #1 15\nmov #0 $1\nmov #1 $15\nget #0 $0\nget #1 $11\ncmp #0 $14\ncmp #1 $7");
    assert_eq!(image, Ok(vec![0x1F, 0x21, 0x3F, 0x40, 0x5B, 0x6E, 0x77, 0xE0]));
}

#[test]
fn assembles_every_system_call() {
    for code in 0u8..13 {
        let image = compile(&format!("cal {}", code));
        assert_eq!(image, Ok(vec![0xE0 | code, 0xE0]));
    }
}

#[test]
fn empty_program_is_the_halt_alone() {
    assert_eq!(compile(""), Ok(vec![0xE0]));
    assert_eq!(compile("\n \n\t\r\n"), Ok(vec![0xE0]));
}

#[test]
fn image_ends_with_halt() {
    for source in ["", "set #0 1", "top:\njmp top", "cal 0\ncal 0", "a:\nb:\nc:"] {
        let image = compile(source).unwrap();
        let last = *image.last().unwrap();
        assert_eq!(last, HALT);
        assert_eq!(get_operation(&last), OP_CAL);
        assert_eq!(get_call_code(&last), 0);
    }
}

#[test]
fn backward_jump_sets_sign_and_distance() {
    let image = compile("top:\nset #0 1\nset #1 2\njmp top").unwrap();
    assert_eq!(image, vec![0x01, 0x12, 0x92, 0xE0]);
    let jump = image[2];
    assert_eq!(get_operation(&jump), OP_JMP);
    assert_eq!(jump & 0b000_1_0000, 0b000_1_0000);
    assert_eq!(jump & 0b0000_1111, 2);
    assert_eq!(calculate_jump(&jump), -2);
}

#[test]
fn forward_jump_reaches_a_label_declared_later() {
    let image = compile("jmp end\nset #0 1\nend:\ncal 0");
    assert_eq!(image, Ok(vec![0x82, 0x01, 0xE0, 0xE0]));
}

#[test]
fn conditional_jumps_have_their_opcodes() {
    let image = compile("here:\njie here\njig here\njmp here\njig there\nthere:");
    assert_eq!(image, Ok(vec![0xA0, 0xD1, 0x92, 0xC1, 0xE0]));
}

#[test]
fn jump_to_its_own_place_has_no_distance() {
    assert_eq!(compile("set #0 1\nself:\njmp self"), Ok(vec![0x01, 0x80, 0xE0]));
}

#[test]
fn jump_to_the_end_targets_the_halt() {
    assert_eq!(compile("jie end\nend:"), Ok(vec![0xA1, 0xE0]));
}

#[test]
fn jump_round_trip_for_every_displacement() {
    for operation in [OP_JMP, OP_JIE, OP_JIG] {
        for displacement in -15isize..=15 {
            for counter in [15usize, 16, 100, 1000] {
                let target = (counter as isize + displacement) as usize;
                let byte = encode_jump(operation, target, counter);
                assert_eq!(get_operation(&byte), operation);
                assert_eq!(calculate_jump(&byte), displacement);
                assert_eq!(byte & 0b000_1_0000 != 0, displacement < 0);
                assert_eq!((byte & 0b0000_1111) as isize, displacement.abs());
            }
        }
    }
}

#[test]
fn jump_over_more_than_fifteen_spills_into_the_other_fields() {
    assert_eq!(encode_jump(OP_JMP, 0, 16), 0x90);
    assert_eq!(encode_jump(OP_JMP, 0, 17), 0x91);
    assert_eq!(encode_jump(OP_JMP, 32, 0), 0xA0);
    assert_eq!(encode_jump(OP_JIE, 64, 0), 0xE0);
    assert_eq!(encode_jump(OP_JMP, 0, 256), 0x90);
    assert_eq!(encode_jump(OP_JMP, 0, 257), 0x91);
    assert_eq!(encode_jump(OP_JIG, 300, 0), 0xC0 | 44);

    let mut source = String::from("top:\n");
    for _ in 0..16 {
        source.push_str("set #0 1\n");
    }
    source.push_str("jmp top\n");
    let image = compile(&source).unwrap();
    assert_eq!(image.len(), 18);
    assert_eq!(image[16], 0x90);
}

#[test]
fn label_is_recorded_with_its_position_less_the_labels_before() {
    let program = lines(&["a:", "set #0 1", "b:", "c:", "set #0 2", "d:"]);
    let table = resolve_labels(&program);
    assert_eq!(table.get(&chars("a")), Some(0));
    assert_eq!(table.get(&chars("b")), Some(1));
    assert_eq!(table.get(&chars("c")), Some(1));
    assert_eq!(table.get(&chars("d")), Some(2));
    assert_eq!(table.get(&chars("e")), None);
    assert_eq!(table.get(&chars("")), None);
}

#[test]
fn label_declared_again_counts_where_it_stands_last() {
    let program = lines(&["x:", "set #0 1", "x:", "jmp x"]);
    let table = resolve_labels(&program);
    assert_eq!(table.get(&chars("x")), Some(1));
    assert_eq!(compile("x:\nset #0 1\nx:\njmp x"), Ok(vec![0x01, 0x80, 0xE0]));
}

#[test]
fn label_name_is_all_that_stands_before_the_colon() {
    let program = lines(&["two words:", ":", "a::"]);
    let table = resolve_labels(&program);
    assert_eq!(table.get(&chars("two words")), Some(0));
    assert_eq!(table.get(&chars("")), Some(0));
    assert_eq!(table.get(&chars("a:")), Some(0));
    assert_eq!(table.get(&chars("a")), None);
}

#[test]
fn statement_that_ends_in_a_colon_is_a_label_whatever_its_words() {
    assert!(is_label_line(&chars("top:")));
    assert!(is_label_line(&chars("mov #0 $1:")));
    assert!(is_label_line(&chars(":")));
    assert!(!is_label_line(&chars("top")));
    assert!(!is_label_line(&chars(":top")));
    assert!(!is_label_line(&chars("")));
    assert_eq!(compile("mov #0 $1:\nset #0 1\nnot an instruction at all:"), Ok(vec![0x01, 0xE0]));
}

#[test]
fn table_keeps_the_later_of_two_entries() {
    let mut table = LabelTable::new();
    assert_eq!(table.get(&chars("a")), None);
    table.insert(chars("a"), 3);
    table.insert(chars("b"), 4);
    assert_eq!(table.get(&chars("a")), Some(3));
    table.insert(chars("a"), 9);
    assert_eq!(table.get(&chars("a")), Some(9));
    assert_eq!(table.get(&chars("b")), Some(4));
    assert_eq!(table.get(&chars("c")), None);
}

#[test]
fn layout_makes_no_difference() {
    let plain = "set #0 5\nset #1 3\ncal 1";
    let spread = "\n\n   set   #0\t5  \r\n\n \u{a0}set #1\u{3000}3\n\n\tcal 1\n\n";
    assert_eq!(compile(plain), compile(spread));
    let plain = "top:\nset #0 1\njie top\nmov #0 $3";
    let spread = "  top:  \n\n\nset    #0    1\n\tjie\ttop\t\n\n  mov #0   $3";
    assert_eq!(compile(plain), compile(spread));
    assert_eq!(compile(plain), Ok(vec![0x01, 0xB1, 0x23, 0xE0]));
}

#[test]
fn move_into_register_zero_is_rejected() {
    assert_eq!(compile("mov #0 $0"), failure(ErrorKind::ProtectedRegister, 1));
    assert_eq!(compile("mov #1 $0"), failure(ErrorKind::ProtectedRegister, 1));
    assert_eq!(compile("mov #1 $+000"), failure(ErrorKind::ProtectedRegister, 1));
    assert_eq!(compile("set #0 1\nmov #0 $0\nfoo"), failure(ErrorKind::ProtectedRegister, 2));
    assert_eq!(compile("get #0 $0\ncmp #1 $0"), Ok(vec![0x40, 0x70, 0xE0]));
}

#[test]
fn image_holds_no_move_into_register_zero() {
    let mut source = String::from("start:\n");
    for value in 0..16 {
        source.push_str(&format!("set #0 {}\nset #1 {}\n", value, value));
    }
    for index in 1..16 {
        source.push_str(&format!("mov #0 ${}\nmov #1 ${}\n", index, index));
    }
    for index in 0..16 {
        source.push_str(&format!("get #0 ${}\ncmp #1 ${}\n", index, index));
    }
    for code in 0..13 {
        source.push_str(&format!("cal {}\n", code));
    }
    source.push_str("jmp start\njie start\njig start\njmp end\nend:\n");
    let image = compile(&source).unwrap();
    assert_eq!(image.len(), 32 + 30 + 32 + 13 + 4 + 1);
    for byte in image.iter() {
        assert!(!(get_operation(byte) == OP_MOV && get_register(byte) == 0));
    }
}

#[test]
fn wrong_number_of_words_is_a_format_error() {
    assert_eq!(compile("nop"), failure(ErrorKind::Format, 1));
    assert_eq!(compile("set #0 1 2"), failure(ErrorKind::Format, 1));
    assert_eq!(compile("a b c d e"), failure(ErrorKind::Format, 1));
    assert_eq!(encode(&lines(&[]), &LabelTable::new(), 0), Err(ErrorKind::Format));
    assert_eq!(encode(&lines(&["cal"]), &LabelTable::new(), 0), Err(ErrorKind::Format));
}

#[test]
fn unknown_mnemonic_is_an_unknown_operation() {
    assert_eq!(compile("add #0 1"), failure(ErrorKind::UnknownOperation, 1));
    assert_eq!(compile("SET #0 1"), failure(ErrorKind::UnknownOperation, 1));
    assert_eq!(compile("jmp #0 1"), failure(ErrorKind::UnknownOperation, 1));
    assert_eq!(compile("foo bar"), failure(ErrorKind::UnknownOperation, 1));
    assert_eq!(compile("set 1"), failure(ErrorKind::UnknownOperation, 1));
    assert_eq!(compile("jmpx top"), failure(ErrorKind::UnknownOperation, 1));
}

#[test]
fn unknown_selector_is_an_unknown_dmr() {
    assert_eq!(compile("set #2 1"), failure(ErrorKind::UnknownOperand(Operand::Dmr), 1));
    assert_eq!(compile("set 0 1"), failure(ErrorKind::UnknownOperand(Operand::Dmr), 1));
    assert_eq!(compile("mov $1 #0"), failure(ErrorKind::UnknownOperand(Operand::Dmr), 1));
    assert_eq!(compile("get #00 $1"), failure(ErrorKind::UnknownOperand(Operand::Dmr), 1));
    assert_eq!(compile("cmp # $1"), failure(ErrorKind::UnknownOperand(Operand::Dmr), 1));
}

#[test]
fn register_beyond_the_last_is_an_unknown_register() {
    assert_eq!(compile("mov #0 $16"), failure(ErrorKind::UnknownOperand(Operand::Register), 1));
    assert_eq!(compile("get #0 $255"), failure(ErrorKind::UnknownOperand(Operand::Register), 1));
    assert_eq!(compile("cmp #1 $100"), failure(ErrorKind::UnknownOperand(Operand::Register), 1));
    assert_eq!(compile("mov #0 $256"), failure(ErrorKind::UnknownOperand(Operand::Register), 1));
    assert_eq!(compile("get #0 $99999999999999999999999"), failure(ErrorKind::UnknownOperand(Operand::Register), 1));
    assert_eq!(compile("mov #0 $15"), Ok(vec![0x2F, 0xE0]));
}

#[test]
fn operand_that_is_no_number_in_range_is_malformed() {
    assert_eq!(compile("set #0 x"), failure(ErrorKind::UnknownOperand(Operand::Literal), 1));
    assert_eq!(compile("set #0 16"), failure(ErrorKind::UnknownOperand(Operand::Literal), 1));
    assert_eq!(compile("set #0 32"), failure(ErrorKind::UnknownOperand(Operand::Literal), 1));
    assert_eq!(compile("set #0 -1"), failure(ErrorKind::UnknownOperand(Operand::Literal), 1));
    assert_eq!(compile("set #0 $1"), failure(ErrorKind::UnknownOperand(Operand::Literal), 1));
    assert_eq!(compile("mov #0 $"), failure(ErrorKind::UnknownOperand(Operand::Literal), 1));
    assert_eq!(compile("mov #0 $x"), failure(ErrorKind::UnknownOperand(Operand::Literal), 1));
    assert_eq!(compile("set #0 256"), failure(ErrorKind::UnknownOperand(Operand::Literal), 1));
    assert_eq!(compile("mov #0 12"), Ok(vec![0x22, 0xE0]));
    assert_eq!(compile("get #0 $1.0"), failure(ErrorKind::UnknownOperand(Operand::Literal), 1));
    assert_eq!(compile("cal x"), failure(ErrorKind::UnknownOperand(Operand::Literal), 1));
    assert_eq!(compile("cal -1"), failure(ErrorKind::UnknownOperand(Operand::Literal), 1));
    assert_eq!(compile("cal +"), failure(ErrorKind::UnknownOperand(Operand::Literal), 1));
}

#[test]
fn jump_to_a_label_that_is_not_declared_is_an_unknown_label() {
    assert_eq!(compile("jmp nowhere"), failure(ErrorKind::UnknownOperand(Operand::Label), 1));
    assert_eq!(compile("top:\njie Top"), failure(ErrorKind::UnknownOperand(Operand::Label), 1));
    assert_eq!(compile("top:\njig top:"), Ok(vec![0xE0]));
    assert_eq!(compile("a b:\njmp a"), failure(ErrorKind::UnknownOperand(Operand::Label), 1));
}

#[test]
fn code_of_no_system_call_is_an_unknown_syscall() {
    assert_eq!(compile("cal 13"), failure(ErrorKind::UnknownSyscall, 1));
    assert_eq!(compile("cal 31"), failure(ErrorKind::UnknownSyscall, 1));
    assert_eq!(compile("cal 255"), failure(ErrorKind::UnknownSyscall, 1));
    assert_eq!(compile("cal 256"), failure(ErrorKind::UnknownSyscall, 1));
    assert_eq!(compile("cal 261"), failure(ErrorKind::UnknownSyscall, 1));
    assert_eq!(compile("cal 99999999999999999999999"), failure(ErrorKind::UnknownSyscall, 1));
    assert_eq!(compile("cal 12"), Ok(vec![0xEC, 0xE0]));
}

#[test]
fn system_call_exists_below_thirteen() {
    for code in 0u8..=255 {
        assert_eq!(check_call_existance(code), code < 13);
    }
}

#[test]
fn first_fault_of_a_statement_is_reported() {
    assert_eq!(compile("set #5 x"), failure(ErrorKind::UnknownOperand(Operand::Literal), 1));
    assert_eq!(compile("mov #5 $99"), failure(ErrorKind::UnknownOperand(Operand::Dmr), 1));
    assert_eq!(compile("mov #5 $0"), failure(ErrorKind::UnknownOperand(Operand::Dmr), 1));
    assert_eq!(compile("mov #0 $x"), failure(ErrorKind::UnknownOperand(Operand::Literal), 1));
    assert_eq!(compile("foo #5 $99"), failure(ErrorKind::UnknownOperation, 1));
}

#[test]
fn error_names_the_instruction_counted_from_one() {
    assert_eq!(compile("top:\nset #0 1\nmid:\nbad"), failure(ErrorKind::Format, 2));
    assert_eq!(
        compile("set #0 1\nset #0 2\n\n\nset #0 3\ncal 99\nalso bad"),
        failure(ErrorKind::UnknownSyscall, 4)
    );
    assert_eq!(compile("bad\nworse one"), failure(ErrorKind::Format, 1));
}

#[test]
fn number_may_have_a_plus_sign_and_leading_zeros() {
    assert_eq!(compile("set #0 +5\nset #1 005\nmov #0 $+3\ncal 0012"), Ok(vec![0x05, 0x15, 0x23, 0xEC, 0xE0]));
}

#[test]
fn register_sigil_is_any_one_character() {
    assert_eq!(compile("mov #0 x3\nget #1 93\ncmp #0 \u{e9}7"), Ok(vec![0x23, 0x53, 0x67, 0xE0]));
}

#[test]
fn encodes_words_directly() {
    assert_eq!(encode_manipulation(&chars("set"), &chars("#1"), &chars("9")), Ok(0x19));
    assert_eq!(encode_manipulation(&chars("cmp"), &chars("#1"), &chars("$9")), Ok(0x79));
    assert_eq!(
        encode_manipulation(&chars("mov"), &chars("#1"), &chars("")),
        Err(ErrorKind::UnknownOperand(Operand::Literal))
    );
    let mut table = LabelTable::new();
    table.insert(chars("loop"), 4);
    assert_eq!(encode_branch(&chars("jmp"), &chars("loop"), &table, 10), Ok(0x96));
    assert_eq!(encode_branch(&chars("jig"), &chars("loop"), &table, 1), Ok(0xC3));
    assert_eq!(encode_branch(&chars("jie"), &chars("pool"), &table, 1), Err(ErrorKind::UnknownOperand(Operand::Label)));
    assert_eq!(encode_branch(&chars("cal"), &chars("loop"), &table, 1), Err(ErrorKind::UnknownOperand(Operand::Literal)));
    assert_eq!(encode(&lines(&["jmp", "loop"]), &table, 4), Ok(0x80));
    assert_eq!(encode(&lines(&["get", "#0", "$2"]), &table, 4), Ok(0x42));
}

#[test]
fn report_counts_from_one() {
    let report = panic_at_instruction(ErrorKind::UnknownOperand(Operand::Label), 0);
    assert_eq!(report, AssemblyError { kind: ErrorKind::UnknownOperand(Operand::Label), instruction: 1 });
    let report = panic_at_instruction(ErrorKind::Format, 41);
    assert_eq!(report, AssemblyError { kind: ErrorKind::Format, instruction: 42 });
}

#[test]
fn report_is_the_message_and_the_instruction() {
    let cases = [
        (ErrorKind::Format, E_WRONG_FORMAT_OF_INSTRUCTION),
        (ErrorKind::UnknownOperation, E_UNKNOWN_OPERATION),
        (ErrorKind::UnknownOperand(Operand::Dmr), E_UNKNOWN_DESTINATION_DMR),
        (ErrorKind::UnknownOperand(Operand::Register), E_UNKNOWN_DESTINATION_IMR),
        (ErrorKind::UnknownOperand(Operand::Label), E_UNKNOWN_LABEL),
        (ErrorKind::UnknownOperand(Operand::Literal), E_MALFORMED_LITERAL),
        (ErrorKind::ProtectedRegister, E_MODIFYING_ZEROTH_REGISTER_ERROR),
        (ErrorKind::UnknownSyscall, E_UNKNOWN_SYSTEM_CALL_ERROR),
    ];
    for (kind, message) in cases {
        assert_eq!(kind.message(), message);
        for instruction in [1usize, 9, 10, 1234, usize::MAX] {
            let error = AssemblyError { kind, instruction };
            assert_eq!(error.report(), format!("{} At instruction: {}", message, instruction));
        }
    }
    assert_eq!(
        compile("mov #0 $0").unwrap_err().report(),
        "Error while trying to move value into non-modifeable register $0 At instruction: 1"
    );
    assert_eq!(
        compile("cal 1\ncal 2\nfoo").unwrap_err().report(),
        "Instruction is in the incorrect format. At instruction: 3"
    );
}
