use viv::text::{
    characters, decimal_string, is_whitespace, parse_number, same_text, spells, split_statements,
    split_words, trim_bounds,
};

fn chars(text: &str) -> Vec<char> {
    text.chars().collect()
}

fn strings(parts: &[Vec<char>]) -> Vec<String> {
    parts.iter().map(|part| part.iter().collect()).collect()
}

const SAMPLES: [&str; 14] = [
    "",
    "a",
    " a ",
    "set #0 5\nset #1 3\ncal 1",
    "set #0 5\r\nset #1 3\r\ncal 1\r\n",
    "\n\n\n",
    "  \t  \n top: \n\n\tjmp   top\t\n",
    "one\rtwo\nthree",
    "a\u{a0}b\u{2003}c\u{3000}\n\u{85}d\u{1680}e",
    "x\u{200b}y z",
    "tab\there\u{b}and\u{c}there",
    "last line without end",
    "\r\n\r\n word \r\n",
    "h\u{e9}llo w\u{f6}rld\n\u{1f600} ok",
];

#[test]
fn white_space_is_what_the_standard_library_calls_so() {
    for code in 0u32..=0x10FFFF {
        if let Some(c) = char::from_u32(code) {
            assert_eq!(is_whitespace(c), c.is_whitespace(), "U+{:04X}", code);
        }
    }
}

#[test]
fn characters_are_those_of_the_text() {
    for sample in SAMPLES {
        assert_eq!(characters(sample), chars(sample));
    }
}

#[test]
fn same_text_compares_character_by_character() {
    assert!(same_text(&chars(""), &chars("")));
    assert!(same_text(&chars("abc"), &chars("abc")));
    assert!(!same_text(&chars("abc"), &chars("abd")));
    assert!(!same_text(&chars("abc"), &chars("ab")));
    assert!(!same_text(&chars("ab"), &chars("abc")));
    assert!(spells(&chars("set"), "set"));
    assert!(!spells(&chars("set"), "sets"));
    assert!(!spells(&chars("sat"), "set"));
    assert!(spells(&chars(""), ""));
}

#[test]
fn trimming_drops_white_space_at_both_ends() {
    for sample in SAMPLES {
        let text = chars(sample);
        let (start, end) = trim_bounds(&text, 0, text.len());
        let kept: String = text[start..end].iter().collect();
        assert_eq!(kept, sample.trim());
    }
    let text = chars("ab  cd  ef");
    assert_eq!(trim_bounds(&text, 2, 8), (4, 6));
    assert_eq!(trim_bounds(&text, 2, 4), (4, 4));
    assert_eq!(trim_bounds(&text, 3, 3), (3, 3));
    assert_eq!(trim_bounds(&text, 0, 10), (0, 10));
}

#[test]
fn statements_are_the_trimmed_lines_that_are_not_empty() {
    for sample in SAMPLES {
        let expected: Vec<String> = sample
            .lines()
            .map(|line| line.trim().to_string())
            .filter(|line| line.len() > 0)
            .collect();
        assert_eq!(strings(&split_statements(&chars(sample))), expected);
    }
    assert_eq!(
        strings(&split_statements(&chars("  top: \n\n\tjmp   top\t\n"))),
        vec!["top:", "jmp   top"]
    );
}

#[test]
fn words_are_what_white_space_separates() {
    for sample in SAMPLES {
        let expected: Vec<String> = sample.split_whitespace().map(|word| word.to_string()).collect();
        assert_eq!(strings(&split_words(&chars(sample))), expected);
    }
    assert_eq!(strings(&split_words(&chars("  set\t#0   5 "))), vec!["set", "#0", "5"]);
    assert_eq!(split_words(&chars(" \t ")).len(), 0);
}

#[test]
fn number_is_read_as_the_standard_library_reads_a_byte() {
    let mut inputs: Vec<String> = Vec::new();
    for n in 0u32..=300 {
        inputs.push(n.to_string());
        inputs.push(format!("+{}", n));
        inputs.push(format!("-{}", n));
        inputs.push(format!("00{}", n));
        inputs.push(format!("{} ", n));
        inputs.push(format!(" {}", n));
        inputs.push(format!("{}x", n));
    }
    for odd in [
        "", "+", "-", "++1", "+-1", "1+", "0x10", "1_0", "\u{ff11}", "\u{661}", "1.5",
        "99999999999999999999", "000000000000000000000255", "000000000000000000000256",
    ] {
        inputs.push(odd.to_string());
    }
    for input in inputs {
        let expected = input.parse::<u8>().ok().map(|n| n as u64);
        let read = parse_number(&chars(&input), 256).filter(|n| *n < 256);
        assert_eq!(read, expected, "{:?}", input);
    }
}

#[test]
fn number_is_read_as_the_standard_library_reads_a_word() {
    for input in [
        "0", "1", "+1", "4294967295", "4294967296", "+4294967295", "42949672950", "04294967295",
        "4294967294", "3000000000", "99999999999999999999999999", "", "+", "12a", "-0",
    ] {
        let expected = input.parse::<u32>().ok().map(|n| n as u64);
        let read = parse_number(&chars(input), 0x1_0000_0000).filter(|n| *n < 0x1_0000_0000);
        assert_eq!(read, expected, "{:?}", input);
    }
}

#[test]
fn number_above_the_ceiling_is_read_as_the_ceiling() {
    assert_eq!(parse_number(&chars("15"), 16), Some(15));
    assert_eq!(parse_number(&chars("16"), 16), Some(16));
    assert_eq!(parse_number(&chars("17"), 16), Some(16));
    assert_eq!(parse_number(&chars("99999999999999999999999999999999999999999999"), 16), Some(16));
    assert_eq!(parse_number(&chars("0"), 0), Some(0));
    assert_eq!(parse_number(&chars("1"), 0), Some(0));
    assert_eq!(parse_number(&chars("007"), 7), Some(7));
    assert_eq!(parse_number(&chars("18446744073709551615"), u64::MAX), Some(u64::MAX));
    assert_eq!(parse_number(&chars("18446744073709551614"), u64::MAX), Some(u64::MAX - 1));
    assert_eq!(parse_number(&chars("18446744073709551616"), u64::MAX), Some(u64::MAX));
    assert_eq!(parse_number(&chars("99x"), 16), None);
    assert_eq!(parse_number(&chars("x"), 16), None);
    assert_eq!(parse_number(&chars(""), 16), None);
}

#[test]
fn number_is_written_as_the_standard_library_writes_it() {
    for n in 0usize..=1100 {
        assert_eq!(decimal_string(n), n.to_string());
    }
    for n in [9999usize, 10000, 65535, 65536, 4294967295, usize::MAX - 1, usize::MAX] {
        assert_eq!(decimal_string(n), n.to_string());
    }
    assert_eq!(decimal_string(0), "0");
    assert_eq!(decimal_string(1090), "1090");
}

#[test]
fn number_written_is_read_back() {
    for n in [0u32, 1, 9, 10, 99, 100, 255, 256, 65535, 4294967295] {
        let text = decimal_string(n as usize);
        assert_eq!(parse_number(&chars(&text), u64::MAX), Some(n as u64));
    }
}
