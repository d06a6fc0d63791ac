use hack_asm::{
    assemble, encode_all, filter_labels, new_symbol_table, parse_instructions, resolve_symbols,
    strip_comments, AsmError, Instruction, MAX_INSTRUCTIONS,
};

fn lines(v: &[&str]) -> Vec<String> {
    v.iter().map(|s| s.to_string()).collect()
}

#[test]
fn end_to_end_add() {
    let text = "// comment\n@2\nD=A\n@3\nD=D+A\n@0\nM=D\n";
    let out = assemble(text).unwrap();
    assert_eq!(
        out,
        lines(&[
            "0000000000000010",
            "1110110000010000",
            "0000000000000011",
            "1110000010010000",
            "0000000000000000",
            "1110001100001000",
        ])
    );
}

#[test]
fn label_and_backward_jump() {
    let text = "@10\nD=A\n(LOOP)\nD=D-1\n@LOOP\nD;JGT\n@LOOP\n0;JMP\n";
    let out = assemble(text).unwrap();
    assert_eq!(out.len(), 7);
    // LOOP is the third instruction, address 2.
    assert_eq!(out[3], "0000000000000010");
    assert_eq!(out[5], "0000000000000010");
    assert_eq!(out[6], "1110101010000111");
    assert_eq!(&out[6][3..10], "0101010");
    assert_eq!(&out[6][10..13], "000");
    assert_eq!(&out[6][13..16], "111");
}

#[test]
fn label_at_start_resolves_to_zero() {
    let out = assemble("(LOOP)\n@LOOP\n").unwrap();
    assert_eq!(out, lines(&["0000000000000000"]));
}

#[test]
fn label_after_instructions() {
    let out = assemble("@7\n@8\n(END)\n@END\n0;JMP\n").unwrap();
    assert_eq!(out[2], "0000000000000010");
}

#[test]
fn label_at_end_of_program() {
    let out = assemble("@END\n0;JMP\n(END)\n").unwrap();
    assert_eq!(out[0], "0000000000000010");
}

#[test]
fn forward_label_is_not_a_variable() {
    let out = assemble("@i\n@END\n(END)\n@j\n").unwrap();
    assert_eq!(out, lines(&["0000000000010000", "0000000000000010", "0000000000010001"]));
}

#[test]
fn unknown_computation_aborts() {
    let r = assemble("@1\nD=D^A\n@2\n");
    assert_eq!(r, Err(AsmError::UnknownComputation("D^A".to_string())));
}

#[test]
fn unknown_jump_aborts() {
    let r = assemble("0;JXX\n");
    assert_eq!(r, Err(AsmError::UnknownJump("JXX".to_string())));
}

#[test]
fn unknown_destination_aborts() {
    let r = assemble("X=0\n");
    assert_eq!(r, Err(AsmError::UnknownDestination("X".to_string())));
}

#[test]
fn negative_address_is_malformed() {
    let r = assemble("@-1\n");
    assert_eq!(r, Err(AsmError::MalformedAddress("-1".to_string())));
}

#[test]
fn out_of_range_literal_is_malformed() {
    assert_eq!(assemble("@40000\n"), Err(AsmError::MalformedAddress("40000".to_string())));
    assert_eq!(assemble("@-40000\n"), Err(AsmError::MalformedAddress("-40000".to_string())));
    assert_eq!(assemble("@32768\n"), Err(AsmError::MalformedAddress("32768".to_string())));
    let mut table = new_symbol_table();
    assert_eq!(table.apply_to_address("40000"), "40000");
    // No slot was taken by the literal.
    assert_eq!(table.apply_to_address("x"), "16");
}

#[test]
fn labels_do_not_count_towards_the_size_limit() {
    let mut text = String::new();
    for i in 0..40000 {
        text.push_str(&format!("(L{})\n", i));
    }
    text.push_str("@L39999\n");
    assert_eq!(assemble(&text).unwrap(), lines(&["0000000000000000"]));
}

#[test]
fn literals_decode_back() {
    let values = [0i32, 1, 5, 255, 16384, 32767];
    let text: String = values.iter().map(|v| format!("@{}\n", v)).collect();
    let out = assemble(&text).unwrap();
    assert_eq!(out.len(), values.len());
    for (line, v) in out.iter().zip(values.iter()) {
        assert_eq!(line.len(), 16);
        assert_eq!(i32::from_str_radix(line, 2).unwrap(), *v);
    }
}

#[test]
fn literal_with_plus_sign() {
    let out = assemble("@+7\n").unwrap();
    assert_eq!(out, lines(&["0000000000000111"]));
}

#[test]
fn variables_are_allocated_from_sixteen() {
    let mut table = new_symbol_table();
    assert_eq!(table.apply_to_address("foo"), "16");
    assert_eq!(table.apply_to_address("bar"), "17");
    assert_eq!(table.apply_to_address("foo"), "16");
    assert_eq!(table.apply_to_address("bar"), "17");
    assert_eq!(table.apply_to_address("baz"), "18");
}

#[test]
fn screen_is_never_reassigned() {
    let out = assemble("@a\n@b\n@SCREEN\n@c\n@SCREEN\n").unwrap();
    assert_eq!(out[2], "0100000000000000");
    assert_eq!(out[4], "0100000000000000");
    assert_eq!(out[3], "0000000000010010");
}

#[test]
fn predefined_symbols() {
    let mut table = new_symbol_table();
    assert_eq!(table.apply_to_address("R0"), "0");
    assert_eq!(table.apply_to_address("R15"), "15");
    assert_eq!(table.apply_to_address("SP"), "0");
    assert_eq!(table.apply_to_address("LCL"), "1");
    assert_eq!(table.apply_to_address("ARG"), "2");
    assert_eq!(table.apply_to_address("THIS"), "3");
    assert_eq!(table.apply_to_address("THAT"), "4");
    assert_eq!(table.apply_to_address("SCREEN"), "16384");
    assert_eq!(table.apply_to_address("KBD"), "24576");
    assert_eq!(table.apply_to_address("R16"), "16");
}

#[test]
fn literal_address_is_kept_as_written() {
    let mut table = new_symbol_table();
    assert_eq!(table.apply_to_address("007"), "007");
    assert_eq!(table.apply_to_address("x"), "16");
}

#[test]
fn duplicate_label_last_declaration_wins() {
    let mut table = new_symbol_table();
    table.insert_label("L", 3);
    table.insert_label("L", 9);
    assert_eq!(table.apply_to_address("L"), "9");
}

#[test]
fn label_shadows_nothing_predefined() {
    let mut table = new_symbol_table();
    table.insert_label("SCREEN", 3);
    assert_eq!(table.apply_to_address("SCREEN"), "16384");
}

#[test]
fn encoding_twice_gives_the_same_text() {
    let i = Instruction::C("AM".to_string(), "M+1".to_string(), "JNE".to_string());
    let a = i.to_binary();
    let b = i.to_binary();
    assert_eq!(a, b);
    assert_eq!(a.unwrap(), "1111110111101101");
}

#[test]
fn address_encoding() {
    let i = Instruction::A("16384".to_string());
    assert_eq!(i.to_binary().unwrap(), "0100000000000000");
    let j = Instruction::A("32768".to_string());
    assert_eq!(j.to_binary(), Err(AsmError::MalformedAddress("32768".to_string())));
    let k = Instruction::A("".to_string());
    assert_eq!(k.to_binary(), Err(AsmError::MalformedAddress("".to_string())));
}

#[test]
fn computation_codes() {
    let cases = [
        ("0", "0101010"),
        ("1", "0111111"),
        ("-1", "0111010"),
        ("D", "0001100"),
        ("A", "0110000"),
        ("!D", "0001101"),
        ("!A", "0110001"),
        ("-D", "0001111"),
        ("-A", "0110011"),
        ("D+1", "0011111"),
        ("A+1", "0110111"),
        ("D-1", "0001110"),
        ("A-1", "0110010"),
        ("D+A", "0000010"),
        ("D-A", "0010011"),
        ("A-D", "0000111"),
        ("D&A", "0000000"),
        ("D|A", "0010101"),
        ("M", "1110000"),
        ("!M", "1110001"),
        ("-M", "1110011"),
        ("M+1", "1110111"),
        ("M-1", "1110010"),
        ("D+M", "1000010"),
        ("D-M", "1010011"),
        ("M-D", "1000111"),
        ("D&M", "1000000"),
        ("D|M", "1010101"),
    ];
    for (m, code) in cases.iter() {
        let i = Instruction::C(String::new(), m.to_string(), String::new());
        assert_eq!(i.to_binary().unwrap(), format!("111{}000000", code));
    }
}

#[test]
fn destination_and_jump_codes() {
    let dests = [("M", "001"), ("D", "010"), ("MD", "011"), ("A", "100"), ("AM", "101"), ("AD", "110"), ("AMD", "111")];
    for (d, code) in dests.iter() {
        let i = Instruction::C(d.to_string(), "0".to_string(), String::new());
        assert_eq!(i.to_binary().unwrap(), format!("1110101010{}000", code));
    }
    let jumps = [("JGT", "001"), ("JEQ", "010"), ("JGE", "011"), ("JLT", "100"), ("JNE", "101"), ("JLE", "110"), ("JMP", "111")];
    for (j, code) in jumps.iter() {
        let i = Instruction::C(String::new(), "0".to_string(), j.to_string());
        assert_eq!(i.to_binary().unwrap(), format!("1110101010000{}", code));
    }
}

#[test]
fn strip_comments_normalizes() {
    let out = strip_comments("  // only a comment\n\n   @1   // load\r\nD = M\t\n\t\n0;JMP//x\n");
    assert_eq!(out, lines(&["@1", "D = M", "0;JMP"]));
}

#[test]
fn strip_comments_without_final_newline() {
    assert_eq!(strip_comments("@1\n@2"), lines(&["@1", "@2"]));
    assert_eq!(strip_comments(""), Vec::<String>::new());
    assert_eq!(strip_comments("a/b // c"), lines(&["a/b"]));
}

#[test]
fn filter_labels_records_addresses() {
    let mut table = new_symbol_table();
    let body = filter_labels(lines(&["(A)", "@1", "(B)", "(C)", "D=M", "(E)"]), &mut table);
    assert_eq!(body, lines(&["@1", "D=M"]));
    assert_eq!(table.apply_to_address("A"), "0");
    assert_eq!(table.apply_to_address("B"), "1");
    assert_eq!(table.apply_to_address("C"), "1");
    assert_eq!(table.apply_to_address("E"), "2");
    assert_eq!(table.apply_to_address("F"), "16");
}

#[test]
fn parse_instructions_splits_fields() {
    let out = parse_instructions(lines(&["@x", "D = D+A ; JGT", "M=1", "0;JMP", "D", "A=B=C"]));
    assert_eq!(
        out,
        vec![
            Instruction::A("x".to_string()),
            Instruction::C("D".to_string(), "D+A".to_string(), "JGT".to_string()),
            Instruction::C("M".to_string(), "1".to_string(), String::new()),
            Instruction::C(String::new(), "0".to_string(), "JMP".to_string()),
            Instruction::C(String::new(), "D".to_string(), String::new()),
            Instruction::C("A".to_string(), "B=C".to_string(), String::new()),
        ]
    );
}

#[test]
fn resolve_and_encode_stages() {
    let mut table = new_symbol_table();
    let body = filter_labels(lines(&["@n", "(L)", "@L", "M=0"]), &mut table);
    let parsed = parse_instructions(body);
    let resolved = resolve_symbols(parsed, &mut table);
    assert_eq!(
        resolved,
        vec![
            Instruction::A("16".to_string()),
            Instruction::A("1".to_string()),
            Instruction::C("M".to_string(), "0".to_string(), String::new()),
        ]
    );
    let out = encode_all(&resolved).unwrap();
    assert_eq!(out, lines(&["0000000000010000", "0000000000000001", "1110101010001000"]));
}

#[test]
fn empty_program() {
    assert_eq!(assemble("").unwrap(), Vec::<String>::new());
    assert_eq!(assemble("// nothing\n\n").unwrap(), Vec::<String>::new());
}

#[test]
fn program_too_large() {
    let text = "@0\n".repeat(MAX_INSTRUCTIONS + 1);
    assert_eq!(assemble(&text), Err(AsmError::ProgramTooLarge));
}

#[test]
fn empty_address_is_malformed() {
    assert_eq!(assemble("@\n"), Err(AsmError::MalformedAddress(String::new())));
    let mut table = new_symbol_table();
    assert_eq!(table.apply_to_address(""), "");
    assert_eq!(table.apply_to_address("v"), "16");
}
