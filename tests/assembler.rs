use hack_assembler::file_handler::FileHandler;
use hack_assembler::parse_handler::ParseHandler;
use hack_assembler::source::file_cleaner;

fn assemble(text: &str) -> Vec<u16> {
    let mut handler = ParseHandler::new();
    assert!(handler.can_assemble(text));
    handler.parse_to_binary(text.to_string())
}

fn chars(s: &str) -> Vec<char> {
    s.chars().collect()
}

fn text_of(words: &[u16]) -> String {
    String::from_utf8(FileHandler::hack_bytes(&words.to_vec())).unwrap()
}

#[test]
fn literal_address_line() {
    assert_eq!(file_cleaner("@2"), vec![chars("@2")]);
    let words = assemble("@2");
    assert_eq!(words, vec![2]);
    assert_eq!(text_of(&words), "0000000000000010");
}

#[test]
fn literal_addresses_cover_the_fifteen_bit_range() {
    assert_eq!(assemble("@0"), vec![0]);
    assert_eq!(assemble("@32767"), vec![32767]);
    assert_eq!(assemble("@12345\n@007"), vec![12345, 7]);
}

#[test]
fn literal_with_plus_sign_and_out_of_range_literal() {
    assert_eq!(assemble("@+5"), vec![5]);
    assert_eq!(assemble("@65535"), vec![65535]);
    // Too large for sixteen bits: read as a variable name.
    assert_eq!(assemble("@65536\n@65536"), vec![16, 16]);
}

#[test]
fn compute_with_destination() {
    let words = assemble("D=D+1");
    assert_eq!(words, vec![0b1110011111010000]);
    assert_eq!(text_of(&words), "1110011111010000");
}

#[test]
fn label_before_jump() {
    let words = assemble("(LOOP)\n@LOOP\n0;JMP");
    assert_eq!(words, vec![0b0000000000000000, 0b1110101010000111]);
    assert_eq!(text_of(&words), "0000000000000000\n1110101010000111");
}

#[test]
fn variables_are_allocated_from_sixteen() {
    assert_eq!(assemble("@i\n@j\n@i"), vec![16, 17, 16]);
    assert_eq!(assemble("@a\n@a\n@b\n@c\n@b\n@a"), vec![16, 16, 17, 18, 17, 16]);
}

#[test]
fn comments_and_blank_lines_are_removed() {
    assert_eq!(file_cleaner("// only a comment\n\n   \n@1"), vec![chars("@1")]);
    assert_eq!(assemble("// only a comment\n\n@1\n"), vec![1]);
    assert_eq!(assemble("// only a comment\n\n"), Vec::<u16>::new());
    assert_eq!(assemble(""), Vec::<u16>::new());
}

#[test]
fn normalization_strips_spaces_comments_and_line_endings() {
    let lines = file_cleaner("  @2 // two\r\nD = M\r\n\r\n(END)//x\n\t@3");
    assert_eq!(lines, vec![chars("@2"), chars("D=M"), chars("(END)"), chars("@3")]);
    assert_eq!(file_cleaner("a/b//c"), vec![chars("a/b")]);
    assert_eq!(file_cleaner("\tD\t=\u{A0}M\u{3000}\r"), vec![chars("D=M")]);
    assert_eq!(file_cleaner("//\n//"), Vec::<Vec<char>>::new());
}

#[test]
fn whitespace_only_lines_produce_no_word() {
    assert_eq!(file_cleaner("\t\n \u{0B}\u{0C}\n\u{2003}"), Vec::<Vec<char>>::new());
    assert_eq!(assemble("\t"), Vec::<u16>::new());
    assert_eq!(assemble("\t@7\t// seven\n\t\n"), vec![7]);
}

#[test]
fn predefined_symbols() {
    assert_eq!(
        assemble("@SP\n@LCL\n@ARG\n@THIS\n@THAT\n@R0\n@R7\n@R15\n@SCREEN\n@KBD"),
        vec![0, 1, 2, 3, 4, 0, 7, 15, 16384, 24576]
    );
}

#[test]
fn label_resolves_to_first_following_instruction() {
    // X stands before D=A, the second instruction.
    let words = assemble("@5\n(X)\nD=A\nD=D+1\n@X");
    assert_eq!(words[3], 1);
    // Adjacent labels name the same instruction.
    let words = assemble("@0\n(A)\n(B)\nD=A\n@A\n@B");
    assert_eq!(&words[2..], &[1, 1]);
    // A label used before its definition.
    let words = assemble("@END\n0;JMP\n(END)\n@END\n0;JMP");
    assert_eq!(words, vec![2, 0b1110101010000111, 2, 0b1110101010000111]);
}

#[test]
fn repeated_label_keeps_its_first_binding() {
    // The second (A) binds nothing and shifts nothing, so B is bound to 2.
    assert_eq!(assemble("(A)\n@1\n(A)\n(B)\n@B\n@A"), vec![1, 2, 0]);
    // A label named like a predefined symbol leaves that symbol as it was.
    assert_eq!(assemble("@3\n(R1)\n@R1"), vec![3, 1]);
}

#[test]
fn labels_are_bound_before_variables() {
    assert_eq!(assemble("@x\n@LOOP\n(LOOP)\n@y"), vec![16, 2, 17]);
}

#[test]
fn compute_fields_and_memory_bit() {
    assert_eq!(assemble("M=M+1"), vec![0b1111110111001000]);
    assert_eq!(assemble("D=M"), vec![0b1111110000010000]);
    assert_eq!(assemble("AM=M-1"), vec![0b1111110010101000]);
    assert_eq!(assemble("AMD=D|M;JLE"), vec![0b1111010101111110]);
    assert_eq!(assemble("D;JGT"), vec![0b1110001100000001]);
    assert_eq!(assemble("MD=-1"), vec![0b1110111010011000]);
    assert_eq!(assemble("A=!A"), vec![0b1110110001100000]);
}

#[test]
fn every_destination_code() {
    let dests = ["M", "D", "MD", "A", "AM", "AD", "AMD"];
    for (i, d) in dests.iter().enumerate() {
        let word = assemble(&format!("{}=0", d))[0];
        assert_eq!((word >> 3) & 7, (i + 1) as u16);
        assert_eq!(word >> 13, 7);
        assert_eq!((word >> 6) & 63, 0b101010);
    }
}

#[test]
fn every_jump_code() {
    let jumps = ["JGT", "JEQ", "JGE", "JLT", "JNE", "JLE", "JMP"];
    for (i, j) in jumps.iter().enumerate() {
        let word = assemble(&format!("0;{}", j))[0];
        assert_eq!(word & 7, (i + 1) as u16);
        assert_eq!((word >> 3) & 7, 0);
    }
}

#[test]
fn every_computation_code() {
    let table: [(&str, u16); 28] = [
        ("0", 0b0101010),
        ("1", 0b0111111),
        ("-1", 0b0111010),
        ("D", 0b0001100),
        ("A", 0b0110000),
        ("M", 0b1110000),
        ("!D", 0b0001101),
        ("!A", 0b0110001),
        ("!M", 0b1110001),
        ("-D", 0b0001111),
        ("-A", 0b0110011),
        ("-M", 0b1110011),
        ("D+1", 0b0011111),
        ("A+1", 0b0110111),
        ("M+1", 0b1110111),
        ("D-1", 0b0001110),
        ("A-1", 0b0110010),
        ("M-1", 0b1110010),
        ("D+A", 0b0000010),
        ("D+M", 0b1000010),
        ("D-A", 0b0010011),
        ("D-M", 0b1010011),
        ("A-D", 0b0000111),
        ("M-D", 0b1000111),
        ("D&A", 0b0000000),
        ("D&M", 0b1000000),
        ("D|A", 0b0010101),
        ("D|M", 0b1010101),
    ];
    for (comp, bits) in table.iter() {
        let word = assemble(&format!("D={}", comp))[0];
        assert_eq!(word, 0b1110000000000000 | (bits << 6) | (0b010 << 3), "{}", comp);
    }
}

#[test]
fn unknown_tokens_default() {
    // An unknown computation contributes no bits: 111, a = 0, dest 010, jump 000.
    assert_eq!(assemble("D=X"), vec![0b1110010000]);
    // Unknown destination and jump tokens give zero bits.
    assert_eq!(assemble("Q=D;JXX"), vec![0b1110001100000000]);
}

#[test]
fn round_trip_of_bit_groups() {
    let word = assemble("AD=D-1;JNE")[0];
    assert_eq!((word >> 3) & 7, 0b110);
    assert_eq!(word & 7, 0b101);
    assert_eq!((word >> 6) & 63, 0b001110);
    assert_eq!((word >> 12) & 1, 0);
}

#[test]
fn text_form_of_words() {
    assert_eq!(text_of(&[]), "");
    assert_eq!(text_of(&[0]), "0000000000000000");
    assert_eq!(text_of(&[65535, 1, 32768]), "1111111111111111\n0000000000000001\n1000000000000000");
}

#[test]
fn handler_can_run_twice() {
    let mut handler = ParseHandler::new();
    assert_eq!(handler.parse_to_binary("@a\n@b".to_string()), vec![16, 17]);
    assert_eq!(handler.parse_to_binary("@c\n@a".to_string()), vec![18, 16]);
}

#[test]
fn small_program() {
    let program = "\
// Adds 1 + ... + 100
    @i
    M=1 // i=1
    @sum
    M=0 // sum=0
(LOOP)
    @i
    D=M
    @100
    D=D-A
    @END
    D;JGT
    @i
    D=M
    @sum
    M=D+M
    @i
    M=M+1
    @LOOP
    0;JMP
(END)
    @END
    0;JMP
";
    let words = assemble(program);
    let expected: Vec<u16> = vec![
        16,
        0b1110111111001000,
        17,
        0b1110101010001000,
        16,
        0b1111110000010000,
        100,
        0b1110010011010000,
        18,
        0b1110001100000001,
        16,
        0b1111110000010000,
        17,
        0b1111000010001000,
        16,
        0b1111110111001000,
        4,
        0b1110101010000111,
        18,
        0b1110101010000111,
    ];
    assert_eq!(words, expected);
}

#[test]
fn variables_numbered_in_first_use_order_in_a_mixed_program() {
    let program = "(START)\n@x\nD=M\n@5\n@y\n(MID)\n@x\n@START\n@R3\n@z\n@MID\n@y\n0;JMP";
    let words = assemble(program);
    // Labels and predefined symbols are no variables: x, y, z get 16, 17, 18.
    assert_eq!(words[0], 16);
    assert_eq!(words[2], 5);
    assert_eq!(words[3], 17);
    assert_eq!(words[4], 16);
    assert_eq!(words[5], 0);
    assert_eq!(words[6], 3);
    assert_eq!(words[7], 18);
    assert_eq!(words[8], 4);
    assert_eq!(words[9], 17);
}

#[test]
fn label_address_counts_instructions_before_it() {
    let words = assemble("@L\nD=A\n(A)\n@1\n(B)\n(L)\nM=D\n@L");
    // Three instructions come before (L): it names the fourth one.
    assert_eq!(words[0], 3);
    assert_eq!(words[4], 3);
}
