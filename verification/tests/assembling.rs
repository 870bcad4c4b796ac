use sitplc::assembler::{assemble, assemble_outcome, AssemblerError, Assembly};

fn float_bits(s: String) -> Option<u64> {
    s.parse::<f64>().ok().map(f64::to_bits)
}

fn build(src: &str) -> Result<Vec<u8>, AssemblerError> {
    assemble(src, &float_bits)
}

fn no_floats(_s: String) -> Option<u64> {
    None
}

/// The header, the data marker, the data entries, the code marker and the code.
fn file(data: &[Vec<u8>], code: &[[u8; 8]]) -> Vec<u8> {
    let mut b = vec![0x02, 0x80];
    b.extend_from_slice(&(data.len() as u16).to_le_bytes());
    b.extend_from_slice(&(code.len() as u32).to_le_bytes());
    b.extend_from_slice(&[0x01, 0x80]);
    for d in data {
        b.extend_from_slice(d);
    }
    b.extend_from_slice(&[0xFF, 0x7F]);
    for c in code {
        b.extend_from_slice(c);
    }
    b
}

/// A data entry: register, type code, and the value bytes padded to 29.
fn entry(reg: u16, typ: u8, value: &[u8]) -> Vec<u8> {
    let mut e = reg.to_le_bytes().to_vec();
    e.push(typ);
    e.extend_from_slice(value);
    e.resize(32, 0);
    e
}

#[test]
fn data_labels_and_jumps() {
    let src = ".data int 0 42\nstart:\n    ADD_I 1 2 3\n    JMP start\n    HALT 0 0 0\n";
    let bin = build(src).unwrap();
    assert_eq!(
        bin,
        file(
            &[entry(0, 1, &[42])],
            &[
                [0x01, 0, 1, 0, 2, 0, 3, 0],
                [0x60, 0, 0xFF, 0xFF, 0, 0, 0, 0],
                [0x63, 0, 0, 0, 0, 0, 0, 0],
            ]
        )
    );
    assert_eq!(bin.len(), 12 + 32 + 8 * 3);
}

#[test]
fn forward_labels_count_instructions() {
    let bin = build("JMP_FALSE 100 end\nHALT\nend:\n").unwrap();
    assert_eq!(
        bin,
        file(&[], &[[0x62, 0, 100, 0, 2, 0, 0, 0], [0x63, 0, 0, 0, 0, 0, 0, 0]])
    );
}

#[test]
fn empty_text_gives_an_empty_program() {
    assert_eq!(build("").unwrap(), file(&[], &[]));
    assert_eq!(build("; a comment\n# another\n\n   \r\n").unwrap(), file(&[], &[]));
}

#[test]
fn mnemonics_in_any_case() {
    assert_eq!(build("add_i 1 2 3").unwrap(), file(&[], &[[0x01, 0, 1, 0, 2, 0, 3, 0]]));
    assert_eq!(build("Read_Str 7").unwrap(), file(&[], &[[0x70, 0, 7, 0, 0, 0, 0, 0]]));
}

#[test]
fn every_data_type() {
    let src = ".data INT 1 -2\n.data float 2 1.5\n.data bool 3 TRUE\n.data bool 4 0\n.data string 5 \"hi there\"\n.data char 6 'A'\n.data string 7 plain\n";
    let bin = build(src).unwrap();
    assert_eq!(
        bin,
        file(
            &[
                entry(1, 1, &(-2i64).to_le_bytes()),
                entry(2, 2, &1.5f64.to_bits().to_le_bytes()),
                entry(3, 3, &[1]),
                entry(4, 3, &[0]),
                entry(5, 4, b"hi there"),
                entry(6, 5, &65u32.to_le_bytes()),
                entry(7, 4, b"plain"),
            ],
            &[]
        )
    );
    assert_eq!(bin.len(), 12 + 32 * 7);
}

#[test]
fn negative_jump_offsets_wrap() {
    assert_eq!(build("JMP -3").unwrap(), file(&[], &[[0x60, 0, 0xFD, 0xFF, 0, 0, 0, 0]]));
}

#[test]
fn parse_error_for_short_data_line() {
    assert_eq!(
        build("HALT\n.data int 0\n"),
        Err(AssemblerError::ParseError(".data requires at least 3 arguments at line 2".to_string()))
    );
}

#[test]
fn invalid_opcode() {
    assert_eq!(build("FOO 1 2 3"), Err(AssemblerError::InvalidOpcode("FOO".to_string())));
    assert_eq!(build("cmp_lt 0 1 2"), Err(AssemblerError::InvalidOpcode("CMP_LT".to_string())));
}

#[test]
fn invalid_data_type() {
    assert_eq!(build(".data qux 0 1"), Err(AssemblerError::InvalidDataType("qux".to_string())));
}

#[test]
fn label_not_found() {
    assert_eq!(build("JMP nowhere"), Err(AssemblerError::LabelNotFound("nowhere".to_string())));
}

#[test]
fn invalid_immediates() {
    assert_eq!(
        build("ADD_I 70000 0 0"),
        Err(AssemblerError::InvalidImmediate("Register number out of range: 70000".to_string()))
    );
    assert_eq!(
        build("ADD_I -1 0 0"),
        Err(AssemblerError::InvalidImmediate("Register number out of range: -1".to_string()))
    );
    assert_eq!(
        build("JMP 40000"),
        Err(AssemblerError::InvalidImmediate("Jump offset out of range: 40000".to_string()))
    );
    assert_eq!(
        build(".data int x 1"),
        Err(AssemblerError::InvalidImmediate("Invalid register number: x".to_string()))
    );
    assert_eq!(
        build(".data int 0 abc"),
        Err(AssemblerError::InvalidImmediate("Invalid int: abc".to_string()))
    );
    assert_eq!(
        build(".data bool 0 yes"),
        Err(AssemblerError::InvalidImmediate("Invalid bool: yes".to_string()))
    );
    assert_eq!(
        assemble(".data float 0 2.5", &no_floats),
        Err(AssemblerError::InvalidImmediate("Invalid float: 2.5".to_string()))
    );
}

#[test]
fn string_too_long() {
    let long = "a".repeat(29);
    assert_eq!(
        build(&format!(".data string 0 \"{}\"", long)),
        Err(AssemblerError::StringTooLong(long.clone()))
    );
    assert!(build(&format!(".data string 0 \"{}\"", "b".repeat(28))).is_ok());
}

#[test]
fn invalid_char() {
    assert_eq!(
        build(".data char 0 'ab'"),
        Err(AssemblerError::InvalidChar("Char must be a single character: ab".to_string()))
    );
    assert_eq!(
        build(".data char 0 'é'"),
        Err(AssemblerError::InvalidChar("Char must be a single character: é".to_string()))
    );
}

#[test]
fn duplicate_label() {
    assert_eq!(build("a:\nHALT\na:\n"), Err(AssemblerError::DuplicateLabel("a".to_string())));
}

#[test]
fn a_lone_quote_stops_assembly() {
    match assemble_outcome(".data string 0 \"", &float_bits) {
        Assembly::Abort(m) => assert_eq!(m, "begin <= end (1 <= 0) when slicing `\"`"),
        _ => panic!("expected a stop"),
    }
}

#[test]
fn outcome_agrees_with_assemble() {
    match assemble_outcome("HALT", &float_bits) {
        Assembly::Binary(b) => assert_eq!(b, file(&[], &[[0x63, 0, 0, 0, 0, 0, 0, 0]])),
        _ => panic!("expected a binary"),
    }
    match assemble_outcome("NOPE", &float_bits) {
        Assembly::Error(e) => assert_eq!(e, AssemblerError::InvalidOpcode("NOPE".to_string())),
        _ => panic!("expected an error"),
    }
}

#[test]
fn error_messages() {
    let cases = [
        (AssemblerError::ParseError("p".to_string()), "Parse error: p"),
        (AssemblerError::InvalidOpcode("o".to_string()), "Invalid opcode: o"),
        (AssemblerError::InvalidDataType("t".to_string()), "Invalid data type: t"),
        (AssemblerError::LabelNotFound("l".to_string()), "Label not found: l"),
        (AssemblerError::InvalidImmediate("i".to_string()), "Invalid immediate value: i"),
        (AssemblerError::StringTooLong("s".to_string()), "String too long (max 28 bytes): s"),
        (AssemblerError::InvalidChar("c".to_string()), "Invalid character: c"),
        (AssemblerError::DuplicateLabel("d".to_string()), "Duplicate label: d"),
    ];
    for (e, m) in cases.iter() {
        assert_eq!(e.message(), *m);
    }
}

#[test]
fn label_at_the_end_of_the_code() {
    assert_eq!(build("JMP end\nend:\n").unwrap(), file(&[], &[[0x60, 0, 1, 0, 0, 0, 0, 0]]));
}

#[test]
fn label_with_spaces_before_the_colon() {
    assert_eq!(
        build("  top :\n  JMP top\n").unwrap(),
        file(&[], &[[0x60, 0, 0, 0, 0, 0, 0, 0]])
    );
}

#[test]
fn header_counts_the_data_and_instruction_lines() {
    let src = "; header\n.data int 0 1\nstart:\n  add_i 1 2 3\n.data bool 1 false\n# note\n  halt\n\n  ret\n";
    let bin = build(src).unwrap();
    assert_eq!(bin.len(), 12 + 32 * 2 + 8 * 3);
    assert_eq!(&bin[2..4], &2u16.to_le_bytes());
    assert_eq!(&bin[4..8], &3u32.to_le_bytes());
    let code = &bin[12 + 64..];
    assert_eq!(&code[0..2], &[0x01, 0]);
    assert_eq!(&code[8..10], &[0x63, 0]);
    assert_eq!(&code[16..18], &[0x71, 0]);
}

#[test]
fn operand_ranges() {
    assert_eq!(
        build("JMP -32768 32767 0").unwrap(),
        file(&[], &[[0x60, 0, 0x00, 0x80, 0xFF, 0x7F, 0, 0]])
    );
    assert_eq!(
        build("JMP -32769"),
        Err(AssemblerError::InvalidImmediate("Jump offset out of range: -32769".to_string()))
    );
    assert_eq!(build("ADD_I 65535 0 1").unwrap(), file(&[], &[[0x01, 0, 0xFF, 0xFF, 0, 0, 1, 0]]));
    assert_eq!(
        build("ADD_I 0 65536 0"),
        Err(AssemblerError::InvalidImmediate("Register number out of range: 65536".to_string()))
    );
}

#[test]
fn unknown_type_name_is_kept_as_written() {
    assert_eq!(build(".data Long 0 1"), Err(AssemblerError::InvalidDataType("Long".to_string())));
    assert_eq!(build(".data CHAR 0 'a'").unwrap(), file(&[entry(0, 5, &[0x61])], &[]));
    assert_eq!(build(".data bool 0 False").unwrap(), file(&[entry(0, 3, &[])], &[]));
}
