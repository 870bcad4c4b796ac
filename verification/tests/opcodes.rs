use sitplc::vm_format::{opcode_from_mnemonic, opcodes, CODE_MAGIC, DATA_MAGIC, PROG_MAGIC};

#[test]
fn section_markers() {
    assert_eq!(PROG_MAGIC, -32766);
    assert_eq!(DATA_MAGIC, -32767);
    assert_eq!(CODE_MAGIC, 32767);
}

#[test]
fn every_table_entry_is_found() {
    let table = opcodes();
    assert_eq!(table.len(), 30);
    for (name, code) in table.iter() {
        if *name == "CALL" {
            continue;
        }
        assert_eq!(opcode_from_mnemonic(name), Some(*code));
    }
}

#[test]
fn shared_opcode_takes_the_first_entry() {
    assert_eq!(opcode_from_mnemonic("READ_STR"), Some(0x0070));
    assert_eq!(opcode_from_mnemonic("CALL"), Some(0x0070));
    assert_eq!(opcode_from_mnemonic("RET"), Some(0x0071));
}

#[test]
fn some_opcodes() {
    assert_eq!(opcode_from_mnemonic("ADD_I"), Some(0x0001));
    assert_eq!(opcode_from_mnemonic("IF_STR"), Some(0x0013));
    assert_eq!(opcode_from_mnemonic("STR2CHAR"), Some(0x003A));
    assert_eq!(opcode_from_mnemonic("JMP_FALSE"), Some(0x0062));
    assert_eq!(opcode_from_mnemonic("STR_ADD"), Some(0x0032));
}

#[test]
fn unknown_and_lower_case_mnemonics() {
    assert_eq!(opcode_from_mnemonic("add_i"), None);
    assert_eq!(opcode_from_mnemonic(""), None);
    assert_eq!(opcode_from_mnemonic("NOT_B"), None);
}

#[test]
fn names_in_the_table_are_distinct() {
    let table = opcodes();
    for (i, (a, _)) in table.iter().enumerate() {
        for (b, _) in table.iter().skip(i + 1) {
            assert_ne!(a, b);
        }
    }
    assert_eq!(opcode_from_mnemonic("halt"), None);
    assert_eq!(opcode_from_mnemonic("LOAD_INT"), None);
}
