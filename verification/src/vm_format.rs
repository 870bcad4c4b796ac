//! The VM's binary format: section markers and the instruction opcodes.

use vstd::prelude::*;
use crate::text::same_chars;

verus! {

/// Marks the start of a program file.
pub const PROG_MAGIC: i16 = -32766;

/// Marks the start of the data section.
pub const DATA_MAGIC: i16 = -32767;

/// Marks the start of the code section.
pub const CODE_MAGIC: i16 = 32767;

/// The instruction mnemonics and their opcodes, in table order.
pub open spec fn opcode_table() -> Seq<(Seq<char>, u16)> {
    seq![
        ("ADD_I"@, 0x0001u16),
        ("SUB_I"@, 0x0002u16),
        ("MUL_I"@, 0x0003u16),
        ("DIV_I"@, 0x0004u16),
        ("ADD_F"@, 0x0005u16),
        ("SUB_F"@, 0x0006u16),
        ("MUL_F"@, 0x0007u16),
        ("DIV_F"@, 0x0008u16),
        ("IF_I"@, 0x0010u16),
        ("IF_F"@, 0x0011u16),
        ("IF_CHAR"@, 0x0012u16),
        ("IF_STR"@, 0x0013u16),
        ("STR2INT"@, 0x0034u16),
        ("INT2STR"@, 0x0035u16),
        ("STR2F"@, 0x0036u16),
        ("F2STR"@, 0x0037u16),
        ("STR2BOOL"@, 0x0038u16),
        ("BOOL2STR"@, 0x0039u16),
        ("STR2CHAR"@, 0x003Au16),
        ("CHAR2STR"@, 0x003Bu16),
        ("SET_OUT_FILE"@, 0x0051u16),
        ("PRINT_STR"@, 0x0052u16),
        ("READ_STR"@, 0x0070u16),
        ("JMP"@, 0x0060u16),
        ("JMP_TRUE"@, 0x0061u16),
        ("JMP_FALSE"@, 0x0062u16),
        ("HALT"@, 0x0063u16),
        ("CALL"@, 0x0070u16),
        ("RET"@, 0x0071u16),
        ("STR_ADD"@, 0x0032u16),
    ]
}

/// The opcode of the first table entry named `m`, if any.
pub open spec fn opcode_in(table: Seq<(Seq<char>, u16)>, m: Seq<char>) -> Option<u16>
    decreases table.len(),
{
    if table.len() == 0 {
        None
    } else if table[0].0 == m {
        Some(table[0].1)
    } else {
        opcode_in(table.drop_first(), m)
    }
}

/// The opcode of a mnemonic.
pub open spec fn opcode_of(m: Seq<char>) -> Option<u16> {
    opcode_in(opcode_table(), m)
}

/// The instruction mnemonics and their opcodes, in table order.
pub fn opcodes() -> (r: Vec<(&'static str, u16)>)
    ensures
        r@.len() == opcode_table().len(),
        forall|i: int| 0 <= i < r@.len() ==> (#[trigger] r@[i]).0@ == opcode_table()[i].0 && r@[i].1
            == opcode_table()[i].1,
{
    let r = vec![
        ("ADD_I", 0x0001u16),
        ("SUB_I", 0x0002u16),
        ("MUL_I", 0x0003u16),
        ("DIV_I", 0x0004u16),
        ("ADD_F", 0x0005u16),
        ("SUB_F", 0x0006u16),
        ("MUL_F", 0x0007u16),
        ("DIV_F", 0x0008u16),
        ("IF_I", 0x0010u16),
        ("IF_F", 0x0011u16),
        ("IF_CHAR", 0x0012u16),
        ("IF_STR", 0x0013u16),
        ("STR2INT", 0x0034u16),
        ("INT2STR", 0x0035u16),
        ("STR2F", 0x0036u16),
        ("F2STR", 0x0037u16),
        ("STR2BOOL", 0x0038u16),
        ("BOOL2STR", 0x0039u16),
        ("STR2CHAR", 0x003Au16),
        ("CHAR2STR", 0x003Bu16),
        ("SET_OUT_FILE", 0x0051u16),
        ("PRINT_STR", 0x0052u16),
        ("READ_STR", 0x0070u16),
        ("JMP", 0x0060u16),
        ("JMP_TRUE", 0x0061u16),
        ("JMP_FALSE", 0x0062u16),
        ("HALT", 0x0063u16),
        ("CALL", 0x0070u16),
        ("RET", 0x0071u16),
        ("STR_ADD", 0x0032u16),
    ];
    r
}

/// The opcode of the first table entry whose mnemonic is `mnem`.
pub fn opcode_from_mnemonic(mnem: &str) -> (r: Option<u16>)
    ensures
        r == opcode_of(mnem@),
{
    let table = opcodes();
    let m = crate::text::chars_of(mnem);
    let mut i: usize = 0;
    assert(opcode_table().skip(0) == opcode_table());
    while i < table.len()
        invariant
            i <= table@.len(),
            table@.len() == opcode_table().len(),
            m@ == mnem@,
            forall|k: int| 0 <= k < table@.len() ==> (#[trigger] table@[k]).0@ == opcode_table()[k].0
                && table@[k].1 == opcode_table()[k].1,
            opcode_in(opcode_table().skip(i as int), mnem@) == opcode_of(mnem@),
        decreases table.len() - i,
    {
        let ghost rest = opcode_table().skip(i as int);
        assert(rest[0] == opcode_table()[i as int]);
        assert(rest.drop_first() == opcode_table().skip(i + 1));
        if same_chars(m.as_slice(), table[i].0) {
            return Some(table[i].1);
        }
        i += 1;
    }
    None
}

/// No two entries of the opcode table share a mnemonic.
pub open spec fn names_distinct(table: Seq<(Seq<char>, u16)>) -> bool {
    forall|i: int, j: int|
        0 <= i < j < table.len() ==> #[trigger] table[i].0 != #[trigger] table[j].0
}

proof fn lemma_table_names_distinct()
    ensures
        names_distinct(opcode_table()),
{
    let t = opcode_table();
    assert forall|i: int, j: int| 0 <= i < j < t.len() implies #[trigger] t[i].0 != #[trigger] t[j].0 by {
        reveal_strlit("ADD_I");
        reveal_strlit("SUB_I");
        reveal_strlit("MUL_I");
        reveal_strlit("DIV_I");
        reveal_strlit("ADD_F");
        reveal_strlit("SUB_F");
        reveal_strlit("MUL_F");
        reveal_strlit("DIV_F");
        reveal_strlit("IF_I");
        reveal_strlit("IF_F");
        reveal_strlit("IF_CHAR");
        reveal_strlit("IF_STR");
        reveal_strlit("STR2INT");
        reveal_strlit("INT2STR");
        reveal_strlit("STR2F");
        reveal_strlit("F2STR");
        reveal_strlit("STR2BOOL");
        reveal_strlit("BOOL2STR");
        reveal_strlit("STR2CHAR");
        reveal_strlit("CHAR2STR");
        reveal_strlit("SET_OUT_FILE");
        reveal_strlit("PRINT_STR");
        reveal_strlit("READ_STR");
        reveal_strlit("JMP");
        reveal_strlit("JMP_TRUE");
        reveal_strlit("JMP_FALSE");
        reveal_strlit("HALT");
        reveal_strlit("CALL");
        reveal_strlit("RET");
        reveal_strlit("STR_ADD");
        if t[i].0 == t[j].0 {
            assert(t[i].0.len() == t[j].0.len());
            assert(t[i].0[0] == t[j].0[0]);
            assert(t[i].0[t[i].0.len() - 1] == t[j].0[t[j].0.len() - 1]);
            assert(t[i].0[1] == t[j].0[1]);
            assert(t[i].0[2] == t[j].0[2]);
            assert(t[i].0[3] == t[j].0[3]);
            assert(t[i].0[4] == t[j].0[4]);
            assert(t[i].0[5] == t[j].0[5]);
        }
    }
}

proof fn lemma_opcode_in(table: Seq<(Seq<char>, u16)>, m: Seq<char>, c: u16)
    requires
        names_distinct(table),
    ensures
        opcode_in(table, m) == Some(c) <==> exists|i: int| 0 <= i < table.len() && #[trigger] table[i] == (m, c),
    decreases table.len(),
{
    if table.len() > 0 {
        let rest = table.drop_first();
        assert forall|i: int, j: int| 0 <= i < j < rest.len() implies #[trigger] rest[i].0 != #[trigger] rest[j].0 by {
            assert(rest[i] == table[i + 1] && rest[j] == table[j + 1]);
        }
        lemma_opcode_in(rest, m, c);
        if opcode_in(table, m) == Some(c) {
            if table[0].0 == m {
                assert(table[0] == (m, c));
            } else {
                let i = choose|i: int| 0 <= i < rest.len() && #[trigger] rest[i] == (m, c);
                assert(table[i + 1] == (m, c));
            }
        }
        if exists|i: int| 0 <= i < table.len() && #[trigger] table[i] == (m, c) {
            let i = choose|i: int| 0 <= i < table.len() && #[trigger] table[i] == (m, c);
            if i > 0 {
                if table[0].0 == m {
                    assert(table[0].0 != table[i].0);
                }
                assert(rest[i - 1] == (m, c));
            }
        }
    }
}

/// The opcode table names each mnemonic once, so a lookup finds exactly the
/// table's pair: `opcode_of(m)` is `Some(c)` exactly when `(m, c)` is an
/// entry (names compared exactly, case included), and `None` exactly when no
/// entry is named `m`.
pub proof fn law_opcode_lookup(m: Seq<char>, c: u16)
    ensures
        names_distinct(opcode_table()),
        opcode_of(m) == Some(c) <==> exists|i: int|
            0 <= i < opcode_table().len() && #[trigger] opcode_table()[i] == (m, c),
        opcode_of(m) is None <==> forall|i: int|
            0 <= i < opcode_table().len() ==> #[trigger] opcode_table()[i].0 != m,
{
    lemma_table_names_distinct();
    lemma_opcode_in(opcode_table(), m, c);
    if opcode_of(m) is Some {
        let c2 = opcode_of(m)->0;
        lemma_opcode_in(opcode_table(), m, c2);
        let i = choose|i: int| 0 <= i < opcode_table().len() && #[trigger] opcode_table()[i] == (m, c2);
        assert(opcode_table()[i].0 == m);
    } else {
        assert forall|i: int| 0 <= i < opcode_table().len() implies #[trigger] opcode_table()[i].0 != m by {
            if opcode_table()[i].0 == m {
                lemma_opcode_in(opcode_table(), m, opcode_table()[i].1);
            }
        }
    }
}

} // verus!
