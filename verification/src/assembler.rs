//! The assembler: turns VM assembly text into the VM's binary format.
//!
//! A source line is, after trimming white space, empty or a comment (`;` or
//! `#`), a label (`name:`), a data directive (`.data TYPE REG VALUE...`), or
//! an instruction (`MNEMONIC [DST [SRC1 [SRC2]]]`). Labels name the index of
//! the next instruction; an operand that is not a number is a label, and
//! stands for the distance from the current instruction to it.

use vstd::prelude::*;
use vstd::string::*;
use vstd::utf8::encode_utf8;
use crate::lexer::decimal_value;
use crate::text::{
    chars_eq, chars_of, dec_int, dec_nat, digit, digit_value, is_digit, is_white, lower_text,
    owned, push_char, push_i128, push_i64, push_str, push_usize, same_chars, text_of, text_of_slice,
    to_lower, to_upper, upper_text, whitespace,
};
use crate::vm_format::{opcode_from_mnemonic, opcode_of, CODE_MAGIC, DATA_MAGIC, PROG_MAGIC};

verus! {

broadcast use vstd::string::group_string_axioms;

// ---------------------------------------------------------------------------
// Errors.
// ---------------------------------------------------------------------------

/// Why assembly failed.
#[derive(Debug, Clone, PartialEq)]
pub enum AssemblerError {
    ParseError(String),
    InvalidOpcode(String),
    InvalidDataType(String),
    LabelNotFound(String),
    InvalidImmediate(String),
    StringTooLong(String),
    InvalidChar(String),
    DuplicateLabel(String),
}

/// An assembler error with its text as a character sequence.
pub enum AsmErrorV {
    ParseError(Seq<char>),
    InvalidOpcode(Seq<char>),
    InvalidDataType(Seq<char>),
    LabelNotFound(Seq<char>),
    InvalidImmediate(Seq<char>),
    StringTooLong(Seq<char>),
    InvalidChar(Seq<char>),
    DuplicateLabel(Seq<char>),
}

impl View for AssemblerError {
    type V = AsmErrorV;

    open spec fn view(&self) -> AsmErrorV {
        match self {
            AssemblerError::ParseError(s) => AsmErrorV::ParseError(s@),
            AssemblerError::InvalidOpcode(s) => AsmErrorV::InvalidOpcode(s@),
            AssemblerError::InvalidDataType(s) => AsmErrorV::InvalidDataType(s@),
            AssemblerError::LabelNotFound(s) => AsmErrorV::LabelNotFound(s@),
            AssemblerError::InvalidImmediate(s) => AsmErrorV::InvalidImmediate(s@),
            AssemblerError::StringTooLong(s) => AsmErrorV::StringTooLong(s@),
            AssemblerError::InvalidChar(s) => AsmErrorV::InvalidChar(s@),
            AssemblerError::DuplicateLabel(s) => AsmErrorV::DuplicateLabel(s@),
        }
    }
}

/// The text that describes an error.
pub open spec fn error_message(e: AsmErrorV) -> Seq<char> {
    match e {
        AsmErrorV::ParseError(s) => "Parse error: "@ + s,
        AsmErrorV::InvalidOpcode(s) => "Invalid opcode: "@ + s,
        AsmErrorV::InvalidDataType(s) => "Invalid data type: "@ + s,
        AsmErrorV::LabelNotFound(s) => "Label not found: "@ + s,
        AsmErrorV::InvalidImmediate(s) => "Invalid immediate value: "@ + s,
        AsmErrorV::StringTooLong(s) => "String too long (max 28 bytes): "@ + s,
        AsmErrorV::InvalidChar(s) => "Invalid character: "@ + s,
        AsmErrorV::DuplicateLabel(s) => "Duplicate label: "@ + s,
    }
}

impl AssemblerError {
    /// The text that describes the error.
    pub fn message(&self) -> (r: String)
        ensures
            r@ == error_message(self@),
    {
        let (head, s) = match self {
            AssemblerError::ParseError(s) => ("Parse error: ", s),
            AssemblerError::InvalidOpcode(s) => ("Invalid opcode: ", s),
            AssemblerError::InvalidDataType(s) => ("Invalid data type: ", s),
            AssemblerError::LabelNotFound(s) => ("Label not found: ", s),
            AssemblerError::InvalidImmediate(s) => ("Invalid immediate value: ", s),
            AssemblerError::StringTooLong(s) => ("String too long (max 28 bytes): ", s),
            AssemblerError::InvalidChar(s) => ("Invalid character: ", s),
            AssemblerError::DuplicateLabel(s) => ("Duplicate label: ", s),
        };
        let mut m = owned(head);
        push_str(&mut m, s.as_str());
        m
    }
}

// ---------------------------------------------------------------------------
// Text: lines, trimming, words, numerals.
// ---------------------------------------------------------------------------

/// The index of the first line feed at or after `i`, or the end of the text.
pub open spec fn line_end(cs: Seq<char>, i: int) -> int
    decreases cs.len() - i,
{
    if 0 <= i < cs.len() && cs[i] != '\n' {
        line_end(cs, i + 1)
    } else {
        i
    }
}

/// The lines of a text from `i` on, as `str::lines` yields them: split at
/// line feeds, with a carriage return before a line feed dropped, and no
/// empty line after a final line feed.
pub open spec fn lines_from(cs: Seq<char>, i: int) -> Seq<Seq<char>>
    decreases cs.len() - i,
{
    if i < 0 || i >= cs.len() {
        Seq::empty()
    } else {
        let e = line_end(cs, i);
        let raw = cs.subrange(i, e);
        let line = if e < cs.len() && raw.len() > 0 && raw.last() == '\r' {
            raw.drop_last()
        } else {
            raw
        };
        proof {
            lemma_line_end(cs, i);
        }
        if e < cs.len() {
            seq![line] + lines_from(cs, e + 1)
        } else {
            seq![line]
        }
    }
}

pub proof fn lemma_line_end(cs: Seq<char>, i: int)
    requires
        0 <= i <= cs.len(),
    ensures
        i <= line_end(cs, i) <= cs.len(),
        line_end(cs, i) < cs.len() ==> cs[line_end(cs, i)] == '\n',
        forall|j: int| i <= j < line_end(cs, i) ==> cs[j] != '\n',
    decreases cs.len() - i,
{
    if i < cs.len() && cs[i] != '\n' {
        lemma_line_end(cs, i + 1);
    }
}

/// The index of the first character at or after `i` that is not white space.
pub open spec fn skip_white(s: Seq<char>, i: int) -> int
    decreases s.len() - i,
{
    if 0 <= i < s.len() && is_white(s[i]) {
        skip_white(s, i + 1)
    } else {
        i
    }
}

/// The index just after the last character before `j` that is not white
/// space (zero when there is none).
pub open spec fn skip_white_back(s: Seq<char>, j: int) -> int
    decreases j,
{
    if 0 < j <= s.len() && is_white(s[j - 1]) {
        skip_white_back(s, j - 1)
    } else {
        j
    }
}

/// A text without its leading and trailing white space (`str::trim`).
pub open spec fn trim(s: Seq<char>) -> Seq<char> {
    let a = skip_white(s, 0);
    if a >= s.len() {
        Seq::empty()
    } else {
        s.subrange(a, skip_white_back(s, s.len() as int))
    }
}

/// The index of the first white-space character at or after `i`, or the end.
pub open spec fn word_end(s: Seq<char>, i: int) -> int
    decreases s.len() - i,
{
    if 0 <= i < s.len() && !is_white(s[i]) {
        word_end(s, i + 1)
    } else {
        i
    }
}

pub proof fn lemma_skip_white(s: Seq<char>, i: int)
    requires
        0 <= i <= s.len(),
    ensures
        i <= skip_white(s, i) <= s.len(),
        skip_white(s, i) < s.len() ==> !is_white(s[skip_white(s, i)]),
        forall|j: int| i <= j < skip_white(s, i) ==> is_white(#[trigger] s[j]),
    decreases s.len() - i,
{
    if i < s.len() && is_white(s[i]) {
        lemma_skip_white(s, i + 1);
    }
}

pub proof fn lemma_word_end(s: Seq<char>, i: int)
    requires
        0 <= i <= s.len(),
    ensures
        i <= word_end(s, i) <= s.len(),
        word_end(s, i) < s.len() ==> is_white(s[word_end(s, i)]),
        forall|j: int| i <= j < word_end(s, i) ==> !is_white(#[trigger] s[j]),
    decreases s.len() - i,
{
    if i < s.len() && !is_white(s[i]) {
        lemma_word_end(s, i + 1);
    }
}

/// The words of a text from `i` on: its maximal runs of characters that are
/// not white space (`str::split_whitespace`).
pub open spec fn words_from(s: Seq<char>, i: int) -> Seq<Seq<char>>
    decreases s.len() - i,
{
    if i < 0 || i > s.len() {
        Seq::empty()
    } else {
        let j = skip_white(s, i);
        proof {
            lemma_skip_white(s, i);
        }
        if j >= s.len() {
            Seq::empty()
        } else {
            let k = word_end(s, j);
            proof {
                lemma_word_end(s, j);
            }
            seq![s.subrange(j, k)] + words_from(s, k)
        }
    }
}

pub open spec fn words(s: Seq<char>) -> Seq<Seq<char>> {
    words_from(s, 0)
}

/// Words joined with single spaces between them.
pub open spec fn join_words(ws: Seq<Seq<char>>) -> Seq<char>
    decreases ws.len(),
{
    if ws.len() == 0 {
        Seq::empty()
    } else if ws.len() == 1 {
        ws[0]
    } else {
        join_words(ws.drop_last()) + seq![' '] + ws.last()
    }
}

/// Whether every character is an ASCII digit.
pub open spec fn all_digits(s: Seq<char>) -> bool {
    forall|i: int| 0 <= i < s.len() ==> is_digit(#[trigger] s[i])
}

/// The number a text spells as an unsigned integer: an optional `+` and one
/// or more ASCII digits (`u16::from_str` and the like, before the range check).
pub open spec fn unsigned_numeral(s: Seq<char>) -> Option<nat> {
    let d = if s.len() > 0 && s[0] == '+' {
        s.drop_first()
    } else {
        s
    };
    if d.len() > 0 && all_digits(d) {
        Some(decimal_value(d))
    } else {
        None
    }
}

/// The number a text spells as a signed integer: an optional `+` or `-` and
/// one or more ASCII digits (`i64::from_str` and the like, before the range
/// check).
pub open spec fn signed_numeral(s: Seq<char>) -> Option<int> {
    let neg = s.len() > 0 && s[0] == '-';
    let d = if s.len() > 0 && (s[0] == '+' || s[0] == '-') {
        s.drop_first()
    } else {
        s
    };
    if d.len() > 0 && all_digits(d) {
        Some(
            if neg {
                -decimal_value(d)
            } else {
                decimal_value(d) as int
            },
        )
    } else {
        None
    }
}

/// What `str::parse::<u16>` accepts.
pub open spec fn parse_u16(s: Seq<char>) -> Option<u16> {
    match unsigned_numeral(s) {
        Some(n) => if n <= u16::MAX {
            Some(n as u16)
        } else {
            None
        },
        None => None,
    }
}

/// What `str::parse::<i64>` accepts.
pub open spec fn parse_i64(s: Seq<char>) -> Option<i64> {
    match signed_numeral(s) {
        Some(n) => if i64::MIN <= n <= i64::MAX {
            Some(n as i64)
        } else {
            None
        },
        None => None,
    }
}

// ---------------------------------------------------------------------------
// Little-endian encodings.
// ---------------------------------------------------------------------------

/// The `k` low bytes of `v`, least significant first.
pub open spec fn le_bytes(v: nat, k: nat) -> Seq<u8>
    decreases k,
{
    if k == 0 {
        Seq::empty()
    } else {
        seq![(v % 256) as u8] + le_bytes(v / 256, (k - 1) as nat)
    }
}

/// The two bytes of a 16-bit value in two's complement (`v` within `i16`/`u16` range).
pub open spec fn le16(v: int) -> Seq<u8> {
    le_bytes(
        if v < 0 {
            (v + 0x1_0000) as nat
        } else {
            v as nat
        },
        2,
    )
}

pub open spec fn zeros(n: nat) -> Seq<u8> {
    Seq::new(n, |i: int| 0u8)
}

// ---------------------------------------------------------------------------
// Data values.
// ---------------------------------------------------------------------------

/// A data value packed into 29 bytes, with its type code; or an error; or a stop.
pub enum Packed {
    Value(u8, Seq<u8>),
    Error(AsmErrorV),
    Abort(Seq<char>),
}

/// The message of slicing a one-character quote `q` from 1 to 0.
pub open spec fn slice_panic(q: char) -> Seq<char> {
    "begin <= end (1 <= 0) when slicing `"@ + seq![q] + "`"@
}

/// A text without the quotes `q` around it (when it starts and ends with
/// one); `None` for a lone quote, which cannot be sliced that way.
pub open spec fn unquote(s: Seq<char>, q: char) -> Option<Seq<char>> {
    if s.len() > 0 && s[0] == q && s.last() == q {
        if s.len() == 1 {
            None
        } else {
            Some(s.subrange(1, s.len() - 1))
        }
    } else {
        Some(s)
    }
}

/// The packing of a value of the given type (compared in lower case): an
/// `int` as its 8 little-endian bytes (code 1), a `float` as the 8 bytes of
/// the bits that `float_bits` gives for its text (code 2), a `bool`
/// (`true`/`1`/`false`/`0`, in any case) as one byte (code 3), a `string`
/// (quotes dropped) as its UTF-8 bytes, at most 28 (code 4), a `char`
/// (quotes dropped) of one byte as its 4-byte code point (code 5); the rest
/// of the 29 bytes are zero.
pub open spec fn pack_in(typ: Seq<char>, value: Seq<char>, float_bits: spec_fn(Seq<char>) -> Option<u64>) -> Packed {
    let t = lower_text(typ);
    if t == "int"@ {
        match parse_i64(value) {
            Some(v) => Packed::Value(1, le_i64(v) + zeros(21)),
            None => Packed::Error(AsmErrorV::InvalidImmediate("Invalid int: "@ + value)),
        }
    } else if t == "float"@ {
        match float_bits(value) {
            Some(b) => Packed::Value(2, le_bytes(b as nat, 8) + zeros(21)),
            None => Packed::Error(AsmErrorV::InvalidImmediate("Invalid float: "@ + value)),
        }
    } else if t == "bool"@ {
        let v = lower_text(value);
        if v == "true"@ || v == "1"@ {
            Packed::Value(3, seq![1u8] + zeros(28))
        } else if v == "false"@ || v == "0"@ {
            Packed::Value(3, zeros(29))
        } else {
            Packed::Error(AsmErrorV::InvalidImmediate("Invalid bool: "@ + value))
        }
    } else if t == "string"@ {
        match unquote(value, '"') {
            None => Packed::Abort(slice_panic('"')),
            Some(s) => {
                let b = encode_utf8(s);
                if b.len() > 28 {
                    Packed::Error(AsmErrorV::StringTooLong(s))
                } else {
                    Packed::Value(4, b + zeros((29 - b.len()) as nat))
                }
            },
        }
    } else if t == "char"@ {
        match unquote(value, '\'') {
            None => Packed::Abort(slice_panic('\'')),
            Some(s) => if encode_utf8(s).len() != 1 {
                Packed::Error(AsmErrorV::InvalidChar("Char must be a single character: "@ + s))
            } else {
                Packed::Value(5, le_bytes(s[0] as u32 as nat, 4) + zeros(25))
            },
        }
    } else {
        Packed::Error(AsmErrorV::InvalidDataType(typ))
    }
}

/// The 8 little-endian bytes of a 64-bit value in two's complement.
pub open spec fn le_i64(v: i64) -> Seq<u8> {
    le_bytes(
        if v < 0 {
            (v + 0x1_0000_0000_0000_0000int) as nat
        } else {
            v as nat
        },
        8,
    )
}

// ---------------------------------------------------------------------------
// The first pass: labels, data and instructions.
// ---------------------------------------------------------------------------

/// An instruction as written: its mnemonic (in upper case) and three
/// operands (`0` where missing).
pub struct InsV {
    pub mnemonic: Seq<char>,
    pub dst: Seq<char>,
    pub src1: Seq<char>,
    pub src2: Seq<char>,
}

/// A data entry: register, type code and the 29 packed bytes.
pub struct DataV {
    pub reg: u16,
    pub typ: u8,
    pub value: Seq<u8>,
}

/// What the first pass has collected: the labels (name and instruction
/// index, in order of appearance, each name once), the data entries and the
/// instructions.
pub struct Listing {
    pub labels: Seq<(Seq<char>, nat)>,
    pub data: Seq<DataV>,
    pub ins: Seq<InsV>,
}

pub enum Pass {
    Next(Listing),
    Error(AsmErrorV),
    Abort(Seq<char>),
}

/// The instruction index a label names (the first entry with that name).
pub open spec fn label_target(labels: Seq<(Seq<char>, nat)>, name: Seq<char>) -> Option<nat>
    decreases labels.len(),
{
    if labels.len() == 0 {
        None
    } else if labels[0].0 == name {
        Some(labels[0].1)
    } else {
        label_target(labels.drop_first(), name)
    }
}

pub open spec fn starts_with(s: Seq<char>, p: Seq<char>) -> bool {
    s.len() >= p.len() && s.take(p.len() as int) == p
}

/// The `i`-th word, or `0` when there are fewer words.
pub open spec fn operand(parts: Seq<Seq<char>>, i: int) -> Seq<char> {
    if parts.len() > i {
        parts[i]
    } else {
        "0"@
    }
}

/// The first pass over line `n` (counted from zero).
pub open spec fn pass_line(
    st: Listing,
    n: nat,
    raw: Seq<char>,
    float_bits: spec_fn(Seq<char>) -> Option<u64>,
) -> Pass {
    let line = trim(raw);
    if line.len() == 0 || line[0] == ';' || line[0] == '#' {
        Pass::Next(st)
    } else if line.last() == ':' {
        let label = trim(line.drop_last());
        if label_target(st.labels, label) is Some {
            Pass::Error(AsmErrorV::DuplicateLabel(label))
        } else {
            Pass::Next(Listing { labels: st.labels.push((label, st.ins.len())), ..st })
        }
    } else if starts_with(line, ".data"@) {
        let parts = words(line);
        if parts.len() < 4 {
            Pass::Error(
                AsmErrorV::ParseError(
                    ".data requires at least 3 arguments at line "@ + dec_nat(n + 1),
                ),
            )
        } else {
            match parse_u16(parts[2]) {
                None => Pass::Error(
                    AsmErrorV::InvalidImmediate("Invalid register number: "@ + parts[2]),
                ),
                Some(reg) => match pack_in(parts[1], join_words(parts.skip(3)), float_bits) {
                    Packed::Value(typ, value) => Pass::Next(
                        Listing { data: st.data.push(DataV { reg, typ, value }), ..st },
                    ),
                    Packed::Error(e) => Pass::Error(e),
                    Packed::Abort(m) => Pass::Abort(m),
                },
            }
        }
    } else {
        let parts = words(line);
        if parts.len() == 0 {
            Pass::Next(st)
        } else {
            let ins = InsV {
                mnemonic: upper_text(parts[0]),
                dst: operand(parts, 1),
                src1: operand(parts, 2),
                src2: operand(parts, 3),
            };
            Pass::Next(Listing { ins: st.ins.push(ins), ..st })
        }
    }
}

/// The first pass over the lines from the `n`-th on.
pub open spec fn pass_lines(
    st: Listing,
    lines: Seq<Seq<char>>,
    n: nat,
    float_bits: spec_fn(Seq<char>) -> Option<u64>,
) -> Pass
    decreases lines.len() - n,
{
    if n >= lines.len() {
        Pass::Next(st)
    } else {
        match pass_line(st, n, lines[n as int], float_bits) {
            Pass::Next(st1) => pass_lines(st1, lines, n + 1, float_bits),
            other => other,
        }
    }
}

// ---------------------------------------------------------------------------
// The second pass: encoding instructions.
// ---------------------------------------------------------------------------

/// The 16-bit value of an operand of the instruction at index `ip`: a number
/// (within `i16` for a jump, within `u16` otherwise), else the distance from
/// `ip` to the label it names (within `i16`).
pub open spec fn resolve(
    op: Seq<char>,
    ip: nat,
    jump: bool,
    labels: Seq<(Seq<char>, nat)>,
) -> Result<Seq<u8>, AsmErrorV> {
    if op.len() == 0 {
        Ok(le16(0))
    } else {
        match parse_i64(op) {
            Some(num) => if jump {
                if num < i16::MIN || num > i16::MAX {
                    Err(
                        AsmErrorV::InvalidImmediate(
                            "Jump offset out of range: "@ + dec_int(num as int),
                        ),
                    )
                } else {
                    Ok(le16(num as int))
                }
            } else {
                if num < 0 || num > u16::MAX {
                    Err(
                        AsmErrorV::InvalidImmediate(
                            "Register number out of range: "@ + dec_int(num as int),
                        ),
                    )
                } else {
                    Ok(le16(num as int))
                }
            },
            None => match label_target(labels, op) {
                Some(t) => {
                    let offset = t - ip;
                    if offset < i16::MIN || offset > i16::MAX {
                        Err(
                            AsmErrorV::InvalidImmediate(
                                "Jump offset too large for label "@ + op + ": "@ + dec_int(offset),
                            ),
                        )
                    } else {
                        Ok(le16(offset))
                    }
                },
                None => Err(AsmErrorV::LabelNotFound(op)),
            },
        }
    }
}

/// Whether a mnemonic is a jump: it starts with `JMP`.
pub open spec fn is_jump(m: Seq<char>) -> bool {
    starts_with(m, "JMP"@)
}

/// The 8 bytes of the instruction at index `ip`: its opcode and its three
/// operands, each 16 bits little-endian.
pub open spec fn encode_ins(ins: InsV, ip: nat, labels: Seq<(Seq<char>, nat)>) -> Result<
    Seq<u8>,
    AsmErrorV,
> {
    match opcode_of(ins.mnemonic) {
        None => Err(AsmErrorV::InvalidOpcode(ins.mnemonic)),
        Some(code) => {
            let jump = is_jump(ins.mnemonic);
            match resolve(ins.dst, ip, jump, labels) {
                Err(e) => Err(e),
                Ok(d) => match resolve(ins.src1, ip, jump, labels) {
                    Err(e) => Err(e),
                    Ok(s1) => match resolve(ins.src2, ip, jump, labels) {
                        Err(e) => Err(e),
                        Ok(s2) => Ok(le16(code as int) + d + s1 + s2),
                    },
                },
            }
        },
    }
}

/// The code of the instructions from index `i` on, after `acc`.
pub open spec fn encode_from(
    ins: Seq<InsV>,
    i: nat,
    labels: Seq<(Seq<char>, nat)>,
    acc: Seq<u8>,
) -> Result<Seq<u8>, AsmErrorV>
    decreases ins.len() - i,
{
    if i >= ins.len() {
        Ok(acc)
    } else {
        match encode_ins(ins[i as int], i, labels) {
            Err(e) => Err(e),
            Ok(b) => encode_from(ins, i + 1, labels, acc + b),
        }
    }
}

/// The bytes of the data entries from index `i` on, after `acc`: each its
/// register (16 bits), type code and 29 value bytes.
pub open spec fn data_bytes(data: Seq<DataV>, i: nat, acc: Seq<u8>) -> Seq<u8>
    decreases data.len() - i,
{
    if i >= data.len() {
        acc
    } else {
        let d = data[i as int];
        data_bytes(data, i + 1, acc + le16(d.reg as int) + seq![d.typ] + d.value)
    }
}

/// The outcome of assembling: the binary, an error, or a stop.
pub enum Assembled {
    Binary(Seq<u8>),
    Error(AsmErrorV),
    Abort(Seq<char>),
}

/// The binary of an assembly text: the program marker, the number of data
/// entries (16 bits) and of instructions (32 bits); the data marker and the
/// data entries; the code marker and the code. All numbers little-endian.
pub open spec fn assemble_in(source: Seq<char>, float_bits: spec_fn(Seq<char>) -> Option<u64>) -> Assembled {
    let empty = Listing { labels: Seq::empty(), data: Seq::empty(), ins: Seq::empty() };
    match pass_lines(empty, lines_from(source, 0), 0, float_bits) {
        Pass::Error(e) => Assembled::Error(e),
        Pass::Abort(m) => Assembled::Abort(m),
        Pass::Next(st) => match encode_from(st.ins, 0, st.labels, Seq::empty()) {
            Err(e) => Assembled::Error(e),
            Ok(code) => Assembled::Binary(binary_of(st, code)),
        },
    }
}

/// The file for a listing with the given code: the program marker, the
/// number of data entries (16 bits, wrapping) and of instructions (32 bits,
/// wrapping); the data marker and the data entries; the code marker and the
/// code.
pub open spec fn binary_of(st: Listing, code: Seq<u8>) -> Seq<u8> {
    le16(PROG_MAGIC as int) + le_bytes(st.data.len() % 0x1_0000, 2) + le_bytes(
        st.ins.len() % 0x1_0000_0000,
        4,
    ) + le16(DATA_MAGIC as int) + data_bytes(st.data, 0, Seq::empty()) + le16(CODE_MAGIC as int)
        + code
}

proof fn lemma_data_bytes_acc(data: Seq<DataV>, i: nat, acc: Seq<u8>)
    ensures
        data_bytes(data, i, acc) == acc + data_bytes(data, i, Seq::empty()),
    decreases data.len() - i,
{
    if i < data.len() {
        let d = data[i as int];
        let item = le16(d.reg as int) + seq![d.typ] + d.value;
        lemma_data_bytes_acc(data, i + 1, acc + le16(d.reg as int) + seq![d.typ] + d.value);
        lemma_data_bytes_acc(data, i + 1, Seq::empty() + le16(d.reg as int) + seq![d.typ] + d.value);
        assert(acc + le16(d.reg as int) + seq![d.typ] + d.value =~= acc + item);
        assert(Seq::<u8>::empty() + le16(d.reg as int) + seq![d.typ] + d.value =~= item);
        assert(acc + item + data_bytes(data, i + 1, Seq::empty()) =~= acc + (item + data_bytes(
            data,
            i + 1,
            Seq::empty(),
        )));
    } else {
        assert(acc + Seq::<u8>::empty() =~= acc);
    }
}

// ---------------------------------------------------------------------------
// Executable text helpers.
// ---------------------------------------------------------------------------

pub open spec fn rows(v: Seq<Vec<char>>) -> Seq<Seq<char>> {
    v.map_values(|x: Vec<char>| x@)
}

proof fn lemma_rows_push(v: Seq<Vec<char>>, x: Vec<char>)
    ensures
        rows(v.push(x)) == rows(v).push(x@),
{
    assert(rows(v.push(x)) =~= rows(v).push(x@));
}

fn sub_chars(cs: &Vec<char>, from: usize, to: usize) -> (r: Vec<char>)
    requires
        from <= to <= cs.len(),
    ensures
        r@ == cs@.subrange(from as int, to as int),
{
    let mut r: Vec<char> = Vec::new();
    let mut i = from;
    while i < to
        invariant
            from <= i <= to <= cs.len(),
            r@ == cs@.subrange(from as int, i as int),
        decreases to - i,
    {
        r.push(cs[i]);
        i += 1;
        assert(r@ == cs@.subrange(from as int, i as int));
    }
    r
}

/// The lines of a text (see `lines_from`).
fn source_lines(cs: &Vec<char>) -> (r: Vec<Vec<char>>)
    ensures
        rows(r@) == lines_from(cs@, 0),
{
    let n = cs.len();
    let mut lines: Vec<Vec<char>> = Vec::new();
    let mut i: usize = 0;
    assert(rows(lines@) + lines_from(cs@, 0) =~= lines_from(cs@, 0));
    while i < n
        invariant
            n == cs@.len(),
            i <= n,
            rows(lines@) + lines_from(cs@, i as int) == lines_from(cs@, 0),
        decreases n - i,
    {
        let mut e = i;
        while e < n && cs[e] != '\n'
            invariant
                i <= e <= n,
                n == cs@.len(),
                line_end(cs@, e as int) == line_end(cs@, i as int),
            decreases n - e,
        {
            e += 1;
        }
        let mut line = sub_chars(cs, i, e);
        if e < n && line.len() > 0 && line[line.len() - 1] == '\r' {
            line.pop();
        }
        let ghost old_lines = lines@;
        let ghost lv = line@;
        lines.push(line);
        proof {
            lemma_rows_push(old_lines, lines@.last());
            lemma_line_end(cs@, i as int);
        }
        if e < n {
            assert(lines_from(cs@, i as int) == seq![lv] + lines_from(cs@, e + 1));
            assert(rows(lines@) + lines_from(cs@, e + 1) =~= rows(old_lines) + lines_from(cs@, i as int));
            i = e + 1;
        } else {
            assert(lines_from(cs@, i as int) == seq![lv]);
            assert(lines_from(cs@, n as int) =~= Seq::<Seq<char>>::empty());
            assert(rows(lines@) + lines_from(cs@, n as int) =~= rows(old_lines) + lines_from(cs@, i as int));
            i = n;
        }
    }
    assert(lines_from(cs@, n as int) =~= Seq::<Seq<char>>::empty());
    assert(rows(lines@) =~= rows(lines@) + lines_from(cs@, n as int));
    lines
}

fn skip_white_from(s: &Vec<char>, i: usize) -> (r: usize)
    requires
        i <= s.len(),
    ensures
        r == skip_white(s@, i as int),
        i <= r <= s.len(),
{
    let mut j = i;
    while j < s.len() && whitespace(s[j])
        invariant
            i <= j <= s.len(),
            skip_white(s@, j as int) == skip_white(s@, i as int),
        decreases s.len() - j,
    {
        j += 1;
    }
    j
}

fn word_end_from(s: &Vec<char>, i: usize) -> (r: usize)
    requires
        i <= s.len(),
    ensures
        r == word_end(s@, i as int),
        i <= r <= s.len(),
{
    let mut j = i;
    while j < s.len() && !whitespace(s[j])
        invariant
            i <= j <= s.len(),
            word_end(s@, j as int) == word_end(s@, i as int),
        decreases s.len() - j,
    {
        j += 1;
    }
    j
}

/// A text without its leading and trailing white space.
fn trim_chars(s: &Vec<char>) -> (r: Vec<char>)
    ensures
        r@ == trim(s@),
{
    let a = skip_white_from(s, 0);
    if a >= s.len() {
        return Vec::new();
    }
    let mut b = s.len();
    proof {
        lemma_skip_white(s@, 0);
    }
    while b > 0 && whitespace(s[b - 1])
        invariant
            b <= s.len(),
            a < s.len(),
            !is_white(s@[a as int]),
            a < b ==> skip_white_back(s@, b as int) == skip_white_back(s@, s@.len() as int),
            b == s.len() || a < b,
            skip_white_back(s@, b as int) == skip_white_back(s@, s@.len() as int),
        decreases b,
    {
        b -= 1;
    }
    assert(a < b) by {
        if b <= a {
            assert(b == a + 1 || b <= a);
        }
    }
    sub_chars(s, a, b)
}

/// The words of a text (see `words`).
fn split_words(s: &Vec<char>) -> (r: Vec<Vec<char>>)
    ensures
        rows(r@) == words(s@),
{
    let mut ws: Vec<Vec<char>> = Vec::new();
    let mut i: usize = 0;
    assert(rows(ws@) + words_from(s@, 0) =~= words_from(s@, 0));
    loop
        invariant
            i <= s.len(),
            rows(ws@) + words_from(s@, i as int) == words(s@),
        decreases s.len() - i,
    {
        let j = skip_white_from(s, i);
        if j >= s.len() {
            assert(words_from(s@, i as int) =~= Seq::<Seq<char>>::empty());
            assert(rows(ws@) =~= rows(ws@) + words_from(s@, i as int));
            return ws;
        }
        let k = word_end_from(s, j);
        proof {
            lemma_word_end(s@, j as int);
        }
        let w = sub_chars(s, j, k);
        let ghost old_ws = ws@;
        let ghost wv = w@;
        ws.push(w);
        proof {
            lemma_rows_push(old_ws, ws@.last());
        }
        assert(words_from(s@, i as int) == seq![wv] + words_from(s@, k as int));
        assert(rows(ws@) + words_from(s@, k as int) =~= rows(old_ws) + words_from(s@, i as int));
        i = k;
    }
}

/// The words from index `from` on, joined with single spaces.
fn join_from(ws: &Vec<Vec<char>>, from: usize) -> (r: Vec<char>)
    requires
        from <= ws.len(),
    ensures
        r@ == join_words(rows(ws@).skip(from as int)),
{
    let ghost wv = rows(ws@);
    let mut r: Vec<char> = Vec::new();
    let mut k = from;
    assert(wv.subrange(from as int, from as int) =~= Seq::<Seq<char>>::empty());
    while k < ws.len()
        invariant
            from <= k <= ws.len(),
            wv == rows(ws@),
            r@ == join_words(wv.subrange(from as int, k as int)),
        decreases ws.len() - k,
    {
        let ghost prev = wv.subrange(from as int, k as int);
        assert(wv.subrange(from as int, k + 1).drop_last() == prev);
        assert(wv.subrange(from as int, k + 1).last() == ws@[k as int]@);
        if k > from {
            r.push(' ');
        }
        let w = &ws[k];
        let mut j: usize = 0;
        let ghost r0 = r@;
        while j < w.len()
            invariant
                j <= w.len(),
                r@ == r0 + w@.take(j as int),
            decreases w.len() - j,
        {
            r.push(w[j]);
            j += 1;
            assert(r@ == r0 + w@.take(j as int));
        }
        assert(w@.take(w.len() as int) == w@);
        k += 1;
    }
    assert(wv.subrange(from as int, ws.len() as int) == wv.skip(from as int));
    r
}

// ---------------------------------------------------------------------------
// Executable numerals and byte encodings.
// ---------------------------------------------------------------------------

proof fn lemma_decimal_grows(s: Seq<char>, i: int)
    requires
        0 <= i <= s.len(),
    ensures
        decimal_value(s.take(i)) <= decimal_value(s),
    decreases s.len() - i,
{
    if i < s.len() {
        lemma_decimal_grows(s, i + 1);
        assert(s.take(i + 1).drop_last() == s.take(i));
    } else {
        assert(s.take(i) == s);
    }
}

/// The value of the digits `s[from..]` (all digits), or `None` when it
/// exceeds `cap`.
fn digits_value(s: &Vec<char>, from: usize, cap: u64) -> (r: Option<u64>)
    requires
        from <= s.len(),
        all_digits(s@.skip(from as int)),
        cap >= 9,
    ensures
        match r {
            Some(v) => v == decimal_value(s@.skip(from as int)) && v <= cap,
            None => decimal_value(s@.skip(from as int)) > cap,
        },
{
    let ghost d = s@.skip(from as int);
    let mut v: u64 = 0;
    let mut i = from;
    assert(d.take(0) =~= Seq::<char>::empty());
    while i < s.len()
        invariant
            from <= i <= s.len(),
            d == s@.skip(from as int),
            all_digits(d),
            v == decimal_value(d.take(i - from)),
            v <= cap,
            cap >= 9,
        decreases s.len() - i,
    {
        assert(d.take(i - from + 1).drop_last() == d.take(i - from));
        assert(is_digit(d[i - from]));
        assert(d[i - from] == s@[i as int]);
        let dg = ((s[i] as u32) - 48) as u64;
        if v > (cap - dg) / 10 {
            proof {
                lemma_decimal_grows(d, i - from + 1);
            }
            return None;
        }
        v = v * 10 + dg;
        i += 1;
    }
    assert(d.take(i - from) == d);
    Some(v)
}

fn all_digits_from(s: &Vec<char>, from: usize) -> (r: bool)
    requires
        from <= s.len(),
    ensures
        r == all_digits(s@.skip(from as int)),
{
    let mut i = from;
    while i < s.len()
        invariant
            from <= i <= s.len(),
            forall|j: int| from <= j < i ==> is_digit(#[trigger] s@[j]),
        decreases s.len() - i,
    {
        if !digit(s[i]) {
            assert(!is_digit(s@.skip(from as int)[i - from]));
            return false;
        }
        i += 1;
    }
    assert forall|j: int| 0 <= j < s@.skip(from as int).len() implies is_digit(
        #[trigger] s@.skip(from as int)[j],
    ) by {
        assert(s@.skip(from as int)[j] == s@[from + j]);
    }
    true
}

/// What `str::parse::<u16>` gives for a text.
fn parse_u16_chars(s: &Vec<char>) -> (r: Option<u16>)
    ensures
        r == parse_u16(s@),
{
    let from: usize = if s.len() > 0 && s[0] == '+' {
        1
    } else {
        0
    };
    assert(s@.skip(from as int) == (if s@.len() > 0 && s@[0] == '+' {
        s@.drop_first()
    } else {
        s@
    }));
    if from >= s.len() || !all_digits_from(s, from) {
        return None;
    }
    match digits_value(s, from, 0xFFFF) {
        Some(v) => Some(v as u16),
        None => None,
    }
}

/// What `str::parse::<i64>` gives for a text.
fn parse_i64_chars(s: &Vec<char>) -> (r: Option<i64>)
    ensures
        r == parse_i64(s@),
{
    let neg = s.len() > 0 && s[0] == '-';
    let from: usize = if s.len() > 0 && (s[0] == '+' || s[0] == '-') {
        1
    } else {
        0
    };
    assert(s@.skip(from as int) == (if s@.len() > 0 && (s@[0] == '+' || s@[0] == '-') {
        s@.drop_first()
    } else {
        s@
    }));
    if from >= s.len() || !all_digits_from(s, from) {
        return None;
    }
    if neg {
        match digits_value(s, from, 0x8000_0000_0000_0000) {
            Some(v) => {
                if v == 0x8000_0000_0000_0000 {
                    Some(i64::MIN)
                } else {
                    Some(-(v as i64))
                }
            },
            None => None,
        }
    } else {
        match digits_value(s, from, 0x7FFF_FFFF_FFFF_FFFF) {
            Some(v) => Some(v as i64),
            None => None,
        }
    }
}

/// Appends the `k` low bytes of `v`, least significant first.
fn push_le(out: &mut Vec<u8>, v: u64, k: usize)
    requires
        k <= 8,
    ensures
        final(out)@ == old(out)@ + le_bytes(v as nat, k as nat),
    decreases k,
{
    if k > 0 {
        out.push((v % 256) as u8);
        push_le(out, v / 256, k - 1);
        assert(le_bytes(v as nat, k as nat) == seq![(v % 256) as u8] + le_bytes(
            (v / 256) as nat,
            (k - 1) as nat,
        ));
        assert(out@ =~= old(out)@ + le_bytes(v as nat, k as nat));
    }
}

/// Appends a 16-bit value in two's complement.
fn push_le16(out: &mut Vec<u8>, v: i64)
    requires
        -0x8000 <= v <= 0xFFFF,
    ensures
        final(out)@ == old(out)@ + le16(v as int),
{
    if v < 0 {
        push_le(out, (v + 0x1_0000) as u64, 2);
    } else {
        push_le(out, v as u64, 2);
    }
}

/// Appends `n` zero bytes.
fn push_zeros(out: &mut Vec<u8>, n: usize)
    ensures
        final(out)@ == old(out)@ + zeros(n as nat),
{
    let mut i: usize = 0;
    while i < n
        invariant
            i <= n,
            out@ == old(out)@ + zeros(i as nat),
        decreases n - i,
    {
        out.push(0);
        i += 1;
        assert(out@ =~= old(out)@ + zeros(i as nat));
    }
}

// ---------------------------------------------------------------------------
// Floating-point values come from a function supplied by the caller.
// ---------------------------------------------------------------------------

/// Whether a float parser can answer `r` for a text.
pub open spec fn parses_to<F: Fn(String) -> Option<u64>>(f: F, s: Seq<char>, r: Option<u64>) -> bool {
    exists|a: String| #![trigger call_ensures(f, (a,), r)] a@ == s && call_ensures(f, (a,), r)
}

/// The bits that a float parser gives for a text (when it gives any).
pub open spec fn float_fn<F: Fn(String) -> Option<u64>>(f: F) -> spec_fn(Seq<char>) -> Option<u64> {
    |s: Seq<char>| choose|r: Option<u64>| #[trigger] parses_to(f, s, r)
}

/// A float parser that accepts every text and answers alike for equal texts.
pub open spec fn deterministic<F: Fn(String) -> Option<u64>>(f: F) -> bool {
    &&& forall|a: String| call_requires(f, (a,))
    &&& forall|a: String, b: String, ra: Option<u64>, rb: Option<u64>|
        #![trigger call_ensures(f, (a,), ra), call_ensures(f, (b,), rb)]
        a@ == b@ && call_ensures(f, (a,), ra) && call_ensures(f, (b,), rb) ==> ra == rb
}

proof fn lemma_float_fn<F: Fn(String) -> Option<u64>>(f: F, a: String, r: Option<u64>)
    requires
        deterministic(f),
        call_ensures(f, (a,), r),
    ensures
        (float_fn(f))(a@) == r,
{
    let s = a@;
    assert(parses_to(f, s, r));
    let r2 = choose|r2: Option<u64>| #[trigger] parses_to(f, s, r2);
    let x = choose|x: String| x@ == s && call_ensures(f, (x,), r2);
    assert(call_ensures(f, (x,), r2));
}

/// The two's-complement 64-bit pattern of a value.
fn bits_of(v: i64) -> (r: u64)
    ensures
        r as nat == (if v < 0 {
            (v + 0x1_0000_0000_0000_0000int) as nat
        } else {
            v as nat
        }),
{
    if v < 0 {
        ((v as i128) + 0x1_0000_0000_0000_0000i128) as u64
    } else {
        v as u64
    }
}

/// The text without the quotes `q` around it; `Err` with the message of the
/// failed slice for a lone quote.
fn unquote_chars(v: &Vec<char>, q: char) -> (r: Result<Vec<char>, String>)
    ensures
        match unquote(v@, q) {
            Some(s) => r matches Ok(x) && x@ == s,
            None => r matches Err(x) && x@ == slice_panic(q),
        },
{
    let n = v.len();
    if n > 0 && v[0] == q && v[n - 1] == q {
        if n == 1 {
            let mut m = owned("begin <= end (1 <= 0) when slicing `");
            push_char(&mut m, q);
            push_str(&mut m, "`");
            return Err(m);
        }
        Ok(sub_chars(v, 1, n - 1))
    } else {
        Ok(sub_chars(v, 0, n))
    }
}

proof fn lemma_utf8_one(s: Seq<char>)
    requires
        encode_utf8(s).len() == 1,
    ensures
        s.len() >= 1,
{
    if s.len() == 0 {
        assert(encode_utf8(s) =~= Seq::<u8>::empty());
    }
}

/// Packs a data value of a type (see `pack_in`); the outer `Err` carries the
/// message of a stop.
fn pack_data<F: Fn(String) -> Option<u64>>(typ: &Vec<char>, value: &Vec<char>, parse_float: &F) -> (r:
    Result<Result<(u8, Vec<u8>), AssemblerError>, String>)
    requires
        deterministic(*parse_float),
    ensures
        match pack_in(typ@, value@, float_fn(*parse_float)) {
            Packed::Value(c, b) => r matches Ok(Ok(x)) && x.0 == c && x.1@ == b,
            Packed::Error(e) => r matches Ok(Err(x)) && x@ == e,
            Packed::Abort(m) => r matches Err(x) && x@ == m,
        },
{
    let typ_text = text_of(typ);
    let t = chars_of(to_lower(typ_text.as_str()).as_str());
    let value_text = text_of(value);
    let mut data: Vec<u8> = Vec::new();
    if same_chars(t.as_slice(), "int") {
        match parse_i64_chars(value) {
            Some(v) => {
                push_le(&mut data, bits_of(v), 8);
                push_zeros(&mut data, 21);
                Ok(Ok((1, data)))
            },
            None => {
                let mut m = owned("Invalid int: ");
                push_str(&mut m, value_text.as_str());
                Ok(Err(AssemblerError::InvalidImmediate(m)))
            },
        }
    } else if same_chars(t.as_slice(), "float") {
        let arg = text_of(value);
        let bits = parse_float(arg);
        proof {
            lemma_float_fn(*parse_float, arg, bits);
        }
        match bits {
            Some(b) => {
                push_le(&mut data, b, 8);
                push_zeros(&mut data, 21);
                Ok(Ok((2, data)))
            },
            None => {
                let mut m = owned("Invalid float: ");
                push_str(&mut m, value_text.as_str());
                Ok(Err(AssemblerError::InvalidImmediate(m)))
            },
        }
    } else if same_chars(t.as_slice(), "bool") {
        let v = chars_of(to_lower(value_text.as_str()).as_str());
        if same_chars(v.as_slice(), "true") || same_chars(v.as_slice(), "1") {
            data.push(1);
            push_zeros(&mut data, 28);
            assert(data@ =~= seq![1u8] + zeros(28));
            Ok(Ok((3, data)))
        } else if same_chars(v.as_slice(), "false") || same_chars(v.as_slice(), "0") {
            push_zeros(&mut data, 29);
            assert(data@ =~= zeros(29));
            Ok(Ok((3, data)))
        } else {
            let mut m = owned("Invalid bool: ");
            push_str(&mut m, value_text.as_str());
            Ok(Err(AssemblerError::InvalidImmediate(m)))
        }
    } else if same_chars(t.as_slice(), "string") {
        let s = match unquote_chars(value, '"') {
            Ok(x) => x,
            Err(m) => return Err(m),
        };
        let st = text_of(&s);
        let bytes = st.as_str().as_bytes();
        if bytes.len() > 28 {
            return Ok(Err(AssemblerError::StringTooLong(st)));
        }
        let mut i: usize = 0;
        while i < bytes.len()
            invariant
                i <= bytes@.len(),
                data@ == bytes@.take(i as int),
            decreases bytes.len() - i,
        {
            data.push(bytes[i]);
            i += 1;
            assert(data@ == bytes@.take(i as int));
        }
        assert(bytes@.take(bytes@.len() as int) == bytes@);
        push_zeros(&mut data, 29 - bytes.len());
        Ok(Ok((4, data)))
    } else if same_chars(t.as_slice(), "char") {
        let s = match unquote_chars(value, '\'') {
            Ok(x) => x,
            Err(m) => return Err(m),
        };
        let st = text_of(&s);
        if st.as_str().as_bytes().len() != 1 {
            let mut m = owned("Char must be a single character: ");
            push_str(&mut m, st.as_str());
            return Ok(Err(AssemblerError::InvalidChar(m)));
        }
        proof {
            lemma_utf8_one(s@);
        }
        let cp = s[0] as u32;
        push_le(&mut data, cp as u64, 4);
        push_zeros(&mut data, 25);
        Ok(Ok((5, data)))
    } else {
        Ok(Err(AssemblerError::InvalidDataType(typ_text)))
    }
}

// ---------------------------------------------------------------------------
// The passes.
// ---------------------------------------------------------------------------

/// An instruction as written: its mnemonic (in upper case) and three operands.
struct ParsedIns {
    mnemonic: Vec<char>,
    dst: Vec<char>,
    src1: Vec<char>,
    src2: Vec<char>,
}

impl View for ParsedIns {
    type V = InsV;

    closed spec fn view(&self) -> InsV {
        InsV { mnemonic: self.mnemonic@, dst: self.dst@, src1: self.src1@, src2: self.src2@ }
    }
}

/// A data entry: register, type code and packed bytes.
struct DataEntry {
    reg: u16,
    typ: u8,
    value: Vec<u8>,
}

impl View for DataEntry {
    type V = DataV;

    closed spec fn view(&self) -> DataV {
        DataV { reg: self.reg, typ: self.typ, value: self.value@ }
    }
}

/// What the first pass collects. The labels are a vector of name and index
/// pairs in the order they appear, searched by a verified loop: a label is
/// added only when its name is not there yet (`law_labels_unique_in_code`),
/// so the first match is the only one. Verus proves little of a `HashMap`
/// keyed by text, while the vector gives exact lookups.
struct ListingExec {
    labels: Vec<(Vec<char>, usize)>,
    data: Vec<DataEntry>,
    ins: Vec<ParsedIns>,
}

pub open spec fn labels_view(l: Seq<(Vec<char>, usize)>) -> Seq<(Seq<char>, nat)> {
    l.map_values(|p: (Vec<char>, usize)| (p.0@, p.1 as nat))
}

impl View for ListingExec {
    type V = Listing;

    closed spec fn view(&self) -> Listing {
        Listing {
            labels: labels_view(self.labels@),
            data: self.data@.map_values(|d: DataEntry| d@),
            ins: self.ins@.map_values(|i: ParsedIns| i@),
        }
    }
}

fn copy_chars(v: &Vec<char>) -> (r: Vec<char>)
    ensures
        r@ == v@,
{
    let r = sub_chars(v, 0, v.len());
    assert(v@.subrange(0, v@.len() as int) == v@);
    r
}

fn has_prefix(s: &Vec<char>, p: &str) -> (r: bool)
    ensures
        r == starts_with(s@, p@),
{
    let pc = chars_of(p);
    if s.len() < pc.len() {
        return false;
    }
    let head = sub_chars(s, 0, pc.len());
    assert(head@ == s@.take(pc@.len() as int));
    chars_eq(head.as_slice(), pc.as_slice())
}

/// The instruction index a label names.
fn find_label(labels: &Vec<(Vec<char>, usize)>, name: &Vec<char>) -> (r: Option<usize>)
    ensures
        match r {
            Some(x) => label_target(labels_view(labels@), name@) == Some(x as nat),
            None => label_target(labels_view(labels@), name@) is None,
        },
{
    let ghost lv = labels_view(labels@);
    let mut i: usize = 0;
    assert(lv.skip(0) == lv);
    while i < labels.len()
        invariant
            i <= labels.len(),
            lv == labels_view(labels@),
            label_target(lv.skip(i as int), name@) == label_target(lv, name@),
        decreases labels.len() - i,
    {
        let ghost rest = lv.skip(i as int);
        assert(rest[0] == (labels@[i as int].0@, labels@[i as int].1 as nat));
        assert(rest.drop_first() == lv.skip(i + 1));
        if chars_eq(labels[i].0.as_slice(), name.as_slice()) {
            return Some(labels[i].1);
        }
        i += 1;
    }
    None
}

fn operand_at(parts: &Vec<Vec<char>>, i: usize) -> (r: Vec<char>)
    ensures
        r@ == operand(rows(parts@), i as int),
{
    if parts.len() > i {
        copy_chars(&parts[i])
    } else {
        chars_of("0")
    }
}

/// The first pass over one line (see `pass_line`); the outer `Err` carries
/// the message of a stop.
fn pass_one_line<F: Fn(String) -> Option<u64>>(
    st: &mut ListingExec,
    n: usize,
    raw: &Vec<char>,
    parse_float: &F,
) -> (r: Result<Result<(), AssemblerError>, String>)
    requires
        deterministic(*parse_float),
        n < usize::MAX,
    ensures
        match pass_line(old(st)@, n as nat, raw@, float_fn(*parse_float)) {
            Pass::Next(l) => r matches Ok(Ok(_)) && final(st)@ == l,
            Pass::Error(e) => r matches Ok(Err(x)) && x@ == e,
            Pass::Abort(m) => r matches Err(x) && x@ == m,
        },
{
    let line = trim_chars(raw);
    let len = line.len();
    if len == 0 || line[0] == ';' || line[0] == '#' {
        return Ok(Ok(()));
    }
    if line[len - 1] == ':' {
        let head = sub_chars(&line, 0, len - 1);
        assert(head@ == line@.drop_last());
        let label = trim_chars(&head);
        match find_label(&st.labels, &label) {
            Some(_) => return Ok(Err(AssemblerError::DuplicateLabel(text_of(&label)))),
            None => {},
        }
        let target = st.ins.len();
        let ghost old_labels = st.labels@;
        let ghost lv = label@;
        st.labels.push((label, target));
        assert(labels_view(st.labels@) =~= labels_view(old_labels).push((lv, target as nat)));
        return Ok(Ok(()));
    }
    if has_prefix(&line, ".data") {
        let parts = split_words(&line);
        if parts.len() < 4 {
            let mut m = owned(".data requires at least 3 arguments at line ");
            push_usize(&mut m, n + 1);
            return Ok(Err(AssemblerError::ParseError(m)));
        }
        assert(rows(parts@)[2] == parts@[2]@);
        assert(rows(parts@)[1] == parts@[1]@);
        let reg = match parse_u16_chars(&parts[2]) {
            Some(x) => x,
            None => {
                let mut m = owned("Invalid register number: ");
                let t = text_of(&parts[2]);
                push_str(&mut m, t.as_str());
                return Ok(Err(AssemblerError::InvalidImmediate(m)));
            },
        };
        let value = join_from(&parts, 3);
        match pack_data(&parts[1], &value, parse_float) {
            Err(m) => return Err(m),
            Ok(Err(e)) => return Ok(Err(e)),
            Ok(Ok((typ, bytes))) => {
                let ghost old_data = st.data@;
                let entry = DataEntry { reg, typ, value: bytes };
                let ghost ev = entry@;
                st.data.push(entry);
                assert(st.data@.map_values(|d: DataEntry| d@) =~= old_data.map_values(
                    |d: DataEntry| d@,
                ).push(ev));
                return Ok(Ok(()));
            },
        }
    }
    let parts = split_words(&line);
    if parts.len() == 0 {
        return Ok(Ok(()));
    }
    assert(rows(parts@)[0] == parts@[0]@);
    let first = text_of(&parts[0]);
    let mnemonic = chars_of(to_upper(first.as_str()).as_str());
    let ins = ParsedIns {
        mnemonic,
        dst: operand_at(&parts, 1),
        src1: operand_at(&parts, 2),
        src2: operand_at(&parts, 3),
    };
    let ghost old_ins = st.ins@;
    let ghost iv = ins@;
    st.ins.push(ins);
    assert(st.ins@.map_values(|i: ParsedIns| i@) =~= old_ins.map_values(|i: ParsedIns| i@).push(
        iv,
    ));
    Ok(Ok(()))
}

/// Appends the two bytes of an operand of the instruction at index `ip`
/// (see `resolve`).
fn resolve_operand(
    op: &Vec<char>,
    ip: usize,
    jump: bool,
    labels: &Vec<(Vec<char>, usize)>,
    out: &mut Vec<u8>,
) -> (r: Result<(), AssemblerError>)
    ensures
        match resolve(op@, ip as nat, jump, labels_view(labels@)) {
            Ok(b) => r is Ok && final(out)@ == old(out)@ + b,
            Err(e) => r matches Err(x) && x@ == e,
        },
{
    if op.len() == 0 {
        push_le16(out, 0);
        return Ok(());
    }
    match parse_i64_chars(op) {
        Some(num) => {
            if jump {
                if num < -32768 || num > 32767 {
                    let mut m = owned("Jump offset out of range: ");
                    push_i64(&mut m, num);
                    return Err(AssemblerError::InvalidImmediate(m));
                }
            } else {
                if num < 0 || num > 65535 {
                    let mut m = owned("Register number out of range: ");
                    push_i64(&mut m, num);
                    return Err(AssemblerError::InvalidImmediate(m));
                }
            }
            push_le16(out, num);
            Ok(())
        },
        None => match find_label(labels, op) {
            Some(t) => {
                let offset: i128 = (t as i128) - (ip as i128);
                if offset < -32768 || offset > 32767 {
                    let mut m = owned("Jump offset too large for label ");
                    let name = text_of(op);
                    push_str(&mut m, name.as_str());
                    push_str(&mut m, ": ");
                    push_i128(&mut m, offset);
                    return Err(AssemblerError::InvalidImmediate(m));
                }
                assert((offset as i64) as int == offset);
                push_le16(out, offset as i64);
                Ok(())
            },
            None => Err(AssemblerError::LabelNotFound(text_of(op))),
        },
    }
}

/// Appends the 8 bytes of the instruction at index `ip` (see `encode_ins`).
fn encode_one(ins: &ParsedIns, ip: usize, labels: &Vec<(Vec<char>, usize)>, out: &mut Vec<u8>) -> (r:
    Result<(), AssemblerError>)
    ensures
        match encode_ins(ins@, ip as nat, labels_view(labels@)) {
            Ok(b) => r is Ok && final(out)@ == old(out)@ + b,
            Err(e) => r matches Err(x) && x@ == e,
        },
{
    let name = text_of(&ins.mnemonic);
    let code = match opcode_from_mnemonic(name.as_str()) {
        Some(c) => c,
        None => return Err(AssemblerError::InvalidOpcode(name)),
    };
    let jump = has_prefix(&ins.mnemonic, "JMP");
    let ghost o0 = out@;
    push_le16(out, code as i64);
    match resolve_operand(&ins.dst, ip, jump, labels, out) {
        Ok(()) => {},
        Err(e) => return Err(e),
    }
    match resolve_operand(&ins.src1, ip, jump, labels, out) {
        Ok(()) => {},
        Err(e) => return Err(e),
    }
    match resolve_operand(&ins.src2, ip, jump, labels, out) {
        Ok(()) => {},
        Err(e) => return Err(e),
    }
    proof {
        if let Ok(b) = encode_ins(ins@, ip as nat, labels_view(labels@)) {
            assert(out@ =~= o0 + b);
        }
    }
    Ok(())
}

/// The outcome of assembling: the binary, an error, or the message of a stop.
pub enum Assembly {
    Binary(Vec<u8>),
    Error(AssemblerError),
    Abort(String),
}

/// Assembles a text (see `assemble_in`), with `parse_float` giving the bits
/// of a `float` data value; or tells how assembling stops.
pub fn assemble_outcome<F: Fn(String) -> Option<u64>>(source: &str, parse_float: &F) -> (r: Assembly)
    requires
        deterministic(*parse_float),
    ensures
        match assemble_in(source@, float_fn(*parse_float)) {
            Assembled::Binary(b) => r matches Assembly::Binary(x) && x@ == b,
            Assembled::Error(e) => r matches Assembly::Error(x) && x@ == e,
            Assembled::Abort(m) => r matches Assembly::Abort(x) && x@ == m,
        },
{
    let cs = chars_of(source);
    let lines = source_lines(&cs);
    let ghost lv = rows(lines@);
    let ghost fl = float_fn(*parse_float);
    let mut st = ListingExec { labels: Vec::new(), data: Vec::new(), ins: Vec::new() };
    let ghost empty = Listing { labels: Seq::empty(), data: Seq::empty(), ins: Seq::empty() };
    assert(st@.labels =~= Seq::<(Seq<char>, nat)>::empty());
    assert(st@.data =~= Seq::<DataV>::empty());
    assert(st@.ins =~= Seq::<InsV>::empty());
    assert(st@ == empty);
    let mut n: usize = 0;
    while n < lines.len()
        invariant
            n <= lines.len(),
            lv == rows(lines@),
            lv == lines_from(source@, 0),
            fl == float_fn(*parse_float),
            deterministic(*parse_float),
            empty == (Listing { labels: Seq::empty(), data: Seq::empty(), ins: Seq::empty() }),
            pass_lines(st@, lv, n as nat, fl) == pass_lines(empty, lv, 0, fl),
        decreases lines.len() - n,
    {
        let ghost before = st@;
        assert(lv[n as int] == lines@[n as int]@);
        match pass_one_line(&mut st, n, &lines[n], parse_float) {
            Ok(Ok(())) => {},
            Ok(Err(e)) => {
                assert(pass_lines(before, lv, n as nat, fl) == pass_line(before, n as nat, lv[n as int], fl));
                return Assembly::Error(e);
            },
            Err(m) => {
                assert(pass_lines(before, lv, n as nat, fl) == pass_line(before, n as nat, lv[n as int], fl));
                return Assembly::Abort(m);
            },
        }
        n += 1;
    }
    // the second pass: the code of each instruction
    let ghost ls = st@;
    assert(pass_lines(empty, lv, 0, fl) == Pass::Next(ls));
    let mut code: Vec<u8> = Vec::new();
    let mut i: usize = 0;
    while i < st.ins.len()
        invariant
            i <= st.ins.len(),
            st@ == ls,
            lv == lines_from(source@, 0),
            fl == float_fn(*parse_float),
            empty == (Listing { labels: Seq::empty(), data: Seq::empty(), ins: Seq::empty() }),
            pass_lines(empty, lv, 0, fl) == Pass::Next(ls),
            encode_from(ls.ins, i as nat, ls.labels, code@) == encode_from(ls.ins, 0, ls.labels, Seq::empty()),
        decreases st.ins.len() - i,
    {
        let ghost before = code@;
        assert(ls.ins[i as int] == st.ins@[i as int]@);
        match encode_one(&st.ins[i], i, &st.labels, &mut code) {
            Ok(()) => {},
            Err(e) => return Assembly::Error(e),
        }
        i += 1;
    }
    // the file: header, data section, code section
    let mut bin: Vec<u8> = Vec::new();
    push_le16(&mut bin, PROG_MAGIC as i64);
    push_le(&mut bin, (st.data.len() % 0x1_0000) as u64, 2);
    push_le(&mut bin, (st.ins.len() as u64) % 0x1_0000_0000, 4);
    push_le16(&mut bin, DATA_MAGIC as i64);
    let ghost h = bin@;
    let ghost code_v = code@;
    assert(encode_from(ls.ins, 0, ls.labels, Seq::empty()) == Ok::<Seq<u8>, AsmErrorV>(code_v));
    assert(assemble_in(source@, fl) == Assembled::Binary(binary_of(ls, code_v)));
    assert(h == le16(PROG_MAGIC as int) + le_bytes(ls.data.len() % 0x1_0000, 2) + le_bytes(
        ls.ins.len() % 0x1_0000_0000,
        4,
    ) + le16(DATA_MAGIC as int));
    let mut k: usize = 0;
    while k < st.data.len()
        invariant
            k <= st.data.len(),
            st@ == ls,
            code@ == code_v,
            fl == float_fn(*parse_float),
            assemble_in(source@, fl) == Assembled::Binary(binary_of(ls, code_v)),
            data_bytes(ls.data, k as nat, bin@) == data_bytes(ls.data, 0, h),
        decreases st.data.len() - k,
    {
        let ghost before = bin@;
        let d = &st.data[k];
        assert(ls.data[k as int] == d@);
        push_le16(&mut bin, d.reg as i64);
        bin.push(d.typ);
        let mut j: usize = 0;
        let ghost mid = bin@;
        while j < d.value.len()
            invariant
                j <= d.value.len(),
                bin@ == mid + d.value@.take(j as int),
            decreases d.value.len() - j,
        {
            bin.push(d.value[j]);
            j += 1;
            assert(bin@ =~= mid + d.value@.take(j as int));
        }
        assert(d.value@.take(d.value@.len() as int) == d.value@);
        assert(bin@ =~= before + le16(d.reg as int) + seq![d.typ] + d.value@);
        k += 1;
    }
    proof {
        lemma_data_bytes_acc(ls.data, 0, h);
    }
    push_le16(&mut bin, CODE_MAGIC as i64);
    let mut j: usize = 0;
    let ghost mid = bin@;
    assert(mid == h + data_bytes(ls.data, 0, Seq::empty()) + le16(CODE_MAGIC as int));
    while j < code.len()
        invariant
            j <= code.len(),
            bin@ == mid + code@.take(j as int),
        decreases code.len() - j,
    {
        bin.push(code[j]);
        j += 1;
        assert(bin@ =~= mid + code@.take(j as int));
    }
    assert(code@.take(code@.len() as int) == code@);
    Assembly::Binary(bin)
}

/// Assembles a text into the VM's binary format (see `assemble_in`), with
/// `parse_float` giving the bits of a `float` data value. For a text whose
/// assembly does not stop.
pub fn assemble<F: Fn(String) -> Option<u64>>(source: &str, parse_float: &F) -> (r: Result<
    Vec<u8>,
    AssemblerError,
>)
    requires
        deterministic(*parse_float),
        !(assemble_in(source@, float_fn(*parse_float)) is Abort),
    ensures
        match assemble_in(source@, float_fn(*parse_float)) {
            Assembled::Binary(b) => r matches Ok(x) && x@ == b,
            Assembled::Error(e) => r matches Err(x) && x@ == e,
            Assembled::Abort(_) => false,
        },
{
    match assemble_outcome(source, parse_float) {
        Assembly::Binary(b) => Ok(b),
        Assembly::Error(e) => Err(e),
        Assembly::Abort(_) => {
            assert(false);
            Ok(Vec::new())
        },
    }
}

// ---------------------------------------------------------------------------
// Laws.
// ---------------------------------------------------------------------------

proof fn lemma_le_bytes_len(v: nat, k: nat)
    ensures
        le_bytes(v, k).len() == k,
    decreases k,
{
    if k > 0 {
        lemma_le_bytes_len(v / 256, (k - 1) as nat);
    }
}

proof fn lemma_pack_len(typ: Seq<char>, value: Seq<char>, float_bits: spec_fn(Seq<char>) -> Option<u64>)
    ensures
        pack_in(typ, value, float_bits) matches Packed::Value(_, v) ==> v.len() == 29,
{
    lemma_le_bytes_len(0, 8);
    lemma_le_bytes_len(0, 4);
    match parse_i64(value) {
        Some(v) => {
            let n: nat = if v < 0 {
                (v + 0x1_0000_0000_0000_0000int) as nat
            } else {
                v as nat
            };
            lemma_le_bytes_len(n, 8);
        },
        None => {},
    }
    match float_bits(value) {
        Some(b) => lemma_le_bytes_len(b as nat, 8),
        None => {},
    }
    match unquote(value, '\'') {
        Some(s) => if s.len() > 0 {
            lemma_le_bytes_len(s[0] as u32 as nat, 4);
        },
        None => {},
    }
}

/// Every data entry holds 29 value bytes.
pub open spec fn entries_sized(data: Seq<DataV>) -> bool {
    forall|i: int| 0 <= i < data.len() ==> (#[trigger] data[i]).value.len() == 29
}

proof fn lemma_pass_sized(
    st: Listing,
    lines: Seq<Seq<char>>,
    n: nat,
    float_bits: spec_fn(Seq<char>) -> Option<u64>,
)
    requires
        entries_sized(st.data),
    ensures
        pass_lines(st, lines, n, float_bits) matches Pass::Next(st2) ==> entries_sized(st2.data),
    decreases lines.len() - n,
{
    if n < lines.len() {
        let line = trim(lines[n as int]);
        let parts = words(line);
        if parts.len() >= 4 {
            lemma_pack_len(parts[1], join_words(parts.skip(3)), float_bits);
        }
        match pass_line(st, n, lines[n as int], float_bits) {
            Pass::Next(st1) => {
                assert(entries_sized(st1.data));
                lemma_pass_sized(st1, lines, n + 1, float_bits);
            },
            _ => {},
        }
    }
}

proof fn lemma_data_bytes_len(data: Seq<DataV>, i: nat, acc: Seq<u8>)
    requires
        entries_sized(data),
        i <= data.len(),
    ensures
        data_bytes(data, i, acc).len() == acc.len() + 32 * (data.len() - i),
    decreases data.len() - i,
{
    if i < data.len() {
        let d = data[i as int];
        lemma_le_bytes_len((if d.reg < 0 { (d.reg + 0x1_0000) as nat } else { d.reg as nat }), 2);
        lemma_data_bytes_len(data, i + 1, acc + le16(d.reg as int) + seq![d.typ] + d.value);
    }
}

proof fn lemma_le16_len(v: int)
    ensures
        le16(v).len() == 2,
{
    lemma_le_bytes_len(
        if v < 0 {
            (v + 0x1_0000) as nat
        } else {
            v as nat
        },
        2,
    );
}

proof fn lemma_resolve_len(op: Seq<char>, ip: nat, jump: bool, labels: Seq<(Seq<char>, nat)>)
    ensures
        resolve(op, ip, jump, labels) matches Ok(b) ==> b.len() == 2,
{
    lemma_le16_len(0);
    if let Some(num) = parse_i64(op) {
        lemma_le16_len(num as int);
    }
    if let Some(t) = label_target(labels, op) {
        lemma_le16_len(t - ip);
    }
}

/// The shape of a binary with `nd` data entries and `ni` instructions: the
/// program marker and the two counts (wrapping to their widths), the data
/// marker, 32 bytes per data entry, the code marker, and 8 bytes per
/// instruction.
pub open spec fn binary_shape(b: Seq<u8>, nd: nat, ni: nat) -> bool {
    &&& b.len() == 12 + 32 * nd + 8 * ni
    &&& b.subrange(0, 2) == le16(PROG_MAGIC as int)
    &&& b.subrange(2, 4) == le_bytes(nd % 0x1_0000, 2)
    &&& b.subrange(4, 8) == le_bytes(ni % 0x1_0000_0000, 4)
    &&& b.subrange(8, 10) == le16(DATA_MAGIC as int)
    &&& b.subrange(10 + 32 * nd as int, 12 + 32 * nd as int) == le16(CODE_MAGIC as int)
}

/// The labels of a listing: no name twice, and each names an instruction
/// index within the code (or its end).
pub open spec fn labels_ok(st: Listing) -> bool {
    &&& forall|i: int, j: int|
        0 <= i < j < st.labels.len() ==> #[trigger] st.labels[i].0 != #[trigger] st.labels[j].0
    &&& forall|i: int| 0 <= i < st.labels.len() ==> (#[trigger] st.labels[i]).1 <= st.ins.len()
}

proof fn lemma_label_target_none(labels: Seq<(Seq<char>, nat)>, name: Seq<char>, i: int)
    requires
        label_target(labels, name) is None,
        0 <= i < labels.len(),
    ensures
        labels[i].0 != name,
    decreases labels.len(),
{
    if i > 0 {
        lemma_label_target_none(labels.drop_first(), name, i - 1);
    }
}

proof fn lemma_pass_labels(
    st: Listing,
    lines: Seq<Seq<char>>,
    n: nat,
    float_bits: spec_fn(Seq<char>) -> Option<u64>,
)
    requires
        labels_ok(st),
    ensures
        pass_lines(st, lines, n, float_bits) matches Pass::Next(st2) ==> labels_ok(st2),
    decreases lines.len() - n,
{
    if n < lines.len() {
        let line = trim(lines[n as int]);
        if line.len() > 0 && line.last() == ':' {
            let label = trim(line.drop_last());
            if label_target(st.labels, label) is None {
                let st1 = Listing { labels: st.labels.push((label, st.ins.len())), ..st };
                assert forall|i: int, j: int|
                    0 <= i < j < st1.labels.len() implies #[trigger] st1.labels[i].0
                    != #[trigger] st1.labels[j].0 by {
                    if j == st.labels.len() {
                        lemma_label_target_none(st.labels, label, i);
                    } else {
                        assert(st1.labels[i] == st.labels[i] && st1.labels[j] == st.labels[j]);
                    }
                }
                assert forall|i: int| 0 <= i < st1.labels.len() implies (#[trigger] st1.labels[i]).1
                    <= st1.ins.len() by {
                    if i < st.labels.len() {
                        assert(st1.labels[i] == st.labels[i]);
                    }
                }
            }
        }
        match pass_line(st, n, lines[n as int], float_bits) {
            Pass::Next(st1) => {
                assert(labels_ok(st1));
                lemma_pass_labels(st1, lines, n + 1, float_bits);
            },
            _ => {},
        }
    }
}

/// Labels are unambiguous and land in the code: after the first pass over
/// any text, no label name occurs twice, and each label names the index of
/// an instruction (or the end of the code).
pub proof fn law_labels_unique_in_code(source: Seq<char>, float_bits: spec_fn(Seq<char>) -> Option<u64>)
    ensures
        pass_lines(
            Listing { labels: Seq::empty(), data: Seq::empty(), ins: Seq::empty() },
            lines_from(source, 0),
            0,
            float_bits,
        ) matches Pass::Next(st) ==> labels_ok(st),
{
    let empty = Listing { labels: Seq::empty(), data: Seq::empty(), ins: Seq::empty() };
    lemma_pass_labels(empty, lines_from(source, 0), 0, float_bits);
}

// ---------------------------------------------------------------------------
// Laws over the text: what each line contributes to the binary.
// ---------------------------------------------------------------------------

/// Whether a line is skipped: empty after trimming, or a comment.
pub open spec fn skipped_line(raw: Seq<char>) -> bool {
    let l = trim(raw);
    l.len() == 0 || l[0] == ';' || l[0] == '#'
}

/// Whether a line is a `.data` line (not skipped, not a label).
pub open spec fn data_line(raw: Seq<char>) -> bool {
    let l = trim(raw);
    !skipped_line(raw) && l.last() != ':' && starts_with(l, ".data"@)
}

/// Whether a line is an instruction (not skipped, not a label, not data).
pub open spec fn ins_line(raw: Seq<char>) -> bool {
    let l = trim(raw);
    !skipped_line(raw) && l.last() != ':' && !starts_with(l, ".data"@) && words(l).len() > 0
}

/// The number of `.data` lines from the `n`-th on.
pub open spec fn data_lines_from(lines: Seq<Seq<char>>, n: nat) -> nat
    decreases lines.len() - n,
{
    if n >= lines.len() {
        0
    } else {
        data_lines_from(lines, n + 1) + if data_line(lines[n as int]) {
            1nat
        } else {
            0nat
        }
    }
}

/// The mnemonics (in upper case) of the instruction lines from the `n`-th on.
pub open spec fn mnemonics_from(lines: Seq<Seq<char>>, n: nat) -> Seq<Seq<char>>
    decreases lines.len() - n,
{
    if n >= lines.len() {
        Seq::empty()
    } else if ins_line(lines[n as int]) {
        seq![upper_text(words(trim(lines[n as int]))[0])] + mnemonics_from(lines, n + 1)
    } else {
        mnemonics_from(lines, n + 1)
    }
}

proof fn lemma_pass_counts(
    st: Listing,
    lines: Seq<Seq<char>>,
    n: nat,
    float_bits: spec_fn(Seq<char>) -> Option<u64>,
)
    ensures
        pass_lines(st, lines, n, float_bits) matches Pass::Next(st2) ==> {
            &&& st2.data.len() == st.data.len() + data_lines_from(lines, n)
            &&& st2.ins.len() == st.ins.len() + mnemonics_from(lines, n).len()
            &&& forall|j: int| 0 <= j < st.ins.len() ==> #[trigger] st2.ins[j] == st.ins[j]
            &&& forall|j: int|
                0 <= j < mnemonics_from(lines, n).len() ==> (#[trigger] st2.ins[st.ins.len() + j]).mnemonic
                    == mnemonics_from(lines, n)[j]
        },
    decreases lines.len() - n,
{
    if n < lines.len() {
        let raw = lines[n as int];
        match pass_line(st, n, raw, float_bits) {
            Pass::Next(st1) => {
                lemma_pass_counts(st1, lines, n + 1, float_bits);
                if let Pass::Next(st2) = pass_lines(st1, lines, n + 1, float_bits) {
                    let ms = mnemonics_from(lines, n + 1);
                    if ins_line(raw) {
                        assert(st1.ins.len() == st.ins.len() + 1);
                        let m = upper_text(words(trim(raw))[0]);
                        assert(st1.ins[st.ins.len() as int].mnemonic == m);
                        assert(mnemonics_from(lines, n) == seq![m] + ms);
                        assert(st2.ins[st.ins.len() as int] == st1.ins[st.ins.len() as int]);
                        assert forall|j: int| 0 <= j < st.ins.len() implies #[trigger] st2.ins[j] == st.ins[j] by {
                            assert(st2.ins[j] == st1.ins[j]);
                        }
                        assert forall|j: int|
                            0 <= j < mnemonics_from(lines, n).len() implies (#[trigger] st2.ins[st.ins.len()
                            + j]).mnemonic == mnemonics_from(lines, n)[j] by {
                            if j > 0 {
                                assert(st2.ins[st1.ins.len() + (j - 1)] == st2.ins[st.ins.len() + j]);
                                assert(mnemonics_from(lines, n)[j] == ms[j - 1]);
                            }
                        }
                    } else {
                        assert(st1.ins == st.ins);
                    }
                }
            },
            _ => {},
        }
    }
}

proof fn lemma_encode_words(ins: Seq<InsV>, i: nat, labels: Seq<(Seq<char>, nat)>, acc: Seq<u8>)
    requires
        i <= ins.len(),
    ensures
        encode_from(ins, i, labels, acc) matches Ok(code) ==> {
            &&& code.len() == acc.len() + 8 * (ins.len() - i)
            &&& code.take(acc.len() as int) == acc
            &&& forall|j: int|
                i <= j < ins.len() ==> opcode_of(#[trigger] ins[j].mnemonic) is Some && code.subrange(
                    acc.len() + 8 * (j - i),
                    acc.len() + 8 * (j - i) + 2,
                ) == le16(opcode_of(ins[j].mnemonic)->0 as int)
        },
    decreases ins.len() - i,
{
    if i < ins.len() {
        let x = ins[i as int];
        if let Some(c) = opcode_of(x.mnemonic) {
            lemma_le16_len(c as int);
            lemma_resolve_len(x.dst, i, is_jump(x.mnemonic), labels);
            lemma_resolve_len(x.src1, i, is_jump(x.mnemonic), labels);
            lemma_resolve_len(x.src2, i, is_jump(x.mnemonic), labels);
        }
        if let Ok(b) = encode_ins(x, i, labels) {
            let acc2 = acc + b;
            lemma_encode_words(ins, i + 1, labels, acc2);
            if let Ok(code) = encode_from(ins, i + 1, labels, acc2) {
                let c = opcode_of(x.mnemonic)->0;
                assert(b.len() == 8);
                assert(b.take(2) =~= le16(c as int));
                assert(code.take(acc.len() as int) =~= acc2.take(acc.len() as int));
                assert(acc2.take(acc.len() as int) =~= acc);
                assert forall|j: int|
                    i <= j < ins.len() implies opcode_of(#[trigger] ins[j].mnemonic) is Some
                    && code.subrange(acc.len() + 8 * (j - i), acc.len() + 8 * (j - i) + 2) == le16(
                    opcode_of(ins[j].mnemonic)->0 as int) by {
                    if j == i {
                        assert(code.subrange(acc.len() as int, acc.len() as int + 2) =~= acc2.subrange(
                            acc.len() as int,
                            acc.len() as int + 2,
                        ));
                        assert(acc2.subrange(acc.len() as int, acc.len() as int + 2) =~= b.take(2));
                    } else {
                        assert(acc2.len() + 8 * (j - (i + 1)) == acc.len() + 8 * (j - i));
                    }
                }
            }
        }
    }
}

/// The binary follows the text line by line: its header counts the `.data`
/// lines and the instruction lines of the text (wrapping to 16 and 32 bits),
/// it has 32 bytes per `.data` line and 8 per instruction line, and the
/// `i`-th code word begins with the opcode of the `i`-th instruction line's
/// mnemonic (in upper case).
pub proof fn law_binary_from_lines(source: Seq<char>, float_bits: spec_fn(Seq<char>) -> Option<u64>)
    ensures
        assemble_in(source, float_bits) matches Assembled::Binary(b) ==> {
            let lines = lines_from(source, 0);
            let nd = data_lines_from(lines, 0);
            let ms = mnemonics_from(lines, 0);
            &&& binary_shape(b, nd, ms.len())
            &&& forall|i: int|
                0 <= i < ms.len() ==> opcode_of(#[trigger] ms[i]) is Some && b.subrange(
                    12 + 32 * nd + 8 * i,
                    12 + 32 * nd + 8 * i + 2,
                ) == le16(opcode_of(ms[i])->0 as int)
        },
{
    let empty = Listing { labels: Seq::empty(), data: Seq::empty(), ins: Seq::empty() };
    let lines = lines_from(source, 0);
    lemma_pass_sized(empty, lines, 0, float_bits);
    lemma_pass_counts(empty, lines, 0, float_bits);
    if let Pass::Next(st) = pass_lines(empty, lines, 0, float_bits) {
        lemma_encode_words(st.ins, 0, st.labels, Seq::empty());
        if let Ok(code) = encode_from(st.ins, 0, st.labels, Seq::empty()) {
            let nd = st.data.len();
            let ni = st.ins.len();
            let ms = mnemonics_from(lines, 0);
            lemma_data_bytes_len(st.data, 0, Seq::empty());
            lemma_le16_len(PROG_MAGIC as int);
            lemma_le16_len(DATA_MAGIC as int);
            lemma_le16_len(CODE_MAGIC as int);
            lemma_le_bytes_len(nd % 0x1_0000, 2);
            lemma_le_bytes_len(ni % 0x1_0000_0000, 4);
            let p0 = le16(PROG_MAGIC as int);
            let p1 = le_bytes(nd % 0x1_0000, 2);
            let p2 = le_bytes(ni % 0x1_0000_0000, 4);
            let p3 = le16(DATA_MAGIC as int);
            let p4 = data_bytes(st.data, 0, Seq::empty());
            let p5 = le16(CODE_MAGIC as int);
            let b = binary_of(st, code);
            let head = p0 + p1 + p2 + p3 + p4 + p5;
            assert(b == head + code);
            assert(head.len() == 12 + 32 * nd);
            assert(b.subrange(0, 2) =~= p0);
            assert(b.subrange(2, 4) =~= p1);
            assert(b.subrange(4, 8) =~= p2);
            assert(b.subrange(8, 10) =~= p3);
            assert(b.subrange(10 + 32 * nd as int, 12 + 32 * nd as int) =~= p5);
            assert(binary_shape(b, nd, ni));
            assert forall|i: int|
                0 <= i < ms.len() implies opcode_of(#[trigger] ms[i]) is Some && b.subrange(
                12 + 32 * nd + 8 * i,
                12 + 32 * nd + 8 * i + 2,
            ) == le16(opcode_of(ms[i])->0 as int) by {
                assert(st.ins[0 + i].mnemonic == ms[i]);
                assert(opcode_of(st.ins[i].mnemonic) is Some);
                assert(b.subrange(12 + 32 * nd + 8 * i, 12 + 32 * nd + 8 * i + 2) =~= code.subrange(
                    8 * i,
                    8 * i + 2,
                ));
            }
            assert(assemble_in(source, float_bits) == Assembled::Binary(b));
        }
    }
}

// ---------------------------------------------------------------------------
// Laws of data packing and operands.
// ---------------------------------------------------------------------------

/// The data type names (compared in lower case).
pub open spec fn known_type(t: Seq<char>) -> bool {
    t == "int"@ || t == "float"@ || t == "bool"@ || t == "string"@ || t == "char"@
}

proof fn lemma_type_names_distinct()
    ensures
        "int"@ != "float"@,
        "int"@ != "bool"@,
        "int"@ != "string"@,
        "int"@ != "char"@,
        "float"@ != "bool"@,
        "float"@ != "string"@,
        "float"@ != "char"@,
        "bool"@ != "string"@,
        "bool"@ != "char"@,
        "string"@ != "char"@,
        "true"@ != "false"@,
        "true"@ != "0"@,
        "1"@ != "false"@,
        "1"@ != "0"@,
{
    reveal_strlit("int");
    reveal_strlit("float");
    reveal_strlit("bool");
    reveal_strlit("string");
    reveal_strlit("char");
    reveal_strlit("true");
    reveal_strlit("false");
    reveal_strlit("1");
    reveal_strlit("0");
    assert("int"@.len() != "float"@.len());
    assert("int"@[0] != "bool"@[0]);
    assert("int"@.len() != "string"@.len());
    assert("int"@[0] != "char"@[0]);
    assert("float"@.len() != "bool"@.len());
    assert("float"@.len() != "string"@.len());
    assert("float"@.len() != "char"@.len());
    assert("bool"@.len() != "string"@.len());
    assert("bool"@[0] != "char"@[0]);
    assert("string"@.len() != "char"@.len());
    assert("true"@.len() != "false"@.len());
    assert("true"@.len() != "0"@.len());
    assert("1"@.len() != "false"@.len());
    assert("1"@[0] != "0"@[0]);
}

/// An unknown data type: packing refuses a value exactly when its type name
/// (in lower case) is none of `int`, `float`, `bool`, `string`, `char`, and
/// the error carries the type name as written.
pub proof fn law_pack_unknown_type(typ: Seq<char>, value: Seq<char>, float_bits: spec_fn(Seq<char>) -> Option<u64>)
    ensures
        (pack_in(typ, value, float_bits) == Packed::Error(AsmErrorV::InvalidDataType(typ))) <==> !known_type(
            lower_text(typ),
        ),
{
    lemma_type_names_distinct();
}

/// Booleans: `true` and `1` (in any case) pack as one byte 1, `false` and `0`
/// as all zeros, both with type code 3; anything else is an invalid
/// immediate that quotes the value.
pub proof fn law_pack_bool(typ: Seq<char>, value: Seq<char>, float_bits: spec_fn(Seq<char>) -> Option<u64>)
    requires
        lower_text(typ) == "bool"@,
    ensures
        ({
            let w = lower_text(value);
            let r = pack_in(typ, value, float_bits);
            &&& (w == "true"@ || w == "1"@) ==> (r matches Packed::Value(3, d) && d.len() == 29
                && d[0] == 1 && forall|i: int| 1 <= i < 29 ==> d[i] == 0)
            &&& (w == "false"@ || w == "0"@) ==> (r matches Packed::Value(3, d) && d.len() == 29
                && forall|i: int| 0 <= i < 29 ==> d[i] == 0)
            &&& !(w == "true"@ || w == "1"@ || w == "false"@ || w == "0"@) ==> r == Packed::Error(
                AsmErrorV::InvalidImmediate("Invalid bool: "@ + value),
            )
        }),
{
    lemma_type_names_distinct();
    let w = lower_text(value);
    if w == "true"@ || w == "1"@ {
        let d = seq![1u8] + zeros(28);
        assert forall|i: int| 1 <= i < 29 implies d[i] == 0 by {
            assert(d[i] == zeros(28)[i - 1]);
        }
    }
}

/// Strings: without the quotes around it (when there are), a text of at
/// most 28 UTF-8 bytes packs as those bytes followed by zeros (type code 4);
/// a longer one is refused as too long; a lone quote stops assembly.
pub proof fn law_pack_string(typ: Seq<char>, value: Seq<char>, float_bits: spec_fn(Seq<char>) -> Option<u64>)
    requires
        lower_text(typ) == "string"@,
    ensures
        unquote(value, '"') is None <==> value == seq!['"'],
        unquote(value, '"') matches Some(s) ==> ({
            let b = encode_utf8(s);
            let r = pack_in(typ, value, float_bits);
            &&& b.len() <= 28 ==> (r matches Packed::Value(4, d) && d.len() == 29
                && d.subrange(0, b.len() as int) == b && forall|i: int| b.len() <= i < 29 ==> d[i] == 0)
            &&& b.len() > 28 ==> r == Packed::Error(AsmErrorV::StringTooLong(s))
        }),
{
    lemma_type_names_distinct();
    if value == seq!['"'] {
        assert(value.len() == 1 && value[0] == '"');
    }
    if unquote(value, '"') is None {
        assert(value =~= seq!['"']);
    }
    if let Some(s) = unquote(value, '"') {
        let b = encode_utf8(s);
        if b.len() <= 28 {
            let d = b + zeros((29 - b.len()) as nat);
            assert(d.subrange(0, b.len() as int) =~= b);
            assert forall|i: int| b.len() <= i < 29 implies d[i] == 0 by {
                assert(d[i] == zeros((29 - b.len()) as nat)[i - b.len()]);
            }
        }
    }
}

/// Characters: without the quotes around it (when there are), a text of one
/// UTF-8 byte packs as that character's code point in 4 little-endian bytes
/// followed by zeros (type code 5); any other is refused; a lone quote stops
/// assembly.
pub proof fn law_pack_char(typ: Seq<char>, value: Seq<char>, float_bits: spec_fn(Seq<char>) -> Option<u64>)
    requires
        lower_text(typ) == "char"@,
    ensures
        unquote(value, '\'') is None <==> value == seq!['\''],
        unquote(value, '\'') matches Some(s) ==> ({
            let r = pack_in(typ, value, float_bits);
            &&& encode_utf8(s).len() == 1 ==> (r matches Packed::Value(5, d) && d.len() == 29
                && d.subrange(0, 4) == le_bytes(s[0] as u32 as nat, 4) && forall|i: int|
                4 <= i < 29 ==> d[i] == 0)
            &&& encode_utf8(s).len() != 1 ==> r == Packed::Error(
                AsmErrorV::InvalidChar("Char must be a single character: "@ + s),
            )
        }),
{
    lemma_type_names_distinct();
    if value == seq!['\''] {
        assert(value.len() == 1 && value[0] == '\'');
    }
    if unquote(value, '\'') is None {
        assert(value =~= seq!['\'']);
    }
    if let Some(s) = unquote(value, '\'') {
        if encode_utf8(s).len() == 1 {
            assert(s.len() > 0) by {
                if s.len() == 0 {
                    assert(encode_utf8(s).len() == 0);
                }
            }
            lemma_le_bytes_len(s[0] as u32 as nat, 4);
            let d = le_bytes(s[0] as u32 as nat, 4) + zeros(25);
            assert(d.subrange(0, 4) =~= le_bytes(s[0] as u32 as nat, 4));
            assert forall|i: int| 4 <= i < 29 implies d[i] == 0 by {
                assert(d[i] == zeros(25)[i - 4]);
            }
        }
    }
}

/// Numeric operands: an instruction whose mnemonic names an opcode and whose
/// three operands are decimal integers encodes exactly when each lies in
/// range (within `i16` for a jump, within `u16` otherwise), as the opcode and
/// the three numbers, 16 bits each, little-endian and in two's complement;
/// otherwise it is refused as an invalid immediate.
pub proof fn law_numeric_operands(ins: InsV, ip: nat, labels: Seq<(Seq<char>, nat)>)
    requires
        opcode_of(ins.mnemonic) is Some,
        parse_i64(ins.dst) is Some,
        parse_i64(ins.src1) is Some,
        parse_i64(ins.src2) is Some,
    ensures
        ({
            let jump = is_jump(ins.mnemonic);
            let fits = |n: i64|
                if jump {
                    i16::MIN <= n <= i16::MAX
                } else {
                    0 <= n <= u16::MAX
                };
            let a = parse_i64(ins.dst)->0;
            let b = parse_i64(ins.src1)->0;
            let c = parse_i64(ins.src2)->0;
            &&& (fits(a) && fits(b) && fits(c)) ==> encode_ins(ins, ip, labels) == Ok::<Seq<u8>, AsmErrorV>(
                le16(opcode_of(ins.mnemonic)->0 as int) + le16(a as int) + le16(b as int) + le16(c as int),
            )
            &&& !(fits(a) && fits(b) && fits(c)) ==> encode_ins(ins, ip, labels) matches Err(
                AsmErrorV::InvalidImmediate(_),
            )
        }),
{
    assert(ins.dst.len() > 0 && ins.src1.len() > 0 && ins.src2.len() > 0);
}

/// The two little-endian bytes of a 16-bit value in two's complement.
pub open spec fn word16(n: int) -> Seq<u8> {
    let u = if n < 0 {
        n + 0x1_0000
    } else {
        n
    };
    seq![(u % 256) as u8, (u / 256) as u8]
}

proof fn lemma_le16_word(n: int)
    requires
        -0x8000 <= n <= 0xFFFF,
    ensures
        le16(n) == word16(n),
{
    let u: nat = if n < 0 {
        (n + 0x1_0000) as nat
    } else {
        n as nat
    };
    assert(le_bytes(u / 256 / 256, 0) =~= Seq::<u8>::empty());
    assert((u / 256) % 256 == u / 256);
    assert(le_bytes(u / 256, 1) =~= seq![((u / 256) % 256) as u8]);
    assert(le_bytes(u, 2) == seq![(u % 256) as u8] + le_bytes(u / 256, 1));
    assert(le_bytes(u, 2) =~= word16(n));
}

/// Whether a mnemonic begins with the letters `JMP`.
pub open spec fn begins_jmp(m: Seq<char>) -> bool {
    m.len() >= 3 && m[0] == 'J' && m[1] == 'M' && m[2] == 'P'
}

/// Jump operands: for every mnemonic that begins with `JMP` (`JMP`,
/// `JMP_TRUE`, `JMP_FALSE`), numeric operands are 16-bit offsets: each
/// within `i16` encodes as its two little-endian bytes in two's complement,
/// after the opcode. For every other mnemonic a negative operand is refused.
pub proof fn law_jump_operands(ins: InsV, ip: nat, labels: Seq<(Seq<char>, nat)>)
    requires
        opcode_of(ins.mnemonic) is Some,
        parse_i64(ins.dst) is Some,
        parse_i64(ins.src1) is Some,
        parse_i64(ins.src2) is Some,
    ensures
        ({
            let a = parse_i64(ins.dst)->0 as int;
            let b = parse_i64(ins.src1)->0 as int;
            let c = parse_i64(ins.src2)->0 as int;
            &&& begins_jmp(ins.mnemonic) && -0x8000 <= a <= 0x7FFF && -0x8000 <= b <= 0x7FFF && -0x8000
                <= c <= 0x7FFF ==> encode_ins(ins, ip, labels) == Ok::<Seq<u8>, AsmErrorV>(
                word16(opcode_of(ins.mnemonic)->0 as int) + word16(a) + word16(b) + word16(c),
            )
            &&& !begins_jmp(ins.mnemonic) && (a < 0 || b < 0 || c < 0) ==> encode_ins(
                ins,
                ip,
                labels,
            ) matches Err(AsmErrorV::InvalidImmediate(_))
        }),
{
    reveal_strlit("JMP");
    let m = ins.mnemonic;
    if begins_jmp(m) {
        assert(m.take(3) =~= "JMP"@);
    } else if m.len() >= 3 {
        assert(m.take(3) != "JMP"@) by {
            if m.take(3) == "JMP"@ {
                assert(m.take(3)[0] == m[0] && m.take(3)[1] == m[1] && m.take(3)[2] == m[2]);
            }
        }
    }
    assert(ins.dst.len() > 0 && ins.src1.len() > 0 && ins.src2.len() > 0);
    lemma_le16_word(opcode_of(m)->0 as int);
    let a = parse_i64(ins.dst)->0 as int;
    let b = parse_i64(ins.src1)->0 as int;
    let c = parse_i64(ins.src2)->0 as int;
    if -0x8000 <= a <= 0xFFFF {
        lemma_le16_word(a);
    }
    if -0x8000 <= b <= 0xFFFF {
        lemma_le16_word(b);
    }
    if -0x8000 <= c <= 0xFFFF {
        lemma_le16_word(c);
    }
}

/// The section markers as bytes: the program marker is `02 80`, the data
/// marker `01 80` and the code marker `FF 7F`.
pub proof fn law_marker_bytes()
    ensures
        le16(PROG_MAGIC as int) == seq![0x02u8, 0x80u8],
        le16(DATA_MAGIC as int) == seq![0x01u8, 0x80u8],
        le16(CODE_MAGIC as int) == seq![0xFFu8, 0x7Fu8],
{
    lemma_le16_word(PROG_MAGIC as int);
    lemma_le16_word(DATA_MAGIC as int);
    lemma_le16_word(CODE_MAGIC as int);
    assert(word16(PROG_MAGIC as int) =~= seq![0x02u8, 0x80u8]);
    assert(word16(DATA_MAGIC as int) =~= seq![0x01u8, 0x80u8]);
    assert(word16(CODE_MAGIC as int) =~= seq![0xFFu8, 0x7Fu8]);
}

/// Integers and floats: an `int` value that parses as an `i64` packs as its
/// 8 little-endian bytes in two's complement followed by zeros, with type
/// code 1, and any other is an invalid `int`; a `float` value packs the 8
/// little-endian bytes of the bits the float parser gives, with type code 2,
/// or is an invalid `float` when it gives none.
pub proof fn law_pack_numbers(typ: Seq<char>, value: Seq<char>, float_bits: spec_fn(Seq<char>) -> Option<u64>)
    ensures
        lower_text(typ) == "int"@ ==> pack_in(typ, value, float_bits) == match parse_i64(value) {
            Some(n) => Packed::Value(
                1,
                le_bytes(
                    if n < 0 {
                        (n + 0x1_0000_0000_0000_0000int) as nat
                    } else {
                        n as nat
                    },
                    8,
                ) + zeros(21),
            ),
            None => Packed::Error(AsmErrorV::InvalidImmediate("Invalid int: "@ + value)),
        },
        lower_text(typ) == "float"@ ==> pack_in(typ, value, float_bits) == match float_bits(value) {
            Some(b) => Packed::Value(2, le_bytes(b as nat, 8) + zeros(21)),
            None => Packed::Error(AsmErrorV::InvalidImmediate("Invalid float: "@ + value)),
        },
{
    lemma_type_names_distinct();
}

/// Label operands: an operand that is not a number but names a label is
/// the distance from the instruction to the label's instruction (the
/// label's index minus the instruction's), when it fits in `i16`, as two
/// little-endian bytes in two's complement; further away it is refused; a
/// name that is no label is refused as not found.
pub proof fn law_label_operands(op: Seq<char>, ip: nat, jump: bool, labels: Seq<(Seq<char>, nat)>)
    requires
        op.len() > 0,
        parse_i64(op) is None,
    ensures
        match label_target(labels, op) {
            Some(target) => if -0x8000 <= target - ip <= 0x7FFF {
                resolve(op, ip, jump, labels) == Ok::<Seq<u8>, AsmErrorV>(word16(target - ip))
            } else {
                resolve(op, ip, jump, labels) matches Err(AsmErrorV::InvalidImmediate(_))
            },
            None => resolve(op, ip, jump, labels) == Err::<Seq<u8>, AsmErrorV>(
                AsmErrorV::LabelNotFound(op),
            ),
        },
{
    if let Some(target) = label_target(labels, op) {
        if -0x8000 <= target - ip <= 0x7FFF {
            lemma_le16_word(target - ip);
        }
    }
}

/// The first label entry with a name is the one a label operand uses.
pub proof fn law_label_lookup(labels: Seq<(Seq<char>, nat)>, name: Seq<char>, i: int)
    requires
        0 <= i < labels.len(),
        labels[i].0 == name,
        forall|j: int| 0 <= j < i ==> labels[j].0 != name,
    ensures
        label_target(labels, name) == Some(labels[i].1),
    decreases i,
{
    if i > 0 {
        let rest = labels.drop_first();
        assert forall|j: int| 0 <= j < i - 1 implies rest[j].0 != name by {
            assert(rest[j] == labels[j + 1]);
        }
        law_label_lookup(rest, name, i - 1);
    }
}

} // verus!
