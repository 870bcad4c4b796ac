use sitplc::assembler::{assemble, AssemblerError};
use sitplc::codegen::CodeGen;
use sitplc::lexer::Lexer;
use sitplc::parser::Parser;
use sitplc::semantic::SymbolTable;

fn float_bits(s: String) -> Option<u64> {
    s.parse::<f64>().ok().map(f64::to_bits)
}

fn listing(src: &str) -> String {
    let prog = Parser::new(Lexer::new(src).tokenize()).parse_program().unwrap();
    let mut table = SymbolTable::new();
    table.check_program(&prog).unwrap();
    CodeGen::new(table).generate(&prog)
}

#[test]
fn generated_listing_is_refused_by_the_assembler() {
    let text = listing("var x: int = 5;\nprint(x);\n");
    assert_eq!(
        assemble(&text, &float_bits),
        Err(AssemblerError::ParseError(".data requires at least 3 arguments at line 1".to_string()))
    );
}

#[test]
fn listing_uses_instructions_the_vm_lacks() {
    let text = listing("var x: int = 5;\nvar y: int = x + 1;\n");
    let code: Vec<&str> = text.lines().skip(1).collect();
    let bin = assemble(&code.join("\n"), &float_bits);
    assert_eq!(bin, Err(AssemblerError::InvalidOpcode("LOAD_INT".to_string())));
}
