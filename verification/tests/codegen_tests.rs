use bfvm::codegen::decimal_text;
use bfvm::codegen::CodeGenerator;
use bfvm::parser::AstNode;

#[test]
fn test_simple_program() {
    let program = AstNode::Program(vec![
        AstNode::Increment,
        AstNode::MoveRight,
        AstNode::Decrement,
    ]);

    let mut generator = CodeGenerator::new();
    let code = generator.generate(&program);

    assert!(code.contains("wrapping_add(1)"));
    assert!(code.contains("pointer += 1"));
    assert!(code.contains("wrapping_sub(1)"));
}

#[test]
fn test_loop_generation() {
    let program = AstNode::Program(vec![AstNode::Loop(vec![
        AstNode::Increment,
        AstNode::Decrement,
    ])]);

    let mut generator = CodeGenerator::new();
    let code = generator.generate(&program);

    assert!(code.contains("while memory[pointer] != 0"));
    assert!(code.contains("wrapping_add(1)"));
    assert!(code.contains("wrapping_sub(1)"));
}

#[test]
fn generated_program_is_exact() {
    let program = AstNode::Program(vec![
        AstNode::Add(3),
        AstNode::Loop(vec![AstNode::MoveLeft, AstNode::Output]),
        AstNode::Sub(258),
    ]);
    let code = CodeGenerator::new().generate(&program);
    let expected = "fn main() {\n\
let mut memory = vec![0u8; 30000];\n\
let mut pointer = 0;\n\
\n    memory[pointer] = memory[pointer].wrapping_add(3);\n    while memory[pointer] != 0 {\n    pointer -= 1;\n    print!(\"{}\", memory[pointer] as char);\n    }\n    memory[pointer] = memory[pointer].wrapping_sub(2);\n}\n";
    assert_eq!(code, expected);
}

#[test]
fn empty_program_has_prologue_and_epilogue_only() {
    let code = CodeGenerator::new().generate(&AstNode::Program(vec![]));
    assert_eq!(
        code,
        "fn main() {\nlet mut memory = vec![0u8; 30000];\nlet mut pointer = 0;\n\n}\n"
    );
}

#[test]
fn input_reads_a_byte_or_zero() {
    let mut generator = CodeGenerator::new();
    let code = generator.generate_instruction(&AstNode::Input);
    assert_eq!(
        code,
        "    memory[pointer] = std::io::Read::bytes(std::io::stdin()).next().and_then(|byte| byte.ok()).unwrap_or(0);\n"
    );
}

#[test]
fn program_node_below_the_root_has_no_text() {
    let mut generator = CodeGenerator::new();
    assert_eq!(generator.generate_instruction(&AstNode::Program(vec![AstNode::Increment])), "");
}

#[test]
fn decimal_text_writes_numerals() {
    assert_eq!(decimal_text(0), "0");
    assert_eq!(decimal_text(7), "7");
    assert_eq!(decimal_text(10), "10");
    assert_eq!(decimal_text(255), "255");
    assert_eq!(decimal_text(30000), "30000");
}
