//! The source generator: emits a program in Rust that does what the
//! instruction tree does.

use vstd::prelude::*;
use vstd::string::StringExecFns;
use crate::parser::AstNode;
use crate::parser::Instr;
use crate::parser::view_body;

verus! {

/// The text of a decimal digit.
pub open spec fn digit(d: nat) -> Seq<char> {
    if d == 0 {
        "0"@
    } else if d == 1 {
        "1"@
    } else if d == 2 {
        "2"@
    } else if d == 3 {
        "3"@
    } else if d == 4 {
        "4"@
    } else if d == 5 {
        "5"@
    } else if d == 6 {
        "6"@
    } else if d == 7 {
        "7"@
    } else if d == 8 {
        "8"@
    } else {
        "9"@
    }
}

/// The decimal numeral of a number.
pub open spec fn decimal(n: nat) -> Seq<char>
    decreases n,
{
    if n < 10 {
        digit(n)
    } else {
        decimal(n / 10) + digit(n % 10)
    }
}

/// The text that begins every generated program.
pub open spec fn prologue() -> Seq<char> {
    "fn main() {\nlet mut memory = vec![0u8; 30000];\nlet mut pointer = 0;\n\n"@
}

/// The text that ends every generated program.
pub open spec fn epilogue() -> Seq<char> {
    "}\n"@
}

/// The text generated for one instruction. A counted instruction adds or
/// subtracts its count modulo 256; input reads one byte, or 0 at the end of
/// the input; a program node below the root has no text.
pub open spec fn code_of(node: Instr) -> Seq<char>
    decreases node,
{
    match node {
        Instr::Increment => "    memory[pointer] = memory[pointer].wrapping_add(1);\n"@,
        Instr::Decrement => "    memory[pointer] = memory[pointer].wrapping_sub(1);\n"@,
        Instr::MoveRight => "    pointer += 1;\n"@,
        Instr::MoveLeft => "    pointer -= 1;\n"@,
        Instr::Output => "    print!(\"{}\", memory[pointer] as char);\n"@,
        Instr::Input => "    memory[pointer] = std::io::Read::bytes(std::io::stdin()).next().and_then(|byte| byte.ok()).unwrap_or(0);\n"@,
        Instr::Loop(body) => "    while memory[pointer] != 0 {\n"@ + code_of_seq(body) + "    }\n"@,
        Instr::Add(n) => "    memory[pointer] = memory[pointer].wrapping_add("@ + decimal(n % 256)
            + ");\n"@,
        Instr::Sub(n) => "    memory[pointer] = memory[pointer].wrapping_sub("@ + decimal(n % 256)
            + ");\n"@,
        Instr::Program(_) => Seq::empty(),
    }
}

/// The text generated for an instruction sequence: the texts of its
/// instructions, one after the other.
pub open spec fn code_of_seq(body: Seq<Instr>) -> Seq<char>
    decreases body,
{
    if body.len() == 0 {
        Seq::empty()
    } else {
        code_of(body[0]) + code_of_seq(body.drop_first())
    }
}

/// The generated program of a tree whose root is a program node.
pub open spec fn generated(root: Instr) -> Seq<char> {
    match root {
        Instr::Program(body) => prologue() + code_of_seq(body) + epilogue(),
        _ => Seq::empty(),
    }
}

/// The text of a decimal digit.
fn digit_text(d: usize) -> (text: &'static str)
    requires
        d < 10,
    ensures
        text@ == digit(d as nat),
{
    if d == 0 {
        "0"
    } else if d == 1 {
        "1"
    } else if d == 2 {
        "2"
    } else if d == 3 {
        "3"
    } else if d == 4 {
        "4"
    } else if d == 5 {
        "5"
    } else if d == 6 {
        "6"
    } else if d == 7 {
        "7"
    } else if d == 8 {
        "8"
    } else {
        "9"
    }
}

/// The decimal numeral of a number.
pub fn decimal_text(n: usize) -> (text: String)
    ensures
        text@ == decimal(n as nat),
    decreases n,
{
    if n < 10 {
        String::from_str(digit_text(n))
    } else {
        decimal_text(n / 10).concat(digit_text(n % 10))
    }
}

/// The source generator.
pub struct CodeGenerator {
    indentation: usize,
}

impl CodeGenerator {
    /// The nesting depth of the loop whose body is being generated.
    pub closed spec fn indentation(&self) -> usize {
        self.indentation
    }

    /// A generator outside any loop.
    pub fn new() -> (generator: Self)
        ensures
            generator.indentation() == 0,
    {
        CodeGenerator { indentation: 0 }
    }

    /// Generates the program of a tree. The root must be a program node.
    pub fn generate(&mut self, ast: &AstNode) -> (code: String)
        requires
            ast@ is Program,
        ensures
            code@ == generated(ast@),
            final(self).indentation() == old(self).indentation(),
    {
        let mut code = String::from_str(
            "fn main() {\nlet mut memory = vec![0u8; 30000];\nlet mut pointer = 0;\n\n",
        );
        match ast {
            AstNode::Program(instructions) => {
                let body = self.generate_sequence(instructions);
                code.append(body.as_str());
            },
            _ => {},
        }
        code.append("}\n");
        code
    }

    /// Generates the text of an instruction sequence.
    fn generate_sequence(&mut self, instructions: &Vec<AstNode>) -> (code: String)
        ensures
            code@ == code_of_seq(view_body(instructions@)),
            final(self).indentation() == old(self).indentation(),
        decreases instructions, 1nat,
    {
        let ghost body = view_body(instructions@);
        let mut code = String::new();
        let mut i: usize = 0;
        assert(body.skip(0) =~= body);
        while i < instructions.len()
            invariant
                i <= instructions.len(),
                body == view_body(instructions@),
                self.indentation() == old(self).indentation(),
                code@ + code_of_seq(body.skip(i as int)) =~= code_of_seq(body),
            decreases instructions.len() - i,
        {
            assert(body.skip(i as int).drop_first() =~= body.skip(i + 1));
            assert(body.skip(i as int)[0] == instructions[i as int]@);
            let text = self.generate_instruction(&instructions[i]);
            code.append(text.as_str());
            i += 1;
        }
        code
    }

    /// Generates the text of one instruction.
    pub fn generate_instruction(&mut self, instruction: &AstNode) -> (code: String)
        ensures
            code@ == code_of(instruction@),
            final(self).indentation() == old(self).indentation(),
        decreases instruction, 0nat,
    {
        match instruction {
            AstNode::Increment => String::from_str(
                "    memory[pointer] = memory[pointer].wrapping_add(1);\n",
            ),
            AstNode::Decrement => String::from_str(
                "    memory[pointer] = memory[pointer].wrapping_sub(1);\n",
            ),
            AstNode::MoveRight => String::from_str("    pointer += 1;\n"),
            AstNode::MoveLeft => String::from_str("    pointer -= 1;\n"),
            AstNode::Output => String::from_str("    print!(\"{}\", memory[pointer] as char);\n"),
            AstNode::Input => String::from_str(
                "    memory[pointer] = std::io::Read::bytes(std::io::stdin()).next().and_then(|byte| byte.ok()).unwrap_or(0);\n",
            ),
            AstNode::Loop(instructions) => {
                let mut code = String::from_str("    while memory[pointer] != 0 {\n");
                let outer = self.indentation;
                self.indentation = outer.saturating_add(1);
                let body = self.generate_sequence(instructions);
                code.append(body.as_str());
                self.indentation = outer;
                code.append("    }\n");
                code
            },
            AstNode::Add(n) => {
                let mut code = String::from_str(
                    "    memory[pointer] = memory[pointer].wrapping_add(",
                );
                let amount = decimal_text(*n % 256);
                code.append(amount.as_str());
                code.append(");\n");
                code
            },
            AstNode::Sub(n) => {
                let mut code = String::from_str(
                    "    memory[pointer] = memory[pointer].wrapping_sub(",
                );
                let amount = decimal_text(*n % 256);
                code.append(amount.as_str());
                code.append(");\n");
                code
            },
            AstNode::Program(_) => String::new(),
        }
    }
}

} // verus!
