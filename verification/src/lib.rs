//! A toolchain for a minimal tape language: lexer, parser, peephole
//! optimizer, execution engine and source generator.

use vstd::prelude::*;
use vstd::string::StringExecFns;
use vstd::string::StringSliceAdditionalSpecFns;
use crate::interpreter::fresh_state;
use crate::interpreter::interpret_with_state;
use crate::lexer::Lexer;
use crate::lexer::tokens_of;
use crate::optimizer::Optimizer;
use crate::optimizer::fold_tree;
use crate::parser::Instr;
use crate::parser::parse;
use crate::parser::parse_seq;
use crate::parser::unclosed_message;
use crate::semantics::message_of;
use crate::semantics::run_program;

pub mod codegen;
pub mod correspondence;
pub mod equivalence;
pub mod interpreter;
pub mod lexer;
pub mod machine;
pub mod optimizer;
pub mod parser;
pub mod semantics;

verus! {

/// Number of cells in the tape of a result that reports an error.
pub const FAILURE_TAPE_SIZE: usize = 30;

/// What compiling and running a source text gave: the output, the tape and
/// the pointer of a run that went through, or the message of an error.
pub struct ExecutionResult {
    output: Vec<u8>,
    memory: Vec<u8>,
    pointer: usize,
    error: Option<String>,
}

/// An [`ExecutionResult`] as mathematical values.
pub struct ExecutionReport {
    pub output: Seq<u8>,
    pub memory: Seq<u8>,
    pub pointer: int,
    pub error: Option<Seq<char>>,
}

impl View for ExecutionResult {
    type V = ExecutionReport;

    closed spec fn view(&self) -> ExecutionReport {
        ExecutionReport {
            output: self.output@,
            memory: self.memory@,
            pointer: self.pointer as int,
            error: match self.error {
                Some(message) => Some(message@),
                None => None,
            },
        }
    }
}

impl ExecutionResult {
    /// The output of the run.
    pub fn output(&self) -> (output: Vec<u8>)
        ensures
            output@ == self@.output,
    {
        self.output.clone()
    }

    /// The tape after the run.
    pub fn memory(&self) -> (memory: Vec<u8>)
        ensures
            memory@ == self@.memory,
    {
        self.memory.clone()
    }

    /// The pointer after the run.
    pub fn pointer(&self) -> (pointer: usize)
        ensures
            pointer == self@.pointer,
    {
        self.pointer
    }

    /// The message of the error, if there was one.
    pub fn error(&self) -> (error: Option<String>)
        ensures
            match error {
                Some(message) => self@.error == Some(message@),
                None => self@.error is None,
            },
    {
        match &self.error {
            Some(message) => Some(message.clone()),
            None => None,
        }
    }
}

/// The report of an error: no output, a short zeroed tape, and the message
/// behind the word `Error`.
pub open spec fn failure(message: Seq<char>) -> ExecutionReport {
    ExecutionReport {
        output: Seq::empty(),
        memory: Seq::new(FAILURE_TAPE_SIZE as nat, |i: int| 0u8),
        pointer: 0,
        error: Some("Error: "@ + message),
    }
}

/// What compiling and running a source text gives: its commands are
/// parsed, the program is folded and run in capture mode on a fresh engine.
pub open spec fn compiled_and_run(source: Seq<u8>) -> ExecutionReport {
    match parse_seq(tokens_of(source), 0) {
        None => failure(unclosed_message()),
        Some(parsed) => {
            let outcome = run_program(fold_tree(Instr::Program(parsed.nodes)), fresh_state());
            match outcome.error {
                Some(error) => failure(message_of(error)),
                None => ExecutionReport {
                    output: outcome.state.output,
                    memory: outcome.state.tape,
                    pointer: outcome.state.pointer,
                    error: None,
                },
            }
        },
    }
}

/// The result that reports an error.
fn failed(message: String) -> (result: ExecutionResult)
    ensures
        result@ == failure(message@),
{
    let memory = vec![0u8; FAILURE_TAPE_SIZE];
    let result = ExecutionResult {
        output: Vec::new(),
        memory,
        pointer: 0,
        error: Some(String::from_str("Error: ").concat(message.as_str())),
    };
    assert(result@.memory =~= failure(message@).memory);
    assert(result@.output =~= failure(message@).output);
    result
}

/// Compiles and runs a source text: lexes and parses it, folds the
/// program, and runs it in capture mode on a fresh engine.
pub fn compile_and_run(input: &str) -> (result: ExecutionResult)
    ensures
        result@ == compiled_and_run(input.spec_bytes()),
{
    let mut lexer = Lexer::new(input);
    let tokens = lexer.tokenize();
    let ast = match parse(tokens) {
        Ok(ast) => ast,
        Err(message) => {
            return failed(message);
        },
    };
    let optimized = Optimizer::new().optimize(&ast);
    match interpret_with_state(&optimized) {
        Ok((output, memory, pointer)) => ExecutionResult { output, memory, pointer, error: None },
        Err(error) => failed(error.message()),
    }
}

} // verus!
