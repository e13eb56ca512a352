use bfvm::interpreter::Interpreter;
use bfvm::lexer::Lexer;
use bfvm::machine::Hit;
use bfvm::machine::Pause;
use bfvm::machine::Reply;
use bfvm::parser::AstNode;
use bfvm::parser::Parser;
use bfvm::semantics::ExecutionError;

fn tree(source: &str) -> AstNode {
    let tokens = Lexer::new(source).tokenize();
    Parser::new(tokens).parse().unwrap()
}

#[test]
fn a_run_without_input_and_output_finishes_at_once() {
    let program = tree("+++[>++<-]");
    let mut interpreter = Interpreter::new();
    assert_eq!(interpreter.run(&program), Ok(Pause::Finished));
    assert_eq!(interpreter.memory()[1], 6);
    assert_eq!(interpreter.resume(&program, Reply::Continue), Ok(Pause::Finished));
    assert_eq!(interpreter.memory()[1], 6);
}

#[test]
fn output_pauses_with_the_byte() {
    let program = tree("+++.+.");
    let mut interpreter = Interpreter::new();
    assert_eq!(interpreter.run(&program), Ok(Pause::Output(3)));
    assert_eq!(interpreter.resume(&program, Reply::Continue), Ok(Pause::Output(4)));
    assert_eq!(interpreter.resume(&program, Reply::Continue), Ok(Pause::Finished));
}

#[test]
fn input_pauses_for_a_byte() {
    let program = tree(",+.>,.");
    let mut interpreter = Interpreter::new();
    assert_eq!(interpreter.run(&program), Ok(Pause::Input));
    assert_eq!(interpreter.resume(&program, Reply::Byte(41)), Ok(Pause::Output(42)));
    assert_eq!(interpreter.resume(&program, Reply::Continue), Ok(Pause::Input));
    assert_eq!(interpreter.resume(&program, Reply::EndOfInput), Ok(Pause::Output(0)));
    assert_eq!(interpreter.resume(&program, Reply::Continue), Ok(Pause::Finished));
    assert_eq!(interpreter.memory()[0], 42);
}

#[test]
fn exhausted_input_fills_the_cell_with_zero() {
    let program = tree("+++,");
    let mut interpreter = Interpreter::new();
    assert_eq!(interpreter.run(&program), Ok(Pause::Input));
    assert_eq!(interpreter.memory()[0], 3);
    assert_eq!(interpreter.resume(&program, Reply::EndOfInput), Ok(Pause::Finished));
    assert_eq!(interpreter.memory()[0], 0);
}

#[test]
fn plain_and_capture_runs_agree() {
    let program = tree("++[>+++[>+.<-]<-]>>.");
    let (output, tape, pointer) = Interpreter::new().run_and_capture_output(&program).unwrap();
    let mut plain = Interpreter::new();
    let mut emitted = Vec::new();
    let mut pause = plain.run(&program).unwrap();
    while pause != Pause::Finished {
        match pause {
            Pause::Output(byte) => emitted.push(byte),
            _ => panic!("unexpected pause"),
        }
        pause = plain.resume(&program, Reply::Continue).unwrap();
    }
    assert_eq!(emitted, output);
    assert_eq!(plain.memory(), &tape);
    assert_eq!(plain.pointer(), pointer);
    let capture_report = {
        let mut engine = Interpreter::new();
        engine.run_and_capture_output(&program).unwrap();
        engine.statistics()
    };
    let report = plain.statistics();
    assert_eq!(report.instructions, capture_report.instructions);
    assert_eq!(report.counts, capture_report.counts);
    assert_eq!(report.loops, capture_report.loops);
}

#[test]
fn instruction_breakpoint_suspends_before_the_instruction() {
    let program = tree("+++");
    let mut interpreter = Interpreter::new();
    interpreter.set_instruction_breakpoint(2);
    assert_eq!(
        interpreter.run(&program),
        Ok(Pause::Breakpoint { hit: Hit::InstructionCount(2), kind: 0 })
    );
    assert_eq!(interpreter.memory()[0], 1);
    assert_eq!(interpreter.instruction_count, 2);
    assert_eq!(interpreter.resume(&program, Reply::Continue), Ok(Pause::Finished));
    assert_eq!(interpreter.memory()[0], 3);
}

#[test]
fn quitting_at_a_breakpoint_terminates_the_run() {
    let program = tree("+++");
    let mut interpreter = Interpreter::new();
    interpreter.set_instruction_breakpoint(2);
    interpreter.run(&program).unwrap();
    assert_eq!(
        interpreter.resume(&program, Reply::Quit),
        Err(ExecutionError::UserTerminated)
    );
    assert_eq!(interpreter.memory()[0], 1);
}

#[test]
fn memory_breakpoint_triggers_each_time_the_value_recurs() {
    let program = tree("+>+>");
    let mut interpreter = Interpreter::new();
    interpreter.set_memory_breakpoint(1);
    assert_eq!(
        interpreter.run(&program),
        Ok(Pause::Breakpoint { hit: Hit::MemoryValue(1), kind: 2 })
    );
    assert_eq!(
        interpreter.resume(&program, Reply::Continue),
        Ok(Pause::Breakpoint { hit: Hit::MemoryValue(1), kind: 2 })
    );
    assert_eq!(interpreter.resume(&program, Reply::Continue), Ok(Pause::Finished));
    assert_eq!(interpreter.pointer(), 2);
}

#[test]
fn loop_breakpoint_matches_the_depth() {
    let program = tree("+[-]");
    let mut interpreter = Interpreter::new();
    interpreter.set_loop_breakpoint(1);
    assert_eq!(
        interpreter.run(&program),
        Ok(Pause::Breakpoint { hit: Hit::LoopDepth(1), kind: 1 })
    );
    assert_eq!(interpreter.loop_depth(), 1);
    assert_eq!(interpreter.current_cell(), 1);
    assert_eq!(interpreter.resume(&program, Reply::Continue), Ok(Pause::Finished));
    assert_eq!(interpreter.loop_depth(), 0);
}

#[test]
fn breakpoints_are_checked_in_order() {
    let program = tree("+");
    let mut interpreter = Interpreter::new();
    interpreter.set_loop_breakpoint(0);
    interpreter.set_memory_breakpoint(0);
    assert_eq!(interpreter.check_breakpoints(), Some(Hit::MemoryValue(0)));
    interpreter.set_instruction_breakpoint(1);
    assert_eq!(
        interpreter.run(&program),
        Ok(Pause::Breakpoint { hit: Hit::InstructionCount(1), kind: 0 })
    );
}

#[test]
fn no_breakpoint_is_armed_on_a_new_engine() {
    let interpreter = Interpreter::new();
    assert_eq!(interpreter.check_breakpoints(), None);
    assert!(!interpreter.debug_step());
}

#[test]
fn single_steps_pause_after_every_effect() {
    let program = tree("+.[-]");
    let mut interpreter = Interpreter::new();
    interpreter.set_debug(true);
    interpreter.set_step_by_step(true);
    assert!(interpreter.debug_step());
    assert_eq!(interpreter.run(&program), Ok(Pause::Step));
    assert_eq!(interpreter.memory()[0], 1);
    assert_eq!(interpreter.resume(&program, Reply::Continue), Ok(Pause::Output(1)));
    assert_eq!(interpreter.resume(&program, Reply::Continue), Ok(Pause::Step));
    assert_eq!(interpreter.resume(&program, Reply::Continue), Ok(Pause::Step));
    assert_eq!(interpreter.memory()[0], 0);
    assert_eq!(interpreter.resume(&program, Reply::Continue), Ok(Pause::Step));
    assert_eq!(interpreter.resume(&program, Reply::Continue), Ok(Pause::Finished));
}

#[test]
fn single_steps_need_debug_mode() {
    let program = tree("++");
    let mut interpreter = Interpreter::new();
    interpreter.set_step_by_step(true);
    assert!(!interpreter.debug_step());
    assert_eq!(interpreter.run(&program), Ok(Pause::Finished));
}

#[test]
fn execute_instruction_takes_one_step() {
    let program = tree("+[-]");
    let mut interpreter = Interpreter::new();
    assert_eq!(
        interpreter.execute_instruction(&program, Reply::Continue),
        Some(Err(ExecutionError::MalformedTree))
    );
    let mut engine = Interpreter::new();
    engine.set_instruction_breakpoint(1);
    engine.run(&program).unwrap();
    assert_eq!(engine.execute_instruction(&program, Reply::Continue), None);
    assert_eq!(engine.memory()[0], 1);
    assert_eq!(engine.execute_instruction(&program, Reply::Continue), None);
    assert_eq!(engine.loop_depth(), 1);
    assert_eq!(engine.execute_instruction(&program, Reply::Continue), None);
    assert_eq!(engine.budget(), usize::MAX - 1);
    assert_eq!(engine.execute_instruction(&program, Reply::Continue), None);
    assert_eq!(engine.memory()[0], 0);
    assert_eq!(engine.execute_instruction(&program, Reply::Continue), None);
    assert_eq!(engine.loop_depth(), 0);
    assert_eq!(
        engine.execute_instruction(&program, Reply::Continue),
        Some(Ok(Pause::Finished))
    );
}

#[test]
fn resuming_over_another_tree_is_malformed() {
    let program = tree("+[.-]");
    let other = tree("+");
    let mut interpreter = Interpreter::new();
    assert_eq!(interpreter.run(&program), Ok(Pause::Output(1)));
    assert_eq!(
        interpreter.resume(&other, Reply::Continue),
        Err(ExecutionError::MalformedTree)
    );
}
