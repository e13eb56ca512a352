use bfvm::compile_and_run;
use bfvm::semantics::ExecutionError;

#[test]
fn compile_and_run_returns_output_tape_and_pointer() {
    let result = compile_and_run("++++++++[>++++++++<-]>+.>");
    assert_eq!(result.output(), vec![65]);
    assert_eq!(result.memory().len(), 30000);
    assert_eq!(result.memory()[1], 65);
    assert_eq!(result.pointer(), 2);
    assert_eq!(result.error(), None);
}

#[test]
fn compile_and_run_reports_a_parse_error() {
    let result = compile_and_run("+[");
    assert_eq!(result.output(), Vec::<u8>::new());
    assert_eq!(result.memory(), vec![0u8; 30]);
    assert_eq!(result.pointer(), 0);
    assert_eq!(result.error(), Some("Error: Unclosed loop - missing ]".to_string()));
}

#[test]
fn compile_and_run_reports_a_run_error() {
    let result = compile_and_run("+.<");
    assert_eq!(result.output(), Vec::<u8>::new());
    assert_eq!(result.memory(), vec![0u8; 30]);
    assert_eq!(result.pointer(), 0);
    assert_eq!(result.error(), Some("Error: Pointer out of bounds".to_string()));
}

#[test]
fn every_error_has_its_message() {
    assert_eq!(ExecutionError::OutOfBounds.message(), "Pointer out of bounds");
    assert_eq!(ExecutionError::UserTerminated.message(), "Execution terminated by user");
    assert_eq!(ExecutionError::MalformedTree.message(), "Invalid instruction");
    assert_eq!(ExecutionError::BudgetExhausted.message(), "Iteration budget exhausted");
}
