use bfvm::interpreter::interpret_with_state;
use bfvm::interpreter::kind_of;
use bfvm::interpreter::Interpreter;
use bfvm::lexer::Lexer;
use bfvm::optimizer::Optimizer;
use bfvm::parser::AstNode;
use bfvm::parser::Parser;
use bfvm::semantics::ExecutionError;

fn tree_of(source: &str) -> AstNode {
    let tokens = Lexer::new(source).tokenize();
    Parser::new(tokens).parse().unwrap()
}

#[test]
fn test_increment() {
    let mut interpreter = Interpreter::new();
    let program = AstNode::Program(vec![AstNode::Increment, AstNode::Increment]);
    interpreter.run(&program).unwrap();
    assert_eq!(interpreter.memory()[0], 2);
}

#[test]
fn test_decrement() {
    let mut interpreter = Interpreter::new();
    let program = AstNode::Program(vec![
        AstNode::Increment,
        AstNode::Increment,
        AstNode::Decrement,
    ]);
    interpreter.run(&program).unwrap();
    assert_eq!(interpreter.memory()[0], 1);
}

#[test]
fn test_move_pointer() {
    let mut interpreter = Interpreter::new();
    let program = AstNode::Program(vec![
        AstNode::Increment,
        AstNode::MoveRight,
        AstNode::Increment,
        AstNode::Increment,
    ]);
    interpreter.run(&program).unwrap();
    assert_eq!(interpreter.memory()[0], 1);
    assert_eq!(interpreter.memory()[1], 2);
}

#[test]
fn test_simple_loop() {
    let mut interpreter = Interpreter::new();
    let program = AstNode::Program(vec![
        AstNode::Increment,
        AstNode::Increment,
        AstNode::Loop(vec![AstNode::Decrement]),
    ]);
    interpreter.run(&program).unwrap();
    assert_eq!(interpreter.memory()[0], 0);
}

#[test]
fn test_debug_mode() {
    let mut interpreter = Interpreter::new();
    interpreter.set_debug(true);
    let program = AstNode::Program(vec![
        AstNode::Increment,
        AstNode::MoveRight,
        AstNode::Add(3),
    ]);
    interpreter.run(&program).unwrap();
    assert_eq!(interpreter.memory()[0], 1);
    assert_eq!(interpreter.memory()[1], 3);
}

#[test]
fn new_engine_is_zeroed() {
    let interpreter = Interpreter::new();
    assert_eq!(interpreter.memory().len(), 30000);
    assert!(interpreter.memory().iter().all(|cell| *cell == 0));
    assert_eq!(interpreter.pointer(), 0);
    assert_eq!(interpreter.instruction_count, 0);
    assert_eq!(interpreter.loop_depth(), 0);
    assert_eq!(interpreter.budget(), usize::MAX);
    assert_eq!(interpreter.current_cell(), 0);
}

#[test]
fn increment_wraps_from_255_to_0() {
    let mut interpreter = Interpreter::new();
    let program = AstNode::Program(vec![AstNode::Add(255), AstNode::Increment]);
    let (_, tape, _) = interpreter.run_and_capture_output(&program).unwrap();
    assert_eq!(tape[0], 0);
}

#[test]
fn decrement_wraps_from_0_to_255() {
    let mut interpreter = Interpreter::new();
    let program = AstNode::Program(vec![AstNode::Decrement]);
    let (_, tape, _) = interpreter.run_and_capture_output(&program).unwrap();
    assert_eq!(tape[0], 255);
}

#[test]
fn counted_instructions_wrap_modulo_256() {
    let program = AstNode::Program(vec![
        AstNode::Add(300),
        AstNode::MoveRight,
        AstNode::Sub(513),
        AstNode::MoveRight,
        AstNode::Add(200),
        AstNode::Add(100),
    ]);
    let (_, tape, pointer) = interpret_with_state(&program).unwrap();
    assert_eq!(tape[0], 44);
    assert_eq!(tape[1], 255);
    assert_eq!(tape[2], 44);
    assert_eq!(pointer, 2);
}

#[test]
fn moving_left_from_cell_0_is_out_of_bounds() {
    let program = AstNode::Program(vec![AstNode::Increment, AstNode::MoveLeft]);
    let mut interpreter = Interpreter::new();
    assert_eq!(
        interpreter.run_and_capture_output(&program),
        Err(ExecutionError::OutOfBounds)
    );
    assert_eq!(interpreter.pointer(), 0);
    assert_eq!(interpreter.memory()[0], 1);
    assert_eq!(interpreter.run(&program), Err(ExecutionError::OutOfBounds));
}

#[test]
fn moving_right_from_the_last_cell_is_out_of_bounds() {
    let mut steps = Vec::new();
    for _ in 0..29999 {
        steps.push(AstNode::MoveRight);
    }
    let mut interpreter = Interpreter::new();
    interpreter.run_and_capture_output(&AstNode::Program(steps)).unwrap();
    assert_eq!(interpreter.pointer(), 29999);
    let one_more = AstNode::Program(vec![AstNode::MoveRight]);
    assert_eq!(
        interpreter.run_and_capture_output(&one_more),
        Err(ExecutionError::OutOfBounds)
    );
    assert_eq!(interpreter.pointer(), 29999);
    assert_eq!(interpreter.run(&one_more), Err(ExecutionError::OutOfBounds));
    assert_eq!(interpreter.pointer(), 29999);
}

#[test]
fn a_root_that_is_no_program_is_malformed() {
    let mut interpreter = Interpreter::new();
    let root = AstNode::Loop(vec![]);
    assert_eq!(interpreter.run_and_capture_output(&root), Err(ExecutionError::MalformedTree));
    assert_eq!(interpreter.run(&root), Err(ExecutionError::MalformedTree));
    assert_eq!(interpret_with_state(&AstNode::Increment), Err(ExecutionError::MalformedTree));
}

#[test]
fn a_program_node_below_the_root_is_malformed() {
    let program = AstNode::Program(vec![
        AstNode::Increment,
        AstNode::Program(vec![AstNode::Increment]),
        AstNode::Increment,
    ]);
    let mut interpreter = Interpreter::new();
    assert_eq!(
        interpreter.run_and_capture_output(&program),
        Err(ExecutionError::MalformedTree)
    );
    assert_eq!(interpreter.memory()[0], 1);
    assert_eq!(interpreter.instruction_count, 2);
    let mut plain = Interpreter::new();
    assert_eq!(plain.run(&program), Err(ExecutionError::MalformedTree));
    assert_eq!(plain.memory()[0], 1);
}

#[test]
fn capture_run_collects_output() {
    let program = tree_of("++++++++[>++++++++<-]>+.+.");
    let (output, tape, pointer) = interpret_with_state(&program).unwrap();
    assert_eq!(output, vec![65, 66]);
    assert_eq!(tape[0], 0);
    assert_eq!(tape[1], 66);
    assert_eq!(pointer, 1);
    assert_eq!(tape.len(), 30000);
}

#[test]
fn capture_run_reads_input_and_fills_with_zero() {
    let program = tree_of(",.>,.>+,.");
    let mut interpreter = Interpreter::new();
    interpreter.set_input(vec![7, 9]);
    let (output, tape, pointer) = interpreter.run_and_capture_output(&program).unwrap();
    assert_eq!(output, vec![7, 9, 0]);
    assert_eq!(&tape[0..3], &[7, 9, 0]);
    assert_eq!(pointer, 2);
}

#[test]
fn capture_run_without_input_reads_zero() {
    let program = tree_of("+++,");
    let (_, tape, _) = interpret_with_state(&program).unwrap();
    assert_eq!(tape[0], 0);
}

#[test]
fn nested_loops_are_entered_once() {
    let program = tree_of("+[[-]]");
    let mut interpreter = Interpreter::new();
    let (_, tape, pointer) = interpreter.run_and_capture_output(&program).unwrap();
    assert_eq!(tape[0], 0);
    assert_eq!(pointer, 0);
    let report = interpreter.statistics();
    assert_eq!(report.loops, vec![(1, 1), (2, 1)]);
    assert_eq!(report.instructions, 4);
    assert_eq!(interpreter.loop_depth(), 0);
}

#[test]
fn a_loop_on_a_zero_cell_is_not_entered() {
    let program = tree_of("[+>+<]");
    let mut interpreter = Interpreter::new();
    let (_, tape, _) = interpreter.run_and_capture_output(&program).unwrap();
    assert_eq!(tape[0], 0);
    assert_eq!(tape[1], 0);
    let report = interpreter.statistics();
    assert_eq!(report.instructions, 1);
    assert_eq!(report.loops, vec![(1, 0)]);
}

#[test]
fn a_loop_that_keeps_its_cell_nonzero_exhausts_any_budget() {
    let program = tree_of("+[>+<]");
    for budget in [0usize, 1, 10, 1000] {
        let mut interpreter = Interpreter::new();
        interpreter.set_budget(budget);
        assert_eq!(
            interpreter.run_and_capture_output(&program),
            Err(ExecutionError::BudgetExhausted)
        );
        assert_eq!(interpreter.memory()[1] as usize, budget % 256);
        assert_eq!(interpreter.budget(), 0);
        let mut plain = Interpreter::new();
        plain.set_budget(budget);
        assert_eq!(plain.run(&program), Err(ExecutionError::BudgetExhausted));
        assert_eq!(plain.memory()[1] as usize, budget % 256);
    }
}

#[test]
fn an_empty_loop_on_a_nonzero_cell_exhausts_the_budget() {
    let program = tree_of("+[]");
    let mut interpreter = Interpreter::new();
    interpreter.set_budget(50);
    assert_eq!(
        interpreter.run_and_capture_output(&program),
        Err(ExecutionError::BudgetExhausted)
    );
    assert_eq!(interpreter.instruction_count, 2);
}

#[test]
fn the_budget_counts_loop_iterations() {
    let program = tree_of("+++[-]");
    let mut interpreter = Interpreter::new();
    interpreter.set_budget(3);
    interpreter.run_and_capture_output(&program).unwrap();
    assert_eq!(interpreter.budget(), 0);
    let mut short = Interpreter::new();
    short.set_budget(2);
    assert_eq!(short.run_and_capture_output(&program), Err(ExecutionError::BudgetExhausted));
    assert_eq!(short.memory()[0], 1);
}

fn same_behaviour(source: &str, input: &[u8], budget: usize) {
    let tree = tree_of(source);
    let folded = Optimizer::new().optimize(&tree);
    let mut first = Interpreter::new();
    first.set_input(input.to_vec());
    first.set_budget(budget);
    let mut second = Interpreter::new();
    second.set_input(input.to_vec());
    second.set_budget(budget);
    let plain = first.run_and_capture_output(&tree);
    let optimized = second.run_and_capture_output(&folded);
    assert_eq!(plain, optimized);
    assert_eq!(first.memory(), second.memory());
    assert_eq!(first.pointer(), second.pointer());
    assert_eq!(first.budget(), second.budget());
}

#[test]
fn folding_preserves_behaviour_on_examples() {
    same_behaviour("+++>--<[->+++<]>.", &[], usize::MAX);
    same_behaviour(",[->++<]>.,+++.", &[5, 250], usize::MAX);
    same_behaviour("++[>+++[>++<-]<-]>>.", &[], usize::MAX);
    same_behaviour("--<", &[], usize::MAX);
    same_behaviour("++[>++<]", &[], 7);
    same_behaviour(
        "++++++++[>++++[>++>+++>+++>+<<<<-]>+>+>->>+[<]<-]>>.>---.+++++++..+++.>>.<-.<.+++.------.--------.>>+.>++.",
        &[],
        usize::MAX,
    );
}

#[test]
fn hello_world_prints_hello_world() {
    let tree = tree_of(
        "++++++++[>++++[>++>+++>+++>+<<<<-]>+>+>->>+[<]<-]>>.>---.+++++++..+++.>>.<-.<.+++.------.--------.>>+.>++.",
    );
    let (output, _, _) = interpret_with_state(&Optimizer::new().optimize(&tree)).unwrap();
    assert_eq!(output, b"Hello World!\n".to_vec());
}

#[test]
fn capture_runs_are_deterministic() {
    let tree = tree_of(",[->+>++<<]>.>.");
    let mut first = Interpreter::new();
    first.set_input(vec![33]);
    let mut second = Interpreter::new();
    second.set_input(vec![33]);
    let a = first.run_and_capture_output(&tree);
    let b = second.run_and_capture_output(&tree);
    assert_eq!(a, b);
    assert_eq!(a.unwrap().0, vec![33, 66]);
    assert_eq!(interpret_with_state(&tree), Interpreter::interpret_with_state(&tree));
}

#[test]
fn counters_count_instructions_by_kind() {
    let program = tree_of("++>-<[-].,");
    let mut interpreter = Interpreter::new();
    interpreter.run_and_capture_output(&program).unwrap();
    let report = interpreter.statistics();
    assert_eq!(report.instructions, 10);
    assert_eq!(interpreter.instruction_count, 10);
    assert_eq!(report.counts, vec![2, 3, 1, 1, 1, 1, 1, 0, 0, 0]);
    assert_eq!(report.nanos.len(), 10);
    assert_eq!(report.loops, vec![(1, 2)]);
}

#[test]
fn loop_tallies_accumulate_by_depth() {
    let program = tree_of("++[-[-]]+++[-]");
    let mut interpreter = Interpreter::new();
    interpreter.run_and_capture_output(&program).unwrap();
    let report = interpreter.statistics();
    assert_eq!(report.loops, vec![(1, 4), (2, 1)]);
}

#[test]
fn record_instruction_counts_once() {
    let mut interpreter = Interpreter::new();
    interpreter.record_instruction(&AstNode::Add(4));
    interpreter.record_instruction(&AstNode::Loop(vec![]));
    let report = interpreter.statistics();
    assert_eq!(report.instructions, 2);
    assert_eq!(report.counts, vec![0, 0, 0, 0, 0, 0, 1, 1, 0, 0]);
    assert_eq!(interpreter.memory()[0], 0);
}

#[test]
fn memory_window_shows_five_cells_on_either_side() {
    let mut interpreter = Interpreter::new();
    assert_eq!(
        interpreter.get_memory_window(),
        vec![(0, 0), (1, 0), (2, 0), (3, 0), (4, 0), (5, 0)]
    );
    let program = tree_of(">>>>>>>+++");
    interpreter.run_and_capture_output(&program).unwrap();
    let window = interpreter.get_memory_window();
    assert_eq!(window.len(), 11);
    assert_eq!(window[0], (2, 0));
    assert_eq!(window[5], (7, 3));
    assert_eq!(window[10], (12, 0));
}

#[test]
fn memory_window_stops_at_the_end_of_the_tape() {
    let mut steps = Vec::new();
    for _ in 0..29997 {
        steps.push(AstNode::MoveRight);
    }
    let mut interpreter = Interpreter::new();
    interpreter.run_and_capture_output(&AstNode::Program(steps)).unwrap();
    let window = interpreter.get_memory_window();
    assert_eq!(window.len(), 8);
    assert_eq!(window[0], (29992, 0));
    assert_eq!(window[7], (29999, 0));
}

#[test]
fn the_engine_keeps_its_tape_between_runs() {
    let mut interpreter = Interpreter::new();
    interpreter.run(&tree_of("+++>")).unwrap();
    interpreter.run(&tree_of("++<-")).unwrap();
    assert_eq!(interpreter.memory()[0], 2);
    assert_eq!(interpreter.memory()[1], 2);
    assert_eq!(interpreter.pointer(), 0);
    assert_eq!(interpreter.instruction_count, 8);
}

#[test]
fn execute_instruction_capture_runs_one_instruction() {
    let mut interpreter = Interpreter::new();
    let mut output = Vec::new();
    interpreter.execute_instruction_capture(&mut output, &AstNode::Add(65)).unwrap();
    interpreter.execute_instruction_capture(&mut output, &AstNode::Output).unwrap();
    assert_eq!(output, vec![65]);
    assert_eq!(
        interpreter.execute_instruction_capture(&mut output, &AstNode::MoveLeft),
        Err(ExecutionError::OutOfBounds)
    );
    let countdown = AstNode::Loop(vec![AstNode::Output, AstNode::Sub(13)]);
    interpreter.execute_instruction_capture(&mut output, &countdown).unwrap();
    assert_eq!(output, vec![65, 65, 52, 39, 26, 13]);
    assert_eq!(interpreter.current_cell(), 0);
    assert_eq!(interpreter.instruction_count, 14);
}

#[test]
fn kind_of_numbers_the_kinds() {
    let kinds = [
        AstNode::Increment,
        AstNode::Decrement,
        AstNode::MoveRight,
        AstNode::MoveLeft,
        AstNode::Input,
        AstNode::Output,
        AstNode::Loop(vec![]),
        AstNode::Add(1),
        AstNode::Sub(1),
        AstNode::Program(vec![]),
    ];
    for (index, node) in kinds.iter().enumerate() {
        assert_eq!(kind_of(node), index);
    }
}

#[test]
fn a_failed_run_leaves_the_depth_of_the_failure() {
    let program = tree_of("+[[<]]");
    let mut interpreter = Interpreter::new();
    assert_eq!(
        interpreter.run_and_capture_output(&program),
        Err(ExecutionError::OutOfBounds)
    );
    assert_eq!(interpreter.loop_depth(), 2);
    assert_eq!(interpreter.statistics().loops, vec![]);
    assert_eq!(interpreter.instruction_count, 4);
}
