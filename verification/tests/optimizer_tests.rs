use bfvm::optimizer::Optimizer;
use bfvm::parser::AstNode;

#[test]
fn test_optimize_increments() {
    let program = AstNode::Program(vec![
        AstNode::Increment,
        AstNode::Increment,
        AstNode::Increment,
    ]);

    let optimizer = Optimizer::new();
    let optimized = optimizer.optimize(&program);

    if let AstNode::Program(instructions) = optimized {
        assert_eq!(instructions.len(), 1);
        assert!(matches!(instructions[0], AstNode::Add(3)));
    } else {
        panic!("Expected Program node");
    }
}

#[test]
fn test_optimize_mixed() {
    let program = AstNode::Program(vec![
        AstNode::Increment,
        AstNode::Increment,
        AstNode::MoveRight,
        AstNode::Decrement,
        AstNode::Decrement,
    ]);

    let optimizer = Optimizer::new();
    let optimized = optimizer.optimize(&program);

    if let AstNode::Program(instructions) = optimized {
        assert_eq!(instructions.len(), 3);
        assert!(matches!(instructions[0], AstNode::Add(2)));
        assert!(matches!(instructions[1], AstNode::MoveRight));
        assert!(matches!(instructions[2], AstNode::Sub(2)));
    } else {
        panic!("Expected Program node");
    }
}

#[test]
fn single_units_are_kept() {
    let program = AstNode::Program(vec![
        AstNode::Increment,
        AstNode::Decrement,
        AstNode::Increment,
    ]);
    let optimized = Optimizer::new().optimize(&program);
    assert_eq!(
        optimized,
        AstNode::Program(vec![AstNode::Increment, AstNode::Decrement, AstNode::Increment])
    );
}

#[test]
fn runs_of_different_kinds_are_not_merged() {
    let program = AstNode::Program(vec![
        AstNode::Increment,
        AstNode::Increment,
        AstNode::Decrement,
        AstNode::Decrement,
        AstNode::Decrement,
    ]);
    let optimized = Optimizer::new().optimize(&program);
    assert_eq!(optimized, AstNode::Program(vec![AstNode::Add(2), AstNode::Sub(3)]));
}

#[test]
fn loop_bodies_are_folded_and_runs_do_not_cross_loops() {
    let program = AstNode::Program(vec![
        AstNode::Increment,
        AstNode::Loop(vec![
            AstNode::Increment,
            AstNode::Increment,
            AstNode::Loop(vec![AstNode::Decrement, AstNode::Decrement]),
            AstNode::Increment,
        ]),
        AstNode::Increment,
    ]);
    let optimized = Optimizer::new().optimize(&program);
    assert_eq!(
        optimized,
        AstNode::Program(vec![
            AstNode::Increment,
            AstNode::Loop(vec![
                AstNode::Add(2),
                AstNode::Loop(vec![AstNode::Sub(2)]),
                AstNode::Increment,
            ]),
            AstNode::Increment,
        ])
    );
}

#[test]
fn counted_instructions_are_copied() {
    let program = AstNode::Program(vec![AstNode::Add(5), AstNode::Add(5), AstNode::Sub(1)]);
    let optimized = Optimizer::new().optimize(&program);
    assert_eq!(optimized, program);
}

#[test]
fn a_root_that_is_no_program_is_copied() {
    let root = AstNode::Loop(vec![AstNode::Increment, AstNode::Increment]);
    let optimized = Optimizer::new().optimize(&root);
    assert_eq!(optimized, root);
}

#[test]
fn optimize_instructions_folds_a_sequence() {
    let body = vec![AstNode::Decrement, AstNode::Decrement, AstNode::Output];
    let folded = Optimizer::new().optimize_instructions(&body);
    assert_eq!(folded, vec![AstNode::Sub(2), AstNode::Output]);
}
