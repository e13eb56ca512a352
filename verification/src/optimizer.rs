//! The peephole optimizer: folds runs of unit increments and decrements
//! into counted instructions.

use vstd::prelude::*;
use crate::parser::AstNode;
use crate::parser::Instr;
use crate::parser::view_body;

verus! {

/// The length of the longest prefix of `body` that consists of `unit` only.
pub open spec fn run_length(body: Seq<Instr>, unit: Instr) -> nat
    decreases body.len(),
{
    if body.len() > 0 && body[0] == unit {
        1 + run_length(body.drop_first(), unit)
    } else {
        0
    }
}

/// A run is no longer than the sequence that it begins.
pub proof fn lemma_run_length_bound(body: Seq<Instr>, unit: Instr)
    ensures
        run_length(body, unit) <= body.len(),
    decreases body.len(),
{
    if body.len() > 0 && body[0] == unit {
        lemma_run_length_bound(body.drop_first(), unit);
    }
}

/// The folded form of an instruction sequence. A maximal run of two or more
/// increments becomes one `Add` of the run's length, and likewise for
/// decrements and `Sub`; a loop keeps its place with its body folded; every
/// other instruction is kept as it is.
pub open spec fn fold_seq(body: Seq<Instr>) -> Seq<Instr>
    decreases body,
{
    if body.len() == 0 {
        Seq::empty()
    } else {
        match body[0] {
            Instr::Increment => {
                let n = run_length(body, Instr::Increment);
                proof {
                    lemma_run_length_bound(body, Instr::Increment);
                }
                if n >= 2 {
                    seq![Instr::Add(n)] + fold_seq(body.skip(n as int))
                } else {
                    seq![Instr::Increment] + fold_seq(body.drop_first())
                }
            },
            Instr::Decrement => {
                let n = run_length(body, Instr::Decrement);
                proof {
                    lemma_run_length_bound(body, Instr::Decrement);
                }
                if n >= 2 {
                    seq![Instr::Sub(n)] + fold_seq(body.skip(n as int))
                } else {
                    seq![Instr::Decrement] + fold_seq(body.drop_first())
                }
            },
            Instr::Loop(inner) => seq![Instr::Loop(fold_seq(inner))] + fold_seq(
                body.drop_first(),
            ),
            other => seq![other] + fold_seq(body.drop_first()),
        }
    }
}

/// The folded form of a tree: a program with its sequence folded; any other
/// root as it is.
pub open spec fn fold_tree(root: Instr) -> Instr {
    match root {
        Instr::Program(body) => Instr::Program(fold_seq(body)),
        other => other,
    }
}

/// A prefix of `n` times `unit` that ends at the sequence's end, or before
/// another instruction, is the run that begins the sequence.
pub proof fn lemma_run_length_is(body: Seq<Instr>, unit: Instr, n: nat)
    requires
        n <= body.len(),
        forall|j: int| 0 <= j < n ==> body[j] == unit,
        n == body.len() || body[n as int] != unit,
    ensures
        run_length(body, unit) == n,
    decreases n,
{
    if n > 0 {
        let rest = body.drop_first();
        assert forall|j: int| 0 <= j < n - 1 implies rest[j] == unit by {
            assert(rest[j] == body[j + 1]);
        }
        lemma_run_length_is(rest, unit, (n - 1) as nat);
    }
}

/// The peephole optimizer.
pub struct Optimizer;

impl Optimizer {
    /// An optimizer. It has no state.
    pub fn new() -> (optimizer: Self) {
        Optimizer
    }

    /// Folds the runs of a program. A tree whose root is no program is
    /// copied as it is.
    pub fn optimize(&self, ast: &AstNode) -> (optimized: AstNode)
        ensures
            optimized@ == fold_tree(ast@),
    {
        match ast {
            AstNode::Program(instructions) => AstNode::Program(
                self.optimize_instructions(instructions),
            ),
            _ => ast.clone(),
        }
    }

    /// Folds the runs of an instruction sequence and, first, of the bodies
    /// of its loops.
    pub fn optimize_instructions(&self, instructions: &Vec<AstNode>) -> (optimized: Vec<AstNode>)
        ensures
            view_body(optimized@) == fold_seq(view_body(instructions@)),
        decreases instructions,
    {
        let ghost body = view_body(instructions@);
        let mut optimized: Vec<AstNode> = Vec::new();
        let mut i: usize = 0;
        assert(body.skip(0) =~= body);
        while i < instructions.len()
            invariant
                i <= instructions.len(),
                body == view_body(instructions@),
                view_body(optimized@) + fold_seq(body.skip(i as int)) =~= fold_seq(body),
            decreases instructions.len() - i,
        {
            let ghost rest = body.skip(i as int);
            let ghost done = view_body(optimized@);
            assert(rest[0] == instructions[i as int]@);
            assert(rest.drop_first() =~= body.skip(i + 1));
            match &instructions[i] {
                AstNode::Increment => {
                    let mut count: usize = 1;
                    while i + count < instructions.len() && matches!(
                        instructions[i + count],
                        AstNode::Increment
                    )
                        invariant
                            1 <= count,
                            i + count <= instructions.len(),
                            body == view_body(instructions@),
                            forall|j: int| i <= j < i + count ==> body[j] == Instr::Increment,
                        decreases instructions.len() - count,
                    {
                        count += 1;
                    }
                    proof {
                        assert forall|j: int| 0 <= j < count implies rest[j]
                            == Instr::Increment by {
                            assert(rest[j] == body[i + j]);
                        }
                        if count < rest.len() {
                            assert(rest[count as int] == instructions[i + count]@);
                        }
                        lemma_run_length_is(rest, Instr::Increment, count as nat);
                        assert(rest.skip(count as int) =~= body.skip(i + count));
                    }
                    if count > 1 {
                        optimized.push(AstNode::Add(count));
                        i += count;
                    } else {
                        optimized.push(AstNode::Increment);
                        i += 1;
                    }
                },
                AstNode::Decrement => {
                    let mut count: usize = 1;
                    while i + count < instructions.len() && matches!(
                        instructions[i + count],
                        AstNode::Decrement
                    )
                        invariant
                            1 <= count,
                            i + count <= instructions.len(),
                            body == view_body(instructions@),
                            forall|j: int| i <= j < i + count ==> body[j] == Instr::Decrement,
                        decreases instructions.len() - count,
                    {
                        count += 1;
                    }
                    proof {
                        assert forall|j: int| 0 <= j < count implies rest[j]
                            == Instr::Decrement by {
                            assert(rest[j] == body[i + j]);
                        }
                        if count < rest.len() {
                            assert(rest[count as int] == instructions[i + count]@);
                        }
                        lemma_run_length_is(rest, Instr::Decrement, count as nat);
                        assert(rest.skip(count as int) =~= body.skip(i + count));
                    }
                    if count > 1 {
                        optimized.push(AstNode::Sub(count));
                        i += count;
                    } else {
                        optimized.push(AstNode::Decrement);
                        i += 1;
                    }
                },
                AstNode::Loop(inner) => {
                    let folded = self.optimize_instructions(inner);
                    optimized.push(AstNode::Loop(folded));
                    i += 1;
                },
                other => {
                    optimized.push(other.clone());
                    i += 1;
                },
            }
            assert(view_body(optimized@) =~= done + seq![optimized@.last()@]);
        }
        optimized
    }
}

} // verus!
