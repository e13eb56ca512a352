//! Folding preserves behaviour: a folded program and the program it was
//! folded from cannot be told apart by anything the tape language observes.

use vstd::prelude::*;
use vstd::arithmetic::div_mod::lemma_add_mod_noop_right;
use crate::interpreter::captured;
use crate::optimizer::fold_seq;
use crate::optimizer::fold_tree;
use crate::optimizer::lemma_run_length_bound;
use crate::optimizer::run_length;
use crate::parser::Instr;
use crate::semantics::Outcome;
use crate::semantics::State;
use crate::semantics::bump;
use crate::semantics::counted;
use crate::semantics::done;
use crate::semantics::effect;
use crate::semantics::lemma_run_node_invariants;
use crate::semantics::lemma_run_seq_invariants;
use crate::semantics::run_loop;
use crate::semantics::run_node;
use crate::semantics::run_program;
use crate::semantics::run_seq;
use crate::semantics::wrap;

verus! {

/// Two outcomes that end alike: with the same error or none, and in states
/// that differ at most in their instrumentation counters.
pub open spec fn alike(a: Outcome, b: Outcome) -> bool {
    &&& a.error == b.error
    &&& a.state.observed() == b.state.observed()
}

/// The state after one execution of a unit instruction.
pub open spec fn once(unit: Instr, s: State) -> State {
    effect(unit, counted(unit, s)).state
}

/// The state after `count` executions of a unit instruction, one after the
/// other.
pub open spec fn repeated(unit: Instr, s: State, count: nat) -> State
    decreases count,
{
    if count == 0 {
        s
    } else {
        repeated(unit, once(unit, s), (count - 1) as nat)
    }
}

/// The change that one execution of `unit` makes to the current cell.
pub open spec fn unit_step(unit: Instr) -> int {
    if unit == Instr::Increment {
        1
    } else {
        -1
    }
}

/// Wrapping before a further addition changes nothing.
proof fn lemma_wrap_twice(a: int, b: int)
    ensures
        wrap(wrap(a) + b) == wrap(a + b),
{
    lemma_add_mod_noop_right(b, a, 256);
    assert(wrap(a) as int == a % 256);
    assert((b + a % 256) % 256 == (b + a) % 256);
}

/// Executing a unit instruction `count` times changes what is observed as
/// one counted instruction does.
proof fn lemma_repeated_unit(unit: Instr, s: State, count: nat)
    requires
        s.wf(),
        unit == Instr::Increment || unit == Instr::Decrement,
    ensures
        repeated(unit, s, count).wf(),
        repeated(unit, s, count).observed() == s.with_cell(
            wrap(s.cell() + count * unit_step(unit)),
        ).observed(),
    decreases count,
{
    let step = unit_step(unit);
    if count == 0 {
        assert(count * step == 0);
        assert(s.with_cell(wrap(s.cell() + 0)).tape =~= s.tape);
    } else {
        let next = once(unit, s);
        assert(next == counted(unit, s).with_cell(wrap(s.cell() + step)));
        lemma_repeated_unit(unit, next, (count - 1) as nat);
        let d = (count - 1) * step;
        assert(count * step == d + step) by (nonlinear_arith)
            requires
                d == (count - 1) * step,
        ;
        lemma_wrap_twice(s.cell() + step, d);
        assert(next.cell() == wrap(s.cell() + step));
        assert(next.with_cell(wrap(next.cell() + d)).tape =~= s.with_cell(
            wrap(s.cell() + count * step),
        ).tape);
    }
}

/// A sequence that begins with a run of a unit instruction does what its
/// rest does after the run's instructions have been executed.
proof fn lemma_run_of_units(unit: Instr, body: Seq<Instr>, s: State, count: nat)
    requires
        s.wf(),
        unit == Instr::Increment || unit == Instr::Decrement,
        count <= run_length(body, unit),
    ensures
        run_seq(body, s) == run_seq(body.skip(count as int), repeated(unit, s, count)),
    decreases count,
{
    lemma_run_length_bound(body, unit);
    if count == 0 {
        assert(body.skip(0) =~= body);
    } else {
        let next = once(unit, s);
        assert(run_node(unit, s) == done(next));
        lemma_run_of_units(unit, body.drop_first(), next, (count - 1) as nat);
        assert(body.drop_first().skip(count - 1) =~= body.skip(count as int));
    }
}

/// An instruction that is not a loop ends alike from states that are
/// observed alike.
proof fn lemma_simple_alike(node: Instr, s1: State, s2: State)
    requires
        s1.observed() == s2.observed(),
        !(node is Loop),
    ensures
        alike(run_node(node, s1), run_node(node, s2)),
{
}

/// The folded sequence ends as the sequence does, from states that are
/// observed alike.
pub proof fn lemma_fold_seq_alike(body: Seq<Instr>, s1: State, s2: State)
    requires
        s1.wf(),
        s2.wf(),
        s1.observed() == s2.observed(),
    ensures
        alike(run_seq(fold_seq(body), s1), run_seq(body, s2)),
    decreases s1.budget, body, 0nat,
{
    if body.len() == 0 {
        return ;
    }
    let first = body[0];
    let unit_run = (first == Instr::Increment || first == Instr::Decrement) && run_length(
        body,
        first,
    ) >= 2;
    if unit_run {
        let n = run_length(body, first);
        let folded = if first == Instr::Increment {
            Instr::Add(n)
        } else {
            Instr::Sub(n)
        };
        let rest = body.skip(n as int);
        lemma_run_length_bound(body, first);
        assert(fold_seq(body) == seq![folded] + fold_seq(rest));
        assert(fold_seq(body).drop_first() =~= fold_seq(rest));
        let r1 = run_node(folded, s1);
        let t2 = repeated(first, s2, n);
        lemma_run_of_units(first, body, s2, n);
        lemma_repeated_unit(first, s2, n);
        lemma_run_node_invariants(folded, s1);
        assert(n * 1 == n && n * (-1) == -n) by (nonlinear_arith);
        assert(r1.state.tape =~= s1.with_cell(wrap(s1.cell() + n * unit_step(first))).tape);
        assert(r1.state.observed() == t2.observed());
        lemma_fold_seq_alike(rest, r1.state, t2);
    } else {
        let rest = body.drop_first();
        let kept = match first {
            Instr::Loop(inner) => Instr::Loop(fold_seq(inner)),
            other => other,
        };
        if first == Instr::Increment || first == Instr::Decrement {
            lemma_run_length_bound(body, first);
        }
        assert(fold_seq(body) == seq![kept] + fold_seq(rest));
        assert(fold_seq(body).drop_first() =~= fold_seq(rest));
        let r1 = run_node(kept, s1);
        let r2 = run_node(first, s2);
        match first {
            Instr::Loop(inner) => {
                let c1 = counted(kept, s1);
                let c2 = counted(first, s2);
                lemma_fold_loop_alike(
                    inner,
                    State { depth: bump(c1.depth), ..c1 },
                    0,
                    State { depth: bump(c2.depth), ..c2 },
                    0,
                );
            },
            _ => {
                lemma_simple_alike(first, s1, s2);
            },
        }
        assert(alike(r1, r2));
        lemma_run_node_invariants(kept, s1);
        lemma_run_node_invariants(first, s2);
        if r1.error is None {
            lemma_fold_seq_alike(rest, r1.state, r2.state);
        }
    }
}

/// The loop over a folded body ends as the loop over the body does, from
/// states that are observed alike, whatever the iterations counted so far.
pub proof fn lemma_fold_loop_alike(
    inner: Seq<Instr>,
    s1: State,
    iterations1: usize,
    s2: State,
    iterations2: usize,
)
    requires
        s1.wf(),
        s2.wf(),
        s1.observed() == s2.observed(),
    ensures
        alike(
            run_loop(fold_seq(inner), s1, iterations1),
            run_loop(inner, s2, iterations2),
        ),
    decreases s1.budget, inner, 1nat,
{
    if s1.cell() != 0 && s1.budget > 0 {
        let spent1 = State { budget: (s1.budget - 1) as nat, ..s1 };
        let spent2 = State { budget: (s2.budget - 1) as nat, ..s2 };
        lemma_fold_seq_alike(inner, spent1, spent2);
        let r1 = run_seq(fold_seq(inner), spent1);
        let r2 = run_seq(inner, spent2);
        lemma_run_seq_invariants(fold_seq(inner), spent1);
        lemma_run_seq_invariants(inner, spent2);
        if r1.error is None {
            lemma_fold_loop_alike(inner, r1.state, bump(iterations1), r2.state, bump(iterations2));
        }
    }
}

/// Folding never changes what a program does: from any state, the folded
/// tree and the tree itself end with the same error or none, with the same
/// output, the same tape, the same pointer, the same unread input and the
/// same budget left. So a capture run returns the same for both.
pub proof fn lemma_fold_preserves_behaviour(root: Instr, s: State)
    requires
        s.wf(),
    ensures
        alike(run_program(fold_tree(root), s), run_program(root, s)),
        captured(run_program(fold_tree(root), s)) == captured(run_program(root, s)),
{
    match root {
        Instr::Program(body) => {
            lemma_fold_seq_alike(body, s, s);
        },
        _ => {},
    }
}

/// A run does not depend on the instrumentation counters: from two states
/// with the same tape, pointer, unread input, output and budget, a program
/// ends with the same error or none, and with the same tape, pointer,
/// unread input, output and budget.
pub proof fn lemma_counters_do_not_matter(root: Instr, a: State, b: State)
    requires
        a.wf(),
        b.wf(),
        a.observed() == b.observed(),
    ensures
        alike(run_program(root, a), run_program(root, b)),
{
    match root {
        Instr::Program(body) => {
            lemma_fold_seq_alike(body, a, a);
            lemma_fold_seq_alike(body, a, b);
        },
        _ => {},
    }
}

/// Capture runs are deterministic: two runs of the same tree from the same
/// tape, pointer, input and budget return the same output, tape and
/// pointer, or the same error.
pub proof fn lemma_capture_deterministic(root: Instr, a: State, b: State)
    requires
        a.wf(),
        b.wf(),
        a.observed() == b.observed(),
    ensures
        captured(run_program(root, a)) == captured(run_program(root, b)),
{
    lemma_counters_do_not_matter(root, a, b);
}

} // verus!
