//! The meaning of an instruction tree: a big-step semantics over a
//! mathematical machine state.
//!
//! Every loop iteration spends one unit of the state's budget, so that the
//! semantics is total even for programs that would otherwise run forever.

use vstd::prelude::*;
use vstd::string::StringExecFns;
use crate::parser::Instr;

verus! {

/// Why a run stopped before the end of the program.
#[derive(Debug, Clone, Copy, PartialEq, Eq, Structural)]
pub enum ExecutionError {
    /// The pointer would have left the tape.
    OutOfBounds,
    /// The operator chose to quit at a breakpoint.
    UserTerminated,
    /// A node stands where the tree's shape does not allow it.
    MalformedTree,
    /// A loop iteration was due and the iteration budget was spent.
    BudgetExhausted,
}

/// The message that describes an error.
pub open spec fn message_of(error: ExecutionError) -> Seq<char> {
    match error {
        ExecutionError::OutOfBounds => "Pointer out of bounds"@,
        ExecutionError::UserTerminated => "Execution terminated by user"@,
        ExecutionError::MalformedTree => "Invalid instruction"@,
        ExecutionError::BudgetExhausted => "Iteration budget exhausted"@,
    }
}

impl ExecutionError {
    /// The message that describes the error.
    pub fn message(&self) -> (message: String)
        ensures
            message@ == message_of(*self),
    {
        match self {
            ExecutionError::OutOfBounds => String::from_str("Pointer out of bounds"),
            ExecutionError::UserTerminated => String::from_str("Execution terminated by user"),
            ExecutionError::MalformedTree => String::from_str("Invalid instruction"),
            ExecutionError::BudgetExhausted => String::from_str("Iteration budget exhausted"),
        }
    }
}

/// Number of instruction kinds that the per-kind counters tell apart.
pub const KINDS: usize = 10;

/// The machine state: the tape with its pointer, the unread input, the
/// output produced so far, the remaining iteration budget, and the counters
/// that instrument the run.
pub struct State {
    pub tape: Seq<u8>,
    pub pointer: int,
    pub input: Seq<u8>,
    pub output: Seq<u8>,
    pub budget: nat,
    pub steps: usize,
    pub depth: usize,
    pub kinds: Seq<usize>,
    pub loops: Map<usize, usize>,
}

/// What the tape language can observe of a state: everything but the
/// instrumentation counters.
pub struct Observation {
    pub tape: Seq<u8>,
    pub pointer: int,
    pub input: Seq<u8>,
    pub output: Seq<u8>,
    pub budget: nat,
}

/// The state in which a run stopped, and the error if it did not reach the
/// end of what it was to execute.
pub struct Outcome {
    pub state: State,
    pub error: Option<ExecutionError>,
}

impl State {
    /// The pointer is on the tape and there is a counter for every kind.
    pub open spec fn wf(self) -> bool {
        &&& 0 <= self.pointer < self.tape.len()
        &&& self.kinds.len() == KINDS
    }

    /// The cell under the pointer.
    pub open spec fn cell(self) -> u8 {
        self.tape[self.pointer]
    }

    /// The same state with another value in the cell under the pointer.
    pub open spec fn with_cell(self, value: u8) -> State {
        State { tape: self.tape.update(self.pointer, value), ..self }
    }

    /// The observable part of the state.
    pub open spec fn observed(self) -> Observation {
        Observation {
            tape: self.tape,
            pointer: self.pointer,
            input: self.input,
            output: self.output,
            budget: self.budget,
        }
    }
}

/// A run that went through.
pub open spec fn done(state: State) -> Outcome {
    Outcome { state, error: None }
}

/// A run that stopped in `state` with `error`.
pub open spec fn failed(state: State, error: ExecutionError) -> Outcome {
    Outcome { state, error: Some(error) }
}

/// A counter one higher, unless it has reached the largest value.
pub open spec fn bump(counter: usize) -> usize {
    if counter < usize::MAX {
        (counter + 1) as usize
    } else {
        counter
    }
}

/// The sum of two counters, or the largest value if the sum exceeds it.
pub open spec fn tally(counter: usize, more: usize) -> usize {
    if counter + more > usize::MAX {
        usize::MAX
    } else {
        (counter + more) as usize
    }
}

/// The value of a cell after wrapping arithmetic modulo 256.
pub open spec fn wrap(value: int) -> u8 {
    (value % 256) as u8
}

/// The index of an instruction's kind among the per-kind counters.
pub open spec fn kind_index(node: Instr) -> int {
    match node {
        Instr::Increment => 0,
        Instr::Decrement => 1,
        Instr::MoveRight => 2,
        Instr::MoveLeft => 3,
        Instr::Input => 4,
        Instr::Output => 5,
        Instr::Loop(_) => 6,
        Instr::Add(_) => 7,
        Instr::Sub(_) => 8,
        Instr::Program(_) => 9,
    }
}

/// The state after an instruction has been counted, before its effect.
pub open spec fn counted(node: Instr, s: State) -> State {
    let k = kind_index(node);
    State { steps: bump(s.steps), kinds: s.kinds.update(k, bump(s.kinds[k])), ..s }
}

/// The effect of an instruction that is not a loop.
pub open spec fn effect(node: Instr, s: State) -> Outcome {
    match node {
        Instr::Increment => done(s.with_cell(wrap(s.cell() + 1))),
        Instr::Decrement => done(s.with_cell(wrap(s.cell() - 1))),
        Instr::Add(n) => done(s.with_cell(wrap(s.cell() + n))),
        Instr::Sub(n) => done(s.with_cell(wrap(s.cell() - n))),
        Instr::MoveRight => if s.pointer + 1 >= s.tape.len() {
            failed(s, ExecutionError::OutOfBounds)
        } else {
            done(State { pointer: s.pointer + 1, ..s })
        },
        Instr::MoveLeft => if s.pointer == 0 {
            failed(s, ExecutionError::OutOfBounds)
        } else {
            done(State { pointer: s.pointer - 1, ..s })
        },
        Instr::Output => done(State { output: s.output.push(s.cell()), ..s }),
        Instr::Input => if s.input.len() > 0 {
            done(State { input: s.input.drop_first(), ..s.with_cell(s.input[0]) })
        } else {
            done(s.with_cell(0))
        },
        Instr::Loop(_) => done(s),
        Instr::Program(_) => failed(s, ExecutionError::MalformedTree),
    }
}

/// The state when a loop that has run `iterations` times is left: the
/// iterations are added to the tally of the loop's depth.
pub open spec fn loop_left(s: State, iterations: usize) -> State {
    let before = if s.loops.contains_key(s.depth) {
        s.loops[s.depth]
    } else {
        0
    };
    State { loops: s.loops.insert(s.depth, tally(before, iterations)), ..s }
}

/// Executes one instruction: counts it, then applies its effect. A loop is
/// entered one level deeper; once it is left, the depth is what it was.
pub open spec fn run_node(node: Instr, s: State) -> Outcome
    decreases s.budget, node, 0nat,
{
    let s1 = counted(node, s);
    match node {
        Instr::Loop(body) => {
            let r = run_loop(body, State { depth: bump(s1.depth), ..s1 }, 0);
            if r.error is Some {
                r
            } else {
                done(State { depth: s1.depth, ..r.state })
            }
        },
        _ => effect(node, s1),
    }
}

/// Executes a sequence of instructions from left to right, up to the first
/// failure.
///
/// The comparison of the budgets makes the definition well-founded and
/// decides nothing: no run adds to the budget, as
/// [`lemma_run_node_invariants`] shows.
pub open spec fn run_seq(body: Seq<Instr>, s: State) -> Outcome
    decreases s.budget, body, 0nat,
{
    if body.len() == 0 {
        done(s)
    } else {
        let r = run_node(body[0], s);
        if r.error is Some || r.state.budget > s.budget {
            r
        } else {
            run_seq(body.drop_first(), r.state)
        }
    }
}

/// Executes a loop that has already run `iterations` times: tests the
/// current cell and, while it is nonzero, spends one unit of budget and
/// runs the body once more.
///
/// The comparison of the budgets makes the definition well-founded and
/// decides nothing: no run adds to the budget, as
/// [`lemma_run_seq_invariants`] shows.
pub open spec fn run_loop(body: Seq<Instr>, s: State, iterations: usize) -> Outcome
    decreases s.budget, body, 1nat,
{
    if s.cell() == 0 {
        done(loop_left(s, iterations))
    } else if s.budget == 0 {
        failed(s, ExecutionError::BudgetExhausted)
    } else {
        let r = run_seq(body, State { budget: (s.budget - 1) as nat, ..s });
        if r.error is Some || r.state.budget >= s.budget {
            r
        } else {
            run_loop(body, r.state, bump(iterations))
        }
    }
}

/// Executes a tree from its root, which must be a program node.
pub open spec fn run_program(root: Instr, s: State) -> Outcome {
    match root {
        Instr::Program(body) => run_seq(body, s),
        _ => failed(s, ExecutionError::MalformedTree),
    }
}

/// What every run keeps, whether it goes through or fails: the pointer
/// stays on the tape, the tape keeps its length, the budget does not grow,
/// and the instruction counter does not fall.
pub open spec fn keeps_invariants(before: State, after: State) -> bool {
    &&& after.wf()
    &&& after.tape.len() == before.tape.len()
    &&& after.budget <= before.budget
    &&& after.steps >= before.steps
}

/// One instruction keeps the invariants of the state, and a run that goes
/// through leaves the loop depth as it found it.
pub proof fn lemma_run_node_invariants(node: Instr, s: State)
    requires
        s.wf(),
    ensures
        keeps_invariants(s, run_node(node, s).state),
        run_node(node, s).error is None ==> run_node(node, s).state.depth == s.depth,
    decreases s.budget, node, 0nat,
{
    let s1 = counted(node, s);
    match node {
        Instr::Loop(body) => {
            lemma_run_loop_invariants(body, State { depth: bump(s1.depth), ..s1 }, 0);
        },
        _ => {},
    }
}

/// A sequence of instructions keeps the invariants of the state, and a run
/// that goes through leaves the loop depth as it found it.
pub proof fn lemma_run_seq_invariants(body: Seq<Instr>, s: State)
    requires
        s.wf(),
    ensures
        keeps_invariants(s, run_seq(body, s).state),
        run_seq(body, s).error is None ==> run_seq(body, s).state.depth == s.depth,
    decreases s.budget, body, 0nat,
{
    if body.len() > 0 {
        lemma_run_node_invariants(body[0], s);
        let r = run_node(body[0], s);
        if r.error is None {
            lemma_run_seq_invariants(body.drop_first(), r.state);
        }
    }
}

/// A loop keeps the invariants of the state; one that is left leaves the
/// loop depth as it found it, and the current cell at zero.
pub proof fn lemma_run_loop_invariants(body: Seq<Instr>, s: State, iterations: usize)
    requires
        s.wf(),
    ensures
        keeps_invariants(s, run_loop(body, s, iterations).state),
        run_loop(body, s, iterations).error is None ==> {
            &&& run_loop(body, s, iterations).state.depth == s.depth
            &&& run_loop(body, s, iterations).state.cell() == 0
        },
    decreases s.budget, body, 1nat,
{
    if s.cell() != 0 && s.budget > 0 {
        let spent = State { budget: (s.budget - 1) as nat, ..s };
        lemma_run_seq_invariants(body, spent);
        let r = run_seq(body, spent);
        if r.error is None {
            lemma_run_loop_invariants(body, r.state, bump(iterations));
        }
    }
}

/// Cell arithmetic wraps around: incrementing a cell at 255 gives 0, and
/// decrementing a cell at 0 gives 255.
pub proof fn lemma_wraparound(s: State)
    requires
        s.wf(),
    ensures
        s.cell() == 255 ==> run_node(Instr::Increment, s).state.cell() == 0 && run_node(
            Instr::Increment,
            s,
        ).error is None,
        s.cell() == 0 ==> run_node(Instr::Decrement, s).state.cell() == 255 && run_node(
            Instr::Decrement,
            s,
        ).error is None,
{
}

/// The pointer cannot leave the tape: moving left from cell 0 and moving
/// right from the last cell fail as out of bounds, and leave the tape and
/// the pointer as they were.
pub proof fn lemma_bounds(s: State)
    requires
        s.wf(),
    ensures
        s.pointer == 0 ==> run_node(Instr::MoveLeft, s).error == Some(
            ExecutionError::OutOfBounds,
        ) && run_node(Instr::MoveLeft, s).state.observed() == s.observed(),
        s.pointer == s.tape.len() - 1 ==> run_node(Instr::MoveRight, s).error == Some(
            ExecutionError::OutOfBounds,
        ) && run_node(Instr::MoveRight, s).state.observed() == s.observed(),
        0 < s.pointer ==> run_node(Instr::MoveLeft, s).error is None,
        s.pointer < s.tape.len() - 1 ==> run_node(Instr::MoveRight, s).error is None,
{
}

/// The body never turns a nonzero current cell into zero: every run of it
/// that goes through from a nonzero cell ends on a nonzero cell.
pub open spec fn keeps_nonzero(body: Seq<Instr>) -> bool {
    forall|t: State|
        t.wf() && t.cell() != 0 && (#[trigger] run_seq(body, t)).error is None ==> run_seq(
            body,
            t,
        ).state.cell() != 0
}

/// A loop on a zero cell does not run its body: it is left at once, with
/// nothing changed but the tally of its depth.
pub proof fn lemma_loop_on_zero(body: Seq<Instr>, s: State, iterations: usize)
    requires
        s.cell() == 0,
    ensures
        run_loop(body, s, iterations) == done(loop_left(s, iterations)),
{
}

/// A loop on a nonzero cell whose body never turns that cell into zero is
/// never left: whatever the budget, the run ends with an error.
pub proof fn lemma_loop_never_left(body: Seq<Instr>, s: State, iterations: usize)
    requires
        s.wf(),
        s.cell() != 0,
        keeps_nonzero(body),
    ensures
        run_loop(body, s, iterations).error is Some,
    decreases s.budget,
{
    if s.budget > 0 {
        let spent = State { budget: (s.budget - 1) as nat, ..s };
        let r = run_seq(body, spent);
        lemma_run_seq_invariants(body, spent);
        if r.error is None {
            lemma_loop_never_left(body, r.state, bump(iterations));
        }
    }
}

} // verus!
