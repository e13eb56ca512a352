//! The execution engine: a tape, a pointer, and the counters that
//! instrument a run.
//!
//! The engine runs a tree in two ways. A capture run executes the whole
//! tree at once, with input from a buffer and output into a buffer. A plain
//! run proceeds from pause to pause, so that its controller can emit each
//! output byte, supply each input byte, and decide at each breakpoint.
//!
//! Counters saturate: instrumentation never fails a run. Every loop
//! iteration spends one unit of an iteration budget, which is what bounds a
//! run; an engine is made with the largest budget.

use vstd::prelude::*;
use std::collections::HashMap;
use std::time::Duration;
use std::time::Instant;
use vstd::arithmetic::div_mod::lemma_add_mod_noop_right;
use vstd::arithmetic::div_mod::lemma_sub_mod_noop_right;
use crate::machine::Frame;
use crate::machine::Hit;
use crate::machine::Pause;
use crate::machine::Pending;
use crate::machine::Reply;
use crate::machine::Session;
use crate::machine::advance_tree;
use crate::machine::body_of;
use crate::machine::breakpoint_hit;
use crate::machine::dispatch;
use crate::machine::lemma_body_of_prefix;
use crate::machine::lemma_dispatch;
use crate::machine::lemma_moved_on;
use crate::machine::lemma_step;
use crate::machine::lemma_test_loop;
use crate::machine::run_plain;
use crate::machine::started;
use crate::machine::step_tree;
use crate::machine::test_loop;
use crate::machine::work_left;
use crate::parser::AstNode;
use crate::parser::Instr;
use crate::parser::view_body;
use crate::semantics::ExecutionError;
use crate::semantics::Outcome;
use crate::semantics::State;
use crate::semantics::KINDS;
use crate::semantics::bump;
use crate::semantics::counted;
use crate::semantics::effect;
use crate::semantics::kind_index;
use crate::semantics::lemma_run_node_invariants;
use crate::semantics::loop_left;
use crate::semantics::run_loop;
use crate::semantics::run_node;
use crate::semantics::run_program;
use crate::semantics::run_seq;

verus! {

broadcast use vstd::std_specs::hash::group_hash_axioms;

/// Number of cells of the tape of a new interpreter.
pub const DEFAULT_TAPE_SIZE: usize = 30000;

/// std's `Instant`. To the verifier a value of it is opaque: the engine
/// only carries it from the clock to the computation of a duration.
#[verifier::external_type_specification]
#[verifier::external_body]
pub struct ExInstant(Instant);

/// The armed breakpoints. Each is optional and independent of the others.
#[derive(Debug, Clone, Copy, PartialEq, Eq, Structural)]
pub struct Breakpoints {
    /// Suspend when the instruction counter has this value.
    pub instruction_count: Option<usize>,
    /// Suspend when the current cell has this value.
    pub memory_value: Option<u8>,
    /// Suspend when the loop depth has this value.
    pub loop_depth: Option<usize>,
}

/// The execution engine.
pub struct Interpreter {
    memory: Vec<u8>,
    pointer: usize,
    tape_size: usize,
    debug: bool,
    /// Number of instructions counted so far.
    pub instruction_count: usize,
    loop_depth: usize,
    step_by_step: bool,
    instruction_times: Vec<u128>,
    instruction_counts: Vec<usize>,
    loop_iterations: HashMap<usize, usize>,
    deepest: usize,
    breakpoints: Breakpoints,
    input: Vec<u8>,
    consumed: usize,
    budget: usize,
    frames: Vec<Frame>,
    starts: Vec<Instant>,
    pending: Pending,
}

/// Reads the clock, by `Instant::now`. Nothing is claimed of the instant.
#[verifier::external_body]
fn clock_now() -> (start: Instant) {
    Instant::now()
}

/// The time that has passed since `start`, by `Instant::elapsed`. Nothing is
/// claimed of the duration.
#[verifier::external_body]
fn clock_elapsed(start: &Instant) -> (spent: Duration) {
    start.elapsed()
}

/// A duration in whole nanoseconds, by `Duration::as_nanos`. Nothing is
/// claimed of the number.
#[verifier::external_body]
fn duration_nanos(spent: &Duration) -> (nanos: u128) {
    spent.as_nanos()
}

/// The index of an instruction's kind among the per-kind counters.
pub fn kind_of(instruction: &AstNode) -> (k: usize)
    ensures
        k == kind_index(instruction@),
        k < KINDS,
{
    match instruction {
        AstNode::Increment => 0,
        AstNode::Decrement => 1,
        AstNode::MoveRight => 2,
        AstNode::MoveLeft => 3,
        AstNode::Input => 4,
        AstNode::Output => 5,
        AstNode::Loop(_) => 6,
        AstNode::Add(_) => 7,
        AstNode::Sub(_) => 8,
        AstNode::Program(_) => 9,
    }
}

/// The outcome of a run as a `Result`.
pub open spec fn as_result(error: Option<ExecutionError>) -> Result<(), ExecutionError> {
    match error {
        None => Ok(()),
        Some(e) => Err(e),
    }
}

/// What a capture run returns for an outcome: the output, the tape and the
/// pointer of a run that went through, or the error of one that failed.
pub open spec fn captured(outcome: Outcome) -> Result<(Seq<u8>, Seq<u8>, int), ExecutionError> {
    match outcome.error {
        Some(e) => Err(e),
        None => Ok((outcome.state.output, outcome.state.tape, outcome.state.pointer)),
    }
}

/// The result of a capture run as mathematical values.
pub open spec fn capture_view(result: Result<(Vec<u8>, Vec<u8>, usize), ExecutionError>) -> Result<
    (Seq<u8>, Seq<u8>, int),
    ExecutionError,
> {
    match result {
        Ok((output, tape, pointer)) => Ok((output@, tape@, pointer as int)),
        Err(e) => Err(e),
    }
}

/// The state of a fresh engine.
pub open spec fn fresh_state() -> State {
    State {
        tape: Seq::new(DEFAULT_TAPE_SIZE as nat, |i: int| 0u8),
        pointer: 0,
        input: Seq::empty(),
        output: Seq::empty(),
        budget: usize::MAX as nat,
        steps: 0,
        depth: 0,
        kinds: Seq::new(KINDS as nat, |i: int| 0usize),
        loops: Map::empty(),
    }
}

/// The cells around the pointer, each with its index: up to five on either
/// side, as far as the tape goes.
pub open spec fn memory_window(s: State) -> Seq<(usize, u8)> {
    let start = if s.pointer < 5 {
        0
    } else {
        s.pointer - 5
    };
    let end = if s.pointer + 5 > s.tape.len() - 1 {
        s.tape.len() - 1
    } else {
        s.pointer + 5
    };
    Seq::new((end - start + 1) as nat, |j: int| ((start + j) as usize, s.tape[start + j]))
}

/// A report of the engine's counters, as plain values.
pub struct Statistics {
    /// Instructions counted.
    pub instructions: usize,
    /// Instructions counted of each kind, by kind index.
    pub counts: Vec<usize>,
    /// Nanoseconds spent on each kind, by kind index.
    pub nanos: Vec<u128>,
    /// For each loop depth at which a loop was left, the depth and the
    /// iterations counted there, by increasing depth.
    pub loops: Vec<(usize, usize)>,
}

/// The list holds the entries of the tally, each once, by increasing depth.
pub open spec fn lists_tallies(list: Seq<(usize, usize)>, tallies: Map<usize, usize>) -> bool {
    &&& forall|i: int|
        0 <= i < list.len() ==> tallies.contains_key((#[trigger] list[i]).0) && tallies[list[i].0]
            == list[i].1
    &&& forall|i: int, j: int|
        0 <= i < j < list.len() ==> (#[trigger] list[i]).0 < (#[trigger] list[j]).0
    &&& forall|d: usize| #[trigger]
        tallies.contains_key(d) ==> exists|i: int| 0 <= i < list.len() && (#[trigger] list[i]).0 == d
}

/// Two sessions with the same cursor, the same thing pending and the same
/// instrumentation settings.
pub open spec fn same_controls(a: Session, b: Session) -> bool {
    &&& a.frames == b.frames
    &&& a.pending == b.pending
    &&& a.breakpoints == b.breakpoints
    &&& a.debug == b.debug
    &&& a.step_by_step == b.step_by_step
}

/// The totals after `nanos` have been added to the total of `kind`: that
/// total is the sum, or the largest value if the sum exceeds it; every
/// other total is as it was.
pub open spec fn timed(times: Seq<u128>, kind: int, nanos: u128) -> Seq<u128> {
    times.update(
        kind,
        if times[kind] + nanos > u128::MAX {
            u128::MAX
        } else {
            (times[kind] + nanos) as u128
        },
    )
}

/// Every total of the later sequence is at least the total of the earlier.
pub open spec fn times_grow(earlier: Seq<u128>, later: Seq<u128>) -> bool {
    &&& later.len() == earlier.len()
    &&& forall|k: int| 0 <= k < earlier.len() ==> later[k] >= #[trigger] earlier[k]
}

impl Interpreter {
    /// The tape is as long as its size says, the pointer is on it, the
    /// input position is within the input, every kind has its counters, and
    /// the session is well-formed.
    pub closed spec fn wf(&self) -> bool {
        &&& self.memory.len() == self.tape_size
        &&& self.pointer < self.tape_size
        &&& self.consumed <= self.input.len()
        &&& self.instruction_counts.len() == KINDS
        &&& self.instruction_times.len() == KINDS
        &&& self.starts.len() == self.frames.len()
        &&& forall|d: usize| #[trigger] self.loop_iterations@.contains_key(d) ==> d <= self.deepest
        &&& self.session().wf()
    }

    /// The session that the engine stands for. Its state holds no output:
    /// the engine hands output out and keeps none.
    pub closed spec fn session(&self) -> Session {
        Session {
            state: State {
                tape: self.memory@,
                pointer: self.pointer as int,
                input: self.input@.skip(self.consumed as int),
                output: Seq::empty(),
                budget: self.budget as nat,
                steps: self.instruction_count,
                depth: self.loop_depth,
                kinds: self.instruction_counts@,
                loops: self.loop_iterations@,
            },
            frames: self.frames@,
            pending: self.pending,
            breakpoints: self.breakpoints,
            debug: self.debug,
            step_by_step: self.step_by_step,
        }
    }

    /// The machine state that the engine stands for, given the output
    /// produced so far.
    pub open spec fn state(&self, output: Seq<u8>) -> State {
        State { output, ..self.session().state }
    }

    /// The nanoseconds accumulated for each instruction kind.
    pub closed spec fn times(&self) -> Seq<u128> {
        self.instruction_times@
    }

    /// A fresh engine: a zeroed tape of the default size, the pointer on
    /// cell 0, no input, all counters at zero, no breakpoint armed, no run
    /// begun, and the largest iteration budget.
    pub fn new() -> (interpreter: Self)
        ensures
            interpreter.wf(),
            interpreter.times() == Seq::new(KINDS as nat, |i: int| 0u128),
            interpreter.session() == (Session {
                state: fresh_state(),
                frames: Seq::empty(),
                pending: Pending::Nothing,
                breakpoints: Breakpoints {
                    instruction_count: None,
                    memory_value: None,
                    loop_depth: None,
                },
                debug: false,
                step_by_step: false,
            }),
    {
        let interpreter = Interpreter {
            memory: vec![0u8; DEFAULT_TAPE_SIZE],
            pointer: 0,
            tape_size: DEFAULT_TAPE_SIZE,
            debug: false,
            instruction_count: 0,
            loop_depth: 0,
            step_by_step: false,
            instruction_times: vec![0u128; KINDS],
            instruction_counts: vec![0usize; KINDS],
            loop_iterations: HashMap::new(),
            deepest: 0,
            breakpoints: Breakpoints {
                instruction_count: None,
                memory_value: None,
                loop_depth: None,
            },
            input: Vec::new(),
            consumed: 0,
            budget: usize::MAX,
            frames: Vec::new(),
            starts: Vec::new(),
            pending: Pending::Nothing,
        };
        proof {
            let s = interpreter.session().state;
            assert(s.tape =~= Seq::new(DEFAULT_TAPE_SIZE as nat, |i: int| 0u8));
            assert(s.kinds =~= Seq::new(KINDS as nat, |i: int| 0usize));
            assert(s.input =~= Seq::empty());
            assert(s.loops =~= Map::empty());
            assert(interpreter.times() =~= Seq::new(KINDS as nat, |i: int| 0u128));
            assert(interpreter.session().frames =~= Seq::empty());
        }
        interpreter
    }

    /// Switches debug mode on or off.
    pub fn set_debug(&mut self, debug: bool)
        requires
            old(self).wf(),
        ensures
            final(self).wf(),
            final(self).times() == old(self).times(),
            final(self).session() == (Session { debug, ..old(self).session() }),
    {
        self.debug = debug;
    }

    /// Switches single steps on or off. They take effect in debug mode.
    pub fn set_step_by_step(&mut self, enabled: bool)
        requires
            old(self).wf(),
        ensures
            final(self).wf(),
            final(self).times() == old(self).times(),
            final(self).session() == (Session { step_by_step: enabled, ..old(self).session() }),
    {
        self.step_by_step = enabled;
    }

    /// Arms the breakpoint on the instruction counter.
    pub fn set_instruction_breakpoint(&mut self, count: usize)
        requires
            old(self).wf(),
        ensures
            final(self).wf(),
            final(self).times() == old(self).times(),
            final(self).session() == (Session {
                breakpoints: Breakpoints {
                    instruction_count: Some(count),
                    ..old(self).session().breakpoints
                },
                ..old(self).session()
            }),
    {
        self.breakpoints.instruction_count = Some(count);
    }

    /// Arms the breakpoint on the value of the current cell.
    pub fn set_memory_breakpoint(&mut self, value: u8)
        requires
            old(self).wf(),
        ensures
            final(self).wf(),
            final(self).times() == old(self).times(),
            final(self).session() == (Session {
                breakpoints: Breakpoints {
                    memory_value: Some(value),
                    ..old(self).session().breakpoints
                },
                ..old(self).session()
            }),
    {
        self.breakpoints.memory_value = Some(value);
    }

    /// Arms the breakpoint on the loop depth.
    pub fn set_loop_breakpoint(&mut self, depth: usize)
        requires
            old(self).wf(),
        ensures
            final(self).wf(),
            final(self).times() == old(self).times(),
            final(self).session() == (Session {
                breakpoints: Breakpoints {
                    loop_depth: Some(depth),
                    ..old(self).session().breakpoints
                },
                ..old(self).session()
            }),
    {
        self.breakpoints.loop_depth = Some(depth);
    }

    /// Replaces the input of capture runs; all of it is unread.
    pub fn set_input(&mut self, input: Vec<u8>)
        requires
            old(self).wf(),
        ensures
            final(self).wf(),
            final(self).times() == old(self).times(),
            final(self).session() == (Session {
                state: State { input: input@, ..old(self).session().state },
                ..old(self).session()
            }),
    {
        self.input = input;
        self.consumed = 0;
        assert(self.input@.skip(0) =~= self.input@);
    }

    /// Sets the number of loop iterations that the engine may still begin.
    pub fn set_budget(&mut self, budget: usize)
        requires
            old(self).wf(),
        ensures
            final(self).wf(),
            final(self).times() == old(self).times(),
            final(self).session() == (Session {
                state: State { budget: budget as nat, ..old(self).session().state },
                ..old(self).session()
            }),
    {
        self.budget = budget;
    }

    /// The tape.
    pub fn memory(&self) -> (tape: &Vec<u8>)
        ensures
            tape@ == self.session().state.tape,
    {
        &self.memory
    }

    /// The pointer.
    pub fn pointer(&self) -> (pointer: usize)
        ensures
            pointer == self.session().state.pointer,
    {
        self.pointer
    }

    /// The current loop depth.
    pub fn loop_depth(&self) -> (depth: usize)
        ensures
            depth == self.session().state.depth,
    {
        self.loop_depth
    }

    /// The number of loop iterations that the engine may still begin.
    pub fn budget(&self) -> (budget: usize)
        ensures
            budget == self.session().state.budget,
    {
        self.budget
    }

    /// The cell under the pointer.
    pub fn current_cell(&self) -> (cell: u8)
        requires
            self.wf(),
        ensures
            cell == self.session().state.cell(),
    {
        self.memory[self.pointer]
    }

    /// The cells around the pointer, each with its index: up to five on
    /// either side, as far as the tape goes.
    pub fn get_memory_window(&self) -> (window: Vec<(usize, u8)>)
        requires
            self.wf(),
        ensures
            window@ == memory_window(self.session().state),
    {
        let start = self.pointer.saturating_sub(5);
        let end = if self.tape_size - 1 - self.pointer < 5 {
            self.tape_size - 1
        } else {
            self.pointer + 5
        };
        let mut window: Vec<(usize, u8)> = Vec::new();
        let mut i = start;
        while i <= end
            invariant
                self.wf(),
                start <= i <= end + 1,
                end < self.tape_size,
                window@.len() == i - start,
                forall|j: int|
                    0 <= j < window@.len() ==> #[trigger] window@[j] == (
                        (start + j) as usize,
                        self.memory@[start + j],
                    ),
            decreases end + 1 - i,
        {
            window.push((i, self.memory[i]));
            i += 1;
        }
        assert(window@ =~= memory_window(self.session().state));
        window
    }

    /// The counters of the engine: the instructions counted, how many of
    /// each kind, the nanoseconds spent on each kind, and for each loop
    /// depth at which a loop was left the iterations counted there, by
    /// increasing depth.
    pub fn statistics(&self) -> (report: Statistics)
        requires
            self.wf(),
        ensures
            report.instructions == self.session().state.steps,
            report.counts@ == self.session().state.kinds,
            report.nanos@ == self.times(),
            lists_tallies(report.loops@, self.session().state.loops),
    {
        let mut loops: Vec<(usize, usize)> = Vec::new();
        let mut depth: usize = 0;
        let mut more = true;
        while more
            invariant
                self.wf(),
                depth <= self.deepest,
                forall|i: int|
                    0 <= i < loops@.len() ==> {
                        &&& (#[trigger] loops@[i]).0 < depth || (!more && loops@[i].0 == depth)
                        &&& self.loop_iterations@.contains_key(loops@[i].0)
                        &&& self.loop_iterations@[loops@[i].0] == loops@[i].1
                    },
                forall|i: int, j: int|
                    0 <= i < j < loops@.len() ==> (#[trigger] loops@[i]).0 < (
                    #[trigger] loops@[j]).0,
                forall|d: usize|
                    #[trigger] self.loop_iterations@.contains_key(d) && (d < depth || (!more && d
                        == depth)) ==> exists|i: int|
                        0 <= i < loops@.len() && (#[trigger] loops@[i]).0 == d,
                !more ==> depth == self.deepest,
            decreases self.deepest - depth + if more { 1int } else { 0int },
        {
            let ghost before = loops@;
            match self.loop_iterations.get(&depth) {
                Some(count) => {
                    loops.push((depth, *count));
                    assert(loops@[loops@.len() - 1].0 == depth);
                    assert forall|d: usize|
                        #[trigger] self.loop_iterations@.contains_key(d) && d
                            <= depth implies exists|i: int|
                        0 <= i < loops@.len() && (#[trigger] loops@[i]).0 == d by {
                        if d < depth {
                            let i = choose|i: int|
                                0 <= i < before.len() && (#[trigger] before[i]).0 == d;
                            assert(loops@[i] == before[i]);
                        }
                    }
                },
                None => {
                    assert forall|d: usize|
                        #[trigger] self.loop_iterations@.contains_key(d) && d
                            <= depth implies exists|i: int|
                        0 <= i < loops@.len() && (#[trigger] loops@[i]).0 == d by {
                        let i = choose|i: int|
                            0 <= i < before.len() && (#[trigger] before[i]).0 == d;
                        assert(loops@[i] == before[i]);
                    }
                },
            }
            if depth == self.deepest {
                more = false;
            } else {
                depth += 1;
            }
        }
        Statistics {
            instructions: self.instruction_count,
            counts: self.instruction_counts.clone(),
            nanos: self.instruction_times.clone(),
            loops,
        }
    }

    /// Counts an instruction that is about to be executed: once in the
    /// instruction counter and once in the counter of its kind.
    pub fn record_instruction(&mut self, instruction: &AstNode)
        requires
            old(self).wf(),
        ensures
            final(self).wf(),
            final(self).times() == old(self).times(),
            final(self).session() == (Session {
                state: counted(instruction@, old(self).session().state),
                ..old(self).session()
            }),
    {
        let k = kind_of(instruction);
        self.instruction_count = self.instruction_count.saturating_add(1);
        let before = self.instruction_counts[k];
        self.instruction_counts[k] = before.saturating_add(1);
        proof {
            let a = self.session().state;
            let b = counted(instruction@, old(self).session().state);
            assert(a.kinds =~= b.kinds);
        }
    }

    /// Adds the time that an instruction's effect took to the total of its
    /// kind; the total stops at the largest value.
    fn record_duration(&mut self, kind: usize, nanos: u128)
        requires
            old(self).wf(),
            kind < KINDS,
        ensures
            final(self).wf(),
            final(self).session() == old(self).session(),
            final(self).times() == timed(old(self).times(), kind as int, nanos),
            times_grow(old(self).times(), final(self).times()),
    {
        let before = self.instruction_times[kind];
        self.instruction_times[kind] = before.saturating_add(nanos);
        assert(self.times() =~= timed(old(self).times(), kind as int, nanos));
    }

    /// Adds the iterations of a loop that is being left to the tally of the
    /// current depth.
    fn record_loop(&mut self, iterations: usize)
        requires
            old(self).wf(),
        ensures
            final(self).wf(),
            final(self).times() == old(self).times(),
            final(self).session() == (Session {
                state: loop_left(old(self).session().state, iterations),
                ..old(self).session()
            }),
    {
        let depth = self.loop_depth;
        let before = match self.loop_iterations.get(&depth) {
            Some(count) => *count,
            None => 0,
        };
        self.loop_iterations.insert(depth, before.saturating_add(iterations));
        if depth > self.deepest {
            self.deepest = depth;
        }
    }

    /// Applies the effect of an instruction that is neither a loop nor
    /// input or output.
    fn apply_effect(&mut self, instruction: &AstNode) -> (result: Result<(), ExecutionError>)
        requires
            old(self).wf(),
            !(instruction@ is Output),
            !(instruction@ is Input),
        ensures
            final(self).wf(),
            final(self).times() == old(self).times(),
            final(self).session() == (Session {
                state: effect(instruction@, old(self).session().state).state,
                ..old(self).session()
            }),
            result == as_result(effect(instruction@, old(self).session().state).error),
    {
        let ghost before = self.session().state;
        let cell = self.memory[self.pointer];
        match instruction {
            AstNode::Increment => {
                self.memory[self.pointer] = cell.wrapping_add(1);
            },
            AstNode::Decrement => {
                self.memory[self.pointer] = cell.wrapping_sub(1);
            },
            AstNode::Add(n) => {
                let amount: u8 = (*n % 256) as u8;
                proof {
                    lemma_add_mod_noop_right(cell as int, *n as int, 256);
                }
                self.memory[self.pointer] = cell.wrapping_add(amount);
            },
            AstNode::Sub(n) => {
                let amount: u8 = (*n % 256) as u8;
                proof {
                    lemma_sub_mod_noop_right(cell as int, *n as int, 256);
                }
                self.memory[self.pointer] = cell.wrapping_sub(amount);
            },
            AstNode::MoveRight => {
                if self.pointer + 1 >= self.tape_size {
                    return Err(ExecutionError::OutOfBounds);
                }
                self.pointer += 1;
            },
            AstNode::MoveLeft => {
                if self.pointer == 0 {
                    return Err(ExecutionError::OutOfBounds);
                }
                self.pointer -= 1;
            },
            AstNode::Program(_) => {
                return Err(ExecutionError::MalformedTree);
            },
            _ => {},
        }
        assert(self.session().state.tape =~= effect(instruction@, before).state.tape);
        Ok(())
    }

    /// Stores a byte in the current cell.
    fn store(&mut self, value: u8)
        requires
            old(self).wf(),
        ensures
            final(self).wf(),
            final(self).times() == old(self).times(),
            final(self).session() == (Session {
                state: old(self).session().state.with_cell(value),
                ..old(self).session()
            }),
    {
        self.memory[self.pointer] = value;
    }

    /// Takes the next unread byte of the input, if there is one.
    fn read_input(&mut self) -> (byte: Option<u8>)
        requires
            old(self).wf(),
        ensures
            final(self).wf(),
            final(self).times() == old(self).times(),
            byte == if old(self).session().state.input.len() > 0 {
                Some(old(self).session().state.input[0])
            } else {
                None
            },
            final(self).session() == (Session {
                state: State {
                    input: if old(self).session().state.input.len() > 0 {
                        old(self).session().state.input.drop_first()
                    } else {
                        old(self).session().state.input
                    },
                    ..old(self).session().state
                },
                ..old(self).session()
            }),
    {
        if self.consumed < self.input.len() {
            let byte = self.input[self.consumed];
            self.consumed += 1;
            assert(self.input@.skip(self.consumed as int) =~= old(self).session().state.input.drop_first());
            Some(byte)
        } else {
            None
        }
    }

    /// Executes one instruction in capture mode: output is appended to
    /// `output`, input is taken from the unread input and is 0 once that is
    /// used up. The engine ends in the state that the semantics gives, also
    /// where the run fails.
    #[verifier::loop_isolation(false)]
    pub fn execute_instruction_capture(
        &mut self,
        output: &mut Vec<u8>,
        instruction: &AstNode,
    ) -> (result: Result<(), ExecutionError>)
        requires
            old(self).wf(),
        ensures
            final(self).wf(),
            final(self).state(final(output)@) == run_node(
                instruction@,
                old(self).state(old(output)@),
            ).state,
            result == as_result(run_node(instruction@, old(self).state(old(output)@)).error),
            final(self).session().state.budget <= old(self).session().state.budget,
            same_controls(old(self).session(), final(self).session()),
            times_grow(old(self).times(), final(self).times()),
        decreases old(self).session().state.budget, instruction,
    {
        let ghost s0 = self.state(output@);
        self.record_instruction(instruction);
        let ghost s1 = self.state(output@);
        assert(s1 == counted(instruction@, s0));
        let kind = kind_of(instruction);
        let start = clock_now();
        match instruction {
            AstNode::Loop(instructions) => {
                let outer = self.loop_depth;
                self.loop_depth = outer.saturating_add(1);
                let ghost body = view_body(instructions@);
                let ghost entry = self.state(output@);
                assert(instruction@ == Instr::Loop(body));
                assert(entry == State { depth: bump(s1.depth), ..s1 });
                let mut loop_count: usize = 0;
                while self.memory[self.pointer] != 0
                    invariant
                        self.wf(),
                        self.budget <= old(self).budget,
                        same_controls(old(self).session(), self.session()),
                        times_grow(old(self).times(), self.times()),
                        run_loop(body, self.state(output@), loop_count) == run_loop(
                            body,
                            entry,
                            0,
                        ),
                    decreases self.budget,
                {
                    let ghost tested = self.state(output@);
                    if self.budget == 0 {
                        return Err(ExecutionError::BudgetExhausted);
                    }
                    self.budget -= 1;
                    let ghost spent = self.state(output@);
                    assert(spent == State { budget: (tested.budget - 1) as nat, ..tested });
                    assert(body.skip(0) =~= body);
                    let mut i: usize = 0;
                    while i < instructions.len()
                        invariant
                            self.wf(),
                            i <= instructions.len(),
                            self.budget <= spent.budget,
                            same_controls(old(self).session(), self.session()),
                            times_grow(old(self).times(), self.times()),
                            run_seq(body.skip(i as int), self.state(output@)) == run_seq(
                                body,
                                spent,
                            ),
                        decreases instructions.len() - i,
                    {
                        assert(body.skip(i as int).drop_first() =~= body.skip(i + 1));
                        assert(body.skip(i as int)[0] == instructions[i as int]@);
                        match self.execute_instruction_capture(output, &instructions[i]) {
                            Err(e) => {
                                return Err(e);
                            },
                            Ok(()) => {},
                        }
                        i += 1;
                    }
                    loop_count = loop_count.saturating_add(1);
                }
                let ghost last = self.state(output@);
                self.record_loop(loop_count);
                assert(self.state(output@) == loop_left(last, loop_count));
                self.loop_depth = outer;
                assert(self.state(output@) == State {
                    depth: s1.depth,
                    ..loop_left(last, loop_count)
                });
            },
            AstNode::Output => {
                output.push(self.memory[self.pointer]);
            },
            AstNode::Input => {
                match self.read_input() {
                    Some(byte) => self.store(byte),
                    None => self.store(0),
                }
                assert(self.state(output@) == effect(instruction@, s1).state);
            },
            _ => {
                match self.apply_effect(instruction) {
                    Err(e) => {
                        assert(self.state(output@) == effect(instruction@, s1).state);
                        return Err(e);
                    },
                    Ok(()) => {
                        assert(self.state(output@) == effect(instruction@, s1).state);
                    },
                }
            },
        }
        let spent = clock_elapsed(&start);
        self.record_duration(kind, duration_nanos(&spent));
        Ok(())
    }

    /// Runs a program in capture mode, on the engine as it stands. Returns
    /// the output, a copy of the tape and the pointer. Where the run fails
    /// the error is returned, and the engine keeps the state in which it
    /// failed.
    #[verifier::loop_isolation(false)]
    pub fn run_and_capture_output(&mut self, ast: &AstNode) -> (result: Result<
        (Vec<u8>, Vec<u8>, usize),
        ExecutionError,
    >)
        requires
            old(self).wf(),
        ensures
            final(self).wf(),
            same_controls(old(self).session(), final(self).session()),
            times_grow(old(self).times(), final(self).times()),
            final(self).state(run_program(ast@, old(self).session().state).state.output)
                == run_program(ast@, old(self).session().state).state,
            capture_view(result) == captured(run_program(ast@, old(self).session().state)),
    {
        let ghost s0 = self.session().state;
        assert(self.state(Seq::empty()) == s0);
        let mut output: Vec<u8> = Vec::new();
        match ast {
            AstNode::Program(instructions) => {
                let ghost body = view_body(instructions@);
                assert(body.skip(0) =~= body);
                let mut i: usize = 0;
                while i < instructions.len()
                    invariant
                        self.wf(),
                        i <= instructions.len(),
                        body == view_body(instructions@),
                        self.session().state.budget <= s0.budget,
                        same_controls(old(self).session(), self.session()),
                        times_grow(old(self).times(), self.times()),
                        run_seq(body.skip(i as int), self.state(output@)) == run_seq(body, s0),
                    decreases instructions.len() - i,
                {
                    assert(body.skip(i as int).drop_first() =~= body.skip(i + 1));
                    assert(body.skip(i as int)[0] == instructions[i as int]@);
                    proof {
                        lemma_run_node_invariants(instructions[i as int]@, self.state(output@));
                    }
                    match self.execute_instruction_capture(&mut output, &instructions[i]) {
                        Err(e) => {
                            return Err(e);
                        },
                        Ok(()) => {},
                    }
                    i += 1;
                }
                let tape = self.memory.clone();
                Ok((output, tape, self.pointer))
            },
            _ => Err(ExecutionError::MalformedTree),
        }
    }

    /// The first armed breakpoint that the engine's state matches, in the
    /// order instruction count, cell value, loop depth.
    pub fn check_breakpoints(&self) -> (hit: Option<Hit>)
        requires
            self.wf(),
        ensures
            hit == breakpoint_hit(self.session().breakpoints, self.session().state),
    {
        match self.breakpoints.instruction_count {
            Some(count) => {
                if self.instruction_count == count {
                    return Some(Hit::InstructionCount(count));
                }
            },
            None => {},
        }
        match self.breakpoints.memory_value {
            Some(value) => {
                if self.memory[self.pointer] == value {
                    return Some(Hit::MemoryValue(value));
                }
            },
            None => {},
        }
        match self.breakpoints.loop_depth {
            Some(depth) => {
                if self.loop_depth == depth {
                    return Some(Hit::LoopDepth(depth));
                }
            },
            None => {},
        }
        None
    }

    /// Whether a plain run pauses after every instruction's effect: in
    /// debug mode with single steps switched on.
    pub fn debug_step(&self) -> (pause: bool)
        ensures
            pause == self.session().stepping(),
    {
        self.debug && self.step_by_step
    }

    /// The result of a step once an instruction's effect is complete.
    fn after_effect(&self) -> (result: Option<Result<Pause, ExecutionError>>)
        ensures
            result == self.session().effect_complete().result,
    {
        if self.debug_step() {
            Some(Ok(Pause::Step))
        } else {
            None
        }
    }

    /// Moves the top frame of the cursor past its instruction.
    fn move_on(&mut self)
        requires
            old(self).wf(),
            old(self).session().frames.len() > 0,
            old(self).session().frames.last().index < old(self).session().frames.last().length,
            old(self).session().pending == Pending::Nothing,
        ensures
            final(self).wf(),
            final(self).times() == old(self).times(),
            final(self).session() == old(self).session().moved_on(),
    {
        let n = self.frames.len();
        let top = self.frames[n - 1];
        self.frames[n - 1] = Frame { index: top.index + 1, ..top };
        proof {
            lemma_moved_on(old(self).session());
            assert(self.session().frames =~= old(self).session().moved_on().frames);
        }
    }

    /// The instruction sequence that the top frame of the cursor walks, if
    /// the cursor is a path of the program.
    fn body_at<'a>(&self, program: &'a Vec<AstNode>) -> (found: Option<&'a Vec<AstNode>>)
        ensures
            match found {
                Some(body) => body_of(view_body(program@), self.session().frames) == Some(
                    view_body(body@),
                ),
                None => body_of(view_body(program@), self.session().frames) is None,
            },
    {
        let n = self.frames.len();
        if n == 0 {
            return None;
        }
        let ghost whole = view_body(program@);
        let ghost frames = self.frames@;
        let mut body = program;
        let mut k: usize = 0;
        while k + 1 < n
            invariant
                k < n,
                n == self.frames.len(),
                frames == self.frames@,
                whole == view_body(program@),
                body_of(whole, frames.take(k + 1)) == Some(view_body(body@)),
            decreases n - k,
        {
            let at = self.frames[k].index;
            proof {
                assert(frames.take(k + 2).drop_last() =~= frames.take(k + 1));
                assert(frames.take(k + 2)[k as int] == frames[k as int]);
            }
            if at >= body.len() {
                proof {
                    lemma_body_of_prefix(whole, frames, k + 2);
                }
                return None;
            }
            match &body[at] {
                AstNode::Loop(inner) => {
                    body = inner;
                },
                _ => {
                    proof {
                        lemma_body_of_prefix(whole, frames, k + 2);
                    }
                    return None;
                },
            }
            k += 1;
        }
        assert(frames.take(n as int) =~= frames);
        Some(body)
    }

    /// Dispatches an instruction that has been counted and has passed the
    /// breakpoints.
    fn dispatch(&mut self, instruction: &AstNode) -> (result: Option<Result<Pause, ExecutionError>>)
        requires
            old(self).wf(),
            old(self).session().frames.len() > 0,
            old(self).session().frames.last().index < old(self).session().frames.last().length,
            old(self).session().pending == Pending::Nothing,
        ensures
            final(self).wf(),
            final(self).session() == dispatch(instruction@, old(self).session()).session,
            result == dispatch(instruction@, old(self).session()).result,
            times_grow(old(self).times(), final(self).times()),
    {
        proof {
            lemma_dispatch(instruction@, self.session());
        }
        match instruction {
            AstNode::Loop(inner) => {
                let outer = self.loop_depth;
                self.loop_depth = outer.saturating_add(1);
                self.frames.push(
                    Frame {
                        index: inner.len(),
                        length: inner.len(),
                        iterations: 0,
                        outer_depth: outer,
                    },
                );
                self.starts.push(clock_now());
                assert(instruction@ == Instr::Loop(view_body(inner@)));
                assert(self.session().frames =~= dispatch(
                    instruction@,
                    old(self).session(),
                ).session.frames);
                None
            },
            AstNode::Output => {
                let byte = self.memory[self.pointer];
                self.move_on();
                if self.debug_step() {
                    self.pending = Pending::StepNotice;
                }
                assert(self.session().frames =~= dispatch(
                    instruction@,
                    old(self).session(),
                ).session.frames);
                Some(Ok(Pause::Output(byte)))
            },
            AstNode::Input => {
                self.pending = Pending::InputByte;
                Some(Ok(Pause::Input))
            },
            _ => {
                let kind = kind_of(instruction);
                let start = clock_now();
                match self.apply_effect(instruction) {
                    Err(e) => Some(Err(e)),
                    Ok(()) => {
                        let spent = clock_elapsed(&start);
                        self.record_duration(kind, duration_nanos(&spent));
                        self.move_on();
                        self.after_effect()
                    },
                }
            },
        }
    }

    /// Tests the loop whose body the top frame has run through.
    fn test_loop(&mut self) -> (result: Option<Result<Pause, ExecutionError>>)
        requires
            old(self).wf(),
            old(self).session().frames.len() > 1,
            old(self).session().frames.last().index == old(self).session().frames.last().length,
            old(self).session().pending == Pending::Nothing,
        ensures
            final(self).wf(),
            final(self).session() == test_loop(old(self).session()).session,
            result == test_loop(old(self).session()).result,
            times_grow(old(self).times(), final(self).times()),
    {
        proof {
            lemma_test_loop(self.session());
        }
        let n = self.frames.len();
        let top = self.frames[n - 1];
        if self.memory[self.pointer] != 0 {
            if self.budget == 0 {
                return Some(Err(ExecutionError::BudgetExhausted));
            }
            self.budget -= 1;
            self.frames[n - 1] = Frame {
                index: 0,
                iterations: top.iterations.saturating_add(1),
                ..top
            };
            assert(self.session().frames =~= test_loop(old(self).session()).session.frames);
            None
        } else {
            self.record_loop(top.iterations);
            self.loop_depth = top.outer_depth;
            self.frames.pop();
            let started = self.starts.pop();
            assert(self.session().frames =~= old(self).session().frames.drop_last());
            assert(self.session().frames.last() == old(self).session().frames[n - 2]);
            match started {
                Some(start) => {
                    let spent = clock_elapsed(&start);
                    self.record_duration(6, duration_nanos(&spent));
                },
                None => {},
            }
            self.move_on();
            self.after_effect()
        }
    }

    /// One step of a plain run: the dispatch of the instruction under the
    /// cursor, the test of a loop whose body has been run through, or the
    /// delivery of what the run was waiting for.
    pub fn execute_instruction(&mut self, ast: &AstNode, reply: Reply) -> (result: Option<
        Result<Pause, ExecutionError>,
    >)
        requires
            old(self).wf(),
        ensures
            final(self).wf(),
            final(self).session() == step_tree(ast@, old(self).session(), reply).session,
            result == step_tree(ast@, old(self).session(), reply).result,
            times_grow(old(self).times(), final(self).times()),
    {
        let program = match ast {
            AstNode::Program(instructions) => instructions,
            _ => {
                return Some(Err(ExecutionError::MalformedTree));
            },
        };
        proof {
            lemma_step(view_body(program@), self.session(), reply);
        }
        match self.pending {
            Pending::StepNotice => {
                self.pending = Pending::Nothing;
                return Some(Ok(Pause::Step));
            },
            _ => {},
        }
        let body = match self.body_at(program) {
            Some(body) => body,
            None => {
                return Some(Err(ExecutionError::MalformedTree));
            },
        };
        let n = self.frames.len();
        let top = self.frames[n - 1];
        if body.len() != top.length {
            return Some(Err(ExecutionError::MalformedTree));
        }
        match self.pending {
            Pending::InputByte => {
                self.pending = Pending::Nothing;
                let byte = match reply {
                    Reply::Byte(b) => b,
                    _ => 0,
                };
                self.store(byte);
                self.move_on();
                return self.after_effect();
            },
            Pending::Decision => {
                match reply {
                    Reply::Quit => {
                        return Some(Err(ExecutionError::UserTerminated));
                    },
                    _ => {},
                }
                self.pending = Pending::Nothing;
                return self.dispatch(&body[top.index]);
            },
            _ => {},
        }
        if top.index == top.length {
            if n == 1 {
                return Some(Ok(Pause::Finished));
            }
            return self.test_loop();
        }
        let instruction = &body[top.index];
        self.record_instruction(instruction);
        match self.check_breakpoints() {
            Some(hit) => {
                self.pending = Pending::Decision;
                return Some(Ok(Pause::Breakpoint { hit, kind: kind_of(instruction) }));
            },
            None => {},
        }
        self.dispatch(instruction)
    }

    /// Goes on with a plain run after a pause, with the controller's reply,
    /// until the run hands control back again: at its end, at a byte of
    /// output, at a request for input, at a breakpoint, after a single
    /// step, or with an error.
    pub fn resume(&mut self, ast: &AstNode, reply: Reply) -> (result: Result<
        Pause,
        ExecutionError,
    >)
        requires
            old(self).wf(),
        ensures
            final(self).wf(),
            final(self).session() == advance_tree(ast@, old(self).session(), reply).session,
            Some(result) == advance_tree(ast@, old(self).session(), reply).result,
            times_grow(old(self).times(), final(self).times()),
    {
        loop
            invariant
                self.wf(),
                times_grow(old(self).times(), self.times()),
                advance_tree(ast@, self.session(), reply) == advance_tree(
                    ast@,
                    old(self).session(),
                    reply,
                ),
            decreases self.session().state.budget, work_left(self.session().frames),
        {
            proof {
                match ast@ {
                    Instr::Program(body) => {
                        lemma_step(body, self.session(), reply);
                    },
                    _ => {},
                }
            }
            match self.execute_instruction(ast, reply) {
                Some(result) => {
                    return result;
                },
                None => {},
            }
        }
    }

    /// Begins a plain run of a program, on the engine as it stands, and
    /// runs until the run first hands control back.
    pub fn run(&mut self, ast: &AstNode) -> (result: Result<Pause, ExecutionError>)
        requires
            old(self).wf(),
        ensures
            final(self).wf(),
            final(self).session() == run_plain(ast@, old(self).session()).session,
            Some(result) == run_plain(ast@, old(self).session()).result,
            times_grow(old(self).times(), final(self).times()),
    {
        match ast {
            AstNode::Program(instructions) => {
                let mut frames: Vec<Frame> = Vec::new();
                frames.push(
                    Frame {
                        index: 0,
                        length: instructions.len(),
                        iterations: 0,
                        outer_depth: self.loop_depth,
                    },
                );
                let mut starts: Vec<Instant> = Vec::new();
                starts.push(clock_now());
                self.frames = frames;
                self.starts = starts;
                self.pending = Pending::Nothing;
                assert(ast@ == Instr::Program(view_body(instructions@)));
                assert(view_body(instructions@).len() == instructions.len());
                assert(self.session().frames =~= started(
                    old(self).session(),
                    instructions.len(),
                ).frames);
                assert(self.session() == started(old(self).session(), instructions.len()));
                self.resume(ast, Reply::Continue)
            },
            _ => Err(ExecutionError::MalformedTree),
        }
    }

    /// Runs a program in capture mode on a fresh engine.
    pub fn interpret_with_state(ast: &AstNode) -> (result: Result<
        (Vec<u8>, Vec<u8>, usize),
        ExecutionError,
    >)
        ensures
            capture_view(result) == captured(run_program(ast@, fresh_state())),
    {
        let mut interpreter = Interpreter::new();
        interpreter.run_and_capture_output(ast)
    }
}

/// Runs a program in capture mode on a fresh engine.
pub fn interpret_with_state(ast: &AstNode) -> (result: Result<
    (Vec<u8>, Vec<u8>, usize),
    ExecutionError,
>)
    ensures
        capture_view(result) == captured(run_program(ast@, fresh_state())),
{
    Interpreter::interpret_with_state(ast)
}

} // verus!
