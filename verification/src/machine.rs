//! The plain run as a resumable machine: a cursor into the instruction
//! tree, and a step function that says what one step does to the session.
//!
//! A plain run talks to the outside world (it emits bytes, asks for input,
//! stops at breakpoints), so it proceeds from pause to pause: the engine
//! runs until it needs its controller, says why it paused, and goes on when
//! it is resumed with the controller's reply.

use vstd::prelude::*;
use crate::interpreter::Breakpoints;
use crate::parser::Instr;
use crate::semantics::ExecutionError;
use crate::semantics::State;
use crate::semantics::bump;
use crate::semantics::counted;
use crate::semantics::effect;
use crate::semantics::keeps_invariants;
use crate::semantics::kind_index;
use crate::semantics::loop_left;

verus! {

/// One level of the cursor: a position in an instruction sequence. The
/// lowest frame walks the program; each further frame walks the body of the
/// loop at which the frame below it stands.
#[derive(Debug, Clone, Copy, PartialEq, Eq, Structural)]
pub struct Frame {
    /// Index of the next instruction; equal to `length` when the sequence
    /// has been run through.
    pub index: usize,
    /// Length of the sequence.
    pub length: usize,
    /// Iterations that the loop of this frame has begun.
    pub iterations: usize,
    /// Loop depth to go back to when the loop of this frame is left.
    pub outer_depth: usize,
}

/// The breakpoint that suspended a run, with the value that it matched.
#[derive(Debug, Clone, Copy, PartialEq, Eq, Structural)]
pub enum Hit {
    InstructionCount(usize),
    MemoryValue(u8),
    LoopDepth(usize),
}

/// What a suspended run waits for.
#[derive(Debug, Clone, Copy, PartialEq, Eq, Structural)]
pub enum Pending {
    /// Nothing: the run goes on with the instruction under the cursor.
    Nothing,
    /// The decision to resume or to quit at a breakpoint.
    Decision,
    /// The byte that an input instruction reads.
    InputByte,
    /// The acknowledgment of a single step that is still to be announced.
    StepNotice,
}

/// Why a plain run handed control back to its controller.
#[derive(Debug, Clone, Copy, PartialEq, Eq, Structural)]
pub enum Pause {
    /// The program has been run through.
    Finished,
    /// An output instruction emitted this byte.
    Output(u8),
    /// An input instruction waits for a byte.
    Input,
    /// A breakpoint matched before the instruction of the given kind.
    Breakpoint { hit: Hit, kind: usize },
    /// Single-step mode: an instruction's effect is complete.
    Step,
}

/// The controller's answer to a pause.
#[derive(Debug, Clone, Copy, PartialEq, Eq, Structural)]
pub enum Reply {
    /// Go on.
    Continue,
    /// Stop the run. Honoured at a breakpoint only.
    Quit,
    /// The byte read for an input instruction.
    Byte(u8),
    /// The input source is exhausted.
    EndOfInput,
}

/// All that a plain run depends on: the machine state, the cursor, what the
/// run waits for, and the instrumentation settings.
pub struct Session {
    pub state: State,
    pub frames: Seq<Frame>,
    pub pending: Pending,
    pub breakpoints: Breakpoints,
    pub debug: bool,
    pub step_by_step: bool,
}

/// The result of one step: the session after it, and the reason to hand
/// control back, if there is one.
pub struct Stepped {
    pub session: Session,
    pub result: Option<Result<Pause, ExecutionError>>,
}

impl Session {
    /// Every frame but the top one stands at an instruction, the top one
    /// at an instruction or at the end, and a run that waits for a decision
    /// or a byte stands at an instruction.
    pub open spec fn wf(self) -> bool {
        &&& self.state.wf()
        &&& forall|k: int|
            0 <= k < self.frames.len() ==> (#[trigger] self.frames[k]).index
                <= self.frames[k].length
        &&& forall|k: int|
            0 <= k < self.frames.len() - 1 ==> (#[trigger] self.frames[k]).index
                < self.frames[k].length
        &&& (self.pending == Pending::Decision || self.pending == Pending::InputByte) ==> {
            &&& self.frames.len() > 0
            &&& self.frames.last().index < self.frames.last().length
        }
    }

    /// Single-step mode is on: the run pauses after every instruction's
    /// effect.
    pub open spec fn stepping(self) -> bool {
        self.debug && self.step_by_step
    }

    /// The session with the top frame moved past its instruction.
    pub open spec fn moved_on(self) -> Session {
        let top = self.frames.last();
        Session {
            frames: self.frames.drop_last().push(
                Frame { index: (top.index + 1) as usize, ..top },
            ),
            ..self
        }
    }

    /// The step's result once an instruction's effect is complete: a pause
    /// in single-step mode, else none.
    pub open spec fn effect_complete(self) -> Stepped {
        Stepped {
            session: self,
            result: if self.stepping() {
                Some(Ok(Pause::Step))
            } else {
                None
            },
        }
    }
}

/// The instruction sequence that the top frame walks, if the cursor is a
/// path of the program.
pub open spec fn body_of(program: Seq<Instr>, frames: Seq<Frame>) -> Option<Seq<Instr>>
    decreases frames.len(),
{
    if frames.len() == 0 {
        None
    } else if frames.len() == 1 {
        Some(program)
    } else {
        let at = frames[frames.len() - 2].index as int;
        match body_of(program, frames.drop_last()) {
            Some(parent) => if at < parent.len() {
                match parent[at] {
                    Instr::Loop(inner) => Some(inner),
                    _ => None,
                }
            } else {
                None
            },
            None => None,
        }
    }
}

/// The first armed breakpoint that matches the state, in the order
/// instruction count, cell value, loop depth.
pub open spec fn breakpoint_hit(breakpoints: Breakpoints, s: State) -> Option<Hit> {
    if breakpoints.instruction_count == Some(s.steps) {
        Some(Hit::InstructionCount(s.steps))
    } else if breakpoints.memory_value == Some(s.cell()) {
        Some(Hit::MemoryValue(s.cell()))
    } else if breakpoints.loop_depth == Some(s.depth) {
        Some(Hit::LoopDepth(s.depth))
    } else {
        None
    }
}

/// Dispatches an instruction that has been counted and has passed the
/// breakpoints.
pub open spec fn dispatch(node: Instr, x: Session) -> Stepped {
    match node {
        Instr::Loop(inner) => Stepped {
            session: Session {
                state: State { depth: bump(x.state.depth), ..x.state },
                frames: x.frames.push(
                    Frame {
                        index: inner.len() as usize,
                        length: inner.len() as usize,
                        iterations: 0,
                        outer_depth: x.state.depth,
                    },
                ),
                ..x
            },
            result: None,
        },
        Instr::Output => Stepped {
            session: Session {
                pending: if x.stepping() {
                    Pending::StepNotice
                } else {
                    Pending::Nothing
                },
                ..x.moved_on()
            },
            result: Some(Ok(Pause::Output(x.state.cell()))),
        },
        Instr::Input => Stepped {
            session: Session { pending: Pending::InputByte, ..x },
            result: Some(Ok(Pause::Input)),
        },
        _ => {
            let r = effect(node, x.state);
            match r.error {
                Some(e) => Stepped { session: x, result: Some(Err(e)) },
                None => Session { state: r.state, ..x }.moved_on().effect_complete(),
            }
        },
    }
}

/// Tests the loop whose body the top frame has run through: a nonzero cell
/// begins another iteration, if the budget allows one; a zero cell leaves
/// the loop.
pub open spec fn test_loop(x: Session) -> Stepped {
    let top = x.frames.last();
    if x.state.cell() != 0 {
        if x.state.budget == 0 {
            Stepped { session: x, result: Some(Err(ExecutionError::BudgetExhausted)) }
        } else {
            Stepped {
                session: Session {
                    state: State { budget: (x.state.budget - 1) as nat, ..x.state },
                    frames: x.frames.drop_last().push(
                        Frame { index: 0, iterations: bump(top.iterations), ..top },
                    ),
                    ..x
                },
                result: None,
            }
        }
    } else {
        Session {
            state: State { depth: top.outer_depth, ..loop_left(x.state, top.iterations) },
            frames: x.frames.drop_last(),
            ..x
        }.moved_on().effect_complete()
    }
}

/// The byte that a reply supplies to an input instruction: the byte read,
/// or 0 when the source is exhausted or the reply is none that carries a
/// byte.
pub open spec fn supplied_byte(reply: Reply) -> u8 {
    match reply {
        Reply::Byte(b) => b,
        _ => 0,
    }
}

/// One step of a plain run over `program`.
pub open spec fn step(program: Seq<Instr>, x: Session, reply: Reply) -> Stepped {
    let body = body_of(program, x.frames);
    if x.pending == Pending::StepNotice {
        Stepped { session: Session { pending: Pending::Nothing, ..x }, result: Some(Ok(Pause::Step)) }
    } else if body is None || body->0.len() != x.frames.last().length {
        Stepped { session: x, result: Some(Err(ExecutionError::MalformedTree)) }
    } else {
        let top = x.frames.last();
        let ready = Session { pending: Pending::Nothing, ..x };
        match x.pending {
            Pending::InputByte => Session {
                state: x.state.with_cell(supplied_byte(reply)),
                ..ready
            }.moved_on().effect_complete(),
            Pending::Decision => if reply == Reply::Quit {
                Stepped { session: x, result: Some(Err(ExecutionError::UserTerminated)) }
            } else {
                dispatch(body->0[top.index as int], ready)
            },
            _ => if top.index == top.length {
                if x.frames.len() == 1 {
                    Stepped { session: x, result: Some(Ok(Pause::Finished)) }
                } else {
                    test_loop(x)
                }
            } else {
                let node = body->0[top.index as int];
                let counted_state = counted(node, x.state);
                let y = Session { state: counted_state, ..x };
                match breakpoint_hit(x.breakpoints, counted_state) {
                    Some(hit) => Stepped {
                        session: Session { pending: Pending::Decision, ..y },
                        result: Some(
                            Ok(Pause::Breakpoint { hit, kind: kind_index(node) as usize }),
                        ),
                    },
                    None => dispatch(node, y),
                }
            },
        }
    }
}

/// What is left to do at a cursor before the budget must be touched: three
/// units for every instruction that a frame has not passed, less one for
/// every loop that has been entered.
pub open spec fn work_left(frames: Seq<Frame>) -> int
    decreases frames.len(),
{
    if frames.len() == 0 {
        0
    } else if frames.len() == 1 {
        3 * (frames[0].length - frames[0].index)
    } else {
        let top = frames.last();
        work_left(frames.drop_last()) - 1 + 3 * (top.length - top.index)
    }
}

/// The work left at a cursor with one more frame on top.
proof fn lemma_work_left_push(frames: Seq<Frame>, top: Frame)
    ensures
        work_left(frames.push(top)) == 3 * (top.length - top.index) + if frames.len() > 0 {
            work_left(frames) - 1
        } else {
            0
        },
{
    assert(frames.push(top).drop_last() =~= frames);
}

/// The work left at a well-formed cursor is not negative.
proof fn lemma_work_left_bound(x: Session)
    requires
        x.wf(),
    ensures
        work_left(x.frames) >= 0,
        x.frames.len() > 1 ==> work_left(x.frames.drop_last()) >= 3,
    decreases x.frames.len(),
{
    if x.frames.len() > 1 {
        let below = Session { frames: x.frames.drop_last(), pending: Pending::Nothing, ..x };
        assert(below.frames.last() == x.frames[x.frames.len() - 2]);
        lemma_work_left_bound(below);
        if below.frames.len() > 1 {
            assert(work_left(below.frames.drop_last()) >= 3);
        }
    }
}

/// Moving the top frame past its instruction takes three units of work.
pub proof fn lemma_moved_on(x: Session)
    requires
        x.wf(),
        x.frames.len() > 0,
        x.frames.last().index < x.frames.last().length,
        x.pending == Pending::Nothing || x.pending == Pending::StepNotice,
    ensures
        x.moved_on().wf(),
        work_left(x.moved_on().frames) == work_left(x.frames) - 3,
{
    let top = x.frames.last();
    let next = Frame { index: (top.index + 1) as usize, ..top };
    lemma_work_left_push(x.frames.drop_last(), next);
    assert(x.frames.drop_last().push(top) =~= x.frames);
    lemma_work_left_push(x.frames.drop_last(), top);
}

/// A step keeps the session well-formed and the invariants of the state:
/// the pointer stays on the tape, the tape keeps its length, the budget
/// does not grow and the instruction counter does not fall. A step that
/// hands control back to nobody spends budget or work, and waits for
/// nothing.
pub proof fn lemma_step(program: Seq<Instr>, x: Session, reply: Reply)
    requires
        x.wf(),
    ensures
        step(program, x, reply).session.wf(),
        keeps_invariants(x.state, step(program, x, reply).session.state),
        work_left(x.frames) >= 0,
        work_left(step(program, x, reply).session.frames) >= 0,
        step(program, x, reply).result is None ==> {
            &&& step(program, x, reply).session.pending == Pending::Nothing
            &&& (step(program, x, reply).session.state.budget < x.state.budget || work_left(
                step(program, x, reply).session.frames,
            ) < work_left(x.frames))
        },
{
    let body = body_of(program, x.frames);
    let r = step(program, x, reply);
    lemma_work_left_bound(x);
    if x.pending == Pending::StepNotice {
    } else if body is None || body->0.len() != x.frames.last().length {
    } else {
        let top = x.frames.last();
        let ready = Session { pending: Pending::Nothing, ..x };
        match x.pending {
            Pending::InputByte => {
                lemma_moved_on(Session { state: x.state.with_cell(supplied_byte(reply)), ..ready });
            },
            Pending::Decision => {
                if reply != Reply::Quit {
                    lemma_dispatch(body->0[top.index as int], ready);
                }
            },
            _ => {
                if top.index == top.length {
                    if x.frames.len() > 1 {
                        lemma_test_loop(x);
                    }
                } else {
                    let node = body->0[top.index as int];
                    let y = Session { state: counted(node, x.state), ..x };
                    if breakpoint_hit(x.breakpoints, y.state) is None {
                        lemma_dispatch(node, y);
                    }
                }
            },
        }
    }
    lemma_work_left_bound(r.session);
}

/// What `lemma_step` says, of a dispatched instruction.
pub proof fn lemma_dispatch(node: Instr, x: Session)
    requires
        x.wf(),
        x.frames.len() > 0,
        x.frames.last().index < x.frames.last().length,
        x.pending == Pending::Nothing,
    ensures
        dispatch(node, x).session.wf(),
        keeps_invariants(x.state, dispatch(node, x).session.state),
        dispatch(node, x).session.state.budget == x.state.budget,
        dispatch(node, x).result is None ==> {
            &&& dispatch(node, x).session.pending == Pending::Nothing
            &&& work_left(dispatch(node, x).session.frames) < work_left(x.frames)
        },
{
    match node {
        Instr::Loop(inner) => {
            let frame = Frame {
                index: inner.len() as usize,
                length: inner.len() as usize,
                iterations: 0,
                outer_depth: x.state.depth,
            };
            lemma_work_left_push(x.frames, frame);
        },
        Instr::Output => {
            lemma_moved_on(x);
        },
        Instr::Input => {},
        _ => {
            let r = effect(node, x.state);
            if r.error is None {
                lemma_moved_on(Session { state: r.state, ..x });
            }
        },
    }
}

/// What `lemma_step` says, of the test of a loop.
pub proof fn lemma_test_loop(x: Session)
    requires
        x.wf(),
        x.frames.len() > 1,
        x.frames.last().index == x.frames.last().length,
        x.pending == Pending::Nothing,
    ensures
        test_loop(x).session.wf(),
        keeps_invariants(x.state, test_loop(x).session.state),
        test_loop(x).result is None ==> {
            &&& test_loop(x).session.pending == Pending::Nothing
            &&& (test_loop(x).session.state.budget < x.state.budget || work_left(
                test_loop(x).session.frames,
            ) < work_left(x.frames))
        },
{
    let top = x.frames.last();
    if x.state.cell() != 0 {
    } else {
        let left = Session {
            state: State { depth: top.outer_depth, ..loop_left(x.state, top.iterations) },
            frames: x.frames.drop_last(),
            ..x
        };
        assert(left.frames.last() == x.frames[x.frames.len() - 2]);
        lemma_moved_on(left);
        assert(x.frames.drop_last().push(top) =~= x.frames);
        lemma_work_left_push(x.frames.drop_last(), top);
    }
}

/// Runs a plain run on from a session until it hands control back: the
/// session in which it pauses or stops, and the pause or the error.
pub open spec fn advance(program: Seq<Instr>, x: Session, reply: Reply) -> Stepped
    decreases x.state.budget, work_left(x.frames),
    when x.wf()
{
    let r = step(program, x, reply);
    if r.result is Some {
        r
    } else {
        proof {
            lemma_step(program, x, reply);
        }
        advance(program, r.session, reply)
    }
}

/// The session in which a plain run over a program of `length` instructions
/// begins: the cursor at the first instruction, nothing pending.
pub open spec fn started(x: Session, length: usize) -> Session {
    Session {
        frames: seq![Frame { index: 0, length, iterations: 0, outer_depth: x.state.depth }],
        pending: Pending::Nothing,
        ..x
    }
}

/// One step of a plain run over a tree, whose root must be a program.
pub open spec fn step_tree(root: Instr, x: Session, reply: Reply) -> Stepped {
    match root {
        Instr::Program(body) => step(body, x, reply),
        _ => Stepped { session: x, result: Some(Err(ExecutionError::MalformedTree)) },
    }
}

/// A plain run over a tree, whose root must be a program, from a session
/// until it hands control back.
pub open spec fn advance_tree(root: Instr, x: Session, reply: Reply) -> Stepped {
    match root {
        Instr::Program(body) => advance(body, x, reply),
        _ => Stepped { session: x, result: Some(Err(ExecutionError::MalformedTree)) },
    }
}

/// Where a prefix of the cursor is no path of the program, the cursor is
/// none.
pub proof fn lemma_body_of_prefix(program: Seq<Instr>, frames: Seq<Frame>, k: int)
    requires
        1 <= k <= frames.len(),
        body_of(program, frames.take(k)) is None,
    ensures
        body_of(program, frames) is None,
    decreases frames.len() - k,
{
    if k == frames.len() {
        assert(frames.take(k) =~= frames);
    } else {
        assert(frames.take(k + 1).drop_last() =~= frames.take(k));
        lemma_body_of_prefix(program, frames, k + 1);
    }
}

/// A plain run over a tree from its beginning until it first hands control
/// back.
pub open spec fn run_plain(root: Instr, x: Session) -> Stepped {
    match root {
        Instr::Program(body) => advance(body, started(x, body.len() as usize), Reply::Continue),
        _ => Stepped { session: x, result: Some(Err(ExecutionError::MalformedTree)) },
    }
}

} // verus!
