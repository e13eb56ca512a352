//! The plain run and the capture run agree: a plain run whose controller
//! takes its input from a buffer and appends its output to a buffer ends as
//! the big-step semantics says.

use vstd::prelude::*;
use crate::interpreter::Breakpoints;
use crate::machine::Frame;
use crate::machine::Pause;
use crate::machine::Pending;
use crate::machine::Reply;
use crate::machine::Session;
use crate::machine::advance;
use crate::machine::body_of;
use crate::machine::breakpoint_hit;
use crate::machine::dispatch;
use crate::machine::lemma_dispatch;
use crate::machine::lemma_moved_on;
use crate::machine::lemma_step;
use crate::machine::lemma_test_loop;
use crate::machine::started;
use crate::machine::step;
use crate::machine::supplied_byte;
use crate::machine::test_loop;
use crate::machine::work_left;
use crate::parser::AstNode;
use crate::parser::Instr;
use crate::parser::view_body;
use crate::semantics::ExecutionError;
use crate::semantics::Outcome;
use crate::semantics::State;
use crate::semantics::bump;
use crate::semantics::counted;
use crate::semantics::effect;
use crate::semantics::lemma_run_node_invariants;
use crate::semantics::lemma_run_seq_invariants;
use crate::semantics::loop_left;
use crate::semantics::run_loop;
use crate::semantics::run_node;
use crate::semantics::run_seq;

verus! {

/// How far a suspended run is from going on, by what it waits for.
pub open spec fn pending_weight(pending: Pending) -> nat {
    match pending {
        Pending::StepNotice => 3,
        Pending::Nothing => 2,
        Pending::Decision => 1,
        Pending::InputByte => 0,
    }
}

/// The later session is nearer to the end of the run than the earlier: it
/// has less budget, or the same budget and less work left, or the same of
/// both and waits for less.
pub open spec fn progressed(earlier: Session, later: Session) -> bool {
    ||| later.state.budget < earlier.state.budget
    ||| (later.state.budget == earlier.state.budget && work_left(later.frames) < work_left(
        earlier.frames,
    ))
    ||| (later.state.budget == earlier.state.budget && work_left(later.frames) == work_left(
        earlier.frames,
    ) && pending_weight(later.pending) < pending_weight(earlier.pending))
}

/// A step that does not end the run brings it nearer to its end.
pub proof fn lemma_step_progress(program: Seq<Instr>, x: Session, reply: Reply)
    requires
        x.wf(),
    ensures
        (step(program, x, reply).result matches Some(pause) ==> pause matches Ok(p) && p
            != Pause::Finished) ==> progressed(x, step(program, x, reply).session),
{
    let body = body_of(program, x.frames);
    lemma_step(program, x, reply);
    if x.pending == Pending::StepNotice {
    } else if body is None || body->0.len() != x.frames.last().length {
    } else {
        let top = x.frames.last();
        let ready = Session { pending: Pending::Nothing, ..x };
        match x.pending {
            Pending::InputByte => {
                lemma_moved_on(Session { state: x.state.with_cell(supplied_byte(reply)), ..ready });
            },
            Pending::Decision => {
                if reply != Reply::Quit {
                    lemma_dispatch_progress(body->0[top.index as int], ready);
                }
            },
            _ => {
                if top.index == top.length {
                    if x.frames.len() > 1 {
                        lemma_test_loop(x);
                        if x.state.cell() == 0 {
                            let left = Session {
                                state: State {
                                    depth: top.outer_depth,
                                    ..loop_left(x.state, top.iterations)
                                },
                                frames: x.frames.drop_last(),
                                ..x
                            };
                            assert(left.frames.last() == x.frames[x.frames.len() - 2]);
                            lemma_moved_on(left);
                            assert(x.frames.drop_last().push(top) =~= x.frames);
                            assert(left.frames.push(top).drop_last() =~= left.frames);
                        }
                    }
                } else {
                    let node = body->0[top.index as int];
                    let y = Session { state: counted(node, x.state), ..x };
                    if breakpoint_hit(x.breakpoints, y.state) is None {
                        lemma_dispatch_progress(node, y);
                    }
                }
            },
        }
    }
}

/// What `lemma_step_progress` says, of a dispatched instruction.
proof fn lemma_dispatch_progress(node: Instr, x: Session)
    requires
        x.wf(),
        x.frames.len() > 0,
        x.frames.last().index < x.frames.last().length,
        x.pending == Pending::Nothing,
    ensures
        !(dispatch(node, x).result matches Some(Err(_))) ==> {
            &&& dispatch(node, x).session.state.budget == x.state.budget
            &&& (work_left(dispatch(node, x).session.frames) < work_left(x.frames) || (work_left(
                dispatch(node, x).session.frames,
            ) == work_left(x.frames) && dispatch(node, x).session.pending == Pending::InputByte))
        },
{
    lemma_dispatch(node, x);
    match node {
        Instr::Loop(inner) => {},
        Instr::Output => {
            lemma_moved_on(x);
        },
        Instr::Input => {},
        _ => {
            let r = effect(node, x.state);
            if r.error is None {
                lemma_moved_on(Session { state: r.state, ..x });
            }
        },
    }
}

/// A run that is resumed hands control back, in a well-formed session; if
/// it has not ended, it is nearer to its end than it was.
pub proof fn lemma_advance(program: Seq<Instr>, x: Session, reply: Reply)
    requires
        x.wf(),
    ensures
        advance(program, x, reply).result is Some,
        advance(program, x, reply).session.wf(),
        advance(program, x, reply).session.state.budget <= x.state.budget,
        work_left(x.frames) >= 0,
        work_left(advance(program, x, reply).session.frames) >= 0,
        (advance(program, x, reply).result matches Some(Ok(p)) && p != Pause::Finished)
            ==> progressed(x, advance(program, x, reply).session),
    decreases x.state.budget, work_left(x.frames),
{
    lemma_step(program, x, reply);
    lemma_step_progress(program, x, reply);
    let r = step(program, x, reply);
    if r.result is None {
        lemma_advance(program, r.session, reply);
    }
}

/// The end of a driven run: the session, what is left of the input, the
/// output, and the error if the run failed.
pub struct Driven {
    pub session: Session,
    pub input: Seq<u8>,
    pub output: Seq<u8>,
    pub error: Option<ExecutionError>,
}

/// Drives a plain run to its end as a controller with two buffers does: it
/// appends each byte of output to `output`, answers each request for input
/// with the next byte of `input`, or with the end of input once that is
/// used up, and goes on at every other pause.
pub open spec fn drive(
    program: Seq<Instr>,
    x: Session,
    reply: Reply,
    input: Seq<u8>,
    output: Seq<u8>,
) -> Driven
    decreases x.state.budget, work_left(x.frames), pending_weight(x.pending),
    when x.wf()
{
    let a = advance(program, x, reply);
    proof {
        lemma_advance(program, x, reply);
    }
    match a.result {
        Some(Ok(Pause::Output(byte))) => drive(
            program,
            a.session,
            Reply::Continue,
            input,
            output.push(byte),
        ),
        Some(Ok(Pause::Input)) => if input.len() > 0 {
            drive(program, a.session, Reply::Byte(input[0]), input.drop_first(), output)
        } else {
            drive(program, a.session, Reply::EndOfInput, input, output)
        },
        Some(Ok(Pause::Finished)) => Driven { session: a.session, input, output, error: None },
        Some(Ok(_)) => drive(program, a.session, Reply::Continue, input, output),
        Some(Err(error)) => Driven { session: a.session, input, output, error: Some(error) },
        None => Driven { session: a.session, input, output, error: None },
    }
}

/// No breakpoint is armed.
pub open spec fn no_breakpoints() -> Breakpoints {
    Breakpoints { instruction_count: None, memory_value: None, loop_depth: None }
}

/// A session that pauses for input and output only: nothing is pending, no
/// breakpoint is armed, and single steps are off.
pub open spec fn quiet(x: Session) -> bool {
    &&& x.pending == Pending::Nothing
    &&& x.breakpoints == no_breakpoints()
    &&& !x.stepping()
}

/// Every sequence of the tree has a length that the cursor can hold. This
/// is so of every tree that is held in memory.
pub open spec fn fits(body: Seq<Instr>) -> bool
    decreases body,
{
    &&& body.len() <= usize::MAX
    &&& forall|i: int|
        0 <= i < body.len() ==> (#[trigger] body[i] matches Instr::Loop(inner) ==> fits(inner))
}

/// The tree of a sequence of nodes fits.
pub proof fn lemma_tree_fits(body: Vec<AstNode>)
    ensures
        fits(view_body(body@)),
    decreases body,
{
    let tree = view_body(body@);
    assert(tree.len() == body.len());
    assert forall|i: int| 0 <= i < tree.len() implies (#[trigger] tree[i] matches Instr::Loop(
        inner,
    ) ==> fits(inner)) by {
        match body@[i] {
            AstNode::Loop(nodes) => {
                lemma_tree_fits(nodes);
            },
            _ => {},
        }
    }
}

/// The cursor is a path of the program, and its top frame walks `body`,
/// which fits.
pub open spec fn walks(program: Seq<Instr>, x: Session, body: Seq<Instr>) -> bool {
    &&& fits(body)
    &&& x.frames.len() > 0
    &&& body_of(program, x.frames) == Some(body)
    &&& x.frames.last().length == body.len()
}

/// A state with the given buffers for its input and output.
pub open spec fn with_io(s: State, input: Seq<u8>, output: Seq<u8>) -> State {
    State { input, output, ..s }
}

/// The session with its top frame at `index` and with `state`, but for the
/// buffers, which a plain run leaves to its controller.
pub open spec fn placed(x: Session, state: State, index: usize) -> Session {
    Session {
        state: with_io(state, x.state.input, x.state.output),
        frames: x.frames.drop_last().push(Frame { index, ..x.frames.last() }),
        ..x
    }
}

/// The session after the loop of the top frame has been left in `state`:
/// the depth is what it was outside the loop, the frame is gone, and the
/// frame below has moved past the loop.
pub open spec fn left_loop(x: Session, state: State) -> Session {
    Session {
        state: with_io(
            State { depth: x.frames.last().outer_depth, ..state },
            x.state.input,
            x.state.output,
        ),
        frames: x.frames.drop_last(),
        ..x
    }.moved_on()
}

/// The body that a cursor walks does not depend on its top frame.
proof fn lemma_body_of_top(program: Seq<Instr>, below: Seq<Frame>, a: Frame, b: Frame)
    ensures
        body_of(program, below.push(a)) == body_of(program, below.push(b)),
{
    assert(below.push(a).drop_last() =~= below);
    assert(below.push(b).drop_last() =~= below);
}

/// While nothing is pending, a run goes on in the same way whatever the
/// reply.
proof fn lemma_reply_ignored(program: Seq<Instr>, x: Session, a: Reply, b: Reply)
    requires
        x.wf(),
        x.pending == Pending::Nothing,
    ensures
        advance(program, x, a) == advance(program, x, b),
    decreases x.state.budget, work_left(x.frames),
{
    lemma_step(program, x, a);
    let r = step(program, x, a);
    assert(r == step(program, x, b));
    if r.result is None {
        lemma_reply_ignored(program, r.session, a, b);
    }
}

/// Driving a run on after a step that handed control to nobody is driving
/// it on from the session after that step.
proof fn lemma_drive_after_step(
    program: Seq<Instr>,
    x: Session,
    reply: Reply,
    input: Seq<u8>,
    output: Seq<u8>,
)
    requires
        x.wf(),
        step(program, x, reply).result is None,
    ensures
        step(program, x, reply).session.wf(),
        drive(program, x, reply, input, output) == drive(
            program,
            step(program, x, reply).session,
            Reply::Continue,
            input,
            output,
        ),
{
    lemma_step(program, x, reply);
    let y = step(program, x, reply).session;
    lemma_reply_ignored(program, y, reply, Reply::Continue);
    assert(advance(program, x, reply) == advance(program, y, reply));
}

/// A driven run and a run of the semantics agree from here on: either the
/// driven run fails with the error of `outcome`, in its state, or it goes
/// on from `landing` with the buffers of `outcome`.
pub open spec fn agrees(
    program: Seq<Instr>,
    d: Driven,
    outcome: Outcome,
    landing: Session,
) -> bool {
    if outcome.error is Some {
        d.error == outcome.error && with_io(d.session.state, d.input, d.output) == outcome.state
    } else {
        d == drive(
            program,
            landing,
            Reply::Continue,
            outcome.state.input,
            outcome.state.output,
        )
    }
}

/// The driven run agrees with the semantics on the instruction under the
/// cursor; it goes on behind that instruction.
pub open spec fn node_agrees(
    program: Seq<Instr>,
    x: Session,
    node: Instr,
    input: Seq<u8>,
    output: Seq<u8>,
) -> bool {
    let r = run_node(node, with_io(x.state, input, output));
    agrees(
        program,
        drive(program, x, Reply::Continue, input, output),
        r,
        placed(x, r.state, (x.frames.last().index + 1) as usize),
    )
}

/// The driven run agrees with the semantics on the rest of the sequence
/// that the top frame walks; it goes on at the end of that sequence.
pub open spec fn seq_agrees(
    program: Seq<Instr>,
    x: Session,
    body: Seq<Instr>,
    input: Seq<u8>,
    output: Seq<u8>,
) -> bool {
    let r = run_seq(body.skip(x.frames.last().index as int), with_io(x.state, input, output));
    agrees(
        program,
        drive(program, x, Reply::Continue, input, output),
        r,
        placed(x, r.state, x.frames.last().length),
    )
}

/// The driven run agrees with the semantics on the loop that the top frame
/// is in, from the loop's test on; it goes on behind the loop.
pub open spec fn loop_agrees(
    program: Seq<Instr>,
    x: Session,
    inner: Seq<Instr>,
    input: Seq<u8>,
    output: Seq<u8>,
) -> bool {
    let r = run_loop(inner, with_io(x.state, input, output), x.frames.last().iterations);
    agrees(
        program,
        drive(program, x, Reply::Continue, input, output),
        r,
        left_loop(x, r.state),
    )
}

/// A session that is placed within the sequence that it walks is
/// well-formed and walks the same sequence.
proof fn lemma_placed(program: Seq<Instr>, x: Session, body: Seq<Instr>, state: State, index: usize)
    requires
        x.wf(),
        quiet(x),
        walks(program, x, body),
        state.wf(),
        index <= x.frames.last().length,
    ensures
        placed(x, state, index).wf(),
        quiet(placed(x, state, index)),
        walks(program, placed(x, state, index), body),
        placed(x, state, index).frames.last() == (Frame { index, ..x.frames.last() }),
        placed(x, state, index).state.budget == state.budget,
        forall|input: Seq<u8>, output: Seq<u8>| #[trigger]
            with_io(placed(x, state, index).state, input, output) == with_io(state, input, output),
        forall|other: State, at: usize| #[trigger]
            placed(placed(x, state, index), other, at) == placed(x, other, at),
{
    let top = x.frames.last();
    let below = x.frames.drop_last();
    assert(below.push(top) =~= x.frames);
    lemma_body_of_top(program, below, top, Frame { index, ..top });
    let p = placed(x, state, index);
    assert(p.frames.drop_last() =~= below);
    assert forall|other: State, at: usize| #[trigger]
        placed(p, other, at) == placed(x, other, at) by {
        assert(placed(p, other, at).frames =~= placed(x, other, at).frames);
    }
}

/// The agreement on an instruction that is neither a loop nor input or
/// output.
proof fn lemma_simple_in_context(
    program: Seq<Instr>,
    x: Session,
    body: Seq<Instr>,
    input: Seq<u8>,
    output: Seq<u8>,
)
    requires
        x.wf(),
        quiet(x),
        walks(program, x, body),
        x.frames.last().index < x.frames.last().length,
        !(body[x.frames.last().index as int] is Loop),
        !(body[x.frames.last().index as int] is Output),
        !(body[x.frames.last().index as int] is Input),
    ensures
        node_agrees(program, x, body[x.frames.last().index as int], input, output),
{
    let top = x.frames.last();
    let node = body[top.index as int];
    let s = with_io(x.state, input, output);
    let y = Session { state: counted(node, x.state), ..x };
    assert(step(program, x, Reply::Continue) == dispatch(node, y));
    lemma_step(program, x, Reply::Continue);
    let e = effect(node, y.state);
    let rn = run_node(node, s);
    assert(rn.error == e.error);
    assert(with_io(e.state, input, output) == rn.state);
    if e.error is None {
        lemma_drive_after_step(program, x, Reply::Continue, input, output);
        assert(dispatch(node, y).session == placed(x, rn.state, (top.index + 1) as usize));
    }
}

/// The agreement on an output instruction.
proof fn lemma_output_in_context(
    program: Seq<Instr>,
    x: Session,
    body: Seq<Instr>,
    input: Seq<u8>,
    output: Seq<u8>,
)
    requires
        x.wf(),
        quiet(x),
        walks(program, x, body),
        x.frames.last().index < x.frames.last().length,
        body[x.frames.last().index as int] is Output,
    ensures
        node_agrees(program, x, body[x.frames.last().index as int], input, output),
{
    let top = x.frames.last();
    let node = body[top.index as int];
    let s = with_io(x.state, input, output);
    let y = Session { state: counted(node, x.state), ..x };
    assert(step(program, x, Reply::Continue) == dispatch(node, y));
    lemma_step(program, x, Reply::Continue);
    let rn = run_node(node, s);
    let next = dispatch(node, y).session;
    assert(next == placed(x, rn.state, (top.index + 1) as usize));
    assert(rn.state.output == output.push(x.state.cell()));
}

/// The agreement on an input instruction.
proof fn lemma_input_in_context(
    program: Seq<Instr>,
    x: Session,
    body: Seq<Instr>,
    input: Seq<u8>,
    output: Seq<u8>,
)
    requires
        x.wf(),
        quiet(x),
        walks(program, x, body),
        x.frames.last().index < x.frames.last().length,
        body[x.frames.last().index as int] is Input,
    ensures
        node_agrees(program, x, body[x.frames.last().index as int], input, output),
{
    let top = x.frames.last();
    let node = body[top.index as int];
    let s = with_io(x.state, input, output);
    let y = Session { state: counted(node, x.state), ..x };
    assert(step(program, x, Reply::Continue) == dispatch(node, y));
    lemma_step(program, x, Reply::Continue);
    let rn = run_node(node, s);
    let asked = dispatch(node, y).session;
    let reply = if input.len() > 0 {
        Reply::Byte(input[0])
    } else {
        Reply::EndOfInput
    };
    let unread = if input.len() > 0 {
        input.drop_first()
    } else {
        input
    };
    assert(drive(program, x, Reply::Continue, input, output) == drive(
        program,
        asked,
        reply,
        unread,
        output,
    ));
    let filled = Session {
        state: asked.state.with_cell(supplied_byte(reply)),
        pending: Pending::Nothing,
        ..asked
    };
    lemma_moved_on(filled);
    let next = filled.moved_on();
    assert(step(program, asked, reply).session == next);
    assert(step(program, asked, reply).result is None);
    lemma_drive_after_step(program, asked, reply, unread, output);
    assert(next == placed(x, rn.state, (top.index + 1) as usize));
    assert(rn.state.input == unread);
    assert(rn.state.output == output);
}

/// The session in which a loop is entered, and what holds of it.
proof fn lemma_enter_loop(
    program: Seq<Instr>,
    x: Session,
    body: Seq<Instr>,
    input: Seq<u8>,
    output: Seq<u8>,
)
    requires
        x.wf(),
        quiet(x),
        walks(program, x, body),
        x.frames.last().index < x.frames.last().length,
        body[x.frames.last().index as int] is Loop,
    ensures
        ({
            let node = body[x.frames.last().index as int];
            let entered = step(program, x, Reply::Continue).session;
            let counted_state = counted(node, with_io(x.state, input, output));
            &&& entered.wf()
            &&& quiet(entered)
            &&& walks(program, entered, node->Loop_0)
            &&& entered.frames.len() >= 2
            &&& entered.frames.drop_last() == x.frames
            &&& entered.frames.last().index == entered.frames.last().length
            &&& entered.frames.last().iterations == 0
            &&& entered.frames.last().outer_depth == x.state.depth
            &&& entered.state.budget == x.state.budget
            &&& entered.state.input == x.state.input
            &&& entered.state.output == x.state.output
            &&& entered.breakpoints == x.breakpoints
            &&& entered.debug == x.debug
            &&& entered.step_by_step == x.step_by_step
            &&& with_io(entered.state, input, output) == (State {
                depth: bump(counted_state.depth),
                ..counted_state
            })
            &&& drive(program, x, Reply::Continue, input, output) == drive(
                program,
                entered,
                Reply::Continue,
                input,
                output,
            )
        }),
{
    let top = x.frames.last();
    let node = body[top.index as int];
    let y = Session { state: counted(node, x.state), ..x };
    assert(step(program, x, Reply::Continue) == dispatch(node, y));
    lemma_step(program, x, Reply::Continue);
    lemma_drive_after_step(program, x, Reply::Continue, input, output);
    let entered = dispatch(node, y).session;
    let inner = node->Loop_0;
    assert(entered.frames.drop_last() =~= x.frames);
    assert(fits(inner));
    assert(body_of(program, entered.frames) == Some(inner));
    assert(entered.frames.last().length == inner.len());
    assert(walks(program, entered, inner));
}

/// In a quiet session, the plain run agrees with the semantics on the
/// instruction under the cursor.
pub proof fn lemma_node_in_context(
    program: Seq<Instr>,
    x: Session,
    body: Seq<Instr>,
    input: Seq<u8>,
    output: Seq<u8>,
)
    requires
        x.wf(),
        quiet(x),
        walks(program, x, body),
        x.frames.last().index < x.frames.last().length,
    ensures
        node_agrees(program, x, body[x.frames.last().index as int], input, output),
    decreases x.state.budget, body, body.len() - x.frames.last().index, 0nat,
{
    let top = x.frames.last();
    let node = body[top.index as int];
    match node {
        Instr::Loop(inner) => {
            lemma_enter_loop(program, x, body, input, output);
            let entered = step(program, x, Reply::Continue).session;
            lemma_loop_in_context(program, entered, inner, input, output);
            let s = with_io(x.state, input, output);
            let rl = run_loop(inner, with_io(entered.state, input, output), 0);
            let rn = run_node(node, s);
            if rl.error is None {
                assert(left_loop(entered, rl.state).frames =~= placed(
                    x,
                    rn.state,
                    (top.index + 1) as usize,
                ).frames);
                assert(left_loop(entered, rl.state) == placed(
                    x,
                    rn.state,
                    (top.index + 1) as usize,
                ));
            }
        },
        Instr::Output => {
            lemma_output_in_context(program, x, body, input, output);
        },
        Instr::Input => {
            lemma_input_in_context(program, x, body, input, output);
        },
        _ => {
            lemma_simple_in_context(program, x, body, input, output);
        },
    }
}

/// In a quiet session, the plain run agrees with the semantics on the rest
/// of the sequence that the top frame walks.
pub proof fn lemma_seq_in_context(
    program: Seq<Instr>,
    x: Session,
    body: Seq<Instr>,
    input: Seq<u8>,
    output: Seq<u8>,
)
    requires
        x.wf(),
        quiet(x),
        walks(program, x, body),
    ensures
        seq_agrees(program, x, body, input, output),
    decreases x.state.budget, body, body.len() - x.frames.last().index, 1nat,
{
    let top = x.frames.last();
    let i = top.index as int;
    let s = with_io(x.state, input, output);
    if i == body.len() {
        assert(x.frames.drop_last().push(Frame { index: top.length, ..top }) =~= x.frames);
        assert(placed(x, s, top.length) == x);
    } else {
        let node = body[i];
        assert(body.skip(i)[0] == node);
        assert(body.skip(i).drop_first() =~= body.skip(i + 1));
        lemma_node_in_context(program, x, body, input, output);
        lemma_run_node_invariants(node, s);
        let rn = run_node(node, s);
        if rn.error is None {
            let next = placed(x, rn.state, (top.index + 1) as usize);
            lemma_placed(program, x, body, rn.state, (top.index + 1) as usize);
            assert(with_io(next.state, rn.state.input, rn.state.output) == rn.state);
            lemma_seq_in_context(program, next, body, rn.state.input, rn.state.output);
        }
    }
}

/// In a quiet session, the plain run agrees with the semantics on the loop
/// that the top frame is in, from the loop's test on.
pub proof fn lemma_loop_in_context(
    program: Seq<Instr>,
    x: Session,
    inner: Seq<Instr>,
    input: Seq<u8>,
    output: Seq<u8>,
)
    requires
        x.wf(),
        quiet(x),
        walks(program, x, inner),
        x.frames.len() >= 2,
        x.frames.last().index == x.frames.last().length,
    ensures
        loop_agrees(program, x, inner, input, output),
    decreases x.state.budget, inner, inner.len() + 1, 0nat,
{
    let top = x.frames.last();
    let s = with_io(x.state, input, output);
    let below = x.frames.drop_last();
    assert(below.push(top) =~= x.frames);
    assert(step(program, x, Reply::Continue) == test_loop(x));
    lemma_step(program, x, Reply::Continue);
    if s.cell() != 0 {
        if s.budget > 0 {
            let again = test_loop(x).session;
            lemma_drive_after_step(program, x, Reply::Continue, input, output);
            let first = Frame { index: 0, iterations: bump(top.iterations), ..top };
            lemma_body_of_top(program, below, top, first);
            assert(again.frames =~= below.push(first));
            let spent = State { budget: (s.budget - 1) as nat, ..s };
            assert(with_io(again.state, input, output) == spent);
            assert(inner.skip(0) =~= inner);
            lemma_seq_in_context(program, again, inner, input, output);
            lemma_run_seq_invariants(inner, spent);
            let r = run_seq(inner, spent);
            if r.error is None {
                let tested = placed(again, r.state, top.length);
                lemma_placed(program, again, inner, r.state, top.length);
                assert(tested.frames.drop_last() =~= below);
                assert(with_io(tested.state, r.state.input, r.state.output) == r.state);
                lemma_loop_in_context(program, tested, inner, r.state.input, r.state.output);
                let rl = run_loop(inner, r.state, bump(top.iterations));
                if rl.error is None {
                    assert(left_loop(tested, rl.state) == left_loop(x, rl.state));
                }
            }
        }
    } else {
        lemma_drive_after_step(program, x, Reply::Continue, input, output);
        let r = run_loop(inner, s, top.iterations);
        assert(test_loop(x).session == left_loop(x, r.state));
    }
}

/// The plain run and the capture run agree. A plain run of a program from
/// its beginning, with no breakpoint armed and single steps off, driven by
/// a controller that reads from `input` and writes to `output`, fails with
/// the error with which the semantics fails, or ends as the semantics
/// ends; either way it leaves the tape, the pointer, every counter and
/// both buffers as the semantics says.
pub proof fn lemma_plain_run_agrees(
    program: Seq<Instr>,
    x: Session,
    input: Seq<u8>,
    output: Seq<u8>,
)
    requires
        x.state.wf(),
        x.breakpoints == no_breakpoints(),
        !x.stepping(),
        fits(program),
    ensures
        ({
            let d = drive(
                program,
                started(x, program.len() as usize),
                Reply::Continue,
                input,
                output,
            );
            let r = run_seq(program, with_io(x.state, input, output));
            d.error == r.error && with_io(d.session.state, d.input, d.output) == r.state
        }),
{
    let begun = started(x, program.len() as usize);
    let s = with_io(x.state, input, output);
    assert(program.skip(0) =~= program);
    lemma_seq_in_context(program, begun, program, input, output);
    lemma_run_seq_invariants(program, s);
    let r = run_seq(program, s);
    if r.error is None {
        let ended = placed(begun, r.state, program.len() as usize);
        assert(ended.frames =~= seq![Frame { index: program.len() as usize, ..begun.frames[0] }]);
        assert(step(program, ended, Reply::Continue).result == Some(
            Ok::<Pause, ExecutionError>(Pause::Finished),
        ));
        assert(with_io(ended.state, r.state.input, r.state.output) == r.state);
    }
}

} // verus!
