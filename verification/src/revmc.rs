//! Which code runs a frame of the EVM: the compiled one where there is one, or the interpreter.

use vstd::prelude::*;

verus! {

/// How a transaction is executed.
#[derive(Debug, Clone, Copy, PartialEq, Eq, Structural)]
pub enum TransactionRoute {
    /// By the interpreter, with the inspector looking on.
    Inspected,
    /// Frame by frame, by compiled code where there is some.
    Compiled,
}

/// Whether an EVM lets its inspector look on.
#[derive(Debug, Clone, Copy, PartialEq, Eq, Structural)]
pub struct Inspection {
    /// Whether the inspector looks on.
    pub inspect: bool,
}

impl Inspection {
    /// An EVM that is made without an inspector runs compiled code.
    pub fn without_inspector() -> (inspection: Self)
        ensures
            !inspection.inspect,
    {
        Inspection { inspect: false }
    }

    /// An EVM that is made with an inspector lets it look on.
    pub fn with_inspector() -> (inspection: Self)
        ensures
            inspection.inspect,
    {
        Inspection { inspect: true }
    }

    /// Lets the inspector look on, or not.
    pub fn set_inspector_enabled(&mut self, enabled: bool)
        ensures
            final(self).inspect == enabled,
    {
        self.inspect = enabled;
    }

    /// How the next transaction is executed: an inspector never misses a frame that compiled code
    /// would run.
    pub fn route(&self) -> (route: TransactionRoute)
        ensures
            route == (if self.inspect {
                TransactionRoute::Inspected
            } else {
                TransactionRoute::Compiled
            }),
    {
        if self.inspect {
            TransactionRoute::Inspected
        } else {
            TransactionRoute::Compiled
        }
    }
}

/// What a transaction gives: its output together with the state, which is taken out in any case,
/// or its error alone.
pub fn transaction_result<O, S, E>(output: Result<O, E>, state: S) -> (result: Result<(O, S), E>)
    ensures
        result == (match output {
            Ok(value) => Ok((value, state)),
            Err(err) => Err(err),
        }),
{
    match output {
        Ok(value) => Ok((value, state)),
        Err(err) => Err(err),
    }
}

/// What is done next in running a frame.
#[derive(Debug, Clone, Copy, PartialEq, Eq, Structural)]
pub enum FrameStep {
    /// Look for compiled code by the hash of the frame's code.
    LookUp,
    /// Run the compiled code, with the frame's memory taken out of it and put back.
    RunCompiled,
    /// Run the interpreter.
    Interpret,
    /// Record that compiled code ran, without the frame's code.
    RecordCompiled,
    /// Record that the interpreter ran, with the frame's code so that it can be compiled.
    RecordInterpreted,
    /// Process the action that the code ended with.
    ProcessAction,
    /// Mark the frame as finished.
    MarkFinished,
    /// Nothing: the frame was run.
    Done,
}

/// How a step of running a frame ended.
#[derive(Debug, Clone, Copy, PartialEq, Eq, Structural)]
pub enum FrameEvent {
    /// It was done.
    Done,
    /// There is compiled code.
    Found,
    /// There is no compiled code.
    NotFound,
    /// The frame has a result.
    Result,
    /// The frame calls another one.
    NewFrame,
    /// The database failed.
    Failed,
}

/// The step can end like this.
pub open spec fn frame_event_fits(step: FrameStep, event: FrameEvent) -> bool {
    match step {
        FrameStep::LookUp => event is Found || event is NotFound,
        FrameStep::ProcessAction => event is Result || event is NewFrame || event is Failed,
        FrameStep::Done => false,
        _ => event is Done,
    }
}

/// The step after an event.
pub open spec fn next_step(step: FrameStep, event: FrameEvent) -> FrameStep {
    match step {
        FrameStep::LookUp => if event is Found {
            FrameStep::RunCompiled
        } else {
            FrameStep::Interpret
        },
        FrameStep::RunCompiled => FrameStep::RecordCompiled,
        FrameStep::Interpret => FrameStep::RecordInterpreted,
        FrameStep::RecordCompiled | FrameStep::RecordInterpreted => FrameStep::ProcessAction,
        FrameStep::ProcessAction => if event is Result {
            FrameStep::MarkFinished
        } else {
            FrameStep::Done
        },
        FrameStep::MarkFinished | FrameStep::Done => FrameStep::Done,
    }
}

/// Goes on in running a frame.
pub fn frame_run(step: FrameStep, event: FrameEvent) -> (next: FrameStep)
    requires
        frame_event_fits(step, event),
    ensures
        next == next_step(step, event),
{
    match (step, event) {
        (FrameStep::LookUp, FrameEvent::Found) => FrameStep::RunCompiled,
        (FrameStep::LookUp, _) => FrameStep::Interpret,
        (FrameStep::RunCompiled, _) => FrameStep::RecordCompiled,
        (FrameStep::Interpret, _) => FrameStep::RecordInterpreted,
        (FrameStep::RecordCompiled, _) => FrameStep::ProcessAction,
        (FrameStep::RecordInterpreted, _) => FrameStep::ProcessAction,
        (FrameStep::ProcessAction, FrameEvent::Result) => FrameStep::MarkFinished,
        (FrameStep::ProcessAction, _) => FrameStep::Done,
        (FrameStep::MarkFinished, _) => FrameStep::Done,
        (FrameStep::Done, _) => FrameStep::Done,
    }
}

/// The code that is recorded: none where compiled code ran.
pub fn recorded_code<'a>(step: FrameStep, code: &'a [u8]) -> (recorded: &'a [u8])
    requires
        step is RecordCompiled || step is RecordInterpreted,
    ensures
        recorded@ == (if step is RecordInterpreted {
            code@
        } else {
            Seq::empty()
        }),
{
    match step {
        FrameStep::RecordInterpreted => code,
        _ => vstd::slice::slice_subrange(code, 0, 0),
    }
}

/// A run of a frame: each step follows from the one before and an event that fits it.
pub open spec fn is_frame_run(steps: Seq<FrameStep>, events: Seq<FrameEvent>) -> bool {
    &&& steps.len() == events.len() + 1
    &&& steps[0] == FrameStep::LookUp
    &&& forall|i: int|
        0 <= i < events.len() ==> frame_event_fits(steps[i], #[trigger] events[i]) && steps[i + 1]
            == next_step(steps[i], events[i])
}

/// Every run of a frame ends after at most five steps. It runs the code once, compiled or not,
/// records it once and accordingly, and marks the frame as finished if and only if it has a
/// result.
pub proof fn frame_is_run_and_recorded_once(steps: Seq<FrameStep>, events: Seq<FrameEvent>)
    requires
        is_frame_run(steps, events),
        steps.last() is Done,
    ensures
        4 <= events.len() <= 5,
        if events[0] is Found {
            steps[1] is RunCompiled && steps[2] is RecordCompiled
        } else {
            steps[1] is Interpret && steps[2] is RecordInterpreted
        },
        steps[3] is ProcessAction,
        if events[3] is Result {
            events.len() == 5 && steps[4] is MarkFinished
        } else {
            events.len() == 4
        },
{
    let n = events.len();
    assert(n > 0);
    assert(frame_event_fits(steps[0], events[0]));
    assert(n > 1);
    assert(frame_event_fits(steps[1], events[1]));
    assert(n > 2);
    assert(frame_event_fits(steps[2], events[2]));
    assert(n > 3);
    assert(frame_event_fits(steps[3], events[3]));
    if n > 4 {
        assert(frame_event_fits(steps[4], events[4]));
    }
    if n > 5 {
        assert(frame_event_fits(steps[5], events[5]));
    }
}

/// Looking for compiled code finds some or none, processing an action ends with a result, another
/// frame or a failure, and the other steps are done.
pub open spec fn may_end_with(step: FrameStep, event: FrameEvent) -> bool {
    &&& step != FrameStep::Done
    &&& step == FrameStep::LookUp <==> (event == FrameEvent::Found || event == FrameEvent::NotFound)
    &&& step == FrameStep::ProcessAction <==> (event == FrameEvent::Result || event
        == FrameEvent::NewFrame || event == FrameEvent::Failed)
}

/// Every step can go on from whatever it may end with, and from nothing else.
pub proof fn steps_go_on_from_every_ending(step: FrameStep, event: FrameEvent)
    ensures
        frame_event_fits(step, event) <==> may_end_with(step, event),
{
}

/// A frame goes through exactly these steps, whatever happens: compiled code is looked for; where
/// it is found it is run and recorded as such, and where not the interpreter is run and recorded
/// as such; then the action is processed, and the frame is marked as finished where it has a
/// result, and not where it calls another frame or the database failed.
pub proof fn frame_steps_follow_each_other(step: FrameStep, event: FrameEvent, next: FrameStep)
    requires
        may_end_with(step, event),
        call_ensures(frame_run, (step, event), next),
    ensures
        step == FrameStep::LookUp ==> event == FrameEvent::Found || event == FrameEvent::NotFound,
        step == FrameStep::LookUp && event == FrameEvent::Found <==> next == FrameStep::RunCompiled,
        step == FrameStep::LookUp && event == FrameEvent::NotFound <==> next
            == FrameStep::Interpret,
        step == FrameStep::RunCompiled <==> next == FrameStep::RecordCompiled,
        step == FrameStep::Interpret <==> next == FrameStep::RecordInterpreted,
        step == FrameStep::RecordCompiled || step == FrameStep::RecordInterpreted <==> next
            == FrameStep::ProcessAction,
        step == FrameStep::ProcessAction && event == FrameEvent::Result <==> next
            == FrameStep::MarkFinished,
        (step == FrameStep::ProcessAction && (event == FrameEvent::NewFrame || event
            == FrameEvent::Failed)) || step == FrameStep::MarkFinished <==> next
            == FrameStep::Done,
        next != FrameStep::LookUp,
{
}

/// Compiled code is recorded without the code, and interpreted code with all of it.
pub proof fn only_interpreted_code_is_recorded(step: FrameStep, code: &[u8], recorded: &[u8])
    requires
        step == FrameStep::RecordCompiled || step == FrameStep::RecordInterpreted,
        call_ensures(recorded_code, (step, code), recorded),
    ensures
        step == FrameStep::RecordInterpreted ==> recorded@ == code@,
        step == FrameStep::RecordCompiled ==> recorded@.len() == 0,
{
}

/// An inspector that is to look on always does: only an EVM whose inspector is off runs compiled
/// code. It is off for an EVM without an inspector, on for one with an inspector, and afterwards
/// as it was set last.
pub proof fn inspector_misses_nothing(
    plain: Inspection,
    inspected: Inspection,
    inspection: &mut Inspection,
    enabled: bool,
    plain_route: TransactionRoute,
    inspected_route: TransactionRoute,
    route: TransactionRoute,
)
    requires
        call_ensures(Inspection::without_inspector, (), plain),
        call_ensures(Inspection::with_inspector, (), inspected),
        call_ensures(Inspection::set_inspector_enabled, (inspection, enabled), ()),
        call_ensures(Inspection::route, (&plain,), plain_route),
        call_ensures(Inspection::route, (&inspected,), inspected_route),
        call_ensures(Inspection::route, (&*final(inspection),), route),
    ensures
        plain_route == TransactionRoute::Compiled,
        inspected_route == TransactionRoute::Inspected,
        route == TransactionRoute::Inspected <==> enabled,
        route == TransactionRoute::Compiled <==> !enabled,
{
}

/// A transaction that succeeds gives its own output and the state, and one that fails its own
/// error.
pub proof fn transactions_keep_their_outcome<O, S, E>(
    output: Result<O, E>,
    state: S,
    result: Result<(O, S), E>,
)
    requires
        call_ensures(transaction_result::<O, S, E>, (output, state), result),
    ensures
        output is Ok <==> result is Ok,
        output is Ok ==> result->Ok_0.0 == output->Ok_0 && result->Ok_0.1 == state,
        output is Err ==> result->Err_0 == output->Err_0,
{
}

} // verus!
