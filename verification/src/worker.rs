//! The worker that owns a model: which command it takes up when.
//!
//! One worker owns one model and serves one command at a time. The host runs
//! the loop: it hands what its command channel gave to
//! [`Worker::dispatch`], does what the answer says, and reports back
//! with [`Worker::complete`] when the work is done.

use vstd::prelude::*;
use crate::context::LLamaConfig;
use crate::request::Generate;

verus! {

/// A command to the worker.
#[derive(Debug)]
pub enum LLamaCommand {
    LoadModel(LLamaConfig),
    Tokenize(String),
    Embed(Generate),
    Inference(Generate),
    Terminate,
}

/// What the command channel gave.
#[derive(Debug)]
pub enum Received {
    Command(LLamaCommand),
    /// No command is waiting.
    Empty,
    /// Nobody is left to send commands.
    Disconnected,
}

/// Where the worker stands.
#[derive(Clone, Copy, Debug, PartialEq, Eq, Structural)]
pub enum WorkerState {
    /// No model is loaded.
    Unloaded,
    /// A model is being loaded.
    Loading,
    /// The model is loaded and idle.
    Ready,
    /// The model is at work on a request.
    Busy,
    /// The worker has stopped.
    Stopped,
}

/// Why a command was not taken up.
#[derive(Clone, Copy, Debug, PartialEq, Eq, Structural)]
pub enum Refusal {
    /// No model is loaded.
    NotLoaded,
    /// The worker is at work on another command.
    Occupied,
}

impl Refusal {
    /// The message that tells a sender of the refusal.
    pub open spec fn text(self) -> Seq<char> {
        match self {
            Refusal::NotLoaded => "Model not loaded."@,
            Refusal::Occupied => "Model is at work on another request."@,
        }
    }

    /// The message that tells a sender of the refusal.
    pub fn message(&self) -> (r: String)
        ensures
            r@ == self.text(),
    {
        match self {
            Refusal::NotLoaded => "Model not loaded.".to_owned(),
            Refusal::Occupied => "Model is at work on another request.".to_owned(),
        }
    }
}

/// What the host is to do with what it received.
#[derive(Debug)]
pub enum Dispatch {
    Load(LLamaConfig),
    Tokenize(String),
    Embed(Generate),
    Infer(Generate),
    /// Tell the sender that the command was not taken up: as an error, and
    /// then the end, on the stream that the command would have fed.
    Refuse(Refusal),
    /// Give way and ask the channel again.
    Wait,
    /// Leave the loop.
    Stop,
}

/// The worker's next state and its answer to what was received. A stopped
/// worker stays stopped. The order to terminate, or a channel without
/// senders, stops the worker whatever it is doing. While a model is being
/// loaded or is at work, every other command is refused. A model is loaded
/// when none is loaded or the loaded one is idle; every other request needs a
/// loaded, idle model and occupies it.
pub open spec fn dispatch_of(state: WorkerState, received: Received) -> (WorkerState, Dispatch) {
    if state == WorkerState::Stopped {
        (WorkerState::Stopped, Dispatch::Stop)
    } else {
        match received {
            Received::Disconnected => (WorkerState::Stopped, Dispatch::Stop),
            Received::Empty => (state, Dispatch::Wait),
            Received::Command(command) => match command {
                LLamaCommand::Terminate => (WorkerState::Stopped, Dispatch::Stop),
                LLamaCommand::LoadModel(config) => match state {
                    WorkerState::Unloaded | WorkerState::Ready => (
                        WorkerState::Loading,
                        Dispatch::Load(config),
                    ),
                    _ => (state, Dispatch::Refuse(Refusal::Occupied)),
                },
                LLamaCommand::Tokenize(text) => match state {
                    WorkerState::Ready => (WorkerState::Busy, Dispatch::Tokenize(text)),
                    WorkerState::Unloaded => (state, Dispatch::Refuse(Refusal::NotLoaded)),
                    _ => (state, Dispatch::Refuse(Refusal::Occupied)),
                },
                LLamaCommand::Embed(request) => match state {
                    WorkerState::Ready => (WorkerState::Busy, Dispatch::Embed(request)),
                    WorkerState::Unloaded => (state, Dispatch::Refuse(Refusal::NotLoaded)),
                    _ => (state, Dispatch::Refuse(Refusal::Occupied)),
                },
                LLamaCommand::Inference(request) => match state {
                    WorkerState::Ready => (WorkerState::Busy, Dispatch::Infer(request)),
                    WorkerState::Unloaded => (state, Dispatch::Refuse(Refusal::NotLoaded)),
                    _ => (state, Dispatch::Refuse(Refusal::Occupied)),
                },
            },
        }
    }
}

/// The worker's state when the work it was given is done, well or not: a
/// model is loaded only where loading went well; a request leaves the model
/// idle again. Without work under way nothing changes.
pub open spec fn complete_of(state: WorkerState, ok: bool) -> WorkerState {
    match state {
        WorkerState::Loading => if ok {
            WorkerState::Ready
        } else {
            WorkerState::Unloaded
        },
        WorkerState::Busy => WorkerState::Ready,
        _ => state,
    }
}

/// Whether the answer hands the model a request.
pub open spec fn uses_model(dispatch: Dispatch) -> bool {
    dispatch is Tokenize || dispatch is Embed || dispatch is Infer
}

/// The worker's side of the command channel.
#[derive(Clone, Copy, Debug, PartialEq, Eq, Structural)]
pub struct Worker {
    pub state: WorkerState,
}

impl Worker {
    /// A worker without a model.
    pub fn new() -> (r: Worker)
        ensures
            r.state == WorkerState::Unloaded,
    {
        Worker { state: WorkerState::Unloaded }
    }

    /// Takes what the command channel gave and says what to do with it; see
    /// [`dispatch_of`].
    pub fn dispatch(&mut self, received: Received) -> (r: Dispatch)
        ensures
            final(self).state == dispatch_of(old(self).state, received).0,
            r == dispatch_of(old(self).state, received).1,
    {
        match self.state {
            WorkerState::Stopped => {
                return Dispatch::Stop;
            },
            _ => {},
        }
        match received {
            Received::Disconnected => {
                self.state = WorkerState::Stopped;
                Dispatch::Stop
            },
            Received::Empty => Dispatch::Wait,
            Received::Command(command) => match command {
                LLamaCommand::Terminate => {
                    self.state = WorkerState::Stopped;
                    Dispatch::Stop
                },
                LLamaCommand::LoadModel(config) => match self.state {
                    WorkerState::Unloaded | WorkerState::Ready => {
                        self.state = WorkerState::Loading;
                        Dispatch::Load(config)
                    },
                    _ => Dispatch::Refuse(Refusal::Occupied),
                },
                LLamaCommand::Tokenize(text) => match self.state {
                    WorkerState::Ready => {
                        self.state = WorkerState::Busy;
                        Dispatch::Tokenize(text)
                    },
                    WorkerState::Unloaded => Dispatch::Refuse(Refusal::NotLoaded),
                    _ => Dispatch::Refuse(Refusal::Occupied),
                },
                LLamaCommand::Embed(request) => match self.state {
                    WorkerState::Ready => {
                        self.state = WorkerState::Busy;
                        Dispatch::Embed(request)
                    },
                    WorkerState::Unloaded => Dispatch::Refuse(Refusal::NotLoaded),
                    _ => Dispatch::Refuse(Refusal::Occupied),
                },
                LLamaCommand::Inference(request) => match self.state {
                    WorkerState::Ready => {
                        self.state = WorkerState::Busy;
                        Dispatch::Infer(request)
                    },
                    WorkerState::Unloaded => Dispatch::Refuse(Refusal::NotLoaded),
                    _ => Dispatch::Refuse(Refusal::Occupied),
                },
            },
        }
    }

    /// Records that the work the worker was given is done, well or not; see
    /// [`complete_of`].
    pub fn complete(&mut self, ok: bool)
        ensures
            final(self).state == complete_of(old(self).state, ok),
    {
        match self.state {
            WorkerState::Loading => {
                if ok {
                    self.state = WorkerState::Ready;
                } else {
                    self.state = WorkerState::Unloaded;
                }
            },
            WorkerState::Busy => {
                self.state = WorkerState::Ready;
            },
            _ => {},
        }
    }
}

/// One thing the worker's loop does: it takes what the channel gave, or it
/// records that work is done.
pub enum Turn {
    Take(Received),
    Done(bool),
}

/// The state of a worker after `turns`, from `state`.
pub open spec fn after(state: WorkerState, turns: Seq<Turn>) -> WorkerState
    decreases turns.len(),
{
    if turns.len() == 0 {
        state
    } else {
        let before = after(state, turns.drop_last());
        match turns.last() {
            Turn::Take(received) => dispatch_of(before, received).0,
            Turn::Done(ok) => complete_of(before, ok),
        }
    }
}

/// Whether a model has been loaded well and not been given up since.
pub open spec fn has_model(state: WorkerState) -> bool {
    state == WorkerState::Ready || state == WorkerState::Busy
}

/// Requests wait for the model: the worker hands the model a request only
/// when a model is loaded and idle, and the model is then occupied, so that
/// no second request reaches it before the first is done.
pub proof fn lemma_one_request_at_a_time(state: WorkerState, received: Received)
    requires
        uses_model(dispatch_of(state, received).1),
    ensures
        state == WorkerState::Ready,
        dispatch_of(state, received).0 == WorkerState::Busy,
        forall|next: Received| !uses_model(#[trigger] dispatch_of(WorkerState::Busy, next).1),
{
    assert forall|next: Received| !uses_model(
        #[trigger] dispatch_of(WorkerState::Busy, next).1,
    ) by {
        match next {
            Received::Command(command) => {},
            _ => {},
        }
    }
}

/// No request is served before a model is loaded: from a worker without a
/// model, whatever it receives, a model is there only after a load was
/// reported done and well.
pub proof fn lemma_model_only_after_load(turns: Seq<Turn>)
    requires
        has_model(after(WorkerState::Unloaded, turns)),
    ensures
        exists|i: int| 0 <= i < turns.len() && #[trigger] turns[i] == Turn::Done(true),
    decreases turns.len(),
{
    let before = after(WorkerState::Unloaded, turns.drop_last());
    if has_model(before) {
        lemma_model_only_after_load(turns.drop_last());
        let i = choose|i: int|
            0 <= i < turns.drop_last().len() && #[trigger] turns.drop_last()[i] == Turn::Done(true);
        assert(turns[i] == Turn::Done(true));
    } else {
        match turns.last() {
            Turn::Take(received) => {
                match received {
                    Received::Command(command) => {},
                    _ => {},
                }
            },
            Turn::Done(ok) => {
                assert(turns[turns.len() - 1] == Turn::Done(true));
            },
        }
    }
}

/// A stopped worker stays stopped.
pub proof fn lemma_stopped_for_good(turns: Seq<Turn>)
    ensures
        after(WorkerState::Stopped, turns) == WorkerState::Stopped,
    decreases turns.len(),
{
    if turns.len() > 0 {
        lemma_stopped_for_good(turns.drop_last());
    }
}

} // verus!
