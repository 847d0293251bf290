//! The generation loop as a state machine.
//!
//! The loop alternates between work that only the host can do (open the
//! session, tokenize, evaluate, choose a token, persist) and decisions. The
//! decisions are here: [`Generation::step`] takes what the host has just done
//! and answers with what to report and what to do next. The host carries out
//! the answer and comes back with the outcome, until the stream has ended.

use vstd::prelude::*;
use crate::context::LLamaContext;
use crate::request::Generate;
use crate::session::Session;
use crate::session::SessionView;
use crate::TokenId;

verus! {

/// Where a generation stands.
#[derive(Clone, Copy, Debug, PartialEq, Eq, Structural)]
pub enum Phase {
    Created,
    PromptFeeding,
    Generating,
    Completed,
    Cancelled,
    Error,
}

/// What the machine waits for.
#[derive(Clone, Copy, Debug, PartialEq, Eq, Structural)]
pub enum Pending {
    /// The session, fresh or restored.
    Session,
    /// The tokens of the prompt and of the stop sequence.
    PromptTokens,
    /// The outcome of an evaluation.
    Evaluation,
    /// The next token.
    Sample,
    /// The outcome of persisting the session.
    Persist,
    /// Nothing: the stream has ended.
    Nothing,
}

/// Why a stream ended in an error.
#[derive(Clone, Copy, Debug, PartialEq, Eq, Structural)]
pub enum InferenceError {
    /// The session could not be restored, or does not fit the model.
    SessionLoad,
    /// The prompt could not be tokenized.
    Tokenization,
    /// The context window has no room left.
    ContextFull,
    /// The engine failed to evaluate.
    Evaluation,
    /// The session could not be persisted.
    SnapshotWrite,
}

/// What the host is told: to report something on the stream, or to do
/// something and come back with the outcome.
#[derive(Clone, Copy, Debug, PartialEq, Eq, Structural)]
pub enum Action {
    /// Open the session: restore it where the request says so, else start
    /// afresh.
    OpenSession,
    /// Tokenize the prompt and the stop sequence.
    Tokenize,
    /// Evaluate `count` tokens of the history from `position` on; `first`
    /// says that the engine has no earlier state to start from.
    Evaluate { position: usize, count: usize, first: bool },
    /// Choose the next token.
    Sample,
    /// Persist the session.
    Persist,
    /// Report a token.
    EmitToken(TokenId),
    /// Report the empty, final token.
    EmitFinal,
    /// Report an error.
    EmitError(InferenceError),
    /// Report the end of the stream.
    EmitEnd,
}

/// What the host has done.
#[derive(Debug)]
pub enum Event {
    SessionOpened(Session),
    SessionFailed,
    /// The prompt's tokens, and the stop sequence's (none where the request
    /// names no stop sequence).
    Tokenized { prompt: Vec<TokenId>, stop: Vec<TokenId> },
    TokenizationFailed,
    Evaluated,
    /// The engine failed: to evaluate, or to give the scores that a token is
    /// chosen from.
    EvaluationFailed,
    Sampled(TokenId),
    Persisted,
    PersistFailed,
}

/// The state of a generation, as plain values.
#[verifier::ext_equal]
pub struct GenerationView {
    pub n_ctx: usize,
    pub eos: TokenId,
    /// Prompt tokens evaluated at a time.
    pub batch: usize,
    /// The most tokens to generate.
    pub budget: usize,
    /// Whether the prompt's tokens are reported as they are fed.
    pub echo_prompt: bool,
    /// Whether the session is persisted at the end.
    pub persist: bool,
    pub history: Seq<TokenId>,
    pub first_evaluation: bool,
    pub phase: Phase,
    pub pending: Pending,
    /// How many tokens of the history the engine has evaluated.
    pub fed: nat,
    /// How many tokens were chosen.
    pub generated: nat,
    pub stop: Seq<TokenId>,
    /// How many tokens of the stop sequence the last tokens chosen match.
    pub matched: nat,
}

/// The stop matcher's next index: one more where `token` is the stop
/// sequence's next token, else zero. Zero throughout where there is no stop
/// sequence.
pub open spec fn stop_next(stop: Seq<TokenId>, matched: nat, token: TokenId) -> nat {
    if matched < stop.len() && stop[matched as int] == token {
        matched + 1
    } else {
        0
    }
}

impl GenerationView {
    /// Whether the stream has ended.
    pub open spec fn ended(self) -> bool {
        self.pending == Pending::Nothing
    }

    /// What holds of every state the machine reaches.
    pub open spec fn wf(self) -> bool {
        &&& self.batch >= 1
        &&& self.history.len() <= self.n_ctx
        &&& self.fed <= self.history.len()
        &&& self.generated <= self.history.len()
        &&& self.generated <= self.budget
        &&& self.matched <= self.stop.len()
        &&& self.matched <= self.history.len()
        &&& self.history.subrange(self.history.len() - self.matched, self.history.len() as int)
            =~= self.stop.subrange(0, self.matched as int)
        &&& match self.pending {
            Pending::Session => self.phase == Phase::Created,
            Pending::PromptTokens => self.phase == Phase::PromptFeeding && self.fed
                == self.history.len(),
            Pending::Evaluation => {
                &&& self.phase == Phase::PromptFeeding || self.phase == Phase::Generating
                &&& self.fed < self.history.len()
                &&& self.phase == Phase::Generating ==> self.fed + 1 == self.history.len()
                &&& self.stop.len() > 0 ==> self.matched < self.stop.len()
            },
            Pending::Sample => {
                &&& self.phase == Phase::Generating
                &&& self.fed == self.history.len()
                &&& self.history.len() < self.n_ctx
                &&& self.generated < self.budget
                &&& self.stop.len() > 0 ==> self.matched < self.stop.len()
            },
            Pending::Persist => {
                &&& self.phase == Phase::Completed || self.phase == Phase::Cancelled
                &&& self.persist
            },
            Pending::Nothing => self.phase == Phase::Completed || self.phase == Phase::Cancelled
                || self.phase == Phase::Error,
        }
    }

    /// The state a request starts in, for a model context.
    pub open spec fn initial(request: Generate, context: LLamaContext) -> GenerationView {
        GenerationView {
            n_ctx: context.n_ctx,
            eos: context.eos,
            batch: request.sampling.batch_of(),
            budget: request.budget(),
            echo_prompt: !request.prompt_hidden(),
            persist: request.save_session is Some,
            history: Seq::empty(),
            first_evaluation: true,
            phase: Phase::Created,
            pending: Pending::Session,
            fed: 0,
            generated: 0,
            stop: Seq::empty(),
            matched: 0,
        }
    }

    /// The stream ends in an error: the error is reported, then the end.
    pub open spec fn fail(self, error: InferenceError) -> (GenerationView, Seq<Action>) {
        (
            GenerationView { phase: Phase::Error, pending: Pending::Nothing, ..self },
            seq![Action::EmitError(error), Action::EmitEnd],
        )
    }

    /// Generation is over, completed or cancelled: the final token is
    /// reported; then the session is persisted where the request asks for it,
    /// else the end is reported.
    pub open spec fn finish(self, phase: Phase) -> (GenerationView, Seq<Action>) {
        if self.persist {
            (
                GenerationView { phase, pending: Pending::Persist, ..self },
                seq![Action::EmitFinal, Action::Persist],
            )
        } else {
            (
                GenerationView { phase, pending: Pending::Nothing, ..self },
                seq![Action::EmitFinal, Action::EmitEnd],
            )
        }
    }

    /// The start of one turn of the loop. A cancelled generation stops; else
    /// one whose budget is spent is complete; else one whose window is full
    /// fails; else the next token is asked for.
    pub open spec fn turn(self, cancelled: bool) -> (GenerationView, Seq<Action>) {
        let at = GenerationView { phase: Phase::Generating, ..self };
        if cancelled {
            at.finish(Phase::Cancelled)
        } else if at.generated >= at.budget {
            at.finish(Phase::Completed)
        } else if at.history.len() >= at.n_ctx {
            at.fail(InferenceError::ContextFull)
        } else {
            (GenerationView { pending: Pending::Sample, ..at }, seq![Action::Sample])
        }
    }

    /// The number of tokens in the evaluation that is asked for next: what is
    /// left to feed, but no more than a batch.
    pub open spec fn chunk(self) -> nat {
        let left = (self.history.len() - self.fed) as nat;
        if left < self.batch {
            left
        } else {
            self.batch as nat
        }
    }

    /// The request to evaluate the next chunk.
    pub open spec fn evaluate(self) -> Action {
        Action::Evaluate {
            position: self.fed as usize,
            count: self.chunk() as usize,
            first: self.first_evaluation,
        }
    }

    /// The session is there. One made for this context window is taken over,
    /// as far as it has been evaluated already, and the prompt's tokens are
    /// asked for; any other fails the stream.
    pub open spec fn on_session(self, session: SessionView) -> (GenerationView, Seq<Action>) {
        if session.n_ctx == self.n_ctx && session.history.len() <= self.n_ctx {
            (
                GenerationView {
                    history: session.history,
                    first_evaluation: session.first_evaluation,
                    fed: session.history.len(),
                    generated: 0,
                    stop: Seq::empty(),
                    matched: 0,
                    phase: Phase::PromptFeeding,
                    pending: Pending::PromptTokens,
                    ..self
                },
                seq![Action::Tokenize],
            )
        } else {
            self.fail(InferenceError::SessionLoad)
        }
    }

    /// The prompt is tokenized. A prompt that leaves no room in the window
    /// fails the stream. Else its tokens join the history and its first
    /// chunk is to be evaluated; an empty prompt leads straight to the first
    /// turn.
    pub open spec fn on_tokenized(self, prompt: Seq<TokenId>, stop: Seq<TokenId>, cancelled: bool) -> (
        GenerationView,
        Seq<Action>,
    ) {
        if self.history.len() + prompt.len() >= self.n_ctx {
            self.fail(InferenceError::ContextFull)
        } else {
            let fed = GenerationView {
                history: self.history + prompt,
                stop,
                matched: 0,
                generated: 0,
                ..self
            };
            if prompt.len() == 0 {
                fed.turn(cancelled)
            } else {
                (GenerationView { pending: Pending::Evaluation, ..fed }, seq![fed.evaluate()])
            }
        }
    }

    /// The tokens of the chunk just evaluated, as reports: only while the
    /// prompt is fed, and only where the request does not hide the prompt.
    pub open spec fn echo(self) -> Seq<Action> {
        if self.phase == Phase::PromptFeeding && self.echo_prompt {
            Seq::new(self.chunk(), |i: int| Action::EmitToken(self.history[self.fed + i]))
        } else {
            Seq::empty()
        }
    }

    /// A chunk is evaluated. Its tokens are reported where the prompt is
    /// echoed; then the next chunk is to be evaluated, or, with nothing left
    /// to feed, the next turn starts.
    pub open spec fn on_evaluated(self, cancelled: bool) -> (GenerationView, Seq<Action>) {
        let done = GenerationView {
            fed: self.fed + self.chunk(),
            first_evaluation: false,
            ..self
        };
        if done.fed < done.history.len() {
            (done, self.echo().push(done.evaluate()))
        } else {
            let (next, actions) = done.turn(cancelled);
            (next, self.echo() + actions)
        }
    }

    /// A token is chosen. It joins the history. The end-of-text token
    /// completes the generation, and so does the token that completes the
    /// stop sequence; neither is reported. Any other token is reported,
    /// unless it matches the stop sequence so far, and is to be evaluated.
    pub open spec fn on_sampled(self, token: TokenId) -> (GenerationView, Seq<Action>) {
        let taken = GenerationView {
            history: self.history.push(token),
            generated: self.generated + 1,
            ..self
        };
        if token == self.eos {
            GenerationView { matched: 0, ..taken }.finish(Phase::Completed)
        } else {
            let matched = stop_next(self.stop, self.matched, token);
            let held = GenerationView { matched, ..taken };
            if matched > 0 && matched == self.stop.len() {
                held.finish(Phase::Completed)
            } else {
                let report = if matched == 0 {
                    seq![Action::EmitToken(token)]
                } else {
                    Seq::empty()
                };
                (
                    GenerationView { pending: Pending::Evaluation, ..held },
                    report.push(held.evaluate()),
                )
            }
        }
    }

    /// The answer to one event. A failure of the engine fails the stream,
    /// while an evaluation is awaited and while a token is. An event that the
    /// machine does not wait for changes nothing and is answered with
    /// nothing.
    pub open spec fn step(self, event: Event, cancelled: bool) -> (GenerationView, Seq<Action>) {
        match self.pending {
            Pending::Session => match event {
                Event::SessionOpened(session) => self.on_session(session@),
                Event::SessionFailed => self.fail(InferenceError::SessionLoad),
                _ => (self, Seq::empty()),
            },
            Pending::PromptTokens => match event {
                Event::Tokenized { prompt, stop } => self.on_tokenized(prompt@, stop@, cancelled),
                Event::TokenizationFailed => self.fail(InferenceError::Tokenization),
                _ => (self, Seq::empty()),
            },
            Pending::Evaluation => match event {
                Event::Evaluated => self.on_evaluated(cancelled),
                Event::EvaluationFailed => self.fail(InferenceError::Evaluation),
                _ => (self, Seq::empty()),
            },
            Pending::Sample => match event {
                Event::Sampled(token) => self.on_sampled(token),
                Event::EvaluationFailed => self.fail(InferenceError::Evaluation),
                _ => (self, Seq::empty()),
            },
            Pending::Persist => match event {
                Event::Persisted => (
                    GenerationView { pending: Pending::Nothing, ..self },
                    seq![Action::EmitEnd],
                ),
                Event::PersistFailed => self.fail(InferenceError::SnapshotWrite),
                _ => (self, Seq::empty()),
            },
            Pending::Nothing => (self, Seq::empty()),
        }
    }
}

/// One generation: a request being served in a model context.
#[derive(Debug)]
pub struct Generation {
    eos: TokenId,
    batch: usize,
    budget: usize,
    echo_prompt: bool,
    persist: bool,
    session: Session,
    phase: Phase,
    pending: Pending,
    fed: usize,
    generated: usize,
    stop: Vec<TokenId>,
    matched: usize,
}

impl View for Generation {
    type V = GenerationView;

    closed spec fn view(&self) -> GenerationView {
        GenerationView {
            n_ctx: self.session@.n_ctx,
            eos: self.eos,
            batch: self.batch,
            budget: self.budget,
            echo_prompt: self.echo_prompt,
            persist: self.persist,
            history: self.session@.history,
            first_evaluation: self.session@.first_evaluation,
            phase: self.phase,
            pending: self.pending,
            fed: self.fed as nat,
            generated: self.generated as nat,
            stop: self.stop@,
            matched: self.matched as nat,
        }
    }
}

impl Generation {
    /// Whether the state is one the machine reaches.
    pub open spec fn wf(&self) -> bool {
        self@.wf()
    }

    /// The generation for `request` in `context`, and its first answer: the
    /// session is to be opened.
    pub fn new(request: &Generate, context: &LLamaContext) -> (r: (Generation, Vec<Action>))
        ensures
            r.0.wf(),
            r.0@ == GenerationView::initial(*request, *context),
            r.1@ == seq![Action::OpenSession],
    {
        let generation = Generation {
            eos: context.eos,
            batch: request.sampling.batch(),
            budget: request.token_budget(),
            echo_prompt: !request.hides_prompt(),
            persist: request.save_session.is_some(),
            session: Session::new(context.n_ctx),
            phase: Phase::Created,
            pending: Pending::Session,
            fed: 0,
            generated: 0,
            stop: Vec::new(),
            matched: 0,
        };
        let mut actions: Vec<Action> = Vec::new();
        actions.push(Action::OpenSession);
        proof {
            assert(generation@ =~= GenerationView::initial(*request, *context));
            assert(actions@ =~= seq![Action::OpenSession]);
        }
        (generation, actions)
    }

    /// Where the generation stands.
    pub fn phase(&self) -> (r: Phase)
        ensures
            r == self@.phase,
    {
        self.phase
    }

    /// What the machine waits for.
    pub fn pending(&self) -> (r: Pending)
        ensures
            r == self@.pending,
    {
        self.pending
    }

    /// Whether the stream has ended.
    pub fn has_ended(&self) -> (r: bool)
        ensures
            r == self@.ended(),
    {
        match self.pending {
            Pending::Nothing => true,
            _ => false,
        }
    }

    /// The session as it stands.
    pub fn session(&self) -> (r: &Session)
        ensures
            r@.n_ctx == self@.n_ctx,
            r@.history == self@.history,
            r@.first_evaluation == self@.first_evaluation,
    {
        &self.session
    }

    /// How many tokens were chosen.
    pub fn generated(&self) -> (r: usize)
        ensures
            r == self@.generated,
    {
        self.generated
    }

    /// The tokens of the stop sequence.
    pub fn stop_tokens(&self) -> (r: &Vec<TokenId>)
        ensures
            r@ == self@.stop,
    {
        &self.stop
    }

    fn fail(&mut self, error: InferenceError, actions: &mut Vec<Action>)
        ensures
            final(self)@ == old(self)@.fail(error).0,
            final(actions)@ == old(actions)@ + old(self)@.fail(error).1,
    {
        self.phase = Phase::Error;
        self.pending = Pending::Nothing;
        actions.push(Action::EmitError(error));
        actions.push(Action::EmitEnd);
        proof {
            assert(self@ =~= old(self)@.fail(error).0);
            assert(actions@ =~= old(actions)@ + old(self)@.fail(error).1);
        }
    }

    fn finish(&mut self, phase: Phase, actions: &mut Vec<Action>)
        ensures
            final(self)@ == old(self)@.finish(phase).0,
            final(actions)@ == old(actions)@ + old(self)@.finish(phase).1,
    {
        self.phase = phase;
        actions.push(Action::EmitFinal);
        if self.persist {
            self.pending = Pending::Persist;
            actions.push(Action::Persist);
        } else {
            self.pending = Pending::Nothing;
            actions.push(Action::EmitEnd);
        }
        proof {
            assert(self@ =~= old(self)@.finish(phase).0);
            assert(actions@ =~= old(actions)@ + old(self)@.finish(phase).1);
        }
    }

    fn turn(&mut self, cancelled: bool, actions: &mut Vec<Action>)
        ensures
            final(self)@ == old(self)@.turn(cancelled).0,
            final(actions)@ == old(actions)@ + old(self)@.turn(cancelled).1,
    {
        self.phase = Phase::Generating;
        if cancelled {
            self.finish(Phase::Cancelled, actions);
        } else if self.generated >= self.budget {
            self.finish(Phase::Completed, actions);
        } else if self.session.len() >= self.session.n_ctx() {
            self.fail(InferenceError::ContextFull, actions);
        } else {
            self.pending = Pending::Sample;
            actions.push(Action::Sample);
            proof {
                assert(self@ =~= old(self)@.turn(cancelled).0);
                assert(actions@ =~= old(actions)@ + old(self)@.turn(cancelled).1);
            }
        }
    }

    fn chunk(&self) -> (r: usize)
        requires
            self@.fed <= self@.history.len(),
        ensures
            r == self@.chunk(),
    {
        let left: usize = self.session.len() - self.fed;
        if left < self.batch {
            left
        } else {
            self.batch
        }
    }

    fn evaluate(&self) -> (r: Action)
        requires
            self@.fed <= self@.history.len(),
        ensures
            r == self@.evaluate(),
    {
        Action::Evaluate {
            position: self.fed,
            count: self.chunk(),
            first: self.session.is_first_evaluation(),
        }
    }

    fn on_session(&mut self, session: Session, actions: &mut Vec<Action>)
        ensures
            final(self)@ == old(self)@.on_session(session@).0,
            final(actions)@ == old(actions)@ + old(self)@.on_session(session@).1,
    {
        if session.n_ctx() == self.session.n_ctx() && session.len() <= session.n_ctx() {
            self.fed = session.len();
            self.session = session;
            self.generated = 0;
            self.stop = Vec::new();
            self.matched = 0;
            self.phase = Phase::PromptFeeding;
            self.pending = Pending::PromptTokens;
            actions.push(Action::Tokenize);
            proof {
                assert(self@ =~= old(self)@.on_session(session@).0);
                assert(actions@ =~= old(actions)@ + old(self)@.on_session(session@).1);
            }
        } else {
            self.fail(InferenceError::SessionLoad, actions);
        }
    }

    fn on_tokenized(
        &mut self,
        prompt: Vec<TokenId>,
        stop: Vec<TokenId>,
        cancelled: bool,
        actions: &mut Vec<Action>,
    )
        requires
            old(self).wf(),
            old(self)@.pending == Pending::PromptTokens,
        ensures
            final(self)@ == old(self)@.on_tokenized(prompt@, stop@, cancelled).0,
            final(actions)@ == old(actions)@ + old(self)@.on_tokenized(
                prompt@,
                stop@,
                cancelled,
            ).1,
    {
        if prompt.len() >= self.session.n_ctx() - self.session.len() {
            self.fail(InferenceError::ContextFull, actions);
        } else {
            self.session.extend(&prompt);
            self.stop = stop;
            self.matched = 0;
            self.generated = 0;
            let ghost fed = self@;
            proof {
                assert(fed =~= GenerationView {
                    history: old(self)@.history + prompt@,
                    stop: stop@,
                    matched: 0,
                    generated: 0,
                    ..old(self)@
                });
            }
            if prompt.len() == 0 {
                self.turn(cancelled, actions);
            } else {
                let request = self.evaluate();
                self.pending = Pending::Evaluation;
                actions.push(request);
                proof {
                    assert(self@ =~= GenerationView { pending: Pending::Evaluation, ..fed });
                    assert(actions@ =~= old(actions)@ + seq![fed.evaluate()]);
                }
            }
        }
    }

    fn on_evaluated(&mut self, cancelled: bool, actions: &mut Vec<Action>)
        requires
            old(self).wf(),
            old(self)@.pending == Pending::Evaluation,
        ensures
            final(self)@ == old(self)@.on_evaluated(cancelled).0,
            final(actions)@ == old(actions)@ + old(self)@.on_evaluated(cancelled).1,
    {
        let count: usize = self.chunk();
        let echoes: bool = self.echo_prompt && self.phase == Phase::PromptFeeding;
        if echoes {
            let mut i: usize = 0;
            while i < count
                invariant
                    i <= count,
                    count == self@.chunk(),
                    self@.fed + count <= self@.history.len(),
                    self@.history.len() <= self@.n_ctx,
                    self@ == old(self)@,
                    self.fed == self@.fed,
                    actions@ == old(actions)@ + Seq::new(
                        i as nat,
                        |k: int| Action::EmitToken(self@.history[self@.fed + k]),
                    ),
                decreases count - i,
            {
                let token: TokenId = self.session.history()[self.fed + i];
                actions.push(Action::EmitToken(token));
                i += 1;
                proof {
                    assert(actions@ =~= old(actions)@ + Seq::new(
                        i as nat,
                        |k: int| Action::EmitToken(self@.history[self@.fed + k]),
                    ));
                }
            }
        }
        proof {
            assert(actions@ =~= old(actions)@ + old(self)@.echo());
        }
        self.fed = self.fed + count;
        self.session.mark_evaluated();
        let ghost done = self@;
        proof {
            assert(done =~= GenerationView {
                fed: old(self)@.fed + old(self)@.chunk(),
                first_evaluation: false,
                ..old(self)@
            });
        }
        if self.fed < self.session.len() {
            let request = self.evaluate();
            actions.push(request);
            proof {
                assert(actions@ =~= old(actions)@ + old(self)@.echo().push(done.evaluate()));
            }
        } else {
            self.turn(cancelled, actions);
            proof {
                assert(actions@ =~= old(actions)@ + (old(self)@.echo() + done.turn(cancelled).1));
            }
        }
    }

    fn on_sampled(&mut self, token: TokenId, actions: &mut Vec<Action>)
        requires
            old(self).wf(),
            old(self)@.pending == Pending::Sample,
        ensures
            final(self)@ == old(self)@.on_sampled(token).0,
            final(actions)@ == old(actions)@ + old(self)@.on_sampled(token).1,
    {
        self.session.push(token);
        self.generated = self.generated + 1;
        let ghost taken = self@;
        proof {
            assert(taken =~= GenerationView {
                history: old(self)@.history.push(token),
                generated: old(self)@.generated + 1,
                ..old(self)@
            });
        }
        if token == self.eos {
            self.matched = 0;
            proof {
                assert(self@ =~= GenerationView { matched: 0, ..taken });
            }
            self.finish(Phase::Completed, actions);
        } else {
            let matched: usize = if self.matched < self.stop.len() && self.stop[self.matched]
                == token {
                self.matched + 1
            } else {
                0
            };
            self.matched = matched;
            let ghost held = self@;
            proof {
                assert(matched == stop_next(old(self)@.stop, old(self)@.matched, token));
                assert(held =~= GenerationView { matched: matched as nat, ..taken });
            }
            if matched > 0 && matched == self.stop.len() {
                self.finish(Phase::Completed, actions);
            } else {
                if matched == 0 {
                    actions.push(Action::EmitToken(token));
                }
                let request = self.evaluate();
                self.pending = Pending::Evaluation;
                actions.push(request);
                proof {
                    assert(self@ =~= old(self)@.on_sampled(token).0);
                    assert(actions@ =~= old(actions)@ + old(self)@.on_sampled(token).1);
                }
            }
        }
    }

    /// Takes what the host has done, with the cancellation flag as it stands,
    /// and answers with what the host is to report and to do, in this order.
    /// The stream has ended when the answer ends with [`Action::EmitEnd`].
    pub fn step(&mut self, event: Event, cancelled: bool) -> (r: Vec<Action>)
        requires
            old(self).wf(),
        ensures
            final(self).wf(),
            final(self)@ == old(self)@.step(event, cancelled).0,
            r@ == old(self)@.step(event, cancelled).1,
    {
        proof {
            lemma_step_keeps_wf(self@, event, cancelled);
        }
        let mut actions: Vec<Action> = Vec::new();
        match self.pending {
            Pending::Session => match event {
                Event::SessionOpened(session) => {
                    self.on_session(session, &mut actions);
                },
                Event::SessionFailed => {
                    self.fail(InferenceError::SessionLoad, &mut actions);
                },
                _ => {},
            },
            Pending::PromptTokens => match event {
                Event::Tokenized { prompt, stop } => {
                    self.on_tokenized(prompt, stop, cancelled, &mut actions);
                },
                Event::TokenizationFailed => {
                    self.fail(InferenceError::Tokenization, &mut actions);
                },
                _ => {},
            },
            Pending::Evaluation => match event {
                Event::Evaluated => {
                    self.on_evaluated(cancelled, &mut actions);
                },
                Event::EvaluationFailed => {
                    self.fail(InferenceError::Evaluation, &mut actions);
                },
                _ => {},
            },
            Pending::Sample => match event {
                Event::Sampled(token) => {
                    self.on_sampled(token, &mut actions);
                },
                Event::EvaluationFailed => {
                    self.fail(InferenceError::Evaluation, &mut actions);
                },
                _ => {},
            },
            Pending::Persist => match event {
                Event::Persisted => {
                    self.pending = Pending::Nothing;
                    actions.push(Action::EmitEnd);
                },
                Event::PersistFailed => {
                    self.fail(InferenceError::SnapshotWrite, &mut actions);
                },
                _ => {},
            },
            Pending::Nothing => {},
        }
        proof {
            assert(self@ =~= old(self)@.step(event, cancelled).0);
            assert(actions@ =~= old(self)@.step(event, cancelled).1);
        }
        actions
    }
}

/// Every step leads from a state of the machine to a state of the machine.
pub proof fn lemma_step_keeps_wf(v: GenerationView, event: Event, cancelled: bool)
    requires
        v.wf(),
    ensures
        v.step(event, cancelled).0.wf(),
{
    match v.pending {
        Pending::Session => {},
        Pending::PromptTokens => {},
        Pending::Evaluation => {},
        Pending::Sample => match event {
            Event::Sampled(token) => {
                let m = stop_next(v.stop, v.matched, token);
                let h = v.history.push(token);
                if token != v.eos {
                    assert(h.subrange(h.len() - m, h.len() as int) =~= v.stop.subrange(0, m as int))
                        by {
                        if m > 0 {
                            let old_tail = v.history.subrange(
                                v.history.len() - v.matched,
                                v.history.len() as int,
                            );
                            assert(old_tail =~= v.stop.subrange(0, v.matched as int));
                            assert forall|i: int| 0 <= i < m implies h[h.len() - m + i]
                                == v.stop[i] by {
                                if i < v.matched {
                                    assert(old_tail[i] == v.stop.subrange(0, v.matched as int)[i]);
                                }
                            }
                        }
                    }
                }
            },
            _ => {},
        },
        Pending::Persist => {},
        Pending::Nothing => {},
    }
}

} // verus!
