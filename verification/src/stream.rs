//! What holds of every stream that a generation produces, whatever the host
//! answers.

use vstd::prelude::*;
use crate::context::LLamaContext;
use crate::generation::Action;
use crate::generation::Event;
use crate::generation::GenerationView;
use crate::generation::InferenceError;
use crate::generation::Pending;
use crate::generation::Phase;
use crate::generation::lemma_step_keeps_wf;
use crate::request::Generate;
use crate::TokenId;

verus! {

/// One call of the machine: what the host has done, and the cancellation flag
/// as it stood.
pub struct Input {
    pub event: Event,
    pub cancelled: bool,
}

/// The state after the machine has taken `inputs` in order, and all its
/// answers in one sequence.
pub open spec fn run(v: GenerationView, inputs: Seq<Input>) -> (GenerationView, Seq<Action>)
    decreases inputs.len(),
{
    if inputs.len() == 0 {
        (v, Seq::empty())
    } else {
        let (next, first) = v.step(inputs[0].event, inputs[0].cancelled);
        let (last, rest) = run(next, inputs.subrange(1, inputs.len() as int));
        (last, first + rest)
    }
}

/// The tokens reported in `actions`, in order.
pub open spec fn emitted(actions: Seq<Action>) -> Seq<TokenId>
    decreases actions.len(),
{
    if actions.len() == 0 {
        Seq::empty()
    } else {
        let before = emitted(actions.drop_last());
        match actions.last() {
            Action::EmitToken(token) => before.push(token),
            _ => before,
        }
    }
}

/// Whether `actions` are a whole stream or its beginning: the end is reported
/// at most once and then last, the final token at most once, and every error
/// is followed at once by the end.
pub open spec fn orderly(actions: Seq<Action>) -> bool {
    &&& forall|i: int|
        0 <= i < actions.len() && #[trigger] actions[i] == Action::EmitEnd ==> i == actions.len()
            - 1
    &&& forall|i: int, j: int|
        0 <= i < j < actions.len() && #[trigger] actions[i] == Action::EmitFinal
            ==> #[trigger] actions[j] != Action::EmitFinal
    &&& forall|i: int|
        0 <= i < actions.len() && (#[trigger] actions[i]) is EmitError ==> i + 1 < actions.len()
            && actions[i + 1] == Action::EmitEnd
}

/// Whether generation is over: the final token, or an error, has been
/// reported.
pub open spec fn closing(v: GenerationView) -> bool {
    v.pending == Pending::Persist || v.pending == Pending::Nothing
}

/// Whether the prompt has been fed.
pub open spec fn past_prompt(v: GenerationView) -> bool {
    v.phase != Phase::Created && v.phase != Phase::PromptFeeding
}

/// Whether the flag was set at every one of `inputs`.
pub open spec fn all_cancelled(inputs: Seq<Input>) -> bool {
    forall|i: int| 0 <= i < inputs.len() ==> (#[trigger] inputs[i]).cancelled
}

/// The tokens reported in two runs of actions are those of the first, then
/// those of the second.
pub proof fn lemma_emitted_concat(a: Seq<Action>, b: Seq<Action>)
    ensures
        emitted(a + b) == emitted(a) + emitted(b),
    decreases b.len(),
{
    if b.len() == 0 {
        assert(a + b =~= a);
        assert(emitted(a) + emitted(b) =~= emitted(a));
    } else {
        assert((a + b).drop_last() =~= a + b.drop_last());
        lemma_emitted_concat(a, b.drop_last());
        match b.last() {
            Action::EmitToken(token) => {
                assert(emitted(a + b) =~= emitted(a) + emitted(b));
            },
            _ => {
                assert(emitted(a + b) =~= emitted(a) + emitted(b));
            },
        }
    }
}

/// Every run leads from a state of the machine to a state of the machine.
pub proof fn lemma_run_keeps_wf(v: GenerationView, inputs: Seq<Input>)
    requires
        v.wf(),
    ensures
        run(v, inputs).0.wf(),
    decreases inputs.len(),
{
    if inputs.len() > 0 {
        lemma_step_keeps_wf(v, inputs[0].event, inputs[0].cancelled);
        lemma_run_keeps_wf(
            v.step(inputs[0].event, inputs[0].cancelled).0,
            inputs.subrange(1, inputs.len() as int),
        );
    }
}

/// Once the stream has ended the machine says nothing more.
pub proof fn lemma_silent_after_end(v: GenerationView, inputs: Seq<Input>)
    requires
        v.ended(),
    ensures
        run(v, inputs).0 == v,
        run(v, inputs).1.len() == 0,
    decreases inputs.len(),
{
    if inputs.len() > 0 {
        lemma_silent_after_end(v, inputs.subrange(1, inputs.len() as int));
    }
}

/// What one answer holds: the end only as its last action and only when the
/// stream ends with it; the final token only when generation is over with it,
/// and then once; an error only with the end right behind it.
proof fn lemma_step_orderly(v: GenerationView, event: Event, cancelled: bool)
    requires
        v.wf(),
    ensures
        ({
            let (next, actions) = v.step(event, cancelled);
            &&& orderly(actions)
            &&& closing(v) ==> closing(next)
            &&& closing(v) ==> forall|i: int|
                0 <= i < actions.len() ==> #[trigger] actions[i] != Action::EmitFinal
            &&& !closing(next) ==> forall|i: int|
                0 <= i < actions.len() ==> #[trigger] actions[i] != Action::EmitFinal
            &&& next.ended() && !v.ended() <==> actions.len() > 0 && actions.last()
                == Action::EmitEnd
            &&& v.ended() ==> actions.len() == 0
        }),
{
    let (next, actions) = v.step(event, cancelled);
    match v.pending {
        Pending::Evaluation => match event {
            Event::Evaluated => {
                let echo = v.echo();
                let done = GenerationView {
                    fed: v.fed + v.chunk(),
                    first_evaluation: false,
                    ..v
                };
                assert forall|i: int| 0 <= i < echo.len() implies (#[trigger] echo[i])
                    is EmitToken by {}
                if done.fed < done.history.len() {
                    assert(actions == echo.push(done.evaluate()));
                    assert forall|i: int| 0 <= i < actions.len() implies !(#[trigger] actions[i]
                        == Action::EmitEnd) && !(actions[i] == Action::EmitFinal) && !(
                    actions[i] is EmitError) by {
                        if i < echo.len() {
                            assert(actions[i] == echo[i]);
                        }
                    }
                } else {
                    let tail = done.turn(cancelled).1;
                    assert(actions == echo + tail);
                    assert forall|i: int| 0 <= i < actions.len() implies (i < echo.len()
                        && (#[trigger] actions[i]) is EmitToken) || (i >= echo.len()
                        && actions[i] == tail[i - echo.len()]) by {
                        if i < echo.len() {
                            assert(actions[i] == echo[i]);
                        }
                    }
                    assert(orderly(actions)) by {
                        assert forall|i: int|
                            0 <= i < actions.len() && #[trigger] actions[i]
                                == Action::EmitEnd implies i == actions.len() - 1 by {}
                        assert forall|i: int, j: int|
                            0 <= i < j < actions.len() && #[trigger] actions[i]
                                == Action::EmitFinal implies #[trigger] actions[j]
                            != Action::EmitFinal by {}
                        assert forall|i: int|
                            0 <= i < actions.len() && (#[trigger] actions[i])
                                is EmitError implies i + 1 < actions.len() && actions[i + 1]
                            == Action::EmitEnd by {
                            assert(actions[i + 1] == tail[i + 1 - echo.len()]);
                        }
                    }
                }
            },
            _ => {},
        },
        _ => {},
    }
}

/// Two orderly runs of actions make an orderly run where the first holds
/// neither the end nor, if the second holds the final token, the final token.
proof fn lemma_orderly_concat(a: Seq<Action>, b: Seq<Action>)
    requires
        orderly(a),
        orderly(b),
        forall|i: int| 0 <= i < a.len() ==> #[trigger] a[i] != Action::EmitEnd,
        (forall|i: int| 0 <= i < a.len() ==> #[trigger] a[i] != Action::EmitFinal) || (forall|
            i: int,
        | 0 <= i < b.len() ==> #[trigger] b[i] != Action::EmitFinal),
    ensures
        orderly(a + b),
{
    let c = a + b;
    assert forall|i: int| 0 <= i < c.len() && #[trigger] c[i] == Action::EmitEnd implies i
        == c.len() - 1 by {
        if i < a.len() {
            assert(c[i] == a[i]);
        } else {
            assert(c[i] == b[i - a.len()]);
        }
    }
    assert forall|i: int, j: int|
        0 <= i < j < c.len() && #[trigger] c[i] == Action::EmitFinal implies #[trigger] c[j]
        != Action::EmitFinal by {
        if i < a.len() {
            assert(c[i] == a[i]);
        } else {
            assert(c[i] == b[i - a.len()]);
        }
        if j < a.len() {
            assert(c[j] == a[j]);
        } else {
            assert(c[j] == b[j - a.len()]);
        }
    }
    assert forall|i: int| 0 <= i < c.len() && (#[trigger] c[i]) is EmitError implies i + 1
        < c.len() && c[i + 1] == Action::EmitEnd by {
        if i < a.len() {
            assert(c[i] == a[i]);
            assert(a[i + 1] == Action::EmitEnd);
        } else {
            assert(c[i] == b[i - a.len()]);
            assert(c[i + 1] == b[i + 1 - a.len()]);
        }
    }
}

/// Every stream is orderly: whatever the host answers, the machine reports
/// the end at most once and nothing after it, the final token at most once,
/// and each error with the end right behind it. The end has been reported
/// exactly when the machine waits for nothing more.
pub proof fn lemma_stream_is_orderly(v: GenerationView, inputs: Seq<Input>)
    requires
        v.wf(),
        !v.ended(),
    ensures
        orderly(run(v, inputs).1),
        run(v, inputs).0.ended() <==> run(v, inputs).1.len() > 0 && run(v, inputs).1.last()
            == Action::EmitEnd,
        closing(v) || !closing(run(v, inputs).0) ==> forall|i: int|
            0 <= i < run(v, inputs).1.len() ==> #[trigger] run(v, inputs).1[i]
                != Action::EmitFinal,
        closing(v) ==> closing(run(v, inputs).0),
    decreases inputs.len(),
{
    if inputs.len() > 0 {
        let (next, first) = v.step(inputs[0].event, inputs[0].cancelled);
        let tail = inputs.subrange(1, inputs.len() as int);
        let (last, rest) = run(next, tail);
        lemma_step_orderly(v, inputs[0].event, inputs[0].cancelled);
        lemma_step_keeps_wf(v, inputs[0].event, inputs[0].cancelled);
        if next.ended() {
            lemma_silent_after_end(next, tail);
            assert(first + rest =~= first);
        } else {
            lemma_stream_is_orderly(next, tail);
            assert forall|i: int| 0 <= i < first.len() implies #[trigger] first[i]
                != Action::EmitEnd by {}
            lemma_orderly_concat(first, rest);
            let all = first + rest;
            if rest.len() > 0 {
                assert(all.last() == rest.last());
            } else {
                assert(all =~= first);
            }
            if closing(v) || !closing(last) {
                assert forall|i: int| 0 <= i < all.len() implies #[trigger] all[i]
                    != Action::EmitFinal by {
                    if i < first.len() {
                        assert(all[i] == first[i]);
                    } else {
                        assert(all[i] == rest[i - first.len()]);
                    }
                }
            }
        }
    }
}

/// Where no action from index `k` on reports a token, at most `k` tokens are
/// reported.
proof fn lemma_emitted_bounded(actions: Seq<Action>, k: nat)
    requires
        forall|i: int| k <= i < actions.len() ==> !((#[trigger] actions[i]) is EmitToken),
    ensures
        emitted(actions).len() <= k,
    decreases actions.len(),
{
    if actions.len() > 0 {
        let shorter = actions.drop_last();
        assert forall|i: int| k <= i < shorter.len() implies !((#[trigger] shorter[i])
            is EmitToken) by {
            assert(shorter[i] == actions[i]);
        }
        lemma_emitted_bounded(shorter, k);
        if actions.len() <= k {
            lemma_emitted_bounded(shorter, (actions.len() - 1) as nat);
        } else {
            assert(!(actions[actions.len() - 1] is EmitToken));
        }
    }
}

/// One answer under a set flag, once the prompt is fed: no token is asked
/// for; no token is reported, but the one whose choice was under way; and
/// after the answer no choice is under way, unless the answer was none.
proof fn lemma_cancelled_step(v: GenerationView, event: Event)
    requires
        v.wf(),
        past_prompt(v),
    ensures
        ({
            let (next, actions) = v.step(event, true);
            &&& past_prompt(next)
            &&& forall|i: int| 0 <= i < actions.len() ==> #[trigger] actions[i] != Action::Sample
            &&& next.pending == Pending::Sample ==> next == v && actions.len() == 0
            &&& v.pending != Pending::Sample ==> emitted(actions).len() == 0
            &&& emitted(actions).len() <= 1
        }),
{
    let (next, actions) = v.step(event, true);
    match v.pending {
        Pending::Evaluation => match event {
            Event::Evaluated => {
                assert(v.echo().len() == 0);
                assert(v.chunk() == 1);
                let done = GenerationView {
                    fed: v.fed + v.chunk(),
                    first_evaluation: false,
                    ..v
                };
                assert(actions =~= done.turn(true).1);
                lemma_emitted_bounded(actions, 0);
            },
            _ => {
                lemma_emitted_bounded(actions, 0);
            },
        },
        Pending::Sample => {
            lemma_emitted_bounded(actions, 1);
        },
        _ => {
            lemma_emitted_bounded(actions, 0);
        },
    }
}

/// Cancellation: once the prompt is fed and the flag is set, and stays set,
/// no further token is asked for, and no token is reported but the one whose
/// choice was under way when the flag was set.
pub proof fn lemma_cancelled_reports_no_more(v: GenerationView, inputs: Seq<Input>)
    requires
        v.wf(),
        past_prompt(v),
        all_cancelled(inputs),
    ensures
        forall|i: int|
            0 <= i < run(v, inputs).1.len() ==> #[trigger] run(v, inputs).1[i] != Action::Sample,
        v.pending != Pending::Sample ==> emitted(run(v, inputs).1).len() == 0,
        emitted(run(v, inputs).1).len() <= 1,
        past_prompt(run(v, inputs).0),
    decreases inputs.len(),
{
    if inputs.len() > 0 {
        assert(inputs[0].cancelled);
        let (next, first) = v.step(inputs[0].event, true);
        let tail = inputs.subrange(1, inputs.len() as int);
        let (last, rest) = run(next, tail);
        assert forall|i: int| 0 <= i < tail.len() implies (#[trigger] tail[i]).cancelled by {
            assert(tail[i] == inputs[i + 1]);
        }
        lemma_cancelled_step(v, inputs[0].event);
        lemma_step_keeps_wf(v, inputs[0].event, true);
        lemma_cancelled_reports_no_more(next, tail);
        lemma_emitted_concat(first, rest);
        let all = first + rest;
        assert forall|i: int| 0 <= i < all.len() implies #[trigger] all[i] != Action::Sample by {
            if i < first.len() {
                assert(all[i] == first[i]);
            } else {
                assert(all[i] == rest[i - first.len()]);
            }
        }
        if next.pending == Pending::Sample {
            assert(first.len() == 0);
            assert(emitted(first).len() == 0);
        }
    }
}

/// A cancelled turn: when the flag is set as a turn starts, the generation is
/// cancelled at once; the final token is reported, and no other.
pub proof fn lemma_cancelled_turn_stops(v: GenerationView)
    requires
        v.wf(),
        v.pending == Pending::Evaluation,
        v.phase == Phase::Generating,
    ensures
        v.step(Event::Evaluated, true).0.phase == Phase::Cancelled,
        v.step(Event::Evaluated, true).1 == seq![
            Action::EmitFinal,
            if v.persist {
                Action::Persist
            } else {
                Action::EmitEnd
            },
        ],
{
    assert(v.echo().len() == 0);
    assert(v.chunk() == 1);
    let done = GenerationView { fed: v.fed + v.chunk(), first_evaluation: false, ..v };
    assert(v.step(Event::Evaluated, true).1 =~= done.turn(true).1);
    assert(done.turn(true).1 =~= seq![
        Action::EmitFinal,
        if v.persist {
            Action::Persist
        } else {
            Action::EmitEnd
        },
    ]);
}

/// With a budget of no tokens the machine never asks for one, whatever the
/// host answers.
pub proof fn lemma_no_budget_chooses_nothing(v: GenerationView, inputs: Seq<Input>)
    requires
        v.wf(),
        v.budget == 0,
    ensures
        forall|i: int|
            0 <= i < run(v, inputs).1.len() ==> #[trigger] run(v, inputs).1[i] != Action::Sample,
        run(v, inputs).0.budget == 0,
    decreases inputs.len(),
{
    if inputs.len() > 0 {
        let (next, first) = v.step(inputs[0].event, inputs[0].cancelled);
        let tail = inputs.subrange(1, inputs.len() as int);
        let (last, rest) = run(next, tail);
        lemma_step_keeps_wf(v, inputs[0].event, inputs[0].cancelled);
        lemma_no_budget_step(v, inputs[0].event, inputs[0].cancelled);
        lemma_no_budget_chooses_nothing(next, tail);
        let all = first + rest;
        assert forall|i: int| 0 <= i < all.len() implies #[trigger] all[i] != Action::Sample by {
            if i < first.len() {
                assert(all[i] == first[i]);
            } else {
                assert(all[i] == rest[i - first.len()]);
            }
        }
    }
}

proof fn lemma_no_budget_step(v: GenerationView, event: Event, cancelled: bool)
    requires
        v.wf(),
        v.budget == 0,
    ensures
        v.step(event, cancelled).0.budget == 0,
        forall|i: int|
            0 <= i < v.step(event, cancelled).1.len() ==> #[trigger] v.step(event, cancelled).1[i]
                != Action::Sample,
{
    let actions = v.step(event, cancelled).1;
    match v.pending {
        Pending::Evaluation => match event {
            Event::Evaluated => {
                let echo = v.echo();
                assert forall|i: int| 0 <= i < actions.len() implies #[trigger] actions[i]
                    != Action::Sample by {
                    if i < echo.len() {
                        assert(actions[i] == echo[i]);
                    }
                }
            },
            _ => {},
        },
        _ => {},
    }
}

/// With a budget of no tokens the prompt is still fed, and when its last
/// chunk is evaluated the generation is complete: the chunk is reported where
/// the prompt is echoed, then the final token.
pub proof fn lemma_no_budget_completes_after_prompt(v: GenerationView)
    requires
        v.wf(),
        v.budget == 0,
        v.pending == Pending::Evaluation,
        v.fed + v.chunk() == v.history.len(),
    ensures
        v.step(Event::Evaluated, false).0.phase == Phase::Completed,
        v.step(Event::Evaluated, false).1 == v.echo() + seq![
            Action::EmitFinal,
            if v.persist {
                Action::Persist
            } else {
                Action::EmitEnd
            },
        ],
{
    let done = GenerationView { fed: v.fed + v.chunk(), first_evaluation: false, ..v };
    assert(done.turn(false).1 =~= seq![
        Action::EmitFinal,
        if v.persist {
            Action::Persist
        } else {
            Action::EmitEnd
        },
    ]);
}

/// A prompt with room in the window is fed whatever the budget: the answer
/// to its tokens is the request to evaluate its first chunk.
pub proof fn lemma_prompt_is_fed(v: GenerationView, event: Event, cancelled: bool)
    requires
        v.wf(),
        v.pending == Pending::PromptTokens,
        event matches Event::Tokenized { prompt, .. } && prompt@.len() > 0 && v.history.len()
            + prompt@.len() < v.n_ctx,
    ensures
        v.step(event, cancelled).0.pending == Pending::Evaluation,
        v.step(event, cancelled).0.phase == Phase::PromptFeeding,
        v.step(event, cancelled).1.len() == 1,
        v.step(event, cancelled).1[0] is Evaluate,
        v.step(event, cancelled).1[0]->position == v.history.len(),
{
}

/// A prompt that fills the window, or more, fails the stream: with as many
/// tokens in the history and the prompt as the window holds, the answer is
/// the error and the end.
pub proof fn lemma_full_window_fails(v: GenerationView, event: Event, cancelled: bool)
    requires
        v.wf(),
        v.pending == Pending::PromptTokens,
        event matches Event::Tokenized { prompt, .. } && v.history.len() + prompt@.len()
            >= v.n_ctx,
    ensures
        v.step(event, cancelled).0.phase == Phase::Error,
        v.step(event, cancelled).0.ended(),
        v.step(event, cancelled).1 == seq![
            Action::EmitError(InferenceError::ContextFull),
            Action::EmitEnd,
        ],
{
}

/// The stop sequence: a token other than the end of text completes the
/// generation only where the stop sequence is not empty and the history ends
/// with it; and the token that completes it is not reported.
pub proof fn lemma_stop_sequence_ends_history(v: GenerationView, token: TokenId, cancelled: bool)
    requires
        v.wf(),
        v.pending == Pending::Sample,
        token != v.eos,
        v.step(Event::Sampled(token), cancelled).0.phase == Phase::Completed,
    ensures
        v.stop.len() > 0,
        ({
            let history = v.step(Event::Sampled(token), cancelled).0.history;
            &&& history.len() >= v.stop.len()
            &&& history.subrange(history.len() - v.stop.len(), history.len() as int) == v.stop
        }),
        emitted(v.step(Event::Sampled(token), cancelled).1).len() == 0,
{
    let (next, actions) = v.step(Event::Sampled(token), cancelled);
    lemma_step_keeps_wf(v, Event::Sampled(token), cancelled);
    assert(next.matched == v.stop.len());
    assert(next.stop.subrange(0, next.matched as int) =~= v.stop);
    lemma_emitted_bounded(actions, 0);
}

/// The token chosen is what is reported: a token that neither ends the text
/// nor matches the stop sequence where the matcher stands is reported alone,
/// and is next to be evaluated.
pub proof fn lemma_chosen_token_is_reported(v: GenerationView, token: TokenId, cancelled: bool)
    requires
        v.wf(),
        v.pending == Pending::Sample,
        token != v.eos,
        v.stop.len() == 0 || v.stop[v.matched as int] != token,
    ensures
        v.step(Event::Sampled(token), cancelled).1 == seq![
            Action::EmitToken(token),
            Action::Evaluate {
                position: v.history.len() as usize,
                count: 1,
                first: v.first_evaluation,
            },
        ],
        v.step(Event::Sampled(token), cancelled).0.history == v.history.push(token),
{
    assert(v.step(Event::Sampled(token), cancelled).1 =~= seq![
        Action::EmitToken(token),
        Action::Evaluate {
            position: v.history.len() as usize,
            count: 1,
            first: v.first_evaluation,
        },
    ]);
}

/// Whether `small` can be had from `big` by leaving tokens out.
pub open spec fn embeds(small: Seq<TokenId>, big: Seq<TokenId>) -> bool
    decreases big.len(),
{
    if small.len() == 0 {
        true
    } else if big.len() == 0 {
        false
    } else {
        ||| small.last() == big.last() && embeds(small.drop_last(), big.drop_last())
        ||| embeds(small, big.drop_last())
    }
}

/// How far into the history the tokens stand that the machine has had the
/// chance to report: as far as the engine has evaluated, and one further
/// while a chosen token is being evaluated; the whole history once generation
/// is over.
pub open spec fn mark(v: GenerationView) -> nat {
    if closing(v) || (v.pending == Pending::Evaluation && v.phase == Phase::Generating) {
        v.history.len()
    } else {
        v.fed
    }
}

proof fn lemma_embeds_itself(s: Seq<TokenId>)
    ensures
        embeds(s, s),
    decreases s.len(),
{
    if s.len() > 0 {
        lemma_embeds_itself(s.drop_last());
    }
}

proof fn lemma_embeds_in_longer(small: Seq<TokenId>, big: Seq<TokenId>, more: Seq<TokenId>)
    requires
        embeds(small, big),
    ensures
        embeds(small, big + more),
    decreases more.len(),
{
    if more.len() == 0 {
        assert(big + more =~= big);
    } else {
        lemma_embeds_in_longer(small, big, more.drop_last());
        assert((big + more).drop_last() =~= big + more.drop_last());
    }
}

proof fn lemma_embeds_side_by_side(
    a1: Seq<TokenId>,
    b1: Seq<TokenId>,
    a2: Seq<TokenId>,
    b2: Seq<TokenId>,
)
    requires
        embeds(a1, b1),
        embeds(a2, b2),
    ensures
        embeds(a1 + a2, b1 + b2),
    decreases b2.len(),
{
    if a2.len() == 0 {
        assert(a1 + a2 =~= a1);
        lemma_embeds_in_longer(a1, b1, b2);
    } else {
        assert((b1 + b2).drop_last() =~= b1 + b2.drop_last());
        if a2.last() == b2.last() && embeds(a2.drop_last(), b2.drop_last()) {
            lemma_embeds_side_by_side(a1, b1, a2.drop_last(), b2.drop_last());
            assert((a1 + a2).drop_last() =~= a1 + a2.drop_last());
        } else {
            lemma_embeds_side_by_side(a1, b1, a2, b2.drop_last());
        }
    }
}

/// The tokens reported in a run of reports of tokens are those tokens.
proof fn lemma_emitted_of_tokens(tokens: Seq<TokenId>)
    ensures
        emitted(Seq::new(tokens.len(), |i: int| Action::EmitToken(tokens[i]))) == tokens,
    decreases tokens.len(),
{
    let actions = Seq::new(tokens.len(), |i: int| Action::EmitToken(tokens[i]));
    if tokens.len() > 0 {
        let shorter = tokens.drop_last();
        lemma_emitted_of_tokens(shorter);
        assert(actions.drop_last() =~= Seq::new(
            shorter.len(),
            |i: int| Action::EmitToken(shorter[i]),
        ));
        assert(emitted(actions) =~= tokens);
    } else {
        assert(emitted(actions) =~= tokens);
    }
}

/// Whether one answer keeps the order: the history only grows, the mark only
/// moves on, and what is reported stands, in order, between where the mark
/// stood and where it stands.
spec fn keeps_order(v: GenerationView, next: GenerationView, actions: Seq<Action>) -> bool {
    &&& next.phase != Phase::Created
    &&& v.history.len() <= next.history.len()
    &&& next.history.subrange(0, v.history.len() as int) == v.history
    &&& mark(v) <= mark(next) <= next.history.len()
    &&& embeds(emitted(actions), next.history.subrange(mark(v) as int, mark(next) as int))
}

proof fn lemma_evaluated_in_order(v: GenerationView, cancelled: bool)
    requires
        v.wf(),
        v.pending == Pending::Evaluation,
    ensures
        keeps_order(v, v.on_evaluated(cancelled).0, v.on_evaluated(cancelled).1),
{
    let (next, actions) = v.on_evaluated(cancelled);
    lemma_step_keeps_wf(v, Event::Evaluated, cancelled);
    assert(next.history.subrange(0, v.history.len() as int) =~= v.history);
    let echo = v.echo();
    let done = GenerationView { fed: v.fed + v.chunk(), first_evaluation: false, ..v };
    let tail = if done.fed < done.history.len() {
        seq![done.evaluate()]
    } else {
        done.turn(cancelled).1
    };
    assert(actions =~= echo + tail);
    lemma_emitted_concat(echo, tail);
    lemma_emitted_bounded(tail, 0);
    assert(emitted(actions) =~= emitted(echo));
    let here = next.history.subrange(mark(v) as int, mark(next) as int);
    if v.phase == Phase::PromptFeeding && v.echo_prompt {
        let chunk = v.history.subrange(v.fed as int, (v.fed + v.chunk()) as int);
        assert(echo =~= Seq::new(chunk.len(), |i: int| Action::EmitToken(chunk[i])));
        lemma_emitted_of_tokens(chunk);
        lemma_embeds_itself(chunk);
        let more = here.subrange(chunk.len() as int, here.len() as int);
        assert(here =~= chunk + more);
        lemma_embeds_in_longer(chunk, chunk, more);
    } else {
        lemma_emitted_bounded(echo, 0);
    }
}

proof fn lemma_sampled_in_order(v: GenerationView, token: TokenId)
    requires
        v.wf(),
        v.pending == Pending::Sample,
    ensures
        keeps_order(v, v.on_sampled(token).0, v.on_sampled(token).1),
{
    let (next, actions) = v.on_sampled(token);
    lemma_step_keeps_wf(v, Event::Sampled(token), false);
    assert(next.history.subrange(0, v.history.len() as int) =~= v.history);
    let here = next.history.subrange(mark(v) as int, mark(next) as int);
    assert(here =~= seq![token]);
    let matched = crate::generation::stop_next(v.stop, v.matched, token);
    if token == v.eos || matched > 0 {
        lemma_emitted_bounded(actions, 0);
    } else {
        let one = seq![token];
        let report = Seq::new(one.len(), |i: int| Action::EmitToken(one[i]));
        let tail = actions.subrange(1, actions.len() as int);
        assert(actions =~= report + tail);
        lemma_emitted_of_tokens(one);
        lemma_emitted_concat(report, tail);
        lemma_emitted_bounded(tail, 0);
        assert(emitted(actions) =~= one);
        lemma_embeds_itself(one);
    }
}

proof fn lemma_quiet_step_in_order(v: GenerationView, event: Event, cancelled: bool)
    requires
        v.wf(),
        v.phase != Phase::Created,
        !(v.pending == Pending::Evaluation && event is Evaluated),
        !(v.pending == Pending::Sample && event is Sampled),
    ensures
        keeps_order(v, v.step(event, cancelled).0, v.step(event, cancelled).1),
{
    let (next, actions) = v.step(event, cancelled);
    lemma_step_keeps_wf(v, event, cancelled);
    assert(next.history.subrange(0, v.history.len() as int) =~= v.history);
    lemma_emitted_bounded(actions, 0);
}

/// One answer, once the session is there, keeps the order.
proof fn lemma_step_in_order(v: GenerationView, event: Event, cancelled: bool)
    requires
        v.wf(),
        v.phase != Phase::Created,
    ensures
        keeps_order(v, v.step(event, cancelled).0, v.step(event, cancelled).1),
{
    if v.pending == Pending::Evaluation && event is Evaluated {
        lemma_evaluated_in_order(v, cancelled);
    } else if v.pending == Pending::Sample && event is Sampled {
        lemma_sampled_in_order(v, event->Sampled_0);
    } else {
        lemma_quiet_step_in_order(v, event, cancelled);
    }
}

/// Tokens are reported in the order in which they entered the history: once
/// the session is there, whatever the host answers, the history only grows,
/// and the tokens reported can be had, in their order, from the stretch of
/// the history between where the mark stood and where it stands, by leaving
/// tokens out.
pub proof fn lemma_tokens_in_order(v: GenerationView, inputs: Seq<Input>)
    requires
        v.wf(),
        v.phase != Phase::Created,
    ensures
        ({
            let (last, actions) = run(v, inputs);
            &&& v.history.len() <= last.history.len()
            &&& last.history.subrange(0, v.history.len() as int) == v.history
            &&& mark(v) <= mark(last) <= last.history.len()
            &&& embeds(emitted(actions), last.history.subrange(mark(v) as int, mark(last) as int))
        }),
    decreases inputs.len(),
{
    if inputs.len() == 0 {
        assert(v.history.subrange(0, v.history.len() as int) =~= v.history);
        assert(emitted(run(v, inputs).1).len() == 0);
    } else {
        let (next, first) = v.step(inputs[0].event, inputs[0].cancelled);
        let tail = inputs.subrange(1, inputs.len() as int);
        let (last, rest) = run(next, tail);
        lemma_step_in_order(v, inputs[0].event, inputs[0].cancelled);
        lemma_step_keeps_wf(v, inputs[0].event, inputs[0].cancelled);
        lemma_tokens_in_order(next, tail);
        lemma_emitted_concat(first, rest);
        let early = next.history.subrange(mark(v) as int, mark(next) as int);
        let late = last.history.subrange(mark(next) as int, mark(last) as int);
        assert(last.history.subrange(0, v.history.len() as int) =~= v.history) by {
            assert forall|i: int| 0 <= i < v.history.len() implies last.history[i]
                == v.history[i] by {
                assert(last.history.subrange(0, next.history.len() as int)[i] == next.history[i]);
                assert(next.history.subrange(0, v.history.len() as int)[i] == v.history[i]);
            }
        }
        assert(last.history.subrange(mark(v) as int, mark(last) as int) =~= early + late) by {
            assert forall|i: int| mark(v) <= i < mark(next) implies last.history[i]
                == next.history[i] by {
                assert(last.history.subrange(0, next.history.len() as int)[i] == next.history[i]);
            }
        }
        lemma_embeds_side_by_side(emitted(first), early, emitted(rest), late);
    }
}

/// How often `actions` ask for a token.
pub open spec fn asked(actions: Seq<Action>) -> nat
    decreases actions.len(),
{
    if actions.len() == 0 {
        0
    } else {
        let before = asked(actions.drop_last());
        if actions.last() == Action::Sample {
            before + 1
        } else {
            before
        }
    }
}

/// How many tokens the machine may still ask for: the whole budget until the
/// prompt's tokens are there, then what the tokens chosen have left of it,
/// less the one that is being chosen; none once generation is over.
pub open spec fn room(v: GenerationView) -> nat {
    match v.pending {
        Pending::Session | Pending::PromptTokens => v.budget as nat,
        Pending::Evaluation => (v.budget - v.generated) as nat,
        Pending::Sample => (v.budget - v.generated - 1) as nat,
        Pending::Persist | Pending::Nothing => 0,
    }
}

proof fn lemma_asked_concat(a: Seq<Action>, b: Seq<Action>)
    ensures
        asked(a + b) == asked(a) + asked(b),
    decreases b.len(),
{
    if b.len() == 0 {
        assert(a + b =~= a);
    } else {
        assert((a + b).drop_last() =~= a + b.drop_last());
        lemma_asked_concat(a, b.drop_last());
    }
}

/// Where no action from index `k` on asks for a token, at most `k` do.
proof fn lemma_asked_bounded(actions: Seq<Action>, k: nat)
    requires
        forall|i: int| k <= i < actions.len() ==> #[trigger] actions[i] != Action::Sample,
    ensures
        asked(actions) <= k,
    decreases actions.len(),
{
    if actions.len() > 0 {
        let shorter = actions.drop_last();
        assert forall|i: int| k <= i < shorter.len() implies #[trigger] shorter[i]
            != Action::Sample by {
            assert(shorter[i] == actions[i]);
        }
        lemma_asked_bounded(shorter, k);
        if actions.len() <= k {
            lemma_asked_bounded(shorter, (actions.len() - 1) as nat);
        } else {
            assert(actions[actions.len() - 1] != Action::Sample);
        }
    }
}

/// One answer asks for a token at most once, and only out of the room there
/// is.
proof fn lemma_step_within_budget(v: GenerationView, event: Event, cancelled: bool)
    requires
        v.wf(),
    ensures
        asked(v.step(event, cancelled).1) + room(v.step(event, cancelled).0) <= room(v),
{
    let (next, actions) = v.step(event, cancelled);
    lemma_step_keeps_wf(v, event, cancelled);
    if next.pending == Pending::Sample && v.pending != Pending::Sample {
        let n = actions.len();
        assert(n > 0 && actions[n - 1] == Action::Sample) by {
            if v.pending == Pending::Evaluation {
                let done = GenerationView {
                    fed: v.fed + v.chunk(),
                    first_evaluation: false,
                    ..v
                };
                assert(actions =~= v.echo() + done.turn(cancelled).1);
            }
        }
        let shorter = actions.drop_last();
        assert forall|i: int| 0 <= i < shorter.len() implies #[trigger] shorter[i]
            != Action::Sample by {
            assert(shorter[i] == actions[i]);
            if v.pending == Pending::Evaluation {
                assert(actions[i] == v.echo()[i]);
            }
        }
        lemma_asked_bounded(shorter, 0);
    } else {
        assert forall|i: int| 0 <= i < actions.len() implies #[trigger] actions[i]
            != Action::Sample by {
            if v.pending == Pending::Evaluation && event is Evaluated {
                let echo = v.echo();
                if i < echo.len() {
                    assert(actions[i] == echo[i]);
                }
            }
        }
        lemma_asked_bounded(actions, 0);
    }
}

/// The budget bounds the tokens: whatever the host answers, the machine asks
/// for no more tokens than there is room for, which is never more than the
/// budget, and the tokens chosen never outnumber the budget.
pub proof fn lemma_budget_bounds_tokens(v: GenerationView, inputs: Seq<Input>)
    requires
        v.wf(),
    ensures
        asked(run(v, inputs).1) + room(run(v, inputs).0) <= room(v),
        room(v) <= v.budget,
        run(v, inputs).0.generated <= run(v, inputs).0.budget,
        run(v, inputs).0.budget == v.budget,
    decreases inputs.len(),
{
    if inputs.len() > 0 {
        let (next, first) = v.step(inputs[0].event, inputs[0].cancelled);
        let tail = inputs.subrange(1, inputs.len() as int);
        lemma_step_within_budget(v, inputs[0].event, inputs[0].cancelled);
        lemma_step_keeps_wf(v, inputs[0].event, inputs[0].cancelled);
        lemma_budget_bounds_tokens(next, tail);
        lemma_asked_concat(first, run(next, tail).1);
    }
}

/// What was answered stands: the answers to inputs are the answers to the
/// first of them, then the answers to the rest from where those led, whatever
/// the rest are.
pub proof fn lemma_run_in_two(v: GenerationView, first: Seq<Input>, rest: Seq<Input>)
    ensures
        run(v, first + rest).0 == run(run(v, first).0, rest).0,
        run(v, first + rest).1 == run(v, first).1 + run(run(v, first).0, rest).1,
    decreases first.len(),
{
    if first.len() == 0 {
        assert(first + rest =~= rest);
        assert(run(v, first).1 + run(v, rest).1 =~= run(v, rest).1);
    } else {
        let all = first + rest;
        let next = v.step(first[0].event, first[0].cancelled).0;
        let head = v.step(first[0].event, first[0].cancelled).1;
        assert(all[0] == first[0]);
        assert(all.subrange(1, all.len() as int) =~= first.subrange(1, first.len() as int) + rest);
        lemma_run_in_two(next, first.subrange(1, first.len() as int), rest);
        let mid = run(next, first.subrange(1, first.len() as int));
        assert(head + (mid.1 + run(mid.0, rest).1) =~= (head + mid.1) + run(mid.0, rest).1);
    }
}

/// A stream is set by what the generation is served with: requests that
/// agree in batch size, budget, prompt hiding and persisting lead, in the
/// same context and with the same answers of the host, to the same stream.
pub proof fn lemma_same_inputs_same_stream(
    a: Generate,
    b: Generate,
    context: LLamaContext,
    inputs: Seq<Input>,
)
    requires
        a.sampling.batch_of() == b.sampling.batch_of(),
        a.budget() == b.budget(),
        a.prompt_hidden() == b.prompt_hidden(),
        (a.save_session is Some) == (b.save_session is Some),
    ensures
        run(GenerationView::initial(a, context), inputs) == run(
            GenerationView::initial(b, context),
            inputs,
        ),
{
    assert(GenerationView::initial(a, context) =~= GenerationView::initial(b, context));
}

} // verus!
