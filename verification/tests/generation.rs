use llama_node::context::LLamaContext;
use llama_node::generation::Action;
use llama_node::generation::Event;
use llama_node::generation::Generation;
use llama_node::generation::InferenceError;
use llama_node::generation::Pending;
use llama_node::generation::Phase;
use llama_node::request::Generate;
use llama_node::sampler::greedy;
use llama_node::sampler::Strategy;
use llama_node::scalar::Scalar;
use llama_node::session::Session;

const EOS: i32 = 2;

fn context(n_ctx: usize) -> LLamaContext {
    LLamaContext { n_ctx, n_vocab: 32, eos: EOS, newline: 13 }
}

fn request(max_tokens: usize) -> Generate {
    let mut r = Generate::new("Hello".to_string(), 1);
    r.max_tokens = max_tokens;
    r.feed_prompt = true;
    r.sampling.batch_size = 8;
    r
}

/// A generation that has its session and waits for the prompt's tokens.
fn opened(r: &Generate, n_ctx: usize) -> Generation {
    let (mut g, first) = Generation::new(r, &context(n_ctx));
    assert_eq!(first, vec![Action::OpenSession]);
    assert_eq!(g.phase(), Phase::Created);
    assert_eq!(g.step(Event::SessionOpened(Session::new(n_ctx)), false), vec![Action::Tokenize]);
    assert_eq!(g.phase(), Phase::PromptFeeding);
    g
}

/// A generation whose prompt is fed and that waits for its first token.
fn generating(r: &Generate, n_ctx: usize, prompt: Vec<i32>, stop: Vec<i32>) -> Generation {
    let mut g = opened(r, n_ctx);
    let n = prompt.len();
    assert_eq!(
        g.step(Event::Tokenized { prompt, stop }, false),
        vec![Action::Evaluate { position: 0, count: n, first: true }]
    );
    assert_eq!(g.step(Event::Evaluated, false), vec![Action::Sample]);
    assert_eq!(g.phase(), Phase::Generating);
    g
}

fn eval(position: usize) -> Action {
    Action::Evaluate { position, count: 1, first: false }
}

#[test]
fn stop_sequence_ends_the_generation_and_nothing_follows() {
    // Stop sequence [A, B]; the tokens chosen would be X, A, B, Y.
    let (x, a, b, y) = (5, 10, 11, 6);
    let mut g = generating(&request(100), 64, vec![1, 7], vec![a, b]);
    assert_eq!(g.step(Event::Sampled(x), false), vec![Action::EmitToken(x), eval(2)]);
    assert_eq!(g.step(Event::Evaluated, false), vec![Action::Sample]);
    assert_eq!(g.step(Event::Sampled(a), false), vec![eval(3)]);
    assert_eq!(g.step(Event::Evaluated, false), vec![Action::Sample]);
    assert_eq!(g.step(Event::Sampled(b), false), vec![Action::EmitFinal, Action::EmitEnd]);
    assert_eq!(g.phase(), Phase::Completed);
    assert!(g.has_ended());
    assert_eq!(g.step(Event::Sampled(y), false), vec![]);
    assert_eq!(g.step(Event::Evaluated, false), vec![]);
    assert_eq!(g.session().history(), &vec![1, 7, x, a, b]);
}

#[test]
fn a_broken_match_starts_over() {
    let mut g = generating(&request(100), 64, vec![1], vec![10, 11]);
    assert_eq!(g.step(Event::Sampled(10), false), vec![eval(1)]);
    assert_eq!(g.step(Event::Evaluated, false), vec![Action::Sample]);
    assert_eq!(g.step(Event::Sampled(9), false), vec![Action::EmitToken(9), eval(2)]);
    assert_eq!(g.step(Event::Evaluated, false), vec![Action::Sample]);
    assert_eq!(g.step(Event::Sampled(11), false), vec![Action::EmitToken(11), eval(3)]);
    assert_eq!(g.phase(), Phase::Generating);
    assert_eq!(g.stop_tokens(), &vec![10, 11]);
}

#[test]
fn a_stop_sequence_of_one_token() {
    let mut g = generating(&request(100), 64, vec![1], vec![10]);
    assert_eq!(g.step(Event::Sampled(4), false), vec![Action::EmitToken(4), eval(1)]);
    assert_eq!(g.step(Event::Evaluated, false), vec![Action::Sample]);
    assert_eq!(g.step(Event::Sampled(10), false), vec![Action::EmitFinal, Action::EmitEnd]);
    assert_eq!(g.phase(), Phase::Completed);
}

#[test]
fn no_budget_feeds_the_prompt_and_completes_without_a_token() {
    let r = request(0);
    assert!(!r.feed_prompt_only);
    let mut g = opened(&r, 64);
    assert_eq!(
        g.step(Event::Tokenized { prompt: vec![1, 7, 8], stop: vec![] }, false),
        vec![Action::Evaluate { position: 0, count: 3, first: true }]
    );
    assert_eq!(g.step(Event::Evaluated, false), vec![Action::EmitFinal, Action::EmitEnd]);
    assert_eq!(g.phase(), Phase::Completed);
    assert_eq!(g.generated(), 0);
}

#[test]
fn feeding_only_generates_nothing() {
    let mut r = request(100);
    r.feed_prompt = false;
    r.feed_prompt_only = true;
    let mut g = opened(&r, 64);
    assert_eq!(
        g.step(Event::Tokenized { prompt: vec![1, 7], stop: vec![] }, false),
        vec![Action::Evaluate { position: 0, count: 2, first: true }]
    );
    assert_eq!(g.step(Event::Evaluated, false), vec![Action::EmitFinal, Action::EmitEnd]);
    assert_eq!(g.phase(), Phase::Completed);
}

/// The scores of a make-believe model: they depend on the last token alone.
fn scores_after(last: i32) -> Vec<Scalar> {
    let mut v: Vec<Scalar> = Vec::new();
    for id in 0..32 {
        let x: f32 = (((id * 7 + last * 3) % 11) as f32) * 0.5 - 1.0;
        let x = if id == EOS { -100.0 } else { x };
        v.push(Scalar::from_bits(x.to_bits()));
    }
    v
}

/// Runs a whole generation against the make-believe model and gives the
/// tokens reported.
fn run_greedy(r: &Generate, prompt: Vec<i32>) -> Vec<i32> {
    let ctx = context(64);
    let (mut g, mut actions) = Generation::new(r, &ctx);
    let mut reported: Vec<i32> = Vec::new();
    let mut rounds = 0;
    while !g.has_ended() {
        rounds += 1;
        assert!(rounds < 1000);
        let mut event: Option<Event> = None;
        for action in actions.iter() {
            match *action {
                Action::OpenSession => event = Some(Event::SessionOpened(Session::new(64))),
                Action::Tokenize => {
                    event = Some(Event::Tokenized { prompt: prompt.clone(), stop: vec![] })
                }
                Action::Evaluate { .. } => event = Some(Event::Evaluated),
                Action::Sample => {
                    let plan = ctx.llama_sample(g.session().history(), r);
                    assert_eq!(plan.strategy, Strategy::Greedy);
                    let last = *g.session().history().last().unwrap();
                    let token = greedy(&scores_after(last)).unwrap() as i32;
                    event = Some(Event::Sampled(token));
                }
                Action::Persist => event = Some(Event::Persisted),
                Action::EmitToken(token) => reported.push(token),
                Action::EmitFinal | Action::EmitError(_) | Action::EmitEnd => {}
            }
        }
        match event {
            Some(e) => actions = g.step(e, false),
            None => break,
        }
    }
    assert_eq!(g.phase(), Phase::Completed);
    reported
}

#[test]
fn greedy_generation_of_three_tokens_is_reproducible() {
    let mut r = request(3);
    r.sampling.top_k = 1;
    r.sampling.temperature = Scalar::from_bits(0.0f32.to_bits());
    let first = run_greedy(&r, vec![1, 15, 20]);
    assert_eq!(first.len(), 3);
    for _ in 0..5 {
        assert_eq!(run_greedy(&r, vec![1, 15, 20]), first);
    }
    let expected_first = greedy(&scores_after(20)).unwrap() as i32;
    assert_eq!(first[0], expected_first);
    assert_eq!(first[1], greedy(&scores_after(first[0])).unwrap() as i32);
    assert_eq!(first[2], greedy(&scores_after(first[1])).unwrap() as i32);
}

#[test]
fn a_prompt_that_fills_the_window_fails_the_stream() {
    let n = 6;
    let mut g = opened(&request(10), n);
    let prompt: Vec<i32> = vec![1, 3, 4, 5, 6, 7];
    assert_eq!(prompt.len(), n);
    assert_eq!(
        g.step(Event::Tokenized { prompt, stop: vec![] }, false),
        vec![Action::EmitError(InferenceError::ContextFull), Action::EmitEnd]
    );
    assert_eq!(g.phase(), Phase::Error);
    assert!(g.has_ended());
    assert_eq!(g.step(Event::Evaluated, false), vec![]);
}

#[test]
fn a_prompt_one_short_of_the_window_is_fed() {
    let mut g = opened(&request(10), 6);
    assert_eq!(
        g.step(Event::Tokenized { prompt: vec![1, 3, 4, 5, 6], stop: vec![] }, false),
        vec![Action::Evaluate { position: 0, count: 5, first: true }]
    );
    assert_eq!(g.step(Event::Evaluated, false), vec![Action::Sample]);
    assert_eq!(g.step(Event::Sampled(9), false), vec![Action::EmitToken(9), eval(5)]);
    assert_eq!(
        g.step(Event::Evaluated, false),
        vec![Action::EmitError(InferenceError::ContextFull), Action::EmitEnd]
    );
    assert_eq!(g.phase(), Phase::Error);
}

#[test]
fn a_prompt_longer_than_the_window_fails_the_stream() {
    let mut g = opened(&request(10), 3);
    assert_eq!(
        g.step(Event::Tokenized { prompt: vec![1, 3, 4, 5, 6], stop: vec![] }, false),
        vec![Action::EmitError(InferenceError::ContextFull), Action::EmitEnd]
    );
}

#[test]
fn cancellation_between_two_steps_stops_before_the_next_token() {
    let mut g = generating(&request(100), 64, vec![1], vec![]);
    // Steps 1 and 2 run with the flag clear.
    assert_eq!(g.step(Event::Sampled(4), false), vec![Action::EmitToken(4), eval(1)]);
    assert_eq!(g.step(Event::Evaluated, false), vec![Action::Sample]);
    assert_eq!(g.step(Event::Sampled(5), false), vec![Action::EmitToken(5), eval(2)]);
    // The flag is set before step 3 starts.
    assert_eq!(g.step(Event::Evaluated, true), vec![Action::EmitFinal, Action::EmitEnd]);
    assert_eq!(g.phase(), Phase::Cancelled);
    assert!(g.has_ended());
    assert_eq!(g.step(Event::Sampled(6), true), vec![]);
    assert_eq!(g.generated(), 2);
}

#[test]
fn cancellation_within_a_step_lets_the_step_finish() {
    let mut g = generating(&request(100), 64, vec![1], vec![]);
    assert_eq!(g.step(Event::Sampled(4), true), vec![Action::EmitToken(4), eval(1)]);
    assert_eq!(g.step(Event::Evaluated, true), vec![Action::EmitFinal, Action::EmitEnd]);
    assert_eq!(g.phase(), Phase::Cancelled);
}

#[test]
fn cancellation_before_the_first_token() {
    let mut g = opened(&request(100), 64);
    assert_eq!(
        g.step(Event::Tokenized { prompt: vec![1, 7], stop: vec![] }, true),
        vec![Action::Evaluate { position: 0, count: 2, first: true }]
    );
    assert_eq!(g.step(Event::Evaluated, true), vec![Action::EmitFinal, Action::EmitEnd]);
    assert_eq!(g.phase(), Phase::Cancelled);
}

#[test]
fn end_of_text_completes_and_is_not_reported() {
    let mut g = generating(&request(100), 64, vec![1], vec![]);
    assert_eq!(g.step(Event::Sampled(4), false), vec![Action::EmitToken(4), eval(1)]);
    assert_eq!(g.step(Event::Evaluated, false), vec![Action::Sample]);
    assert_eq!(g.step(Event::Sampled(EOS), false), vec![Action::EmitFinal, Action::EmitEnd]);
    assert_eq!(g.phase(), Phase::Completed);
    assert_eq!(g.generated(), 2);
}

#[test]
fn the_budget_bounds_the_tokens() {
    let mut g = generating(&request(2), 64, vec![1], vec![]);
    assert_eq!(g.step(Event::Sampled(4), false), vec![Action::EmitToken(4), eval(1)]);
    assert_eq!(g.step(Event::Evaluated, false), vec![Action::Sample]);
    assert_eq!(g.step(Event::Sampled(5), false), vec![Action::EmitToken(5), eval(2)]);
    assert_eq!(g.step(Event::Evaluated, false), vec![Action::EmitFinal, Action::EmitEnd]);
    assert_eq!(g.phase(), Phase::Completed);
    assert_eq!(g.generated(), 2);
}

#[test]
fn the_prompt_is_fed_in_batches() {
    let mut r = request(1);
    r.sampling.batch_size = 2;
    let mut g = opened(&r, 64);
    assert_eq!(
        g.step(Event::Tokenized { prompt: vec![1, 3, 4, 5, 6], stop: vec![] }, false),
        vec![Action::Evaluate { position: 0, count: 2, first: true }]
    );
    assert_eq!(
        g.step(Event::Evaluated, false),
        vec![Action::Evaluate { position: 2, count: 2, first: false }]
    );
    assert_eq!(
        g.step(Event::Evaluated, false),
        vec![Action::Evaluate { position: 4, count: 1, first: false }]
    );
    assert_eq!(g.step(Event::Evaluated, false), vec![Action::Sample]);
}

#[test]
fn a_batch_size_of_zero_feeds_one_token_at_a_time() {
    let mut r = request(1);
    r.sampling.batch_size = 0;
    let mut g = opened(&r, 64);
    assert_eq!(
        g.step(Event::Tokenized { prompt: vec![1, 3], stop: vec![] }, false),
        vec![Action::Evaluate { position: 0, count: 1, first: true }]
    );
    assert_eq!(
        g.step(Event::Evaluated, false),
        vec![Action::Evaluate { position: 1, count: 1, first: false }]
    );
}

#[test]
fn the_prompt_is_reported_unless_hidden() {
    let mut r = request(1);
    r.feed_prompt = false;
    r.sampling.batch_size = 2;
    let mut g = opened(&r, 64);
    assert_eq!(
        g.step(Event::Tokenized { prompt: vec![1, 3, 4], stop: vec![] }, false),
        vec![Action::Evaluate { position: 0, count: 2, first: true }]
    );
    assert_eq!(
        g.step(Event::Evaluated, false),
        vec![
            Action::EmitToken(1),
            Action::EmitToken(3),
            Action::Evaluate { position: 2, count: 1, first: false },
        ]
    );
    assert_eq!(g.step(Event::Evaluated, false), vec![Action::EmitToken(4), Action::Sample]);
    assert_eq!(g.step(Event::Sampled(9), false), vec![Action::EmitToken(9), eval(3)]);
    assert_eq!(g.step(Event::Evaluated, false), vec![Action::EmitFinal, Action::EmitEnd]);
}

#[test]
fn an_empty_prompt_goes_straight_to_the_first_token() {
    let mut g = opened(&request(5), 64);
    assert_eq!(
        g.step(Event::Tokenized { prompt: vec![], stop: vec![] }, false),
        vec![Action::Sample]
    );
    assert_eq!(g.phase(), Phase::Generating);
    assert_eq!(
        g.step(Event::Sampled(4), false),
        vec![Action::EmitToken(4), Action::Evaluate { position: 0, count: 1, first: true }]
    );
}

#[test]
fn a_restored_session_continues_where_it_stood() {
    let r = request(5);
    let (mut g, _) = Generation::new(&r, &context(16));
    let session = Session::restore(16, vec![1, 4, 5], false).unwrap();
    assert_eq!(g.step(Event::SessionOpened(session), false), vec![Action::Tokenize]);
    assert_eq!(
        g.step(Event::Tokenized { prompt: vec![8, 9], stop: vec![] }, false),
        vec![Action::Evaluate { position: 3, count: 2, first: false }]
    );
    assert_eq!(g.step(Event::Evaluated, false), vec![Action::Sample]);
    assert_eq!(g.session().history(), &vec![1, 4, 5, 8, 9]);
}

#[test]
fn a_session_made_for_another_window_fails_the_stream() {
    let r = request(5);
    let (mut g, _) = Generation::new(&r, &context(16));
    assert_eq!(
        g.step(Event::SessionOpened(Session::new(32)), false),
        vec![Action::EmitError(InferenceError::SessionLoad), Action::EmitEnd]
    );
    assert_eq!(g.phase(), Phase::Error);
}

#[test]
fn every_failure_is_reported_and_ends_the_stream() {
    let r = request(5);
    let (mut g, _) = Generation::new(&r, &context(16));
    assert_eq!(
        g.step(Event::SessionFailed, false),
        vec![Action::EmitError(InferenceError::SessionLoad), Action::EmitEnd]
    );
    assert!(g.has_ended());

    let mut g = opened(&r, 16);
    assert_eq!(
        g.step(Event::TokenizationFailed, false),
        vec![Action::EmitError(InferenceError::Tokenization), Action::EmitEnd]
    );
    assert_eq!(g.phase(), Phase::Error);

    let mut g = opened(&r, 16);
    g.step(Event::Tokenized { prompt: vec![1], stop: vec![] }, false);
    assert_eq!(
        g.step(Event::EvaluationFailed, false),
        vec![Action::EmitError(InferenceError::Evaluation), Action::EmitEnd]
    );

    let mut g = generating(&r, 16, vec![1], vec![]);
    g.step(Event::Sampled(4), false);
    assert_eq!(
        g.step(Event::EvaluationFailed, false),
        vec![Action::EmitError(InferenceError::Evaluation), Action::EmitEnd]
    );
    assert_eq!(g.phase(), Phase::Error);
    assert_eq!(g.pending(), Pending::Nothing);
}

#[test]
fn the_session_is_persisted_before_the_end() {
    let mut r = request(1);
    r.save_session = Some("session.bin".to_string());
    let mut g = generating(&r, 16, vec![1], vec![]);
    assert_eq!(g.step(Event::Sampled(EOS), false), vec![Action::EmitFinal, Action::Persist]);
    assert_eq!(g.phase(), Phase::Completed);
    assert!(!g.has_ended());
    assert_eq!(g.pending(), Pending::Persist);
    assert_eq!(g.step(Event::Persisted, false), vec![Action::EmitEnd]);
    assert!(g.has_ended());

    let mut g = generating(&r, 16, vec![1], vec![]);
    g.step(Event::Sampled(EOS), false);
    assert_eq!(
        g.step(Event::PersistFailed, false),
        vec![Action::EmitError(InferenceError::SnapshotWrite), Action::EmitEnd]
    );
    assert_eq!(g.phase(), Phase::Error);
}

#[test]
fn a_failed_stream_is_not_persisted() {
    let mut r = request(1);
    r.save_session = Some("session.bin".to_string());
    let mut g = opened(&r, 16);
    assert_eq!(
        g.step(Event::TokenizationFailed, false),
        vec![Action::EmitError(InferenceError::Tokenization), Action::EmitEnd]
    );
}

#[test]
fn events_that_are_not_waited_for_change_nothing() {
    let mut g = generating(&request(5), 16, vec![1], vec![]);
    assert_eq!(g.step(Event::Evaluated, false), vec![]);
    assert_eq!(g.step(Event::Persisted, false), vec![]);
    assert_eq!(g.step(Event::SessionFailed, false), vec![]);
    assert_eq!(g.step(Event::Tokenized { prompt: vec![3], stop: vec![] }, false), vec![]);
    assert_eq!(g.pending(), Pending::Sample);
    assert_eq!(g.phase(), Phase::Generating);
    assert_eq!(g.session().history(), &vec![1]);
}

#[test]
fn session_accessors() {
    let s = Session::new(8);
    assert_eq!(s.n_ctx(), 8);
    assert_eq!(s.len(), 0);
    assert!(s.is_first_evaluation());
    assert_eq!(s.remaining(), 8);
    let s = Session::restore(4, vec![1, 2, 3], false).unwrap();
    assert_eq!(s.history(), &vec![1, 2, 3]);
    assert_eq!(s.remaining(), 1);
    assert!(!s.is_first_evaluation());
    assert!(Session::restore(2, vec![1, 2, 3], false).is_none());
    assert!(Session::restore(3, vec![1, 2, 3], true).is_some());
}

#[test]
fn a_failure_while_a_token_is_awaited_fails_the_stream() {
    let mut g = generating(&request(5), 16, vec![1], vec![]);
    assert_eq!(g.pending(), Pending::Sample);
    assert_eq!(
        g.step(Event::EvaluationFailed, false),
        vec![Action::EmitError(InferenceError::Evaluation), Action::EmitEnd]
    );
    assert_eq!(g.phase(), Phase::Error);
    assert!(g.has_ended());
    assert_eq!(g.step(Event::Sampled(4), false), vec![]);
}

#[test]
fn a_failure_while_a_token_is_awaited_is_not_persisted() {
    let mut r = request(5);
    r.save_session = Some("session.bin".to_string());
    let mut g = generating(&r, 16, vec![1], vec![]);
    assert_eq!(
        g.step(Event::EvaluationFailed, true),
        vec![Action::EmitError(InferenceError::Evaluation), Action::EmitEnd]
    );
    assert_eq!(g.pending(), Pending::Nothing);
}

#[test]
fn no_more_tokens_are_asked_for_than_the_budget_holds() {
    for budget in [0usize, 1, 3, 6] {
        let mut g = opened(&request(budget), 64);
        let mut actions = g.step(Event::Tokenized { prompt: vec![1, 7], stop: vec![] }, false);
        let mut asked = 0;
        let mut rounds = 0;
        while !g.has_ended() {
            rounds += 1;
            assert!(rounds < 100);
            let mut event = Event::Evaluated;
            for action in actions.iter() {
                if *action == Action::Sample {
                    asked += 1;
                    event = Event::Sampled(4);
                }
            }
            actions = g.step(event, false);
        }
        assert_eq!(asked, budget);
        assert_eq!(g.generated(), budget);
        assert_eq!(g.phase(), Phase::Completed);
    }
}
