use llama_node::context::LLamaContext;
use llama_node::context::SamplePlan;
use llama_node::penalty::plan;
use llama_node::penalty::tally;
use llama_node::penalty::token_in_vocab;
use llama_node::penalty::PenaltyStep;
use llama_node::request::Generate;
use llama_node::request::LogitBias;
use llama_node::request::SamplingConfig;
use llama_node::sampler::Stage;
use llama_node::sampler::Strategy;
use llama_node::scalar::Scalar;

fn s(x: f32) -> Scalar {
    Scalar::from_bits(x.to_bits())
}

fn config(repeat: f32, frequency: f32, presence: f32) -> SamplingConfig {
    let mut c = SamplingConfig::with_threads(1);
    c.repeat_penalty = s(repeat);
    c.frequency_penalty = s(frequency);
    c.presence_penalty = s(presence);
    c.repeat_last_n = 64;
    c
}

/// Carries a plan out on scores, as a host does.
fn apply(steps: &[PenaltyStep], scores: &mut [f32]) {
    let before: Vec<f32> = scores.to_vec();
    for step in steps {
        match *step {
            PenaltyStep::Bias { token, bias } => {
                scores[token as usize] += f32::from_bits(bias.to_bits());
            }
            PenaltyStep::Repeat { token, penalty } => {
                let p = f32::from_bits(penalty.to_bits());
                let x = scores[token as usize];
                scores[token as usize] = if x > 0.0 { x / p } else { x * p };
            }
            PenaltyStep::Frequency { token, count, frequency, presence } => {
                let f = f32::from_bits(frequency.to_bits());
                let p = f32::from_bits(presence.to_bits());
                scores[token as usize] -= count as f32 * f + p;
            }
            PenaltyStep::Restore { token } => {
                scores[token as usize] = before[token as usize];
            }
        }
    }
}

#[test]
fn vocabulary_bounds() {
    assert!(token_in_vocab(0, 1));
    assert!(token_in_vocab(9, 10));
    assert!(!token_in_vocab(10, 10));
    assert!(!token_in_vocab(-1, 10));
    assert!(!token_in_vocab(0, 0));
}

#[test]
fn tally_counts_each_distinct_token_of_the_window() {
    let history = vec![9, 9, 3, 5, 3, 3, 7, 5];
    assert_eq!(tally(&history, 6, 10), (vec![3, 5, 7], vec![3, 2, 1]));
    assert_eq!(tally(&history, 8, 10), (vec![9, 3, 5, 7], vec![2, 3, 2, 1]));
    assert_eq!(tally(&history, 0, 10), (vec![], vec![]));
    assert_eq!(tally(&history, 1, 10), (vec![5], vec![1]));
}

#[test]
fn tally_leaves_out_what_is_not_in_the_vocabulary() {
    let history = vec![3, 12, -1, 3, 10];
    assert_eq!(tally(&history, 5, 10), (vec![3], vec![2]));
}

#[test]
fn identity_settings_make_no_step() {
    let c = config(1.0, 0.0, 0.0);
    let history = vec![1, 2, 3, 2, 1];
    assert_eq!(plan(&c, &vec![], &history, 2048, 10, 4), vec![]);
    let c = config(1.0, -0.0, 0.0);
    assert_eq!(plan(&c, &vec![], &history, 2048, 10, 4), vec![]);
    let mut c = config(1.0, 0.0, 0.0);
    c.penalize_newline = false;
    assert_eq!(plan(&c, &vec![], &history, 2048, 10, 4), vec![]);
}

#[test]
fn identity_settings_leave_the_scores() {
    let c = config(1.0, 0.0, 0.0);
    let history = vec![1, 2, 3, 2, 1];
    let mut scores = vec![0.5, -1.25, 3.0, 0.0, -0.0, 9.5];
    let before = scores.clone();
    apply(&plan(&c, &vec![], &history, 2048, 6, 4), &mut scores);
    assert_eq!(scores, before);
}

#[test]
fn steps_come_in_the_fixed_order() {
    let c = config(1.5, 0.25, 0.5);
    let bias = vec![LogitBias { token: 7, bias: s(2.0) }, LogitBias { token: 0, bias: s(-1.0) }];
    let history = vec![4, 2, 4, 4];
    assert_eq!(
        plan(&c, &bias, &history, 2048, 10, 9),
        vec![
            PenaltyStep::Bias { token: 7, bias: s(2.0) },
            PenaltyStep::Bias { token: 0, bias: s(-1.0) },
            PenaltyStep::Repeat { token: 4, penalty: s(1.5) },
            PenaltyStep::Repeat { token: 2, penalty: s(1.5) },
            PenaltyStep::Frequency { token: 4, count: 3, frequency: s(0.25), presence: s(0.5) },
            PenaltyStep::Frequency { token: 2, count: 1, frequency: s(0.25), presence: s(0.5) },
        ]
    );
}

#[test]
fn repetition_is_scaled_once_for_each_distinct_token() {
    let c = config(2.0, 0.0, 0.0);
    let history = vec![1, 1, 1, 2];
    let steps = plan(&c, &vec![], &history, 2048, 4, 3);
    assert_eq!(
        steps,
        vec![
            PenaltyStep::Repeat { token: 1, penalty: s(2.0) },
            PenaltyStep::Repeat { token: 2, penalty: s(2.0) },
        ]
    );
    let mut scores = vec![1.0, 8.0, -3.0, 5.0];
    apply(&steps, &mut scores);
    assert_eq!(scores, vec![1.0, 4.0, -6.0, 5.0]);
}

#[test]
fn frequency_and_presence_use_the_count() {
    let c = config(1.0, 0.5, 0.25);
    let history = vec![1, 1, 1, 2];
    let steps = plan(&c, &vec![], &history, 2048, 4, 3);
    let mut scores = vec![1.0, 8.0, -3.0, 5.0];
    apply(&steps, &mut scores);
    assert_eq!(scores, vec![1.0, 8.0 - (3.0 * 0.5 + 0.25), -3.0 - (0.5 + 0.25), 5.0]);
}

#[test]
fn the_window_is_the_end_of_the_history() {
    let mut c = config(2.0, 0.0, 0.0);
    c.repeat_last_n = 2;
    let history = vec![1, 2, 3, 4];
    assert_eq!(
        plan(&c, &vec![], &history, 2048, 10, 9),
        vec![
            PenaltyStep::Repeat { token: 3, penalty: s(2.0) },
            PenaltyStep::Repeat { token: 4, penalty: s(2.0) },
        ]
    );
    c.repeat_last_n = -1;
    assert_eq!(plan(&c, &vec![], &history, 3, 10, 9).len(), 3);
    assert_eq!(plan(&c, &vec![], &history, 2048, 10, 9).len(), 4);
    c.repeat_last_n = 0;
    assert_eq!(plan(&c, &vec![], &history, 2048, 10, 9), vec![]);
}

#[test]
fn an_empty_history_leaves_only_the_biases() {
    let c = config(1.5, 0.25, 0.5);
    let bias = vec![LogitBias { token: 3, bias: s(1.0) }];
    assert_eq!(
        plan(&c, &bias, &vec![], 2048, 10, 9),
        vec![PenaltyStep::Bias { token: 3, bias: s(1.0) }]
    );
    assert_eq!(plan(&c, &vec![], &vec![], 2048, 10, 9), vec![]);
}

#[test]
fn the_exempt_newline_gets_its_score_back() {
    let mut c = config(2.0, 0.0, 0.0);
    c.penalize_newline = false;
    let history = vec![9, 1];
    let steps = plan(&c, &vec![], &history, 2048, 10, 9);
    assert_eq!(
        steps,
        vec![
            PenaltyStep::Repeat { token: 9, penalty: s(2.0) },
            PenaltyStep::Repeat { token: 1, penalty: s(2.0) },
            PenaltyStep::Restore { token: 9 },
        ]
    );
    let mut scores = vec![0.0, 4.0, 0.0, 0.0, 0.0, 0.0, 0.0, 0.0, 0.0, 6.0];
    apply(&steps, &mut scores);
    assert_eq!(scores[1], 2.0);
    assert_eq!(scores[9], 6.0);
    c.penalize_newline = true;
    assert_eq!(plan(&c, &vec![], &history, 2048, 10, 9).len(), 2);
    c.penalize_newline = false;
    assert_eq!(plan(&c, &vec![], &history, 2048, 10, 10).len(), 2);
}

#[test]
fn biases_outside_the_vocabulary_are_left_out() {
    let c = config(1.0, 0.0, 0.0);
    let bias = vec![
        LogitBias { token: 10, bias: s(1.0) },
        LogitBias { token: -2, bias: s(1.0) },
        LogitBias { token: 9, bias: s(1.0) },
    ];
    assert_eq!(
        plan(&c, &bias, &vec![], 2048, 10, 0),
        vec![PenaltyStep::Bias { token: 9, bias: s(1.0) }]
    );
}

#[test]
fn llama_sample_plans_penalties_strategy_and_stages() {
    let context = LLamaContext { n_ctx: 16, n_vocab: 8, eos: 2, newline: 5 };
    let mut request = Generate::new("p".to_string(), 1);
    request.sampling = config(1.5, 0.0, 0.0);
    request.sampling.temperature = s(0.0);
    request.ignore_eos = true;
    let history = vec![3, 3];
    let SamplePlan { penalties, strategy, stages } = context.llama_sample(&history, &request);
    assert_eq!(
        penalties,
        vec![
            PenaltyStep::Bias { token: 2, bias: s(-1.0) },
            PenaltyStep::Repeat { token: 3, penalty: s(1.5) },
        ]
    );
    assert_eq!(strategy, Strategy::Greedy);
    assert_eq!(stages, vec![]);
    request.sampling.temperature = s(0.8);
    request.sampling.top_k = 0;
    let plan = context.llama_sample(&history, &request);
    assert_eq!(plan.strategy, Strategy::Nucleus);
    assert_eq!(plan.stages.len(), 6);
    assert_eq!(plan.stages[0], Stage::TopK { keep: 8 });
}
