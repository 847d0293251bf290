//! What the library knows of a loaded model context, and the plan for one
//! choice of a token in it.

use vstd::prelude::*;
use crate::penalty::plan;
use crate::penalty::plan_of;
use crate::penalty::PenaltyStep;
use crate::request::Generate;
use crate::sampler::stages;
use crate::sampler::stages_of;
use crate::sampler::strategy;
use crate::sampler::strategy_of;
use crate::sampler::Stage;
use crate::sampler::Strategy;
use crate::TokenId;

verus! {

/// The context size of a model that is loaded without one being asked for.
pub const DEFAULT_CONTEXT_TOKENS: i32 = 512;

/// Where a model is loaded from, and with which context size.
#[derive(Clone, Debug)]
pub struct LLamaConfig {
    pub path: String,
    pub num_ctx_tokens: Option<i32>,
}

impl LLamaConfig {
    /// The context size asked for, or the default where none is.
    pub open spec fn context_tokens_of(self) -> i32 {
        match self.num_ctx_tokens {
            Some(n) => n,
            None => DEFAULT_CONTEXT_TOKENS,
        }
    }

    /// The context size asked for, or the default where none is.
    pub fn context_tokens(&self) -> (r: i32)
        ensures
            r == self.context_tokens_of(),
    {
        match self.num_ctx_tokens {
            Some(n) => n,
            None => DEFAULT_CONTEXT_TOKENS,
        }
    }
}

/// The facts of a loaded model context that the session logic reads.
#[derive(Clone, Copy, Debug, PartialEq, Eq, Structural)]
pub struct LLamaContext {
    /// The size of the context window, in tokens.
    pub n_ctx: usize,
    /// The size of the vocabulary; the engine gives one score for each entry.
    pub n_vocab: usize,
    /// The end-of-text token.
    pub eos: TokenId,
    /// The newline token.
    pub newline: TokenId,
}

/// What is to be done for one choice of a token.
#[derive(Clone, Debug)]
pub struct SamplePlan {
    /// The changes of scores, to be made first and in this order.
    pub penalties: Vec<PenaltyStep>,
    /// How the token is then chosen.
    pub strategy: Strategy,
    /// The stages of the strategy, in running order.
    pub stages: Vec<Stage>,
}

impl LLamaContext {
    /// The plan for the choice of the token that follows `last_n_tokens`
    /// under the request `input`: the penalty steps over the request's window
    /// of the tokens, with the biases in force, then the strategy that the
    /// request's settings select and its stages.
    pub fn llama_sample(&self, last_n_tokens: &Vec<TokenId>, input: &Generate) -> (r: SamplePlan)
        ensures
            r.penalties@ == plan_of(
                input.sampling,
                input.bias_of(self.eos),
                last_n_tokens@,
                self.n_ctx,
                self.n_vocab,
                self.newline,
            ),
            r.strategy == strategy_of(input.sampling),
            r.stages@ == stages_of(input.sampling, self.n_vocab),
    {
        let bias = input.effective_bias(self.eos);
        let penalties = plan(
            &input.sampling,
            &bias,
            last_n_tokens,
            self.n_ctx,
            self.n_vocab,
            self.newline,
        );
        SamplePlan {
            penalties,
            strategy: strategy(&input.sampling),
            stages: stages(&input.sampling, self.n_vocab),
        }
    }
}

/// With the repetition penalty at 1.0, the frequency and presence penalties
/// at zero and no bias in force, neither given nor put there to keep the end
/// of text away, the plan for a request holds no step: every score stays as
/// it is.
pub proof fn lemma_identity_request_leaves_scores(
    context: LLamaContext,
    history: Seq<TokenId>,
    input: Generate,
)
    requires
        input.sampling.repeat_penalty.one(),
        input.sampling.frequency_penalty.zero(),
        input.sampling.presence_penalty.zero(),
        input.bias_of(context.eos).len() == 0,
    ensures
        plan_of(
            input.sampling,
            input.bias_of(context.eos),
            history,
            context.n_ctx,
            context.n_vocab,
            context.newline,
        ).len() == 0,
{
    assert(input.bias_of(context.eos) =~= Seq::empty());
    crate::penalty::lemma_identity_settings_leave_scores(
        input.sampling,
        history,
        context.n_ctx,
        context.n_vocab,
        context.newline,
    );
}

} // verus!
