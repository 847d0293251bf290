//! What a caller asks for: the generation request and its sampling
//! configuration, with the rules that turn the configured values into the
//! ones the session works with.

use vstd::prelude::*;
use crate::scalar::Scalar;
use crate::scalar::MINUS_ONE_BITS;
use crate::scalar::ONE_BITS;
use crate::TokenId;

verus! {

/// The bit pattern of 0.95, the default nucleus threshold.
pub const DEFAULT_TOP_P_BITS: u32 = 0x3f73_3333;

/// The bit pattern of 0.8, the default temperature.
pub const DEFAULT_TEMPERATURE_BITS: u32 = 0x3f4c_cccd;

/// The bit pattern of 1.1, the default repetition penalty.
pub const DEFAULT_REPEAT_PENALTY_BITS: u32 = 0x3f8c_cccd;

/// The bit pattern of 5.0, the default target surprise of mirostat.
pub const DEFAULT_MIROSTAT_TAU_BITS: u32 = 0x40a0_0000;

/// The bit pattern of 0.1, the default learning rate of mirostat.
pub const DEFAULT_MIROSTAT_ETA_BITS: u32 = 0x3dcc_cccd;

/// The default number of candidates kept by the top-k filter.
pub const DEFAULT_TOP_K: i32 = 40;

/// The default length of the window of recent tokens that are penalised.
pub const DEFAULT_REPEAT_LAST_N: i32 = 64;

/// The default number of prompt tokens evaluated at a time.
pub const DEFAULT_BATCH_SIZE: usize = 8;

/// The default token budget.
pub const DEFAULT_MAX_TOKENS: usize = 512;

/// Which mirostat algorithm the sampler runs, if any.
#[derive(Clone, Copy, Debug, PartialEq, Eq, Structural)]
pub enum MirostatMode {
    Off,
    V1,
    V2,
}

impl MirostatMode {
    /// The mode for a numeric setting: 1 and 2 select the two versions, every
    /// other number switches mirostat off.
    pub open spec fn of_code(code: i32) -> MirostatMode {
        if code == 1 {
            MirostatMode::V1
        } else if code == 2 {
            MirostatMode::V2
        } else {
            MirostatMode::Off
        }
    }

    /// The mode for a numeric setting.
    pub fn from_code(code: i32) -> (r: MirostatMode)
        ensures
            r == MirostatMode::of_code(code),
    {
        if code == 1 {
            MirostatMode::V1
        } else if code == 2 {
            MirostatMode::V2
        } else {
            MirostatMode::Off
        }
    }
}

/// An additive bias on the score of one token.
#[derive(Clone, Copy, Debug, PartialEq, Eq, Structural)]
pub struct LogitBias {
    pub token: TokenId,
    pub bias: Scalar,
}

/// How the next token is chosen.
#[derive(Clone, Debug)]
pub struct SamplingConfig {
    /// Threads the engine may use for one evaluation.
    pub n_threads: i32,
    /// Prompt tokens evaluated at a time; 0 counts as 1.
    pub batch_size: usize,
    /// Candidates kept by the top-k filter; zero or less keeps the whole
    /// vocabulary.
    pub top_k: i32,
    /// Nucleus threshold; 1.0 switches the filter off.
    pub top_p: Scalar,
    /// Tail-free threshold; 1.0 switches the filter off.
    pub tail_free_z: Scalar,
    /// Locally-typical threshold; 1.0 switches the filter off.
    pub typical_p: Scalar,
    /// Temperature; zero or less selects the highest score outright.
    pub temperature: Scalar,
    /// Repetition penalty; 1.0 switches it off.
    pub repeat_penalty: Scalar,
    /// Length of the window of recent tokens that are penalised; a negative
    /// number stands for the whole context.
    pub repeat_last_n: i32,
    pub frequency_penalty: Scalar,
    pub presence_penalty: Scalar,
    /// Whether the newline token is penalised like any other.
    pub penalize_newline: bool,
    pub mirostat_mode: MirostatMode,
    pub mirostat_tau: Scalar,
    pub mirostat_eta: Scalar,
    /// Explicit biases, applied in this order.
    pub logit_bias: Option<Vec<LogitBias>>,
    /// Text at which generation stops; tokenized when the request starts.
    pub stop_sequence: Option<String>,
}

impl SamplingConfig {
    /// Whether every setting is at its default, for an engine that may use
    /// `n_threads` threads.
    pub open spec fn is_default(self, n_threads: i32) -> bool {
        &&& self.n_threads == n_threads
        &&& self.batch_size == DEFAULT_BATCH_SIZE
        &&& self.top_k == DEFAULT_TOP_K
        &&& self.top_p.bits == DEFAULT_TOP_P_BITS
        &&& self.tail_free_z.bits == ONE_BITS
        &&& self.typical_p.bits == ONE_BITS
        &&& self.temperature.bits == DEFAULT_TEMPERATURE_BITS
        &&& self.repeat_penalty.bits == DEFAULT_REPEAT_PENALTY_BITS
        &&& self.repeat_last_n == DEFAULT_REPEAT_LAST_N
        &&& self.frequency_penalty.bits == 0
        &&& self.presence_penalty.bits == 0
        &&& self.penalize_newline
        &&& self.mirostat_mode == MirostatMode::Off
        &&& self.mirostat_tau.bits == DEFAULT_MIROSTAT_TAU_BITS
        &&& self.mirostat_eta.bits == DEFAULT_MIROSTAT_ETA_BITS
        &&& self.logit_bias is None
        &&& self.stop_sequence is None
    }

    /// The configuration with every setting at its default, for an engine
    /// that may use `n_threads` threads.
    pub fn with_threads(n_threads: i32) -> (r: SamplingConfig)
        ensures
            r.is_default(n_threads),
    {
        SamplingConfig {
            n_threads,
            batch_size: DEFAULT_BATCH_SIZE,
            top_k: DEFAULT_TOP_K,
            top_p: Scalar { bits: DEFAULT_TOP_P_BITS },
            tail_free_z: Scalar { bits: ONE_BITS },
            typical_p: Scalar { bits: ONE_BITS },
            temperature: Scalar { bits: DEFAULT_TEMPERATURE_BITS },
            repeat_penalty: Scalar { bits: DEFAULT_REPEAT_PENALTY_BITS },
            repeat_last_n: DEFAULT_REPEAT_LAST_N,
            frequency_penalty: Scalar { bits: 0 },
            presence_penalty: Scalar { bits: 0 },
            penalize_newline: true,
            mirostat_mode: MirostatMode::Off,
            mirostat_tau: Scalar { bits: DEFAULT_MIROSTAT_TAU_BITS },
            mirostat_eta: Scalar { bits: DEFAULT_MIROSTAT_ETA_BITS },
            logit_bias: None,
            stop_sequence: None,
        }
    }

    /// The number of candidates the top-k filter keeps out of `n_vocab`: the
    /// whole vocabulary where `top_k` is zero or less, else `top_k`, but never
    /// more than there are.
    pub open spec fn top_k_of(self, n_vocab: usize) -> usize {
        if self.top_k <= 0 || self.top_k >= n_vocab {
            n_vocab
        } else {
            self.top_k as usize
        }
    }

    /// The number of candidates the top-k filter keeps.
    pub fn resolved_top_k(&self, n_vocab: usize) -> (r: usize)
        ensures
            r == self.top_k_of(n_vocab),
            r <= n_vocab,
    {
        if self.top_k <= 0 {
            n_vocab
        } else {
            let k: usize = self.top_k as usize;
            if k >= n_vocab {
                n_vocab
            } else {
                k
            }
        }
    }

    /// The length of the penalty window over a history of `history_len`
    /// tokens in a context of `n_ctx`: the least of the history's length, the
    /// configured length (the context size where that is negative) and the
    /// context size.
    pub open spec fn window_of(self, history_len: usize, n_ctx: usize) -> usize {
        let configured = if self.repeat_last_n < 0 {
            n_ctx
        } else {
            self.repeat_last_n as usize
        };
        let bounded = if configured < n_ctx {
            configured
        } else {
            n_ctx
        };
        if history_len < bounded {
            history_len
        } else {
            bounded
        }
    }

    /// The length of the penalty window.
    pub fn window_len(&self, history_len: usize, n_ctx: usize) -> (r: usize)
        ensures
            r == self.window_of(history_len, n_ctx),
            r <= history_len,
            r <= n_ctx,
    {
        let configured: usize = if self.repeat_last_n < 0 {
            n_ctx
        } else {
            self.repeat_last_n as usize
        };
        let bounded: usize = if configured < n_ctx {
            configured
        } else {
            n_ctx
        };
        if history_len < bounded {
            history_len
        } else {
            bounded
        }
    }

    /// The number of prompt tokens evaluated at a time: `batch_size`, or 1
    /// where that is 0.
    pub open spec fn batch_of(self) -> usize {
        if self.batch_size == 0 {
            1
        } else {
            self.batch_size
        }
    }

    /// The number of prompt tokens evaluated at a time.
    pub fn batch(&self) -> (r: usize)
        ensures
            r == self.batch_of(),
            r >= 1,
    {
        if self.batch_size == 0 {
            1
        } else {
            self.batch_size
        }
    }
}

/// One generation request. It does not change while it is served.
#[derive(Clone, Debug)]
pub struct Generate {
    pub prompt: String,
    pub sampling: SamplingConfig,
    /// Feed the prompt without reporting its tokens.
    pub feed_prompt: bool,
    /// Feed the prompt and generate nothing.
    pub feed_prompt_only: bool,
    /// Keep the end-of-text token from being chosen, unless explicit biases
    /// are given.
    pub ignore_eos: bool,
    /// The most tokens to generate.
    pub max_tokens: usize,
    /// Seed of the random source; without one the source is seeded afresh.
    pub seed: Option<u64>,
    /// Where to restore the session from.
    pub load_session: Option<String>,
    /// Whether the session may start afresh where there is nothing at the
    /// place to restore it from.
    pub create_if_missing: bool,
    /// Where to persist the session at the end.
    pub save_session: Option<String>,
}

impl Generate {
    /// The request for `prompt` with every setting at its default.
    pub fn new(prompt: String, n_threads: i32) -> (r: Generate)
        ensures
            r.prompt@ == prompt@,
            r.sampling.is_default(n_threads),
            !r.feed_prompt,
            !r.feed_prompt_only,
            !r.ignore_eos,
            r.max_tokens == DEFAULT_MAX_TOKENS,
            r.seed is None,
            r.load_session is None,
            !r.create_if_missing,
            r.save_session is None,
    {
        Generate {
            prompt,
            sampling: SamplingConfig::with_threads(n_threads),
            feed_prompt: false,
            feed_prompt_only: false,
            ignore_eos: false,
            max_tokens: DEFAULT_MAX_TOKENS,
            seed: None,
            load_session: None,
            create_if_missing: false,
            save_session: None,
        }
    }

    /// Whether the prompt's tokens are kept out of the output: always when
    /// only the prompt is fed.
    pub open spec fn prompt_hidden(self) -> bool {
        self.feed_prompt_only || self.feed_prompt
    }

    /// Whether the prompt's tokens are kept out of the output.
    pub fn hides_prompt(&self) -> (r: bool)
        ensures
            r == self.prompt_hidden(),
    {
        self.feed_prompt_only || self.feed_prompt
    }

    /// The number of tokens that may be generated: none when only the prompt
    /// is fed, else `max_tokens`.
    pub open spec fn budget(self) -> usize {
        if self.feed_prompt_only {
            0
        } else {
            self.max_tokens
        }
    }

    /// The number of tokens that may be generated.
    pub fn token_budget(&self) -> (r: usize)
        ensures
            r == self.budget(),
    {
        if self.feed_prompt_only {
            0
        } else {
            self.max_tokens
        }
    }

    /// The biases in force: the explicit list where one is given; else,
    /// where the end of text is to be ignored, a bias of -1.0 on `eos`; else
    /// none.
    pub open spec fn bias_of(self, eos: TokenId) -> Seq<LogitBias> {
        match self.sampling.logit_bias {
            Some(list) => list@,
            None => if self.ignore_eos {
                seq![(LogitBias { token: eos, bias: Scalar { bits: MINUS_ONE_BITS } })]
            } else {
                Seq::empty()
            },
        }
    }

    /// The biases in force.
    pub fn effective_bias(&self, eos: TokenId) -> (r: Vec<LogitBias>)
        ensures
            r@ == self.bias_of(eos),
    {
        let mut out: Vec<LogitBias> = Vec::new();
        match &self.sampling.logit_bias {
            Some(list) => {
                let mut i: usize = 0;
                while i < list.len()
                    invariant
                        i <= list@.len(),
                        out@ == list@.subrange(0, i as int),
                    decreases list@.len() - i,
                {
                    out.push(list[i]);
                    proof {
                        assert(out@ =~= list@.subrange(0, i + 1));
                    }
                    i += 1;
                }
                proof {
                    assert(out@ =~= list@);
                }
            },
            None => {
                if self.ignore_eos {
                    out.push(LogitBias { token: eos, bias: Scalar { bits: MINUS_ONE_BITS } });
                }
                proof {
                    assert(out@ =~= self.bias_of(eos));
                }
            },
        }
        out
    }
}

} // verus!
