//! The session core of a token-by-token text generator: how one model context
//! is driven from a prompt to a stream of output tokens.
//!
//! The model engine itself (tokenizer, tensor evaluation, the logits it
//! produces) lives with the host. This library holds what happens around it:
//! the penalties and the choice of the next token, the generation loop with
//! its stop conditions and cancellation, and the persisted form of a session.
//! Everything here is proved against the contract it carries, but for the two
//! calls into the compressor, whose contracts are taken on trust.

pub mod context;
pub mod generation;
pub mod logger;
pub mod penalty;
pub mod request;
pub mod result;
pub mod sampler;
pub mod scalar;
pub mod session;
pub mod snapshot;
pub mod stream;
pub mod worker;

use vstd::prelude::*;

verus! {

/// The id of one entry of the model's vocabulary.
pub type TokenId = i32;

} // verus!
