//! The penalty engine: which scores are changed before a token is chosen, how,
//! and in which order.
//!
//! The engine works out a plan, a list of steps on single scores. The steps are
//! the host's to carry out, one after the other, on the scores of the
//! vocabulary; the order matters and is fixed here: explicit biases, then the
//! repetition penalty, then the frequency and presence penalty, then the
//! newline token's score put back where it is exempt.

use vstd::prelude::*;
use crate::request::LogitBias;
use crate::request::SamplingConfig;
use crate::scalar::Scalar;
use crate::TokenId;

verus! {

/// One change of one score.
#[derive(Clone, Copy, Debug, PartialEq, Eq, Structural)]
pub enum PenaltyStep {
    /// Add `bias` to the score of `token`.
    Bias { token: TokenId, bias: Scalar },
    /// Divide the score of `token` by `penalty` where the score is positive,
    /// multiply it by `penalty` where it is not.
    Repeat { token: TokenId, penalty: Scalar },
    /// Subtract `count` times `frequency`, plus `presence`, from the score of
    /// `token`.
    Frequency { token: TokenId, count: usize, frequency: Scalar, presence: Scalar },
    /// Give `token` the score it had before the first step of the plan.
    Restore { token: TokenId },
}

impl PenaltyStep {
    /// The token whose score the step changes.
    pub open spec fn target(self) -> TokenId {
        match self {
            PenaltyStep::Bias { token, .. } => token,
            PenaltyStep::Repeat { token, .. } => token,
            PenaltyStep::Frequency { token, .. } => token,
            PenaltyStep::Restore { token } => token,
        }
    }
}

/// Whether `token` is one of a vocabulary of `n_vocab` tokens.
pub open spec fn in_vocab(token: TokenId, n_vocab: usize) -> bool {
    0 <= token < n_vocab
}

/// The last `n` tokens of `history`.
pub open spec fn window_of(history: Seq<TokenId>, n: int) -> Seq<TokenId>
    recommends
        0 <= n <= history.len(),
{
    history.subrange(history.len() - n, history.len() as int)
}

/// How often `token` occurs in `tokens`.
pub open spec fn occurrences(tokens: Seq<TokenId>, token: TokenId) -> nat
    decreases tokens.len(),
{
    if tokens.len() == 0 {
        0
    } else {
        let before = occurrences(tokens.drop_last(), token);
        if tokens.last() == token {
            before + 1
        } else {
            before
        }
    }
}

/// The tokens of the vocabulary that occur in `tokens`, each once, in the
/// order in which they first occur.
pub open spec fn distinct(tokens: Seq<TokenId>, n_vocab: usize) -> Seq<TokenId>
    decreases tokens.len(),
{
    if tokens.len() == 0 {
        Seq::empty()
    } else {
        let before = distinct(tokens.drop_last(), n_vocab);
        if in_vocab(tokens.last(), n_vocab) && !before.contains(tokens.last()) {
            before.push(tokens.last())
        } else {
            before
        }
    }
}

/// The steps for the explicit biases: one for each bias on a token of the
/// vocabulary, in the order of the list.
pub open spec fn bias_steps(bias: Seq<LogitBias>, n_vocab: usize) -> Seq<PenaltyStep>
    decreases bias.len(),
{
    if bias.len() == 0 {
        Seq::empty()
    } else {
        let before = bias_steps(bias.drop_last(), n_vocab);
        if in_vocab(bias.last().token, n_vocab) {
            before.push(PenaltyStep::Bias { token: bias.last().token, bias: bias.last().bias })
        } else {
            before
        }
    }
}

/// The steps of the repetition penalty: one for each distinct token of the
/// window, however often it occurs. None where the window is empty or the
/// penalty is 1.0.
pub open spec fn repeat_steps(
    window: Seq<TokenId>,
    penalty: Scalar,
    n_vocab: usize,
) -> Seq<PenaltyStep> {
    if window.len() == 0 || penalty.one() {
        Seq::empty()
    } else {
        let ids = distinct(window, n_vocab);
        Seq::new(ids.len(), |i: int| PenaltyStep::Repeat { token: ids[i], penalty })
    }
}

/// The steps of the frequency and presence penalty: one for each distinct
/// token of the window, with the number of times it occurs there. None where
/// the window is empty or both penalties are zero.
pub open spec fn frequency_steps(
    window: Seq<TokenId>,
    frequency: Scalar,
    presence: Scalar,
    n_vocab: usize,
) -> Seq<PenaltyStep> {
    if window.len() == 0 || (frequency.zero() && presence.zero()) {
        Seq::empty()
    } else {
        let ids = distinct(window, n_vocab);
        Seq::new(
            ids.len(),
            |i: int|
                PenaltyStep::Frequency {
                    token: ids[i],
                    count: occurrences(window, ids[i]) as usize,
                    frequency,
                    presence,
                },
        )
    }
}

/// The plan for one choice of a token: the bias steps, the repetition steps
/// and the frequency steps, in this order, over the window that `config`
/// selects from `history`; and last, where the newline token is exempt and any
/// step came before, the step that puts its score back.
pub open spec fn plan_of(
    config: SamplingConfig,
    bias: Seq<LogitBias>,
    history: Seq<TokenId>,
    n_ctx: usize,
    n_vocab: usize,
    newline: TokenId,
) -> Seq<PenaltyStep> {
    let window = window_of(history, config.window_of(history.len() as usize, n_ctx) as int);
    let changes = bias_steps(bias, n_vocab) + repeat_steps(
        window,
        config.repeat_penalty,
        n_vocab,
    ) + frequency_steps(window, config.frequency_penalty, config.presence_penalty, n_vocab);
    if !config.penalize_newline && changes.len() > 0 && in_vocab(newline, n_vocab) {
        changes.push(PenaltyStep::Restore { token: newline })
    } else {
        changes
    }
}

/// A token occurs in a sequence no more often than the sequence is long.
pub proof fn lemma_occurrences_bounded(tokens: Seq<TokenId>, token: TokenId)
    ensures
        occurrences(tokens, token) <= tokens.len(),
    decreases tokens.len(),
{
    if tokens.len() > 0 {
        lemma_occurrences_bounded(tokens.drop_last(), token);
    }
}

/// What `distinct` lists: tokens of the vocabulary, none of them twice, each
/// of which occurs in `tokens`; and every token of the vocabulary that occurs
/// in `tokens` is listed.
pub proof fn lemma_distinct_lists_each_once(tokens: Seq<TokenId>, n_vocab: usize)
    ensures
        distinct(tokens, n_vocab).no_duplicates(),
        distinct(tokens, n_vocab).len() <= tokens.len(),
        forall|k: int|
            0 <= k < distinct(tokens, n_vocab).len() ==> in_vocab(
                #[trigger] distinct(tokens, n_vocab)[k],
                n_vocab,
            ) && occurrences(tokens, distinct(tokens, n_vocab)[k]) > 0,
        forall|i: int|
            0 <= i < tokens.len() && in_vocab(#[trigger] tokens[i], n_vocab) ==> distinct(
                tokens,
                n_vocab,
            ).contains(tokens[i]),
    decreases tokens.len(),
{
    if tokens.len() > 0 {
        let shorter = tokens.drop_last();
        let before = distinct(shorter, n_vocab);
        let now = distinct(tokens, n_vocab);
        lemma_distinct_lists_each_once(shorter, n_vocab);
        assert forall|k: int| 0 <= k < now.len() implies in_vocab(#[trigger] now[k], n_vocab)
            && occurrences(tokens, now[k]) > 0 by {
            if k < before.len() {
                assert(now[k] == before[k]);
            }
        }
        assert forall|i: int|
            0 <= i < tokens.len() && in_vocab(#[trigger] tokens[i], n_vocab) implies now.contains(
            tokens[i],
        ) by {
            if i < shorter.len() {
                assert(shorter[i] == tokens[i]);
                let k = choose|k: int| 0 <= k < before.len() && before[k] == tokens[i];
                assert(now[k] == tokens[i]);
            } else if before.contains(tokens.last()) {
                let k = choose|k: int| 0 <= k < before.len() && before[k] == tokens.last();
                assert(now[k] == tokens[i]);
            } else {
                assert(now[now.len() - 1] == tokens[i]);
            }
        }
    }
}

/// The repetition penalty touches each token of the window once: with a
/// penalty other than 1.0 there is one step for every token of the
/// vocabulary that occurs in the window, however often it occurs, and no two
/// steps are on the same token.
pub proof fn lemma_repeat_once_for_each_token(window: Seq<TokenId>, penalty: Scalar, n_vocab: usize)
    requires
        !penalty.one(),
    ensures
        forall|a: int, b: int|
            0 <= a < b < repeat_steps(window, penalty, n_vocab).len() ==> (#[trigger] repeat_steps(
                window,
                penalty,
                n_vocab,
            )[a]).target() != (#[trigger] repeat_steps(window, penalty, n_vocab)[b]).target(),
        forall|i: int|
            0 <= i < window.len() && in_vocab(#[trigger] window[i], n_vocab) ==> exists|k: int|
                0 <= k < repeat_steps(window, penalty, n_vocab).len() && (#[trigger] repeat_steps(
                    window,
                    penalty,
                    n_vocab,
                )[k]).target() == window[i],
{
    lemma_distinct_lists_each_once(window, n_vocab);
    let ids = distinct(window, n_vocab);
    let steps = repeat_steps(window, penalty, n_vocab);
    assert forall|i: int| 0 <= i < window.len() && in_vocab(#[trigger] window[i], n_vocab) implies
        exists|k: int| 0 <= k < steps.len() && (#[trigger] steps[k]).target() == window[i] by {
        assert(ids.contains(window[i]));
        let k = choose|k: int| 0 <= k < ids.len() && ids[k] == window[i];
        assert(steps[k].target() == window[i]);
    }
}

/// Whether `step` is a frequency step that carries the number of times its
/// token occurs in `window`, which is at least one.
pub open spec fn counts(step: PenaltyStep, window: Seq<TokenId>) -> bool {
    match step {
        PenaltyStep::Frequency { token, count, .. } => count == occurrences(window, token) && count
            >= 1,
        _ => false,
    }
}

/// The frequency and presence penalty counts each token of the window: with
/// a penalty other than zero, every step carries the number of times its
/// token occurs in the window, which is at least one, and no two steps are on
/// the same token.
pub proof fn lemma_frequency_counts_each_token(
    window: Seq<TokenId>,
    frequency: Scalar,
    presence: Scalar,
    n_vocab: usize,
)
    requires
        !(frequency.zero() && presence.zero()),
        window.len() <= usize::MAX,
    ensures
        forall|a: int, b: int|
            0 <= a < b < frequency_steps(window, frequency, presence, n_vocab).len() ==> (
            #[trigger] frequency_steps(window, frequency, presence, n_vocab)[a]).target() != (
            #[trigger] frequency_steps(window, frequency, presence, n_vocab)[b]).target(),
        forall|k: int|
            0 <= k < frequency_steps(window, frequency, presence, n_vocab).len() ==> counts(
                #[trigger] frequency_steps(window, frequency, presence, n_vocab)[k],
                window,
            ),
{
    lemma_distinct_lists_each_once(window, n_vocab);
    let ids = distinct(window, n_vocab);
    let steps = frequency_steps(window, frequency, presence, n_vocab);
    assert forall|k: int| 0 <= k < steps.len() implies counts(#[trigger] steps[k], window) by {
        lemma_occurrences_bounded(window, ids[k]);
        assert(in_vocab(ids[k], n_vocab));
    }
}

/// With the repetition penalty at 1.0, the frequency and presence penalties
/// at zero and no bias, the plan holds no step: every score stays as it is.
pub proof fn lemma_identity_settings_leave_scores(
    config: SamplingConfig,
    history: Seq<TokenId>,
    n_ctx: usize,
    n_vocab: usize,
    newline: TokenId,
)
    requires
        config.repeat_penalty.one(),
        config.frequency_penalty.zero(),
        config.presence_penalty.zero(),
    ensures
        plan_of(config, Seq::empty(), history, n_ctx, n_vocab, newline).len() == 0,
{
}

/// With an empty history only the biases make steps.
pub proof fn lemma_empty_history_only_biases(
    config: SamplingConfig,
    bias: Seq<LogitBias>,
    n_ctx: usize,
    n_vocab: usize,
    newline: TokenId,
)
    requires
        config.penalize_newline,
    ensures
        plan_of(config, bias, Seq::empty(), n_ctx, n_vocab, newline) == bias_steps(bias, n_vocab),
{
    assert(plan_of(config, bias, Seq::empty(), n_ctx, n_vocab, newline) =~= bias_steps(
        bias,
        n_vocab,
    ));
}

/// Every step of a plan is on a token of the vocabulary.
pub proof fn lemma_plan_stays_in_vocab(
    config: SamplingConfig,
    bias: Seq<LogitBias>,
    history: Seq<TokenId>,
    n_ctx: usize,
    n_vocab: usize,
    newline: TokenId,
)
    ensures
        forall|k: int|
            0 <= k < plan_of(config, bias, history, n_ctx, n_vocab, newline).len() ==> in_vocab(
                (#[trigger] plan_of(config, bias, history, n_ctx, n_vocab, newline)[k]).target(),
                n_vocab,
            ),
{
    let window = window_of(history, config.window_of(history.len() as usize, n_ctx) as int);
    lemma_bias_steps_in_vocab(bias, n_vocab);
    lemma_distinct_lists_each_once(window, n_vocab);
    let b = bias_steps(bias, n_vocab);
    let r = repeat_steps(window, config.repeat_penalty, n_vocab);
    let f = frequency_steps(window, config.frequency_penalty, config.presence_penalty, n_vocab);
    let plan = plan_of(config, bias, history, n_ctx, n_vocab, newline);
    assert forall|k: int| 0 <= k < plan.len() implies in_vocab(
        (#[trigger] plan[k]).target(),
        n_vocab,
    ) by {
        if k < b.len() {
            assert(plan[k] == b[k]);
        } else if k < b.len() + r.len() {
            assert(plan[k] == r[k - b.len()]);
            assert(in_vocab(distinct(window, n_vocab)[k - b.len()], n_vocab));
        } else if k < b.len() + r.len() + f.len() {
            assert(plan[k] == f[k - b.len() - r.len()]);
            assert(in_vocab(distinct(window, n_vocab)[k - b.len() - r.len()], n_vocab));
        } else {
            assert(plan[k] == PenaltyStep::Restore { token: newline });
        }
    }
}

proof fn lemma_bias_steps_in_vocab(bias: Seq<LogitBias>, n_vocab: usize)
    ensures
        bias_steps(bias, n_vocab).len() <= bias.len(),
        forall|k: int|
            0 <= k < bias_steps(bias, n_vocab).len() ==> in_vocab(
                (#[trigger] bias_steps(bias, n_vocab)[k]).target(),
                n_vocab,
            ),
    decreases bias.len(),
{
    if bias.len() > 0 {
        lemma_bias_steps_in_vocab(bias.drop_last(), n_vocab);
        let before = bias_steps(bias.drop_last(), n_vocab);
        let now = bias_steps(bias, n_vocab);
        assert forall|k: int| 0 <= k < now.len() implies in_vocab(
            (#[trigger] now[k]).target(),
            n_vocab,
        ) by {
            if k < before.len() {
                assert(now[k] == before[k]);
            }
        }
    }
}

/// Whether `token` is one of a vocabulary of `n_vocab` tokens.
pub fn token_in_vocab(token: TokenId, n_vocab: usize) -> (r: bool)
    ensures
        r == in_vocab(token, n_vocab),
{
    token >= 0 && (token as usize) < n_vocab
}

/// Where `token` stands in `ids`, if it does.
fn position(ids: &Vec<TokenId>, token: TokenId) -> (r: Option<usize>)
    ensures
        r is None <==> !ids@.contains(token),
        r matches Some(k) ==> k < ids@.len() && ids@[k as int] == token,
{
    let mut k: usize = 0;
    while k < ids.len()
        invariant
            k <= ids@.len(),
            forall|j: int| 0 <= j < k ==> ids@[j] != token,
        decreases ids@.len() - k,
    {
        if ids[k] == token {
            return Some(k);
        }
        k += 1;
    }
    None
}

/// The distinct tokens of the vocabulary among the last `n` tokens of
/// `history`, in the order in which they first occur there, and beside each
/// the number of times it occurs there.
pub fn tally(history: &Vec<TokenId>, n: usize, n_vocab: usize) -> (r: (Vec<TokenId>, Vec<usize>))
    requires
        n <= history@.len(),
    ensures
        r.0@ == distinct(window_of(history@, n as int), n_vocab),
        r.1@.len() == r.0@.len(),
        forall|k: int|
            0 <= k < r.0@.len() ==> #[trigger] r.1@[k] == occurrences(
                window_of(history@, n as int),
                r.0@[k],
            ),
{
    let start: usize = history.len() - n;
    let ghost window = window_of(history@, n as int);
    let mut ids: Vec<TokenId> = Vec::new();
    let mut counts: Vec<usize> = Vec::new();
    let mut i: usize = 0;
    while i < n
        invariant
            i <= n,
            n <= history@.len(),
            history@.len() <= usize::MAX,
            start == history@.len() - n,
            window == window_of(history@, n as int),
            ids@ == distinct(window.subrange(0, i as int), n_vocab),
            counts@.len() == ids@.len(),
            forall|k: int|
                0 <= k < ids@.len() ==> #[trigger] counts@[k] == occurrences(
                    window.subrange(0, i as int),
                    ids@[k],
                ),
        decreases n - i,
    {
        let token: TokenId = history[start + i];
        let ghost seen = window.subrange(0, i as int);
        let ghost next = window.subrange(0, i + 1);
        let ghost old_ids = ids@;
        let ghost old_counts = counts@;
        proof {
            assert(next.drop_last() =~= seen);
            assert(next.last() == token);
            lemma_distinct_lists_each_once(seen, n_vocab);
        }
        if token_in_vocab(token, n_vocab) {
            match position(&ids, token) {
                Some(k) => {
                    proof {
                        lemma_occurrences_bounded(seen, token);
                    }
                    let count: usize = counts[k];
                    counts.set(k, count + 1);
                    proof {
                        assert forall|j: int| 0 <= j < ids@.len() implies #[trigger] counts@[j]
                            == occurrences(next, ids@[j]) by {
                            assert(old_counts[j] == occurrences(seen, old_ids[j]));
                            if j != k {
                                assert(old_ids[j] != old_ids[k as int]);
                            }
                        }
                    }
                },
                None => {
                    proof {
                        lemma_unlisted_does_not_occur(seen, n_vocab, token);
                    }
                    ids.push(token);
                    counts.push(1);
                    proof {
                        assert forall|j: int| 0 <= j < ids@.len() implies #[trigger] counts@[j]
                            == occurrences(next, ids@[j]) by {
                            if j < old_ids.len() {
                                assert(old_counts[j] == occurrences(seen, old_ids[j]));
                                assert(old_ids.contains(old_ids[j]));
                            }
                        }
                    }
                },
            }
        } else {
            proof {
                assert forall|j: int| 0 <= j < ids@.len() implies #[trigger] counts@[j]
                    == occurrences(next, ids@[j]) by {
                    assert(old_counts[j] == occurrences(seen, old_ids[j]));
                    assert(in_vocab(old_ids[j], n_vocab));
                }
            }
        }
        i += 1;
    }
    proof {
        assert(window.subrange(0, n as int) =~= window);
    }
    (ids, counts)
}

/// A token of the vocabulary that `distinct` does not list does not occur.
proof fn lemma_unlisted_does_not_occur(tokens: Seq<TokenId>, n_vocab: usize, token: TokenId)
    requires
        in_vocab(token, n_vocab),
        !distinct(tokens, n_vocab).contains(token),
    ensures
        occurrences(tokens, token) == 0,
    decreases tokens.len(),
{
    if tokens.len() > 0 {
        let before = distinct(tokens.drop_last(), n_vocab);
        let now = distinct(tokens, n_vocab);
        if before.contains(token) {
            let k = choose|k: int| 0 <= k < before.len() && before[k] == token;
            assert(now[k] == token);
        }
        if tokens.last() == token {
            assert(now[now.len() - 1] == token || before.contains(token));
        }
        lemma_unlisted_does_not_occur(tokens.drop_last(), n_vocab, token);
    }
}

/// The plan for one choice of a token, see [`plan_of`].
pub fn plan(
    config: &SamplingConfig,
    bias: &Vec<LogitBias>,
    history: &Vec<TokenId>,
    n_ctx: usize,
    n_vocab: usize,
    newline: TokenId,
) -> (r: Vec<PenaltyStep>)
    ensures
        r@ == plan_of(*config, bias@, history@, n_ctx, n_vocab, newline),
{
    let n: usize = config.window_len(history.len(), n_ctx);
    let ghost window = window_of(history@, n as int);
    let mut steps: Vec<PenaltyStep> = Vec::new();
    let mut b: usize = 0;
    while b < bias.len()
        invariant
            b <= bias@.len(),
            steps@ == bias_steps(bias@.subrange(0, b as int), n_vocab),
        decreases bias@.len() - b,
    {
        proof {
            assert(bias@.subrange(0, b + 1).drop_last() =~= bias@.subrange(0, b as int));
        }
        let entry: LogitBias = bias[b];
        if token_in_vocab(entry.token, n_vocab) {
            steps.push(PenaltyStep::Bias { token: entry.token, bias: entry.bias });
        }
        b += 1;
    }
    proof {
        assert(bias@.subrange(0, bias@.len() as int) =~= bias@);
    }
    let ghost biased = steps@;
    if n > 0 {
        let (ids, counts) = tally(history, n, n_vocab);
        if !config.repeat_penalty.is_one() {
            let mut k: usize = 0;
            while k < ids.len()
                invariant
                    k <= ids@.len(),
                    steps@ == biased + Seq::new(
                        k as nat,
                        |i: int|
                            PenaltyStep::Repeat { token: ids@[i], penalty: config.repeat_penalty },
                    ),
                decreases ids@.len() - k,
            {
                steps.push(PenaltyStep::Repeat { token: ids[k], penalty: config.repeat_penalty });
                k += 1;
                proof {
                    assert(steps@ =~= biased + Seq::new(
                        k as nat,
                        |i: int|
                            PenaltyStep::Repeat { token: ids@[i], penalty: config.repeat_penalty },
                    ));
                }
            }
        }
        proof {
            assert(steps@ =~= biased + repeat_steps(window, config.repeat_penalty, n_vocab));
        }
        let ghost repeated = steps@;
        if !(config.frequency_penalty.is_zero() && config.presence_penalty.is_zero()) {
            let mut k: usize = 0;
            while k < ids.len()
                invariant
                    k <= ids@.len(),
                    counts@.len() == ids@.len(),
                    steps@ == repeated + Seq::new(
                        k as nat,
                        |i: int|
                            PenaltyStep::Frequency {
                                token: ids@[i],
                                count: counts@[i],
                                frequency: config.frequency_penalty,
                                presence: config.presence_penalty,
                            },
                    ),
                decreases ids@.len() - k,
            {
                steps.push(
                    PenaltyStep::Frequency {
                        token: ids[k],
                        count: counts[k],
                        frequency: config.frequency_penalty,
                        presence: config.presence_penalty,
                    },
                );
                k += 1;
                proof {
                    assert(steps@ =~= repeated + Seq::new(
                        k as nat,
                        |i: int|
                            PenaltyStep::Frequency {
                                token: ids@[i],
                                count: counts@[i],
                                frequency: config.frequency_penalty,
                                presence: config.presence_penalty,
                            },
                    ));
                }
            }
        }
        proof {
            assert(steps@ =~= repeated + frequency_steps(
                window,
                config.frequency_penalty,
                config.presence_penalty,
                n_vocab,
            ));
        }
    } else {
        proof {
            assert(window.len() == 0);
            assert(steps@ =~= biased + repeat_steps(window, config.repeat_penalty, n_vocab)
                + frequency_steps(
                window,
                config.frequency_penalty,
                config.presence_penalty,
                n_vocab,
            ));
        }
    }
    if !config.penalize_newline && steps.len() > 0 && token_in_vocab(newline, n_vocab) {
        steps.push(PenaltyStep::Restore { token: newline });
    }
    steps
}

} // verus!
