//! The token sampler: which strategy a configuration selects, the stages of
//! that strategy in their fixed order, and the choice of the highest score.
//!
//! Scores are ordered by [`Scalar::rank`]. The stages that need arithmetic on
//! scores are run by the host, in the order given here.

use vstd::prelude::*;
use crate::request::MirostatMode;
use crate::request::SamplingConfig;
use crate::scalar::Scalar;

verus! {

/// The number of candidates the first mirostat version estimates its
/// exponent from.
pub const MIROSTAT_V1_CANDIDATES: u32 = 100;

/// The way the next token is chosen.
#[derive(Clone, Copy, Debug, PartialEq, Eq, Structural)]
pub enum Strategy {
    /// The highest score wins; no random source is consulted.
    Greedy,
    MirostatV1,
    MirostatV2,
    /// Filters narrow the candidates, then one is drawn at random.
    Nucleus,
}

/// One stage of a strategy. Each filter leaves at least one candidate.
#[derive(Clone, Copy, Debug, PartialEq, Eq, Structural)]
pub enum Stage {
    /// Keep the `keep` candidates with the highest scores.
    TopK { keep: usize },
    /// Keep the candidates that carry the share `z` of the second
    /// derivative of the sorted probabilities.
    TailFree { z: Scalar },
    /// Keep the locally typical candidates up to the share `p`.
    Typical { p: Scalar },
    /// Keep the shortest run of candidates, most probable first, whose
    /// probabilities add up to `p` or more.
    TopP { p: Scalar },
    /// Divide the scores of the candidates left by `t`.
    Temperature { t: Scalar },
    /// Draw with the first mirostat version; its running value starts at
    /// twice `tau`.
    MirostatV1 { tau: Scalar, eta: Scalar, candidates: u32 },
    /// Draw with the second mirostat version; its running value starts at
    /// twice `tau`.
    MirostatV2 { tau: Scalar, eta: Scalar },
    /// Draw one candidate with the probability its score gives it.
    Draw,
}

/// The strategy a configuration selects: the highest score where the
/// temperature is zero or less, whatever else is set; else mirostat where it
/// is switched on; else the nucleus pipeline.
pub open spec fn strategy_of(config: SamplingConfig) -> Strategy {
    if config.temperature.at_most_zero() {
        Strategy::Greedy
    } else {
        match config.mirostat_mode {
            MirostatMode::V1 => Strategy::MirostatV1,
            MirostatMode::V2 => Strategy::MirostatV2,
            MirostatMode::Off => Strategy::Nucleus,
        }
    }
}

/// The stages of the strategy that a configuration selects over a vocabulary
/// of `n_vocab` tokens, in the order in which they run. The highest score is
/// found without any stage.
pub open spec fn stages_of(config: SamplingConfig, n_vocab: usize) -> Seq<Stage> {
    match strategy_of(config) {
        Strategy::Greedy => Seq::empty(),
        Strategy::MirostatV1 => seq![
            Stage::Temperature { t: config.temperature },
            Stage::MirostatV1 {
                tau: config.mirostat_tau,
                eta: config.mirostat_eta,
                candidates: MIROSTAT_V1_CANDIDATES,
            },
        ],
        Strategy::MirostatV2 => seq![
            Stage::Temperature { t: config.temperature },
            Stage::MirostatV2 { tau: config.mirostat_tau, eta: config.mirostat_eta },
        ],
        Strategy::Nucleus => seq![
            Stage::TopK { keep: config.top_k_of(n_vocab) },
            Stage::TailFree { z: config.tail_free_z },
            Stage::Typical { p: config.typical_p },
            Stage::TopP { p: config.top_p },
            Stage::Temperature { t: config.temperature },
            Stage::Draw,
        ],
    }
}

/// The strategy that `config` selects.
pub fn strategy(config: &SamplingConfig) -> (r: Strategy)
    ensures
        r == strategy_of(*config),
{
    if config.temperature.is_at_most_zero() {
        Strategy::Greedy
    } else {
        match config.mirostat_mode {
            MirostatMode::V1 => Strategy::MirostatV1,
            MirostatMode::V2 => Strategy::MirostatV2,
            MirostatMode::Off => Strategy::Nucleus,
        }
    }
}

/// The stages of the strategy that `config` selects, in running order.
pub fn stages(config: &SamplingConfig, n_vocab: usize) -> (r: Vec<Stage>)
    ensures
        r@ == stages_of(*config, n_vocab),
{
    let mut out: Vec<Stage> = Vec::new();
    match strategy(config) {
        Strategy::Greedy => {},
        Strategy::MirostatV1 => {
            out.push(Stage::Temperature { t: config.temperature });
            out.push(
                Stage::MirostatV1 {
                    tau: config.mirostat_tau,
                    eta: config.mirostat_eta,
                    candidates: MIROSTAT_V1_CANDIDATES,
                },
            );
        },
        Strategy::MirostatV2 => {
            out.push(Stage::Temperature { t: config.temperature });
            out.push(Stage::MirostatV2 { tau: config.mirostat_tau, eta: config.mirostat_eta });
        },
        Strategy::Nucleus => {
            out.push(Stage::TopK { keep: config.resolved_top_k(n_vocab) });
            out.push(Stage::TailFree { z: config.tail_free_z });
            out.push(Stage::Typical { p: config.typical_p });
            out.push(Stage::TopP { p: config.top_p });
            out.push(Stage::Temperature { t: config.temperature });
            out.push(Stage::Draw);
        },
    }
    proof {
        assert(out@ =~= stages_of(*config, n_vocab));
    }
    out
}

/// Whether candidate `i` comes before candidate `j` when the candidates are
/// put best first: by the higher score, and among equal scores by the lower
/// index.
pub open spec fn better(scores: Seq<Scalar>, i: int, j: int) -> bool {
    scores[i].rank() > scores[j].rank() || (scores[i].rank() == scores[j].rank() && i < j)
}

/// Whether `i` is the index of the highest score, the lowest such index where
/// several scores are equal.
pub open spec fn is_best(scores: Seq<Scalar>, i: int) -> bool {
    &&& 0 <= i < scores.len()
    &&& forall|j: int| 0 <= j < scores.len() && j != i ==> better(scores, i, j)
}

/// The index of the highest score, the lowest such index where several
/// scores are equal; `None` where there are no scores.
pub fn greedy(scores: &Vec<Scalar>) -> (r: Option<usize>)
    ensures
        r is None <==> scores@.len() == 0,
        r matches Some(i) ==> is_best(scores@, i as int),
{
    if scores.len() == 0 {
        return None;
    }
    let mut best: usize = 0;
    let mut best_rank: i64 = scores[0].rank_key();
    let mut i: usize = 1;
    while i < scores.len()
        invariant
            1 <= i <= scores@.len(),
            best < i,
            best_rank == scores@[best as int].rank(),
            forall|j: int| 0 <= j < i && j != best ==> better(scores@, best as int, j),
        decreases scores@.len() - i,
    {
        let rank: i64 = scores[i].rank_key();
        if rank > best_rank {
            proof {
                assert forall|j: int| 0 <= j < i + 1 && j != i implies better(
                    scores@,
                    i as int,
                    j,
                ) by {
                    if j != best {
                        assert(better(scores@, best as int, j));
                    }
                }
            }
            best = i;
            best_rank = rank;
        }
        i += 1;
    }
    Some(best)
}

/// The highest score is chosen without chance: whatever two indices pass for
/// the best of the same scores are one index.
pub proof fn lemma_greedy_deterministic(scores: Seq<Scalar>, i: int, j: int)
    requires
        is_best(scores, i),
        is_best(scores, j),
    ensures
        i == j,
{
    if i != j {
        assert(better(scores, i, j));
        assert(better(scores, j, i));
    }
}

/// The number of candidates that a top-k filter of `keep` leaves of `n`:
/// `keep`, but at least one and no more than there are.
pub open spec fn kept_count(n: nat, keep: usize) -> nat {
    if n == 0 {
        0
    } else if keep == 0 {
        1
    } else if keep < n {
        keep as nat
    } else {
        n
    }
}

/// Whether candidate `j` is among `kept`.
pub open spec fn among(kept: Seq<usize>, j: int) -> bool {
    exists|a: int| 0 <= a < kept.len() && #[trigger] kept[a] == j
}

/// Whether `kept` are the candidates that a top-k filter of `keep` leaves of
/// `scores`, in the order of their indices: as many as [`kept_count`] says,
/// and each of them comes before every candidate that is left out when the
/// candidates are put best first.
pub open spec fn is_top_k(scores: Seq<Scalar>, kept: Seq<usize>, keep: usize) -> bool {
    &&& kept.len() == kept_count(scores.len(), keep)
    &&& forall|a: int| 0 <= a < kept.len() ==> #[trigger] kept[a] < scores.len()
    &&& forall|a: int, b: int| 0 <= a < b < kept.len() ==> #[trigger] kept[a] < #[trigger] kept[b]
    &&& forall|a: int, j: int|
        0 <= a < kept.len() && 0 <= j < scores.len() && !among(kept, j) ==> #[trigger] better(
            scores,
            kept[a] as int,
            j,
        )
}

/// Whether `picks` are candidates put best first.
spec fn best_first(scores: Seq<Scalar>, picks: Seq<usize>) -> bool {
    &&& forall|a: int| 0 <= a < picks.len() ==> #[trigger] picks[a] < scores.len()
    &&& forall|a: int, b: int|
        0 <= a < b < picks.len() ==> better(
            scores,
            #[trigger] picks[a] as int,
            #[trigger] picks[b] as int,
        )
}

/// Whether every candidate below `upto` is among `picks` or comes after the
/// last of them, of which there are then `k`.
spec fn rest_is_worse(scores: Seq<Scalar>, picks: Seq<usize>, upto: int, k: int) -> bool {
    forall|j: int|
        0 <= j < upto && !(#[trigger] among(picks, j)) ==> picks.len() == k && better(
            scores,
            picks[k - 1] as int,
            j,
        )
}

/// Whether candidate `j` is `last` or comes before it.
spec fn passes(scores: Seq<Scalar>, last: int, j: int) -> bool {
    j == last || better(scores, j, last)
}



fn beats(scores: &Vec<Scalar>, i: usize, j: usize) -> (r: bool)
    requires
        i < scores@.len(),
        j < scores@.len(),
    ensures
        r == better(scores@, i as int, j as int),
{
    let a: i64 = scores[i].rank_key();
    let b: i64 = scores[j].rank_key();
    a > b || (a == b && i < j)
}

/// The `k` best candidates, best first.
fn select(scores: &Vec<Scalar>, k: usize) -> (picks: Vec<usize>)
    requires
        1 <= k <= scores@.len(),
    ensures
        picks@.len() == k,
        best_first(scores@, picks@),
        rest_is_worse(scores@, picks@, scores@.len() as int, k as int),
{
    let n: usize = scores.len();
    let mut picks: Vec<usize> = Vec::new();
    let mut i: usize = 0;
    while i < n
        invariant
            i <= n,
            n == scores@.len(),
            1 <= k <= n,
            picks@.len() == if i < k {
                i
            } else {
                k
            },
            best_first(scores@, picks@),
            forall|a: int| 0 <= a < picks@.len() ==> #[trigger] picks@[a] < i,
            rest_is_worse(scores@, picks@, i as int, k as int),
        decreases n - i,
    {
        let ghost before = picks@;
        let len: usize = picks.len();
        let mut pos: usize = len;
        while pos > 0 && beats(scores, i, picks[pos - 1])
            invariant
                pos <= len,
                len == picks@.len(),
                picks@ == before,
                i < n,
                n == scores@.len(),
                forall|a: int| 0 <= a < picks@.len() ==> #[trigger] picks@[a] < i,
                forall|a: int|
                    pos <= a < len ==> better(scores@, i as int, #[trigger] picks@[a] as int),
            decreases pos,
        {
            pos -= 1;
        }
        proof {
            if pos > 0 {
                assert(before[pos - 1] < i);
                assert(better(scores@, before[pos - 1] as int, i as int));
            }
        }
        if len < k {
            picks.insert(pos, i);
            proof {
                let now = picks@;
                assert forall|a: int, b: int| 0 <= a < b < now.len() implies better(
                    scores@,
                    #[trigger] now[a] as int,
                    #[trigger] now[b] as int,
                ) by {
                    lemma_inserted(before, pos as int, i, a);
                    lemma_inserted(before, pos as int, i, b);
                    if a < pos && b > pos {
                        assert(better(scores@, before[a] as int, before[pos - 1] as int) || a
                            == pos - 1);
                    }
                }
                assert forall|j: int| 0 <= j < i + 1 implies #[trigger] among(now, j) by {
                    if j == i {
                        assert(now[pos as int] == i);
                    } else {
                        assert(among(before, j));
                        let a = choose|a: int| 0 <= a < before.len() && before[a] == j;
                        if a < pos {
                            assert(now[a] == before[a]);
                        } else {
                            assert(now[a + 1] == before[a]);
                        }
                    }
                }
                assert forall|a: int| 0 <= a < now.len() implies #[trigger] now[a] < i + 1 by {
                    lemma_inserted(before, pos as int, i, a);
                }
            }
        } else if pos < k {
            picks.insert(pos, i);
            let ghost wide = picks@;
            let dropped = picks.pop();
            proof {
                let now = picks@;
                assert(now =~= wide.subrange(0, k as int));
                assert forall|a: int| 0 <= a < now.len() implies #[trigger] now[a] < i + 1 by {
                    lemma_inserted(before, pos as int, i, a);
                }
                assert forall|a: int, b: int| 0 <= a < b < now.len() implies better(
                    scores@,
                    #[trigger] now[a] as int,
                    #[trigger] now[b] as int,
                ) by {
                    lemma_inserted(before, pos as int, i, a);
                    lemma_inserted(before, pos as int, i, b);
                    if a < pos && b > pos {
                        assert(better(scores@, before[a] as int, before[pos - 1] as int) || a
                            == pos - 1);
                    }
                }
                let last = before[k - 1];
                assert(better(scores@, now[k - 1] as int, last as int)) by {
                    lemma_inserted(before, pos as int, i, k - 1);
                    if pos < k - 1 {
                        assert(better(scores@, before[k - 2] as int, before[k - 1] as int));
                    }
                }
                assert forall|j: int| 0 <= j < i + 1 && !(#[trigger] among(now, j)) implies better(
                    scores@,
                    now[k - 1] as int,
                    j,
                ) by {
                    if j == i {
                        assert(now[pos as int] == i);
                    } else if among(before, j) {
                        let a = choose|a: int| 0 <= a < before.len() && before[a] == j;
                        if a < pos {
                            assert(now[a] == before[a]);
                        } else if a < k - 1 {
                            assert(now[a + 1] == before[a]);
                        } else {
                            assert(j == last);
                        }
                    } else {
                        assert(better(scores@, last as int, j));
                    }
                }
            }
        } else {
            proof {
                assert forall|j: int| 0 <= j < i + 1 && !(#[trigger] among(before, j)) implies better(
                    scores@,
                    before[k - 1] as int,
                    j,
                ) by {}
            }
        }
        i += 1;
    }
    picks
}

/// Where the items stand after one more was put in at `pos`.
proof fn lemma_inserted(before: Seq<usize>, pos: int, item: usize, a: int)
    requires
        0 <= pos <= before.len(),
        0 <= a <= before.len(),
    ensures
        a < pos ==> before.insert(pos, item)[a] == before[a],
        a == pos ==> before.insert(pos, item)[a] == item,
        a > pos ==> before.insert(pos, item)[a] == before[a - 1],
{
}

/// The candidates that a top-k filter of `keep` leaves of `scores`, in the
/// order of their indices; see [`is_top_k`].
pub fn top_k(scores: &Vec<Scalar>, keep: usize) -> (kept: Vec<usize>)
    ensures
        is_top_k(scores@, kept@, keep),
{
    let n: usize = scores.len();
    let mut kept: Vec<usize> = Vec::new();
    if n == 0 {
        return kept;
    }
    let k: usize = if keep == 0 {
        1
    } else if keep < n {
        keep
    } else {
        n
    };
    if k == n {
        let mut i: usize = 0;
        while i < n
            invariant
                i <= n,
                kept@.len() == i,
                forall|a: int| 0 <= a < i ==> #[trigger] kept@[a] == a,
            decreases n - i,
        {
            kept.push(i);
            i += 1;
        }
        proof {
            assert forall|a: int, j: int|
                0 <= a < kept@.len() && 0 <= j < scores@.len() && !among(
                    kept@,
                    j,
                ) implies #[trigger] better(scores@, kept@[a] as int, j) by {
                assert(kept@[j] == j);
            }
        }
        return kept;
    }
    let picks = select(scores, k);
    let last: usize = picks[k - 1];
    let mut i: usize = 0;
    while i < n
        invariant
            i <= n,
            n == scores@.len(),
            last < n,
            forall|a: int| 0 <= a < kept@.len() ==> #[trigger] kept@[a] < i,
            forall|a: int, b: int|
                0 <= a < b < kept@.len() ==> #[trigger] kept@[a] < #[trigger] kept@[b],
            forall|a: int|
                0 <= a < kept@.len() ==> (#[trigger] kept@[a]) == last || better(
                    scores@,
                    kept@[a] as int,
                    last as int,
                ),
            forall|j: int|
                0 <= j < i && #[trigger] passes(scores@, last as int, j) ==> among(kept@, j),
        decreases n - i,
    {
        if i == last || beats(scores, i, last) {
            let ghost before = kept@;
            kept.push(i);
            proof {
                assert forall|j: int|
                    0 <= j < i + 1 && #[trigger] passes(scores@, last as int, j) implies among(
                        kept@,
                        j,
                    ) by {
                    if j == i {
                        assert(kept@[kept@.len() - 1] == i);
                    } else {
                        assert(among(before, j));
                        let a = choose|a: int| 0 <= a < before.len() && before[a] == j;
                        assert(kept@[a] == j);
                    }
                }
            }
        }
        i += 1;
    }
    proof {
        let out = kept@;
        let sel = picks@;
        assert forall|x: usize| out.contains(x) <==> sel.contains(x) by {
            if out.contains(x) {
                if !sel.contains(x) {
                    assert(!among(sel, x as int));
                    assert(better(scores@, last as int, x as int));
                }
            }
            if sel.contains(x) {
                let a = choose|a: int| 0 <= a < sel.len() && sel[a] == x;
                if a < k - 1 {
                    assert(better(scores@, sel[a] as int, sel[k - 1] as int));
                }
                assert(passes(scores@, last as int, x as int));
                assert(among(out, x as int));
                let b = choose|b: int| 0 <= b < out.len() && out[b] == x as int;
                assert(out[b] == x);
            }
        }
        assert(out.to_set() =~= sel.to_set());
        assert(out.no_duplicates()) by {
            assert forall|a: int, b: int| 0 <= a < out.len() && 0 <= b < out.len() && a
                != b implies out[a] != out[b] by {
                if a < b {
                    assert(out[a] < out[b]);
                } else {
                    assert(out[b] < out[a]);
                }
            }
        }
        assert(sel.no_duplicates()) by {
            assert forall|a: int, b: int| 0 <= a < sel.len() && 0 <= b < sel.len() && a
                != b implies sel[a] != sel[b] by {
                if a < b {
                    assert(better(scores@, sel[a] as int, sel[b] as int));
                } else {
                    assert(better(scores@, sel[b] as int, sel[a] as int));
                }
            }
        }
        out.unique_seq_to_set();
        sel.unique_seq_to_set();
        assert forall|a: int, j: int|
            0 <= a < out.len() && 0 <= j < scores@.len() && !among(
                out,
                j,
            ) implies #[trigger] better(scores@, out[a] as int, j) by {
            if among(sel, j) {
                let b = choose|b: int| 0 <= b < sel.len() && sel[b] == j;
                assert(sel.contains(j as usize));
                assert(out.contains(j as usize));
            }
            assert(better(scores@, last as int, j));
        }
    }
    kept
}

/// A top-k filter that keeps one candidate keeps the one with the highest
/// score.
pub proof fn lemma_top_one_is_best(scores: Seq<Scalar>, kept: Seq<usize>)
    requires
        scores.len() > 0,
        is_top_k(scores, kept, 1),
    ensures
        kept.len() == 1,
        is_best(scores, kept[0] as int),
{
    assert forall|j: int| 0 <= j < scores.len() && j != kept[0] implies better(
        scores,
        kept[0] as int,
        j,
    ) by {
        if among(kept, j) {
            let a = choose|a: int| 0 <= a < kept.len() && kept[a] == j;
            assert(a == 0);
        }
    }
}

/// Whether `picks` are the candidates that a top-k filter of `keep` leaves of
/// `scores`, best first: as many as [`kept_count`] says, each coming before
/// the next, and each coming before every candidate that is left out.
pub open spec fn is_ranking(scores: Seq<Scalar>, picks: Seq<usize>, keep: usize) -> bool {
    &&& picks.len() == kept_count(scores.len(), keep)
    &&& forall|a: int| 0 <= a < picks.len() ==> #[trigger] picks[a] < scores.len()
    &&& forall|a: int, b: int|
        0 <= a < b < picks.len() ==> better(
            scores,
            #[trigger] picks[a] as int,
            #[trigger] picks[b] as int,
        )
    &&& forall|a: int, j: int|
        0 <= a < picks.len() && 0 <= j < scores.len() && !among(picks, j) ==> #[trigger] better(
            scores,
            picks[a] as int,
            j,
        )
}

/// The candidates that a top-k filter of `keep` leaves of `scores`, best
/// first; see [`is_ranking`]. With `keep` at the number of scores or above
/// this is every candidate, in the order of the scores. The work grows with
/// the number of scores times the number kept.
pub fn ranked(scores: &Vec<Scalar>, keep: usize) -> (picks: Vec<usize>)
    ensures
        is_ranking(scores@, picks@, keep),
{
    let n: usize = scores.len();
    if n == 0 {
        return Vec::new();
    }
    let k: usize = if keep == 0 {
        1
    } else if keep < n {
        keep
    } else {
        n
    };
    let picks = select(scores, k);
    proof {
        assert forall|a: int, j: int|
            0 <= a < picks@.len() && 0 <= j < scores@.len() && !among(
                picks@,
                j,
            ) implies #[trigger] better(scores@, picks@[a] as int, j) by {
            assert(better(scores@, picks@[k - 1] as int, j));
            if a < k - 1 {
                assert(better(scores@, picks@[a] as int, picks@[k - 1] as int));
            }
        }
    }
    picks
}

/// Two rankings of the same scores agree up to `n`.
proof fn lemma_rankings_agree(
    scores: Seq<Scalar>,
    a: Seq<usize>,
    b: Seq<usize>,
    keep: usize,
    n: int,
)
    requires
        is_ranking(scores, a, keep),
        is_ranking(scores, b, keep),
        0 <= n <= a.len(),
    ensures
        forall|i: int| 0 <= i < n ==> a[i] == b[i],
    decreases n,
{
    if n > 0 {
        lemma_rankings_agree(scores, a, b, keep, n - 1);
        let i = n - 1;
        if a[i] != b[i] {
            assert(better(scores, a[i] as int, b[i] as int)) by {
                if among(a, b[i] as int) {
                    let m = choose|m: int| 0 <= m < a.len() && a[m] == b[i] as int;
                    if m < i {
                        assert(a[m] == b[m]);
                        assert(better(scores, b[m] as int, b[i] as int));
                    } else {
                        assert(better(scores, a[i] as int, a[m] as int));
                    }
                }
            }
            assert(better(scores, b[i] as int, a[i] as int)) by {
                if among(b, a[i] as int) {
                    let m = choose|m: int| 0 <= m < b.len() && b[m] == a[i] as int;
                    if m < i {
                        assert(a[m] == b[m]);
                        assert(better(scores, a[m] as int, a[i] as int));
                    } else {
                        assert(better(scores, b[i] as int, b[m] as int));
                    }
                }
            }
        }
    }
}

/// A ranking has one answer: whatever two runs of indices pass for the
/// candidates kept of the same scores, best first, are the same.
pub proof fn lemma_ranking_is_determined(
    scores: Seq<Scalar>,
    a: Seq<usize>,
    b: Seq<usize>,
    keep: usize,
)
    requires
        is_ranking(scores, a, keep),
        is_ranking(scores, b, keep),
    ensures
        a == b,
{
    lemma_rankings_agree(scores, a, b, keep, a.len() as int);
    assert(a =~= b);
}

/// Whether the indices stand in ascending order.
spec fn ascending(kept: Seq<usize>) -> bool {
    forall|a: int, b: int| 0 <= a < b < kept.len() ==> #[trigger] kept[a] < #[trigger] kept[b]
}

/// Of two answers of a top-k filter, every candidate of the second is among
/// the first.
proof fn lemma_kept_within(scores: Seq<Scalar>, a: Seq<usize>, b: Seq<usize>, keep: usize)
    requires
        is_top_k(scores, a, keep),
        is_top_k(scores, b, keep),
    ensures
        forall|i: int| 0 <= i < b.len() ==> among(a, #[trigger] b[i] as int),
{
    if exists|i: int| 0 <= i < b.len() && !among(a, #[trigger] b[i] as int) {
        let i = choose|i: int| 0 <= i < b.len() && !among(a, #[trigger] b[i] as int);
        let y = b[i];
        assert forall|x: usize| a.to_set().contains(x) implies b.to_set().contains(x) by {
            let j = choose|j: int| 0 <= j < a.len() && a[j] == x;
            if !among(b, x as int) {
                assert(better(scores, b[i] as int, a[j] as int));
                assert(better(scores, a[j] as int, b[i] as int));
            }
            let m = choose|m: int| 0 <= m < b.len() && b[m] == x as int;
            assert(b[m] == x);
        }
        assert(a.no_duplicates());
        assert(b.no_duplicates());
        a.unique_seq_to_set();
        b.unique_seq_to_set();
        vstd::seq_lib::seq_to_set_is_finite(a);
        vstd::seq_lib::seq_to_set_is_finite(b);
        assert(b.to_set().contains(y)) by {
            assert(b[i] == y);
        }
        assert(!a.to_set().contains(y)) by {
            if a.contains(y) {
                let j = choose|j: int| 0 <= j < a.len() && a[j] == y;
                assert(among(a, y as int));
            }
        }
        a.to_set().lemma_subset_not_in_lt(b.to_set(), y);
    }
}

/// Two ascending runs of equal length with the same members agree up to `n`.
proof fn lemma_ascending_agree(a: Seq<usize>, b: Seq<usize>, n: int)
    requires
        a.len() == b.len(),
        ascending(a),
        ascending(b),
        forall|i: int| 0 <= i < b.len() ==> among(a, #[trigger] b[i] as int),
        forall|i: int| 0 <= i < a.len() ==> among(b, #[trigger] a[i] as int),
        0 <= n <= a.len(),
    ensures
        forall|i: int| 0 <= i < n ==> a[i] == b[i],
    decreases n,
{
    if n > 0 {
        lemma_ascending_agree(a, b, n - 1);
        let i = n - 1;
        assert(among(b, a[i] as int));
        let j = choose|j: int| 0 <= j < b.len() && b[j] == a[i] as int;
        assert(among(a, b[i] as int));
        let m = choose|m: int| 0 <= m < a.len() && a[m] == b[i] as int;
        if j < i {
            assert(a[j] == b[j]);
            assert(a[j] < a[i]);
        }
        if m < i {
            assert(a[m] == b[m]);
            assert(b[m] < b[i]);
        }
        if j > i {
            assert(b[i] < b[j]);
        }
        if m > i {
            assert(a[i] < a[m]);
        }
    }
}

/// A top-k filter has one answer: whatever two runs of indices pass for what
/// the filter leaves of the same scores are the same.
pub proof fn lemma_top_k_is_determined(
    scores: Seq<Scalar>,
    a: Seq<usize>,
    b: Seq<usize>,
    keep: usize,
)
    requires
        is_top_k(scores, a, keep),
        is_top_k(scores, b, keep),
    ensures
        a == b,
{
    lemma_kept_within(scores, a, b, keep);
    lemma_kept_within(scores, b, a, keep);
    lemma_ascending_agree(a, b, a.len() as int);
    assert(a =~= b);
}

/// A temperature of zero or less leaves nothing to chance: the strategy is
/// the highest score, without any stage, whatever else is set.
pub proof fn lemma_cold_is_greedy(config: SamplingConfig, n_vocab: usize)
    requires
        config.temperature.at_most_zero(),
    ensures
        strategy_of(config) == Strategy::Greedy,
        stages_of(config, n_vocab).len() == 0,
{
}

} // verus!
