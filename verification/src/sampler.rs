//! Choosing the next pair of names to try.
//!
//! Two policies exist. The baseline draws two names uniformly (with
//! replacement; a name may be drawn twice) and skips the whole iteration
//! when the drawn pair was already tried. The weighted policy draws each
//! name with a weight that favours short names, and redraws until it finds
//! a pair that was not tried yet.

use vstd::prelude::*;
use vstd::string::*;
use crate::order::spec_key;
use crate::pairs::PairStore;
use crate::store::ElementStore;
use crate::store::lemma_elems_map_domain;

verus! {

/// The largest store the samplers accept; it keeps the total weight of a
/// weighted draw far below the overflow bound.
pub const MAX_SAMPLED_ELEMENTS: u64 = 0x0400_0000_0000_0000;

/// The sampling weight of a name: `12 - min(length, 10)`, so a one-letter
/// name weighs 11 and every name of ten or more letters weighs 2. Shorter
/// names are drawn proportionally more often.
pub open spec fn spec_weight(name: Seq<char>) -> int {
    if name.len() >= 10 {
        2
    } else {
        12 - name.len()
    }
}

/// Computes the sampling weight of a name.
pub fn weight_of(name: &str) -> (w: u64)
    ensures
        w == spec_weight(name@),
        2 <= w <= 12,
{
    let n = name.unicode_len();
    if n >= 10 {
        2
    } else {
        12 - (n as u64)
    }
}

/// The sampling weights of every stored name, in store order.
pub fn weights_of_store(elements: &ElementStore) -> (w: Vec<u64>)
    ensures
        w@.len() == elements.seq_view().len(),
        forall|i: int|
            0 <= i < w@.len() ==> w@[i] == spec_weight(#[trigger] elements.seq_view()[i].result),
        forall|i: int| 0 <= i < w@.len() ==> 1 <= #[trigger] w@[i] <= 12,
{
    let n = elements.len();
    let mut w: Vec<u64> = Vec::new();
    let mut i: usize = 0;
    while i < n
        invariant
            i <= n,
            n == elements.seq_view().len(),
            w@.len() == i as int,
            forall|k: int|
                0 <= k < i ==> w@[k] == spec_weight(#[trigger] elements.seq_view()[k].result),
            forall|k: int| 0 <= k < i ==> 1 <= #[trigger] w@[k] <= 12,
        decreases n - i,
    {
        w.push(weight_of(elements.name_at(i).as_str()));
        i = i + 1;
    }
    w
}

/// Relies on `rand::distributions::WeightedIndex::new`,
/// `WeightedIndex::sample` and `rand::thread_rng`: over non-empty positive
/// weights whose total cannot overflow, `new` succeeds, and `sample`
/// returns the index of one of the weights, drawn with probability
/// proportional to its weight. Only the index's range is stated: which
/// index comes back is up to the random generator.
#[verifier::external_body]
fn draw_weighted(weights: &Vec<u64>) -> (i: usize)
    requires
        1 <= weights@.len() <= MAX_SAMPLED_ELEMENTS,
        forall|k: int| 0 <= k < weights@.len() ==> 1 <= #[trigger] weights@[k] <= 12,
    ensures
        i < weights@.len(),
{
    let dist = rand::distributions::WeightedIndex::new(weights.iter().copied()).unwrap();
    rand::distributions::Distribution::sample(&dist, &mut rand::thread_rng())
}

/// Relies on `rand::Rng::gen_range` and `rand::thread_rng`: a draw from a
/// non-empty range `0..n` returns a value below `n`. Which value comes
/// back is up to the random generator.
#[verifier::external_body]
fn draw_uniform(n: usize) -> (i: usize)
    requires
        1 <= n,
    ensures
        i < n,
{
    rand::Rng::gen_range(&mut rand::thread_rng(), 0..n)
}

/// The candidate pair for two drawn positions of the store order: the two
/// names at those positions, in draw order — unless their canonical key is
/// already recorded, in which case, and only in that case, there is no
/// candidate and the iteration is skipped.
pub fn candidate_from_draws(elements: &ElementStore, pairs: &PairStore, i1: usize, i2: usize) -> (r:
    Option<(String, String)>)
    requires
        elements.wf(),
        pairs.wf(),
        i1 < elements.seq_view().len(),
        i2 < elements.seq_view().len(),
    ensures
        match r {
            Some(p) => {
                &&& p.0@ == elements.seq_view()[i1 as int].result
                &&& p.1@ == elements.seq_view()[i2 as int].result
                &&& elements@.contains_key(p.0@)
                &&& elements@.contains_key(p.1@)
                &&& !pairs@.contains_key(spec_key(p.0@, p.1@))
            },
            None => pairs@.contains_key(
                spec_key(
                    elements.seq_view()[i1 as int].result,
                    elements.seq_view()[i2 as int].result,
                ),
            ),
        },
{
    let first = elements.name_at(i1).clone();
    let second = elements.name_at(i2).clone();
    if pairs.contains(first.as_str(), second.as_str()) {
        None
    } else {
        proof {
            lemma_elems_map_domain(elements.seq_view(), first@);
            lemma_elems_map_domain(elements.seq_view(), second@);
        }
        Some((first, second))
    }
}

/// How many weighted draws one call attempts before giving the caller the
/// turn again.
pub const WEIGHTED_DRAW_ATTEMPTS: usize = 64;

/// Draws a pair of stored names with the weighted policy, redrawing until
/// the pair was not tried yet; the drawn names come back in draw order.
/// Gives up with `None` after a bounded number of draws — which it can do
/// only when some pair of stored names is already recorded — so a caller
/// that insists on a fresh pair calls again.
pub fn sample_pair_weighted(elements: &ElementStore, pairs: &PairStore) -> (r: Option<
    (String, String),
>)
    requires
        elements.wf(),
        pairs.wf(),
        1 <= elements.seq_view().len() <= MAX_SAMPLED_ELEMENTS,
    ensures
        match r {
            Some(p) => elements@.contains_key(p.0@) && elements@.contains_key(p.1@)
                && !pairs@.contains_key(spec_key(p.0@, p.1@)),
            None => exists|i: int, j: int|
                0 <= i < elements.seq_view().len() && 0 <= j < elements.seq_view().len()
                    && pairs@.contains_key(
                    #[trigger] spec_key(
                        elements.seq_view()[i].result,
                        elements.seq_view()[j].result,
                    ),
                ),
        },
{
    let weights = weights_of_store(elements);
    let mut attempts: usize = 0;
    while attempts < WEIGHTED_DRAW_ATTEMPTS
        invariant
            elements.wf(),
            pairs.wf(),
            1 <= elements.seq_view().len() <= MAX_SAMPLED_ELEMENTS,
            weights@.len() == elements.seq_view().len(),
            forall|k: int|
                0 <= k < weights@.len() ==> weights@[k] == spec_weight(
                    #[trigger] elements.seq_view()[k].result,
                ),
            forall|k: int| 0 <= k < weights@.len() ==> 1 <= #[trigger] weights@[k] <= 12,
            attempts > 0 ==> exists|i: int, j: int|
                0 <= i < elements.seq_view().len() && 0 <= j < elements.seq_view().len()
                    && pairs@.contains_key(
                    #[trigger] spec_key(
                        elements.seq_view()[i].result,
                        elements.seq_view()[j].result,
                    ),
                ),
        decreases WEIGHTED_DRAW_ATTEMPTS - attempts,
    {
        let i1 = draw_weighted(&weights);
        let i2 = draw_weighted(&weights);
        if let Some(p) = candidate_from_draws(elements, pairs, i1, i2) {
            return Some(p);
        }
        proof {
            assert(pairs@.contains_key(
                spec_key(
                    elements.seq_view()[i1 as int].result,
                    elements.seq_view()[i2 as int].result,
                ),
            ));
        }
        attempts = attempts + 1;
    }
    None
}

/// Draws a pair of stored names with the uniform policy: one draw, and
/// `None` when — and only when — the drawn pair was already tried, so that
/// the caller skips the iteration.
pub fn sample_pair_uniform(elements: &ElementStore, pairs: &PairStore) -> (r: Option<
    (String, String),
>)
    requires
        elements.wf(),
        pairs.wf(),
        1 <= elements.seq_view().len(),
    ensures
        match r {
            Some(p) => elements@.contains_key(p.0@) && elements@.contains_key(p.1@)
                && !pairs@.contains_key(spec_key(p.0@, p.1@)),
            None => exists|i: int, j: int|
                0 <= i < elements.seq_view().len() && 0 <= j < elements.seq_view().len()
                    && pairs@.contains_key(
                    #[trigger] spec_key(
                        elements.seq_view()[i].result,
                        elements.seq_view()[j].result,
                    ),
                ),
        },
{
    let n = elements.len();
    let i1 = draw_uniform(n);
    let i2 = draw_uniform(n);
    let r = candidate_from_draws(elements, pairs, i1, i2);
    proof {
        if r is None {
            assert(pairs@.contains_key(
                spec_key(
                    elements.seq_view()[i1 as int].result,
                    elements.seq_view()[i2 as int].result,
                ),
            ));
        }
    }
    r
}

} // verus!
