use vstd::prelude::*;

pub mod layout;
pub mod permutations;
pub mod quartads;
pub mod penalty;
pub mod search;
pub mod annealing;

use crate::annealing::{results_from, simulate, Schedule};
use crate::layout::{init_lower, init_upper, shaka_lower, shaka_upper, Layout, LayoutPosMap};
use crate::penalty::{breakdown_matches, calculate_penalty, default_weights, init, map_of, penalty_of, scorable, Penalty};
use crate::quartads::{counts_windows, prepare_quartad_list, windows, QuartadList};
use crate::search::{all_scored_right, locally_optimal, optimal_at, scored_right, views, ResultSet, Scored};

verus! {

/// `q` is the quartad list of `corpus`, taken against the position map of
/// the built-in layout.
pub open spec fn corpus_quartads(corpus: Seq<char>, q: QuartadList) -> bool {
    quartads_against(corpus, shaka_lower(), shaka_upper(), q)
}

/// `q` is the quartad list of `corpus`, taken against the position map of
/// the layout with layers `lower` and `upper`.
pub open spec fn quartads_against(corpus: Seq<char>, lower: Seq<char>, upper: Seq<char>, q: QuartadList) -> bool {
    exists|l: Layout, m: LayoutPosMap|
        l.lower() == lower && l.upper() == upper && map_of(l, m) && counts_windows(
            q,
            windows(corpus, m, corpus.len() as int),
        ) && scorable(q)
}

fn corpus_list(corpus: &str) -> (r: QuartadList)
    requires
        corpus@.len() < u64::MAX,
    ensures
        corpus_quartads(corpus@, r),
        scorable(r),
{
    let reference = Layout::shaka_layout();
    let map = reference.get_position_map();
    let q = prepare_quartad_list(corpus, &map);
    assert(map_of(reference, map));
    q
}

/// Anneals `layout` against the quartads of `corpus`, with the default
/// weights, and returns the `top` best layouts seen.
pub fn run(corpus: &str, layout: &Layout, top: usize, swaps: usize, schedule: &Schedule, seed: u64) -> (r: ResultSet)
    requires
        corpus@.len() < u64::MAX,
        1 <= swaps < usize::MAX / 4,
        schedule.decay_permille <= 1000,
    ensures
        r.wf(),
        r.capacity == top,
        results_from(*layout, views(r.entries@)),
        exists|q: QuartadList|
            corpus_quartads(corpus@, q) && all_scored_right(q, default_weights(), r.entries@) && (top >= 1 ==> r.entries@.len()
                >= 1 && r.entries@[0].penalty <= penalty_of(q, layout.lower(), layout.upper(), default_weights())),
{
    let weights = init();
    let q = corpus_list(corpus);
    simulate(&q, layout, &weights, top, swaps, schedule, seed)
}

/// Refines `layout` by exhaustive local search, up to `max_depth` disjoint
/// swaps, against the quartads of `corpus` with the default weights.
pub fn refine(corpus: &str, layout: &Layout, top: usize, max_depth: usize) -> (r: (Scored, ResultSet))
    requires
        corpus@.len() < u64::MAX,
        max_depth <= 14,
    ensures
        r.1.wf(),
        r.1.capacity == top,
        exists|q: QuartadList|
            corpus_quartads(corpus@, q) && scored_right(q, default_weights(), r.0) && r.0.penalty <= penalty_of(
                q,
                layout.lower(),
                layout.upper(),
                default_weights(),
            ) && forall|d: int| 1 <= d <= max_depth ==> #[trigger] optimal_at(q, default_weights(), r.0.layout, d, r.0.penalty as int)
            && all_scored_right(q, default_weights(), r.1.entries@) && (locally_optimal(
                q,
                default_weights(),
                *layout,
                max_depth as int,
                penalty_of(q, layout.lower(), layout.upper(), default_weights()),
            ) ==> r.0.layout == *layout && r.0.penalty == penalty_of(q, layout.lower(), layout.upper(), default_weights())),
{
    let weights = init();
    let q = corpus_list(corpus);
    crate::search::refine(&q, layout, &weights, top, max_depth)
}

/// Scores the two built-in layouts, with their breakdowns, against the
/// quartads of `corpus` taken on the reference layout.
pub fn run_ref(corpus: &str) -> (r: (Penalty, Penalty))
    requires
        corpus@.len() < u64::MAX,
    ensures
        exists|q: QuartadList|
            quartads_against(corpus@, init_lower(), init_upper(), q) && r.0.total == penalty_of(
                q,
                shaka_lower(),
                shaka_upper(),
                default_weights(),
            ) && r.0.breakdown is Some && breakdown_matches(r.0.breakdown->0, q, shaka_lower(), shaka_upper())
                && r.1.total == penalty_of(q, init_lower(), init_upper(), default_weights())
                && r.1.breakdown is Some && breakdown_matches(r.1.breakdown->0, q, init_lower(), init_upper()),
{
    let weights = init();
    let reference = Layout::init_layout();
    let map = reference.get_position_map();
    let q = prepare_quartad_list(corpus, &map);
    assert(map_of(reference, map));
    let shaka = Layout::shaka_layout();
    let a = calculate_penalty(&q, &shaka, &weights, true);
    let b = calculate_penalty(&q, &reference, &weights, true);
    (a, b)
}

} // verus!
