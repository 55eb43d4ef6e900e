use vstd::prelude::*;

use crate::layout::{apply_swaps, swap_pair_of, valid_swaps, Layout, PINNED_SLOT};
use crate::penalty::{calculate_penalty, penalty_of, scorable, Weights, PENALTY_CEILING, PENALTY_FLOOR};
use crate::quartads::QuartadList;
use crate::search::{all_scored_right, count_le_v, insert_v, scored_right, sorted, views, ResultSet, Scored};

verus! {

#[verifier::external_type_specification]
#[verifier::external_body]
pub struct ExStdRng(rand::rngs::StdRng);

/// Relies on rand_core's SeedableRng::seed_from_u64 for StdRng: a generator
/// whose stream depends on the seed alone.
#[verifier::external_body]
fn seeded_rng(seed: u64) -> (r: rand::rngs::StdRng) {
    <rand::rngs::StdRng as rand::SeedableRng>::seed_from_u64(seed)
}

/// Relies on RngCore::next_u64 for StdRng: the next number of the stream.
#[verifier::external_body]
fn next_draw(rng: &mut rand::rngs::StdRng) -> (r: usize) {
    rand::RngCore::next_u64(rng) as usize
}

/// The cooling schedule: the temperature starts at `initial_temperature`
/// and is multiplied by `decay_permille / 1000` after each iteration; the
/// run stops after `iterations` iterations or once the temperature is 0.
#[derive(Clone, Copy, PartialEq, Eq, Structural, Debug)]
pub struct Schedule {
    pub initial_temperature: u64,
    pub decay_permille: u64,
    pub iterations: u64,
}

/// Resolution of the acceptance draw.
pub const ACCEPT_SCALE: u64 = 1_000_000;

/// Whether a candidate that changes the score by `delta` is taken at
/// `temperature`, for the random `draw`: a better or equal one always; a
/// worse one with chance `temperature / (temperature + delta)`, which falls
/// as `delta / temperature` grows; never at temperature 0.
pub open spec fn accepted(delta: int, temperature: int, draw: int) -> bool {
    if delta <= 0 {
        true
    } else if temperature == 0 {
        false
    } else {
        (draw % (ACCEPT_SCALE as int)) * (temperature + delta) < (ACCEPT_SCALE as int) * temperature
    }
}

/// The acceptance rule of the annealing search.
pub fn accepts(delta: i128, temperature: u64, draw: usize) -> (r: bool)
    requires
        delta <= 2 * PENALTY_CEILING,
    ensures
        r == accepted(delta as int, temperature as int, draw as int),
{
    if delta <= 0 {
        true
    } else if temperature == 0 {
        false
    } else {
        let d = (draw as u64 % ACCEPT_SCALE) as i128;
        let t = temperature as i128;
        proof {
            assert(d * (t + delta) <= 1_000_000 * (0x1_0000_0000_0000_0000 + 2 * PENALTY_CEILING)) by (nonlinear_arith)
                requires 0 <= d < 1_000_000, 0 <= t <= 0xffff_ffff_ffff_ffff, 0 < delta <= 2 * PENALTY_CEILING;
            assert(1_000_000 * t <= 1_000_000 * 0xffff_ffff_ffff_ffff) by (nonlinear_arith)
                requires 0 <= t <= 0xffff_ffff_ffff_ffff;
        }
        d * (t + delta) < (ACCEPT_SCALE as i128) * t
    }
}

/// The temperature after one more iteration.
pub fn cool(temperature: u64, decay_permille: u64) -> (r: u64)
    requires
        decay_permille <= 1000,
    ensures
        r == temperature * decay_permille / 1000,
        r <= temperature,
{
    proof {
        assert(temperature * decay_permille <= temperature * 1000) by (nonlinear_arith)
            requires decay_permille <= 1000;
    }
    ((temperature as u128) * (decay_permille as u128) / 1000) as u64
}

/// Where an annealing run stands: the current layout's layers and score,
/// the kept results, and the temperature.
pub struct AnnealView {
    pub lower: Seq<char>,
    pub upper: Seq<char>,
    pub penalty: int,
    pub results: Seq<(Seq<char>, Seq<char>, int)>,
    pub temperature: int,
}

/// Draws one iteration takes: one for the number of swaps, two per swap
/// (up to `swaps`), one for the acceptance test.
pub open spec fn stride(swaps: int) -> int {
    2 * swaps + 2
}

/// The swaps of one iteration, picked from its draws `d`.
pub open spec fn iteration_swaps(d: Seq<usize>, swaps: int) -> Seq<(int, int)> {
    Seq::new(
        (1 + d[0] as int % swaps) as nat,
        |t: int| swap_pair_of(d[1 + 2 * t] as int, d[2 + 2 * t] as int),
    )
}

/// One iteration from `s` with its draws `d`: the candidate is offered to
/// the results, and becomes current when `accepted`; the temperature cools.
pub open spec fn step_v(
    q: QuartadList,
    w: Weights,
    swaps: int,
    decay: int,
    cap: int,
    s: AnnealView,
    d: Seq<usize>,
) -> AnnealView {
    let ps = iteration_swaps(d, swaps);
    let lo = apply_swaps(s.lower, ps);
    let up = apply_swaps(s.upper, ps);
    let p = penalty_of(q, lo, up, w);
    let results = insert_v(s.results, (lo, up, p), cap);
    let t = s.temperature * decay / 1000;
    if accepted(p - s.penalty, s.temperature, d[2 * swaps + 1] as int) {
        AnnealView { lower: lo, upper: up, penalty: p, results, temperature: t }
    } else {
        AnnealView { lower: s.lower, upper: s.upper, penalty: s.penalty, results, temperature: t }
    }
}

/// The run from `s` over at most `k` more iterations, each taking the next
/// `stride(swaps)` draws of `d`, while draws last. Once the temperature is
/// 0 nothing changes.
pub open spec fn anneal_v(
    q: QuartadList,
    w: Weights,
    swaps: int,
    decay: int,
    cap: int,
    s: AnnealView,
    d: Seq<usize>,
    k: int,
) -> AnnealView
    decreases k,
{
    if k <= 0 || d.len() < stride(swaps) {
        s
    } else {
        let next = if s.temperature == 0 {
            s
        } else {
            step_v(q, w, swaps, decay, cap, s, d.take(stride(swaps)))
        };
        anneal_v(q, w, swaps, decay, cap, next, d.skip(stride(swaps)), k - 1)
    }
}

/// Where a run from `l` starts.
pub open spec fn start_v(q: QuartadList, w: Weights, l: Layout, cap: int, temperature: int) -> AnnealView {
    let p = penalty_of(q, l.lower(), l.upper(), w);
    AnnealView {
        lower: l.lower(),
        upper: l.upper(),
        penalty: p,
        results: insert_v(Seq::empty(), (l.lower(), l.upper(), p), cap),
        temperature,
    }
}

/// The results of annealing `l` with the draws `d`.
pub open spec fn anneal_results(
    q: QuartadList,
    w: Weights,
    l: Layout,
    top: int,
    swaps: int,
    schedule: Schedule,
    d: Seq<usize>,
) -> Seq<(Seq<char>, Seq<char>, int)> {
    anneal_v(
        q,
        w,
        swaps,
        schedule.decay_permille as int,
        top,
        start_v(q, w, l, top, schedule.initial_temperature as int),
        d,
        schedule.iterations as int,
    ).results
}

/// Every result of a run is the start layout after some valid swaps of
/// both layers.
pub open spec fn results_from(l: Layout, r: Seq<(Seq<char>, Seq<char>, int)>) -> bool {
    forall|k: int|
        0 <= k < r.len() ==> exists|ps: Seq<(int, int)>|
            valid_swaps(ps) && (#[trigger] r[k]).0 == apply_swaps(l.lower(), ps) && r[k].1 == apply_swaps(
                l.upper(),
                ps,
            )
}

pub open spec fn state_view(current: Scored, results: Seq<Scored>, temperature: u64) -> AnnealView {
    AnnealView {
        lower: current.layout.lower(),
        upper: current.layout.upper(),
        penalty: current.penalty as int,
        results: views(results),
        temperature: temperature as int,
    }
}

/// One iteration at a positive temperature, on the draws from `off` on.
fn anneal_step(
    quartads: &QuartadList,
    weights: &Weights,
    swaps: usize,
    decay_permille: u64,
    current: &mut Scored,
    results: &mut ResultSet,
    temperature: &mut u64,
    draws: &Vec<usize>,
    off: usize,
    start: Ghost<i128>,
)
    requires
        scorable(*quartads),
        1 <= swaps < usize::MAX / 4,
        decay_permille <= 1000,
        off + stride(swaps as int) <= draws@.len(),
        *old(temperature) > 0,
        old(results).wf(),
        all_scored_right(*quartads, *weights, old(results).entries@),
        old(results).capacity >= 1 ==> old(results).entries@.len() >= 1 && old(results).entries@[0].penalty <= start@,
        scored_right(*quartads, *weights, *old(current)),
        PENALTY_FLOOR <= old(current).penalty <= PENALTY_CEILING,
    ensures
        state_view(*final(current), final(results).entries@, *final(temperature)) == step_v(
            *quartads,
            *weights,
            swaps as int,
            decay_permille as int,
            old(results).capacity as int,
            state_view(*old(current), old(results).entries@, *old(temperature)),
            draws@.subrange(off as int, off + stride(swaps as int)),
        ),
        final(results).wf(),
        final(results).capacity == old(results).capacity,
        all_scored_right(*quartads, *weights, final(results).entries@),
        final(results).capacity >= 1 ==> final(results).entries@.len() >= 1 && final(results).entries@[0].penalty
            <= start@,
        scored_right(*quartads, *weights, *final(current)),
        PENALTY_FLOOR <= final(current).penalty <= PENALTY_CEILING,
{
    let ghost q = *quartads;
    let ghost w = *weights;
    let ghost sw = swaps as int;
    let ghost d = draws@.subrange(off as int, off + stride(sw));
    let ghost ps = iteration_swaps(d, sw);
    let len = draws.len();
    let mut candidate = current.layout;
    let n = 1 + draws[off] % swaps;
    let mut k: usize = 0;
    while k < n
        invariant
            d == draws@.subrange(off as int, off + stride(sw)),
            off + stride(sw) <= len,
            len == draws@.len(),
            sw == swaps,
            ps == iteration_swaps(d, sw),
            n == ps.len(),
            n <= swaps,
            1 <= swaps < usize::MAX / 4,
            k <= n,
            candidate.lower() == apply_swaps(current.layout.lower(), ps.take(k as int)),
            candidate.upper() == apply_swaps(current.layout.upper(), ps.take(k as int)),
        decreases n - k,
    {
        assert(d[1 + 2 * k] == draws@[off + 1 + 2 * k]);
        assert(d[2 + 2 * k] == draws@[off + 2 + 2 * k]);
        let (i, j) = Layout::shuffle_position_from(draws[off + 1 + 2 * k], draws[off + 2 + 2 * k]);
        candidate.swap(i, j);
        assert(ps.take(k + 1).drop_last() =~= ps.take(k as int));
        k += 1;
    }
    assert(ps.take(n as int) =~= ps);
    let p = calculate_penalty(quartads, &candidate, weights, false).total;
    let ghost before = results.entries@;
    let x = Scored { layout: candidate, penalty: p };
    results.insert(x);
    proof {
        insert_keeps(q, w, before, x, results.entries@, results.capacity, start@);
    }
    assert(d[2 * sw + 1] == draws@[off + 2 * swaps + 1]);
    let draw = draws[off + 2 * swaps + 1];
    if accepts(p - current.penalty, *temperature, draw) {
        *current = x;
    }
    *temperature = cool(*temperature, decay_permille);
}

/// Runs the annealing search from `layout` on the given draws, so that the
/// outcome is a function of them: each iteration takes the next
/// `2 * swaps + 2` draws, as `step_v` says.
pub fn anneal(
    quartads: &QuartadList,
    layout: &Layout,
    weights: &Weights,
    top: usize,
    swaps: usize,
    schedule: &Schedule,
    draws: &Vec<usize>,
) -> (r: ResultSet)
    requires
        scorable(*quartads),
        1 <= swaps < usize::MAX / 4,
        schedule.decay_permille <= 1000,
    ensures
        r.wf(),
        r.capacity == top,
        views(r.entries@) == anneal_results(*quartads, *weights, *layout, top as int, swaps as int, *schedule, draws@),
        results_from(*layout, views(r.entries@)),
        all_scored_right(*quartads, *weights, r.entries@),
        top >= 1 ==> r.entries@.len() >= 1 && r.entries@[0].penalty <= penalty_of(
            *quartads,
            layout.lower(),
            layout.upper(),
            *weights,
        ),
{
    let ghost q = *quartads;
    let ghost w = *weights;
    let ghost sw = swaps as int;
    let ghost decay = schedule.decay_permille as int;
    let ghost cap = top as int;
    let ghost goal = anneal_v(
        q, w, sw, decay, cap,
        start_v(q, w, *layout, cap, schedule.initial_temperature as int),
        draws@,
        schedule.iterations as int,
    );
    let stride_n = 2 * swaps + 2;
    let len = draws.len();
    let mut results = ResultSet::new(top);
    let start = calculate_penalty(quartads, layout, weights, false).total;
    let mut current = Scored { layout: *layout, penalty: start };
    proof {
        assert(views(results.entries@) =~= Seq::empty());
    }
    results.insert(current);
    let mut temperature = schedule.initial_temperature;
    let mut it: u64 = 0;
    let mut off: usize = 0;
    proof {
        assert(draws@.subrange(0, len as int) =~= draws@);
    }
    while it < schedule.iterations && len - off >= stride_n
        invariant
            q == *quartads,
            w == *weights,
            sw == swaps,
            decay == schedule.decay_permille,
            cap == top,
            stride_n == stride(sw),
            1 <= swaps < usize::MAX / 4,
            scorable(q),
            schedule.decay_permille <= 1000,
            len == draws@.len(),
            off <= len,
            it <= schedule.iterations,
            results.wf(),
            results.capacity == top,
            all_scored_right(q, w, results.entries@),
            top >= 1 ==> results.entries@.len() >= 1 && results.entries@[0].penalty <= start,
            scored_right(q, w, current),
            PENALTY_FLOOR <= current.penalty <= PENALTY_CEILING,
            start == penalty_of(q, layout.lower(), layout.upper(), w),
            goal == anneal_v(
                q, w, sw, decay, cap,
                state_view(current, results.entries@, temperature),
                draws@.subrange(off as int, len as int),
                schedule.iterations - it,
            ),
        decreases schedule.iterations - it,
    {
        let ghost d_all = draws@.subrange(off as int, len as int);
        proof {
            assert(d_all.take(stride(sw)) =~= draws@.subrange(off as int, off + stride(sw)));
        }
        if temperature > 0 {
            anneal_step(quartads, weights, swaps, schedule.decay_permille, &mut current, &mut results, &mut temperature, draws, off, Ghost(start));
        }
        proof {
            assert(d_all.skip(stride(sw)) =~= draws@.subrange(off + stride(sw), len as int));
        }
        off = off + stride_n;
        it += 1;
    }
    proof {
        anneal_results_rearrange(q, w, *layout, cap, sw, *schedule, draws@);
    }
    results
}

/// Anneals `layout` with draws from a generator seeded with `seed`: the
/// draws are taken first, then `anneal` runs on them.
pub fn simulate(
    quartads: &QuartadList,
    layout: &Layout,
    weights: &Weights,
    top: usize,
    swaps: usize,
    schedule: &Schedule,
    seed: u64,
) -> (r: ResultSet)
    requires
        scorable(*quartads),
        1 <= swaps < usize::MAX / 4,
        schedule.decay_permille <= 1000,
    ensures
        r.wf(),
        r.capacity == top,
        exists|d: Seq<usize>|
            views(r.entries@) == anneal_results(*quartads, *weights, *layout, top as int, swaps as int, *schedule, d),
        results_from(*layout, views(r.entries@)),
        all_scored_right(*quartads, *weights, r.entries@),
        top >= 1 ==> r.entries@.len() >= 1 && r.entries@[0].penalty <= penalty_of(
            *quartads,
            layout.lower(),
            layout.upper(),
            *weights,
        ),
{
    let mut rng = seeded_rng(seed);
    let stride_n = 2 * swaps + 2;
    let mut draws: Vec<usize> = Vec::new();
    let mut it: u64 = 0;
    while it < schedule.iterations
        decreases schedule.iterations - it,
    {
        let mut k: usize = 0;
        while k < stride_n
            decreases stride_n - k,
        {
            draws.push(next_draw(&mut rng));
            k += 1;
        }
        it += 1;
    }
    anneal(quartads, layout, weights, top, swaps, schedule, &draws)
}

/// The result of `anneal` is a function of its arguments: two result sets
/// that meet its contract on the same quartads, layout, weights, sizes,
/// schedule and draws hold the same layouts with the same scores, in order.
pub proof fn anneal_is_reproducible(
    r1: Seq<Scored>,
    r2: Seq<Scored>,
    q: QuartadList,
    w: Weights,
    l: Layout,
    top: int,
    swaps: int,
    schedule: Schedule,
    d: Seq<usize>,
)
    requires
        views(r1) == anneal_results(q, w, l, top, swaps, schedule, d),
        views(r2) == anneal_results(q, w, l, top, swaps, schedule, d),
    ensures
        views(r1) == views(r2),
{
}

proof fn swaps_compose(s: Seq<char>, a: Seq<(int, int)>, b: Seq<(int, int)>)
    ensures
        apply_swaps(s, a + b) == apply_swaps(apply_swaps(s, a), b),
    decreases b.len(),
{
    if b.len() > 0 {
        assert((a + b).drop_last() =~= a + b.drop_last());
        assert((a + b).last() == b.last());
        swaps_compose(s, a, b.drop_last());
    } else {
        assert(a + b =~= a);
    }
}

proof fn count_le_v_bounds(s: Seq<(Seq<char>, Seq<char>, int)>, p: int)
    ensures
        0 <= count_le_v(s, p) <= s.len(),
    decreases s.len(),
{
    if s.len() > 0 {
        count_le_v_bounds(s.drop_last(), p);
    }
}

/// `v` is the start layout `l` after some valid swaps, and so is every result.
pub open spec fn reached_from(l: Layout, v: AnnealView) -> bool {
    &&& exists|ps: Seq<(int, int)>|
        valid_swaps(ps) && v.lower == apply_swaps(l.lower(), ps) && v.upper == apply_swaps(l.upper(), ps)
    &&& results_from(l, v.results)
}

proof fn step_reaches(
    q: QuartadList,
    w: Weights,
    swaps: int,
    decay: int,
    cap: int,
    l: Layout,
    s: AnnealView,
    d: Seq<usize>,
)
    requires
        swaps >= 1,
        cap >= 0,
        d.len() == stride(swaps),
        reached_from(l, s),
    ensures
        reached_from(l, step_v(q, w, swaps, decay, cap, s, d)),
{
    let ps = choose|ps: Seq<(int, int)>|
        valid_swaps(ps) && s.lower == apply_swaps(l.lower(), ps) && s.upper == apply_swaps(l.upper(), ps);
    let ips = iteration_swaps(d, swaps);
    assert(valid_swaps(ips)) by {
        assert forall|t: int| 0 <= t < ips.len() implies #[trigger] ips[t].0 != ips[t].1 && 0 <= ips[t].0 < 30
            && 0 <= ips[t].1 < 30 && ips[t].0 != PINNED_SLOT && ips[t].1 != PINNED_SLOT by {
            let a = d[1 + 2 * t] as int;
            let b = d[2 + 2 * t] as int;
            assert(ips[t] == swap_pair_of(a, b));
        }
    }
    let all = ps + ips;
    assert(valid_swaps(all)) by {
        assert forall|t: int| 0 <= t < all.len() implies #[trigger] all[t].0 != all[t].1 && 0 <= all[t].0 < 30
            && 0 <= all[t].1 < 30 && all[t].0 != PINNED_SLOT && all[t].1 != PINNED_SLOT by {
            if t < ps.len() {
                assert(all[t] == ps[t]);
            } else {
                assert(all[t] == ips[t - ps.len()]);
            }
        }
    }
    swaps_compose(l.lower(), ps, ips);
    swaps_compose(l.upper(), ps, ips);
    let lo = apply_swaps(s.lower, ips);
    let up = apply_swaps(s.upper, ips);
    let p = penalty_of(q, lo, up, w);
    let x = (lo, up, p);
    let r = insert_v(s.results, x, cap);
    let pos = count_le_v(s.results, p);
    count_le_v_bounds(s.results, p);
    let ins = s.results.insert(pos, x);
    assert(ins.len() == s.results.len() + 1);
    assert(r.len() <= ins.len());
    assert forall|k: int| 0 <= k < r.len() implies exists|qs: Seq<(int, int)>|
        valid_swaps(qs) && (#[trigger] r[k]).0 == apply_swaps(l.lower(), qs) && r[k].1 == apply_swaps(
            l.upper(),
            qs,
        ) by {
        assert(r[k] == ins[k]);
        if k < pos {
            assert(ins[k] == s.results[k]);
        } else if k == pos {
            assert(ins[k] == x);
        } else {
            assert(ins[k] == s.results[k - 1]);
        }
    }
}

proof fn anneal_reaches(
    q: QuartadList,
    w: Weights,
    swaps: int,
    decay: int,
    cap: int,
    l: Layout,
    s: AnnealView,
    d: Seq<usize>,
    k: int,
)
    requires
        swaps >= 1,
        cap >= 0,
        reached_from(l, s),
    ensures
        reached_from(l, anneal_v(q, w, swaps, decay, cap, s, d, k)),
    decreases k,
{
    if k > 0 && d.len() >= stride(swaps) {
        if s.temperature != 0 {
            step_reaches(q, w, swaps, decay, cap, l, s, d.take(stride(swaps)));
        }
        let next = if s.temperature == 0 {
            s
        } else {
            step_v(q, w, swaps, decay, cap, s, d.take(stride(swaps)))
        };
        anneal_reaches(q, w, swaps, decay, cap, l, next, d.skip(stride(swaps)), k - 1);
    }
}

/// Every layout that annealing keeps is the start layout after some valid
/// swaps of both layers, whatever the draws.
pub proof fn anneal_results_rearrange(
    q: QuartadList,
    w: Weights,
    l: Layout,
    top: int,
    swaps: int,
    schedule: Schedule,
    d: Seq<usize>,
)
    requires
        swaps >= 1,
        top >= 0,
    ensures
        results_from(l, anneal_results(q, w, l, top, swaps, schedule, d)),
{
    let s = start_v(q, w, l, top, schedule.initial_temperature as int);
    let e: Seq<(int, int)> = Seq::empty();
    assert(valid_swaps(e));
    assert(s.lower == apply_swaps(l.lower(), e));
    let x = (l.lower(), l.upper(), s.penalty);
    let r = s.results;
    let ins = Seq::<(Seq<char>, Seq<char>, int)>::empty().insert(0, x);
    assert(count_le_v(Seq::<(Seq<char>, Seq<char>, int)>::empty(), s.penalty) == 0);
    assert(ins.len() == 1);
    assert(r == ins.take(if 0 < top { 1int } else { top }));
    assert forall|k: int| 0 <= k < r.len() implies exists|qs: Seq<(int, int)>|
        valid_swaps(qs) && (#[trigger] r[k]).0 == apply_swaps(l.lower(), qs) && r[k].1 == apply_swaps(
            l.upper(),
            qs,
        ) by {
        assert(r[k] == ins[k]);
        assert(r[k] == x);
        assert(r[k].0 == apply_swaps(l.lower(), e));
        assert(r[k].1 == apply_swaps(l.upper(), e));
    }
    anneal_reaches(
        q, w, swaps, schedule.decay_permille as int, top, l, s, d, schedule.iterations as int,
    );
}

proof fn insert_keeps(q: QuartadList, w: Weights, before: Seq<Scored>, x: Scored, after: Seq<Scored>, top: usize, start: i128)
    requires
        sorted(before),
        all_scored_right(q, w, before),
        scored_right(q, w, x),
        before.len() <= top,
        top >= 1 ==> before.len() >= 1 && before[0].penalty <= start,
        after == before.insert(crate::search::count_le(before, x.penalty), x).take(
            if before.len() < top { before.len() + 1int } else { top as int },
        ),
    ensures
        all_scored_right(q, w, after),
        top >= 1 ==> after.len() >= 1 && after[0].penalty <= start,
{
    crate::search::count_le_splits(before, x.penalty);
    let pos = crate::search::count_le(before, x.penalty);
    let ins = before.insert(pos, x);
    assert forall|k: int| 0 <= k < after.len() implies scored_right(q, w, #[trigger] after[k]) by {
        assert(after[k] == ins[k]);
        if k < pos {
            assert(ins[k] == before[k]);
        } else if k > pos {
            assert(ins[k] == before[k - 1]);
        }
    }
    if top >= 1 {
        assert(after[0] == ins[0]);
        if pos == 0 {
            if before.len() >= 1 {
                assert(!(before[0].penalty <= x.penalty));
            }
        } else {
            assert(ins[0] == before[0]);
        }
    }
}

} // verus!
