use vstd::prelude::*;

use crate::layout::Layout;
use crate::penalty::{calculate_penalty, penalty_of, scorable, Weights, PENALTY_FLOOR};
use crate::permutations::{
    combo_less, combo_order_total, first_combo, first_combo_is_least, neighbour_layers, valid_combo,
    LayoutPermutations,
};
use crate::quartads::QuartadList;

verus! {

/// A layout with its score.
#[derive(Clone, Copy)]
pub struct Scored {
    pub layout: Layout,
    pub penalty: i128,
}

/// The best `capacity` layouts seen so far, lowest penalty first.
pub struct ResultSet {
    pub entries: Vec<Scored>,
    pub capacity: usize,
}

pub open spec fn sorted(s: Seq<Scored>) -> bool {
    forall|a: int, b: int| 0 <= a < b < s.len() ==> #[trigger] s[a].penalty <= #[trigger] s[b].penalty
}

/// The number of entries of `s` whose penalty is at most `p`.
pub open spec fn count_le(s: Seq<Scored>, p: i128) -> int
    decreases s.len(),
{
    if s.len() == 0 {
        0
    } else {
        count_le(s.drop_last(), p) + if s.last().penalty <= p { 1int } else { 0 }
    }
}

/// What a scored layout holds: its two layers and its score.
pub open spec fn view_of(s: Scored) -> (Seq<char>, Seq<char>, int) {
    (s.layout.lower(), s.layout.upper(), s.penalty as int)
}

pub open spec fn views(s: Seq<Scored>) -> Seq<(Seq<char>, Seq<char>, int)> {
    s.map_values(|x: Scored| view_of(x))
}

/// The number of entries of `s` whose score is at most `p`.
pub open spec fn count_le_v(s: Seq<(Seq<char>, Seq<char>, int)>, p: int) -> int
    decreases s.len(),
{
    if s.len() == 0 {
        0
    } else {
        count_le_v(s.drop_last(), p) + if s.last().2 <= p { 1int } else { 0 }
    }
}

/// A result list of capacity `cap` after offering it `x`.
pub open spec fn insert_v(s: Seq<(Seq<char>, Seq<char>, int)>, x: (Seq<char>, Seq<char>, int), cap: int) -> Seq<
    (Seq<char>, Seq<char>, int),
> {
    s.insert(count_le_v(s, x.2), x).take(if s.len() < cap { s.len() + 1int } else { cap })
}

proof fn count_le_views(s: Seq<Scored>, p: i128)
    ensures
        count_le(s, p) == count_le_v(views(s), p as int),
    decreases s.len(),
{
    if s.len() > 0 {
        assert(views(s).drop_last() =~= views(s.drop_last()));
        count_le_views(s.drop_last(), p);
    }
}

/// The score of `l` after the swaps of combination `c`.
pub open spec fn neighbour_penalty(q: QuartadList, w: Weights, l: Layout, c: Seq<usize>) -> int {
    penalty_of(q, neighbour_layers(l, c).0, neighbour_layers(l, c).1, w)
}

/// No neighbour of `l` whose combination (of the size of `idx`) comes no
/// later than `idx` scores below `best`.
pub open spec fn optimal_upto(q: QuartadList, w: Weights, l: Layout, idx: Seq<usize>, best: int) -> bool {
    forall|c: Seq<usize>|
        c.len() == idx.len() && valid_combo(c) && !combo_less(idx, c) ==> #[trigger] neighbour_penalty(
            q,
            w,
            l,
            c,
        ) >= best
}

/// No neighbour of `l` by `depth` disjoint swaps scores below `best`.
pub open spec fn optimal_at(q: QuartadList, w: Weights, l: Layout, depth: int, best: int) -> bool {
    forall|c: Seq<usize>|
        c.len() == 2 * depth && valid_combo(c) ==> #[trigger] neighbour_penalty(q, w, l, c) >= best
}

pub open spec fn all_scored_right(q: QuartadList, w: Weights, s: Seq<Scored>) -> bool {
    forall|k: int| 0 <= k < s.len() ==> scored_right(q, w, #[trigger] s[k])
}

/// `r` is `l` itself, or `l` after the swaps of a combination of `2 * depth` positions.
pub open spec fn start_or_neighbour(l: Layout, r: Layout, depth: int) -> bool {
    r == l || exists|c: Seq<usize>|
        c.len() == 2 * depth && valid_combo(c) && #[trigger] neighbour_layers(l, c) == (r.lower(), r.upper())
}

/// `l` has no neighbour within `max_depth` swaps that scores below `p`.
pub open spec fn locally_optimal(q: QuartadList, w: Weights, l: Layout, max_depth: int, p: int) -> bool {
    forall|d: int| 1 <= d <= max_depth ==> #[trigger] optimal_at(q, w, l, d, p)
}

proof fn insert_scored(q: QuartadList, w: Weights, before: Seq<Scored>, x: Scored, after: Seq<Scored>, cap: int)
    requires
        sorted(before),
        all_scored_right(q, w, before),
        scored_right(q, w, x),
        cap >= 0,
        after == before.insert(count_le(before, x.penalty), x).take(
            if before.len() < cap { before.len() + 1int } else { cap },
        ),
    ensures
        all_scored_right(q, w, after),
{
    count_le_splits(before, x.penalty);
    let pos = count_le(before, x.penalty);
    let ins = before.insert(pos, x);
    assert forall|k: int| 0 <= k < after.len() implies scored_right(q, w, #[trigger] after[k]) by {
        assert(after[k] == ins[k]);
        if k < pos {
            assert(ins[k] == before[k]);
        } else if k > pos {
            assert(ins[k] == before[k - 1]);
        }
    }
}

/// `s` holds the true score of its layout.
pub open spec fn scored_right(q: QuartadList, w: Weights, s: Scored) -> bool {
    s.penalty == penalty_of(q, s.layout.lower(), s.layout.upper(), w)
}

pub(crate) proof fn count_le_splits(s: Seq<Scored>, p: i128)
    requires
        sorted(s),
    ensures
        0 <= count_le(s, p) <= s.len(),
        forall|k: int| 0 <= k < s.len() ==> (k < count_le(s, p) <==> #[trigger] s[k].penalty <= p),
    decreases s.len(),
{
    if s.len() > 0 {
        let t = s.drop_last();
        count_le_splits(t, p);
        assert forall|k: int| 0 <= k < s.len() implies (k < count_le(s, p) <==> #[trigger] s[k].penalty <= p) by {
            if k < s.len() - 1 {
                assert(s[k] == t[k]);
                if s.last().penalty <= p {
                    assert(s[k].penalty <= s[s.len() - 1].penalty);
                }
            }
        }
    }
}

impl ResultSet {
    pub open spec fn wf(&self) -> bool {
        sorted(self.entries@) && self.entries@.len() <= self.capacity
    }

    /// An empty set that keeps at most `capacity` layouts.
    pub fn new(capacity: usize) -> (r: ResultSet)
        ensures
            r.wf(),
            r.capacity == capacity,
            r.entries@.len() == 0,
    {
        ResultSet { entries: Vec::new(), capacity }
    }

    /// Puts `x` after every entry that scores no worse, and drops the last
    /// entry if that leaves more than `capacity`.
    pub fn insert(&mut self, x: Scored)
        requires
            old(self).wf(),
        ensures
            final(self).wf(),
            final(self).capacity == old(self).capacity,
            final(self).entries@ == old(self).entries@.insert(count_le(old(self).entries@, x.penalty), x).take(
                if old(self).entries@.len() < old(self).capacity {
                    old(self).entries@.len() + 1int
                } else {
                    old(self).capacity as int
                },
            ),
            views(final(self).entries@) == insert_v(views(old(self).entries@), view_of(x), old(self).capacity as int),
    {
        let ghost s = self.entries@;
        let mut pos: usize = 0;
        let mut k: usize = 0;
        proof {
            count_le_splits(s, x.penalty);
        }
        while k < self.entries.len()
            invariant
                self.entries@ == s,
                sorted(s),
                k <= s.len(),
                pos == count_le(s.take(k as int), x.penalty),
                pos <= k,
            decreases s.len() - k,
        {
            assert(s.take(k + 1).drop_last() =~= s.take(k as int));
            if self.entries[k].penalty <= x.penalty {
                pos += 1;
            }
            k += 1;
        }
        assert(s.take(s.len() as int) =~= s);
        self.entries.insert(pos, x);
        let ghost t = self.entries@;
        assert forall|a: int, b: int| 0 <= a < b < t.len() implies #[trigger] t[a].penalty <= #[trigger] t[b].penalty by {
            if a < pos && b < pos {
                assert(t[a] == s[a] && t[b] == s[b]);
            } else if a < pos && b == pos {
                assert(t[a] == s[a]);
            } else if a < pos {
                assert(t[a] == s[a] && t[b] == s[b - 1]);
            } else if a == pos {
                assert(t[b] == s[b - 1]);
            } else {
                assert(t[a] == s[a - 1] && t[b] == s[b - 1]);
            }
        }
        if self.entries.len() > self.capacity {
            self.entries.truncate(self.capacity);
        }
        assert(self.entries@ =~= t.take(
            if s.len() < self.capacity { s.len() + 1int } else { self.capacity as int },
        ));
        proof {
            count_le_views(s, x.penalty);
            assert(views(self.entries@) =~= insert_v(views(s), view_of(x), self.capacity as int));
        }
    }
}

proof fn step_keeps_optimal(
    q: QuartadList,
    w: Weights,
    l: Layout,
    before: Seq<usize>,
    now: Seq<usize>,
    was_started: bool,
    old_best: int,
    p: int,
    best: int,
)
    requires
        now.len() == before.len(),
        valid_combo(now),
        was_started ==> crate::permutations::is_next_combo(before, now),
        was_started ==> optimal_upto(q, w, l, before, old_best),
        !was_started ==> now == first_combo(now.len() as int),
        now.len() <= 29,
        p == neighbour_penalty(q, w, l, now),
        best <= old_best,
        best <= p,
    ensures
        optimal_upto(q, w, l, now, best),
{
    let m = now.len() as int;
    first_combo_is_least(m);
    assert forall|c: Seq<usize>|
        c.len() == now.len() && valid_combo(c) && !combo_less(now, c) implies #[trigger] neighbour_penalty(
        q,
        w,
        l,
        c,
    ) >= best by {
        combo_order_total(c, now);
        if was_started && !combo_less(before, c) {
        } else if was_started {
            assert(!combo_less(c, now));
        }
    }
}

proof fn last_keeps_optimal(q: QuartadList, w: Weights, l: Layout, last: Seq<usize>, depth: int, best: int)
    requires
        last.len() == 2 * depth,
        crate::permutations::is_last_combo(last),
        optimal_upto(q, w, l, last, best),
    ensures
        optimal_at(q, w, l, depth, best),
{
    assert forall|c: Seq<usize>| c.len() == 2 * depth && valid_combo(c) implies #[trigger] neighbour_penalty(
        q,
        w,
        l,
        c,
    ) >= best by {
        assert(!combo_less(last, c));
    }
}

/// Scores every neighbour of `layout` by `depth` disjoint swaps, offers each
/// to `results`, and returns the best of `layout` and its neighbours.
pub fn refine_step(
    quartads: &QuartadList,
    layout: &Layout,
    weights: &Weights,
    depth: usize,
    results: &mut ResultSet,
) -> (r: Scored)
    requires
        scorable(*quartads),
        old(results).wf(),
        all_scored_right(*quartads, *weights, old(results).entries@),
        1 <= depth <= 14,
    ensures
        final(results).wf(),
        final(results).capacity == old(results).capacity,
        all_scored_right(*quartads, *weights, final(results).entries@),
        scored_right(*quartads, *weights, r),
        start_or_neighbour(*layout, r.layout, depth as int),
        PENALTY_FLOOR <= r.penalty <= penalty_of(*quartads, layout.lower(), layout.upper(), *weights),
        optimal_at(*quartads, *weights, *layout, depth as int, r.penalty as int),
{
    let ghost q = *quartads;
    let ghost w = *weights;
    let ghost m = 2 * depth as int;
    let start = calculate_penalty(quartads, layout, weights, false).total;
    let mut best = Scored { layout: *layout, penalty: start };
    let mut perms = LayoutPermutations::new(layout, depth);
    let mut done = false;
    while !done
        invariant
            q == *quartads,
            w == *weights,
            m == 2 * depth,
            1 <= depth <= 14,
            scorable(q),
            results.wf(),
            results.capacity == old(results).capacity,
            all_scored_right(q, w, results.entries@),
            start_or_neighbour(*layout, best.layout, depth as int),
            perms.wf(),
            perms.orig() == *layout,
            perms.indices().len() == m,
            perms.remaining() >= 0,
            !perms.started() ==> perms.indices() == first_combo(m),
            perms.started() ==> optimal_upto(q, w, *layout, perms.indices(), best.penalty as int),
            done ==> perms.started() && optimal_at(q, w, *layout, depth as int, best.penalty as int),
            scored_right(q, w, best),
            PENALTY_FLOOR <= best.penalty <= start,
            start == penalty_of(q, layout.lower(), layout.upper(), w),
        decreases 2 * perms.remaining() + if done { 0int } else { 1 },
    {
        let ghost before = perms.indices();
        let ghost was_started = perms.started();
        let ghost old_best = best.penalty;
        match perms.next() {
            Some(l) => {
                let p = calculate_penalty(quartads, &l, weights, false).total;
                let ghost before_results = results.entries@;
                results.insert(Scored { layout: l, penalty: p });
                proof {
                    insert_scored(q, w, before_results, Scored { layout: l, penalty: p }, results.entries@, results.capacity as int);
                    assert(neighbour_layers(*layout, perms.indices()) == (l.lower(), l.upper()));
                }
                if p < best.penalty {
                    best = Scored { layout: l, penalty: p };
                }
                proof {
                    step_keeps_optimal(q, w, *layout, before, perms.indices(), was_started, old_best as int, p as int, best.penalty as int);
                }
            },
            None => {
                done = true;
                proof {
                    last_keeps_optimal(q, w, *layout, before, depth as int, best.penalty as int);
                }
            },
        }
    }
    best
}

/// Improves `layout` by exhaustive local search: at each depth from 1 to
/// `max_depth`, every neighbour is scored and offered to the `top` best; a
/// better neighbour becomes the layout searched from, back at depth 1. The
/// result is a layout that no neighbour within `max_depth` swaps beats.
pub fn refine(quartads: &QuartadList, layout: &Layout, weights: &Weights, top: usize, max_depth: usize) -> (r: (
    Scored,
    ResultSet,
))
    requires
        scorable(*quartads),
        max_depth <= 14,
    ensures
        r.1.wf(),
        r.1.capacity == top,
        all_scored_right(*quartads, *weights, r.1.entries@),
        scored_right(*quartads, *weights, r.0),
        locally_optimal(*quartads, *weights, *layout, max_depth as int, penalty_of(*quartads, layout.lower(), layout.upper(), *weights))
            ==> r.0.layout == *layout && r.0.penalty == penalty_of(*quartads, layout.lower(), layout.upper(), *weights),
        r.0.penalty <= penalty_of(*quartads, layout.lower(), layout.upper(), *weights),
        forall|d: int| 1 <= d <= max_depth ==> #[trigger] optimal_at(*quartads, *weights, r.0.layout, d, r.0.penalty as int),
{
    let ghost q = *quartads;
    let ghost w = *weights;
    let mut results = ResultSet::new(top);
    let start = calculate_penalty(quartads, layout, weights, false).total;
    let mut best = Scored { layout: *layout, penalty: start };
    proof {
        assert(results.entries@.len() == 0);
    }
    results.insert(best);
    let mut depth: usize = 1;
    while depth <= max_depth
        invariant
            q == *quartads,
            w == *weights,
            scorable(q),
            max_depth <= 14,
            1 <= depth <= max_depth + 1,
            results.wf(),
            results.capacity == top,
            all_scored_right(q, w, results.entries@),
            scored_right(q, w, best),
            locally_optimal(q, w, *layout, max_depth as int, start as int) ==> best.layout == *layout && best.penalty == start,
            PENALTY_FLOOR <= best.penalty <= start,
            start == penalty_of(q, layout.lower(), layout.upper(), w),
            forall|d: int| 1 <= d < depth ==> #[trigger] optimal_at(q, w, best.layout, d, best.penalty as int),
        decreases best.penalty - PENALTY_FLOOR, max_depth + 1 - depth,
    {
        let found = refine_step(quartads, &best.layout, weights, depth, &mut results);
        proof {
            if locally_optimal(q, w, *layout, max_depth as int, start as int) && found.layout != best.layout {
                let c = choose|c: Seq<usize>|
                    c.len() == 2 * depth && valid_combo(c) && #[trigger] neighbour_layers(best.layout, c) == (
                        found.layout.lower(),
                        found.layout.upper(),
                    );
                assert(optimal_at(q, w, *layout, depth as int, start as int));
                assert(neighbour_penalty(q, w, *layout, c) >= start);
            }
        }
        if found.penalty < best.penalty {
            best = found;
            depth = 1;
        } else {
            proof {
                assert forall|d: int| 1 <= d < depth + 1 implies #[trigger] optimal_at(
                    q,
                    w,
                    best.layout,
                    d,
                    best.penalty as int,
                ) by {
                    if d == depth {
                        assert(found.penalty >= best.penalty);
                    }
                }
            }
            depth += 1;
        }
    }
    (best, results)
}

} // verus!
