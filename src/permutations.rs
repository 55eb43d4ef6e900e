use vstd::prelude::*;

use crate::layout::{apply_swaps, slot_permutation, swap_slot, swapped, swaps_permute, valid_swaps, Layout, NUM_SWAPPABLE, PINNED_SLOT};

verus! {

/// A set of distinct swappable positions (each below 29), listed in strictly
/// decreasing order, so that position `k` holds at most `28 - k`.
pub open spec fn valid_combo(s: Seq<usize>) -> bool {
    &&& forall|k: int| 0 <= k < s.len() ==> #[trigger] s[k] + k < 29
    &&& forall|k: int| 0 <= k < s.len() - 1 ==> #[trigger] s[k] > s[k + 1]
}

/// The least combination of `m` positions: `m-1, ..., 1, 0`.
pub open spec fn first_combo(m: int) -> Seq<usize> {
    Seq::new(m as nat, |k: int| (m - 1 - k) as usize)
}

/// Order of enumeration: the highest index at which two combinations differ decides.
pub open spec fn combo_less(a: Seq<usize>, b: Seq<usize>) -> bool {
    exists|p: int|
        0 <= p < a.len() && #[trigger] a[p] < b[p] && forall|q: int|
            p < q < a.len() ==> #[trigger] a[q] == b[q]
}

/// Every position holds its largest value, `28 - k`.
pub open spec fn all_at_max(s: Seq<usize>) -> bool {
    forall|k: int| 0 <= k < s.len() ==> #[trigger] s[k] + k == 28
}

/// No valid combination of the same size comes after `a`.
pub open spec fn is_last_combo(a: Seq<usize>) -> bool {
    forall|c: Seq<usize>| c.len() == a.len() && valid_combo(c) ==> !#[trigger] combo_less(a, c)
}

/// `b` is the valid combination that comes right after `a`.
pub open spec fn is_next_combo(a: Seq<usize>, b: Seq<usize>) -> bool {
    &&& b.len() == a.len()
    &&& valid_combo(b)
    &&& combo_less(a, b)
    &&& forall|c: Seq<usize>|
        c.len() == a.len() && valid_combo(c) && #[trigger] combo_less(a, c) ==> !combo_less(c, b)
}

/// `keys` after swapping, for each of the first `n / 2` pairs `(s[2t], s[2t+1])`,
/// the slots of those swappable positions, in order.
pub open spec fn apply_pairs(keys: Seq<char>, s: Seq<usize>, n: int) -> Seq<char>
    decreases n,
{
    if n < 2 {
        keys
    } else {
        swapped(apply_pairs(keys, s, n - 2), swap_slot(s[n - 2] as int), swap_slot(s[n - 1] as int))
    }
}

proof fn descending_gap(c: Seq<usize>, a: int, b: int)
    requires
        valid_combo(c),
        0 <= a <= b < c.len(),
    ensures
        c[a] >= c[b] + (b - a),
    decreases b - a,
{
    if a < b {
        descending_gap(c, a + 1, b);
    }
}

/// The enumeration starts at its least element: `first_combo(m)` is a valid
/// combination and none comes before it.
pub proof fn first_combo_is_least(m: int)
    requires
        0 <= m <= 29,
    ensures
        valid_combo(first_combo(m)),
        forall|c: Seq<usize>| c.len() == m && valid_combo(c) ==> !#[trigger] combo_less(c, first_combo(m)),
{
    let f = first_combo(m);
    assert forall|c: Seq<usize>| c.len() == m && valid_combo(c) implies !#[trigger] combo_less(c, f) by {
        if combo_less(c, f) {
            let w = choose|w: int|
                0 <= w < c.len() && #[trigger] c[w] < f[w] && forall|q: int|
                    w < q < c.len() ==> #[trigger] c[q] == f[q];
            descending_gap(c, w, m - 1);
        }
    }
}

/// Each neighbour differs from the original by exactly the disjoint swaps of
/// its pairs: the two slots of a pair exchange their characters, and a slot
/// outside every pair keeps its own.
pub proof fn neighbour_is_disjoint_swaps(keys: Seq<char>, s: Seq<usize>, n: int)
    requires
        keys.len() == 30,
        valid_combo(s),
        0 <= n <= s.len(),
        n % 2 == 0,
    ensures
        forall|t: int|
            0 <= t < n / 2 ==> #[trigger] apply_pairs(keys, s, n)[swap_slot(s[2 * t] as int)] == keys[swap_slot(
                s[2 * t + 1] as int,
            )] && apply_pairs(keys, s, n)[swap_slot(s[2 * t + 1] as int)] == keys[swap_slot(
                s[2 * t] as int,
            )],
        forall|k: int|
            0 <= k < 30 && (forall|u: int| 0 <= u < n ==> swap_slot(#[trigger] s[u] as int) != k)
                ==> #[trigger] apply_pairs(keys, s, n)[k] == keys[k],
        apply_pairs(keys, s, n).len() == 30,
    decreases n,
{
    if n >= 2 {
        neighbour_is_disjoint_swaps(keys, s, n - 2);
        let prev = apply_pairs(keys, s, n - 2);
        let x = swap_slot(s[n - 2] as int);
        let y = swap_slot(s[n - 1] as int);
        assert(s[n - 2] > s[n - 1]);
        assert(apply_pairs(keys, s, n) == swapped(prev, x, y));
        assert forall|t: int| 0 <= t < n / 2 implies #[trigger] apply_pairs(keys, s, n)[swap_slot(
            s[2 * t] as int,
        )] == keys[swap_slot(s[2 * t + 1] as int)] && apply_pairs(keys, s, n)[swap_slot(
            s[2 * t + 1] as int,
        )] == keys[swap_slot(s[2 * t] as int)] by {
            if t < (n - 2) / 2 {
                descending_gap(s, 2 * t, 2 * t + 1);
                descending_gap(s, 2 * t + 1, n - 2);
                assert(swap_slot(s[2 * t] as int) != x && swap_slot(s[2 * t] as int) != y);
                assert(swap_slot(s[2 * t + 1] as int) != x && swap_slot(s[2 * t + 1] as int) != y);
                assert(prev[swap_slot(s[2 * t] as int)] == keys[swap_slot(s[2 * t + 1] as int)]);
                assert(prev[swap_slot(s[2 * t + 1] as int)] == keys[swap_slot(s[2 * t] as int)]);
            } else {
                assert(2 * t == n - 2);
                assert forall|u: int| 0 <= u < n - 2 implies swap_slot(#[trigger] s[u] as int) != x by {
                    descending_gap(s, u, n - 2);
                }
                assert forall|u: int| 0 <= u < n - 2 implies swap_slot(#[trigger] s[u] as int) != y by {
                    descending_gap(s, u, n - 1);
                }
                assert(prev[x] == keys[x]);
                assert(prev[y] == keys[y]);
                assert(swap_slot(s[2 * t] as int) == x);
                assert(swap_slot(s[2 * t + 1] as int) == y);
            }
        }
        assert forall|k: int|
            0 <= k < 30 && (forall|u: int| 0 <= u < n ==> swap_slot(#[trigger] s[u] as int) != k) implies #[trigger] apply_pairs(
            keys,
            s,
            n,
        )[k] == keys[k] by {
            assert(swap_slot(s[n - 2] as int) != k);
            assert(swap_slot(s[n - 1] as int) != k);
        }
    }
}

pub open spec fn pow29(n: nat) -> int
    decreases n,
{
    if n == 0 { 1 } else { 29 * pow29((n - 1) as nat) }
}

/// The combination read as a number in base 29, `s[k]` being digit `k`.
pub open spec fn rank(s: Seq<usize>, n: int) -> int
    decreases n,
{
    if n <= 0 { 0 } else { rank(s, n - 1) + s[n - 1] * pow29((n - 1) as nat) }
}

proof fn pow29_positive(n: nat)
    ensures
        pow29(n) >= 1,
    decreases n,
{
    if n > 0 {
        pow29_positive((n - 1) as nat);
    }
}

proof fn rank_bounds(s: Seq<usize>, n: int)
    requires
        0 <= n <= s.len(),
        forall|k: int| 0 <= k < s.len() ==> #[trigger] s[k] < 29,
    ensures
        0 <= rank(s, n) < pow29(n as nat),
    decreases n,
{
    if n > 0 {
        rank_bounds(s, n - 1);
        pow29_positive((n - 1) as nat);
        let p = pow29((n - 1) as nat);
        let d = s[n - 1] as int;
        let r = rank(s, n - 1);
        assert(0 <= d * p <= 28 * p) by (nonlinear_arith)
            requires 0 <= d <= 28, p >= 1;
    }
}

proof fn rank_monotone(a: Seq<usize>, b: Seq<usize>, p: int, n: int)
    requires
        a.len() == b.len(),
        0 <= p < n <= a.len(),
        forall|k: int| 0 <= k < a.len() ==> #[trigger] a[k] < 29,
        a[p] < b[p],
        forall|q: int| p < q < a.len() ==> #[trigger] a[q] == b[q],
    ensures
        rank(a, n) < rank(b, n),
    decreases n,
{
    if n == p + 1 {
        rank_bounds(a, p);
        pow29_positive(p as nat);
        let w = pow29(p as nat);
        let x = a[p] as int;
        let y = b[p] as int;
        assert(b.len() == a.len());
        assert(rank(b, p) >= 0) by {
            rank_nonneg(b, p);
        }
        assert(x * w + w <= y * w) by (nonlinear_arith)
            requires x + 1 <= y, w >= 1;
        assert(rank(a, p + 1) == rank(a, p) + x * w);
        assert(rank(b, p + 1) == rank(b, p) + y * w);
    } else {
        rank_monotone(a, b, p, n - 1);
        assert(a[n - 1] == b[n - 1]);
        assert(rank(a, n) - rank(a, n - 1) == rank(b, n) - rank(b, n - 1));
    }
}

proof fn rank_nonneg(s: Seq<usize>, n: int)
    ensures
        rank(s, n) >= 0,
    decreases n,
{
    if n > 0 {
        rank_nonneg(s, n - 1);
        pow29_positive((n - 1) as nat);
        let d = s[n - 1] as int;
        let w = pow29((n - 1) as nat);
        assert(d * w >= 0) by (nonlinear_arith)
            requires d >= 0, w >= 1;
    }
}

/// A later combination has a larger rank, and every rank stays below
/// `29^m`: the enumeration is finite.
pub proof fn rank_grows(a: Seq<usize>, b: Seq<usize>)
    requires
        a.len() == b.len(),
        valid_combo(a),
        valid_combo(b),
        combo_less(a, b),
    ensures
        0 <= rank(a, a.len() as int) < rank(b, b.len() as int) < pow29(b.len()),
{
    let p = choose|p: int|
        0 <= p < a.len() && #[trigger] a[p] < b[p] && forall|q: int| p < q < a.len() ==> #[trigger] a[q] == b[q];
    assert forall|k: int| 0 <= k < a.len() implies #[trigger] a[k] < 29 by {
        assert(a[k] + k < 29);
    }
    assert forall|k: int| 0 <= k < b.len() implies #[trigger] b[k] < 29 by {
        assert(b[k] + k < 29);
    }
    rank_monotone(a, b, p, a.len() as int);
    rank_nonneg(a, a.len() as int);
    rank_bounds(b, b.len() as int);
}

/// Two combinations of one size are equal, or one comes before the other.
pub proof fn combo_order_total(a: Seq<usize>, b: Seq<usize>)
    requires
        a.len() == b.len(),
    ensures
        a == b || combo_less(a, b) || combo_less(b, a),
{
    combo_order_from(a, b, a.len() as int);
}

proof fn combo_order_from(a: Seq<usize>, b: Seq<usize>, n: int)
    requires
        a.len() == b.len(),
        0 <= n <= a.len(),
        forall|q: int| n <= q < a.len() ==> a[q] == b[q],
    ensures
        a == b || combo_less(a, b) || combo_less(b, a),
    decreases n,
{
    if n == 0 {
        assert(a =~= b);
    } else if a[n - 1] == b[n - 1] {
        combo_order_from(a, b, n - 1);
    } else if a[n - 1] < b[n - 1] {
        assert(forall|q: int| n - 1 < q < a.len() ==> #[trigger] a[q] == b[q]);
    } else {
        assert(forall|q: int| n - 1 < q < a.len() ==> #[trigger] b[q] == a[q]);
    }
}

/// The slot pairs that combination `s` swaps, first `n / 2` of them.
pub open spec fn combo_swaps(s: Seq<usize>, n: int) -> Seq<(int, int)> {
    Seq::new((n / 2) as nat, |t: int| (swap_slot(s[2 * t] as int), swap_slot(s[2 * t + 1] as int)))
}

proof fn pairs_as_swaps(keys: Seq<char>, s: Seq<usize>, n: int)
    requires
        0 <= n <= s.len(),
        n % 2 == 0,
    ensures
        apply_pairs(keys, s, n) == apply_swaps(keys, combo_swaps(s, n)),
    decreases n,
{
    if n >= 2 {
        pairs_as_swaps(keys, s, n - 2);
        assert(combo_swaps(s, n).drop_last() =~= combo_swaps(s, n - 2));
        assert(combo_swaps(s, n).last() == (swap_slot(s[n - 2] as int), swap_slot(s[n - 1] as int)));
    } else {
        assert(combo_swaps(s, n).len() == 0);
    }
}

/// A neighbour moves both layers by one slot permutation that keeps the
/// pinned slot in place: each (base, shifted) pair stays together.
pub proof fn neighbour_rearranges(l: Layout, c: Seq<usize>)
    requires
        valid_combo(c),
        c.len() % 2 == 0,
    ensures
        exists|p: Seq<int>| slot_permutation(p) && #[trigger] layers_moved_by(l, neighbour_layers(l, c), p),
{
    let n = c.len() as int;
    let ps = combo_swaps(c, n);
    assert(valid_swaps(ps)) by {
        assert forall|t: int| 0 <= t < ps.len() implies #[trigger] ps[t].0 != ps[t].1 && 0 <= ps[t].0 < 30
            && 0 <= ps[t].1 < 30 && ps[t].0 != PINNED_SLOT && ps[t].1 != PINNED_SLOT by {
            assert(c[2 * t] > c[2 * t + 1]);
            assert(c[2 * t] + 2 * t < 29);
        }
    }
    pairs_as_swaps(l.lower(), c, n);
    pairs_as_swaps(l.upper(), c, n);
    let perm = swaps_permute(l.lower(), l.upper(), ps);
    assert(neighbour_layers(l, c).0 == apply_swaps(l.lower(), ps));
    assert(neighbour_layers(l, c).1 == apply_swaps(l.upper(), ps));
    assert forall|k: int| 0 <= k < 30 implies #[trigger] neighbour_layers(l, c).0[k] == l.lower()[perm[k]]
        && neighbour_layers(l, c).1[k] == l.upper()[perm[k]] by {
        assert(apply_swaps(l.lower(), ps)[k] == l.lower()[perm[k]]);
        assert(apply_swaps(l.upper(), ps)[k] == l.upper()[perm[k]]);
    }
    assert(layers_moved_by(l, neighbour_layers(l, c), perm));
}

/// Both layers of `after` are those of `l`, rearranged by the same `p`.
pub open spec fn layers_moved_by(l: Layout, after: (Seq<char>, Seq<char>), p: Seq<int>) -> bool {
    forall|k: int| 0 <= k < 30 ==> #[trigger] after.0[k] == l.lower()[p[k]] && after.1[k] == l.upper()[p[k]]
}

/// The odometer step: moves `idx` to the next combination in enumeration
/// order, or returns `false` and leaves it as it is when it was the last.
pub fn advance(idx: &mut Vec<usize>) -> (r: bool)
    requires
        valid_combo(old(idx)@),
    ensures
        r == !all_at_max(old(idx)@),
        r ==> is_next_combo(old(idx)@, final(idx)@),
        !r ==> final(idx)@ == old(idx)@ && is_last_combo(old(idx)@),
{
    let m = idx.len();
    let ghost s = idx@;
    let mut p: usize = 0;
    while p < m && idx[p] + p + 1 >= NUM_SWAPPABLE
        invariant
            idx@ == s,
            m == s.len(),
            valid_combo(s),
            p <= m,
            forall|q: int| 0 <= q < p ==> #[trigger] s[q] + q == 28,
        decreases m - p,
    {
        p += 1;
    }
    if p == m {
        assert forall|c: Seq<usize>| c.len() == s.len() && valid_combo(c) implies !#[trigger] combo_less(s, c) by {
            if combo_less(s, c) {
                let w = choose|w: int|
                    0 <= w < s.len() && #[trigger] s[w] < c[w] && forall|q: int|
                        w < q < s.len() ==> #[trigger] s[q] == c[q];
                assert(s[w] + w == 28);
                assert(c[w] + w < 29);
            }
        }
        return false;
    }
    let v = idx[p] + 1;
    idx.set(p, v);
    let mut q: usize = 0;
    while q < p
        invariant
            q <= p < m,
            m == s.len(),
            v == s[p as int] + 1,
            v + p < 29,
            idx@.len() == m,
            forall|k: int| 0 <= k < q ==> #[trigger] idx@[k] == v + p - k,
            forall|k: int| q <= k < p ==> #[trigger] idx@[k] == s[k],
            idx@[p as int] == v,
            forall|k: int| p < k < m ==> #[trigger] idx@[k] == s[k],
        decreases p - q,
    {
        idx.set(q, v + p - q);
        q += 1;
    }
    let ghost t = idx@;
    proof {
        assert(valid_combo(t)) by {
            assert forall|k: int| 0 <= k < t.len() - 1 implies #[trigger] t[k] > t[k + 1] by {
                if k + 1 == p {
                } else if k == p {
                    assert(s[k] > s[k + 1]);
                }
            }
        }
        assert(combo_less(s, t)) by {
            assert(s[p as int] < t[p as int]);
        }
        assert forall|c: Seq<usize>|
            c.len() == s.len() && valid_combo(c) && #[trigger] combo_less(s, c) implies !combo_less(c, t) by {
            let r1 = choose|w: int|
                0 <= w < s.len() && #[trigger] s[w] < c[w] && forall|q: int|
                    w < q < s.len() ==> #[trigger] s[q] == c[q];
            if combo_less(c, t) {
                let r2 = choose|w: int|
                    0 <= w < c.len() && #[trigger] c[w] < t[w] && forall|q: int|
                        w < q < c.len() ==> #[trigger] c[q] == t[q];
                if r1 < p {
                    assert(s[r1] + r1 == 28);
                    assert(c[r1] + r1 < 29);
                } else if r1 > p {
                    if r2 > r1 {
                        assert(c[r2] == s[r2]);
                    } else if r2 < r1 {
                        assert(c[r1] == t[r1]);
                    }
                } else {
                    if r2 > p {
                        assert(c[r2] == s[r2]);
                    } else if r2 < p {
                        assert(c[p as int] == t[p as int]);
                        descending_gap(c, r2, p as int);
                    }
                }
            }
        }
    }
    true
}

/// The layers of `l` after the swaps of combination `s`.
pub open spec fn neighbour_layers(l: Layout, s: Seq<usize>) -> (Seq<char>, Seq<char>) {
    (apply_pairs(l.lower(), s, s.len() as int), apply_pairs(l.upper(), s, s.len() as int))
}

/// Every layout reachable from one layout by `depth` disjoint swaps, each
/// once: the swapped positions run through the combinations of `2 * depth`
/// swappable positions in enumeration order, paired off two by two.
pub struct LayoutPermutations {
    orig_layout: Layout,
    swap_idx: Vec<usize>,
    started: bool,
}

impl LayoutPermutations {
    /// The layout the neighbours are taken from.
    pub closed spec fn orig(&self) -> Layout {
        self.orig_layout
    }

    /// The combination of the layout handed out last (or to be handed out first).
    pub closed spec fn indices(&self) -> Seq<usize> {
        self.swap_idx@
    }

    /// Whether a layout has been handed out yet.
    pub closed spec fn started(&self) -> bool {
        self.started
    }

    pub open spec fn wf(&self) -> bool {
        &&& valid_combo(self.indices())
        &&& self.indices().len() % 2 == 0
    }

    /// The neighbour of the original layout for combination `s`.
    pub open spec fn neighbour(&self, s: Seq<usize>) -> (Seq<char>, Seq<char>) {
        neighbour_layers(self.orig(), s)
    }

    /// How many more layouts `next` can hand out, at most.
    pub open spec fn remaining(&self) -> int {
        pow29(self.indices().len()) - rank(self.indices(), self.indices().len() as int) + if self.started() {
            0int
        } else {
            1
        }
    }

    /// Starts the enumeration at the least combination of `2 * depth`
    /// positions; with more than 29 positions there are none, and nothing
    /// is handed out.
    pub fn new(layout: &Layout, depth: usize) -> (r: LayoutPermutations)
        ensures
            r.wf(),
            r.orig() == *layout,
            depth <= 14 ==> r.indices() == first_combo(2 * depth) && !r.started(),
            depth > 14 ==> r.indices().len() == 0 && r.started(),
            r.remaining() >= 0,
    {
        let mut swaps: Vec<usize> = Vec::new();
        if depth <= 14 {
            let m = depth * 2;
            let mut k: usize = 0;
            while k < m
                invariant
                    m == 2 * depth,
                    m <= 28,
                    k <= m,
                    swaps@ == first_combo(m as int).take(k as int),
                decreases m - k,
            {
                swaps.push(m - 1 - k);
                k += 1;
                assert(swaps@ =~= first_combo(m as int).take(k as int));
            }
            assert(swaps@ =~= first_combo(m as int));
            proof {
                first_combo_is_least(m as int);
                let f = swaps@;
                assert forall|k: int| 0 <= k < f.len() implies #[trigger] f[k] < 29 by {
                    assert(f[k] + k < 29);
                }
                rank_bounds(f, f.len() as int);
            }
            LayoutPermutations { orig_layout: *layout, swap_idx: swaps, started: false }
        } else {
            assert(rank(swaps@, 0) == 0);
            assert(pow29(0) == 1);
            LayoutPermutations { orig_layout: *layout, swap_idx: swaps, started: true }
        }
    }

    /// The next neighbour: the first call hands out the one of the least
    /// combination, each later call the one of the next combination, and
    /// `None` once the last has been handed out.
    pub fn next(&mut self) -> (r: Option<Layout>)
        requires
            old(self).wf(),
        ensures
            final(self).wf(),
            final(self).orig() == old(self).orig(),
            final(self).started(),
            !old(self).started() ==> final(self).indices() == old(self).indices(),
            old(self).started() ==> (r is Some <==> !all_at_max(old(self).indices())),
            old(self).started() ==> (if r is Some {
                is_next_combo(old(self).indices(), final(self).indices())
            } else {
                final(self).indices() == old(self).indices() && is_last_combo(old(self).indices())
            }),
            r is Some ==> (r->0.lower(), r->0.upper()) == final(self).neighbour(final(self).indices()),
            !old(self).started() ==> r is Some,
            r is Some ==> 0 <= final(self).remaining() < old(self).remaining(),
            r is None ==> final(self).remaining() == old(self).remaining(),
            final(self).remaining() >= 0,
    {
        proof {
            let s = self.swap_idx@;
            assert forall|k: int| 0 <= k < s.len() implies #[trigger] s[k] < 29 by {
                assert(s[k] + k < 29);
            }
            rank_bounds(s, s.len() as int);
        }
        let some = if self.started {
            advance(&mut self.swap_idx)
        } else {
            self.started = true;
            true
        };
        if some {
            let mut layout = self.orig_layout;
            let n = self.swap_idx.len();
            let mut i: usize = 0;
            while i + 1 < n
                invariant
                    n == self.swap_idx@.len(),
                    n % 2 == 0,
                    valid_combo(self.swap_idx@),
                    i % 2 == 0,
                    i <= n,
                    layout.lower() == apply_pairs(self.orig_layout.lower(), self.swap_idx@, i as int),
                    layout.upper() == apply_pairs(self.orig_layout.upper(), self.swap_idx@, i as int),
                decreases n - i,
            {
                let a = self.swap_idx[i];
                let b = self.swap_idx[i + 1];
                let left = if a < 10 { a } else { a + 1 };
                let right = if b < 10 { b } else { b + 1 };
                layout.swap(left, right);
                i += 2;
            }
            proof {
                if old(self).started {
                    rank_grows(old(self).swap_idx@, self.swap_idx@);
                }
            }
            Some(layout)
        } else {
            None
        }
    }
}

} // verus!
