use vstd::prelude::*;

use crate::layout::{code, last_index_of, position_entry, swapped, Finger, Hand, KeyPress, Layout, LayoutPosMap, Row};
use crate::quartads::{total_of, QuartadList};

verus! {

/// Weight of each ergonomic component. The first five are costs, the last
/// two are rewards subtracted from the total.
#[derive(Clone, Copy, PartialEq, Eq, Structural, Debug)]
pub struct Weights {
    /// Two keys in a row on one finger.
    pub same_finger: u32,
    /// Two keys in a row on one hand, from the top row to the bottom row or back.
    pub row_skip: u32,
    /// Four keys in a row on one hand.
    pub same_hand_run: u32,
    /// A key under the ring finger or the pinky.
    pub weak_finger: u32,
    /// A key in a center column, reached by a sideways stretch.
    pub center_stretch: u32,
    /// Reward: two keys in a row on different hands.
    pub alternation: u32,
    /// Reward: two keys in a row on one hand and row, moving toward the center.
    pub inward_roll: u32,
}

/// The weighted count of each component over a corpus.
#[derive(Clone, Copy, PartialEq, Eq, Structural, Debug)]
pub struct Breakdown {
    pub same_finger: u64,
    pub row_skip: u64,
    pub same_hand_run: u64,
    pub weak_finger: u64,
    pub center_stretch: u64,
    pub alternation: u64,
    pub inward_roll: u64,
}

/// The score of a layout; `breakdown` is filled in on request.
#[derive(Clone, Copy, PartialEq, Eq, Structural, Debug)]
pub struct Penalty {
    pub total: i128,
    pub breakdown: Option<Breakdown>,
}

#[derive(Clone, Copy, PartialEq, Eq, Structural, Debug)]
pub enum Component {
    SameFinger,
    RowSkip,
    SameHandRun,
    WeakFinger,
    CenterStretch,
    Alternation,
    InwardRoll,
}

/// Which components a window of characters shows, in one layout.
#[derive(Clone, Copy)]
struct Hits {
    same_finger: bool,
    row_skip: bool,
    same_hand_run: bool,
    weak_finger: bool,
    center_stretch: bool,
    alternation: bool,
    inward_roll: bool,
}

pub open spec fn column(p: KeyPress) -> int {
    p.pos as int % 10
}

/// Whether typing `b` right after `a` shows `comp`.
pub open spec fn pair_hit(a: KeyPress, b: KeyPress, comp: Component) -> bool {
    match comp {
        Component::SameFinger => a.hand == b.hand && a.finger == b.finger && a.pos != b.pos,
        Component::RowSkip => a.hand == b.hand && ((a.row == Row::Top && b.row == Row::Bottom) || (a.row
            == Row::Bottom && b.row == Row::Top)),
        Component::Alternation => a.hand != b.hand,
        Component::InwardRoll => a.hand == b.hand && a.row == b.row && a.finger != b.finger && (if b.hand
            == Hand::Left {
            column(b) > column(a)
        } else {
            column(b) < column(a)
        }),
        _ => false,
    }
}

/// `c` is typed with hand `h`.
pub open spec fn on_hand(lower: Seq<char>, upper: Seq<char>, c: char, h: Hand) -> bool {
    position_entry(lower, upper, c) is Some && position_entry(lower, upper, c)->0.hand == h
}

/// The first four characters of `q` are all typed with hand `h`.
pub open spec fn run_on_hand(lower: Seq<char>, upper: Seq<char>, q: Seq<char>, h: Hand) -> bool {
    forall|k: int| 0 <= k < 4 ==> on_hand(lower, upper, #[trigger] q[k], h)
}

/// Whether the last character of window `q` shows `comp` when typed on the
/// layout with layers `lower` and `upper`. A character that the layout does
/// not hold shows nothing, and breaks every pair and run it is part of.
pub open spec fn hits(lower: Seq<char>, upper: Seq<char>, q: Seq<char>, comp: Component) -> bool {
    let n = q.len() as int;
    let last = position_entry(lower, upper, q[n - 1]);
    let prev = position_entry(lower, upper, q[n - 2]);
    n >= 1 && last is Some && match comp {
        Component::WeakFinger => last->0.finger == Finger::Ring || last->0.finger == Finger::Pinky,
        Component::CenterStretch => last->0.center,
        Component::SameHandRun => n == 4 && run_on_hand(lower, upper, q, last->0.hand),
        _ => n >= 2 && prev is Some && pair_hit(prev->0, last->0, comp),
    }
}

/// The sum, over the first `n` entries of `q`, of the count of each entry
/// whose window shows `comp`.
pub open spec fn component_total(
    q: QuartadList,
    lower: Seq<char>,
    upper: Seq<char>,
    comp: Component,
    n: int,
) -> int
    decreases n,
{
    if n <= 0 {
        0
    } else {
        component_total(q, lower, upper, comp, n - 1) + if hits(lower, upper, q.key(n - 1), comp) {
            q.count(n - 1)
        } else {
            0
        }
    }
}

pub open spec fn all_total(q: QuartadList, lower: Seq<char>, upper: Seq<char>, comp: Component) -> int {
    component_total(q, lower, upper, comp, q.len())
}

/// The scalar cost: each cost component times its weight, less each reward
/// component times its weight.
pub open spec fn penalty_of(q: QuartadList, lower: Seq<char>, upper: Seq<char>, w: Weights) -> int {
    w.same_finger * all_total(q, lower, upper, Component::SameFinger) + w.row_skip * all_total(
        q,
        lower,
        upper,
        Component::RowSkip,
    ) + w.same_hand_run * all_total(q, lower, upper, Component::SameHandRun) + w.weak_finger
        * all_total(q, lower, upper, Component::WeakFinger) + w.center_stretch * all_total(
        q,
        lower,
        upper,
        Component::CenterStretch,
    ) - w.alternation * all_total(q, lower, upper, Component::Alternation) - w.inward_roll
        * all_total(q, lower, upper, Component::InwardRoll)
}

/// `b` holds the component totals of `q` on the layout with these layers.
pub open spec fn breakdown_matches(b: Breakdown, q: QuartadList, lower: Seq<char>, upper: Seq<char>) -> bool {
    &&& b.same_finger == all_total(q, lower, upper, Component::SameFinger)
    &&& b.row_skip == all_total(q, lower, upper, Component::RowSkip)
    &&& b.same_hand_run == all_total(q, lower, upper, Component::SameHandRun)
    &&& b.weak_finger == all_total(q, lower, upper, Component::WeakFinger)
    &&& b.center_stretch == all_total(q, lower, upper, Component::CenterStretch)
    &&& b.alternation == all_total(q, lower, upper, Component::Alternation)
    &&& b.inward_roll == all_total(q, lower, upper, Component::InwardRoll)
}

/// What scoring asks of a quartad list: one count per key, windows of at
/// most four characters, and a total that fits in a u64.
pub open spec fn scorable(q: QuartadList) -> bool {
    &&& q.keys@.len() == q.counts@.len()
    &&& forall|a: int| 0 <= a < q.len() ==> #[trigger] q.key(a).len() <= 4
    &&& q.total() <= u64::MAX
}

/// Lowest score any layout can have: each reward total is at most a u64
/// times a u32.
pub const PENALTY_FLOOR: i128 = -0x2_0000_0000_0000_0000_0000_0000;

/// Highest score any layout can have: five cost totals, each at most a
/// u64 times a u32.
pub const PENALTY_CEILING: i128 = 0x8_0000_0000_0000_0000_0000_0000;

/// `map` is the position map of `l`.
pub open spec fn map_of(l: Layout, map: LayoutPosMap) -> bool {
    forall|c: char| code(c) < 128 ==> #[trigger] map.0@[code(c)] == position_entry(l.lower(), l.upper(), c)
}

/// `c` is one of the characters that a swap of slots `i` and `j` moves.
pub open spec fn moved(lower: Seq<char>, upper: Seq<char>, i: int, j: int, c: char) -> bool {
    c == lower[i] || c == lower[j] || c == upper[i] || c == upper[j]
}

/// Window `w` holds a character that the swap moves.
pub open spec fn touches(lower: Seq<char>, upper: Seq<char>, i: int, j: int, w: Seq<char>) -> bool {
    exists|k: int| 0 <= k < w.len() && moved(lower, upper, i, j, #[trigger] w[k])
}

/// The change in `comp`'s total that the swap of slots `i` and `j` brings
/// about through the first `n` entries of `q` whose windows it touches.
pub open spec fn touched_change(
    q: QuartadList,
    lower: Seq<char>,
    upper: Seq<char>,
    i: int,
    j: int,
    comp: Component,
    n: int,
) -> int
    decreases n,
{
    if n <= 0 {
        0
    } else {
        let w = q.key(n - 1);
        let after = if hits(swapped(lower, i, j), swapped(upper, i, j), w, comp) { q.count(n - 1) } else { 0 };
        let before = if hits(lower, upper, w, comp) { q.count(n - 1) } else { 0 };
        touched_change(q, lower, upper, i, j, comp, n - 1) + if touches(lower, upper, i, j, w) {
            after - before
        } else {
            0
        }
    }
}

proof fn last_index_unmoved(s: Seq<char>, c: char, i: int, j: int, n: int)
    requires
        s.len() == 30,
        0 <= i < 30,
        0 <= j < 30,
        0 <= n <= 30,
        s[i] != c,
        s[j] != c,
    ensures
        last_index_of(swapped(s, i, j), c, n) == last_index_of(s, c, n),
    decreases n,
{
    if n > 0 {
        last_index_unmoved(s, c, i, j, n - 1);
    }
}

/// A character that a swap does not move keeps its entry in the position map.
pub proof fn swap_keeps_unmoved_entry(lower: Seq<char>, upper: Seq<char>, i: int, j: int, c: char)
    requires
        lower.len() == 30,
        upper.len() == 30,
        0 <= i < 30,
        0 <= j < 30,
        !moved(lower, upper, i, j, c),
    ensures
        position_entry(swapped(lower, i, j), swapped(upper, i, j), c) == position_entry(lower, upper, c),
{
    last_index_unmoved(lower, c, i, j, 30);
    last_index_unmoved(upper, c, i, j, 30);
}

proof fn untouched_hits_unchanged(lower: Seq<char>, upper: Seq<char>, i: int, j: int, w: Seq<char>, comp: Component)
    requires
        lower.len() == 30,
        upper.len() == 30,
        0 <= i < 30,
        0 <= j < 30,
        !touches(lower, upper, i, j, w),
    ensures
        hits(swapped(lower, i, j), swapped(upper, i, j), w, comp) == hits(lower, upper, w, comp),
{
    assert forall|k: int| 0 <= k < w.len() implies #[trigger] position_entry(
        swapped(lower, i, j),
        swapped(upper, i, j),
        w[k],
    ) == position_entry(lower, upper, w[k]) by {
        assert(!moved(lower, upper, i, j, w[k]));
        swap_keeps_unmoved_entry(lower, upper, i, j, w[k]);
    }
    let n = w.len() as int;
    if n >= 1 {
        assert(position_entry(swapped(lower, i, j), swapped(upper, i, j), w[n - 1]) == position_entry(lower, upper, w[n - 1]));
    }
    if n >= 2 {
        assert(position_entry(swapped(lower, i, j), swapped(upper, i, j), w[n - 2]) == position_entry(lower, upper, w[n - 2]));
    }
    if comp == Component::SameHandRun && n == 4 {
        let lo2 = swapped(lower, i, j);
        let up2 = swapped(upper, i, j);
        let h2 = position_entry(lo2, up2, w[n - 1])->0.hand;
        let h1 = position_entry(lower, upper, w[n - 1])->0.hand;
        assert forall|k: int| 0 <= k < 4 implies on_hand(lo2, up2, #[trigger] w[k], h2) == on_hand(lower, upper, w[k], h1) by {
            assert(!moved(lower, upper, i, j, w[k]));
            swap_keeps_unmoved_entry(lower, upper, i, j, w[k]);
        }
        assert(run_on_hand(lo2, up2, w, h2) == run_on_hand(lower, upper, w, h1));
    }
}

/// After a swap of slots `i` and `j`, the total of each component differs
/// from the one before by exactly the change in the windows that hold a
/// moved character; every other window contributes as before.
pub proof fn swap_changes_only_touched_windows(
    q: QuartadList,
    lower: Seq<char>,
    upper: Seq<char>,
    i: int,
    j: int,
    comp: Component,
    n: int,
)
    requires
        lower.len() == 30,
        upper.len() == 30,
        0 <= i < 30,
        0 <= j < 30,
        0 <= n <= q.len(),
    ensures
        component_total(q, swapped(lower, i, j), swapped(upper, i, j), comp, n) - component_total(
            q,
            lower,
            upper,
            comp,
            n,
        ) == touched_change(q, lower, upper, i, j, comp, n),
    decreases n,
{
    if n > 0 {
        swap_changes_only_touched_windows(q, lower, upper, i, j, comp, n - 1);
        if !touches(lower, upper, i, j, q.key(n - 1)) {
            untouched_hits_unchanged(lower, upper, i, j, q.key(n - 1), comp);
        }
    }
}

/// The change in the scalar cost that the swap of slots `i` and `j` brings
/// about through the windows it touches.
pub open spec fn touched_penalty_change(
    q: QuartadList,
    lower: Seq<char>,
    upper: Seq<char>,
    i: int,
    j: int,
    w: Weights,
) -> int {
    let n = q.len();
    w.same_finger * touched_change(q, lower, upper, i, j, Component::SameFinger, n) + w.row_skip
        * touched_change(q, lower, upper, i, j, Component::RowSkip, n) + w.same_hand_run * touched_change(
        q,
        lower,
        upper,
        i,
        j,
        Component::SameHandRun,
        n,
    ) + w.weak_finger * touched_change(q, lower, upper, i, j, Component::WeakFinger, n) + w.center_stretch
        * touched_change(q, lower, upper, i, j, Component::CenterStretch, n) - w.alternation * touched_change(
        q,
        lower,
        upper,
        i,
        j,
        Component::Alternation,
        n,
    ) - w.inward_roll * touched_change(q, lower, upper, i, j, Component::InwardRoll, n)
}

proof fn scaled_difference(w: int, a: int, b: int, d: int)
    requires
        a - b == d,
    ensures
        w * a - w * b == w * d,
{
    assert(w * a - w * b == w * (a - b)) by (nonlinear_arith);
}

/// After a swap of slots `i` and `j`, the score changes by exactly the
/// weighted change in the windows that hold a moved character.
pub proof fn swap_penalty_delta(q: QuartadList, lower: Seq<char>, upper: Seq<char>, i: int, j: int, w: Weights)
    requires
        lower.len() == 30,
        upper.len() == 30,
        0 <= i < 30,
        0 <= j < 30,
    ensures
        penalty_of(q, swapped(lower, i, j), swapped(upper, i, j), w) - penalty_of(q, lower, upper, w)
            == touched_penalty_change(q, lower, upper, i, j, w),
{
    let n = q.len();
    let lo2 = swapped(lower, i, j);
    let up2 = swapped(upper, i, j);
    swap_changes_only_touched_windows(q, lower, upper, i, j, Component::SameFinger, n);
    swap_changes_only_touched_windows(q, lower, upper, i, j, Component::RowSkip, n);
    swap_changes_only_touched_windows(q, lower, upper, i, j, Component::SameHandRun, n);
    swap_changes_only_touched_windows(q, lower, upper, i, j, Component::WeakFinger, n);
    swap_changes_only_touched_windows(q, lower, upper, i, j, Component::CenterStretch, n);
    swap_changes_only_touched_windows(q, lower, upper, i, j, Component::Alternation, n);
    swap_changes_only_touched_windows(q, lower, upper, i, j, Component::InwardRoll, n);
    scaled_difference(
        w.same_finger as int,
        all_total(q, lo2, up2, Component::SameFinger),
        all_total(q, lower, upper, Component::SameFinger),
        touched_change(q, lower, upper, i, j, Component::SameFinger, n),
    );
    scaled_difference(
        w.row_skip as int,
        all_total(q, lo2, up2, Component::RowSkip),
        all_total(q, lower, upper, Component::RowSkip),
        touched_change(q, lower, upper, i, j, Component::RowSkip, n),
    );
    scaled_difference(
        w.same_hand_run as int,
        all_total(q, lo2, up2, Component::SameHandRun),
        all_total(q, lower, upper, Component::SameHandRun),
        touched_change(q, lower, upper, i, j, Component::SameHandRun, n),
    );
    scaled_difference(
        w.weak_finger as int,
        all_total(q, lo2, up2, Component::WeakFinger),
        all_total(q, lower, upper, Component::WeakFinger),
        touched_change(q, lower, upper, i, j, Component::WeakFinger, n),
    );
    scaled_difference(
        w.center_stretch as int,
        all_total(q, lo2, up2, Component::CenterStretch),
        all_total(q, lower, upper, Component::CenterStretch),
        touched_change(q, lower, upper, i, j, Component::CenterStretch, n),
    );
    scaled_difference(
        w.alternation as int,
        all_total(q, lo2, up2, Component::Alternation),
        all_total(q, lower, upper, Component::Alternation),
        touched_change(q, lower, upper, i, j, Component::Alternation, n),
    );
    scaled_difference(
        w.inward_roll as int,
        all_total(q, lo2, up2, Component::InwardRoll),
        all_total(q, lower, upper, Component::InwardRoll),
        touched_change(q, lower, upper, i, j, Component::InwardRoll, n),
    );
}

/// Scoring is a function of the quartads, the layout and the weights: two
/// results that meet the contract of `calculate_penalty` on the same inputs
/// are the same, breakdown included.
pub proof fn penalty_is_determined(r1: Penalty, r2: Penalty, q: QuartadList, l: Layout, w: Weights, verbose: bool)
    requires
        r1.total == penalty_of(q, l.lower(), l.upper(), w),
        r2.total == penalty_of(q, l.lower(), l.upper(), w),
        verbose <==> r1.breakdown is Some,
        verbose <==> r2.breakdown is Some,
        verbose ==> breakdown_matches(r1.breakdown->0, q, l.lower(), l.upper()),
        verbose ==> breakdown_matches(r2.breakdown->0, q, l.lower(), l.upper()),
    ensures
        r1 == r2,
{
}

/// The default weights.
pub open spec fn default_weights() -> Weights {
    Weights {
        same_finger: 20,
        row_skip: 12,
        same_hand_run: 6,
        weak_finger: 4,
        center_stretch: 3,
        alternation: 2,
        inward_roll: 3,
    }
}

/// The default weights.
pub fn init() -> (r: Weights)
    ensures
        r == default_weights(),
        r == (Weights {
            same_finger: 20,
            row_skip: 12,
            same_hand_run: 6,
            weak_finger: 4,
            center_stretch: 3,
            alternation: 2,
            inward_roll: 3,
        }),
{
    Weights {
        same_finger: 20,
        row_skip: 12,
        same_hand_run: 6,
        weak_finger: 4,
        center_stretch: 3,
        alternation: 2,
        inward_roll: 3,
    }
}

fn resolve(l: &Layout, map: &LayoutPosMap, c: char) -> (r: Option<KeyPress>)
    requires
        map_of(*l, *map),
    ensures
        r == position_entry(l.lower(), l.upper(), c),
{
    map.get_key_position(c)
}

fn pair_hits(a: KeyPress, b: KeyPress, comp: Component) -> (r: bool)
    ensures
        r == pair_hit(a, b, comp),
{
    match comp {
        Component::SameFinger => a.hand == b.hand && a.finger == b.finger && a.pos != b.pos,
        Component::RowSkip => a.hand == b.hand && ((a.row == Row::Top && b.row == Row::Bottom) || (a.row
            == Row::Bottom && b.row == Row::Top)),
        Component::Alternation => a.hand != b.hand,
        Component::InwardRoll => {
            let ca = a.pos % 10;
            let cb = b.pos % 10;
            a.hand == b.hand && a.row == b.row && a.finger != b.finger && (if b.hand == Hand::Left {
                cb > ca
            } else {
                cb < ca
            })
        },
        _ => false,
    }
}

fn hits_of(l: &Layout, map: &LayoutPosMap, q: &Vec<char>) -> (r: Hits)
    requires
        map_of(*l, *map),
        q@.len() <= 4,
    ensures
        r.same_finger == hits(l.lower(), l.upper(), q@, Component::SameFinger),
        r.row_skip == hits(l.lower(), l.upper(), q@, Component::RowSkip),
        r.same_hand_run == hits(l.lower(), l.upper(), q@, Component::SameHandRun),
        r.weak_finger == hits(l.lower(), l.upper(), q@, Component::WeakFinger),
        r.center_stretch == hits(l.lower(), l.upper(), q@, Component::CenterStretch),
        r.alternation == hits(l.lower(), l.upper(), q@, Component::Alternation),
        r.inward_roll == hits(l.lower(), l.upper(), q@, Component::InwardRoll),
{
    let none = Hits {
        same_finger: false,
        row_skip: false,
        same_hand_run: false,
        weak_finger: false,
        center_stretch: false,
        alternation: false,
        inward_roll: false,
    };
    let n = q.len();
    if n == 0 {
        return none;
    }
    let last = match resolve(l, map, q[n - 1]) {
        Some(k) => k,
        None => {
            return none;
        },
    };
    let mut run = n == 4;
    let mut k: usize = 0;
    while k < n
        invariant
            n == q@.len(),
            n <= 4,
            k <= n,
            map_of(*l, *map),
            last == position_entry(l.lower(), l.upper(), q@[n - 1])->0,
            run == (n == 4 && forall|t: int| 0 <= t < k ==> on_hand(l.lower(), l.upper(), #[trigger] q@[t], last.hand)),
        decreases n - k,
    {
        match resolve(l, map, q[k]) {
            Some(p) => {
                if p.hand != last.hand {
                    run = false;
                }
            },
            None => {
                run = false;
            },
        }
        k += 1;
    }
    let mut r = Hits {
        same_finger: false,
        row_skip: false,
        same_hand_run: run,
        weak_finger: last.finger == Finger::Ring || last.finger == Finger::Pinky,
        center_stretch: last.center,
        alternation: false,
        inward_roll: false,
    };
    if n >= 2 {
        if let Some(prev) = resolve(l, map, q[n - 2]) {
            r.same_finger = pair_hits(prev, last, Component::SameFinger);
            r.row_skip = pair_hits(prev, last, Component::RowSkip);
            r.alternation = pair_hits(prev, last, Component::Alternation);
            r.inward_roll = pair_hits(prev, last, Component::InwardRoll);
        }
    }
    r
}

proof fn prefix_total_le(s: Seq<u64>, n: int)
    requires
        0 <= n <= s.len(),
    ensures
        total_of(s.take(n)) <= total_of(s),
    decreases s.len(),
{
    if n < s.len() {
        assert(s.take(n) =~= s.drop_last().take(n));
        prefix_total_le(s.drop_last(), n);
    } else {
        assert(s.take(n) =~= s);
    }
}

proof fn component_le_prefix(q: QuartadList, lower: Seq<char>, upper: Seq<char>, comp: Component, n: int)
    requires
        0 <= n <= q.counts@.len(),
    ensures
        0 <= component_total(q, lower, upper, comp, n) <= total_of(q.counts@.take(n)),
    decreases n,
{
    if n > 0 {
        component_le_prefix(q, lower, upper, comp, n - 1);
        assert(q.counts@.take(n).drop_last() =~= q.counts@.take(n - 1));
    }
}

/// Adds the count to a running total when the window shows the component.
fn add_if(acc: u64, hit: bool, count: u64) -> (r: u64)
    requires
        hit ==> acc + count <= u64::MAX,
    ensures
        r == acc + if hit { count as int } else { 0 },
{
    if hit { acc + count } else { acc }
}

fn weigh(w: u32, b: u64) -> (r: i128)
    ensures
        r == w * b,
        0 <= r <= 0x1_0000_0000_0000_0000_0000_0000,
{
    proof {
        assert(w * b <= 0xffff_ffff * 0xffff_ffff_ffff_ffff) by (nonlinear_arith)
            requires w <= 0xffff_ffff, b <= 0xffff_ffff_ffff_ffff;
        assert(0 <= w * b) by (nonlinear_arith)
            requires 0 <= w, 0 <= b;
    }
    (w as i128) * (b as i128)
}

/// Scores `layout` against the quartads: every window is resolved on
/// `layout`, and each component it shows adds its count to that
/// component's total.
pub fn calculate_penalty(quartads: &QuartadList, layout: &Layout, weights: &Weights, verbose: bool) -> (r: Penalty)
    requires
        scorable(*quartads),
    ensures
        r.total == penalty_of(*quartads, layout.lower(), layout.upper(), *weights),
        PENALTY_FLOOR <= r.total <= PENALTY_CEILING,
        verbose <==> r.breakdown is Some,
        verbose ==> breakdown_matches(r.breakdown->0, *quartads, layout.lower(), layout.upper()),
{
    let map = layout.get_position_map();
    let ghost lo = layout.lower();
    let ghost up = layout.upper();
    let ghost q = *quartads;
    let mut b = Breakdown {
        same_finger: 0,
        row_skip: 0,
        same_hand_run: 0,
        weak_finger: 0,
        center_stretch: 0,
        alternation: 0,
        inward_roll: 0,
    };
    let n = quartads.keys.len();
    let mut i: usize = 0;
    while i < n
        invariant
            q == *quartads,
            lo == layout.lower(),
            up == layout.upper(),
            map_of(*layout, map),
            n == q.len(),
            n == q.counts@.len(),
            forall|a: int| 0 <= a < q.len() ==> #[trigger] q.key(a).len() <= 4,
            q.total() <= u64::MAX,
            i <= n,
            b.same_finger == component_total(q, lo, up, Component::SameFinger, i as int),
            b.row_skip == component_total(q, lo, up, Component::RowSkip, i as int),
            b.same_hand_run == component_total(q, lo, up, Component::SameHandRun, i as int),
            b.weak_finger == component_total(q, lo, up, Component::WeakFinger, i as int),
            b.center_stretch == component_total(q, lo, up, Component::CenterStretch, i as int),
            b.alternation == component_total(q, lo, up, Component::Alternation, i as int),
            b.inward_roll == component_total(q, lo, up, Component::InwardRoll, i as int),
        decreases n - i,
    {
        assert(q.key(i as int).len() <= 4);
        let h = hits_of(layout, &map, &quartads.keys[i]);
        let c = quartads.counts[i];
        proof {
            prefix_total_le(q.counts@, i + 1);
            component_le_prefix(q, lo, up, Component::SameFinger, i + 1);
            component_le_prefix(q, lo, up, Component::RowSkip, i + 1);
            component_le_prefix(q, lo, up, Component::SameHandRun, i + 1);
            component_le_prefix(q, lo, up, Component::WeakFinger, i + 1);
            component_le_prefix(q, lo, up, Component::CenterStretch, i + 1);
            component_le_prefix(q, lo, up, Component::Alternation, i + 1);
            component_le_prefix(q, lo, up, Component::InwardRoll, i + 1);
        }
        b.same_finger = add_if(b.same_finger, h.same_finger, c);
        b.row_skip = add_if(b.row_skip, h.row_skip, c);
        b.same_hand_run = add_if(b.same_hand_run, h.same_hand_run, c);
        b.weak_finger = add_if(b.weak_finger, h.weak_finger, c);
        b.center_stretch = add_if(b.center_stretch, h.center_stretch, c);
        b.alternation = add_if(b.alternation, h.alternation, c);
        b.inward_roll = add_if(b.inward_roll, h.inward_roll, c);
        i += 1;
    }
    let total = weigh(weights.same_finger, b.same_finger) + weigh(weights.row_skip, b.row_skip) + weigh(
        weights.same_hand_run,
        b.same_hand_run,
    ) + weigh(weights.weak_finger, b.weak_finger) + weigh(weights.center_stretch, b.center_stretch)
        - weigh(weights.alternation, b.alternation) - weigh(weights.inward_roll, b.inward_roll);
    Penalty { total, breakdown: if verbose { Some(b) } else { None } }
}

} // verus!
