use vstd::multiset::Multiset;
use vstd::prelude::*;

use crate::layout::{code, LayoutPosMap};

verus! {

broadcast use vstd::seq_lib::group_to_multiset_ensures;

/// Distinct runs of up to four consecutive typeable corpus characters, each
/// with the number of times it occurs: `keys[a]` occurs `counts[a]` times.
pub struct QuartadList {
    pub keys: Vec<Vec<char>>,
    pub counts: Vec<u64>,
}

impl QuartadList {
    pub open spec fn len(&self) -> int {
        self.keys@.len() as int
    }

    pub open spec fn key(&self, a: int) -> Seq<char> {
        self.keys@[a]@
    }

    pub open spec fn count(&self, a: int) -> int {
        self.counts@[a] as int
    }

    pub open spec fn wf(&self) -> bool {
        &&& self.keys@.len() == self.counts@.len()
        &&& forall|a: int, b: int|
            0 <= a < self.len() && 0 <= b < self.len() && a != b ==> #[trigger] self.key(a) != #[trigger] self.key(b)
        &&& forall|a: int| 0 <= a < self.len() ==> 1 <= #[trigger] self.key(a).len() <= 4
    }

    /// The sum of all counts.
    pub open spec fn total(&self) -> int {
        total_of(self.counts@)
    }
}

pub open spec fn total_of(counts: Seq<u64>) -> int
    decreases counts.len(),
{
    if counts.len() == 0 {
        0
    } else {
        total_of(counts.drop_last()) + counts.last()
    }
}

/// A character that the reference position map knows.
pub open spec fn typeable(map: LayoutPosMap, c: char) -> bool {
    code(c) < 128 && map.0@[code(c)] is Some
}

/// The last `k` entries of `s`, or all of it where it is shorter.
pub open spec fn tail(s: Seq<char>, k: int) -> Seq<char> {
    if s.len() <= k {
        s
    } else {
        s.subrange(s.len() - k, s.len() as int)
    }
}

/// The typeable characters right before offset `n`, back to the last
/// untypeable one or the start of the corpus, at most three of them.
pub open spec fn run_before(cs: Seq<char>, map: LayoutPosMap, n: int) -> Seq<char>
    decreases n,
{
    if n <= 0 {
        Seq::empty()
    } else if typeable(map, cs[n - 1]) {
        tail(run_before(cs, map, n - 1).push(cs[n - 1]), 3)
    } else {
        Seq::empty()
    }
}

/// One window per typeable character among the first `n`: that character
/// with the (at most three) typeable ones right before it. An untypeable
/// character ends a run, so no window reaches across it.
pub open spec fn windows(cs: Seq<char>, map: LayoutPosMap, n: int) -> Seq<Seq<char>>
    decreases n,
{
    if n <= 0 {
        Seq::empty()
    } else if typeable(map, cs[n - 1]) {
        windows(cs, map, n - 1).push(run_before(cs, map, n - 1).push(cs[n - 1]))
    } else {
        windows(cs, map, n - 1)
    }
}

/// The number of typeable characters among the first `n`.
pub open spec fn typeable_count(cs: Seq<char>, map: LayoutPosMap, n: int) -> int
    decreases n,
{
    if n <= 0 {
        0
    } else {
        typeable_count(cs, map, n - 1) + if typeable(map, cs[n - 1]) { 1int } else { 0 }
    }
}

/// `q` counts exactly the windows `ws`: each distinct window is listed once,
/// with the number of times it occurs.
pub open spec fn counts_windows(q: QuartadList, ws: Seq<Seq<char>>) -> bool {
    &&& q.wf()
    &&& forall|a: int| 0 <= a < q.len() ==> #[trigger] q.count(a) == ws.to_multiset().count(q.key(a))
    &&& forall|a: int| 0 <= a < q.len() ==> #[trigger] q.count(a) >= 1
    &&& forall|i: int| 0 <= i < ws.len() ==> listed(q, #[trigger] ws[i])
}

/// `w` is one of the keys of `q`.
pub open spec fn listed(q: QuartadList, w: Seq<char>) -> bool {
    exists|a: int| 0 <= a < q.len() && q.key(a) == w
}

/// `w` is one of the keys of `q`, with count `n`.
pub open spec fn listed_with(q: QuartadList, w: Seq<char>, n: int) -> bool {
    exists|b: int| 0 <= b < q.len() && q.key(b) == w && q.count(b) == n
}

/// Two lists that both count the windows `ws` hold the same keys with the
/// same counts: the analysis of a corpus does not depend on anything else.
pub proof fn counts_are_determined(q1: QuartadList, q2: QuartadList, ws: Seq<Seq<char>>)
    requires
        counts_windows(q1, ws),
        counts_windows(q2, ws),
    ensures
        q1.len() == q2.len(),
        forall|a: int| 0 <= a < q1.len() ==> listed_with(q2, #[trigger] q1.key(a), q1.count(a)),
{
    assert forall|a: int| 0 <= a < q1.len() implies listed_with(q2, #[trigger] q1.key(a), q1.count(a)) by {
        assert(q1.count(a) >= 1);
        assert(ws.contains(q1.key(a)));
        let j = choose|j: int| 0 <= j < ws.len() && ws[j] == q1.key(a);
        assert(listed(q2, ws[j]));
        let b = choose|b: int| 0 <= b < q2.len() && q2.key(b) == ws[j];
        assert(q2.count(b) == q1.count(a));
    }
    injective_into(q1, q2, ws);
    injective_into(q2, q1, ws);
}

/// Each key of `q1` is a key of `q2`, and distinct keys go to distinct
/// entries, so `q1` has no more entries than `q2`.
proof fn injective_into(q1: QuartadList, q2: QuartadList, ws: Seq<Seq<char>>)
    requires
        counts_windows(q1, ws),
        counts_windows(q2, ws),
    ensures
        q1.len() <= q2.len(),
{
    let f = |a: int| choose|b: int| 0 <= b < q2.len() && q2.key(b) == q1.key(a);
    assert forall|a: int| 0 <= a < q1.len() implies 0 <= #[trigger] f(a) < q2.len() && q2.key(f(a)) == q1.key(a) by {
        assert(q1.count(a) >= 1);
        assert(ws.contains(q1.key(a)));
        let j = choose|j: int| 0 <= j < ws.len() && ws[j] == q1.key(a);
        assert(listed(q2, ws[j]));
    }
    let dom = Set::new(|a: int| 0 <= a < q1.len());
    let rng = Set::new(|b: int| 0 <= b < q2.len());
    assert(dom =~= vstd::set_lib::set_int_range(0, q1.len()));
    assert(rng =~= vstd::set_lib::set_int_range(0, q2.len()));
    vstd::set_lib::lemma_int_range(0, q1.len());
    vstd::set_lib::lemma_int_range(0, q2.len());
    let img = dom.map(f);
    assert(img.subset_of(rng));
    assert forall|x: int, y: int| dom.contains(x) && dom.contains(y) && #[trigger] f(x) == #[trigger] f(y) implies x == y by {
        if x != y {
            assert(q1.key(x) != q1.key(y));
        }
    }
    assert(vstd::relations::injective_on(f, dom));
    vstd::set_lib::lemma_map_size(dom, img, f);
    assert forall|b: int| img.contains(b) implies rng.contains(b) by {
        let a = choose|a: int| dom.contains(a) && f(a) == b;
    }
    vstd::set_lib::lemma_len_subset(img, rng);
}

/// Relies on str::chars, collected into a Vec: the characters of `s` in order.
#[verifier::external_body]
fn chars_of(s: &str) -> (r: Vec<char>)
    ensures
        r@ == s@,
{
    s.chars().collect()
}

proof fn total_of_update(counts: Seq<u64>, a: int, v: u64)
    requires
        0 <= a < counts.len(),
    ensures
        total_of(counts.update(a, v)) == total_of(counts) - counts[a] + v,
    decreases counts.len(),
{
    if a < counts.len() - 1 {
        total_of_update(counts.drop_last(), a, v);
        assert(counts.update(a, v).drop_last() =~= counts.drop_last().update(a, v));
    } else {
        assert(counts.update(a, v).drop_last() =~= counts.drop_last());
    }
}

proof fn windows_bounded(cs: Seq<char>, map: LayoutPosMap, n: int)
    ensures
        windows(cs, map, n).len() == typeable_count(cs, map, n),
        0 <= typeable_count(cs, map, n) <= if n < 0 { 0 } else { n },
        run_before(cs, map, n).len() <= 3,
    decreases n,
{
    if n > 0 {
        windows_bounded(cs, map, n - 1);
    }
}

proof fn count_le_total(counts: Seq<u64>, a: int)
    requires
        0 <= a < counts.len(),
    ensures
        counts[a] <= total_of(counts),
    decreases counts.len(),
{
    if a < counts.len() - 1 {
        count_le_total(counts.drop_last(), a);
    }
    total_nonneg(counts.drop_last());
}

proof fn total_nonneg(counts: Seq<u64>)
    ensures
        total_of(counts) >= 0,
    decreases counts.len(),
{
    if counts.len() > 0 {
        total_nonneg(counts.drop_last());
    }
}

fn same_chars(a: &Vec<char>, b: &Vec<char>) -> (r: bool)
    ensures
        r == (a@ == b@),
{
    if a.len() != b.len() {
        return false;
    }
    let mut i: usize = 0;
    while i < a.len()
        invariant
            a@.len() == b@.len(),
            i <= a@.len(),
            forall|k: int| 0 <= k < i ==> a@[k] == b@[k],
        decreases a@.len() - i,
    {
        if a[i] != b[i] {
            return false;
        }
        i += 1;
    }
    assert(a@ =~= b@);
    true
}

fn find_key(keys: &Vec<Vec<char>>, w: &Vec<char>) -> (r: Option<usize>)
    ensures
        r is Some ==> r->0 < keys@.len() && keys@[r->0 as int]@ == w@,
        r is None ==> forall|a: int| 0 <= a < keys@.len() ==> keys@[a]@ != w@,
{
    let mut a: usize = 0;
    while a < keys.len()
        invariant
            a <= keys@.len(),
            forall|b: int| 0 <= b < a ==> keys@[b]@ != w@,
        decreases keys@.len() - a,
    {
        if same_chars(&keys[a], w) {
            return Some(a);
        }
        a += 1;
    }
    None
}

/// Counts every window of up to four consecutive typeable characters of
/// `s`; a character that `map` does not know breaks the run.
pub fn prepare_quartad_list(s: &str, map: &LayoutPosMap) -> (r: QuartadList)
    requires
        s@.len() < u64::MAX,
    ensures
        counts_windows(r, windows(s@, *map, s@.len() as int)),
        r.total() == typeable_count(s@, *map, s@.len() as int),
        r.total() <= s@.len(),
{
    let cs = chars_of(s);
    let n = cs.len();
    let mut q = QuartadList { keys: Vec::new(), counts: Vec::new() };
    let mut run: Vec<char> = Vec::new();
    let mut i: usize = 0;
    proof {
        assert(windows(cs@, *map, 0).to_multiset() =~= Multiset::empty());
    }
    while i < n
        invariant
            cs@ == s@,
            n == cs@.len(),
            n < u64::MAX,
            i <= n,
            run@ == run_before(cs@, *map, i as int),
            counts_windows(q, windows(cs@, *map, i as int)),
            q.total() == windows(cs@, *map, i as int).len(),
        decreases n - i,
    {
        let ghost ws = windows(cs@, *map, i as int);
        proof {
            windows_bounded(cs@, *map, i as int);
        }
        let c = cs[i];
        if (c as u32) < 128 && map.0[c as u32 as usize].is_some() {
            let mut w: Vec<char> = Vec::new();
            let mut k: usize = 0;
            while k < run.len()
                invariant
                    k <= run@.len(),
                    w@ == run@.take(k as int),
                decreases run@.len() - k,
            {
                w.push(run[k]);
                k += 1;
                assert(w@ =~= run@.take(k as int));
            }
            w.push(c);
            assert(w@ =~= run@.push(c));
            let ghost nws = ws.push(w@);
            assert(windows(cs@, *map, i + 1) == nws);
            let mut next_run: Vec<char> = Vec::new();
            let start: usize = if w.len() > 3 { 1 } else { 0 };
            let mut k: usize = start;
            while k < w.len()
                invariant
                    start <= k <= w@.len(),
                    next_run@ == w@.subrange(start as int, k as int),
                decreases w@.len() - k,
            {
                next_run.push(w[k]);
                k += 1;
                assert(next_run@ =~= w@.subrange(start as int, k as int));
            }
            assert(next_run@ =~= tail(w@, 3));
            run = next_run;
            match find_key(&q.keys, &w) {
                Some(a) => {
                    let ghost old_q = q;
                    proof {
                        count_le_total(q.counts@, a as int);
                    }
                    let v = q.counts[a] + 1;
                    q.counts.set(a, v);
                    proof {
                        total_of_update(old_q.counts@, a as int, v);
                        assert(nws.to_multiset() =~= ws.to_multiset().insert(w@));
                        assert forall|b: int| 0 <= b < q.len() implies #[trigger] q.count(b)
                            == nws.to_multiset().count(q.key(b)) by {
                            assert(q.key(b) == old_q.key(b));
                            if b != a {
                                assert(q.key(b) != old_q.key(a as int));
                                assert(q.count(b) == old_q.count(b));
                            } else {
                                assert(q.count(b) == old_q.count(b) + 1);
                            }
                        }
                        assert forall|j: int| 0 <= j < nws.len() implies listed(q, #[trigger] nws[j]) by {
                            if j < ws.len() {
                                let b = choose|b: int| 0 <= b < old_q.len() && old_q.key(b) == ws[j];
                                assert(q.key(b) == nws[j]);
                            } else {
                                assert(q.key(a as int) == nws[j]);
                            }
                        }
                        assert forall|b: int| 0 <= b < q.len() implies #[trigger] q.count(b) >= 1 by {
                            if b != a {
                                assert(q.count(b) == old_q.count(b));
                            }
                        }
                        assert(q.keys == old_q.keys);
                        assert(q.counts@.len() == old_q.counts@.len());
                        assert forall|x: int, y: int|
                            0 <= x < q.len() && 0 <= y < q.len() && x != y implies #[trigger] q.key(x) != #[trigger] q.key(y) by {
                            assert(old_q.key(x) != old_q.key(y));
                        }
                        assert forall|x: int| 0 <= x < q.len() implies 1 <= #[trigger] q.key(x).len() <= 4 by {
                            assert(old_q.key(x) == q.key(x));
                        }
                        assert(q.wf());
                    }
                },
                None => {
                    let ghost old_q = q;
                    proof {
                        if ws.to_multiset().count(w@) > 0 {
                            assert(ws.contains(w@));
                            let j = choose|j: int| 0 <= j < ws.len() && ws[j] == w@;
                            let b = choose|b: int| 0 <= b < old_q.len() && old_q.key(b) == ws[j];
                            assert(old_q.keys@[b]@ != w@);
                        }
                        assert(ws.to_multiset().count(w@) == 0);
                    }
                    q.keys.push(w);
                    q.counts.push(1);
                    proof {
                        assert(nws.to_multiset() =~= ws.to_multiset().insert(w@));
                        assert(q.counts@.drop_last() =~= old_q.counts@);
                        assert forall|b: int| 0 <= b < q.len() implies #[trigger] q.count(b)
                            == nws.to_multiset().count(q.key(b)) by {
                            if b < old_q.len() {
                                assert(q.key(b) == old_q.key(b));
                                assert(q.count(b) == old_q.count(b));
                                assert(old_q.keys@[b]@ != w@);
                            } else {
                                assert(q.key(b) == w@);
                                assert(q.count(b) == 1);
                            }
                        }
                        assert forall|j: int| 0 <= j < nws.len() implies listed(q, #[trigger] nws[j]) by {
                            if j < ws.len() {
                                let b = choose|b: int| 0 <= b < old_q.len() && old_q.key(b) == ws[j];
                                assert(q.key(b) == nws[j]);
                            } else {
                                assert(q.key(old_q.len()) == nws[j]);
                            }
                        }
                        assert forall|a: int, b: int|
                            0 <= a < q.len() && 0 <= b < q.len() && a != b implies #[trigger] q.key(a)
                            != #[trigger] q.key(b) by {
                            if a < old_q.len() && b < old_q.len() {
                                assert(q.key(a) == old_q.key(a));
                                assert(q.key(b) == old_q.key(b));
                            } else if a < old_q.len() {
                                assert(q.key(a) == old_q.key(a));
                            } else if b < old_q.len() {
                                assert(q.key(b) == old_q.key(b));
                            }
                        }
                        assert forall|b: int| 0 <= b < q.len() implies #[trigger] q.count(b) >= 1 by {
                            if b < old_q.len() {
                                assert(q.count(b) == old_q.count(b));
                            }
                        }
                        assert forall|b: int| 0 <= b < q.len() implies 1 <= #[trigger] q.key(b).len() <= 4 by {
                            if b < old_q.len() {
                                assert(q.key(b) == old_q.key(b));
                            }
                        }
                    }
                },
            }
        } else {
            run = Vec::new();
            assert(run@ =~= run_before(cs@, *map, i + 1));
            assert(windows(cs@, *map, i + 1) == ws);
        }
        i += 1;
    }
    proof {
        windows_bounded(cs@, *map, n as int);
    }
    q
}

} // verus!
