use vstd::prelude::*;
use vstd::string::*;

verus! {

/// Slot-indexed table over the 30-key grid:
///
/// ```text
///    LEFT HAND     |    RIGHT HAND
///  0  1  2  3  4   |  5  6  7  8  9
/// 10 11 12 13 14   | 15 16 17 18 19
/// 20 21 22 23 24   | 25 26 27 28 29
/// ```
#[derive(Clone, Copy)]
pub struct KeyMap<T>(pub [T; 30]);

/// One character per grid slot.
#[derive(Clone, Copy)]
pub struct Layer(pub KeyMap<char>);

/// A base layer and its shifted layer; slot `i` of both is the same key.
#[derive(Clone, Copy)]
pub struct Layout(pub Layer, pub Layer);

/// A flag per grid slot, `true` where the slot takes part in swaps.
#[derive(Clone, Copy)]
pub struct LayoutShuffleMask(pub KeyMap<bool>);

/// Position map over the ASCII range: entry `c` describes the key typing `c`.
pub struct LayoutPosMap(pub [Option<KeyPress>; 128]);

#[derive(Clone, Copy, PartialEq, Eq, Structural, Debug)]
pub enum Finger {
    Index,
    Middle,
    Ring,
    Pinky,
}

#[derive(Clone, Copy, PartialEq, Eq, Structural, Debug)]
pub enum Hand {
    Left,
    Right,
}

#[derive(Clone, Copy, PartialEq, Eq, Structural, Debug)]
pub enum Row {
    Top,
    Home,
    Bottom,
}

/// Everything the scoring needs to know about the key that types `kc`.
#[derive(Clone, Copy, PartialEq, Eq, Structural, Debug)]
pub struct KeyPress {
    pub kc: char,
    pub pos: usize,
    pub finger: Finger,
    pub hand: Hand,
    pub row: Row,
    pub center: bool,
}

/// Number of slots that take part in swaps; slot 10 stays where it is.
pub const NUM_SWAPPABLE: usize = 29;

/// The slot that swaps never touch.
pub const PINNED_SLOT: usize = 10;

/// Grid slot of the `k`-th swappable position.
pub open spec fn swap_slot(k: int) -> int {
    if k < 10 { k } else { k + 1 }
}

pub open spec fn key_finger(pos: int) -> Finger {
    let col = pos % 10;
    if col == 0 || col == 9 {
        Finger::Pinky
    } else if col == 1 || col == 8 {
        Finger::Ring
    } else if col == 2 || col == 7 {
        Finger::Middle
    } else {
        Finger::Index
    }
}

pub open spec fn key_hand(pos: int) -> Hand {
    if pos % 10 < 5 { Hand::Left } else { Hand::Right }
}

pub open spec fn key_row(pos: int) -> Row {
    if pos < 10 { Row::Top } else if pos < 20 { Row::Home } else { Row::Bottom }
}

pub open spec fn key_center(pos: int) -> bool {
    pos % 10 == 4 || pos % 10 == 5
}

/// The key press for character `c` typed at slot `pos`.
pub open spec fn key_press_at(c: char, pos: int) -> KeyPress {
    KeyPress {
        kc: c,
        pos: pos as usize,
        finger: key_finger(pos),
        hand: key_hand(pos),
        row: key_row(pos),
        center: key_center(pos),
    }
}

/// Offset in a layout specification string of the character for slot `i`
/// of the base layer (six characters per half row, the sixth unused).
pub open spec fn file_index(i: int) -> int {
    i + i / 5
}

/// Marker for a slot with no character.
pub const UNASSIGNED: char = '\0';

pub open spec fn char_or_unassigned(s: Seq<char>, k: int) -> char {
    if 0 <= k < s.len() { s[k] } else { UNASSIGNED }
}

/// Index of the last occurrence of `c` among the first `n` entries of `s`, or -1.
pub open spec fn last_index_of(s: Seq<char>, c: char, n: int) -> int
    decreases n,
{
    if n <= 0 {
        -1
    } else if s[n - 1] == c {
        n - 1
    } else {
        last_index_of(s, c, n - 1)
    }
}

pub open spec fn code(c: char) -> int {
    c as u32 as int
}

proof fn code_injective(a: char, b: char)
    ensures code(a) == code(b) ==> a == b,
{
}

pub open spec fn init_lower() -> Seq<char> {
    seq!['j', 'c', 'y', 'f', 'k', 'n', 'u', ',', 'l', 'q', 'r', 's', 't', 'h', 'd', 'm', 'e', 'a', 'i', 'o', '/', 'v', 'g', 'p', 'b', 'x', 'w', '.', ';', 'z']
}

pub open spec fn init_upper() -> Seq<char> {
    seq!['J', 'C', 'Y', 'F', 'K', 'N', 'U', '<', 'L', 'Q', 'A', 'R', 'N', 'S', 'D', 'M', 'E', 'A', 'I', 'O', '?', 'V', 'G', 'P', 'B', 'X', 'W', '>', ':', 'Z']
}

pub open spec fn shaka_lower() -> Seq<char> {
    seq!['z', 'g', 'u', 'd', 'b', 'j', 'r', 'c', 'f', ';', 'h', 'o', 'e', 't', 'p', 'v', 'n', 's', 'a', 'i', 'q', '.', 'y', 'w', 'k', 'x', 'l', 'm', ',', '/']
}

pub open spec fn shaka_upper() -> Seq<char> {
    seq!['Z', 'G', 'U', 'D', 'B', 'J', 'R', 'C', 'F', ':', 'H', 'O', 'E', 'T', 'P', 'V', 'N', 'S', 'A', 'I', 'Q', '>', 'Y', 'W', 'K', 'X', 'L', 'M', '<', '?']
}

/// Exchanges two entries of a sequence.
pub open spec fn swapped<T>(s: Seq<T>, i: int, j: int) -> Seq<T> {
    s.update(i, s[j]).update(j, s[i])
}

pub fn finger_at(pos: usize) -> (r: Finger)
    requires
        pos < 30,
    ensures
        r == key_finger(pos as int),
{
    let col = pos % 10;
    if col == 0 || col == 9 {
        Finger::Pinky
    } else if col == 1 || col == 8 {
        Finger::Ring
    } else if col == 2 || col == 7 {
        Finger::Middle
    } else {
        Finger::Index
    }
}

pub fn hand_at(pos: usize) -> (r: Hand)
    requires
        pos < 30,
    ensures
        r == key_hand(pos as int),
{
    if pos % 10 < 5 { Hand::Left } else { Hand::Right }
}

pub fn row_at(pos: usize) -> (r: Row)
    requires
        pos < 30,
    ensures
        r == key_row(pos as int),
{
    if pos < 10 { Row::Top } else if pos < 20 { Row::Home } else { Row::Bottom }
}

pub fn center_at(pos: usize) -> (r: bool)
    requires
        pos < 30,
    ensures
        r == key_center(pos as int),
{
    pos % 10 == 4 || pos % 10 == 5
}

/// The character at offset `k` of `s`, or the unassigned marker past its end.
fn char_at_or_unassigned(s: &str, len: usize, k: usize) -> (r: char)
    requires
        len == s@.len(),
    ensures
        r == char_or_unassigned(s@, k as int),
{
    if k < len {
        s.get_char(k)
    } else {
        UNASSIGNED
    }
}

impl Layer {
    pub open spec fn keys(&self) -> Seq<char> {
        self.0.0@
    }

    /// Exchanges the characters at slots `i` and `j`.
    pub fn swap(&mut self, i: usize, j: usize)
        requires
            i < 30,
            j < 30,
        ensures
            final(self).keys() == swapped(old(self).keys(), i as int, j as int),
    {
        let temp = self.0.0[i];
        self.0.0[i] = self.0.0[j];
        self.0.0[j] = temp;
        assert(self.keys() =~= swapped(old(self).keys(), i as int, j as int));
    }
}

/// The entry for `c` after writing the first `n` slots of `layer` into a map
/// whose entry was `prev`.
pub open spec fn filled_entry(layer: Seq<char>, n: int, prev: Option<KeyPress>, c: char) -> Option<KeyPress> {
    let i = last_index_of(layer, c, n);
    if i >= 0 { Some(key_press_at(c, i)) } else { prev }
}

/// What a position map built from `lower` and then `upper` says of `c`.
pub open spec fn position_entry(lower: Seq<char>, upper: Seq<char>, c: char) -> Option<KeyPress> {
    if code(c) < 128 {
        filled_entry(upper, 30, filled_entry(lower, 30, None, c), c)
    } else {
        None
    }
}

/// The (base, shifted) character pair of each slot.
pub open spec fn key_pairs(l: Layout) -> Seq<(char, char)> {
    Seq::new(30, |k: int| (l.lower()[k], l.upper()[k]))
}

/// `p` maps each slot to the slot its content came from; it is one to one
/// and leaves the pinned slot in place.
pub open spec fn slot_permutation(p: Seq<int>) -> bool {
    &&& p.len() == 30
    &&& p[PINNED_SLOT as int] == PINNED_SLOT as int
    &&& forall|k: int| 0 <= k < 30 ==> 0 <= #[trigger] p[k] < 30
    &&& forall|a: int, b: int| 0 <= a < 30 && 0 <= b < 30 && a != b ==> #[trigger] p[a] != #[trigger] p[b]
}

/// Both layers of `after` are those of `before`, rearranged by the same `p`.
pub open spec fn rearranged(before: Layout, after: Layout, p: Seq<int>) -> bool {
    forall|k: int|
        0 <= k < 30 ==> #[trigger] after.lower()[k] == before.lower()[p[k]] && after.upper()[k]
            == before.upper()[p[k]]
}

/// The slot pair that a random swap picks from the draws `a` and `b`: the
/// first among the 29 swappable positions, the second among the other 28.
pub open spec fn swap_pair_of(a: int, b: int) -> (int, int) {
    let i = a % 29;
    let j0 = b % 28;
    let j = if j0 >= i { j0 + 1 } else { j0 };
    (swap_slot(i), swap_slot(j))
}

/// `s` after the swaps of `ps`, first to last.
pub open spec fn apply_swaps(s: Seq<char>, ps: Seq<(int, int)>) -> Seq<char>
    decreases ps.len(),
{
    if ps.len() == 0 {
        s
    } else {
        swapped(apply_swaps(s, ps.drop_last()), ps.last().0, ps.last().1)
    }
}

/// Each swap exchanges two distinct slots, neither of them the pinned one.
pub open spec fn valid_swaps(ps: Seq<(int, int)>) -> bool {
    forall|t: int|
        0 <= t < ps.len() ==> #[trigger] ps[t].0 != ps[t].1 && 0 <= ps[t].0 < 30 && 0 <= ps[t].1 < 30
            && ps[t].0 != PINNED_SLOT && ps[t].1 != PINNED_SLOT
}

/// The swaps that the draws pick, two draws per swap.
pub open spec fn draw_pairs(draws: Seq<usize>) -> Seq<(int, int)> {
    Seq::new(draws.len() / 2, |t: int| swap_pair_of(draws[2 * t] as int, draws[2 * t + 1] as int))
}

/// A sequence of valid swaps moves both layers by one slot permutation.
pub proof fn swaps_permute(lower: Seq<char>, upper: Seq<char>, ps: Seq<(int, int)>) -> (p: Seq<int>)
    requires
        lower.len() == 30,
        upper.len() == 30,
        valid_swaps(ps),
    ensures
        slot_permutation(p),
        apply_swaps(lower, ps).len() == 30,
        apply_swaps(upper, ps).len() == 30,
        forall|k: int|
            0 <= k < 30 ==> #[trigger] apply_swaps(lower, ps)[k] == lower[p[k]] && apply_swaps(upper, ps)[k]
                == upper[p[k]],
    decreases ps.len(),
{
    if ps.len() == 0 {
        Seq::new(30, |k: int| k)
    } else {
        let prev = ps.drop_last();
        assert(valid_swaps(prev)) by {
            assert forall|t: int| 0 <= t < prev.len() implies #[trigger] prev[t].0 != prev[t].1 && 0 <= prev[t].0 < 30
                && 0 <= prev[t].1 < 30 && prev[t].0 != PINNED_SLOT && prev[t].1 != PINNED_SLOT by {
                assert(prev[t] == ps[t]);
            }
        }
        let p = swaps_permute(lower, upper, prev);
        let i = ps.last().0;
        let j = ps.last().1;
        assert(ps[ps.len() - 1] == ps.last());
        assert(0 <= i < 30 && 0 <= j < 30);
        let lo = apply_swaps(lower, prev);
        let up = apply_swaps(upper, prev);
        assert(apply_swaps(lower, ps) == swapped(lo, i, j));
        assert(apply_swaps(upper, ps) == swapped(up, i, j));
        let q = swapped(p, i, j);
        assert forall|k: int| 0 <= k < 30 implies #[trigger] apply_swaps(lower, ps)[k] == lower[q[k]]
            && apply_swaps(upper, ps)[k] == upper[q[k]] by {
            assert(lo[k] == lower[p[k]]);
            assert(lo[i] == lower[p[i]]);
            assert(lo[j] == lower[p[j]]);
            assert(up[k] == upper[p[k]]);
            assert(up[i] == upper[p[i]]);
            assert(up[j] == upper[p[j]]);
        }
        assert forall|a: int, b: int| 0 <= a < 30 && 0 <= b < 30 && a != b implies #[trigger] q[a]
            != #[trigger] q[b] by {
            assert(p[a] != p[b]);
            assert(p[a] != p[j] || a == j);
            assert(p[a] != p[i] || a == i);
            assert(p[b] != p[j] || b == j);
            assert(p[b] != p[i] || b == i);
        }
        q
    }
}

/// Relies on rand::random: a usize drawn from the thread-local generator.
#[verifier::external_body]
fn random_usize() -> (r: usize) {
    rand::random::<usize>()
}

/// Swapping the same two slots twice gives back the layer that was there.
pub proof fn swap_twice_restores(s: Seq<char>, i: int, j: int)
    requires
        s.len() == 30,
        0 <= i < 30,
        0 <= j < 30,
    ensures
        swapped(swapped(s, i, j), i, j) == s,
{
    assert(swapped(swapped(s, i, j), i, j) =~= s);
}

/// A swap of both layers moves each (base, shifted) pair as a unit.
pub proof fn swap_keeps_shift_pairs(before: Layout, after: Layout, i: int, j: int)
    requires
        0 <= i < 30,
        0 <= j < 30,
        after.lower() == swapped(before.lower(), i, j),
        after.upper() == swapped(before.upper(), i, j),
    ensures
        key_pairs(after) == swapped(key_pairs(before), i, j),
{
    assert(key_pairs(after) =~= swapped(key_pairs(before), i, j));
}

/// A character that a layout assigns to slot `i` alone resolves to slot `i`;
/// a character that no slot holds resolves to nothing.
pub proof fn position_map_round_trip(l: Layout, c: char, i: int)
    requires
        code(c) < 128,
        0 <= i < 30,
        l.lower()[i] == c || l.upper()[i] == c,
        forall|k: int|
            #![trigger l.lower()[k]]
            #![trigger l.upper()[k]]
            0 <= k < 30 && k != i ==> l.lower()[k] != c && l.upper()[k] != c,
    ensures
        position_entry(l.lower(), l.upper(), c) == Some(key_press_at(c, i)),
{
    last_index_only(l.lower(), c, i, 30);
    last_index_only(l.upper(), c, i, 30);
}

/// A character found in neither layer has no entry.
pub proof fn position_map_absent(l: Layout, c: char)
    requires
        !l.lower().contains(c),
        !l.upper().contains(c),
    ensures
        position_entry(l.lower(), l.upper(), c) is None,
{
    last_index_absent(l.lower(), c, 30);
    last_index_absent(l.upper(), c, 30);
}

proof fn last_index_only(s: Seq<char>, c: char, i: int, n: int)
    requires
        0 <= i < 30,
        0 <= n <= 30,
        s.len() == 30,
        forall|k: int| 0 <= k < 30 && k != i ==> #[trigger] s[k] != c,
    ensures
        last_index_of(s, c, n) == (if s[i] == c && i < n { i } else { -1 }),
    decreases n,
{
    if n > 0 {
        last_index_only(s, c, i, n - 1);
    }
}

proof fn last_index_absent(s: Seq<char>, c: char, n: int)
    requires
        0 <= n <= s.len(),
        !s.contains(c),
    ensures
        last_index_of(s, c, n) == -1,
    decreases n,
{
    if n > 0 {
        assert(s[n - 1] != c);
        last_index_absent(s, c, n - 1);
    }
}

impl Layout {
    pub open spec fn lower(&self) -> Seq<char> {
        self.0.keys()
    }

    pub open spec fn upper(&self) -> Seq<char> {
        self.1.keys()
    }

    /// The layout the searches start from by default.
    pub fn shaka_layout() -> (r: Layout)
        ensures
            r.lower() == shaka_lower(),
            r.upper() == shaka_upper(),
    {
        let r = Layout(
            Layer(KeyMap(['z', 'g', 'u', 'd', 'b', 'j', 'r', 'c', 'f', ';', 'h', 'o', 'e', 't', 'p', 'v', 'n', 's', 'a', 'i', 'q', '.', 'y', 'w', 'k', 'x', 'l', 'm', ',', '/'])),
            Layer(KeyMap(['Z', 'G', 'U', 'D', 'B', 'J', 'R', 'C', 'F', ':', 'H', 'O', 'E', 'T', 'P', 'V', 'N', 'S', 'A', 'I', 'Q', '>', 'Y', 'W', 'K', 'X', 'L', 'M', '<', '?'])),
        );
        assert(r.lower() =~= shaka_lower());
        assert(r.upper() =~= shaka_upper());
        r
    }

    /// The reference layout that quartads are resolved against by default.
    pub fn init_layout() -> (r: Layout)
        ensures
            r.lower() == init_lower(),
            r.upper() == init_upper(),
    {
        let r = Layout(
            Layer(KeyMap(['j', 'c', 'y', 'f', 'k', 'n', 'u', ',', 'l', 'q', 'r', 's', 't', 'h', 'd', 'm', 'e', 'a', 'i', 'o', '/', 'v', 'g', 'p', 'b', 'x', 'w', '.', ';', 'z'])),
            Layer(KeyMap(['J', 'C', 'Y', 'F', 'K', 'N', 'U', '<', 'L', 'Q', 'A', 'R', 'N', 'S', 'D', 'M', 'E', 'A', 'I', 'O', '?', 'V', 'G', 'P', 'B', 'X', 'W', '>', ':', 'Z'])),
        );
        assert(r.lower() =~= init_lower());
        assert(r.upper() =~= init_upper());
        r
    }

    /// Reads a layout specification: slot `i` of the base layer takes the
    /// character at `file_index(i)`, the shifted layer the one 36 further on;
    /// characters past the end of `s` leave the slot unassigned.
    pub fn from_string(s: &str) -> (r: Layout)
        ensures
            forall|i: int|
                0 <= i < 30 ==> #[trigger] r.lower()[i] == char_or_unassigned(s@, file_index(i))
                    && r.upper()[i] == char_or_unassigned(s@, file_index(i) + 36),
    {
        let len = s.unicode_len();
        let mut lower: [char; 30] = [UNASSIGNED; 30];
        let mut upper: [char; 30] = [UNASSIGNED; 30];
        let mut i: usize = 0;
        while i < 30
            invariant
                i <= 30,
                len == s@.len(),
                forall|k: int|
                    0 <= k < i ==> #[trigger] lower@[k] == char_or_unassigned(s@, file_index(k)),
                forall|k: int|
                    0 <= k < i ==> #[trigger] upper@[k] == char_or_unassigned(s@, file_index(k) + 36),
            decreases 30 - i,
        {
            let file_i = i + i / 5;
            let ghost prev_lower = lower@;
            let ghost prev_upper = upper@;
            lower[i] = char_at_or_unassigned(s, len, file_i);
            upper[i] = char_at_or_unassigned(s, len, file_i + 36);
            assert(lower@ == prev_lower.update(i as int, lower@[i as int]));
            assert(upper@ == prev_upper.update(i as int, upper@[i as int]));
            assert forall|k: int| 0 <= k < i + 1 implies #[trigger] lower@[k] == char_or_unassigned(s@, file_index(k)) by {
                if k < i {
                    assert(lower@[k] == prev_lower[k]);
                }
            }
            assert forall|k: int| 0 <= k < i + 1 implies #[trigger] upper@[k] == char_or_unassigned(s@, file_index(k) + 36) by {
                if k < i {
                    assert(upper@[k] == prev_upper[k]);
                }
            }
            i += 1;
        }
        Layout(Layer(KeyMap(lower)), Layer(KeyMap(upper)))
    }

    /// Exchanges slots `i` and `j` in both layers together.
    pub fn swap(&mut self, i: usize, j: usize)
        requires
            i < 30,
            j < 30,
        ensures
            final(self).lower() == swapped(old(self).lower(), i as int, j as int),
            final(self).upper() == swapped(old(self).upper(), i as int, j as int),
    {
        self.0.swap(i, j);
        self.1.swap(i, j);
    }

    /// The slot pair for one random swap, from two draws `a` and `b`.
    pub fn shuffle_position_from(a: usize, b: usize) -> (r: (usize, usize))
        ensures
            r.0 as int == swap_pair_of(a as int, b as int).0,
            r.1 as int == swap_pair_of(a as int, b as int).1,
            r.0 < 30,
            r.1 < 30,
            r.0 != r.1,
            r.0 != PINNED_SLOT,
            r.1 != PINNED_SLOT,
    {
        let mut i = a % NUM_SWAPPABLE;
        let mut j = b % (NUM_SWAPPABLE - 1);
        if j >= i {
            j += 1;
        }
        if i >= 10 {
            i += 1;
        }
        if j >= 10 {
            j += 1;
        }
        (i, j)
    }

    /// Two distinct swappable slots, drawn at random.
    fn shuffle_position() -> (r: (usize, usize))
        ensures
            r.0 < 30,
            r.1 < 30,
            r.0 != r.1,
            r.0 != PINNED_SLOT,
            r.1 != PINNED_SLOT,
    {
        let a = random_usize();
        let b = random_usize();
        Layout::shuffle_position_from(a, b)
    }

    /// Applies `times` random swaps of two distinct swappable slots to both layers.
    pub fn shuffle(&mut self, times: usize)
        ensures
            exists|ps: Seq<(int, int)>|
                ps.len() == times && valid_swaps(ps) && final(self).lower() == apply_swaps(old(self).lower(), ps)
                    && final(self).upper() == apply_swaps(old(self).upper(), ps),
            exists|p: Seq<int>| slot_permutation(p) && rearranged(*old(self), *final(self), p),
    {
        let ghost start = *self;
        let ghost mut ps: Seq<(int, int)> = Seq::empty();
        let mut n: usize = 0;
        while n < times
            invariant
                start == *old(self),
                n <= times,
                ps.len() == n,
                valid_swaps(ps),
                self.lower() == apply_swaps(start.lower(), ps),
                self.upper() == apply_swaps(start.upper(), ps),
            decreases times - n,
        {
            let (i, j) = Layout::shuffle_position();
            self.swap(i, j);
            proof {
                let next = ps.push((i as int, j as int));
                assert(next.drop_last() =~= ps);
                ps = next;
            }
            n += 1;
        }
        proof {
            let p = swaps_permute(start.lower(), start.upper(), ps);
            assert forall|k: int| 0 <= k < 30 implies #[trigger] self.lower()[k] == start.lower()[p[k]]
                && self.upper()[k] == start.upper()[p[k]] by {
                assert(apply_swaps(start.lower(), ps)[k] == start.lower()[p[k]]);
            }
            assert(rearranged(start, *self, p));
        }
    }

    /// Applies one swap for each two draws of `draws`, each pair of draws
    /// picked as `shuffle_position_from` picks it; a last odd draw is unused.
    pub fn shuffle_with(&mut self, draws: &Vec<usize>)
        ensures
            final(self).lower() == apply_swaps(old(self).lower(), draw_pairs(draws@)),
            final(self).upper() == apply_swaps(old(self).upper(), draw_pairs(draws@)),
    {
        let ghost start = *self;
        let ghost all = draw_pairs(draws@);
        let len = draws.len();
        let n = len / 2;
        let mut t: usize = 0;
        while t < n
            invariant
                start == *old(self),
                len == draws@.len(),
                n == len / 2,
                all == draw_pairs(draws@),
                t <= n,
                self.lower() == apply_swaps(start.lower(), all.take(t as int)),
                self.upper() == apply_swaps(start.upper(), all.take(t as int)),
            decreases n - t,
        {
            assert(2 * t + 1 < len);
            let (i, j) = Layout::shuffle_position_from(draws[2 * t], draws[2 * t + 1]);
            self.swap(i, j);
            assert(all.take(t + 1).drop_last() =~= all.take(t as int));
            t += 1;
        }
        assert(all.take(n as int) =~= all);
    }

    /// Builds the position map: the base layer is written first and the
    /// shifted layer over it, so a character present in both resolves to its
    /// slot in the shifted layer, and one repeated within a layer to its last slot.
    pub fn get_position_map(&self) -> (r: LayoutPosMap)
        ensures
            forall|c: char|
                code(c) < 128 ==> #[trigger] r.0@[code(c)] == position_entry(self.lower(), self.upper(), c),
    {
        let mut map: [Option<KeyPress>; 128] = [None; 128];
        self.0.fill_position_map(&mut map);
        self.1.fill_position_map(&mut map);
        LayoutPosMap(map)
    }
}

impl Layer {
    /// Writes the key press of each slot's character into `map`, slot by slot.
    pub fn fill_position_map(&self, map: &mut [Option<KeyPress>; 128])
        ensures
            forall|c: char|
                code(c) < 128 ==> #[trigger] final(map)@[code(c)] == filled_entry(self.keys(), 30, old(map)@[code(c)], c),
    {
        let mut i: usize = 0;
        while i < 30
            invariant
                i <= 30,
                forall|c: char|
                    code(c) < 128 ==> #[trigger] map@[code(c)] == filled_entry(
                        self.keys(),
                        i as int,
                        old(map)@[code(c)],
                        c,
                    ),
            decreases 30 - i,
        {
            let c = self.0.0[i];
            let ghost prev = map@;
            let cu = c as u32;
            assert(cu as int == code(c));
            if cu < 128 {
                map[cu as usize] = Some(
                    KeyPress {
                        kc: c,
                        pos: i,
                        finger: finger_at(i),
                        hand: hand_at(i),
                        row: row_at(i),
                        center: center_at(i),
                    },
                );
            }
            assert forall|d: char| code(d) < 128 implies #[trigger] map@[code(d)] == filled_entry(
                self.keys(),
                i + 1,
                old(map)@[code(d)],
                d,
            ) by {
                code_injective(c, d);
                if code(c) < 128 {
                    assert(map@ == prev.update(code(c), Some(key_press_at(c, i as int))));
                } else {
                    assert(map@ == prev);
                }
                assert(prev[code(d)] == filled_entry(self.keys(), i as int, old(map)@[code(d)], d));
            }
            i += 1;
        }
    }
}

impl LayoutPosMap {
    /// The key press for `kc`, or `None` where no key types it.
    pub fn get_key_position(&self, kc: char) -> (r: Option<KeyPress>)
        ensures
            r == (if code(kc) < 128 { self.0@[code(kc)] } else { None }),
    {
        if (kc as u32) < 128 {
            self.0[kc as u32 as usize]
        } else {
            None
        }
    }
}

} // verus!
