use keygen::layout::{Finger, Hand, KeyPress, Layer, Layout, Row, PINNED_SLOT};

fn lower(l: &Layout) -> Vec<char> {
    (l.0).0 .0.to_vec()
}

fn upper(l: &Layout) -> Vec<char> {
    (l.1).0 .0.to_vec()
}

#[test]
fn from_string_reads_both_layers() {
    let spec = "qwert_yuiop_asdfg_hjkl;_zxcvb_nm,./_QWERT_YUIOP_ASDFG_HJKL:_ZXCVB_NM<>?_";
    let l = Layout::from_string(spec);
    assert_eq!(lower(&l).iter().collect::<String>(), "qwertyuiopasdfghjkl;zxcvbnm,./");
    assert_eq!(upper(&l).iter().collect::<String>(), "QWERTYUIOPASDFGHJKL:ZXCVBNM<>?");
}

#[test]
fn from_string_short_input_leaves_slots_unassigned() {
    let l = Layout::from_string("abcde_fg");
    assert_eq!(&lower(&l)[..7], &['a', 'b', 'c', 'd', 'e', 'f', 'g']);
    assert!(lower(&l)[7..].iter().all(|c| *c == '\0'));
    assert!(upper(&l).iter().all(|c| *c == '\0'));
}

#[test]
fn swap_twice_is_identity() {
    let orig = Layout::shaka_layout();
    let mut l = orig;
    l.swap(3, 27);
    assert_ne!(lower(&l), lower(&orig));
    l.swap(3, 27);
    assert_eq!(lower(&l), lower(&orig));
    assert_eq!(upper(&l), upper(&orig));
}

#[test]
fn swap_moves_both_layers_together() {
    let mut l = Layout::shaka_layout();
    l.swap(0, 29);
    assert_eq!(lower(&l)[0], '/');
    assert_eq!(upper(&l)[0], '?');
    assert_eq!(lower(&l)[29], 'z');
    assert_eq!(upper(&l)[29], 'Z');
}

#[test]
fn layer_swap_exchanges_two_slots() {
    let mut layer: Layer = Layout::shaka_layout().0;
    layer.swap(1, 2);
    assert_eq!(layer.0 .0[1], 'u');
    assert_eq!(layer.0 .0[2], 'g');
}

#[test]
fn position_map_finds_lower_and_upper() {
    let l = Layout::shaka_layout();
    let map = l.get_position_map();
    let e = map.get_key_position('e').unwrap();
    assert_eq!(
        e,
        KeyPress { kc: 'e', pos: 12, finger: Finger::Middle, hand: Hand::Left, row: Row::Home, center: false }
    );
    let p = map.get_key_position('P').unwrap();
    assert_eq!(p.pos, 14);
    assert_eq!(p.finger, Finger::Index);
    assert!(p.center);
    let slash = map.get_key_position('/').unwrap();
    assert_eq!(slash.pos, 29);
    assert_eq!(slash.hand, Hand::Right);
    assert_eq!(slash.row, Row::Bottom);
    assert_eq!(slash.finger, Finger::Pinky);
}

#[test]
fn position_map_absent_characters() {
    let map = Layout::shaka_layout().get_position_map();
    assert!(map.get_key_position('!').is_none());
    assert!(map.get_key_position('é').is_none());
    assert!(map.get_key_position('\u{1F600}').is_none());
}

#[test]
fn position_map_duplicate_resolves_to_later_write() {
    // The reference layout holds 'N' twice and 'A' twice in its shifted layer.
    let map = Layout::init_layout().get_position_map();
    assert_eq!(map.get_key_position('N').unwrap().pos, 12);
    assert_eq!(map.get_key_position('A').unwrap().pos, 17);
    assert_eq!(map.get_key_position('n').unwrap().pos, 5);
}

#[test]
fn position_map_round_trip_every_slot() {
    let l = Layout::shaka_layout();
    let map = l.get_position_map();
    for i in 0..30 {
        assert_eq!(map.get_key_position(lower(&l)[i]).unwrap().pos, i);
        assert_eq!(map.get_key_position(upper(&l)[i]).unwrap().pos, i);
    }
}

#[test]
fn shuffle_position_from_exact_values() {
    assert_eq!(Layout::shuffle_position_from(0, 0), (0, 1));
    assert_eq!(Layout::shuffle_position_from(9, 9), (9, 11));
    assert_eq!(Layout::shuffle_position_from(10, 3), (11, 3));
    assert_eq!(Layout::shuffle_position_from(28, 27), (29, 28));
    assert_eq!(Layout::shuffle_position_from(29 + 5, 28 + 5), (5, 6));
}

#[test]
fn shuffle_position_from_never_pins_or_repeats() {
    for a in 0..60usize {
        for b in 0..60usize {
            let (i, j) = Layout::shuffle_position_from(a, b);
            assert!(i < 30 && j < 30 && i != j);
            assert!(i != PINNED_SLOT && j != PINNED_SLOT);
        }
    }
}

#[test]
fn shuffle_keeps_pairs_and_pinned_slot() {
    let orig = Layout::shaka_layout();
    let mut l = orig;
    l.shuffle(50);
    assert_eq!(lower(&l)[PINNED_SLOT], lower(&orig)[PINNED_SLOT]);
    let mut before: Vec<(char, char)> = lower(&orig).into_iter().zip(upper(&orig)).collect();
    let mut after: Vec<(char, char)> = lower(&l).into_iter().zip(upper(&l)).collect();
    before.sort();
    after.sort();
    assert_eq!(before, after);
}

#[test]
fn shuffle_zero_times_changes_nothing() {
    let orig = Layout::shaka_layout();
    let mut l = orig;
    l.shuffle(0);
    assert_eq!(lower(&l), lower(&orig));
    assert_eq!(upper(&l), upper(&orig));
}

#[test]
fn shuffle_with_applies_drawn_swaps() {
    let orig = Layout::shaka_layout();
    let mut l = orig;
    // (0, 0) picks slots 0 and 1; (28, 27) picks slots 29 and 28.
    l.shuffle_with(&vec![0, 0, 28, 27, 5]);
    let mut expected = orig;
    expected.swap(0, 1);
    expected.swap(29, 28);
    assert_eq!(lower(&l), lower(&expected));
    assert_eq!(upper(&l), upper(&expected));
}

#[test]
fn shuffle_with_same_draws_same_layout() {
    let draws = vec![3usize, 17, 40, 2, 99, 1000, 7, 7];
    let mut a = Layout::shaka_layout();
    let mut b = Layout::shaka_layout();
    a.shuffle_with(&draws);
    b.shuffle_with(&draws);
    assert_eq!(lower(&a), lower(&b));
    assert_eq!(upper(&a), upper(&b));
}
