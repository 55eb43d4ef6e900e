use keygen::layout::Layout;
use keygen::penalty::{calculate_penalty, init, Breakdown, Weights};
use keygen::quartads::{prepare_quartad_list, QuartadList};

fn analyze(corpus: &str) -> QuartadList {
    let map = Layout::shaka_layout().get_position_map();
    prepare_quartad_list(corpus, &map)
}

fn score(corpus: &str) -> i128 {
    calculate_penalty(&analyze(corpus), &Layout::shaka_layout(), &init(), false).total
}

#[test]
fn default_weights() {
    assert_eq!(
        init(),
        Weights {
            same_finger: 20,
            row_skip: 12,
            same_hand_run: 6,
            weak_finger: 4,
            center_stretch: 3,
            alternation: 2,
            inward_roll: 3
        }
    );
}

#[test]
fn weak_finger_cost() {
    // t (left index, home) then h (left pinky, home): an outward roll.
    assert_eq!(score("th"), 4);
}

#[test]
fn inward_roll_reward() {
    // h (left pinky) then t (left index) on the home row.
    assert_eq!(score("ht"), 1);
}

#[test]
fn row_skip_cost() {
    // d (left top) then y (left bottom).
    assert_eq!(score("dy"), 12);
}

#[test]
fn same_finger_and_center_cost() {
    // b (left index, center column) then t (left index).
    assert_eq!(score("bt"), 23);
}

#[test]
fn alternation_reward() {
    // h (left pinky) then a (right ring).
    assert_eq!(score("ha"), 6);
}

#[test]
fn same_hand_run_cost() {
    assert_eq!(score("etoh"), 11);
}

#[test]
fn no_component_scores_zero() {
    assert_eq!(score("ed"), 0);
    assert_eq!(score(""), 0);
}

#[test]
fn verbose_adds_breakdown_only() {
    let q = analyze("etoh");
    let l = Layout::shaka_layout();
    let quiet = calculate_penalty(&q, &l, &init(), false);
    let loud = calculate_penalty(&q, &l, &init(), true);
    assert_eq!(quiet.total, loud.total);
    assert!(quiet.breakdown.is_none());
    assert_eq!(
        loud.breakdown.unwrap(),
        Breakdown {
            same_finger: 0,
            row_skip: 0,
            same_hand_run: 1,
            weak_finger: 2,
            center_stretch: 0,
            alternation: 0,
            inward_roll: 1
        }
    );
}

#[test]
fn counts_scale_contributions() {
    let q = QuartadList { keys: vec![vec!['t', 'h']], counts: vec![7] };
    let r = calculate_penalty(&q, &Layout::shaka_layout(), &init(), false);
    assert_eq!(r.total, 28);
}

#[test]
fn character_missing_from_layout_scores_nothing() {
    let q = QuartadList { keys: vec![vec!['!'], vec!['!', 'h']], counts: vec![3, 2] };
    let r = calculate_penalty(&q, &Layout::shaka_layout(), &init(), true);
    // '!' resolves to nothing: only the weak-finger cost of the last 'h' stays.
    assert_eq!(r.total, 8);
    assert_eq!(r.breakdown.unwrap().weak_finger, 2);
}

#[test]
fn scoring_is_pure() {
    let q = analyze("the quick brown fox jumps over the lazy dog");
    let l = Layout::shaka_layout();
    let a = calculate_penalty(&q, &l, &init(), true);
    let b = calculate_penalty(&q, &l, &init(), true);
    assert_eq!(a, b);
}

#[test]
fn swap_delta_is_sum_of_touched_contributions() {
    let corpus = "the quick brown fox jumps over the lazy dog";
    let q = analyze(corpus);
    let w = init();
    let before = Layout::shaka_layout();
    let mut after = before;
    after.swap(0, 1);
    let moved = ['z', 'g', 'Z', 'G'];
    let total_before = calculate_penalty(&q, &before, &w, false).total;
    let total_after = calculate_penalty(&q, &after, &w, false).total;
    let mut touched_delta: i128 = 0;
    for (a, key) in q.keys.iter().enumerate() {
        let single = QuartadList { keys: vec![key.clone()], counts: vec![q.counts[a]] };
        let b = calculate_penalty(&single, &before, &w, false).total;
        let c = calculate_penalty(&single, &after, &w, false).total;
        if key.iter().any(|ch| moved.contains(ch)) {
            touched_delta += c - b;
        } else {
            assert_eq!(b, c);
        }
    }
    assert_eq!(total_after - total_before, touched_delta);
    assert_ne!(touched_delta, 0);
}
