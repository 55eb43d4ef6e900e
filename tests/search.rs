use keygen::annealing::{accepts, anneal, cool, simulate, Schedule};
use keygen::layout::Layout;
use keygen::penalty::{calculate_penalty, init};
use keygen::permutations::LayoutPermutations;
use keygen::quartads::{prepare_quartad_list, QuartadList};
use keygen::search::{refine_step, ResultSet, Scored};

const CORPUS: &str = "the quick brown fox jumps over the lazy dog";

fn analyze(corpus: &str) -> QuartadList {
    let map = Layout::shaka_layout().get_position_map();
    prepare_quartad_list(corpus, &map)
}

fn lower(l: &Layout) -> Vec<char> {
    (l.0).0 .0.to_vec()
}

fn scored(p: i128) -> Scored {
    Scored { layout: Layout::shaka_layout(), penalty: p }
}

#[test]
fn result_set_keeps_lowest_sorted() {
    let mut r = ResultSet::new(3);
    for p in [5, 1, 9, 3, 7, 0] {
        r.insert(scored(p));
    }
    let ps: Vec<i128> = r.entries.iter().map(|e| e.penalty).collect();
    assert_eq!(ps, vec![0, 1, 3]);
}

#[test]
fn result_set_equal_penalties_keep_insertion_order() {
    let mut r = ResultSet::new(2);
    let mut first = scored(4);
    first.layout.swap(0, 1);
    r.insert(first);
    r.insert(scored(4));
    assert_eq!(r.entries.len(), 2);
    assert_eq!(lower(&r.entries[0].layout)[0], 'g');
    assert_eq!(lower(&r.entries[1].layout)[0], 'z');
}

#[test]
fn result_set_of_capacity_zero_stays_empty() {
    let mut r = ResultSet::new(0);
    r.insert(scored(1));
    assert!(r.entries.is_empty());
}

#[test]
fn refine_step_finds_best_neighbour() {
    let q = analyze(CORPUS);
    let w = init();
    let start = Layout::shaka_layout();
    let mut results = ResultSet::new(5);
    let best = refine_step(&q, &start, &w, 1, &mut results);
    let mut min = calculate_penalty(&q, &start, &w, false).total;
    let mut perms = LayoutPermutations::new(&start, 1);
    while let Some(l) = perms.next() {
        min = min.min(calculate_penalty(&q, &l, &w, false).total);
    }
    assert_eq!(best.penalty, min);
    assert_eq!(calculate_penalty(&q, &best.layout, &w, false).total, best.penalty);
    assert_eq!(results.entries.len(), 5);
    assert_eq!(results.entries[0].penalty, min);
}

#[test]
fn refine_from_local_optimum_finds_nothing_better() {
    let q = analyze(CORPUS);
    let w = init();
    let (best, results) = keygen::search::refine(&q, &Layout::shaka_layout(), &w, 3, 1);
    assert!(results.entries.len() <= 3);
    let mut again = ResultSet::new(1);
    let step = refine_step(&q, &best.layout, &w, 1, &mut again);
    assert_eq!(step.penalty, best.penalty);
    let mut perms = LayoutPermutations::new(&best.layout, 1);
    while let Some(l) = perms.next() {
        assert!(calculate_penalty(&q, &l, &w, false).total >= best.penalty);
    }
}

#[test]
fn refine_never_worsens() {
    let (best, _) = keygen::refine(CORPUS, &Layout::shaka_layout(), 1, 1);
    let q = analyze(CORPUS);
    let start = calculate_penalty(&q, &Layout::shaka_layout(), &init(), false).total;
    assert!(best.penalty <= start);
}

#[test]
fn acceptance_rule() {
    assert!(accepts(-5, 0, 0));
    assert!(accepts(0, 10, 999_999));
    assert!(!accepts(1, 0, 0));
    // chance 100 / (100 + 100): draws below half the scale pass.
    assert!(accepts(100, 100, 499_999));
    assert!(!accepts(100, 100, 500_000));
    assert!(accepts(100, 100, 1_499_999));
}

#[test]
fn cooling_step() {
    assert_eq!(cool(1000, 990), 990);
    assert_eq!(cool(1, 990), 0);
    assert_eq!(cool(u64::MAX, 1000), u64::MAX);
}

fn schedule() -> Schedule {
    Schedule { initial_temperature: 50, decay_permille: 995, iterations: 300 }
}

#[test]
fn annealing_is_reproducible() {
    let q = analyze(CORPUS);
    let w = init();
    let a = simulate(&q, &Layout::shaka_layout(), &w, 4, 3, &schedule(), 42);
    let b = simulate(&q, &Layout::shaka_layout(), &w, 4, 3, &schedule(), 42);
    assert_eq!(a.entries.len(), b.entries.len());
    for (x, y) in a.entries.iter().zip(b.entries.iter()) {
        assert_eq!(x.penalty, y.penalty);
        assert_eq!(lower(&x.layout), lower(&y.layout));
    }
}

#[test]
fn annealing_results_are_scored_and_sorted() {
    let q = analyze(CORPUS);
    let w = init();
    let start = calculate_penalty(&q, &Layout::shaka_layout(), &w, false).total;
    let r = simulate(&q, &Layout::shaka_layout(), &w, 4, 3, &schedule(), 7);
    assert_eq!(r.entries.len(), 4);
    assert!(r.entries[0].penalty <= start);
    for pair in r.entries.windows(2) {
        assert!(pair[0].penalty <= pair[1].penalty);
    }
    for e in &r.entries {
        assert_eq!(calculate_penalty(&q, &e.layout, &w, false).total, e.penalty);
        assert_eq!(lower(&e.layout)[10], 'h');
    }
}

#[test]
fn run_returns_top_layouts() {
    let r = keygen::run(CORPUS, &Layout::shaka_layout(), 2, 3, &schedule(), 1);
    assert_eq!(r.entries.len(), 2);
    assert!(r.entries[0].penalty <= r.entries[1].penalty);
}

#[test]
fn anneal_on_same_draws_is_identical() {
    let q = analyze(CORPUS);
    let w = init();
    let draws: Vec<usize> = (0..800usize).map(|k| k.wrapping_mul(2654435761) % 1_000_003).collect();
    let a = anneal(&q, &Layout::shaka_layout(), &w, 3, 2, &schedule(), &draws);
    let b = anneal(&q, &Layout::shaka_layout(), &w, 3, 2, &schedule(), &draws);
    assert_eq!(a.entries.len(), 3);
    for (x, y) in a.entries.iter().zip(b.entries.iter()) {
        assert_eq!(x.penalty, y.penalty);
        assert_eq!(lower(&x.layout), lower(&y.layout));
    }
}

#[test]
fn anneal_without_draws_keeps_the_start() {
    let q = analyze(CORPUS);
    let w = init();
    let start = calculate_penalty(&q, &Layout::shaka_layout(), &w, false).total;
    let r = anneal(&q, &Layout::shaka_layout(), &w, 3, 2, &schedule(), &vec![]);
    assert_eq!(r.entries.len(), 1);
    assert_eq!(r.entries[0].penalty, start);
}

#[test]
fn refine_from_its_own_result_returns_it_unchanged() {
    let q = analyze(CORPUS);
    let w = init();
    let (best, _) = keygen::search::refine(&q, &Layout::shaka_layout(), &w, 1, 1);
    let (again, results) = keygen::search::refine(&q, &best.layout, &w, 2, 1);
    assert_eq!(again.penalty, best.penalty);
    assert_eq!(lower(&again.layout), lower(&best.layout));
    for e in &results.entries {
        assert_eq!(calculate_penalty(&q, &e.layout, &w, false).total, e.penalty);
    }
}

#[test]
fn run_ref_scores_both_layouts() {
    let (shaka, initial) = keygen::run_ref(CORPUS);
    let map = Layout::init_layout().get_position_map();
    let q = prepare_quartad_list(CORPUS, &map);
    assert_eq!(shaka, calculate_penalty(&q, &Layout::shaka_layout(), &init(), true));
    assert_eq!(initial, calculate_penalty(&q, &Layout::init_layout(), &init(), true));
    assert!(shaka.breakdown.is_some() && initial.breakdown.is_some());
}
