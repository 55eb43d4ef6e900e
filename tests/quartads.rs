use keygen::layout::Layout;
use keygen::quartads::{prepare_quartad_list, QuartadList};

fn analyze(corpus: &str) -> QuartadList {
    let map = Layout::shaka_layout().get_position_map();
    prepare_quartad_list(corpus, &map)
}

fn count_of(q: &QuartadList, key: &str) -> u64 {
    let k: Vec<char> = key.chars().collect();
    for (a, keys) in q.keys.iter().enumerate() {
        if *keys == k {
            return q.counts[a];
        }
    }
    0
}

fn total(q: &QuartadList) -> u64 {
    q.counts.iter().sum()
}

#[test]
fn windows_grow_up_to_four() {
    let q = analyze("abcde");
    assert_eq!(q.keys.len(), 5);
    assert_eq!(count_of(&q, "a"), 1);
    assert_eq!(count_of(&q, "ab"), 1);
    assert_eq!(count_of(&q, "abc"), 1);
    assert_eq!(count_of(&q, "abcd"), 1);
    assert_eq!(count_of(&q, "bcde"), 1);
    assert_eq!(count_of(&q, "bcd"), 0);
}

#[test]
fn repeated_windows_are_merged() {
    let q = analyze("aaaaa");
    assert_eq!(q.keys.len(), 4);
    assert_eq!(count_of(&q, "a"), 1);
    assert_eq!(count_of(&q, "aa"), 1);
    assert_eq!(count_of(&q, "aaa"), 1);
    assert_eq!(count_of(&q, "aaaa"), 2);
    assert_eq!(total(&q), 5);
}

#[test]
fn untypeable_character_breaks_the_run() {
    let q = analyze("ab!cd");
    assert_eq!(count_of(&q, "a"), 1);
    assert_eq!(count_of(&q, "ab"), 1);
    assert_eq!(count_of(&q, "c"), 1);
    assert_eq!(count_of(&q, "cd"), 1);
    assert_eq!(count_of(&q, "bc"), 0);
    assert_eq!(count_of(&q, "abcd"), 0);
    assert_eq!(total(&q), 4);
}

#[test]
fn non_ascii_breaks_the_run() {
    let q = analyze("aéb");
    assert_eq!(count_of(&q, "a"), 1);
    assert_eq!(count_of(&q, "b"), 1);
    assert_eq!(count_of(&q, "ab"), 0);
    assert_eq!(total(&q), 2);
}

#[test]
fn shifted_characters_are_typeable() {
    let q = analyze("The");
    assert_eq!(count_of(&q, "The"), 1);
    assert_eq!(total(&q), 3);
}

#[test]
fn empty_corpus_gives_empty_list() {
    let q = analyze("");
    assert!(q.keys.is_empty());
    assert!(q.counts.is_empty());
}

#[test]
fn total_counts_every_typeable_character() {
    let corpus = "the quick brown fox jumps over the lazy dog";
    let q = analyze(corpus);
    assert_eq!(total(&q), 35);
    assert_eq!(count_of(&q, "the"), 2);
    assert_eq!(count_of(&q, "t"), 2);
    assert_eq!(q.keys.len(), q.counts.len());
}

#[test]
fn analysis_is_deterministic() {
    let corpus = "the quick brown fox jumps over the lazy dog, then the dog sleeps.";
    let a = analyze(corpus);
    let b = analyze(corpus);
    assert_eq!(a.keys, b.keys);
    assert_eq!(a.counts, b.counts);
}
