use algo_bench::search::hash_search::{build_hash_map, search_multiple, search_with_collision_analysis, search_with_index};
use algo_bench::search::jump_search::{calculate_optimal_jump_size, floor_sqrt, search_adaptive, search_with_jump_size};
use algo_bench::search::{binary_search, exponential_search, hash_search, interpolation_search, jump_search, linear_search};

fn words(list: &[&str]) -> Vec<String> {
    list.iter().map(|s| s.to_string()).collect()
}

fn sorted_list() -> Vec<String> {
    words(&["apple", "banana", "cherry", "date", "elder", "fig", "grape", "kiwi", "lemon", "mango", "nectarine", "orange", "pear"])
}

#[test]
fn linear_counts_comparisons() {
    let data = words(&["pear", "apple", "fig"]);
    assert_eq!(linear_search::search(&data, "apple"), (true, 2));
    assert_eq!(linear_search::search(&data, "kiwi"), (false, 3));
    assert_eq!(linear_search::search(&[], "kiwi"), (false, 0));
}

#[test]
fn linear_early_exit_on_sorted() {
    let data = sorted_list();
    assert_eq!(linear_search::search_sorted_early_exit(&data, "cherry"), (true, 3));
    assert_eq!(linear_search::search_sorted_early_exit(&data, "blueberry"), (false, 3));
}

#[test]
fn every_sorted_search_finds_each_word() {
    let data = sorted_list();
    for w in &data {
        assert!(binary_search::search(&data, w).0);
        assert!(binary_search::search_recursive(&data, w).0);
        assert!(binary_search::search_with_insertion_point(&data, w).0.is_some());
        assert!(exponential_search::search(&data, w).0);
        assert!(exponential_search::search_with_growth_factor(&data, w, 3).0);
        assert!(exponential_search::search_optimized(&data, w).0);
        assert!(interpolation_search::search(&data, w).0);
        assert!(interpolation_search::search_with_fallback(&data, w).0);
        assert!(search_with_jump_size(&data, w, 3).0);
        assert!(search_adaptive(&data, w).0);
        assert!(linear_search::search_sorted_early_exit(&data, w).0);
    }
}

#[test]
fn missing_words_are_not_found() {
    let data = sorted_list();
    for w in &["aardvark", "blueberry", "zucchini", "", "figs"] {
        assert!(!binary_search::search(&data, w).0);
        assert!(!binary_search::search_recursive(&data, w).0);
        assert!(!exponential_search::search(&data, w).0);
        assert!(!exponential_search::search_optimized(&data, w).0);
        assert!(!exponential_search::search_unbounded(&data, w, None).0);
        assert!(!interpolation_search::search(&data, w).0);
        assert!(!jump_search::search(&data, w).0);
        assert!(!search_with_jump_size(&data, w, 4).0);
        assert!(!search_adaptive(&data, w).0);
    }
}

#[test]
fn insertion_point_of_missing_word() {
    let data = sorted_list();
    assert_eq!(binary_search::search_with_insertion_point(&data, "blueberry").2, 2);
    assert_eq!(binary_search::search_with_insertion_point(&data, "zebra").2, 13);
    let (found, _, at) = binary_search::search_with_insertion_point(&data, "date");
    assert_eq!(found, Some(3));
    assert_eq!(at, 3);
}

#[test]
fn binary_probe_count() {
    let data = sorted_list();
    assert_eq!(binary_search::search(&data, "grape"), (true, 1));
    assert_eq!(binary_search::search_recursive(&data, "grape"), (true, 1));
}

#[test]
fn small_growth_factor_finds_nothing() {
    let data = sorted_list();
    assert_eq!(exponential_search::search_with_growth_factor(&data, "apple", 1), (false, 0));
    assert_eq!(search_with_jump_size(&data, "apple", 0), (false, 0));
}

#[test]
fn unbounded_first_word() {
    let data = sorted_list();
    assert_eq!(exponential_search::search_unbounded(&data, "apple", Some(4)), (true, 1));
    assert!(exponential_search::search_unbounded(&data, "date", Some(8)).0);
}

#[test]
fn jump_sizes() {
    assert_eq!(calculate_optimal_jump_size(0), 1);
    assert_eq!(calculate_optimal_jump_size(1), 1);
    assert_eq!(calculate_optimal_jump_size(10), 3);
    assert_eq!(calculate_optimal_jump_size(16), 4);
    assert_eq!(floor_sqrt(99), 9);
    assert_eq!(floor_sqrt(100), 10);
    assert!(jump_search::search(&sorted_list(), "banana").0);
}

#[test]
fn word_map_keeps_last_position() {
    let data = words(&["fig", "kiwi", "fig", "pear"]);
    let m = build_hash_map(&data);
    assert_eq!(m.len(), 3);
    assert!(hash_search::search(&m, "kiwi"));
    assert!(!hash_search::search(&m, "plum"));
    assert_eq!(search_with_index(&m, "fig"), Some(2));
    assert_eq!(search_with_index(&m, "plum"), None);
    assert_eq!(search_with_collision_analysis(&m, "pear"), (true, 1));
    assert_eq!(search_with_collision_analysis(&m, "plum"), (false, 1));
    let r = search_multiple(&m, &["pear", "plum"]);
    assert_eq!(r, vec![("pear".to_string(), true), ("plum".to_string(), false)]);
}

#[test]
fn probe_counts_and_early_exits() {
    let data = sorted_list();
    for w in &["apple", "zebra", "fig", "aardvark"] {
        let r = binary_search::search(&data, w);
        assert!(r.1 <= 4);
        assert_eq!(binary_search::search_recursive(&data, w), r);
        assert!(interpolation_search::search(&data, w).1 <= data.len());
    }
    assert_eq!(exponential_search::search(&[], "fig"), (false, 0));
    assert!(exponential_search::search(&data, "zebra").1 >= 1);
    assert_eq!(exponential_search::search_with_growth_factor(&[], "fig", 3), (false, 0));
    assert_eq!(exponential_search::search_optimized(&data, "zebra"), (false, 2));
    assert_eq!(search_with_jump_size(&[], "fig", 3), (false, 0));
    assert_eq!(linear_search::search_sorted_early_exit(&data, "zebra"), (false, 13));
    assert_eq!(linear_search::search_sorted_early_exit(&data, "aardvark"), (false, 1));
}

#[test]
fn jump_and_unbounded_find_every_word() {
    let letters = words(&["a", "b", "c", "d", "e", "f", "g", "h", "i"]);
    assert!(jump_search::search(&letters, "h").0);
    for w in &letters {
        assert!(jump_search::search(&letters, w).0);
        assert!(exponential_search::search_unbounded(&letters, w, None).0);
    }
    let two = words(&["a", "b"]);
    assert!(exponential_search::search_unbounded(&two, "b", None).0);
    assert!(exponential_search::search_unbounded(&sorted_list(), "cherry", Some(8)).0);
}

#[test]
fn fallback_keeps_interpolation_result_when_found() {
    let data = sorted_list();
    assert_eq!(interpolation_search::search_with_fallback(&data, "kiwi"), interpolation_search::search(&data, "kiwi"));
    let few = words(&["b", "d"]);
    assert_eq!(interpolation_search::search_with_fallback(&few, "c"), interpolation_search::search(&few, "c"));
}
