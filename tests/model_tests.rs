use algo_bench::config::{AppConfig, BenchmarkParams, SearchConfig, SortConfig};
use algo_bench::counter::PerformanceCounter;
use algo_bench::error::Error;
use algo_bench::menu_choice::{PathfinderAlgorithm, SearchAlgorithm, SortAlgorithm};

#[test]
fn menu_keys_parse_in_any_case() {
    assert_eq!(PathfinderAlgorithm::from_str("ASTAR"), Some(PathfinderAlgorithm::AStar));
    assert_eq!(PathfinderAlgorithm::from_str("3"), Some(PathfinderAlgorithm::BreadthFirst));
    assert_eq!(PathfinderAlgorithm::from_str("Greedy"), Some(PathfinderAlgorithm::GreedyBestFirst));
    assert_eq!(PathfinderAlgorithm::from_str("x"), None);
    assert_eq!(SortAlgorithm::from_str("13"), Some(SortAlgorithm::Cube));
    assert_eq!(SortAlgorithm::from_str("TIM"), Some(SortAlgorithm::Tim));
    assert_eq!(SearchAlgorithm::from_str("Jump"), Some(SearchAlgorithm::Jump));
    assert_eq!(SearchAlgorithm::from_str("A"), Some(SearchAlgorithm::All));
    assert_eq!(SearchAlgorithm::from_str("7"), None);
}

#[test]
fn menu_names() {
    assert_eq!(PathfinderAlgorithm::BreadthFirst.as_str(), "breadth-first");
    assert_eq!(PathfinderAlgorithm::AStar.display_name(), "A*");
    assert_eq!(SortAlgorithm::Counting.display_name(), "Counting Sort");
    assert_eq!(SortAlgorithm::Radix.as_str(), "radix");
    assert_eq!(SearchAlgorithm::Interpolation.display_name(), "Interpolation Search");
    assert_eq!(SearchAlgorithm::Hash.as_str(), "hash");
}

#[test]
fn error_constructors() {
    assert_eq!(Error::input("a"), Error::Input("a".to_string()));
    assert_eq!(Error::validation("b"), Error::Validation("b".to_string()));
    assert_eq!(Error::not_found("c"), Error::NotFound("c".to_string()));
    assert_eq!(Error::generic("d"), Error::Generic("d".to_string()));
}

#[test]
fn counter_increments() {
    let mut c = PerformanceCounter::new();
    c.explore_node();
    c.add_to_frontier();
    c.add_to_frontier();
    c.compare();
    c.allocate_memory(8);
    assert_eq!(c.nodes_explored, 1);
    assert_eq!(c.nodes_in_frontier, 2);
    assert_eq!(c.comparisons, 1);
    assert_eq!(c.memory_allocations, 1);
}

#[test]
fn configuration_defaults() {
    let s = SearchConfig::default();
    assert_eq!(s.words_file, "data/words.txt");
    assert_eq!(s.iterations, 100);
    assert!(s.target_word.is_none());
    let o = SortConfig::default();
    assert_eq!((o.array_size, o.iterations, o.gui_enabled), (1000, 10, false));
    let a = AppConfig::default();
    assert_eq!(a.sort.iterations, 10);
    let b = BenchmarkParams::default();
    assert_eq!((b.size, b.iterations, b.array_type.as_str()), (1000, 10, "Random"));
}
