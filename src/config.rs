//! Default settings of the benchmarks.
use vstd::prelude::*;

verus! {

/// Settings of the word-search benchmarks.
#[derive(Debug, Clone)]
pub struct SearchConfig {
    pub words_file: String,
    pub target_word: Option<String>,
    pub iterations: usize,
}

impl Default for SearchConfig {
    fn default() -> (c: SearchConfig)
        ensures
            c.words_file@ == "data/words.txt"@,
            c.target_word is None,
            c.iterations == 100,
    {
        SearchConfig { words_file: "data/words.txt".to_owned(), target_word: None, iterations: 100 }
    }
}

/// Settings of the sorting benchmarks.
#[derive(Debug, Clone, Copy, PartialEq, Eq, Structural)]
pub struct SortConfig {
    pub array_size: usize,
    pub iterations: usize,
    pub gui_enabled: bool,
}

impl Default for SortConfig {
    fn default() -> (c: SortConfig)
        ensures
            c == (SortConfig { array_size: 1000, iterations: 10, gui_enabled: false }),
    {
        SortConfig { array_size: 1000, iterations: 10, gui_enabled: false }
    }
}

/// All settings of the application.
#[derive(Debug, Clone)]
pub struct AppConfig {
    pub search: SearchConfig,
    pub sort: SortConfig,
}

impl Default for AppConfig {
    fn default() -> (c: AppConfig)
        ensures
            c.search.words_file@ == "data/words.txt"@,
            c.search.target_word is None,
            c.search.iterations == 100,
            c.sort == (SortConfig { array_size: 1000, iterations: 10, gui_enabled: false }),
    {
        AppConfig { search: SearchConfig::default(), sort: SortConfig::default() }
    }
}

/// Size, repetitions and input kind of one benchmark run.
#[derive(Debug, Clone)]
pub struct BenchmarkParams {
    pub size: usize,
    pub iterations: usize,
    pub array_type: String,
}

impl Default for BenchmarkParams {
    fn default() -> (p: BenchmarkParams)
        ensures
            p.size == 1000,
            p.iterations == 10,
            p.array_type@ == "Random"@,
    {
        BenchmarkParams { size: 1000, iterations: 10, array_type: "Random".to_owned() }
    }
}

} // verus!
