//! Menu choices and the algorithm names and keys they parse from.
use vstd::prelude::*;
use crate::strings::str_equal;

verus! {

/// Choices of the main menu.
#[derive(Debug, Clone, Copy, PartialEq, Eq, Structural)]
pub enum MainMenuChoice {
    Search,
    Sort,
    Pathfinder,
    Quit,
}

/// Choices of the search menu.
#[derive(Debug, Clone, Copy, PartialEq, Eq, Structural)]
pub enum SearchMenuChoice {
    LoadWords,
    ShowStats,
    RunBenchmarks,
    AnalyseArrayType,
    Back,
}

/// Choices of the sorting menu.
#[derive(Debug, Clone, Copy, PartialEq, Eq, Structural)]
pub enum SortMenuChoice {
    RunBenchmarks,
    AnalyseArrayType,
    GuiVisualisation,
    AlgorithmInfo,
    Back,
}

/// Choices of the pathfinding menu.
#[derive(Debug, Clone, Copy, PartialEq, Eq, Structural)]
pub enum PathfinderMenuChoice {
    RunBenchmarks,
    ConfigureGrid,
    GuiVisualisation,
    AlgorithmInfo,
    Back,
}

/// Lower-case form of a string, as `str::to_lowercase` computes it.
pub uninterp spec fn lowercase_of(s: Seq<char>) -> Seq<char>;

/// Relies on `str::to_lowercase`: the result depends on the characters alone.
#[verifier::external_body]
fn to_lowercase(s: &str) -> (r: String)
    ensures
        r@ == lowercase_of(s@),
{
    s.to_lowercase()
}

/// Whether `k` is one of two keys.
fn key_is(k: &str, a: &str, b: &str) -> (r: bool)
    ensures
        r == (k@ == a@ || k@ == b@),
{
    str_equal(k, a) || str_equal(k, b)
}

/// Sorting algorithms offered by the menus.
#[derive(Debug, Clone, Copy, PartialEq, Eq, Structural)]
pub enum SortAlgorithm {
    Bubble,
    Insertion,
    Selection,
    Merge,
    Quick,
    Heap,
    Shell,
    Tim,
    Tree,
    Bucket,
    Radix,
    Counting,
    Cube,
    All,
}

/// The variant that a lower-case key names: its number or its word.
pub open spec fn sort_of_key(k: Seq<char>) -> Option<SortAlgorithm> {
    if k == "1"@ || k == "bubble"@ {
        Some(SortAlgorithm::Bubble)
    } else if k == "2"@ || k == "insertion"@ {
        Some(SortAlgorithm::Insertion)
    } else if k == "3"@ || k == "selection"@ {
        Some(SortAlgorithm::Selection)
    } else if k == "4"@ || k == "merge"@ {
        Some(SortAlgorithm::Merge)
    } else if k == "5"@ || k == "quick"@ {
        Some(SortAlgorithm::Quick)
    } else if k == "6"@ || k == "heap"@ {
        Some(SortAlgorithm::Heap)
    } else if k == "7"@ || k == "shell"@ {
        Some(SortAlgorithm::Shell)
    } else if k == "8"@ || k == "tim"@ {
        Some(SortAlgorithm::Tim)
    } else if k == "9"@ || k == "tree"@ {
        Some(SortAlgorithm::Tree)
    } else if k == "10"@ || k == "bucket"@ {
        Some(SortAlgorithm::Bucket)
    } else if k == "11"@ || k == "radix"@ {
        Some(SortAlgorithm::Radix)
    } else if k == "12"@ || k == "counting"@ {
        Some(SortAlgorithm::Counting)
    } else if k == "13"@ || k == "cube"@ {
        Some(SortAlgorithm::Cube)
    } else if k == "a"@ || k == "all"@ {
        Some(SortAlgorithm::All)
    } else {
        None
    }
}

/// The short name of a variant.
pub open spec fn sort_name(a: SortAlgorithm) -> Seq<char> {
    match a {
        SortAlgorithm::Bubble => "bubble"@,
        SortAlgorithm::Insertion => "insertion"@,
        SortAlgorithm::Selection => "selection"@,
        SortAlgorithm::Merge => "merge"@,
        SortAlgorithm::Quick => "quick"@,
        SortAlgorithm::Heap => "heap"@,
        SortAlgorithm::Shell => "shell"@,
        SortAlgorithm::Tim => "tim"@,
        SortAlgorithm::Tree => "tree"@,
        SortAlgorithm::Bucket => "bucket"@,
        SortAlgorithm::Radix => "radix"@,
        SortAlgorithm::Counting => "counting"@,
        SortAlgorithm::Cube => "cube"@,
        SortAlgorithm::All => "all"@,
    }
}

/// The name of a variant as shown to people.
pub open spec fn sort_display(a: SortAlgorithm) -> Seq<char> {
    match a {
        SortAlgorithm::Bubble => "Bubble Sort"@,
        SortAlgorithm::Insertion => "Insertion Sort"@,
        SortAlgorithm::Selection => "Selection Sort"@,
        SortAlgorithm::Merge => "Merge Sort"@,
        SortAlgorithm::Quick => "Quick Sort"@,
        SortAlgorithm::Heap => "Heap Sort"@,
        SortAlgorithm::Shell => "Shell Sort"@,
        SortAlgorithm::Tim => "Tim Sort"@,
        SortAlgorithm::Tree => "Tree Sort"@,
        SortAlgorithm::Bucket => "Bucket Sort"@,
        SortAlgorithm::Radix => "Radix Sort"@,
        SortAlgorithm::Counting => "Counting Sort"@,
        SortAlgorithm::Cube => "Cube Sort"@,
        SortAlgorithm::All => "All Algorithms"@,
    }
}

impl SortAlgorithm {
    /// Parses a menu key, ignoring case.
    pub fn from_str(s: &str) -> (r: Option<SortAlgorithm>)
        ensures
            r == sort_of_key(lowercase_of(s@)),
    {
        let lower = to_lowercase(s);
        SortAlgorithm::from_key(lower.as_str())
    }

    /// Parses a menu key that is already in lower case.
    pub fn from_key(k: &str) -> (r: Option<SortAlgorithm>)
        ensures
            r == sort_of_key(k@),
    {
        if key_is(k, "1", "bubble") {
            Some(SortAlgorithm::Bubble)
        } else if key_is(k, "2", "insertion") {
            Some(SortAlgorithm::Insertion)
        } else if key_is(k, "3", "selection") {
            Some(SortAlgorithm::Selection)
        } else if key_is(k, "4", "merge") {
            Some(SortAlgorithm::Merge)
        } else if key_is(k, "5", "quick") {
            Some(SortAlgorithm::Quick)
        } else if key_is(k, "6", "heap") {
            Some(SortAlgorithm::Heap)
        } else if key_is(k, "7", "shell") {
            Some(SortAlgorithm::Shell)
        } else if key_is(k, "8", "tim") {
            Some(SortAlgorithm::Tim)
        } else if key_is(k, "9", "tree") {
            Some(SortAlgorithm::Tree)
        } else if key_is(k, "10", "bucket") {
            Some(SortAlgorithm::Bucket)
        } else if key_is(k, "11", "radix") {
            Some(SortAlgorithm::Radix)
        } else if key_is(k, "12", "counting") {
            Some(SortAlgorithm::Counting)
        } else if key_is(k, "13", "cube") {
            Some(SortAlgorithm::Cube)
        } else if key_is(k, "a", "all") {
            Some(SortAlgorithm::All)
        } else {
            None
        }
    }

    pub fn as_str(&self) -> (r: &'static str)
        ensures
            r@ == sort_name(*self),
    {
        match self {
            SortAlgorithm::Bubble => "bubble",
            SortAlgorithm::Insertion => "insertion",
            SortAlgorithm::Selection => "selection",
            SortAlgorithm::Merge => "merge",
            SortAlgorithm::Quick => "quick",
            SortAlgorithm::Heap => "heap",
            SortAlgorithm::Shell => "shell",
            SortAlgorithm::Tim => "tim",
            SortAlgorithm::Tree => "tree",
            SortAlgorithm::Bucket => "bucket",
            SortAlgorithm::Radix => "radix",
            SortAlgorithm::Counting => "counting",
            SortAlgorithm::Cube => "cube",
            SortAlgorithm::All => "all",
        }
    }

    pub fn display_name(&self) -> (r: &'static str)
        ensures
            r@ == sort_display(*self),
    {
        match self {
            SortAlgorithm::Bubble => "Bubble Sort",
            SortAlgorithm::Insertion => "Insertion Sort",
            SortAlgorithm::Selection => "Selection Sort",
            SortAlgorithm::Merge => "Merge Sort",
            SortAlgorithm::Quick => "Quick Sort",
            SortAlgorithm::Heap => "Heap Sort",
            SortAlgorithm::Shell => "Shell Sort",
            SortAlgorithm::Tim => "Tim Sort",
            SortAlgorithm::Tree => "Tree Sort",
            SortAlgorithm::Bucket => "Bucket Sort",
            SortAlgorithm::Radix => "Radix Sort",
            SortAlgorithm::Counting => "Counting Sort",
            SortAlgorithm::Cube => "Cube Sort",
            SortAlgorithm::All => "All Algorithms",
        }
    }
}

/// Search algorithms offered by the menus.
#[derive(Debug, Clone, Copy, PartialEq, Eq, Structural)]
pub enum SearchAlgorithm {
    Linear,
    Binary,
    Hash,
    Interpolation,
    Exponential,
    Jump,
    All,
}

/// The variant that a lower-case key names: its number or its word.
pub open spec fn search_of_key(k: Seq<char>) -> Option<SearchAlgorithm> {
    if k == "1"@ || k == "linear"@ {
        Some(SearchAlgorithm::Linear)
    } else if k == "2"@ || k == "binary"@ {
        Some(SearchAlgorithm::Binary)
    } else if k == "3"@ || k == "hash"@ {
        Some(SearchAlgorithm::Hash)
    } else if k == "4"@ || k == "interpolation"@ {
        Some(SearchAlgorithm::Interpolation)
    } else if k == "5"@ || k == "exponential"@ {
        Some(SearchAlgorithm::Exponential)
    } else if k == "6"@ || k == "jump"@ {
        Some(SearchAlgorithm::Jump)
    } else if k == "a"@ || k == "all"@ {
        Some(SearchAlgorithm::All)
    } else {
        None
    }
}

/// The short name of a variant.
pub open spec fn search_name(a: SearchAlgorithm) -> Seq<char> {
    match a {
        SearchAlgorithm::Linear => "linear"@,
        SearchAlgorithm::Binary => "binary"@,
        SearchAlgorithm::Hash => "hash"@,
        SearchAlgorithm::Interpolation => "interpolation"@,
        SearchAlgorithm::Exponential => "exponential"@,
        SearchAlgorithm::Jump => "jump"@,
        SearchAlgorithm::All => "all"@,
    }
}

/// The name of a variant as shown to people.
pub open spec fn search_display(a: SearchAlgorithm) -> Seq<char> {
    match a {
        SearchAlgorithm::Linear => "Linear Search"@,
        SearchAlgorithm::Binary => "Binary Search"@,
        SearchAlgorithm::Hash => "Hash Search"@,
        SearchAlgorithm::Interpolation => "Interpolation Search"@,
        SearchAlgorithm::Exponential => "Exponential Search"@,
        SearchAlgorithm::Jump => "Jump Search"@,
        SearchAlgorithm::All => "All Algorithms"@,
    }
}

impl SearchAlgorithm {
    /// Parses a menu key, ignoring case.
    pub fn from_str(s: &str) -> (r: Option<SearchAlgorithm>)
        ensures
            r == search_of_key(lowercase_of(s@)),
    {
        let lower = to_lowercase(s);
        SearchAlgorithm::from_key(lower.as_str())
    }

    /// Parses a menu key that is already in lower case.
    pub fn from_key(k: &str) -> (r: Option<SearchAlgorithm>)
        ensures
            r == search_of_key(k@),
    {
        if key_is(k, "1", "linear") {
            Some(SearchAlgorithm::Linear)
        } else if key_is(k, "2", "binary") {
            Some(SearchAlgorithm::Binary)
        } else if key_is(k, "3", "hash") {
            Some(SearchAlgorithm::Hash)
        } else if key_is(k, "4", "interpolation") {
            Some(SearchAlgorithm::Interpolation)
        } else if key_is(k, "5", "exponential") {
            Some(SearchAlgorithm::Exponential)
        } else if key_is(k, "6", "jump") {
            Some(SearchAlgorithm::Jump)
        } else if key_is(k, "a", "all") {
            Some(SearchAlgorithm::All)
        } else {
            None
        }
    }

    pub fn as_str(&self) -> (r: &'static str)
        ensures
            r@ == search_name(*self),
    {
        match self {
            SearchAlgorithm::Linear => "linear",
            SearchAlgorithm::Binary => "binary",
            SearchAlgorithm::Hash => "hash",
            SearchAlgorithm::Interpolation => "interpolation",
            SearchAlgorithm::Exponential => "exponential",
            SearchAlgorithm::Jump => "jump",
            SearchAlgorithm::All => "all",
        }
    }

    pub fn display_name(&self) -> (r: &'static str)
        ensures
            r@ == search_display(*self),
    {
        match self {
            SearchAlgorithm::Linear => "Linear Search",
            SearchAlgorithm::Binary => "Binary Search",
            SearchAlgorithm::Hash => "Hash Search",
            SearchAlgorithm::Interpolation => "Interpolation Search",
            SearchAlgorithm::Exponential => "Exponential Search",
            SearchAlgorithm::Jump => "Jump Search",
            SearchAlgorithm::All => "All Algorithms",
        }
    }
}

/// Pathfinding algorithms, selectable by key.
#[derive(Debug, Clone, Copy, PartialEq, Eq, Structural)]
pub enum PathfinderAlgorithm {
    AStar,
    Dijkstra,
    BreadthFirst,
    DepthFirst,
    GreedyBestFirst,
    All,
}

/// The variant that a lower-case key names: its number or its word.
pub open spec fn pathfinder_of_key(k: Seq<char>) -> Option<PathfinderAlgorithm> {
    if k == "1"@ || k == "astar"@ {
        Some(PathfinderAlgorithm::AStar)
    } else if k == "2"@ || k == "dijkstra"@ {
        Some(PathfinderAlgorithm::Dijkstra)
    } else if k == "3"@ || k == "bfs"@ {
        Some(PathfinderAlgorithm::BreadthFirst)
    } else if k == "4"@ || k == "dfs"@ {
        Some(PathfinderAlgorithm::DepthFirst)
    } else if k == "5"@ || k == "greedy"@ {
        Some(PathfinderAlgorithm::GreedyBestFirst)
    } else if k == "a"@ || k == "all"@ {
        Some(PathfinderAlgorithm::All)
    } else {
        None
    }
}

/// The short name of a variant.
pub open spec fn pathfinder_name(a: PathfinderAlgorithm) -> Seq<char> {
    match a {
        PathfinderAlgorithm::AStar => "astar"@,
        PathfinderAlgorithm::Dijkstra => "dijkstra"@,
        PathfinderAlgorithm::BreadthFirst => "breadth-first"@,
        PathfinderAlgorithm::DepthFirst => "depth-first"@,
        PathfinderAlgorithm::GreedyBestFirst => "greedy-best-first"@,
        PathfinderAlgorithm::All => "all"@,
    }
}

/// The name of a variant as shown to people.
pub open spec fn pathfinder_display(a: PathfinderAlgorithm) -> Seq<char> {
    match a {
        PathfinderAlgorithm::AStar => "A*"@,
        PathfinderAlgorithm::Dijkstra => "Dijkstra"@,
        PathfinderAlgorithm::BreadthFirst => "Breadth-First Search"@,
        PathfinderAlgorithm::DepthFirst => "Depth-First Search"@,
        PathfinderAlgorithm::GreedyBestFirst => "Greedy Best-First"@,
        PathfinderAlgorithm::All => "All Algorithms"@,
    }
}

impl PathfinderAlgorithm {
    /// Parses a menu key, ignoring case.
    pub fn from_str(s: &str) -> (r: Option<PathfinderAlgorithm>)
        ensures
            r == pathfinder_of_key(lowercase_of(s@)),
    {
        let lower = to_lowercase(s);
        PathfinderAlgorithm::from_key(lower.as_str())
    }

    /// Parses a menu key that is already in lower case.
    pub fn from_key(k: &str) -> (r: Option<PathfinderAlgorithm>)
        ensures
            r == pathfinder_of_key(k@),
    {
        if key_is(k, "1", "astar") {
            Some(PathfinderAlgorithm::AStar)
        } else if key_is(k, "2", "dijkstra") {
            Some(PathfinderAlgorithm::Dijkstra)
        } else if key_is(k, "3", "bfs") {
            Some(PathfinderAlgorithm::BreadthFirst)
        } else if key_is(k, "4", "dfs") {
            Some(PathfinderAlgorithm::DepthFirst)
        } else if key_is(k, "5", "greedy") {
            Some(PathfinderAlgorithm::GreedyBestFirst)
        } else if key_is(k, "a", "all") {
            Some(PathfinderAlgorithm::All)
        } else {
            None
        }
    }

    pub fn as_str(&self) -> (r: &'static str)
        ensures
            r@ == pathfinder_name(*self),
    {
        match self {
            PathfinderAlgorithm::AStar => "astar",
            PathfinderAlgorithm::Dijkstra => "dijkstra",
            PathfinderAlgorithm::BreadthFirst => "breadth-first",
            PathfinderAlgorithm::DepthFirst => "depth-first",
            PathfinderAlgorithm::GreedyBestFirst => "greedy-best-first",
            PathfinderAlgorithm::All => "all",
        }
    }

    pub fn display_name(&self) -> (r: &'static str)
        ensures
            r@ == pathfinder_display(*self),
    {
        match self {
            PathfinderAlgorithm::AStar => "A*",
            PathfinderAlgorithm::Dijkstra => "Dijkstra",
            PathfinderAlgorithm::BreadthFirst => "Breadth-First Search",
            PathfinderAlgorithm::DepthFirst => "Depth-First Search",
            PathfinderAlgorithm::GreedyBestFirst => "Greedy Best-First",
            PathfinderAlgorithm::All => "All Algorithms",
        }
    }
}

} // verus!
