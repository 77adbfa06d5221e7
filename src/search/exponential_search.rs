use vstd::prelude::*;
use crate::search::{absent_in, add_counts, binary_search_range, compare_at, grow_bound, holds, holds_in, lemma_above, lemma_below, sorted_words};
use crate::strings::str_equal;
use std::cmp::Ordering;

verus! {

/// Exponential search of sorted words: probes positions 1, 2, 4, ... until a
/// word is not below `target`, then binary-searches the last range.
pub fn search(data: &[String], target: &str) -> (r: (bool, usize))
    ensures
        r.0 ==> holds(data@, target@),
        sorted_words(data@) ==> (r.0 == holds(data@, target@)),
        data@.len() == 0 ==> r == (false, 0usize),
        data@.len() > 0 ==> r.1 >= 1,
{
    search_with_growth_factor(data, target, 2)
}

/// Exponential search whose probe positions grow by `growth_factor` (at least two;
/// smaller factors find nothing).
pub fn search_with_growth_factor(data: &[String], target: &str, growth_factor: usize) -> (r: (bool, usize))
    ensures
        r.0 ==> holds(data@, target@),
        sorted_words(data@) && growth_factor >= 2 ==> (r.0 == holds(data@, target@)),
        growth_factor < 2 ==> r == (false, 0usize),
        data@.len() == 0 ==> r == (false, 0usize),
        data@.len() > 0 && growth_factor >= 2 ==> r.1 >= 1,
{
    if data.len() == 0 || growth_factor < 2 {
        return (false, 0);
    }
    let n = data.len();
    let mut comparisons: usize = 1;
    if str_equal(data[0].as_str(), target) {
        return (true, comparisons);
    }
    let mut prev: usize = 0;
    let mut bound: usize = 1;
    loop
        invariant
            n == data@.len(),
            growth_factor >= 2,
            comparisons >= 1,
            1 <= bound <= n,
            prev < bound,
            sorted_words(data@) ==> absent_in(data@, target@, 0, prev + 1),
        ensures
            comparisons >= 1,
            1 <= bound <= n,
            prev < bound,
            sorted_words(data@) ==> absent_in(data@, target@, 0, prev + 1),
            bound == n || str_cmp_not_less(data@[bound as int]@, target@),
        decreases n - bound,
    {
        if bound >= n {
            break;
        }
        match compare_at(data, bound, target) {
            Ordering::Less => {},
            _ => {
                break;
            },
        }
        comparisons = add_counts(comparisons, 1);
        proof {
            if sorted_words(data@) {
                lemma_below(data@, target@, bound as int);
            }
        }
        prev = bound;
        bound = grow_bound(bound, growth_factor, n);
        proof {
            assert(prev * growth_factor >= 2 * prev) by (nonlinear_arith)
                requires
                    growth_factor >= 2,
            ;
        }
    }
    let left = prev;
    let right = if bound < n - 1 { bound } else { n - 1 };
    let (found, binary_comparisons) = binary_search_range(data, target, left, right + 1);
    proof {
        if sorted_words(data@) && holds(data@, target@) {
            let i = choose|i: int| 0 <= i < data@.len() && 0 <= i < data@.len() && #[trigger] data@[i]@ == target@;
            if i > right {
                crate::strings::lemma_str_cmp_equal(data@[bound as int]@, target@);
                if data@[bound as int]@ != target@ {
                    lemma_above(data@, target@, bound as int);
                }
                assert(data@[right as int]@ == target@);
            }
            assert(holds_in(data@, target@, left as int, right + 1));
        }
    }
    (found, add_counts(comparisons, binary_comparisons))
}

/// The word is not below the target.
pub open spec fn str_cmp_not_less(a: Seq<char>, b: Seq<char>) -> bool {
    crate::strings::str_cmp(a, b) != Ordering::Less
}

/// Exponential search that first rules out targets above the last word and
/// stops probing at a match or at the first word above `target`.
pub fn search_optimized(data: &[String], target: &str) -> (r: (bool, usize))
    ensures
        r.0 ==> holds(data@, target@),
        sorted_words(data@) ==> (r.0 == holds(data@, target@)),
        data@.len() == 0 ==> r == (false, 0usize),
        data@.len() > 1 && data@[0]@ != target@ && crate::strings::str_cmp(data@[data@.len() - 1]@, target@) == Ordering::Less
            ==> r == (false, 2usize),
{
    if data.len() == 0 {
        return (false, 0);
    }
    let n = data.len();
    let mut comparisons: usize = 1;
    if str_equal(data[0].as_str(), target) {
        return (true, comparisons);
    }
    if n > 1 {
        comparisons = add_counts(comparisons, 1);
        match compare_at(data, n - 1, target) {
            Ordering::Less => {
                proof {
                    if sorted_words(data@) {
                        lemma_below(data@, target@, n - 1);
                    }
                }
                return (false, comparisons);
            },
            _ => {},
        }
    }
    let mut prev: usize = 0;
    let mut bound: usize = 1;
    loop
        invariant
            n == data@.len(),
            1 <= bound <= n,
            prev < bound,
            !(n > 1 && data@[0]@ != target@ && crate::strings::str_cmp(data@[n - 1]@, target@) == Ordering::Less),
            sorted_words(data@) ==> absent_in(data@, target@, 0, prev + 1),
        ensures
            1 <= bound <= n,
            prev < bound,
            !(n > 1 && data@[0]@ != target@ && crate::strings::str_cmp(data@[n - 1]@, target@) == Ordering::Less),
            sorted_words(data@) ==> absent_in(data@, target@, 0, prev + 1),
            bound == n || (sorted_words(data@) ==> absent_in(data@, target@, bound as int, n as int)),
        decreases n - bound,
    {
        if bound >= n {
            break;
        }
        comparisons = add_counts(comparisons, 1);
        match compare_at(data, bound, target) {
            Ordering::Equal => {
                return (true, comparisons);
            },
            Ordering::Greater => {
                proof {
                    if sorted_words(data@) {
                        lemma_above(data@, target@, bound as int);
                    }
                }
                break;
            },
            Ordering::Less => {
                proof {
                    if sorted_words(data@) {
                        lemma_below(data@, target@, bound as int);
                    }
                }
                prev = bound;
                bound = grow_bound(bound, 2, n);
            },
        }
    }
    let (found, binary_comparisons) = binary_search_range(data, target, prev, bound);
    proof {
        if sorted_words(data@) && holds(data@, target@) {
            let i = choose|i: int| 0 <= i < data@.len() && 0 <= i < data@.len() && #[trigger] data@[i]@ == target@;
            assert(holds_in(data@, target@, prev as int, bound as int));
        }
    }
    (found, add_counts(comparisons, binary_comparisons))
}

/// Exponential search that probes no position at or beyond `max_safe_index`
/// (the length when absent). The binary search afterwards covers the last probe
/// too, so in sorted words a present target is found whenever the safe index
/// does not cut the list short.
pub fn search_unbounded(data: &[String], target: &str, max_safe_index: Option<usize>) -> (r: (bool, usize))
    ensures
        r.0 ==> holds(data@, target@),
        data@.len() > 0 && data@[0]@ == target@ ==> r == (true, 1usize),
        data@.len() == 0 ==> r == (false, 0usize),
        sorted_words(data@) && (max_safe_index matches Some(m) ==> m >= data@.len()) ==> (r.0 == holds(data@, target@)),
{
    let max_index = match max_safe_index {
        Some(m) => m,
        None => data.len(),
    };
    if data.len() == 0 {
        return (false, 0);
    }
    let n = data.len();
    let mut comparisons: usize = 1;
    if str_equal(data[0].as_str(), target) {
        return (true, comparisons);
    }
    let mut prev: usize = 0;
    let mut bound: usize = 1;
    loop
        invariant
            n == data@.len(),
            1 <= bound <= n,
            prev < bound,
            sorted_words(data@) ==> absent_in(data@, target@, 0, prev + 1),
            max_index == (if max_safe_index is Some { max_safe_index->Some_0 } else { n }),
        ensures
            1 <= bound <= n,
            prev < bound,
            sorted_words(data@) ==> absent_in(data@, target@, 0, prev + 1),
            bound == n || bound >= max_index || str_cmp_not_less(data@[bound as int]@, target@),
        decreases n - bound,
    {
        if bound >= max_index || bound >= n {
            break;
        }
        match compare_at(data, bound, target) {
            Ordering::Less => {},
            _ => {
                break;
            },
        }
        comparisons = add_counts(comparisons, 1);
        proof {
            if sorted_words(data@) {
                lemma_below(data@, target@, bound as int);
            }
        }
        prev = bound;
        bound = grow_bound(bound, 2, n);
    }
    let right = if bound < n { bound + 1 } else { n };
    let (found, binary_comparisons) = binary_search_range(data, target, prev, right);
    proof {
        if sorted_words(data@) && holds(data@, target@) && (max_safe_index matches Some(m) ==> m >= n) {
            let i = choose|i: int| 0 <= i < data@.len() && 0 <= i < data@.len() && #[trigger] data@[i]@ == target@;
            if i >= right {
                crate::strings::lemma_str_cmp_equal(data@[bound as int]@, target@);
                if data@[bound as int]@ != target@ {
                    lemma_above(data@, target@, bound as int);
                }
                assert(data@[bound as int]@ == target@);
            }
            assert(holds_in(data@, target@, prev as int, right as int));
        }
    }
    (found, add_counts(comparisons, binary_comparisons))
}

} // verus!
