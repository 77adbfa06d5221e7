use vstd::prelude::*;
use crate::search::{absent_in, add_counts, compare_at, holds, holds_in, lemma_above, lemma_below, sorted_words};
use crate::strings::{lemma_str_cmp_equal, str_cmp, str_equal};
use std::cmp::Ordering;

verus! {

/// Whole square root: the largest `r` with `r * r <= n`.
pub open spec fn is_floor_sqrt(n: int, r: int) -> bool {
    0 <= r && r * r <= n < (r + 1) * (r + 1)
}

/// The largest `r` with `r * r <= n`.
pub fn floor_sqrt(n: usize) -> (r: usize)
    ensures
        is_floor_sqrt(n as int, r as int),
{
    let mut lo: u128 = 0;
    let mut hi: u128 = (n as u128) / 2 + 2;
    proof {
        let h = hi as int;
        assert(h * h > n) by (nonlinear_arith)
            requires
                h == n / 2 + 2,
                n >= 0,
        ;
    }
    while hi - lo > 1
        invariant
            lo < hi <= (n as u128) / 2 + 2,
            lo * lo <= n,
            hi * hi > n,
        decreases hi - lo,
    {
        let mid = lo + (hi - lo) / 2;
        proof {
            let m = mid as int;
            let cap = (n as int) / 2 + 2;
            assert(m * m <= cap * cap) by (nonlinear_arith)
                requires
                    0 <= m <= cap,
            ;
            assert(cap * cap <= 0x8000_0000_0000_0001u128 * 0x8000_0000_0000_0001u128) by (nonlinear_arith)
                requires
                    0 <= cap <= 0x8000_0000_0000_0001u128,
            ;
        }
        if mid * mid <= n as u128 {
            lo = mid;
        } else {
            hi = mid;
        }
    }
    proof {
        assert(hi == lo + 1);
    }
    lo as usize
}

/// The block size that jump search uses for `array_size` words: the whole
/// square root, and one for at most one word.
pub fn calculate_optimal_jump_size(array_size: usize) -> (r: usize)
    ensures
        array_size <= 1 ==> r == 1,
        array_size > 1 ==> is_floor_sqrt(array_size as int, r as int),
{
    if array_size <= 1 {
        return 1;
    }
    floor_sqrt(array_size)
}

/// Jump search with blocks of the whole square root of the length: moves on a
/// block while the last word of the block is below `target`, then scans that block.
pub fn search(data: &[String], target: &str) -> (r: (bool, usize))
    ensures
        r.0 ==> holds(data@, target@),
        sorted_words(data@) ==> (r.0 == holds(data@, target@)),
        data@.len() == 0 ==> r == (false, 0usize),
{
    if data.len() == 0 {
        return (false, 0);
    }
    let jump_size = floor_sqrt(data.len());
    proof {
        let n = data@.len() as int;
        assert(jump_size >= 1) by (nonlinear_arith)
            requires
                n >= 1,
                n < (jump_size + 1) * (jump_size + 1),
                jump_size >= 0,
        ;
    }
    search_with_jump_size(data, target, jump_size)
}

/// Scans `data[start..end]` of sorted words, stopping at the first word above `target`.
fn scan_block(data: &[String], target: &str, start: usize, end: usize, comparisons: usize) -> (r: (bool, usize))
    requires
        start <= end <= data@.len(),
    ensures
        r.0 ==> holds(data@, target@),
        sorted_words(data@) && holds_in(data@, target@, start as int, end as int) ==> r.0,
{
    let mut comparisons = comparisons;
    let mut i = start;
    while i < end
        invariant
            start <= i <= end <= data@.len(),
            sorted_words(data@) ==> absent_in(data@, target@, start as int, i as int),
        decreases end - i,
    {
        comparisons = add_counts(comparisons, 1);
        match compare_at(data, i, target) {
            Ordering::Equal => {
                return (true, comparisons);
            },
            Ordering::Greater => {
                proof {
                    if sorted_words(data@) {
                        lemma_above(data@, target@, i as int);
                    }
                }
                return (false, comparisons);
            },
            Ordering::Less => {},
        }
        i = i + 1;
    }
    (false, comparisons)
}

/// Jump search with blocks of `jump_size` words (none found for a zero size):
/// moves on a block while the last word of the block is below `target`, then
/// scans that block.
pub fn search_with_jump_size(data: &[String], target: &str, jump_size: usize) -> (r: (bool, usize))
    ensures
        r.0 ==> holds(data@, target@),
        sorted_words(data@) && jump_size > 0 ==> (r.0 == holds(data@, target@)),
        jump_size == 0 ==> r == (false, 0usize),
        data@.len() == 0 ==> r == (false, 0usize),
{
    if data.len() == 0 || jump_size == 0 {
        return (false, 0);
    }
    let n = data.len();
    let mut comparisons: usize = 0;
    let mut prev: usize = 0;
    loop
        invariant
            n == data@.len(),
            n >= 1,
            jump_size >= 1,
            prev <= n,
            sorted_words(data@) ==> absent_in(data@, target@, 0, prev as int),
        ensures
            prev <= n,
            sorted_words(data@) ==> absent_in(data@, target@, 0, prev as int),
            prev < n ==> sorted_words(data@) && holds(data@, target@) ==> holds_in(data@, target@, prev as int,
                if prev + jump_size < n { prev + jump_size } else { n as int }),
        decreases n - prev,
    {
        if prev >= n {
            break;
        }
        let jump_index = if jump_size - 1 < n - 1 - prev { prev + (jump_size - 1) } else { n - 1 };
        comparisons = add_counts(comparisons, 1);
        match compare_at(data, jump_index, target) {
            Ordering::Less => {
                proof {
                    if sorted_words(data@) {
                        lemma_below(data@, target@, jump_index as int);
                    }
                }
            },
            _ => {
                proof {
                    if sorted_words(data@) && holds(data@, target@) {
                        let i = choose|i: int| 0 <= i < data@.len() && 0 <= i < data@.len() && #[trigger] data@[i]@ == target@;
                        if i > jump_index {
                            lemma_str_cmp_equal(data@[jump_index as int]@, target@);
                            if data@[jump_index as int]@ != target@ {
                                lemma_above(data@, target@, jump_index as int);
                            }
                            assert(data@[jump_index as int]@ == target@);
                        }
                    }
                }
                break;
            },
        }
        if jump_size >= n - prev {
            prev = n;
        } else {
            prev = prev + jump_size;
        }
    }
    let end = if prev < n && jump_size < n - prev { prev + jump_size } else { n };
    scan_block(data, target, if prev < n { prev } else { n }, end, comparisons)
}

/// Jump search whose block grows by half after more than three blocks in a row
/// were passed; a probe that equals `target` ends the search.
pub fn search_adaptive(data: &[String], target: &str) -> (r: (bool, usize))
    ensures
        r.0 ==> holds(data@, target@),
        sorted_words(data@) ==> (r.0 == holds(data@, target@)),
        data@.len() == 0 ==> r == (false, 0usize),
{
    if data.len() == 0 {
        return (false, 0);
    }
    let n = data.len();
    let mut jump_size = floor_sqrt(n);
    proof {
        assert(jump_size >= 1) by (nonlinear_arith)
            requires
                n >= 1,
                n < (jump_size + 1) * (jump_size + 1),
                jump_size >= 0,
        ;
    }
    let mut comparisons: usize = 0;
    let mut prev: usize = 0;
    let mut consecutive_misses: usize = 0;
    loop
        invariant
            n == data@.len(),
            n >= 1,
            jump_size >= 1,
            prev <= n,
            sorted_words(data@) ==> absent_in(data@, target@, 0, prev as int),
        ensures
            jump_size >= 1,
            prev <= n,
            sorted_words(data@) ==> absent_in(data@, target@, 0, prev as int),
            prev < n ==> sorted_words(data@) && holds(data@, target@) ==> holds_in(data@, target@, prev as int,
                if prev + jump_size < n { prev + jump_size } else { n as int }),
        decreases n - prev,
    {
        if prev >= n {
            break;
        }
        let jump_index = if jump_size - 1 < n - 1 - prev { prev + (jump_size - 1) } else { n - 1 };
        comparisons = add_counts(comparisons, 1);
        match compare_at(data, jump_index, target) {
            Ordering::Equal => {
                return (true, comparisons);
            },
            Ordering::Greater => {
                proof {
                    if sorted_words(data@) && holds(data@, target@) {
                        let i = choose|i: int| 0 <= i < data@.len() && 0 <= i < data@.len() && #[trigger] data@[i]@ == target@;
                        if i > jump_index {
                            lemma_above(data@, target@, jump_index as int);
                        }
                    }
                }
                break;
            },
            Ordering::Less => {
                proof {
                    if sorted_words(data@) {
                        lemma_below(data@, target@, jump_index as int);
                    }
                }
                if jump_size >= n - prev {
                    prev = n;
                } else {
                    prev = prev + jump_size;
                }
                consecutive_misses = add_counts(consecutive_misses, 1);
                if consecutive_misses > 3 && jump_size > 1 {
                    jump_size = add_counts(jump_size, jump_size / 2);
                }
            },
        }
    }
    let end = if prev < n && jump_size < n - prev { prev + jump_size } else { n };
    scan_block(data, target, if prev < n { prev } else { n }, end, comparisons)
}

} // verus!
