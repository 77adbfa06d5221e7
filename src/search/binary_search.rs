use vstd::prelude::*;
use crate::search::{bin_outcome, bits, lemma_bin_probes, absent_in, binary_search_range, compare_at, holds, holds_in, lemma_above, lemma_below, sorted_words};
use std::cmp::Ordering;

verus! {

/// Binary search of sorted words; returns whether `target` occurs and the
/// number of probes, at most the number of binary digits of the length.
pub fn search(data: &[String], target: &str) -> (r: (bool, usize))
    ensures
        r.0 ==> holds(data@, target@),
        sorted_words(data@) ==> (r.0 == holds(data@, target@)),
        r.1 <= data@.len(),
        r.1 <= bits(data@.len()),
        r.0 == bin_outcome(data@, target@, 0, data@.len() as int).0,
        r.1 == bin_outcome(data@, target@, 0, data@.len() as int).1,
{
    proof {
        lemma_bin_probes(data@, target@, 0, data@.len() as int);
    }
    binary_search_range(data, target, 0, data.len())
}

/// Binary search of sorted words by recursion; it returns the same pair as `search`.
pub fn search_recursive(data: &[String], target: &str) -> (r: (bool, usize))
    ensures
        r.0 ==> holds(data@, target@),
        sorted_words(data@) ==> (r.0 == holds(data@, target@)),
        r.1 <= data@.len(),
        r.0 == bin_outcome(data@, target@, 0, data@.len() as int).0,
        r.1 == bin_outcome(data@, target@, 0, data@.len() as int).1,
{
    let mut comparisons: usize = 0;
    let found = binary_search_recursive(data, target, 0, data.len(), &mut comparisons);
    (found, comparisons)
}

/// Searches `data[left..right]`, adding one to `comparisons` per probe.
fn binary_search_recursive(data: &[String], target: &str, left: usize, right: usize, comparisons: &mut usize) -> (found: bool)
    requires
        left <= right <= data@.len(),
        *old(comparisons) <= data@.len() - (right - left),
    ensures
        found ==> holds_in(data@, target@, left as int, right as int),
        sorted_words(data@) && holds_in(data@, target@, left as int, right as int) ==> found,
        *old(comparisons) <= *final(comparisons) <= *old(comparisons) + (right - left),
        found == bin_outcome(data@, target@, left as int, right as int).0,
        *final(comparisons) == *old(comparisons) + bin_outcome(data@, target@, left as int, right as int).1,
    decreases right - left,
{
    if left >= right {
        return false;
    }
    let mid = left + (right - left) / 2;
    let n = data.len();
    *comparisons = *comparisons + 1;
    match compare_at(data, mid, target) {
        Ordering::Equal => true,
        Ordering::Less => {
            proof {
                if sorted_words(data@) {
                    lemma_below(data@, target@, mid as int);
                }
            }
            binary_search_recursive(data, target, mid + 1, right, comparisons)
        },
        Ordering::Greater => {
            proof {
                if sorted_words(data@) {
                    lemma_above(data@, target@, mid as int);
                }
            }
            binary_search_recursive(data, target, left, mid, comparisons)
        },
    }
}

/// Binary search of sorted words that also reports where `target` belongs:
/// `(Some(i), probes, i)` at a match, else `(None, probes, p)` with every word
/// before `p` below `target` and every word from `p` on above it.
pub fn search_with_insertion_point(data: &[String], target: &str) -> (r: (Option<usize>, usize, usize))
    ensures
        r.0 matches Some(i) ==> i < data@.len() && data@[i as int]@ == target@ && r.2 == i,
        r.0 is None && sorted_words(data@) ==> !holds(data@, target@),
        r.0 is None ==> r.2 <= data@.len()
            && (forall|j: int| 0 <= j < r.2 ==> crate::strings::str_cmp(#[trigger] data@[j]@, target@) == Ordering::Less || !sorted_words(data@))
            && (forall|j: int| r.2 <= j < data@.len() ==> crate::strings::str_cmp(#[trigger] data@[j]@, target@) == Ordering::Greater || !sorted_words(data@)),
        r.1 <= data@.len(),
{
    let mut left: usize = 0;
    let mut right: usize = data.len();
    let mut comparisons: usize = 0;
    while left < right
        invariant
            left <= right <= data@.len(),
            data@.len() <= usize::MAX,
            comparisons <= left + (data@.len() - right),
            forall|j: int| 0 <= j < left ==> crate::strings::str_cmp(#[trigger] data@[j]@, target@) == Ordering::Less || !sorted_words(data@),
            forall|j: int| right <= j < data@.len() ==> crate::strings::str_cmp(#[trigger] data@[j]@, target@) == Ordering::Greater || !sorted_words(data@),
        decreases right - left,
    {
        let mid = left + (right - left) / 2;
        comparisons = comparisons + 1;
        match compare_at(data, mid, target) {
            Ordering::Equal => {
                return (Some(mid), comparisons, mid);
            },
            Ordering::Less => {
                proof {
                    assert forall|j: int| 0 <= j < mid + 1 implies crate::strings::str_cmp(#[trigger] data@[j]@, target@) == Ordering::Less || !sorted_words(data@) by {
                        if sorted_words(data@) && j < mid {
                            crate::search::lemma_lt_chain(data@, target@, j, mid as int);
                        }
                    }
                }
                left = mid + 1;
            },
            Ordering::Greater => {
                proof {
                    assert forall|j: int| mid <= j < data@.len() implies crate::strings::str_cmp(#[trigger] data@[j]@, target@) == Ordering::Greater || !sorted_words(data@) by {
                        if sorted_words(data@) && j > mid {
                            crate::search::lemma_gt_chain(data@, target@, mid as int, j);
                        }
                    }
                }
                right = mid;
            },
        }
    }
    proof {
        if sorted_words(data@) {
            assert forall|j: int| 0 <= j < data@.len() implies #[trigger] data@[j]@ != target@ by {
                crate::strings::lemma_str_cmp_equal(data@[j]@, target@);
            }
        }
    }
    (None, comparisons, left)
}

} // verus!
