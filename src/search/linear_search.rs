use vstd::prelude::*;
use crate::search::{absent_in, compare_at, holds, holds_in, lemma_above, sorted_words};
use crate::strings::str_equal;
use std::cmp::Ordering;

verus! {

/// Scans the words in order; returns whether `target` occurs and how many words
/// were compared: the position of the first match plus one, or all of them.
pub fn search(data: &[String], target: &str) -> (r: (bool, usize))
    ensures
        r.0 == holds(data@, target@),
        r.0 ==> 1 <= r.1 <= data@.len() && data@[r.1 - 1]@ == target@ && absent_in(data@, target@, 0, r.1 - 1),
        !r.0 ==> r.1 == data@.len(),
{
    let mut comparisons: usize = 0;
    while comparisons < data.len()
        invariant
            comparisons <= data@.len(),
            absent_in(data@, target@, 0, comparisons as int),
        decreases data@.len() - comparisons,
    {
        let i = comparisons;
        comparisons = comparisons + 1;
        if str_equal(data[i].as_str(), target) {
            return (true, comparisons);
        }
    }
    (false, comparisons)
}

/// Scans sorted words in order and stops at the first word not below `target`:
/// the count is that word's position plus one, or the length when every word is
/// below `target`.
pub fn search_sorted_early_exit(data: &[String], target: &str) -> (r: (bool, usize))
    ensures
        r.0 ==> holds(data@, target@),
        sorted_words(data@) ==> (r.0 == holds(data@, target@)),
        r.1 <= data@.len(),
        forall|j: int| 0 <= j < r.1 - 1 ==> crate::strings::str_cmp(#[trigger] data@[j]@, target@) == Ordering::Less,
        (r.1 >= 1 && crate::strings::str_cmp(data@[r.1 - 1]@, target@) != Ordering::Less)
            || (r.1 == data@.len() && forall|j: int| 0 <= j < data@.len() ==> crate::strings::str_cmp(#[trigger] data@[j]@, target@) == Ordering::Less),
        r.0 == (r.1 >= 1 && data@[r.1 - 1]@ == target@),
{
    let mut comparisons: usize = 0;
    while comparisons < data.len()
        invariant
            comparisons <= data@.len(),
            absent_in(data@, target@, 0, comparisons as int),
            forall|j: int| 0 <= j < comparisons ==> crate::strings::str_cmp(#[trigger] data@[j]@, target@) == Ordering::Less,
        decreases data@.len() - comparisons,
    {
        let i = comparisons;
        comparisons = comparisons + 1;
        match compare_at(data, i, target) {
            Ordering::Equal => {
                return (true, comparisons);
            },
            Ordering::Greater => {
                proof {
                    if sorted_words(data@) {
                        lemma_above(data@, target@, i as int);
                    }
                }
                return (false, comparisons);
            },
            Ordering::Less => {},
        }
    }
    proof {
        if comparisons >= 1 {
            crate::strings::lemma_str_cmp_equal(data@[comparisons - 1]@, target@);
        }
    }
    (false, comparisons)
}

} // verus!
