//! Searches for a word in a list of words. Sorted input means sorted by the
//! byte order of `str`.
use vstd::prelude::*;
use crate::strings::{compare_str, lemma_lex_antisym, lemma_str_cmp_equal, str_cmp, bytes_of};
use std::cmp::Ordering;

pub mod binary_search;
pub mod exponential_search;
pub mod hash_search;
pub mod interpolation_search;
pub mod jump_search;
pub mod linear_search;

verus! {

/// Every word is at most each word after it.
pub open spec fn sorted_words(data: Seq<String>) -> bool {
    forall|i: int, j: int| 0 <= i < j < data.len() ==> str_cmp(#[trigger] data[i]@, #[trigger] data[j]@) != Ordering::Greater
}

/// Some word of `data[lo..hi]` equals `t`.
pub open spec fn holds_in(data: Seq<String>, t: Seq<char>, lo: int, hi: int) -> bool {
    exists|i: int| lo <= i < hi && 0 <= i < data.len() && #[trigger] data[i]@ == t
}

/// Some word of `data` equals `t`.
pub open spec fn holds(data: Seq<String>, t: Seq<char>) -> bool {
    holds_in(data, t, 0, data.len() as int)
}

/// No word of `data[lo..hi]` equals `t`.
pub open spec fn absent_in(data: Seq<String>, t: Seq<char>, lo: int, hi: int) -> bool {
    forall|i: int| lo <= i < hi && 0 <= i < data.len() ==> #[trigger] data[i]@ != t
}

/// In sorted words, nothing at or before a word below `t` equals `t`.
pub proof fn lemma_below(data: Seq<String>, t: Seq<char>, m: int)
    requires
        sorted_words(data),
        0 <= m < data.len(),
        str_cmp(data[m]@, t) == Ordering::Less,
    ensures
        absent_in(data, t, 0, m + 1),
{
    assert forall|i: int| 0 <= i < m + 1 && 0 <= i < data.len() implies #[trigger] data[i]@ != t by {
        lemma_str_cmp_equal(data[m]@, t);
        if data[i]@ == t && i < m {
            assert(str_cmp(data[i]@, data[m]@) != Ordering::Greater);
            lemma_lex_antisym(bytes_of(data[m]@), bytes_of(t));
        }
    }
}

/// In sorted words, nothing at or after a word above `t` equals `t`.
pub proof fn lemma_above(data: Seq<String>, t: Seq<char>, m: int)
    requires
        sorted_words(data),
        0 <= m < data.len(),
        str_cmp(data[m]@, t) == Ordering::Greater,
    ensures
        absent_in(data, t, m, data.len() as int),
{
    assert forall|i: int| m <= i < data.len() && 0 <= i < data.len() implies #[trigger] data[i]@ != t by {
        lemma_str_cmp_equal(data[m]@, t);
        if data[i]@ == t && i > m {
            assert(str_cmp(data[m]@, data[i]@) != Ordering::Greater);
        }
    }
}

/// In sorted words, a word at or before one below `t` is below `t`.
pub proof fn lemma_lt_chain(data: Seq<String>, t: Seq<char>, j: int, m: int)
    requires
        sorted_words(data),
        0 <= j < m < data.len(),
        str_cmp(data[m]@, t) == Ordering::Less,
    ensures
        str_cmp(data[j]@, t) == Ordering::Less,
{
    assert(str_cmp(data[j]@, data[m]@) != Ordering::Greater);
    crate::strings::lemma_lex_le_lt(bytes_of(data[j]@), bytes_of(data[m]@), bytes_of(t));
}

/// In sorted words, a word at or after one above `t` is above `t`.
pub proof fn lemma_gt_chain(data: Seq<String>, t: Seq<char>, m: int, j: int)
    requires
        sorted_words(data),
        0 <= m < j < data.len(),
        str_cmp(data[m]@, t) == Ordering::Greater,
    ensures
        str_cmp(data[j]@, t) == Ordering::Greater,
{
    assert(str_cmp(data[m]@, data[j]@) != Ordering::Greater);
    lemma_lex_antisym(bytes_of(t), bytes_of(data[m]@));
    crate::strings::lemma_lex_lt_le(bytes_of(t), bytes_of(data[m]@), bytes_of(data[j]@));
    lemma_lex_antisym(bytes_of(t), bytes_of(data[j]@));
}

/// Compares the word at `i` with the target.
pub fn compare_at(data: &[String], i: usize, target: &str) -> (r: Ordering)
    requires
        i < data@.len(),
    ensures
        r == str_cmp(data@[i as int]@, target@),
        (r == Ordering::Equal) == (data@[i as int]@ == target@),
{
    proof {
        lemma_str_cmp_equal(data@[i as int]@, target@);
    }
    compare_str(data[i].as_str(), target)
}

/// What binary search of `data[lo..hi]` returns: whether it met `t`, and the
/// number of probes, each at the middle of the remaining range.
pub open spec fn bin_outcome(data: Seq<String>, t: Seq<char>, lo: int, hi: int) -> (bool, nat)
    decreases hi - lo,
{
    if lo >= hi {
        (false, 0)
    } else {
        let mid = lo + (hi - lo) / 2;
        let c = str_cmp(data[mid]@, t);
        if c == Ordering::Equal {
            (true, 1)
        } else if c == Ordering::Less {
            let r = bin_outcome(data, t, mid + 1, hi);
            (r.0, r.1 + 1)
        } else {
            let r = bin_outcome(data, t, lo, mid);
            (r.0, r.1 + 1)
        }
    }
}

/// Number of binary digits of `n`: zero for zero, else one more than of `n / 2`.
pub open spec fn bits(n: nat) -> nat
    decreases n,
{
    if n == 0 { 0 } else { 1 + bits(n / 2) }
}

proof fn lemma_bits_mono(a: nat, b: nat)
    requires
        a <= b,
    ensures
        bits(a) <= bits(b),
    decreases b,
{
    if a > 0 {
        lemma_bits_mono(a / 2, b / 2);
    }
}

/// Binary search probes at most as often as the range's length has binary digits.
pub proof fn lemma_bin_probes(data: Seq<String>, t: Seq<char>, lo: int, hi: int)
    ensures
        bin_outcome(data, t, lo, hi).1 <= bits(if hi > lo { (hi - lo) as nat } else { 0 }),
    decreases hi - lo,
{
    if lo < hi {
        let n = (hi - lo) as nat;
        let mid = lo + (hi - lo) / 2;
        lemma_bin_probes(data, t, mid + 1, hi);
        lemma_bin_probes(data, t, lo, mid);
        lemma_bits_mono((hi - mid - 1) as nat, n / 2);
        lemma_bits_mono((mid - lo) as nat, n / 2);
    }
}

/// Binary search of `data[left..right]`, counting the probes.
pub fn binary_search_range(data: &[String], target: &str, left: usize, right: usize) -> (r: (bool, usize))
    requires
        left <= right <= data@.len(),
    ensures
        r.0 ==> holds_in(data@, target@, left as int, right as int),
        sorted_words(data@) && holds_in(data@, target@, left as int, right as int) ==> r.0,
        r.1 <= right - left,
        r.0 == bin_outcome(data@, target@, left as int, right as int).0,
        r.1 == bin_outcome(data@, target@, left as int, right as int).1,
{
    let mut lo = left;
    let mut hi = right;
    let mut comparisons: usize = 0;
    while lo < hi
        invariant
            left <= lo <= hi <= right <= data@.len(),
            comparisons <= (lo - left) + (right - hi),
            sorted_words(data@) ==> absent_in(data@, target@, left as int, lo as int),
            sorted_words(data@) ==> absent_in(data@, target@, hi as int, right as int),
            bin_outcome(data@, target@, left as int, right as int).0 == bin_outcome(data@, target@, lo as int, hi as int).0,
            bin_outcome(data@, target@, left as int, right as int).1 == comparisons + bin_outcome(data@, target@, lo as int, hi as int).1,
        decreases hi - lo,
    {
        let mid = lo + (hi - lo) / 2;
        comparisons = comparisons + 1;
        match compare_at(data, mid, target) {
            Ordering::Equal => {
                return (true, comparisons);
            },
            Ordering::Less => {
                proof {
                    if sorted_words(data@) {
                        lemma_below(data@, target@, mid as int);
                    }
                }
                lo = mid + 1;
            },
            Ordering::Greater => {
                proof {
                    if sorted_words(data@) {
                        lemma_above(data@, target@, mid as int);
                    }
                }
                hi = mid;
            },
        }
    }
    (false, comparisons)
}

/// Sum of two counts, stopping at the largest `usize`.
pub fn add_counts(a: usize, b: usize) -> (r: usize)
    ensures
        r == if a + b <= usize::MAX { a + b } else { usize::MAX as int },
{
    if a <= usize::MAX - b {
        a + b
    } else {
        usize::MAX
    }
}

/// `a * g`, or `cap` when that reaches `cap`.
pub fn grow_bound(a: usize, g: usize, cap: usize) -> (r: usize)
    ensures
        r == if a * g >= cap { cap as int } else { a * g },
{
    if a == 0 {
        if cap == 0 { cap } else { 0 }
    } else if g > cap / a {
        proof {
            let (ai, gi, ci) = (a as int, g as int, cap as int);
            assert(ai * gi >= ci) by (nonlinear_arith)
                requires
                    ai > 0,
                    gi > ci / ai,
                    ci >= 0,
            ;
        }
        cap
    } else {
        proof {
            let (ai, gi, ci) = (a as int, g as int, cap as int);
            assert(ai * gi <= ci) by (nonlinear_arith)
                requires
                    ai > 0,
                    gi <= ci / ai,
                    ci >= 0,
            ;
        }
        if a * g >= cap { cap } else { a * g }
    }
}

} // verus!
