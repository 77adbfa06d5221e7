use vstd::prelude::*;
use crate::search::{absent_in, compare_at, holds, lemma_above, lemma_below, sorted_words};
use crate::strings::{lemma_str_cmp_equal, str_cmp, str_equal};
use std::cmp::Ordering;

verus! {

broadcast use vstd::string::axiom_spec_iter, vstd::string::next_postcondition;

/// The code of the first character of a string, zero for the empty string.
pub open spec fn first_code(s: Seq<char>) -> int {
    if s.len() > 0 { (s[0] as u32) as int } else { 0 }
}

/// The code of the first character of `s`, zero when `s` is empty.
pub fn first_char_code(s: &str) -> (r: u32)
    ensures
        r == first_code(s@),
{
    let mut it = s.chars();
    proof {
        assert(vstd::std_specs::iter::IteratorSpec::remaining(&vstd::string::spec_iter(s)) == s@);
    }
    let ghost it0 = it;
    let first = it.next();
    proof {
        assert(vstd::string::next_post(&it0, &it, first));
        assert(vstd::std_specs::iter::IteratorSpec::obeys_prophetic_iter_laws(&it));
        assert(vstd::std_specs::iter::IteratorSpec::remaining(&it0) == s@);
    }
    match first {
        Some(c) => c as u32,
        None => 0,
    }
}

/// Where interpolation puts the next probe between `low` and `high`: the share
/// of the way from the first character of the low word to that of the high
/// word that the target's first character has gone, kept within the range.
pub open spec fn probe_position(low: int, high: int, tv: int, lv: int, hv: int) -> int {
    if hv > lv {
        let q = (if tv >= lv { tv - lv } else { 0 }) * (high - low) / (hv - lv);
        if q >= high - low { high } else { low + q }
    } else {
        low
    }
}

fn probe(low: usize, high: usize, tv: u32, lv: u32, hv: u32) -> (p: usize)
    requires
        low <= high,
    ensures
        p == probe_position(low as int, high as int, tv as int, lv as int, hv as int),
        low <= p <= high,
{
    if hv > lv {
        let num: u128 = if tv >= lv { (tv - lv) as u128 } else { 0 };
        let span = (high - low) as u128;
        proof {
            assert(num * span <= 0xffff_ffffu128 * 0xffff_ffff_ffff_ffffu128) by (nonlinear_arith)
                requires
                    num <= 0xffff_ffffu128,
                    span <= 0xffff_ffff_ffff_ffffu128,
            ;
        }
        let q = num * span / ((hv - lv) as u128);
        if q >= span {
            high
        } else {
            low + q as usize
        }
    } else {
        low
    }
}

/// What interpolation search of `data[low..=high]` returns: whether it met `t`
/// and how many rounds it took, with `tv` the code of `t`'s first character.
pub open spec fn interp_outcome(data: Seq<String>, t: Seq<char>, tv: int, low: int, high: int) -> (bool, nat)
    decreases high + 1 - low,
{
    if low > high || low < 0 || high >= data.len() {
        (false, 0)
    } else if str_cmp(data[low]@, t) == Ordering::Greater || str_cmp(data[high]@, t) == Ordering::Less {
        (false, 0)
    } else if low == high {
        (data[low]@ == t, 1)
    } else {
        let p0 = probe_position(low, high, tv, first_code(data[low]@), first_code(data[high]@));
        let pos = if p0 < low { low } else if p0 > high { high } else { p0 };
        let c = str_cmp(data[pos]@, t);
        if c == Ordering::Equal {
            (true, 1)
        } else if c == Ordering::Less {
            let r = interp_outcome(data, t, tv, pos + 1, high);
            (r.0, r.1 + 1)
        } else if pos == 0 {
            (false, 1)
        } else {
            let r = interp_outcome(data, t, tv, low, pos - 1);
            (r.0, r.1 + 1)
        }
    }
}

/// What `search` returns on `data` and `t`.
pub open spec fn interp_result(data: Seq<String>, t: Seq<char>) -> (bool, nat) {
    if data.len() == 0 {
        (false, 0)
    } else {
        interp_outcome(data, t, first_code(t), 0, data.len() - 1)
    }
}

/// Interpolation search of sorted words, estimating each probe from the first
/// characters of the target and of the words at both ends of the range.
pub fn search(data: &[String], target: &str) -> (r: (bool, usize))
    ensures
        r.0 ==> holds(data@, target@),
        sorted_words(data@) ==> (r.0 == holds(data@, target@)),
        data@.len() == 0 ==> r == (false, 0usize),
        r.1 <= data@.len(),
        r.0 == interp_result(data@, target@).0,
        r.1 == interp_result(data@, target@).1,
{
    if data.len() == 0 {
        return (false, 0);
    }
    let n = data.len();
    let mut low: usize = 0;
    let mut high: usize = n - 1;
    let mut comparisons: usize = 0;
    let target_val = first_char_code(target);
    loop
        invariant
            n == data@.len(),
            low <= n,
            high < n,
            low <= high + 1,
            comparisons + high + 1 <= low + n,
            sorted_words(data@) ==> absent_in(data@, target@, 0, low as int),
            sorted_words(data@) ==> absent_in(data@, target@, high + 1, n as int),
            target_val == first_code(target@),
            interp_result(data@, target@).0 == interp_outcome(data@, target@, target_val as int, low as int, high as int).0,
            interp_result(data@, target@).1 == comparisons + interp_outcome(data@, target@, target_val as int, low as int, high as int).1,
        ensures
            sorted_words(data@) ==> !holds(data@, target@),
            comparisons <= n,
            interp_result(data@, target@) == (false, comparisons as nat),
        decreases high + 1 - low,
    {
        if low > high {
            break;
        }
        match compare_at(data, low, target) {
            Ordering::Greater => {
                proof {
                    if sorted_words(data@) {
                        lemma_above(data@, target@, low as int);
                    }
                }
                break;
            },
            _ => {},
        }
        match compare_at(data, high, target) {
            Ordering::Less => {
                proof {
                    if sorted_words(data@) {
                        lemma_below(data@, target@, high as int);
                    }
                }
                break;
            },
            _ => {},
        }
        comparisons = comparisons + 1;
        if low == high {
            if str_equal(data[low].as_str(), target) {
                return (true, comparisons);
            }
            return (false, comparisons);
        }
        let low_val = first_char_code(data[low].as_str());
        let high_val = first_char_code(data[high].as_str());
        let pos = probe(low, high, target_val, low_val, high_val);
        match compare_at(data, pos, target) {
            Ordering::Equal => {
                return (true, comparisons);
            },
            Ordering::Less => {
                proof {
                    if sorted_words(data@) {
                        lemma_below(data@, target@, pos as int);
                    }
                }
                low = pos + 1;
            },
            Ordering::Greater => {
                proof {
                    if sorted_words(data@) {
                        lemma_above(data@, target@, pos as int);
                    }
                }
                if pos == 0 {
                    break;
                }
                high = pos - 1;
            },
        }
    }
    (false, comparisons)
}

/// Interpolation search that falls back to binary search when it found nothing
/// after at least as many comparisons as there are words (and at least ten).
pub fn search_with_fallback(data: &[String], target: &str) -> (r: (bool, usize))
    ensures
        r.0 ==> holds(data@, target@),
        sorted_words(data@) ==> (r.0 == holds(data@, target@)),
        ({
            let (f, k) = interp_result(data@, target@);
            let b = crate::search::bin_outcome(data@, target@, 0, data@.len() as int);
            if f || k < (if data@.len() > 10 { data@.len() as int } else { 10 }) {
                r.0 == f && r.1 == k
            } else {
                r.0 == b.0 && r.1 == b.1
            }
        }),
{
    let (found, comparisons) = search(data, target);
    let limit = if data.len() > 10 { data.len() } else { 10 };
    if found || comparisons < limit {
        (found, comparisons)
    } else {
        crate::search::binary_search::search(data, target)
    }
}

} // verus!
