use vstd::prelude::*;
use crate::search::{absent_in, holds, holds_in};
use crate::strings::str_equal;

verus! {

/// Each distinct word with the position of its last occurrence; lookups go by
/// the word. Entries keep the order in which words first appeared. A
/// `HashMap<String, usize>` would serve at run time, but vstd gives `String`
/// no key model, so nothing about its lookups could be proved.
pub struct WordMap {
    entries: Vec<(String, usize)>,
    contents: Ghost<Map<Seq<char>, usize>>,
}

impl View for WordMap {
    type V = Map<Seq<char>, usize>;

    closed spec fn view(&self) -> Map<Seq<char>, usize> {
        self.contents@
    }
}

impl WordMap {
    /// Entries and contents agree, and no word has two entries.
    pub closed spec fn wf(&self) -> bool {
        &&& forall|i: int| 0 <= i < self.entries@.len() ==> self.contents@.contains_key(#[trigger] self.entries@[i].0@)
            && self.contents@[self.entries@[i].0@] == self.entries@[i].1
        &&& forall|w: Seq<char>| #[trigger] self.contents@.contains_key(w) ==> exists|i: int| 0 <= i < self.entries@.len()
            && #[trigger] self.entries@[i].0@ == w
        &&& forall|i: int, j: int| 0 <= i < j < self.entries@.len() ==> #[trigger] self.entries@[i].0@ != #[trigger] self.entries@[j].0@
    }

    /// An empty map.
    pub fn new() -> (m: WordMap)
        ensures
            m.wf(),
            m@ == Map::<Seq<char>, usize>::empty(),
    {
        WordMap { entries: Vec::new(), contents: Ghost(Map::empty()) }
    }

    /// Number of distinct words.
    pub fn len(&self) -> (n: usize)
        requires
            self.wf(),
        ensures
            n == self@.dom().len(),
    {
        proof {
            self.lemma_dom_len();
        }
        self.entries.len()
    }

    proof fn lemma_dom_len(&self)
        requires
            self.wf(),
        ensures
            self@.dom().len() == self.entries@.len(),
            self@.dom().finite(),
    {
        let keys = self.entries@.map_values(|e: (String, usize)| e.0@);
        assert(self@.dom() =~= keys.to_set()) by {
            assert forall|w: Seq<char>| self@.dom().contains(w) implies keys.to_set().contains(w) by {
                let i = choose|i: int| 0 <= i < self.entries@.len() && #[trigger] self.entries@[i].0@ == w;
                assert(keys[i] == w);
            }
            assert forall|w: Seq<char>| keys.to_set().contains(w) implies self@.dom().contains(w) by {
                let i = choose|i: int| 0 <= i < keys.len() && keys[i] == w;
                assert(self.entries@[i].0@ == w);
            }
        }
        assert(keys.no_duplicates()) by {
            assert forall|i: int, j: int| 0 <= i < keys.len() && 0 <= j < keys.len() && i != j implies keys[i] != keys[j] by {
                if i < j {
                    assert(self.entries@[i].0@ != self.entries@[j].0@);
                } else {
                    assert(self.entries@[j].0@ != self.entries@[i].0@);
                }
            }
        }
        keys.unique_seq_to_set();
    }

    /// The entry of `w`, if any.
    fn find(&self, w: &str) -> (r: Option<usize>)
        requires
            self.wf(),
        ensures
            r matches Some(i) ==> i < self.entries@.len() && self.entries@[i as int].0@ == w@,
            r is None ==> !self@.contains_key(w@),
    {
        let mut i: usize = 0;
        while i < self.entries.len()
            invariant
                i <= self.entries@.len(),
                forall|j: int| 0 <= j < i ==> self.entries@[j].0@ != w@,
            decreases self.entries@.len() - i,
        {
            if str_equal(self.entries[i].0.as_str(), w) {
                return Some(i);
            }
            i = i + 1;
        }
        proof {
            if self@.contains_key(w@) {
                let j = choose|j: int| 0 <= j < self.entries@.len() && #[trigger] self.entries@[j].0@ == w@;
                assert(self.entries@[j].0@ == w@);
            }
        }
        None
    }

    /// Maps `w` to `v`, replacing what `w` mapped to.
    pub fn insert(&mut self, w: String, v: usize)
        requires
            old(self).wf(),
        ensures
            final(self).wf(),
            final(self)@ == old(self)@.insert(w@, v),
    {
        match self.find(w.as_str()) {
            Some(i) => {
                let ghost before = self.entries@;
                self.entries.set(i, (w, v));
                self.contents = Ghost(self.contents@.insert(before[i as int].0@, v));
                proof {
                    assert forall|j: int| 0 <= j < self.entries@.len() implies self.contents@.contains_key(#[trigger] self.entries@[j].0@)
                        && self.contents@[self.entries@[j].0@] == self.entries@[j].1 by {
                        if j != i {
                            assert(self.entries@[j] == before[j]);
                            assert(before[j].0@ != before[i as int].0@);
                        }
                    }
                    assert forall|u: Seq<char>| #[trigger] self.contents@.contains_key(u) implies exists|j: int| 0 <= j < self.entries@.len()
                        && #[trigger] self.entries@[j].0@ == u by {
                        if u != before[i as int].0@ {
                            let j = choose|j: int| 0 <= j < before.len() && #[trigger] before[j].0@ == u;
                            assert(self.entries@[j] == before[j]);
                        } else {
                            assert(self.entries@[i as int].0@ == u);
                        }
                    }
                    assert forall|a: int, b: int| 0 <= a < b < self.entries@.len() implies #[trigger] self.entries@[a].0@ != #[trigger] self.entries@[b].0@ by {
                        assert(before[a].0@ != before[b].0@);
                    }
                }
            },
            None => {
                let ghost before = self.entries@;
                let ghost key = w@;
                self.entries.push((w, v));
                self.contents = Ghost(self.contents@.insert(key, v));
                proof {
                    assert forall|j: int| 0 <= j < self.entries@.len() implies self.contents@.contains_key(#[trigger] self.entries@[j].0@)
                        && self.contents@[self.entries@[j].0@] == self.entries@[j].1 by {
                        if j < before.len() {
                            assert(self.entries@[j] == before[j]);
                            assert(old(self).contents@.contains_key(before[j].0@));
                        }
                    }
                    assert forall|u: Seq<char>| #[trigger] self.contents@.contains_key(u) implies exists|j: int| 0 <= j < self.entries@.len()
                        && #[trigger] self.entries@[j].0@ == u by {
                        if u != key {
                            let j = choose|j: int| 0 <= j < before.len() && #[trigger] before[j].0@ == u;
                            assert(self.entries@[j] == before[j]);
                        } else {
                            assert(self.entries@[before.len() as int].0@ == u);
                        }
                    }
                    assert forall|a: int, b: int| 0 <= a < b < self.entries@.len() implies #[trigger] self.entries@[a].0@ != #[trigger] self.entries@[b].0@ by {
                        if b < before.len() {
                            assert(before[a].0@ != before[b].0@);
                        } else {
                            assert(self.entries@[a] == before[a]);
                            assert(old(self).contents@.contains_key(before[a].0@));
                        }
                    }
                }
            },
        }
    }
}

/// Maps each word of `data` to the position of its last occurrence.
pub fn build_hash_map(data: &[String]) -> (m: WordMap)
    ensures
        m.wf(),
        forall|w: Seq<char>| m@.contains_key(w) <==> holds(data@, w),
        forall|w: Seq<char>| #[trigger] m@.contains_key(w) ==> m@[w] < data@.len() && data@[m@[w] as int]@ == w
            && absent_in(data@, w, m@[w] + 1, data@.len() as int),
{
    let mut m = WordMap::new();
    let mut i: usize = 0;
    while i < data.len()
        invariant
            i <= data@.len(),
            m.wf(),
            forall|w: Seq<char>| m@.contains_key(w) <==> holds_in(data@, w, 0, i as int),
            forall|w: Seq<char>| #[trigger] m@.contains_key(w) ==> m@[w] < i && data@[m@[w] as int]@ == w
                && absent_in(data@, w, m@[w] + 1, i as int),
        decreases data@.len() - i,
    {
        let ghost before = m@;
        m.insert(data[i].clone(), i);
        proof {
            let wi = data@[i as int]@;
            assert forall|w: Seq<char>| m@.contains_key(w) <==> holds_in(data@, w, 0, i + 1) by {
                if w == wi {
                    assert(data@[i as int]@ == w);
                } else if holds_in(data@, w, 0, i + 1) {
                    let j = choose|j: int| 0 <= j < i + 1 && 0 <= j < data@.len() && #[trigger] data@[j]@ == w;
                    assert(j < i);
                    assert(holds_in(data@, w, 0, i as int));
                }
            }
        }
        i = i + 1;
    }
    m
}

/// Whether `target` is a key.
pub fn search(word_map: &WordMap, target: &str) -> (r: bool)
    requires
        word_map.wf(),
    ensures
        r == word_map@.contains_key(target@),
{
    word_map.find(target).is_some()
}

/// The position recorded for `target`, if it is a key.
pub fn search_with_index(word_map: &WordMap, target: &str) -> (r: Option<usize>)
    requires
        word_map.wf(),
    ensures
        r == if word_map@.contains_key(target@) { Some(word_map@[target@]) } else { None::<usize> },
{
    match word_map.find(target) {
        Some(i) => Some(word_map.entries[i].1),
        None => None,
    }
}

/// Whether `target` is a key, with the probes counted as one.
pub fn search_with_collision_analysis(word_map: &WordMap, target: &str) -> (r: (bool, usize))
    requires
        word_map.wf(),
    ensures
        r == (word_map@.contains_key(target@), 1usize),
{
    (search(word_map, target), 1)
}

/// Each target with whether it is a key.
pub fn search_multiple(word_map: &WordMap, targets: &[&str]) -> (r: Vec<(String, bool)>)
    requires
        word_map.wf(),
    ensures
        r@.len() == targets@.len(),
        forall|i: int| 0 <= i < targets@.len() ==> (#[trigger] r@[i]).0@ == targets@[i]@
            && r@[i].1 == word_map@.contains_key(targets@[i]@),
{
    let mut r: Vec<(String, bool)> = Vec::new();
    let mut i: usize = 0;
    while i < targets.len()
        invariant
            i <= targets@.len(),
            word_map.wf(),
            r@.len() == i,
            forall|j: int| 0 <= j < i ==> (#[trigger] r@[j]).0@ == targets@[j]@
                && r@[j].1 == word_map@.contains_key(targets@[j]@),
        decreases targets@.len() - i,
    {
        let t: &str = targets[i];
        r.push((t.to_owned(), search(word_map, t)));
        i = i + 1;
    }
    r
}

} // verus!
