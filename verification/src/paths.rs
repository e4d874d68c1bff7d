//! Sets of file paths, kept as lists in which no path occurs twice.

use vstd::prelude::*;
use crate::assoc::{distinct_keys, has_key, index_of, lemma_count, to_map};

verus! {

/// The paths that a list of strings names.
pub open spec fn path_set(paths: Seq<String>) -> Set<Seq<char>> {
    Set::new(|p: Seq<char>| exists|i: int| 0 <= i < paths.len() && #[trigger] paths[i]@ == p)
}

/// No two strings of the list are the same path.
pub open spec fn no_repeats(paths: Seq<String>) -> bool {
    forall|i: int, j: int| 0 <= i < j < paths.len() ==> #[trigger] paths[i]@ != #[trigger] paths[j]@
}

/// Whether the list names `path`.
pub fn names(paths: &Vec<String>, path: &String) -> (found: bool)
    ensures
        found == path_set(paths@).contains(path@),
{
    let mut i: usize = 0;
    while i < paths.len()
        invariant
            i <= paths.len(),
            forall|k: int| 0 <= k < i ==> #[trigger] paths[k]@ != path@,
        decreases paths.len() - i,
    {
        if paths[i] == *path {
            return true;
        }
        i += 1;
    }
    false
}

/// A list without repeats is as long as the set it names is large.
pub proof fn lemma_path_count(paths: Seq<String>)
    requires
        no_repeats(paths),
    ensures
        path_set(paths).finite(),
        path_set(paths).len() == paths.len(),
{
    let keyed = Seq::new(paths.len(), |i: int| (paths[i]@, ()));
    assert(distinct_keys(keyed)) by {
        assert forall|i: int, j: int| 0 <= i < j < keyed.len() implies (#[trigger] keyed[i]).0
            != (#[trigger] keyed[j]).0 by {
            assert(paths[i]@ != paths[j]@);
        }
    }
    assert forall|p: Seq<char>| has_key(keyed, p) == path_set(paths).contains(p) by {
        if has_key(keyed, p) {
            let i = index_of(keyed, p);
            assert(paths[i]@ == p);
        }
        if path_set(paths).contains(p) {
            let i = choose|i: int| 0 <= i < paths.len() && #[trigger] paths[i]@ == p;
            assert(keyed[i].0 == p);
        }
    }
    assert(to_map(keyed).dom() =~= path_set(paths));
    lemma_count(keyed);
}

/// A set of file paths.
#[derive(Debug)]
pub struct PathSet {
    items: Vec<String>,
}

impl View for PathSet {
    type V = Set<Seq<char>>;

    closed spec fn view(&self) -> Set<Seq<char>> {
        path_set(self.items@)
    }
}

impl PathSet {
    /// No path is listed twice.
    pub closed spec fn wf(&self) -> bool {
        no_repeats(self.items@)
    }

    /// The empty set.
    pub fn new() -> (s: PathSet)
        ensures
            s.wf(),
            s@ == Set::<Seq<char>>::empty(),
    {
        let s = PathSet { items: Vec::new() };
        assert(s@ =~= Set::<Seq<char>>::empty());
        s
    }

    /// Whether `path` is in the set.
    pub fn contains(&self, path: &str) -> (r: bool)
        ensures
            r == self@.contains(path@),
    {
        let key = path.to_owned();
        names(&self.items, &key)
    }

    /// Puts `path` into the set, and says whether it was new.
    pub fn insert(&mut self, path: &str) -> (fresh: bool)
        requires
            old(self).wf(),
        ensures
            final(self).wf(),
            final(self)@ == old(self)@.insert(path@),
            fresh == !old(self)@.contains(path@),
    {
        let key = path.to_owned();
        if names(&self.items, &key) {
            assert(self@ =~= self@.insert(path@));
            false
        } else {
            let ghost before = self.items@;
            self.items.push(key);
            proof {
                let after = self.items@;
                assert forall|p: Seq<char>| path_set(after).contains(p) == path_set(
                    before,
                ).insert(path@).contains(p) by {
                    if path_set(before).contains(p) {
                        let i = choose|i: int| 0 <= i < before.len() && #[trigger] before[i]@ == p;
                        assert(after[i]@ == p);
                    }
                    if p == path@ {
                        assert(after[before.len() as int]@ == p);
                    }
                    if path_set(after).contains(p) {
                        let i = choose|i: int| 0 <= i < after.len() && #[trigger] after[i]@ == p;
                        if i < before.len() {
                            assert(before[i]@ == p);
                        }
                    }
                }
                assert(path_set(after) =~= path_set(before).insert(path@));
                assert forall|i: int, j: int| 0 <= i < j < after.len() implies #[trigger] after[i]@
                    != #[trigger] after[j]@ by {
                    if j == before.len() {
                        assert(before[i]@ == after[i]@);
                    } else {
                        assert(before[i]@ != before[j]@);
                    }
                }
            }
            true
        }
    }

    /// How many paths the set holds.
    pub fn len(&self) -> (n: usize)
        requires
            self.wf(),
        ensures
            self@.finite(),
            n == self@.len(),
    {
        proof {
            lemma_path_count(self.items@);
        }
        self.items.len()
    }

    /// The paths of the set, each once.
    pub fn list(&self) -> (items: &Vec<String>)
        requires
            self.wf(),
        ensures
            no_repeats(items@),
            path_set(items@) == self@,
    {
        &self.items
    }
}

} // verus!
