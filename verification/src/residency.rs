//! The locker's residency table: which files are held mapped, and for how many
//! end-of-cycle markers each has gone unreported.

use vstd::prelude::*;
use crate::assoc::{distinct_keys, has_key, index_of, lemma_count, lemma_entry, lemma_push, lemma_update, to_map};
use crate::paths::{names, path_set};

verus! {

/// An entry whose counter has reached this value is due for release at the
/// next end-of-cycle marker.
pub const STALE_AFTER: u8 = 5;

/// A live memory mapping: where it starts and how many bytes it spans.
/// Neither is ever zero.
#[derive(Clone, Copy, Debug, PartialEq, Eq, Structural)]
pub struct Mapping {
    addr: usize,
    len: usize,
}

impl Mapping {
    #[verifier::type_invariant]
    spec fn inv(self) -> bool {
        self.addr != 0 && self.len != 0
    }

    pub closed spec fn spec_addr(&self) -> usize {
        self.addr
    }

    pub closed spec fn spec_len(&self) -> usize {
        self.len
    }

    /// The handle of a mapping of `len` bytes at `addr`, unless either is zero.
    pub fn new(addr: usize, len: usize) -> (m: Option<Mapping>)
        ensures
            m is Some <==> addr != 0 && len != 0,
            m matches Some(h) ==> h.spec_addr() == addr && h.spec_len() == len,
    {
        if addr != 0 && len != 0 {
            Some(Mapping { addr, len })
        } else {
            None
        }
    }

    #[verifier::when_used_as_spec(spec_addr)]
    pub fn addr(&self) -> (a: usize)
        ensures
            a == self.spec_addr(),
            a != 0,
    {
        proof {
            use_type_invariant(self);
        }
        self.addr
    }

    #[verifier::when_used_as_spec(spec_len)]
    pub fn len(&self) -> (n: usize)
        ensures
            n == self.spec_len(),
            n != 0,
    {
        proof {
            use_type_invariant(self);
        }
        self.len
    }
}

/// What the table holds for one path.
#[derive(Clone, Copy, Debug, PartialEq, Eq)]
pub struct Residency {
    /// The mapping that keeps the file's pages in memory.
    pub mapping: Mapping,
    /// End-of-cycle markers since the path was last reported.
    pub last_seen_ago: u8,
}

impl Residency {
    /// How many cycles in a row have ended without a report of the file. The
    /// marker that ends the cycle of the last report counts towards
    /// `last_seen_ago`, but not towards this.
    pub open spec fn spec_cycles_unseen(&self) -> u8 {
        if self.last_seen_ago == 0 {
            0
        } else {
            (self.last_seen_ago - 1) as u8
        }
    }

    #[verifier::when_used_as_spec(spec_cycles_unseen)]
    pub fn cycles_unseen(&self) -> (n: u8)
        ensures
            n == self.spec_cycles_unseen(),
    {
        if self.last_seen_ago == 0 {
            0
        } else {
            self.last_seen_ago - 1
        }
    }
}

/// The table as a map from path to what is held for it.
pub type TableView = Map<Seq<char>, Residency>;

/// Whether an entry is due for release at the next end-of-cycle marker.
pub open spec fn is_expired(r: Residency) -> bool {
    r.last_seen_ago >= STALE_AFTER
}

/// The table after `path` was reported: a resident path has its counter back
/// at zero and keeps its mapping; for any other path nothing changes.
pub open spec fn spec_report(t: TableView, path: Seq<char>) -> TableView {
    if t.dom().contains(path) {
        t.insert(path, Residency { mapping: t[path].mapping, last_seen_ago: 0 })
    } else {
        t
    }
}

/// The table after a fresh mapping of `path` was handed over: it enters with
/// counter zero, unless the path is resident already.
pub open spec fn spec_install(t: TableView, path: Seq<char>, mapping: Mapping) -> TableView {
    if t.dom().contains(path) {
        t
    } else {
        t.insert(path, Residency { mapping, last_seen_ago: 0 })
    }
}

/// The paths that are due for release.
pub open spec fn spec_expired(t: TableView) -> Set<Seq<char>> {
    Set::new(|p: Seq<char>| t.dom().contains(p) && is_expired(t[p]))
}

/// The table after an end-of-cycle marker, where `released` holds the paths
/// whose mapping was given back: an entry that is not yet due ages by one; one
/// that is due leaves if it was released and stays as it is otherwise.
pub open spec fn spec_end_cycle(t: TableView, released: Set<Seq<char>>) -> TableView {
    Map::new(
        |p: Seq<char>| t.dom().contains(p) && !(is_expired(t[p]) && released.contains(p)),
        |p: Seq<char>|
            if is_expired(t[p]) {
                t[p]
            } else {
                Residency {
                    mapping: t[p].mapping,
                    last_seen_ago: (t[p].last_seen_ago + 1) as u8,
                }
            },
    )
}

/// An entry that is due for release: the path and the mapping to give back.
#[derive(Debug, PartialEq, Eq)]
pub struct Release {
    pub path: String,
    pub mapping: Mapping,
}

/// Why a file is not mapped.
#[derive(Clone, Copy, Debug, PartialEq, Eq, Structural)]
pub enum MapRefusal {
    /// The file is empty.
    Empty,
    /// The file is longer than a mapping can be.
    TooLarge,
}

/// The length of the mapping that holds a whole file of `file_len` bytes.
pub fn mapping_length(file_len: u64) -> (len: Result<usize, MapRefusal>)
    ensures
        match len {
            Ok(n) => n == file_len && n != 0,
            Err(MapRefusal::Empty) => file_len == 0,
            Err(MapRefusal::TooLarge) => file_len > usize::MAX,
        },
{
    if file_len == 0 {
        Err(MapRefusal::Empty)
    } else if file_len > usize::MAX as u64 {
        Err(MapRefusal::TooLarge)
    } else {
        Ok(file_len as usize)
    }
}

struct Slot {
    path: String,
    held: Residency,
}

spec fn keyed(slots: Seq<Slot>) -> Seq<(Seq<char>, Residency)> {
    Seq::new(slots.len(), |i: int| (slots[i].path@, slots[i].held))
}

spec fn bounded(slots: Seq<Slot>) -> bool {
    forall|i: int| 0 <= i < slots.len() ==> (#[trigger] slots[i]).held.last_seen_ago <= STALE_AFTER
}

spec fn aged(r: Residency) -> Residency {
    if is_expired(r) {
        r
    } else {
        Residency { mapping: r.mapping, last_seen_ago: (r.last_seen_ago + 1) as u8 }
    }
}

/// The files that the locker holds mapped, by path.
pub struct ResidencyTable {
    slots: Vec<Slot>,
}

impl View for ResidencyTable {
    type V = TableView;

    closed spec fn view(&self) -> TableView {
        to_map(keyed(self.slots@))
    }
}

impl ResidencyTable {
    /// No path has two entries, and no counter is past the threshold.
    pub closed spec fn wf(&self) -> bool {
        distinct_keys(keyed(self.slots@)) && bounded(self.slots@)
    }

    /// A table without entries.
    pub fn new() -> (t: ResidencyTable)
        ensures
            t.wf(),
            t@ == Map::<Seq<char>, Residency>::empty(),
    {
        let t = ResidencyTable { slots: Vec::new() };
        assert(t@ =~= Map::<Seq<char>, Residency>::empty());
        t
    }

    fn find(&self, path: &String) -> (at: Option<usize>)
        ensures
            match at {
                Some(i) => i < self.slots.len() && self.slots[i as int].path@ == path@,
                None => !has_key(keyed(self.slots@), path@),
            },
    {
        let mut i: usize = 0;
        while i < self.slots.len()
            invariant
                i <= self.slots.len(),
                forall|k: int| 0 <= k < i ==> (#[trigger] keyed(self.slots@)[k]).0 != path@,
            decreases self.slots.len() - i,
        {
            if self.slots[i].path == *path {
                return Some(i);
            }
            i += 1;
        }
        None
    }

    /// How many files are held.
    pub fn len(&self) -> (n: usize)
        requires
            self.wf(),
        ensures
            self@.dom().finite(),
            n == self@.dom().len(),
    {
        proof {
            lemma_count(keyed(self.slots@));
        }
        self.slots.len()
    }

    /// What is held for `path`, if it is resident.
    pub fn lookup(&self, path: &str) -> (r: Option<Residency>)
        requires
            self.wf(),
        ensures
            r is Some <==> self@.dom().contains(path@),
            r matches Some(held) ==> held == self@[path@],
    {
        let key = path.to_owned();
        match self.find(&key) {
            Some(i) => {
                proof {
                    lemma_entry(keyed(self.slots@), i as int);
                }
                Some(self.slots[i].held)
            },
            None => None,
        }
    }

    /// Takes note that `path` was reported. A resident path is marked as just
    /// seen and keeps its mapping; otherwise the table stays as it is, and the
    /// caller has a file to map.
    pub fn observe(&mut self, path: &str) -> (resident: bool)
        requires
            old(self).wf(),
        ensures
            final(self).wf(),
            resident == old(self)@.dom().contains(path@),
            final(self)@ == spec_report(old(self)@, path@),
    {
        let key = path.to_owned();
        match self.find(&key) {
            Some(i) => {
                let ghost before = self.slots@;
                self.slots[i].held.last_seen_ago = 0;
                proof {
                    let fresh = Residency {
                        mapping: before[i as int].held.mapping,
                        last_seen_ago: 0,
                    };
                    lemma_entry(keyed(before), i as int);
                    lemma_update(keyed(before), i as int, fresh);
                    assert(keyed(self.slots@) =~= keyed(before).update(i as int, (path@, fresh)));
                }
                true
            },
            None => false,
        }
    }

    /// Takes over a fresh mapping of `path`, with its counter at zero. A path
    /// that is resident already keeps what it has: the table never holds two
    /// mappings of one file.
    pub fn install(&mut self, path: &str, mapping: Mapping) -> (installed: bool)
        requires
            old(self).wf(),
        ensures
            final(self).wf(),
            installed == !old(self)@.dom().contains(path@),
            final(self)@ == spec_install(old(self)@, path@, mapping),
    {
        let key = path.to_owned();
        match self.find(&key) {
            Some(i) => {
                proof {
                    lemma_entry(keyed(self.slots@), i as int);
                }
                false
            },
            None => {
                let ghost before = self.slots@;
                let held = Residency { mapping, last_seen_ago: 0 };
                proof {
                    lemma_push(keyed(before), path@, held);
                }
                self.slots.push(Slot { path: key, held });
                assert(keyed(self.slots@) =~= keyed(before).push((path@, held)));
                true
            },
        }
    }

    /// The entries that are due for release, each once.
    pub fn expired(&self) -> (due: Vec<Release>)
        requires
            self.wf(),
        ensures
            forall|k: int|
                0 <= k < due.len() ==> spec_expired(self@).contains((#[trigger] due[k]).path@)
                    && due[k].mapping == self@[due[k].path@].mapping,
            forall|p: Seq<char>|
                spec_expired(self@).contains(p) ==> exists|k: int|
                    0 <= k < due.len() && #[trigger] due[k].path@ == p,
            forall|k: int, l: int|
                0 <= k < l < due.len() ==> #[trigger] due[k].path@ != #[trigger] due[l].path@,
    {
        let mut due: Vec<Release> = Vec::new();
        let ghost list = keyed(self.slots@);
        let ghost mut origin: Seq<int> = Seq::empty();
        let mut i: usize = 0;
        while i < self.slots.len()
            invariant
                i <= self.slots.len(),
                list == keyed(self.slots@),
                origin.len() == due.len(),
                forall|k: int|
                    0 <= k < due.len() ==> 0 <= #[trigger] origin[k] < i && due[k].path@
                        == list[origin[k]].0 && due[k].mapping == list[origin[k]].1.mapping
                        && is_expired(list[origin[k]].1),
                forall|k: int, l: int|
                    0 <= k < l < due.len() ==> #[trigger] origin[k] < #[trigger] origin[l],
                forall|j: int|
                    0 <= j < i && is_expired((#[trigger] list[j]).1) ==> exists|k: int|
                        0 <= k < due.len() && #[trigger] due[k].path@ == list[j].0,
            decreases self.slots.len() - i,
        {
            if self.slots[i].held.last_seen_ago >= STALE_AFTER {
                let ghost before = due@;
                due.push(
                    Release { path: self.slots[i].path.clone(), mapping: self.slots[i].held.mapping },
                );
                proof {
                    origin = origin.push(i as int);
                    assert forall|j: int|
                        0 <= j < i + 1 && is_expired((#[trigger] list[j]).1) implies exists|k: int|
                        0 <= k < due.len() && #[trigger] due[k].path@ == list[j].0 by {
                        if j < i {
                            let k = choose|k: int|
                                0 <= k < before.len() && #[trigger] before[k].path@ == list[j].0;
                            assert(due[k].path@ == list[j].0);
                        } else {
                            assert(due[due.len() - 1].path@ == list[j].0);
                        }
                    }
                }
            }
            i += 1;
        }
        proof {
            assert forall|k: int| 0 <= k < due.len() implies spec_expired(self@).contains(
                (#[trigger] due[k]).path@,
            ) && due[k].mapping == self@[due[k].path@].mapping by {
                lemma_entry(list, origin[k]);
            }
            assert forall|p: Seq<char>| spec_expired(self@).contains(p) implies exists|k: int|
                0 <= k < due.len() && #[trigger] due[k].path@ == p by {
                let j = index_of(list, p);
                lemma_entry(list, j);
            }
            assert forall|k: int, l: int| 0 <= k < l < due.len() implies #[trigger] due[k].path@
                != #[trigger] due[l].path@ by {
                assert(origin[k] < origin[l]);
                assert(list[origin[k]].0 != list[origin[l]].0);
            }
        }
        due
    }

    /// Handles an end-of-cycle marker. `released` names the entries whose
    /// mapping was given back since `expired` listed them. An entry that is
    /// not yet due ages by one; one that is due leaves if it is named there,
    /// and stays unchanged, to be tried again, if it is not. Naming a path that
    /// is not due has no effect.
    pub fn end_cycle(&mut self, released: &Vec<String>)
        requires
            old(self).wf(),
        ensures
            final(self).wf(),
            final(self)@ == spec_end_cycle(old(self)@, path_set(released@)),
    {
        let mut pending: Vec<Slot> = Vec::new();
        std::mem::swap(&mut self.slots, &mut pending);
        let ghost orig = keyed(pending@);
        let ghost gone = path_set(released@);
        let ghost mut origin: Seq<int> = Seq::empty();
        for slot in it: pending
            invariant
                orig == keyed(it.seq()),
                distinct_keys(orig),
                bounded(it.seq()),
                gone == path_set(released@),
                distinct_keys(keyed(self.slots@)),
                bounded(self.slots@),
                origin.len() == self.slots.len(),
                forall|k: int|
                    0 <= k < self.slots.len() ==> 0 <= #[trigger] origin[k] < it.index()
                        && orig[origin[k]].0 == keyed(self.slots@)[k].0 && keyed(self.slots@)[k].1
                        == aged(orig[origin[k]].1) && !(is_expired(orig[origin[k]].1)
                        && gone.contains(orig[origin[k]].0)),
                forall|j: int|
                    0 <= j < it.index() && !(is_expired((#[trigger] orig[j]).1) && gone.contains(
                        orig[j].0,
                    )) ==> has_key(keyed(self.slots@), orig[j].0),
        {
            let ghost n = it.index() as int;
            let ghost kept = keyed(self.slots@);
            assert(slot == it.seq()[n]);
            assert(orig[n] == (slot.path@, slot.held));
            let due = slot.held.last_seen_ago >= STALE_AFTER;
            if !due || !names(released, &slot.path) {
                let next = if due {
                    slot
                } else {
                    Slot {
                        path: slot.path,
                        held: Residency {
                            mapping: slot.held.mapping,
                            last_seen_ago: slot.held.last_seen_ago + 1,
                        },
                    }
                };
                proof {
                    if has_key(kept, next.path@) {
                        let k = index_of(kept, next.path@);
                        assert(orig[origin[k]].0 != orig[n].0);
                    }
                    lemma_push(kept, next.path@, next.held);
                    origin = origin.push(n);
                }
                self.slots.push(next);
                proof {
                    let grown = keyed(self.slots@);
                    assert(grown =~= kept.push((next.path@, next.held)));
                    assert forall|j: int|
                        0 <= j < n + 1 && !(is_expired((#[trigger] orig[j]).1) && gone.contains(
                            orig[j].0,
                        )) implies has_key(grown, orig[j].0) by {
                        if j < n {
                            let k = index_of(kept, orig[j].0);
                            assert(grown[k].0 == orig[j].0);
                        } else {
                            assert(grown[kept.len() as int].0 == orig[j].0);
                        }
                    }
                }
            }
        }
        proof {
            let kept = keyed(self.slots@);
            let want = spec_end_cycle(to_map(orig), gone);
            assert forall|p: Seq<char>| has_key(kept, p) implies want.dom().contains(p) && to_map(
                kept,
            )[p] == want[p] by {
                let k = index_of(kept, p);
                lemma_entry(kept, k);
                lemma_entry(orig, origin[k]);
            }
            assert forall|p: Seq<char>| want.dom().contains(p) implies has_key(kept, p) by {
                let j = index_of(orig, p);
                lemma_entry(orig, j);
            }
            assert(to_map(kept) =~= want);
        }
    }
}

} // verus!
