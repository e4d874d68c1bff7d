//! The dispatcher's registry: which namespace has which worker. A worker is
//! known by a number that the dispatcher gave it; the process itself stays
//! with the caller.

use vstd::prelude::*;
use crate::assoc::{distinct_keys, has_key, index_of, lemma_count, lemma_entry, lemma_push, to_map};
use crate::namespace::{NamespaceToken, TokenView};

verus! {

/// The registry as a map from namespace to the number of its worker.
pub type Workers = Map<TokenView, u64>;

/// The registry after the workers with the numbers in `exited` were found
/// dead: their namespaces have no worker any more, and all others keep
/// theirs.
pub open spec fn spec_reap(workers: Workers, exited: Set<u64>) -> Workers {
    Map::new(
        |t: TokenView| workers.dom().contains(t) && !exited.contains(workers[t]),
        |t: TokenView| workers[t],
    )
}

/// The registry after a worker with number `id` was started for `token`: it
/// is entered, unless the namespace has a worker already.
pub open spec fn spec_register(workers: Workers, token: TokenView, id: u64) -> Workers {
    if workers.dom().contains(token) {
        workers
    } else {
        workers.insert(token, id)
    }
}

struct Worker {
    token: NamespaceToken,
    id: u64,
}

spec fn keyed(workers: Seq<Worker>) -> Seq<(TokenView, u64)> {
    Seq::new(workers.len(), |i: int| (workers[i].token@, workers[i].id))
}

/// The workers that the dispatcher has running, by namespace.
pub struct Registry {
    workers: Vec<Worker>,
}

impl View for Registry {
    type V = Workers;

    closed spec fn view(&self) -> Workers {
        to_map(keyed(self.workers@))
    }
}

fn listed(ids: &Vec<u64>, id: u64) -> (found: bool)
    ensures
        found == ids@.contains(id),
{
    let mut i: usize = 0;
    while i < ids.len()
        invariant
            i <= ids.len(),
            forall|k: int| 0 <= k < i ==> ids[k] != id,
        decreases ids.len() - i,
    {
        if ids[i] == id {
            return true;
        }
        i += 1;
    }
    false
}

impl Registry {
    /// No namespace has two workers.
    pub closed spec fn wf(&self) -> bool {
        distinct_keys(keyed(self.workers@))
    }

    /// A registry without workers.
    pub fn new() -> (registry: Registry)
        ensures
            registry.wf(),
            registry@ == Map::<TokenView, u64>::empty(),
    {
        let registry = Registry { workers: Vec::new() };
        assert(registry@ =~= Map::<TokenView, u64>::empty());
        registry
    }

    /// How many workers are running.
    pub fn len(&self) -> (n: usize)
        requires
            self.wf(),
        ensures
            self@.dom().finite(),
            n == self@.dom().len(),
    {
        proof {
            lemma_count(keyed(self.workers@));
        }
        self.workers.len()
    }

    /// The numbers of the workers that are running, one for each namespace.
    pub fn ids(&self) -> (ids: Vec<u64>)
        requires
            self.wf(),
        ensures
            forall|id: u64| ids@.contains(id) <==> self@.contains_value(id),
            ids.len() == self@.dom().len(),
    {
        let mut ids: Vec<u64> = Vec::new();
        let mut i: usize = 0;
        while i < self.workers.len()
            invariant
                i <= self.workers.len(),
                ids.len() == i,
                forall|k: int| 0 <= k < i ==> ids[k] == (#[trigger] self.workers[k]).id,
            decreases self.workers.len() - i,
        {
            ids.push(self.workers[i].id);
            i += 1;
        }
        proof {
            let list = keyed(self.workers@);
            lemma_count(list);
            assert forall|id: u64| ids@.contains(id) <==> self@.contains_value(id) by {
                if ids@.contains(id) {
                    let k = choose|k: int| 0 <= k < ids.len() && ids[k] == id;
                    assert(self.workers[k].id == id);
                    lemma_entry(list, k);
                }
                if self@.contains_value(id) {
                    let t = choose|t: TokenView| self@.dom().contains(t) && self@[t] == id;
                    let k = index_of(list, t);
                    lemma_entry(list, k);
                    assert(self.workers[k].id == id);
                    assert(ids[k] == id);
                }
            }
        }
        ids
    }

    fn find(&self, token: &NamespaceToken) -> (at: Option<usize>)
        ensures
            match at {
                Some(i) => i < self.workers.len() && self.workers[i as int].token@ == token@,
                None => !has_key(keyed(self.workers@), token@),
            },
    {
        let mut i: usize = 0;
        while i < self.workers.len()
            invariant
                i <= self.workers.len(),
                forall|k: int| 0 <= k < i ==> (#[trigger] keyed(self.workers@)[k]).0 != token@,
            decreases self.workers.len() - i,
        {
            if self.workers[i].token.same(token) {
                return Some(i);
            }
            i += 1;
        }
        None
    }

    /// The worker of a namespace, if it has one. Where it has none, the
    /// dispatcher starts one.
    pub fn lookup(&self, token: &NamespaceToken) -> (worker: Option<u64>)
        requires
            self.wf(),
        ensures
            worker is Some <==> self@.dom().contains(token@),
            worker matches Some(id) ==> id == self@[token@],
    {
        match self.find(token) {
            Some(i) => {
                proof {
                    lemma_entry(keyed(self.workers@), i as int);
                }
                Some(self.workers[i].id)
            },
            None => None,
        }
    }

    /// Enters the worker with number `id`, which was started for `token`. A
    /// namespace that has a worker keeps it; the answer then is `false`.
    pub fn register(&mut self, token: NamespaceToken, id: u64) -> (entered: bool)
        requires
            old(self).wf(),
        ensures
            final(self).wf(),
            entered == !old(self)@.dom().contains(token@),
            final(self)@ == spec_register(old(self)@, token@, id),
    {
        match self.find(&token) {
            Some(i) => {
                proof {
                    lemma_entry(keyed(self.workers@), i as int);
                }
                false
            },
            None => {
                let ghost before = self.workers@;
                proof {
                    lemma_push(keyed(before), token@, id);
                }
                self.workers.push(Worker { token, id });
                assert(keyed(self.workers@) =~= keyed(before).push((token@, id)));
                true
            },
        }
    }

    /// Removes the workers whose numbers are in `exited`.
    pub fn reap(&mut self, exited: &Vec<u64>)
        requires
            old(self).wf(),
        ensures
            final(self).wf(),
            final(self)@ == spec_reap(old(self)@, exited@.to_set()),
    {
        let mut pending: Vec<Worker> = Vec::new();
        std::mem::swap(&mut self.workers, &mut pending);
        let ghost orig = keyed(pending@);
        let ghost mut origin: Seq<int> = Seq::empty();
        for worker in it: pending
            invariant
                orig == keyed(it.seq()),
                distinct_keys(orig),
                distinct_keys(keyed(self.workers@)),
                origin.len() == self.workers.len(),
                forall|k: int|
                    0 <= k < self.workers.len() ==> 0 <= #[trigger] origin[k] < it.index()
                        && orig[origin[k]] == keyed(self.workers@)[k] && !exited@.contains(
                        orig[origin[k]].1,
                    ),
                forall|j: int|
                    0 <= j < it.index() && !exited@.contains((#[trigger] orig[j]).1) ==> has_key(
                        keyed(self.workers@),
                        orig[j].0,
                    ),
        {
            let ghost n = it.index() as int;
            let ghost kept = keyed(self.workers@);
            assert(orig[n] == (worker.token@, worker.id));
            if !listed(exited, worker.id) {
                proof {
                    if has_key(kept, worker.token@) {
                        let k = index_of(kept, worker.token@);
                        assert(orig[origin[k]].0 != orig[n].0);
                    }
                    lemma_push(kept, worker.token@, worker.id);
                    origin = origin.push(n);
                }
                self.workers.push(worker);
                proof {
                    let grown = keyed(self.workers@);
                    assert(grown =~= kept.push(orig[n]));
                    assert forall|j: int|
                        0 <= j < n + 1 && !exited@.contains((#[trigger] orig[j]).1) implies has_key(
                        grown,
                        orig[j].0,
                    ) by {
                        if j < n {
                            let k = index_of(kept, orig[j].0);
                            assert(grown[k].0 == orig[j].0);
                        } else {
                            assert(grown[kept.len() as int].0 == orig[j].0);
                        }
                    }
                }
            }
        }
        proof {
            let kept = keyed(self.workers@);
            let want = spec_reap(to_map(orig), exited@.to_set());
            assert forall|t: TokenView| has_key(kept, t) implies want.dom().contains(t) && to_map(
                kept,
            )[t] == want[t] by {
                let k = index_of(kept, t);
                lemma_entry(kept, k);
                lemma_entry(orig, origin[k]);
            }
            assert forall|t: TokenView| want.dom().contains(t) implies has_key(kept, t) by {
                let j = index_of(orig, t);
                lemma_entry(orig, j);
            }
            assert(to_map(kept) =~= want);
        }
    }
}

/// A namespace whose worker has exited has none after the dead were removed,
/// so that a new one is started for it when it is seen again; a worker that
/// has not exited stays.
pub proof fn lemma_dead_worker_is_replaced(workers: Workers, exited: Set<u64>, token: TokenView)
    requires
        workers.dom().contains(token),
    ensures
        exited.contains(workers[token]) ==> !spec_reap(workers, exited).dom().contains(token),
        !exited.contains(workers[token]) ==> spec_reap(workers, exited).dom().contains(token)
            && spec_reap(workers, exited)[token] == workers[token],
{
}

} // verus!
