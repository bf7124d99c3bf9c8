//! The registry itself: the workers of every function, and the operations on
//! them.

use crate::config::FunctionWorkerConfig;
use crate::error::{LoadError, RegistrationError, SelectionError};
use crate::model::{
    completed, completion_outcome, deregistered, dispatch_outcome, dispatched,
    is_registered, least_busy, ranked_workers, registered, registration_outcome, valid_registry,
    valid_workers, Registry,
};
use crate::name::{same_name, StaticName};
use crate::ranking::{is_least_busy, is_ranking, least_busy_index, outranks, ranking};
use crate::workers::FunctionWorkers;
use vstd::prelude::*;

verus! {

/// Whether one of the entries is that of function `f`.
spec fn holds(es: Seq<FunctionWorkers>, f: StaticName) -> bool {
    exists|i: int| 0 <= i < es.len() && (#[trigger] es[i]).function_name == f
}

/// The position of the entry of function `f`; meaningful where there is one.
spec fn slot(es: Seq<FunctionWorkers>, f: StaticName) -> int {
    choose|i: int| 0 <= i < es.len() && (#[trigger] es[i]).function_name == f
}

/// The registry that the entries stand for.
spec fn map_of(es: Seq<FunctionWorkers>) -> Registry {
    Map::new(|f: StaticName| holds(es, f), |f: StaticName| es[slot(es, f)].records@)
}

/// Whether no function has two entries.
spec fn distinct_functions(es: Seq<FunctionWorkers>) -> bool {
    forall|i: int, j: int|
        0 <= i < j < es.len() ==> (#[trigger] es[i]).function_name != (
        #[trigger] es[j]).function_name
}

/// Whether the entries are sound: one for each function, each with its
/// workers ranked, none without workers.
spec fn sound(es: Seq<FunctionWorkers>) -> bool {
    &&& distinct_functions(es)
    &&& forall|i: int| 0 <= i < es.len() ==> (#[trigger] es[i]).wf() && es[i].records@.len() > 0
}

proof fn lemma_slot(es: Seq<FunctionWorkers>, i: int)
    requires
        distinct_functions(es),
        0 <= i < es.len(),
    ensures
        holds(es, es[i].function_name),
        slot(es, es[i].function_name) == i,
        map_of(es).contains_key(es[i].function_name),
        map_of(es)[es[i].function_name] == es[i].records@,
{
    let f = es[i].function_name;
    assert(es[i].function_name == f);
    let j = slot(es, f);
    assert(0 <= j < es.len() && es[j].function_name == f);
    if i < j {
        assert(es[i].function_name != es[j].function_name);
    }
    if j < i {
        assert(es[j].function_name != es[i].function_name);
    }
}

proof fn lemma_sound_is_valid(es: Seq<FunctionWorkers>)
    requires
        sound(es),
    ensures
        valid_registry(map_of(es)),
{
    let m = map_of(es);
    assert forall|f: StaticName| #[trigger] m.contains_key(f) implies m[f].len() > 0
        && valid_workers(m[f], f) by {
        let i = slot(es, f);
        assert(0 <= i < es.len() && es[i].function_name == f);
        assert(es[i].wf());
    }
}

proof fn lemma_map_of_push(es: Seq<FunctionWorkers>, e: FunctionWorkers)
    requires
        distinct_functions(es),
        !holds(es, e.function_name),
    ensures
        distinct_functions(es.push(e)),
        map_of(es.push(e)) == map_of(es).insert(e.function_name, e.records@),
{
    let es2 = es.push(e);
    assert forall|i: int, j: int| 0 <= i < j < es2.len() implies (#[trigger] es2[i]).function_name
        != (#[trigger] es2[j]).function_name by {
        if j < es.len() {
            assert(es[i].function_name != es[j].function_name);
        } else {
            assert(es[i].function_name != e.function_name);
        }
    }
    let m = map_of(es).insert(e.function_name, e.records@);
    let m2 = map_of(es2);
    assert forall|f: StaticName| m.contains_key(f) <==> m2.contains_key(f) by {
        if m.contains_key(f) {
            if f == e.function_name {
                assert(es2[es.len() as int].function_name == f);
            } else {
                let i = slot(es, f);
                assert(es2[i].function_name == f);
            }
        }
        if m2.contains_key(f) {
            let i = slot(es2, f);
            if i < es.len() {
                assert(es[i].function_name == f);
            }
        }
    }
    assert forall|f: StaticName| m2.contains_key(f) implies m[f] == m2[f] by {
        let i = slot(es2, f);
        lemma_slot(es2, i);
        if i < es.len() {
            lemma_slot(es, i);
        }
    }
    assert(m =~= m2);
}

proof fn lemma_map_of_update(es: Seq<FunctionWorkers>, i: int, e: FunctionWorkers)
    requires
        distinct_functions(es),
        0 <= i < es.len(),
        e.function_name == es[i].function_name,
    ensures
        distinct_functions(es.update(i, e)),
        map_of(es.update(i, e)) == map_of(es).insert(e.function_name, e.records@),
{
    let es2 = es.update(i, e);
    assert forall|a: int, b: int| 0 <= a < b < es2.len() implies (#[trigger] es2[a]).function_name
        != (#[trigger] es2[b]).function_name by {
        assert(es[a].function_name != es[b].function_name);
    }
    let m = map_of(es).insert(e.function_name, e.records@);
    let m2 = map_of(es2);
    assert forall|f: StaticName| m.contains_key(f) <==> m2.contains_key(f) by {
        if m.contains_key(f) {
            if f == e.function_name {
                assert(es2[i].function_name == f);
            } else {
                let a = slot(es, f);
                assert(es2[a].function_name == f);
            }
        }
        if m2.contains_key(f) {
            let a = slot(es2, f);
            assert(es[a].function_name == f);
        }
    }
    assert forall|f: StaticName| m2.contains_key(f) implies m[f] == m2[f] by {
        let a = slot(es2, f);
        lemma_slot(es2, a);
        lemma_slot(es, a);
    }
    assert(m =~= m2);
}

proof fn lemma_map_of_remove(es: Seq<FunctionWorkers>, i: int)
    requires
        distinct_functions(es),
        0 <= i < es.len(),
    ensures
        distinct_functions(es.remove(i)),
        map_of(es.remove(i)) == map_of(es).remove(es[i].function_name),
{
    let es2 = es.remove(i);
    assert forall|a: int, b: int| 0 <= a < b < es2.len() implies (#[trigger] es2[a]).function_name
        != (#[trigger] es2[b]).function_name by {
        let a0 = if a < i { a } else { a + 1 };
        let b0 = if b < i { b } else { b + 1 };
        assert(es[a0].function_name != es[b0].function_name);
    }
    let m = map_of(es).remove(es[i].function_name);
    let m2 = map_of(es2);
    assert forall|f: StaticName| m.contains_key(f) <==> m2.contains_key(f) by {
        if m.contains_key(f) {
            let a = slot(es, f);
            lemma_slot(es, a);
            lemma_slot(es, i);
            if a < i {
                assert(es2[a].function_name == f);
            } else {
                assert(es2[a - 1].function_name == f);
            }
        }
        if m2.contains_key(f) {
            let a = slot(es2, f);
            let a0 = if a < i { a } else { a + 1 };
            assert(es[a0].function_name == f);
            if a0 < i {
                assert(es[a0].function_name != es[i].function_name);
            } else {
                assert(es[i].function_name != es[a0].function_name);
            }
        }
    }
    assert forall|f: StaticName| m2.contains_key(f) implies m[f] == m2[f] by {
        let a = slot(es2, f);
        lemma_slot(es2, a);
        let a0 = if a < i { a } else { a + 1 };
        lemma_slot(es, a0);
    }
    assert(m =~= m2);
}

/// The registry: for every function that has workers, their records and the
/// order in which they are offered work.
pub struct FunctionWorkerMap {
    entries: Vec<FunctionWorkers>,
}

impl View for FunctionWorkerMap {
    type V = Registry;

    closed spec fn view(&self) -> Registry {
        map_of(self.entries@)
    }
}

impl FunctionWorkerMap {
    /// Whether the registry holds together inside: one entry for each
    /// function, and the workers of each ranked.
    pub closed spec fn coherent(&self) -> bool {
        sound(self.entries@)
    }

    /// Whether the registry is well formed. Every operation asks for it and
    /// keeps it.
    pub open spec fn wf(&self) -> bool {
        &&& self.coherent()
        &&& valid_registry(self@)
    }

    /// A registry without workers.
    pub fn new() -> (registry: FunctionWorkerMap)
        ensures
            registry.wf(),
            registry@ == Map::<StaticName, Seq<FunctionWorkerConfig>>::empty(),
    {
        let registry = FunctionWorkerMap { entries: Vec::new() };
        assert(registry@ =~= Map::<StaticName, Seq<FunctionWorkerConfig>>::empty());
        registry
    }

    /// Finds the entry of function `f`.
    fn find(&self, f: &StaticName) -> (found: Option<usize>)
        requires
            self.wf(),
        ensures
            found is Some <==> self@.contains_key(*f),
            found is Some ==> found->0 < self.entries@.len() && self.entries@[found->0 as int].function_name
                == *f && self@[*f] == self.entries@[found->0 as int].records@,
    {
        let mut i: usize = 0;
        while i < self.entries.len()
            invariant
                self.wf(),
                i <= self.entries@.len(),
                forall|j: int| 0 <= j < i ==> (#[trigger] self.entries@[j]).function_name != *f,
            decreases self.entries@.len() - i,
        {
            if same_name(&self.entries[i].function_name, f) {
                proof {
                    lemma_slot(self.entries@, i as int);
                }
                return Some(i);
            }
            i = i + 1;
        }
        None
    }

    /// Registers a worker for a function, or replaces the record that the
    /// worker has for it. A new worker comes behind those registered before
    /// it; a replaced record keeps the place of its worker's first
    /// registration.
    ///
    /// A record without capacity is turned away, and so is one that names
    /// another function than `function_name`; the first is tested first. A
    /// record that carries more traffic than its worker may run is taken as
    /// it is: it has nothing to spare until enough completions are recorded.
    pub fn insert_worker_config(
        &mut self,
        function_name: StaticName,
        worker_config: FunctionWorkerConfig,
    ) -> (result: Result<(), RegistrationError>)
        requires
            old(self).wf(),
        ensures
            final(self).wf(),
            result == registration_outcome(function_name, worker_config),
            final(self)@ == registered(old(self)@, function_name, worker_config),
    {
        if worker_config.max_concurrency == 0 {
            return Err(RegistrationError::InvalidCapacity);
        }
        if !same_name(&worker_config.function_name, &function_name) {
            return Err(RegistrationError::IdentityMismatch);
        }
        let ghost before = self.entries@;
        match self.find(&function_name) {
            Some(i) => {
                self.entries[i].put(worker_config);
                proof {
                    lemma_map_of_update(before, i as int, self.entries@[i as int]);
                    assert(self.entries@ =~= before.update(i as int, self.entries@[i as int]));
                    lemma_sound_is_valid(self.entries@);
                }
            },
            None => {
                let entry = FunctionWorkers::new(worker_config);
                proof {
                    lemma_map_of_push(before, entry);
                }
                self.entries.push(entry);
                proof {
                    lemma_sound_is_valid(self.entries@);
                }
            },
        }
        Ok(())
    }

    /// Deregisters a worker from a function and says whether it was
    /// registered. A function that loses its last worker is forgotten.
    pub fn deregister(&mut self, function_name: StaticName, worker_uuid: StaticName) -> (removed:
        bool)
        requires
            old(self).wf(),
        ensures
            final(self).wf(),
            removed == is_registered(old(self)@, function_name, worker_uuid),
            final(self)@ == deregistered(old(self)@, function_name, worker_uuid),
    {
        let ghost before = self.entries@;
        match self.find(&function_name) {
            Some(i) => {
                match self.entries[i].position(&worker_uuid) {
                    Some(k) => {
                        if self.entries[i].records.len() == 1 {
                            proof {
                                lemma_map_of_remove(before, i as int);
                            }
                            self.entries.remove(i);
                        } else {
                            self.entries[i].take(k);
                            proof {
                                lemma_map_of_update(before, i as int, self.entries@[i as int]);
                                assert(self.entries@ =~= before.update(
                                    i as int,
                                    self.entries@[i as int],
                                ));
                            }
                        }
                        proof {
                            lemma_sound_is_valid(self.entries@);
                        }
                        true
                    },
                    None => false,
                }
            },
            None => false,
        }
    }

    /// Selects the worker that should take the next invocation of a function:
    /// the one with the most capacity to spare, and of several the one that
    /// was registered first. The answer is a snapshot of its record.
    pub fn get_least_busy_worker(&self, function_name: StaticName) -> (result: Result<
        FunctionWorkerConfig,
        SelectionError,
    >)
        requires
            self.wf(),
        ensures
            result == least_busy(self@, function_name),
            result is Ok ==> is_least_busy(
                self@[function_name],
                least_busy_index(self@[function_name]),
            ),
    {
        match self.find(&function_name) {
            Some(i) => {
                let best = self.entries[i].best();
                if best.spare_capacity() == 0 {
                    proof {
                        let s = self.entries@[i as int].records@;
                        let k = least_busy_index(s);
                        assert forall|j: int| 0 <= j < s.len() implies (#[trigger] s[j]).spare()
                            == 0 by {
                            if j != k {
                                assert(outranks(s, k, j));
                            }
                        }
                    }
                    Err(SelectionError::NoEligibleWorker)
                } else {
                    Ok(best.copy())
                }
            },
            None => Err(SelectionError::UnknownFunction),
        }
    }

    /// Records that an invocation was dispatched to a worker: its traffic
    /// grows by one, unless it already runs as many as it may.
    pub fn record_dispatch(&mut self, function_name: StaticName, worker_uuid: StaticName) -> (result:
        Result<(), LoadError>)
        requires
            old(self).wf(),
        ensures
            final(self).wf(),
            result == dispatch_outcome(old(self)@, function_name, worker_uuid),
            final(self)@ == dispatched(old(self)@, function_name, worker_uuid),
    {
        let ghost before = self.entries@;
        match self.find(&function_name) {
            Some(i) => {
                match self.entries[i].position(&worker_uuid) {
                    Some(k) => {
                        let traffic = self.entries[i].records[k].traffic;
                        if traffic >= self.entries[i].records[k].max_concurrency {
                            return Err(LoadError::AtCapacity);
                        }
                        self.entries[i].set_traffic(k, traffic + 1);
                        proof {
                            lemma_map_of_update(before, i as int, self.entries@[i as int]);
                            assert(self.entries@ =~= before.update(
                                i as int,
                                self.entries@[i as int],
                            ));
                            lemma_sound_is_valid(self.entries@);
                        }
                        Ok(())
                    },
                    None => Err(LoadError::NotFound),
                }
            },
            None => Err(LoadError::NotFound),
        }
    }

    /// Records that an invocation on a worker completed: its traffic shrinks
    /// by one, unless it runs none.
    pub fn record_completion(
        &mut self,
        function_name: StaticName,
        worker_uuid: StaticName,
    ) -> (result: Result<(), LoadError>)
        requires
            old(self).wf(),
        ensures
            final(self).wf(),
            result == completion_outcome(old(self)@, function_name, worker_uuid),
            final(self)@ == completed(old(self)@, function_name, worker_uuid),
    {
        let ghost before = self.entries@;
        match self.find(&function_name) {
            Some(i) => {
                match self.entries[i].position(&worker_uuid) {
                    Some(k) => {
                        let traffic = self.entries[i].records[k].traffic;
                        if traffic == 0 {
                            return Err(LoadError::Underflow);
                        }
                        self.entries[i].set_traffic(k, traffic - 1);
                        proof {
                            lemma_map_of_update(before, i as int, self.entries@[i as int]);
                            assert(self.entries@ =~= before.update(
                                i as int,
                                self.entries@[i as int],
                            ));
                            lemma_sound_is_valid(self.entries@);
                        }
                        Ok(())
                    },
                    None => Err(LoadError::NotFound),
                }
            },
            None => Err(LoadError::NotFound),
        }
    }

    /// Snapshots of the records of a function, in the order in which its
    /// workers are offered work; nothing for a function without workers.
    pub fn ranked_workers(&self, function_name: StaticName) -> (result: Option<
        Vec<FunctionWorkerConfig>,
    >)
        requires
            self.wf(),
        ensures
            match result {
                Some(list) => ranked_workers(self@, function_name) == Some(list@),
                None => ranked_workers(self@, function_name) is None,
            },
            result is Some ==> is_ranking(self@[function_name], ranking(self@[function_name])),
    {
        match self.find(&function_name) {
            Some(i) => Some(self.entries[i].listing()),
            None => None,
        }
    }
}

} // verus!
