//! The workers of one function: their records and the order in which they are
//! offered work.

use crate::config::FunctionWorkerConfig;
use crate::model::{
    has_worker, lemma_added_valid, lemma_removed_valid, lemma_replaced_valid, lemma_worker_index,
    upserted, valid_workers, worker_index,
};
use crate::name::{same_name, StaticName};
use crate::ranking::{
    close_up, is_least_busy, is_ranking, lemma_close_up, lemma_ranking_before_push, lemma_ranking_head,
    lemma_ranking_is, lemma_ranks_all_but_frame, least_busy_index, place, ranked, ranking,
    unplace,
};
use vstd::prelude::*;

verus! {

/// The records of one function, in order of first registration, beside their
/// ranking. The ranking is mended on every change, so that the worker to offer
/// work to is always read off its head.
pub(crate) struct FunctionWorkers {
    pub(crate) function_name: StaticName,
    pub(crate) records: Vec<FunctionWorkerConfig>,
    pub(crate) order: Vec<usize>,
}

impl FunctionWorkers {
    /// The records are valid for the function, and the order is their ranking.
    pub(crate) open spec fn wf(&self) -> bool {
        &&& valid_workers(self.records@, self.function_name)
        &&& is_ranking(self.records@, self.order@)
    }

    /// The workers of a function that has a first worker.
    pub(crate) fn new(c: FunctionWorkerConfig) -> (workers: FunctionWorkers)
        requires
            c.max_concurrency >= 1,
        ensures
            workers.wf(),
            workers.function_name == c.function_name,
            workers.records@ == seq![c],
    {
        let function_name = c.function_name;
        let mut records: Vec<FunctionWorkerConfig> = Vec::new();
        records.push(c);
        let mut order: Vec<usize> = Vec::new();
        order.push(0);
        assert(records@ =~= seq![c]);
        assert(order@[0] == 0usize);
        FunctionWorkers { function_name, records, order }
    }

    /// Finds the record of worker `w`.
    pub(crate) fn position(&self, w: &StaticName) -> (found: Option<usize>)
        requires
            self.wf(),
        ensures
            found is Some <==> has_worker(self.records@, *w),
            found is Some ==> found->0 == worker_index(self.records@, *w) && found->0
                < self.records@.len(),
    {
        let mut i: usize = 0;
        while i < self.records.len()
            invariant
                self.wf(),
                i <= self.records@.len(),
                forall|j: int| 0 <= j < i ==> (#[trigger] self.records@[j]).worker_uuid != *w,
            decreases self.records@.len() - i,
        {
            if same_name(&self.records[i].worker_uuid, w) {
                proof {
                    lemma_worker_index(self.records@, i as int);
                }
                return Some(i);
            }
            i = i + 1;
        }
        None
    }

    /// Takes in the record `c`: in the place of the one that its worker had, or
    /// behind all others.
    pub(crate) fn put(&mut self, c: FunctionWorkerConfig)
        requires
            old(self).wf(),
            c.function_name == old(self).function_name,
            c.max_concurrency >= 1,
        ensures
            final(self).wf(),
            final(self).function_name == old(self).function_name,
            final(self).records@ == upserted(old(self).records@, c),
    {
        let ghost before = self.records@;
        match self.position(&c.worker_uuid) {
            Some(i) => {
                unplace(&self.records, &mut self.order, i);
                self.records[i] = c;
                proof {
                    lemma_ranks_all_but_frame(before, self.records@, self.order@, i);
                    lemma_replaced_valid(before, self.function_name, i as int, c);
                }
                place(&self.records, &mut self.order, i);
            },
            None => {
                let k = self.records.len();
                self.records.push(c);
                proof {
                    assert(self.records.len() == before.len() + 1);
                    lemma_ranking_before_push(before, self.order@, c);
                    lemma_added_valid(before, self.function_name, c);
                }
                place(&self.records, &mut self.order, k);
            },
        }
    }

    /// Removes the record at position `i`; the records behind it move up.
    pub(crate) fn take(&mut self, i: usize)
        requires
            old(self).wf(),
            i < old(self).records@.len(),
        ensures
            final(self).wf(),
            final(self).function_name == old(self).function_name,
            final(self).records@ == old(self).records@.remove(i as int),
    {
        let ghost before = self.records@;
        unplace(&self.records, &mut self.order, i);
        proof {
            lemma_close_up(before, self.order@, i);
        }
        close_up(&mut self.order, i);
        self.records.remove(i);
        proof {
            lemma_removed_valid(before, self.function_name, i as int);
        }
    }

    /// Gives the record at position `i` the traffic `t`.
    pub(crate) fn set_traffic(&mut self, i: usize, t: u32)
        requires
            old(self).wf(),
            i < old(self).records@.len(),
        ensures
            final(self).wf(),
            final(self).function_name == old(self).function_name,
            final(self).records@ == old(self).records@.update(
                i as int,
                old(self).records@[i as int].with_traffic(t),
            ),
    {
        let ghost before = self.records@;
        unplace(&self.records, &mut self.order, i);
        let mut c = self.records[i].copy();
        c.traffic = t;
        self.records[i] = c;
        proof {
            lemma_ranks_all_but_frame(before, self.records@, self.order@, i);
            lemma_replaced_valid(before, self.function_name, i as int, c);
        }
        place(&self.records, &mut self.order, i);
    }

    /// The record that outranks all others.
    pub(crate) fn best(&self) -> (best: &FunctionWorkerConfig)
        requires
            self.wf(),
            self.records@.len() > 0,
        ensures
            *best == self.records@[least_busy_index(self.records@)],
            is_least_busy(self.records@, least_busy_index(self.records@)),
    {
        proof {
            lemma_ranking_head(self.records@, self.order@);
        }
        &self.records[self.order[0]]
    }

    /// Snapshots of the records, in the order of their ranking.
    pub(crate) fn listing(&self) -> (list: Vec<FunctionWorkerConfig>)
        requires
            self.wf(),
        ensures
            list@ == ranked(self.records@),
            is_ranking(self.records@, ranking(self.records@)),
    {
        proof {
            lemma_ranking_is(self.records@, self.order@);
        }
        let mut list: Vec<FunctionWorkerConfig> = Vec::new();
        let mut i: usize = 0;
        while i < self.order.len()
            invariant
                self.wf(),
                ranking(self.records@) == self.order@,
                i <= self.order@.len(),
                list@.len() == i,
                forall|j: int| 0 <= j < i ==> list@[j] == self.records@[self.order@[j] as int],
            decreases self.order@.len() - i,
        {
            list.push(self.records[self.order[i]].copy());
            i = i + 1;
        }
        assert(list@ =~= ranked(self.records@));
        list
    }
}

} // verus!
