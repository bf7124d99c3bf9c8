//! The registry as a mathematical value, and what each operation makes of it.
//!
//! A registry is a map from the identity of a function to the records of its
//! workers, in the order in which the workers were first registered. Every
//! contract of the registry is stated over this map.

use crate::config::FunctionWorkerConfig;
use crate::error::{LoadError, RegistrationError, SelectionError};
use crate::name::StaticName;
use crate::ranking::{least_busy_index, ranked};
use vstd::prelude::*;

verus! {

/// For each function with workers, their records in order of first registration.
pub type Registry = Map<StaticName, Seq<FunctionWorkerConfig>>;

/// Whether one of the records is that of worker `w`.
pub open spec fn has_worker(s: Seq<FunctionWorkerConfig>, w: StaticName) -> bool {
    exists|i: int| 0 <= i < s.len() && (#[trigger] s[i]).worker_uuid == w
}

/// The position of the record of worker `w`; meaningful where there is one.
pub open spec fn worker_index(s: Seq<FunctionWorkerConfig>, w: StaticName) -> int {
    choose|i: int| 0 <= i < s.len() && (#[trigger] s[i]).worker_uuid == w
}

/// Whether no worker has two records.
pub open spec fn distinct_workers(s: Seq<FunctionWorkerConfig>) -> bool {
    forall|i: int, j: int|
        0 <= i < j < s.len() ==> (#[trigger] s[i]).worker_uuid != (#[trigger] s[j]).worker_uuid
}

/// The worker of a record is where `worker_index` finds it, provided that no
/// worker has two records.
pub proof fn lemma_worker_index(s: Seq<FunctionWorkerConfig>, i: int)
    requires
        distinct_workers(s),
        0 <= i < s.len(),
    ensures
        has_worker(s, s[i].worker_uuid),
        worker_index(s, s[i].worker_uuid) == i,
{
    let w = s[i].worker_uuid;
    assert(s[i].worker_uuid == w);
    let j = worker_index(s, w);
    assert(0 <= j < s.len() && s[j].worker_uuid == w);
    if i < j {
        assert(s[i].worker_uuid != s[j].worker_uuid);
    }
    if j < i {
        assert(s[j].worker_uuid != s[i].worker_uuid);
    }
}

/// Whether `s` can be the records of function `f`: each names `f`, each offers
/// some capacity, and no worker has two.
pub open spec fn valid_workers(s: Seq<FunctionWorkerConfig>, f: StaticName) -> bool {
    &&& forall|i: int|
        0 <= i < s.len() ==> (#[trigger] s[i]).function_name == f && s[i].max_concurrency >= 1
    &&& distinct_workers(s)
}

/// Putting a record in the place of the one that its worker has keeps the
/// records valid, and the worker is found where it was.
pub proof fn lemma_replaced_valid(
    s: Seq<FunctionWorkerConfig>,
    f: StaticName,
    i: int,
    c: FunctionWorkerConfig,
)
    requires
        valid_workers(s, f),
        0 <= i < s.len(),
        c.worker_uuid == s[i].worker_uuid,
        c.function_name == f,
        c.max_concurrency >= 1,
    ensures
        valid_workers(s.update(i, c), f),
        has_worker(s.update(i, c), c.worker_uuid),
        worker_index(s.update(i, c), c.worker_uuid) == i,
{
    let t = s.update(i, c);
    assert forall|a: int, b: int| 0 <= a < b < t.len() implies (#[trigger] t[a]).worker_uuid != (
    #[trigger] t[b]).worker_uuid by {
        assert(s[a].worker_uuid != s[b].worker_uuid);
    }
    assert forall|a: int| 0 <= a < t.len() implies (#[trigger] t[a]).function_name == f
        && t[a].max_concurrency >= 1 by {
        assert(s[a].function_name == f);
    }
    lemma_worker_index(t, i);
}

/// Adding the record of a worker that has none keeps the records valid, and
/// the worker is found behind all others.
pub proof fn lemma_added_valid(s: Seq<FunctionWorkerConfig>, f: StaticName, c: FunctionWorkerConfig)
    requires
        valid_workers(s, f),
        !has_worker(s, c.worker_uuid),
        c.function_name == f,
        c.max_concurrency >= 1,
    ensures
        valid_workers(s.push(c), f),
        has_worker(s.push(c), c.worker_uuid),
        worker_index(s.push(c), c.worker_uuid) == s.len(),
{
    let t = s.push(c);
    assert forall|a: int, b: int| 0 <= a < b < t.len() implies (#[trigger] t[a]).worker_uuid != (
    #[trigger] t[b]).worker_uuid by {
        if b < s.len() {
            assert(s[a].worker_uuid != s[b].worker_uuid);
        } else {
            assert(s[a].worker_uuid != c.worker_uuid);
        }
    }
    assert forall|a: int| 0 <= a < t.len() implies (#[trigger] t[a]).function_name == f
        && t[a].max_concurrency >= 1 by {
        if a < s.len() {
            assert(s[a].function_name == f);
        }
    }
    lemma_worker_index(t, s.len() as int);
}

/// Taking a record out keeps the others valid, and its worker has none left.
pub proof fn lemma_removed_valid(s: Seq<FunctionWorkerConfig>, f: StaticName, i: int)
    requires
        valid_workers(s, f),
        0 <= i < s.len(),
    ensures
        valid_workers(s.remove(i), f),
        !has_worker(s.remove(i), s[i].worker_uuid),
{
    let t = s.remove(i);
    assert forall|a: int, b: int| 0 <= a < b < t.len() implies (#[trigger] t[a]).worker_uuid != (
    #[trigger] t[b]).worker_uuid by {
        let a0 = if a < i { a } else { a + 1 };
        let b0 = if b < i { b } else { b + 1 };
        assert(s[a0].worker_uuid != s[b0].worker_uuid);
    }
    assert forall|a: int| 0 <= a < t.len() implies (#[trigger] t[a]).function_name == f
        && t[a].max_concurrency >= 1 by {
        let a0 = if a < i { a } else { a + 1 };
        assert(s[a0].function_name == f);
    }
    if has_worker(t, s[i].worker_uuid) {
        let a = worker_index(t, s[i].worker_uuid);
        let a0 = if a < i { a } else { a + 1 };
        assert(t[a].worker_uuid == s[a0].worker_uuid);
        if a0 < i {
            assert(s[a0].worker_uuid != s[i].worker_uuid);
        } else {
            assert(s[i].worker_uuid != s[a0].worker_uuid);
        }
    }
}

/// Whether `m` is a state that the registry can be in: a function is a key
/// only while it has workers, and its records are valid for it.
pub open spec fn valid_registry(m: Registry) -> bool {
    forall|f: StaticName| #[trigger]
        m.contains_key(f) ==> m[f].len() > 0 && valid_workers(m[f], f)
}

/// Whether every record carries no more traffic than its worker may run.
pub open spec fn within_capacity(m: Registry) -> bool {
    forall|f: StaticName, i: int|
        m.contains_key(f) && 0 <= i < m[f].len() ==> (#[trigger] m[f][i]).traffic
            <= m[f][i].max_concurrency
}

/// How many workers are registered for `f`.
pub open spec fn live_workers(m: Registry, f: StaticName) -> nat {
    if m.contains_key(f) {
        m[f].len()
    } else {
        0
    }
}

/// Whether worker `w` is registered for function `f`.
pub open spec fn is_registered(m: Registry, f: StaticName, w: StaticName) -> bool {
    m.contains_key(f) && has_worker(m[f], w)
}

/// The record of worker `w` for function `f`; meaningful where it is registered.
pub open spec fn record_of(m: Registry, f: StaticName, w: StaticName) -> FunctionWorkerConfig {
    m[f][worker_index(m[f], w)]
}

/// The records after `c` came in: in the place of the record that its worker
/// had, or behind all others if the worker had none.
pub open spec fn upserted(s: Seq<FunctionWorkerConfig>, c: FunctionWorkerConfig) -> Seq<
    FunctionWorkerConfig,
> {
    if has_worker(s, c.worker_uuid) {
        s.update(worker_index(s, c.worker_uuid), c)
    } else {
        s.push(c)
    }
}

/// What registering `c` for function `f` answers.
pub open spec fn registration_outcome(f: StaticName, c: FunctionWorkerConfig) -> Result<
    (),
    RegistrationError,
> {
    if c.max_concurrency == 0 {
        Err(RegistrationError::InvalidCapacity)
    } else if c.function_name != f {
        Err(RegistrationError::IdentityMismatch)
    } else {
        Ok(())
    }
}

/// The registry after `c` was registered for function `f`.
pub open spec fn registered(m: Registry, f: StaticName, c: FunctionWorkerConfig) -> Registry {
    if registration_outcome(f, c) is Err {
        m
    } else if m.contains_key(f) {
        m.insert(f, upserted(m[f], c))
    } else {
        m.insert(f, seq![c])
    }
}

/// The registry after worker `w` was deregistered from function `f`. A
/// function that loses its last worker is no longer a key.
pub open spec fn deregistered(m: Registry, f: StaticName, w: StaticName) -> Registry {
    if !is_registered(m, f, w) {
        m
    } else if m[f].len() == 1 {
        m.remove(f)
    } else {
        m.insert(f, m[f].remove(worker_index(m[f], w)))
    }
}

/// The registry in which the record of worker `w` for function `f` carries the
/// traffic `t`.
pub open spec fn with_traffic(m: Registry, f: StaticName, w: StaticName, t: u32) -> Registry {
    m.insert(f, m[f].update(worker_index(m[f], w), record_of(m, f, w).with_traffic(t)))
}

/// What recording a dispatch to worker `w` of function `f` answers.
pub open spec fn dispatch_outcome(m: Registry, f: StaticName, w: StaticName) -> Result<
    (),
    LoadError,
> {
    if !is_registered(m, f, w) {
        Err(LoadError::NotFound)
    } else if record_of(m, f, w).traffic >= record_of(m, f, w).max_concurrency {
        Err(LoadError::AtCapacity)
    } else {
        Ok(())
    }
}

/// The registry after a dispatch to worker `w` of function `f` was recorded.
pub open spec fn dispatched(m: Registry, f: StaticName, w: StaticName) -> Registry {
    if dispatch_outcome(m, f, w) is Ok {
        with_traffic(m, f, w, (record_of(m, f, w).traffic + 1) as u32)
    } else {
        m
    }
}

/// What recording a completion on worker `w` of function `f` answers.
pub open spec fn completion_outcome(m: Registry, f: StaticName, w: StaticName) -> Result<
    (),
    LoadError,
> {
    if !is_registered(m, f, w) {
        Err(LoadError::NotFound)
    } else if record_of(m, f, w).traffic == 0 {
        Err(LoadError::Underflow)
    } else {
        Ok(())
    }
}

/// The registry after a completion on worker `w` of function `f` was recorded.
pub open spec fn completed(m: Registry, f: StaticName, w: StaticName) -> Registry {
    if completion_outcome(m, f, w) is Ok {
        with_traffic(m, f, w, (record_of(m, f, w).traffic - 1) as u32)
    } else {
        m
    }
}

/// Whether none of the records has capacity to spare.
pub open spec fn all_saturated(s: Seq<FunctionWorkerConfig>) -> bool {
    forall|i: int| 0 <= i < s.len() ==> (#[trigger] s[i]).spare() == 0
}

/// The worker that should take the next invocation of function `f`: the one
/// with the most capacity to spare, and of several the one registered first.
pub open spec fn least_busy(m: Registry, f: StaticName) -> Result<
    FunctionWorkerConfig,
    SelectionError,
> {
    if !m.contains_key(f) {
        Err(SelectionError::UnknownFunction)
    } else if all_saturated(m[f]) {
        Err(SelectionError::NoEligibleWorker)
    } else {
        Ok(m[f][least_busy_index(m[f])])
    }
}

/// The records of function `f` in the order in which they are offered work.
pub open spec fn ranked_workers(m: Registry, f: StaticName) -> Option<Seq<FunctionWorkerConfig>> {
    if m.contains_key(f) {
        Some(ranked(m[f]))
    } else {
        None
    }
}

} // verus!
