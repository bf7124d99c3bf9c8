//! What holds of the registry whatever is asked of it, in whatever order.
//!
//! Every operation of the registry is stated as a function on its model, so
//! these laws are stated, and proved, of those functions.

use crate::config::FunctionWorkerConfig;
use crate::error::{LoadError, SelectionError};
use crate::model::{
    all_saturated, completed, completion_outcome, deregistered, dispatch_outcome, dispatched,
    has_worker, is_registered, least_busy, lemma_added_valid, lemma_removed_valid,
    lemma_replaced_valid, lemma_worker_index, live_workers, record_of, registered,
    registration_outcome, valid_registry, valid_workers, with_traffic, within_capacity,
    worker_index, Registry,
};
use crate::name::StaticName;
use crate::ranking::{
    is_least_busy, least_busy_index, lemma_least_busy_exists, lemma_least_busy_index, outranks,
};
use vstd::prelude::*;

verus! {

/// A call that may change the registry.
pub enum Call {
    /// Register a worker for a function, or replace its record.
    Register { function_name: StaticName, worker_config: FunctionWorkerConfig },
    /// Deregister a worker from a function.
    Deregister { function_name: StaticName, worker_uuid: StaticName },
    /// Record a dispatch to a worker.
    Dispatch { function_name: StaticName, worker_uuid: StaticName },
    /// Record a completion on a worker.
    Completion { function_name: StaticName, worker_uuid: StaticName },
}

/// The registry after one call.
pub open spec fn after_call(m: Registry, call: Call) -> Registry {
    match call {
        Call::Register { function_name, worker_config } => registered(
            m,
            function_name,
            worker_config,
        ),
        Call::Deregister { function_name, worker_uuid } => deregistered(
            m,
            function_name,
            worker_uuid,
        ),
        Call::Dispatch { function_name, worker_uuid } => dispatched(m, function_name, worker_uuid),
        Call::Completion { function_name, worker_uuid } => completed(
            m,
            function_name,
            worker_uuid,
        ),
    }
}

/// The registry after a run of calls on the registry `m`.
pub open spec fn after_calls_on(m: Registry, calls: Seq<Call>) -> Registry
    decreases calls.len(),
{
    if calls.len() == 0 {
        m
    } else {
        after_call(after_calls_on(m, calls.drop_last()), calls.last())
    }
}

/// The registry after a run of calls on a new registry.
pub open spec fn after_calls(calls: Seq<Call>) -> Registry {
    after_calls_on(Map::empty(), calls)
}

/// What a call adds to the traffic of worker `w` of function `f` in the
/// registry `m`: one for a dispatch that is recorded, one less for a completion
/// that is recorded, nothing otherwise.
pub open spec fn traffic_added(m: Registry, call: Call, f: StaticName, w: StaticName) -> int {
    match call {
        Call::Dispatch { function_name, worker_uuid } => if function_name == f && worker_uuid == w
            && dispatch_outcome(m, f, w) is Ok {
            1
        } else {
            0
        },
        Call::Completion { function_name, worker_uuid } => if function_name == f && worker_uuid
            == w && completion_outcome(m, f, w) is Ok {
            -1
        } else {
            0
        },
        _ => 0,
    }
}

/// The recorded dispatches to worker `w` of function `f`, less its recorded
/// completions, over a run of calls on the registry `m`.
pub open spec fn net_dispatches(m: Registry, calls: Seq<Call>, f: StaticName, w: StaticName) -> int
    decreases calls.len(),
{
    if calls.len() == 0 {
        0
    } else {
        net_dispatches(m, calls.drop_last(), f, w) + traffic_added(
            after_calls_on(m, calls.drop_last()),
            calls.last(),
            f,
            w,
        )
    }
}

/// Whether the calls only record dispatches and completions.
pub open spec fn only_load_changes(calls: Seq<Call>) -> bool {
    forall|i: int|
        0 <= i < calls.len() ==> #[trigger] calls[i] is Dispatch || calls[i] is Completion
}

/// Whether every record that the calls register carries no more traffic than
/// its worker may run.
pub open spec fn registers_within_capacity(calls: Seq<Call>) -> bool {
    forall|i: int|
        0 <= i < calls.len() ==> (#[trigger] calls[i] matches Call::Register { worker_config, .. }
            ==> worker_config.traffic <= worker_config.max_concurrency)
}

/// Changing the traffic of a registered worker keeps a valid registry valid.
proof fn lemma_with_traffic_valid(m: Registry, f: StaticName, w: StaticName, t: u32)
    requires
        valid_registry(m),
        is_registered(m, f, w),
    ensures
        valid_registry(with_traffic(m, f, w, t)),
        with_traffic(m, f, w, t)[f].len() == m[f].len(),
        is_registered(with_traffic(m, f, w, t), f, w),
        worker_index(with_traffic(m, f, w, t)[f], w) == worker_index(m[f], w),
        record_of(with_traffic(m, f, w, t), f, w) == record_of(m, f, w).with_traffic(t),
{
    let s = m[f];
    let i = worker_index(s, w);
    assert(m.contains_key(f));
    lemma_replaced_valid(s, f, i, s[i].with_traffic(t));
    let m2 = with_traffic(m, f, w, t);
    assert forall|g: StaticName| #[trigger] m2.contains_key(g) implies m2[g].len() > 0
        && valid_workers(m2[g], g) by {
        if g != f {
            assert(m.contains_key(g));
        }
    }
}

/// Registration keeps a valid registry valid.
pub proof fn lemma_registered_valid(m: Registry, f: StaticName, c: FunctionWorkerConfig)
    requires
        valid_registry(m),
    ensures
        valid_registry(registered(m, f, c)),
{
    let m2 = registered(m, f, c);
    if registration_outcome(f, c) is Ok {
        if m.contains_key(f) {
            let s = m[f];
            if has_worker(s, c.worker_uuid) {
                lemma_replaced_valid(s, f, worker_index(s, c.worker_uuid), c);
            } else {
                lemma_added_valid(s, f, c);
            }
        } else {
            let s = seq![c];
            assert(valid_workers(s, f));
        }
        assert forall|g: StaticName| #[trigger] m2.contains_key(g) implies m2[g].len() > 0
            && valid_workers(m2[g], g) by {
            if g != f {
                assert(m.contains_key(g));
            }
        }
    }
}

/// Deregistration keeps a valid registry valid.
pub proof fn lemma_deregistered_valid(m: Registry, f: StaticName, w: StaticName)
    requires
        valid_registry(m),
    ensures
        valid_registry(deregistered(m, f, w)),
{
    let m2 = deregistered(m, f, w);
    if is_registered(m, f, w) {
        assert(m.contains_key(f));
        lemma_removed_valid(m[f], f, worker_index(m[f], w));
        assert forall|g: StaticName| #[trigger] m2.contains_key(g) implies m2[g].len() > 0
            && valid_workers(m2[g], g) by {
            if g != f {
                assert(m.contains_key(g));
            }
        }
    }
}

/// Every call keeps a valid registry valid.
pub proof fn lemma_after_call_valid(m: Registry, call: Call)
    requires
        valid_registry(m),
    ensures
        valid_registry(after_call(m, call)),
{
    match call {
        Call::Register { function_name, worker_config } => {
            lemma_registered_valid(m, function_name, worker_config);
        },
        Call::Deregister { function_name, worker_uuid } => {
            lemma_deregistered_valid(m, function_name, worker_uuid);
        },
        Call::Dispatch { function_name, worker_uuid } => {
            if dispatch_outcome(m, function_name, worker_uuid) is Ok {
                lemma_with_traffic_valid(
                    m,
                    function_name,
                    worker_uuid,
                    (record_of(m, function_name, worker_uuid).traffic + 1) as u32,
                );
            }
        },
        Call::Completion { function_name, worker_uuid } => {
            if completion_outcome(m, function_name, worker_uuid) is Ok {
                lemma_with_traffic_valid(
                    m,
                    function_name,
                    worker_uuid,
                    (record_of(m, function_name, worker_uuid).traffic - 1) as u32,
                );
            }
        },
    }
}

/// A run of calls keeps a valid registry valid.
pub proof fn lemma_after_calls_on_valid(m: Registry, calls: Seq<Call>)
    requires
        valid_registry(m),
    ensures
        valid_registry(after_calls_on(m, calls)),
    decreases calls.len(),
{
    if calls.len() > 0 {
        lemma_after_calls_on_valid(m, calls.drop_last());
        lemma_after_call_valid(after_calls_on(m, calls.drop_last()), calls.last());
    }
}

/// Whatever was called, the registry is valid: a function is known exactly
/// while it has workers, each record names its function and offers some
/// capacity, and no worker has two records for one function.
pub proof fn lemma_after_calls_valid(calls: Seq<Call>)
    ensures
        valid_registry(after_calls(calls)),
{
    lemma_after_calls_on_valid(Map::empty(), calls);
}

/// No call makes a record carry more traffic than its worker may run, unless
/// the record came in that way.
pub proof fn lemma_after_call_within_capacity(m: Registry, call: Call)
    requires
        valid_registry(m),
        within_capacity(m),
        call matches Call::Register { worker_config, .. } ==> worker_config.traffic
            <= worker_config.max_concurrency,
    ensures
        within_capacity(after_call(m, call)),
{
    let m2 = after_call(m, call);
    match call {
        Call::Register { function_name, worker_config } => {
            if registration_outcome(function_name, worker_config) is Ok {
                let f = function_name;
                assert forall|g: StaticName, i: int|
                    m2.contains_key(g) && 0 <= i < m2[g].len() implies (#[trigger] m2[g][i]).traffic
                    <= m2[g][i].max_concurrency by {
                    if g != f {
                        assert(m.contains_key(g));
                        assert(m[g][i].traffic <= m[g][i].max_concurrency);
                    } else if m.contains_key(f) {
                        let s = m[f];
                        if has_worker(s, worker_config.worker_uuid) {
                            if i != worker_index(s, worker_config.worker_uuid) {
                                assert(m[f][i].traffic <= m[f][i].max_concurrency);
                            }
                        } else {
                            if i < s.len() {
                                assert(m[f][i].traffic <= m[f][i].max_concurrency);
                            }
                        }
                    }
                }
            }
        },
        Call::Deregister { function_name, worker_uuid } => {
            let f = function_name;
            if is_registered(m, f, worker_uuid) {
                let k = worker_index(m[f], worker_uuid);
                assert forall|g: StaticName, i: int|
                    m2.contains_key(g) && 0 <= i < m2[g].len() implies (#[trigger] m2[g][i]).traffic
                    <= m2[g][i].max_concurrency by {
                    if g != f {
                        assert(m.contains_key(g));
                        assert(m[g][i].traffic <= m[g][i].max_concurrency);
                    } else {
                        let i0 = if i < k { i } else { i + 1 };
                        assert(m[f][i0].traffic <= m[f][i0].max_concurrency);
                    }
                }
            }
        },
        Call::Dispatch { function_name, worker_uuid } => {
            let f = function_name;
            if dispatch_outcome(m, f, worker_uuid) is Ok {
                assert forall|g: StaticName, i: int|
                    m2.contains_key(g) && 0 <= i < m2[g].len() implies (#[trigger] m2[g][i]).traffic
                    <= m2[g][i].max_concurrency by {
                    assert(m.contains_key(g));
                    assert(m[g][i].traffic <= m[g][i].max_concurrency);
                }
            }
        },
        Call::Completion { function_name, worker_uuid } => {
            let f = function_name;
            if completion_outcome(m, f, worker_uuid) is Ok {
                assert forall|g: StaticName, i: int|
                    m2.contains_key(g) && 0 <= i < m2[g].len() implies (#[trigger] m2[g][i]).traffic
                    <= m2[g][i].max_concurrency by {
                    assert(m.contains_key(g));
                    assert(m[g][i].traffic <= m[g][i].max_concurrency);
                }
            }
        },
    }
}

/// A run of calls makes no record carry more traffic than its worker may run,
/// provided that none came in that way.
pub proof fn lemma_after_calls_on_within_capacity(m: Registry, calls: Seq<Call>)
    requires
        valid_registry(m),
        within_capacity(m),
        registers_within_capacity(calls),
    ensures
        within_capacity(after_calls_on(m, calls)),
    decreases calls.len(),
{
    if calls.len() > 0 {
        let earlier = calls.drop_last();
        assert forall|i: int| 0 <= i < earlier.len() implies (#[trigger] earlier[i] matches Call::Register {
            worker_config,
            ..
        } ==> worker_config.traffic <= worker_config.max_concurrency) by {
            assert(earlier[i] == calls[i]);
        }
        lemma_after_calls_on_within_capacity(m, earlier);
        lemma_after_calls_on_valid(m, earlier);
        assert(calls.last() == calls[calls.len() - 1]);
        lemma_after_call_within_capacity(after_calls_on(m, earlier), calls.last());
    }
}

/// Whatever was called, no record carries more traffic than its worker may
/// run, provided that none came in that way.
pub proof fn lemma_after_calls_within_capacity(calls: Seq<Call>)
    requires
        registers_within_capacity(calls),
    ensures
        within_capacity(after_calls(calls)),
{
    lemma_after_calls_on_within_capacity(Map::empty(), calls);
}

/// Whatever was called: for a function without workers the selection answers
/// that the function is unknown, and for a function all of whose workers run
/// as many invocations as they may it answers that none is eligible.
pub proof fn lemma_select_after_calls(calls: Seq<Call>, f: StaticName)
    ensures
        live_workers(after_calls(calls), f) == 0 ==> least_busy(after_calls(calls), f) == Err::<
            FunctionWorkerConfig,
            SelectionError,
        >(SelectionError::UnknownFunction),
        live_workers(after_calls(calls), f) > 0 && (forall|i: int|
            0 <= i < after_calls(calls)[f].len() ==> (#[trigger] after_calls(calls)[f][i]).traffic
                == after_calls(calls)[f][i].max_concurrency) ==> least_busy(after_calls(calls), f)
            == Err::<FunctionWorkerConfig, SelectionError>(SelectionError::NoEligibleWorker),
{
    let m = after_calls(calls);
    lemma_after_calls_valid(calls);
    if m.contains_key(f) {
        assert(m[f].len() > 0);
        if forall|i: int| 0 <= i < m[f].len() ==> (#[trigger] m[f][i]).traffic == m[f][i].max_concurrency {
            assert forall|i: int| 0 <= i < m[f].len() implies (#[trigger] m[f][i]).spare() == 0 by {
                assert(m[f][i].traffic == m[f][i].max_concurrency);
            }
        }
    }
}

/// A function that is known, and has no record with capacity to spare, has
/// no eligible worker; so it would be for a function known without any
/// record, which no call leaves behind.
pub proof fn lemma_nothing_to_spare_not_eligible(m: Registry, f: StaticName)
    requires
        m.contains_key(f),
        m[f].len() == 0 || all_saturated(m[f]),
    ensures
        least_busy(m, f) == Err::<FunctionWorkerConfig, SelectionError>(
            SelectionError::NoEligibleWorker,
        ),
{
}

/// The worker that is selected has capacity to spare, no worker of the
/// function has more, and none that was registered before it has as much.
pub proof fn lemma_selected_has_most_spare(m: Registry, f: StaticName)
    requires
        m.contains_key(f),
        !all_saturated(m[f]),
    ensures
        least_busy(m, f) == Ok::<FunctionWorkerConfig, SelectionError>(
            m[f][least_busy_index(m[f])],
        ),
        is_least_busy(m[f], least_busy_index(m[f])),
        m[f][least_busy_index(m[f])].spare() > 0,
        forall|j: int|
            0 <= j < m[f].len() ==> (#[trigger] m[f][j]).spare() <= m[f][least_busy_index(
                m[f],
            )].spare(),
        forall|j: int|
            0 <= j < least_busy_index(m[f]) ==> (#[trigger] m[f][j]).spare() < m[f][least_busy_index(
                m[f],
            )].spare(),
{
    let s = m[f];
    let some = choose|i: int| 0 <= i < s.len() && (#[trigger] s[i]).spare() != 0;
    assert(0 <= some < s.len() && s[some].spare() != 0);
    lemma_least_busy_exists(s);
    let k = least_busy_index(s);
    if some != k {
        assert(outranks(s, k, some));
    }
    assert forall|j: int| 0 <= j < s.len() implies (#[trigger] s[j]).spare() <= s[k].spare() by {
        if j != k {
            assert(outranks(s, k, j));
        }
    }
    assert forall|j: int| 0 <= j < k implies (#[trigger] s[j]).spare() < s[k].spare() by {
        assert(outranks(s, k, j));
    }
}

/// Of two workers registered for a function that had none, the one with more
/// capacity to spare is selected, whichever came first.
pub proof fn lemma_more_spare_wins(
    f: StaticName,
    first: FunctionWorkerConfig,
    second: FunctionWorkerConfig,
)
    requires
        registration_outcome(f, first) is Ok,
        registration_outcome(f, second) is Ok,
        first.worker_uuid != second.worker_uuid,
        first.spare() != second.spare(),
    ensures
        least_busy(registered(registered(Map::empty(), f, first), f, second), f) == Ok::<
            FunctionWorkerConfig,
            SelectionError,
        >(
            if first.spare() > second.spare() {
                first
            } else {
                second
            },
        ),
{
    lemma_two_registered(f, first, second);
    let s = seq![first, second];
    let k: int = if first.spare() > second.spare() { 0 } else { 1 };
    assert(is_least_busy(s, k));
    lemma_least_busy_index(s, k);
    assert(s[k].spare() != 0);
}

/// Of two workers with the same capacity to spare, registered for a function
/// that had none, the one that was registered first is selected.
pub proof fn lemma_earlier_wins_ties(
    f: StaticName,
    first: FunctionWorkerConfig,
    second: FunctionWorkerConfig,
)
    requires
        registration_outcome(f, first) is Ok,
        registration_outcome(f, second) is Ok,
        first.worker_uuid != second.worker_uuid,
        first.spare() == second.spare(),
        first.spare() > 0,
    ensures
        least_busy(registered(registered(Map::empty(), f, first), f, second), f) == Ok::<
            FunctionWorkerConfig,
            SelectionError,
        >(first),
{
    lemma_two_registered(f, first, second);
    let s = seq![first, second];
    assert(is_least_busy(s, 0));
    lemma_least_busy_index(s, 0);
    assert(s[0].spare() != 0);
}

/// Two workers registered for a function that had none are its records, in
/// that order.
proof fn lemma_two_registered(f: StaticName, first: FunctionWorkerConfig, second: FunctionWorkerConfig)
    requires
        registration_outcome(f, first) is Ok,
        registration_outcome(f, second) is Ok,
        first.worker_uuid != second.worker_uuid,
    ensures
        registered(registered(Map::empty(), f, first), f, second) == Map::<
            StaticName,
            Seq<FunctionWorkerConfig>,
        >::empty().insert(f, seq![first, second]),
{
    let m0 = Map::<StaticName, Seq<FunctionWorkerConfig>>::empty();
    let m1 = registered(m0, f, first);
    assert(m1 == m0.insert(f, seq![first]));
    let s = seq![first];
    if has_worker(s, second.worker_uuid) {
        let i = worker_index(s, second.worker_uuid);
        assert(s[i].worker_uuid == second.worker_uuid);
    }
    assert(s.push(second) =~= seq![first, second]);
    assert(registered(m1, f, second) =~= m0.insert(f, seq![first, second]));
}

/// A worker that was registered is registered, with the record that came in;
/// its function has one worker more than before if the worker is new, and as
/// many as before if it is not.
pub proof fn lemma_registered_is_recorded(m: Registry, f: StaticName, c: FunctionWorkerConfig)
    requires
        valid_registry(m),
        registration_outcome(f, c) is Ok,
    ensures
        is_registered(registered(m, f, c), f, c.worker_uuid),
        record_of(registered(m, f, c), f, c.worker_uuid) == c,
        live_workers(registered(m, f, c), f) == live_workers(m, f) + if is_registered(
            m,
            f,
            c.worker_uuid,
        ) {
            0int
        } else {
            1int
        },
{
    if m.contains_key(f) {
        let s = m[f];
        if has_worker(s, c.worker_uuid) {
            lemma_replaced_valid(s, f, worker_index(s, c.worker_uuid), c);
        } else {
            lemma_added_valid(s, f, c);
        }
    } else {
        let s = seq![c];
        assert(valid_workers(s, f));
        lemma_worker_index(s, 0);
    }
}

/// A worker that was deregistered is not registered any more, and its
/// function has one worker less; deregistering a worker that is not
/// registered changes nothing.
pub proof fn lemma_deregistered_is_gone(m: Registry, f: StaticName, w: StaticName)
    requires
        valid_registry(m),
    ensures
        !is_registered(deregistered(m, f, w), f, w),
        is_registered(m, f, w) ==> live_workers(deregistered(m, f, w), f) == live_workers(m, f)
            - 1,
        !is_registered(m, f, w) ==> deregistered(m, f, w) == m,
{
    if is_registered(m, f, w) {
        assert(m.contains_key(f));
        let s = m[f];
        let i = worker_index(s, w);
        assert(s[i].worker_uuid == w);
        lemma_removed_valid(s, f, i);
    }
}

/// Registering a worker again for the same function replaces its record and
/// nothing else: the function has as many records as before, the worker's
/// record is the new one, in the place of the old one, and every other record
/// is as it was.
pub proof fn lemma_reregistration_replaces(m: Registry, f: StaticName, c: FunctionWorkerConfig)
    requires
        valid_registry(m),
        is_registered(m, f, c.worker_uuid),
        registration_outcome(f, c) is Ok,
    ensures
        registered(m, f, c)[f].len() == m[f].len(),
        is_registered(registered(m, f, c), f, c.worker_uuid),
        record_of(registered(m, f, c), f, c.worker_uuid) == c,
        worker_index(registered(m, f, c)[f], c.worker_uuid) == worker_index(m[f], c.worker_uuid),
        forall|j: int|
            0 <= j < m[f].len() && j != worker_index(m[f], c.worker_uuid) ==> (
            #[trigger] registered(m, f, c)[f][j]) == m[f][j],
        forall|g: StaticName|
            g != f ==> registered(m, f, c).contains_key(g) == m.contains_key(g) && registered(
                m,
                f,
                c,
            )[g] == m[g],
{
    let s = m[f];
    let i = worker_index(s, c.worker_uuid);
    assert(m.contains_key(f));
    lemma_replaced_valid(s, f, i, c);
}

/// A dispatch shows in the order of the workers and in the next selection.
/// The worker that was dispatched to has one less to spare. It comes behind
/// every worker of the function that had at least as much to spare as it had
/// before the dispatch, and stays before every worker that has less than it
/// has now. So it is not selected while there is a worker of the first kind;
/// it is selected if it still has capacity to spare and all others are of the
/// second kind.
pub proof fn lemma_dispatch_then_select(m: Registry, f: StaticName, w: StaticName)
    requires
        valid_registry(m),
        dispatch_outcome(m, f, w) is Ok,
    ensures
        record_of(dispatched(m, f, w), f, w).spare() == record_of(m, f, w).spare() - 1,
        forall|j: int|
            0 <= j < m[f].len() && j != worker_index(m[f], w) && (#[trigger] m[f][j]).spare()
                >= record_of(m, f, w).spare() ==> outranks(
                dispatched(m, f, w)[f],
                j,
                worker_index(m[f], w),
            ),
        forall|j: int|
            0 <= j < m[f].len() && j != worker_index(m[f], w) && (#[trigger] m[f][j]).spare()
                < record_of(m, f, w).spare() - 1 ==> outranks(
                dispatched(m, f, w)[f],
                worker_index(m[f], w),
                j,
            ),
        (exists|j: int|
            0 <= j < m[f].len() && j != worker_index(m[f], w) && (#[trigger] m[f][j]).spare()
                >= record_of(m, f, w).spare()) ==> (least_busy(dispatched(m, f, w), f) matches Ok(
            selected,
        ) && selected.worker_uuid != w),
        record_of(m, f, w).spare() > 1 && (forall|j: int|
            0 <= j < m[f].len() && j != worker_index(m[f], w) ==> (#[trigger] m[f][j]).spare()
                < record_of(m, f, w).spare() - 1) ==> least_busy(dispatched(m, f, w), f) == Ok::<
            FunctionWorkerConfig,
            SelectionError,
        >(record_of(dispatched(m, f, w), f, w)),
{
    let s = m[f];
    let i = worker_index(s, w);
    let t = (s[i].traffic + 1) as u32;
    lemma_with_traffic_valid(m, f, w, t);
    let m2 = dispatched(m, f, w);
    let s2 = m2[f];
    assert(s2 == s.update(i, s[i].with_traffic(t)));
    assert(s2[i].spare() == s[i].spare() - 1);
    assert forall|j: int| 0 <= j < s.len() && j != i implies s2[j] == #[trigger] s[j] by {}
    if exists|j: int| 0 <= j < s.len() && j != i && (#[trigger] s[j]).spare() >= s[i].spare() {
        let j = choose|j: int| 0 <= j < s.len() && j != i && (#[trigger] s[j]).spare() >= s[i].spare();
        assert(s2[j] == s[j]);
        assert(s2[j].spare() != 0);
        lemma_selected_has_most_spare(m2, f);
        let k = least_busy_index(s2);
        if k == i {
            assert(outranks(s2, i, j));
        }
        assert(s2[k].worker_uuid != s2[i].worker_uuid) by {
            if k < i {
                assert(s2[k].worker_uuid != s2[i].worker_uuid);
            } else {
                assert(s2[i].worker_uuid != s2[k].worker_uuid);
            }
        }
    }
    if s[i].spare() > 1 && forall|j: int|
        0 <= j < s.len() && j != i ==> (#[trigger] s[j]).spare() < s[i].spare() - 1 {
        assert forall|j: int| 0 <= j < s2.len() && j != i implies outranks(s2, i, j) by {
            assert(s2[j] == s[j]);
            assert(s[j].spare() < s[i].spare() - 1);
        }
        assert(is_least_busy(s2, i));
        lemma_least_busy_index(s2, i);
        assert(s2[i].spare() != 0);
    }
}

/// A dispatch to a worker that runs as many invocations as it may is turned
/// away, and nothing changes.
pub proof fn lemma_dispatch_at_capacity(m: Registry, f: StaticName, w: StaticName)
    requires
        is_registered(m, f, w),
        record_of(m, f, w).traffic == record_of(m, f, w).max_concurrency,
    ensures
        dispatch_outcome(m, f, w) == Err::<(), LoadError>(LoadError::AtCapacity),
        dispatched(m, f, w) == m,
{
}

/// A completion on a worker that runs no invocation is turned away, and
/// nothing changes.
pub proof fn lemma_completion_without_traffic(m: Registry, f: StaticName, w: StaticName)
    requires
        is_registered(m, f, w),
        record_of(m, f, w).traffic == 0,
    ensures
        completion_outcome(m, f, w) == Err::<(), LoadError>(LoadError::Underflow),
        completed(m, f, w) == m,
{
}

/// A recorded dispatch raises the traffic of its worker by one, a recorded
/// completion lowers it by one, and a completion after a dispatch leaves the
/// registry as it was.
pub proof fn lemma_completion_undoes_dispatch(m: Registry, f: StaticName, w: StaticName)
    requires
        valid_registry(m),
        dispatch_outcome(m, f, w) is Ok,
    ensures
        record_of(dispatched(m, f, w), f, w).traffic == record_of(m, f, w).traffic + 1,
        completion_outcome(dispatched(m, f, w), f, w) is Ok,
        completed(dispatched(m, f, w), f, w) == m,
{
    let s = m[f];
    let i = worker_index(s, w);
    let t = (s[i].traffic + 1) as u32;
    lemma_with_traffic_valid(m, f, w, t);
    let m2 = dispatched(m, f, w);
    let m3 = completed(m2, f, w);
    assert(m3[f] =~= s);
    assert(m3 =~= m);
}

/// A call that records a dispatch or a completion keeps every registered
/// worker registered, and changes its traffic by what the call adds to it.
pub proof fn lemma_load_change_counts(m: Registry, call: Call, f: StaticName, w: StaticName)
    requires
        valid_registry(m),
        is_registered(m, f, w),
        call is Dispatch || call is Completion,
    ensures
        is_registered(after_call(m, call), f, w),
        record_of(after_call(m, call), f, w).traffic == record_of(m, f, w).traffic + traffic_added(
            m,
            call,
            f,
            w,
        ),
{
    let (g, v, changed, t): (StaticName, StaticName, bool, int) = match call {
        Call::Dispatch { function_name, worker_uuid } => (
            function_name,
            worker_uuid,
            dispatch_outcome(m, function_name, worker_uuid) is Ok,
            record_of(m, function_name, worker_uuid).traffic + 1,
        ),
        Call::Completion { function_name, worker_uuid } => (
            function_name,
            worker_uuid,
            completion_outcome(m, function_name, worker_uuid) is Ok,
            record_of(m, function_name, worker_uuid).traffic - 1,
        ),
        _ => (f, w, false, 0),
    };
    if changed {
        assert(after_call(m, call) == with_traffic(m, g, v, t as u32));
        lemma_with_traffic_valid(m, g, v, t as u32);
        if g == f && v != w {
            let s = m[f];
            let s2 = after_call(m, call)[f];
            let i = worker_index(s, w);
            let j = worker_index(s, v);
            assert(s[i].worker_uuid == w && s[j].worker_uuid == v);
            assert(s2[i] == s[i]);
            lemma_worker_index(s2, i);
        }
    }
}

/// Over any run of recorded dispatches and completions, in whatever order
/// they come, the traffic of a worker changes by its recorded dispatches less
/// its recorded completions: no change of load is lost.
pub proof fn lemma_traffic_counts_calls(m: Registry, calls: Seq<Call>, f: StaticName, w: StaticName)
    requires
        valid_registry(m),
        is_registered(m, f, w),
        only_load_changes(calls),
    ensures
        is_registered(after_calls_on(m, calls), f, w),
        record_of(after_calls_on(m, calls), f, w).traffic == record_of(m, f, w).traffic
            + net_dispatches(m, calls, f, w),
    decreases calls.len(),
{
    if calls.len() > 0 {
        let earlier = calls.drop_last();
        assert forall|i: int| 0 <= i < earlier.len() implies #[trigger] earlier[i] is Dispatch
            || earlier[i] is Completion by {
            assert(earlier[i] == calls[i]);
        }
        lemma_traffic_counts_calls(m, earlier, f, w);
        lemma_after_calls_on_valid(m, earlier);
        assert(calls.last() == calls[calls.len() - 1]);
        lemma_load_change_counts(after_calls_on(m, earlier), calls.last(), f, w);
    }
}

/// No call on one function touches the workers of another.
pub proof fn lemma_other_functions_untouched(m: Registry, call: Call, g: StaticName)
    requires
        g != match call {
            Call::Register { function_name, .. } => function_name,
            Call::Deregister { function_name, .. } => function_name,
            Call::Dispatch { function_name, .. } => function_name,
            Call::Completion { function_name, .. } => function_name,
        },
    ensures
        after_call(m, call).contains_key(g) == m.contains_key(g),
        after_call(m, call).contains_key(g) ==> after_call(m, call)[g] == m[g],
{
}

} // verus!
