//! The order in which the workers of one function are offered work.
//!
//! A function's records are kept in the order in which their workers were first
//! registered. A *ranking* lists the positions of that sequence from the most
//! spare capacity to the least; of two records with the same spare capacity
//! the one registered earlier comes first.

use crate::config::FunctionWorkerConfig;
use vstd::prelude::*;

verus! {

/// Whether the record at position `a` is offered work before the one at `b`:
/// it has more capacity to spare, or as much and was registered earlier.
pub open spec fn outranks(s: Seq<FunctionWorkerConfig>, a: int, b: int) -> bool {
    s[a].spare() > s[b].spare() || (s[a].spare() == s[b].spare() && a < b)
}

/// Whether `r` lists every position of `s` once, each before all those that it
/// outranks.
pub open spec fn is_ranking(s: Seq<FunctionWorkerConfig>, r: Seq<usize>) -> bool {
    &&& r.len() == s.len()
    &&& s.len() <= usize::MAX
    &&& forall|i: int| 0 <= i < r.len() ==> (#[trigger] r[i]) < s.len()
    &&& forall|k: usize| k < s.len() ==> #[trigger] r.contains(k)
    &&& forall|i: int, j: int|
        #![trigger r[i], r[j]]
        0 <= i < j < r.len() ==> outranks(s, r[i] as int, r[j] as int)
}

/// Whether `r` is a ranking of all positions of `s` except `k`.
pub(crate) open spec fn ranks_all_but(s: Seq<FunctionWorkerConfig>, r: Seq<usize>, k: usize) -> bool {
    &&& k < s.len()
    &&& r.len() + 1 == s.len()
    &&& s.len() <= usize::MAX
    &&& forall|i: int| 0 <= i < r.len() ==> (#[trigger] r[i]) < s.len() && r[i] != k
    &&& forall|j: usize| j < s.len() && j != k ==> #[trigger] r.contains(j)
    &&& forall|i: int, j: int|
        #![trigger r[i], r[j]]
        0 <= i < j < r.len() ==> outranks(s, r[i] as int, r[j] as int)
}

/// Whether the record at position `k` outranks every other record of `s`.
pub open spec fn is_least_busy(s: Seq<FunctionWorkerConfig>, k: int) -> bool {
    &&& 0 <= k < s.len()
    &&& forall|j: int| 0 <= j < s.len() && j != k ==> outranks(s, k, j)
}

/// The position of the record that outranks all others; meaningful for a
/// sequence that is not empty.
pub open spec fn least_busy_index(s: Seq<FunctionWorkerConfig>) -> int {
    choose|k: int| is_least_busy(s, k)
}

/// The ranking of `s`.
pub open spec fn ranking(s: Seq<FunctionWorkerConfig>) -> Seq<usize> {
    choose|r: Seq<usize>| is_ranking(s, r)
}

/// The records of `s` in the order of its ranking.
pub open spec fn ranked(s: Seq<FunctionWorkerConfig>) -> Seq<FunctionWorkerConfig> {
    Seq::new(s.len(), |i: int| s[ranking(s)[i] as int])
}

/// What a position becomes when the record at `k` leaves the sequence.
pub(crate) open spec fn closed_up(x: usize, k: usize) -> usize {
    if x > k {
        (x - 1) as usize
    } else {
        x
    }
}

/// No two records outrank all others.
pub proof fn lemma_least_busy_unique(s: Seq<FunctionWorkerConfig>, a: int, b: int)
    requires
        is_least_busy(s, a),
        is_least_busy(s, b),
    ensures
        a == b,
{
    if a != b {
        assert(outranks(s, a, b));
        assert(outranks(s, b, a));
    }
}

/// A position that outranks all others is the one that `least_busy_index` names.
pub proof fn lemma_least_busy_index(s: Seq<FunctionWorkerConfig>, k: int)
    requires
        is_least_busy(s, k),
    ensures
        least_busy_index(s) == k,
{
    lemma_least_busy_unique(s, k, least_busy_index(s));
}

/// A ranking begins with the record that outranks all others.
pub proof fn lemma_ranking_head(s: Seq<FunctionWorkerConfig>, r: Seq<usize>)
    requires
        is_ranking(s, r),
        s.len() > 0,
    ensures
        is_least_busy(s, r[0] as int),
        least_busy_index(s) == r[0],
{
    let k = r[0] as int;
    assert forall|j: int| 0 <= j < s.len() && j != k implies outranks(s, k, j) by {
        assert(r.contains(j as usize));
        let p = choose|p: int| 0 <= p < r.len() && r[p] == j as usize;
        assert(r[p] == j as usize);
        assert(p != 0);
        assert(outranks(s, r[0] as int, r[p] as int));
    }
    lemma_least_busy_index(s, k);
}

/// A sequence has at most one ranking.
pub proof fn lemma_ranking_unique(s: Seq<FunctionWorkerConfig>, r1: Seq<usize>, r2: Seq<usize>)
    requires
        is_ranking(s, r1),
        is_ranking(s, r2),
    ensures
        r1 == r2,
{
    assert forall|i: int| 0 <= i < r1.len() implies r1[i] == r2[i] by {
        lemma_rankings_agree(s, r1, r2, i);
    }
    assert(r1 =~= r2);
}

proof fn lemma_rankings_agree(
    s: Seq<FunctionWorkerConfig>,
    r1: Seq<usize>,
    r2: Seq<usize>,
    i: int,
)
    requires
        is_ranking(s, r1),
        is_ranking(s, r2),
        0 <= i < r1.len(),
    ensures
        r1[i] == r2[i],
    decreases i,
{
    assert forall|j: int| 0 <= j < i implies r1[j] == r2[j] by {
        lemma_rankings_agree(s, r1, r2, j);
    }
    let a = r1[i];
    let b = r2[i];
    if a != b {
        // Each of the two occurs in the other ranking, and only later than `i`.
        assert(r2.contains(a));
        let p = choose|p: int| 0 <= p < r2.len() && r2[p] == a;
        assert(r1.contains(b));
        let q = choose|q: int| 0 <= q < r1.len() && r1[q] == b;
        if p < i {
            assert(r1[p] == r2[p]);
            assert(outranks(s, r1[p] as int, r1[i] as int));
        }
        if q < i {
            assert(r1[q] == r2[q]);
            assert(outranks(s, r2[q] as int, r2[i] as int));
        }
        assert(outranks(s, r2[i] as int, r2[p] as int));
        assert(outranks(s, r1[i] as int, r1[q] as int));
    }
}

/// A sequence that is not empty has a record that outranks all others.
pub proof fn lemma_least_busy_exists(s: Seq<FunctionWorkerConfig>)
    requires
        s.len() > 0,
    ensures
        is_least_busy(s, least_busy_index(s)),
    decreases s.len(),
{
    if s.len() == 1 {
        assert(is_least_busy(s, 0));
    } else {
        let t = s.drop_last();
        lemma_least_busy_exists(t);
        let k = least_busy_index(t);
        let n = s.len() - 1;
        if s[n].spare() > s[k].spare() {
            assert forall|j: int| 0 <= j < s.len() && j != n implies outranks(s, n, j) by {
                if j != k {
                    assert(outranks(t, k, j));
                }
            }
            assert(is_least_busy(s, n));
        } else {
            assert forall|j: int| 0 <= j < s.len() && j != k implies outranks(s, k, j) by {
                if j != n {
                    assert(outranks(t, k, j));
                }
            }
            assert(is_least_busy(s, k));
        }
    }
}

/// Where position `k` belongs in a ranking of all the other positions, looked
/// for from position `i` on.
proof fn lemma_insertion_point(s: Seq<FunctionWorkerConfig>, r: Seq<usize>, k: usize, i: int) -> (p:
    int)
    requires
        ranks_all_but(s, r, k),
        0 <= i <= r.len(),
        forall|j: int| 0 <= j < i ==> outranks(s, (#[trigger] r[j]) as int, k as int),
    ensures
        0 <= p <= r.len(),
        forall|j: int| 0 <= j < p ==> outranks(s, (#[trigger] r[j]) as int, k as int),
        forall|j: int| p <= j < r.len() ==> outranks(s, k as int, (#[trigger] r[j]) as int),
    decreases r.len() - i,
{
    if i == r.len() {
        i
    } else if outranks(s, r[i] as int, k as int) {
        lemma_insertion_point(s, r, k, i + 1)
    } else {
        assert(r[i] != k);
        assert forall|j: int| i <= j < r.len() implies outranks(
            s,
            k as int,
            (#[trigger] r[j]) as int,
        ) by {
            if i < j {
                assert(outranks(s, r[i] as int, r[j] as int));
            }
        }
        i
    }
}

/// Every sequence that a vector can hold has a ranking.
pub proof fn lemma_ranking_exists(s: Seq<FunctionWorkerConfig>)
    requires
        s.len() <= usize::MAX,
    ensures
        is_ranking(s, ranking(s)),
    decreases s.len(),
{
    if s.len() == 0 {
        assert(is_ranking(s, Seq::<usize>::empty()));
    } else {
        let t = s.drop_last();
        lemma_ranking_exists(t);
        let r = ranking(t);
        let k = t.len() as usize;
        lemma_ranking_before_push(t, r, s.last());
        assert(t.push(s.last()) =~= s);
        let p = lemma_insertion_point(s, r, k, 0);
        lemma_place(s, r, k, p);
    }
}

/// The ranked records are the records in another order: from the most
/// capacity to spare to the least, with the record that outranks all others
/// at the head.
pub proof fn lemma_ranked_is_sorted(s: Seq<FunctionWorkerConfig>)
    requires
        s.len() <= usize::MAX,
    ensures
        ranked(s).len() == s.len(),
        forall|i: int, j: int|
            0 <= i < j < s.len() ==> (#[trigger] ranked(s)[i]).spare() >= (#[trigger] ranked(
                s,
            )[j]).spare(),
        s.len() > 0 ==> ranked(s)[0] == s[least_busy_index(s)],
{
    lemma_ranking_exists(s);
    let r = ranking(s);
    assert forall|i: int, j: int| 0 <= i < j < s.len() implies (#[trigger] ranked(s)[i]).spare()
        >= (#[trigger] ranked(s)[j]).spare() by {
        assert(outranks(s, r[i] as int, r[j] as int));
    }
    if s.len() > 0 {
        lemma_ranking_head(s, r);
    }
}

/// The ranking that `ranking` names is the one at hand.
pub proof fn lemma_ranking_is(s: Seq<FunctionWorkerConfig>, r: Seq<usize>)
    requires
        is_ranking(s, r),
    ensures
        ranking(s) == r,
{
    lemma_ranking_unique(s, r, ranking(s));
}

/// A ranking of all positions but `k` becomes a ranking of all once `k` is put
/// behind the positions that outrank it and before those that it outranks.
pub(crate) proof fn lemma_place(s: Seq<FunctionWorkerConfig>, r: Seq<usize>, k: usize, p: int)
    requires
        ranks_all_but(s, r, k),
        0 <= p <= r.len(),
        forall|i: int| 0 <= i < p ==> outranks(s, (#[trigger] r[i]) as int, k as int),
        forall|i: int| p <= i < r.len() ==> outranks(s, k as int, (#[trigger] r[i]) as int),
    ensures
        is_ranking(s, r.insert(p, k)),
{
    let t = r.insert(p, k);
    assert forall|j: usize| j < s.len() implies #[trigger] t.contains(j) by {
        if j == k {
            assert(t[p] == j);
        } else {
            assert(r.contains(j));
            let q = choose|q: int| 0 <= q < r.len() && r[q] == j;
            if q < p {
                assert(t[q] == j);
            } else {
                assert(t[q + 1] == j);
            }
        }
    }
    assert forall|i: int, j: int| #![trigger t[i], t[j]] 0 <= i < j < t.len() implies outranks(
        s,
        t[i] as int,
        t[j] as int,
    ) by {
        if i < p && j > p {
            assert(outranks(s, r[i] as int, r[j - 1] as int));
        } else if i > p {
            assert(outranks(s, r[i - 1] as int, r[j - 1] as int));
        } else if j < p {
            assert(outranks(s, r[i] as int, r[j] as int));
        } else if i == p {
            assert(outranks(s, k as int, r[j - 1] as int));
        } else {
            assert(outranks(s, r[i] as int, k as int));
        }
    }
}

/// Taking a position out of a ranking leaves a ranking of all the others.
pub(crate) proof fn lemma_unplace(s: Seq<FunctionWorkerConfig>, r: Seq<usize>, p: int)
    requires
        is_ranking(s, r),
        0 <= p < r.len(),
    ensures
        ranks_all_but(s, r.remove(p), r[p]),
{
    let k = r[p];
    let t = r.remove(p);
    assert forall|i: int| 0 <= i < t.len() implies (#[trigger] t[i]) < s.len() && t[i] != k by {
        if i < p {
            assert(outranks(s, r[i] as int, r[p] as int));
        } else {
            assert(outranks(s, r[p] as int, r[i + 1] as int));
        }
    }
    assert forall|j: usize| j < s.len() && j != k implies #[trigger] t.contains(j) by {
        assert(r.contains(j));
        let q = choose|q: int| 0 <= q < r.len() && r[q] == j;
        if q < p {
            assert(t[q] == j);
        } else {
            assert(t[q - 1] == j);
        }
    }
    assert forall|i: int, j: int| #![trigger t[i], t[j]] 0 <= i < j < t.len() implies outranks(
        s,
        t[i] as int,
        t[j] as int,
    ) by {
        let i0 = if i < p { i } else { i + 1 };
        let j0 = if j < p { j } else { j + 1 };
        assert(outranks(s, r[i0] as int, r[j0] as int));
    }
}

/// A ranking of all positions but `k` does not depend on the record at `k`.
pub(crate) proof fn lemma_ranks_all_but_frame(
    s: Seq<FunctionWorkerConfig>,
    s2: Seq<FunctionWorkerConfig>,
    r: Seq<usize>,
    k: usize,
)
    requires
        ranks_all_but(s, r, k),
        s2.len() == s.len(),
        forall|j: int| 0 <= j < s.len() && j != k ==> s2[j] == s[j],
    ensures
        ranks_all_but(s2, r, k),
{
    assert forall|i: int, j: int| #![trigger r[i], r[j]] 0 <= i < j < r.len() implies outranks(
        s2,
        r[i] as int,
        r[j] as int,
    ) by {
        assert(outranks(s, r[i] as int, r[j] as int));
    }
}

/// A ranking ranks all positions but the one of a record that was just added.
pub(crate) proof fn lemma_ranking_before_push(
    s: Seq<FunctionWorkerConfig>,
    r: Seq<usize>,
    c: FunctionWorkerConfig,
)
    requires
        is_ranking(s, r),
        s.len() < usize::MAX,
    ensures
        ranks_all_but(s.push(c), r, s.len() as usize),
{
    let s2 = s.push(c);
    let k = s.len() as usize;
    assert forall|j: usize| j < s2.len() && j != k implies #[trigger] r.contains(j) by {
        assert(j < s.len());
    }
    assert forall|i: int, j: int| #![trigger r[i], r[j]] 0 <= i < j < r.len() implies outranks(
        s2,
        r[i] as int,
        r[j] as int,
    ) by {
        assert(outranks(s, r[i] as int, r[j] as int));
    }
}

/// When the record at `k` leaves the sequence, a ranking of all positions but
/// `k` ranks what is left, once the positions behind `k` have moved up by one.
pub(crate) proof fn lemma_close_up(s: Seq<FunctionWorkerConfig>, r: Seq<usize>, k: usize)
    requires
        ranks_all_but(s, r, k),
    ensures
        is_ranking(s.remove(k as int), r.map_values(|x: usize| closed_up(x, k))),
{
    let s2 = s.remove(k as int);
    let t = r.map_values(|x: usize| closed_up(x, k));
    assert forall|i: int| 0 <= i < t.len() implies (#[trigger] t[i]) < s2.len() by {
        assert(r[i] < s.len() && r[i] != k);
    }
    assert forall|j: usize| j < s2.len() implies #[trigger] t.contains(j) by {
        let j0: usize = if j >= k { (j + 1) as usize } else { j };
        assert(r.contains(j0));
        let q = choose|q: int| 0 <= q < r.len() && r[q] == j0;
        assert(t[q] == j);
    }
    assert forall|i: int, j: int| #![trigger t[i], t[j]] 0 <= i < j < t.len() implies outranks(
        s2,
        t[i] as int,
        t[j] as int,
    ) by {
        assert(outranks(s, r[i] as int, r[j] as int));
        assert(r[i] != k && r[j] != k);
        assert(s2[t[i] as int] == s[r[i] as int]);
        assert(s2[t[j] as int] == s[r[j] as int]);
    }
}

/// Decides whether the record `a` at position `ai` is offered work before the
/// record `b` at position `bi`.
pub(crate) fn ranks_before(a: &FunctionWorkerConfig, ai: usize, b: &FunctionWorkerConfig, bi: usize) -> (before:
    bool)
    ensures
        before == (a.spare() > b.spare() || (a.spare() == b.spare() && ai < bi)),
{
    let sa = a.spare_capacity();
    let sb = b.spare_capacity();
    sa > sb || (sa == sb && ai < bi)
}

/// Finds where position `k` belongs in a ranking of all the other positions:
/// behind every position that outranks it, before every one that it outranks.
pub(crate) fn insertion_point(records: &Vec<FunctionWorkerConfig>, order: &Vec<usize>, k: usize) -> (p:
    usize)
    requires
        ranks_all_but(records@, order@, k),
    ensures
        p <= order@.len(),
        forall|i: int| 0 <= i < p ==> outranks(records@, (#[trigger] order@[i]) as int, k as int),
        forall|i: int|
            p <= i < order@.len() ==> outranks(records@, k as int, (#[trigger] order@[i]) as int),
{
    let mut lo: usize = 0;
    let mut hi: usize = order.len();
    while lo < hi
        invariant
            ranks_all_but(records@, order@, k),
            lo <= hi <= order@.len(),
            forall|i: int|
                0 <= i < lo ==> outranks(records@, (#[trigger] order@[i]) as int, k as int),
            forall|i: int|
                hi <= i < order@.len() ==> outranks(
                    records@,
                    k as int,
                    (#[trigger] order@[i]) as int,
                ),
        decreases hi - lo,
    {
        let mid = lo + (hi - lo) / 2;
        let m = order[mid];
        assert(order@[mid as int] < records@.len() && order@[mid as int] != k);
        if ranks_before(&records[m], m, &records[k], k) {
            assert forall|i: int| 0 <= i < mid + 1 implies outranks(
                records@,
                (#[trigger] order@[i]) as int,
                k as int,
            ) by {
                if i < mid {
                    assert(outranks(records@, order@[i] as int, order@[mid as int] as int));
                }
            }
            lo = mid + 1;
        } else {
            assert forall|i: int| mid <= i < order@.len() implies outranks(
                records@,
                k as int,
                (#[trigger] order@[i]) as int,
            ) by {
                if mid < i {
                    assert(outranks(records@, order@[mid as int] as int, order@[i] as int));
                }
            }
            hi = mid;
        }
    }
    lo
}

/// Puts position `k` into a ranking of all the other positions.
pub(crate) fn place(records: &Vec<FunctionWorkerConfig>, order: &mut Vec<usize>, k: usize)
    requires
        ranks_all_but(records@, old(order)@, k),
    ensures
        is_ranking(records@, final(order)@),
        final(order)@.len() == old(order)@.len() + 1,
{
    let p = insertion_point(records, order, k);
    proof {
        lemma_place(records@, order@, k, p as int);
    }
    order.insert(p, k);
}

/// Takes position `k` out of a ranking.
pub(crate) fn unplace(records: &Vec<FunctionWorkerConfig>, order: &mut Vec<usize>, k: usize)
    requires
        is_ranking(records@, old(order)@),
        k < records@.len(),
    ensures
        ranks_all_but(records@, final(order)@, k),
{
    let mut p: usize = 0;
    assert(order@.contains(k));
    while order[p] != k
        invariant
            is_ranking(records@, order@),
            p < order.len(),
            exists|q: int| p <= q < order@.len() && order@[q] == k,
        decreases order.len() - p,
    {
        p = p + 1;
    }
    proof {
        lemma_unplace(records@, order@, p as int);
    }
    order.remove(p);
}

/// Moves every position behind `k` up by one, for a sequence that the record
/// at `k` is about to leave.
pub(crate) fn close_up(order: &mut Vec<usize>, k: usize)
    requires
        forall|i: int| 0 <= i < old(order)@.len() ==> old(order)@[i] != k,
    ensures
        final(order)@ == old(order)@.map_values(|x: usize| closed_up(x, k)),
{
    let mut i: usize = 0;
    while i < order.len()
        invariant
            i <= order@.len(),
            order@.len() == old(order)@.len(),
            forall|j: int| 0 <= j < i ==> order@[j] == closed_up(old(order)@[j], k),
            forall|j: int| i <= j < order@.len() ==> order@[j] == old(order)@[j],
        decreases order@.len() - i,
    {
        let x = order[i];
        if x > k {
            order[i] = x - 1;
        }
        i = i + 1;
    }
    assert(order@ =~= old(order)@.map_values(|x: usize| closed_up(x, k)));
}

} // verus!
