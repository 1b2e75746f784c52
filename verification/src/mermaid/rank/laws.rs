//! What the ranking guarantees: the ranking reaches every node, nodes
//! without incoming forward edges sit in the first layer, no rank reaches
//! the node count, every forward edge climbs at least one layer, and a
//! node's rank is one more than the largest rank among its forward
//! predecessors.

use vstd::prelude::*;
use vstd::set_lib::{lemma_int_range, lemma_len_subset, set_int_range};
use super::finish::{finish_order, finished_before, lemma_finish_order};
use super::{
    adj_of, adj_prefix, back_edges_of, edges_in, fwd_prefix, lemma_adj_len, indeg_prefix, kahn, kahn_measure, lemma_fwd_in, lemma_fwd_len,
    lemma_positives_update, positives, relax, sources_prefix, spec_ranks, KahnV,
};

verus! {

// ---------------------------------------------------------------------------
// Counting forward edges
// ---------------------------------------------------------------------------

/// Occurrences of `v` in `s`.
pub open spec fn occ(s: Seq<int>, v: int) -> nat
    decreases s.len(),
{
    if s.len() == 0 {
        0
    } else {
        occ(s.drop_last(), v) + if s.last() == v {
            1nat
        } else {
            0nat
        }
    }
}

/// Forward edges into `v` whose source is one of the first `n` nodes and
/// not in `done`.
pub open spec fn pending(fwd: Seq<Seq<int>>, done: Set<int>, v: int, n: int) -> nat
    decreases n,
{
    if n <= 0 {
        0
    } else {
        pending(fwd, done, v, n - 1) + if done.contains(n - 1) {
            0nat
        } else {
            occ(fwd[n - 1], v)
        }
    }
}

proof fn lemma_occ_take(s: Seq<int>, k: int, v: int)
    requires
        0 < k <= s.len(),
    ensures
        occ(s.take(k), v) == occ(s.take(k - 1), v) + if s[k - 1] == v {
            1nat
        } else {
            0nat
        },
{
    assert(s.take(k).drop_last() =~= s.take(k - 1));
}

proof fn lemma_occ_take_le(s: Seq<int>, k: int, v: int)
    requires
        0 <= k <= s.len(),
    ensures
        occ(s.take(k), v) <= occ(s, v),
    decreases s.len() - k,
{
    if k < s.len() {
        lemma_occ_take(s, k + 1, v);
        lemma_occ_take_le(s, k + 1, v);
    } else {
        assert(s.take(k) =~= s);
    }
}

proof fn lemma_occ_zero(s: Seq<int>, v: int, j: int)
    requires
        occ(s, v) == 0,
        0 <= j < s.len(),
    ensures
        s[j] != v,
    decreases s.len(),
{
    if j < s.len() - 1 {
        lemma_occ_zero(s.drop_last(), v, j);
    }
}

proof fn lemma_occ_push(s: Seq<int>, w: int, v: int)
    ensures
        occ(s.push(w), v) == occ(s, v) + if w == v {
            1nat
        } else {
            0nat
        },
{
    assert(s.push(w).drop_last() =~= s);
}

proof fn lemma_pending_insert(fwd: Seq<Seq<int>>, done: Set<int>, u: int, v: int, n: int)
    requires
        0 <= u,
        !done.contains(u),
    ensures
        pending(fwd, done, v, n) == pending(fwd, done.insert(u), v, n) + if u < n {
            occ(fwd[u], v)
        } else {
            0nat
        },
    decreases n,
{
    if n > 0 {
        lemma_pending_insert(fwd, done, u, v, n - 1);
    }
}

proof fn lemma_pending_push(fwd: Seq<Seq<int>>, done: Set<int>, u: int, w: int, v: int, n: int)
    requires
        0 <= u < fwd.len(),
        n <= fwd.len(),
        !done.contains(u),
    ensures
        pending(fwd.update(u, fwd[u].push(w)), done, v, n) == pending(fwd, done, v, n) + if u < n && v == w {
            1nat
        } else {
            0nat
        },
    decreases n,
{
    if n > 0 {
        lemma_pending_push(fwd, done, u, w, v, n - 1);
        if n - 1 == u {
            lemma_occ_push(fwd[u], w, v);
        }
    }
}

proof fn lemma_pending_empty(fwd: Seq<Seq<int>>, v: int, n: int)
    requires
        forall|u: int| 0 <= u < n ==> #[trigger] fwd[u].len() == 0,
    ensures
        pending(fwd, Set::empty(), v, n) == 0,
    decreases n,
{
    if n > 0 {
        lemma_pending_empty(fwd, v, n - 1);
        assert(fwd[n - 1].len() == 0);
    }
}

proof fn lemma_indeg_len(count: int, e: Seq<(int, int)>, back: Seq<(int, int)>, k: int)
    requires
        0 <= count,
    ensures
        indeg_prefix(count, e, back, k).len() == count,
    decreases k,
{
    if 0 < k <= e.len() {
        lemma_indeg_len(count, e, back, k - 1);
    }
}

/// The incoming forward edges counted per node are the forward edges listed
/// per source.
proof fn lemma_indeg_pending(count: int, e: Seq<(int, int)>, back: Seq<(int, int)>, k: int, v: int)
    requires
        0 <= count,
        edges_in(count, e),
        0 <= k <= e.len(),
        0 <= v < count,
    ensures
        indeg_prefix(count, e, back, k).len() == count,
        indeg_prefix(count, e, back, k)[v] == pending(fwd_prefix(count, e, back, k), Set::empty(), v, count),
    decreases k,
{
    lemma_fwd_len(count, e, back, k);
    if k == 0 {
        let z = fwd_prefix(count, e, back, 0);
        assert forall|u: int| 0 <= u < count implies #[trigger] z[u].len() == 0 by {}
        lemma_pending_empty(z, v, count);
    } else {
        lemma_indeg_pending(count, e, back, k - 1, v);
        lemma_fwd_len(count, e, back, k - 1);
        let (u, w) = e[k - 1];
        assert(0 <= e[k - 1].0 < count && 0 <= e[k - 1].1 < count);
        if !back.contains((u, w)) {
            lemma_pending_push(fwd_prefix(count, e, back, k - 1), Set::empty(), u, w, v, count);
        }
    }
}

// ---------------------------------------------------------------------------
// The ranking run
// ---------------------------------------------------------------------------

/// The forward targets of each node.
pub open spec fn forward_targets(count: int, e: Seq<(int, int)>) -> Seq<Seq<int>> {
    fwd_prefix(count, e, back_edges_of(count, e), e.len() as int)
}

/// The number of incoming forward edges of each node.
pub open spec fn forward_indeg(count: int, e: Seq<(int, int)>) -> Seq<int> {
    indeg_prefix(count, e, back_edges_of(count, e), e.len() as int)
}

/// The ranking run from its start to where it stops.
pub open spec fn kahn_run(count: int, e: Seq<(int, int)>) -> KahnV {
    let d = forward_indeg(count, e);
    kahn(
        forward_targets(count, e),
        KahnV { queue: sources_prefix(d, count), head: 0, rank: Seq::new(count as nat, |i: int| 0int), indeg: d },
    )
}

/// The nodes the ranking settles: a node is settled once all its incoming
/// forward edges come from settled nodes (every node, by
/// [`lemma_all_settled`]).
pub open spec fn settled(count: int, e: Seq<(int, int)>) -> Set<int> {
    kahn_run(count, e).queue.to_set()
}

/// What holds of every state the ranking passes through.
pub open spec fn kahn_inv(fwd: Seq<Seq<int>>, count: int, d0: Seq<int>, st: KahnV) -> bool {
    &&& 0 <= count <= usize::MAX
    &&& fwd.len() == count
    &&& st.rank.len() == count
    &&& st.indeg.len() == count
    &&& d0.len() == count
    &&& forall|u: int, j: int| 0 <= u < count && 0 <= j < fwd[u].len() ==> 0 <= #[trigger] fwd[u][j] < count
    &&& 0 <= st.head <= st.queue.len()
    &&& st.queue.no_duplicates()
    &&& forall|i: int| 0 <= i < st.queue.len() ==> 0 <= #[trigger] st.queue[i] < count
    &&& forall|i: int| 0 <= i < st.queue.len() ==> st.indeg[#[trigger] st.queue[i]] == 0
    &&& forall|v: int|
        0 <= v < count ==> #[trigger] st.indeg[v] == pending(fwd, st.queue.take(st.head).to_set(), v, count)
    &&& forall|v: int| 0 <= v < count ==> #[trigger] st.indeg[v] <= d0[v]
    &&& forall|v: int| 0 <= v < count ==> 0 <= #[trigger] st.rank[v] <= st.head && st.rank[v] < count
    &&& forall|v: int| 0 <= v < count && d0[v] == 0 ==> #[trigger] st.rank[v] == 0
    &&& forall|i: int, j: int|
        0 <= i < st.head && 0 <= j < fwd[st.queue[i]].len() ==> #[trigger] st.rank[fwd[st.queue[i]][j]]
            >= st.rank[st.queue[i]] + 1
}

proof fn lemma_queue_room(q: Seq<int>, count: int, v: int)
    requires
        q.no_duplicates(),
        forall|i: int| 0 <= i < q.len() ==> 0 <= #[trigger] q[i] < count,
        0 <= v < count,
        !q.contains(v),
    ensures
        q.len() + 1 <= count,
{
    broadcast use vstd::seq_lib::seq_to_set_is_finite;
    q.unique_seq_to_set();
    let s = q.to_set();
    lemma_int_range(0, count);
    assert(s.insert(v).subset_of(set_int_range(0, count)));
    lemma_len_subset(s.insert(v), set_int_range(0, count));
}

/// Relaxing the first `k` forward edges of the node at the head of the
/// queue: each target's unprocessed count drops by one per edge (it never
/// was zero), ranks only grow and stay within the bounds, and a target
/// whose count reaches zero joins the queue.
proof fn lemma_relax(fwd: Seq<Seq<int>>, count: int, d0: Seq<int>, st: KahnV, k: int)
    requires
        kahn_inv(fwd, count, d0, st),
        st.head < st.queue.len(),
        0 <= k <= fwd[st.queue[st.head]].len(),
    ensures
        ({
            let u = st.queue[st.head];
            let targets = fwd[u];
            let s = relax(targets, k, u, KahnV { head: st.head + 1, ..st });
            &&& s.head == st.head + 1
            &&& s.rank.len() == count
            &&& s.indeg.len() == count
            &&& forall|v: int| 0 <= v < count ==> #[trigger] s.indeg[v] == st.indeg[v] - occ(targets.take(k), v)
            &&& st.queue.len() <= s.queue.len()
            &&& s.queue.take(st.queue.len() as int) == st.queue
            &&& s.queue.no_duplicates()
            &&& forall|i: int| 0 <= i < s.queue.len() ==> 0 <= #[trigger] s.queue[i] < count
            &&& forall|i: int| 0 <= i < s.queue.len() ==> s.indeg[#[trigger] s.queue[i]] == 0
            &&& positives(s.indeg) + s.queue.len() == positives(st.indeg) + st.queue.len()
            &&& forall|v: int| 0 <= v < count ==> st.rank[v] <= #[trigger] s.rank[v]
            &&& forall|v: int| 0 <= v < count ==> #[trigger] s.rank[v] <= st.head + 1 && s.rank[v] < count
            &&& forall|v: int| 0 <= v < count && occ(targets.take(k), v) == 0 ==> #[trigger] s.rank[v] == st.rank[v]
            &&& forall|j: int| 0 <= j < k ==> #[trigger] s.rank[targets[j]] >= st.rank[u] + 1
        }),
    decreases k,
{
    let u = st.queue[st.head];
    let targets = fwd[u];
    let st0 = KahnV { head: st.head + 1, ..st };
    let done = st.queue.take(st.head).to_set();
    if k == 0 {
        assert(targets.take(0) =~= Seq::<int>::empty());
        assert(st.queue.take(st.queue.len() as int) =~= st.queue);
    } else {
        lemma_relax(fwd, count, d0, st, k - 1);
        let s1 = relax(targets, k - 1, u, st0);
        let v = targets[k - 1];
        assert(0 <= v < count);
        assert(0 <= u < count);
        assert(!done.contains(u)) by {
            if done.contains(u) {
                let i = choose|i: int| 0 <= i < st.queue.take(st.head).len() && st.queue.take(st.head)[i] == u;
                assert(st.queue[i] == st.queue[st.head]);
            }
        }
        lemma_pending_insert(fwd, done, u, v, count);
        lemma_pending_insert(fwd, done, u, u, count);
        lemma_occ_take(targets, k, v);
        lemma_occ_take_le(targets, k, v);
        lemma_occ_take_le(targets, k - 1, u);
        assert(st.indeg[u] == 0);
        assert(occ(targets, u) == 0);
        assert(s1.indeg[v] >= 1);
        assert(s1.rank[u] == st.rank[u]);
        let up = if s1.rank[u] < usize::MAX {
            s1.rank[u] + 1
        } else {
            s1.rank[u]
        };
        assert(up == st.rank[u] + 1);
        let r = if s1.rank[v] >= up {
            s1.rank[v]
        } else {
            up
        };
        assert(!s1.queue.contains(v)) by {
            if s1.queue.contains(v) {
                let i = choose|i: int| 0 <= i < s1.queue.len() && s1.queue[i] == v;
                assert(s1.indeg[s1.queue[i]] == 0);
            }
        }
        lemma_queue_room(s1.queue, count, v);
        assert(st.queue.len() <= s1.queue.len());
        assert(r < count);
        let s = relax(targets, k, u, st0);
        let was = s1.indeg[v];
        lemma_positives_update(s1.indeg, v, was - 1);
        assert(s.rank == s1.rank.update(v, r));
        assert(s.indeg == s1.indeg.update(v, was - 1));
        if was == 1 {
            assert(s.queue == s1.queue.push(v));
            assert(s.queue.take(st.queue.len() as int) =~= s1.queue.take(st.queue.len() as int));
            assert forall|i: int, j: int| 0 <= i < j < s.queue.len() implies s.queue[i] != s.queue[j] by {
                if j == s.queue.len() - 1 {
                    assert(s1.queue[i] != v);
                }
            }
        } else {
            assert(s.queue == s1.queue);
        }
        assert forall|i: int| 0 <= i < s.queue.len() implies s.indeg[#[trigger] s.queue[i]] == 0 by {
            if i < s1.queue.len() {
                assert(s1.queue[i] != v);
                assert(s1.indeg[s1.queue[i]] == 0);
            }
        }
        assert forall|w: int| 0 <= w < count implies #[trigger] s.indeg[w] == st.indeg[w] - occ(targets.take(k), w) by {
            lemma_occ_take(targets, k, w);
        }
        assert forall|w: int| 0 <= w < count && occ(targets.take(k), w) == 0 implies #[trigger] s.rank[w] == st.rank[w] by {
            lemma_occ_take(targets, k, w);
        }
        assert forall|j: int| 0 <= j < k implies #[trigger] s.rank[targets[j]] >= st.rank[u] + 1 by {
            if j < k - 1 {
                assert(s1.rank[targets[j]] >= st.rank[u] + 1);
            }
        }
    }
}

/// Taking the node at the head of the queue keeps the invariant and does
/// one unit of the remaining work.
proof fn lemma_kahn_step(fwd: Seq<Seq<int>>, count: int, d0: Seq<int>, st: KahnV)
    requires
        kahn_inv(fwd, count, d0, st),
        st.head < st.queue.len(),
    ensures
        ({
            let u = st.queue[st.head];
            let s = relax(fwd[u], fwd[u].len() as int, u, KahnV { head: st.head + 1, ..st });
            &&& kahn_inv(fwd, count, d0, s)
            &&& kahn_measure(s) == kahn_measure(st) - 1
            &&& st.queue.len() <= s.queue.len()
            &&& s.queue.take(st.queue.len() as int) == st.queue
        }),
{
    let u = st.queue[st.head];
    let targets = fwd[u];
    let n = targets.len() as int;
    lemma_relax(fwd, count, d0, st, n);
    let s = relax(targets, n, u, KahnV { head: st.head + 1, ..st });
    assert(targets.take(n) =~= targets);
    let done = st.queue.take(st.head).to_set();
    assert(!done.contains(u)) by {
        if done.contains(u) {
            let i = choose|i: int| 0 <= i < st.queue.take(st.head).len() && st.queue.take(st.head)[i] == u;
            assert(st.queue[i] == st.queue[st.head]);
        }
    }
    assert(s.queue.take(s.head) =~= st.queue.take(st.head).push(u)) by {
        assert(s.queue.take(s.head) =~= s.queue.take(st.queue.len() as int).take(s.head));
    }
    assert(s.queue.take(s.head).to_set() =~= done.insert(u)) by {
        broadcast use vstd::seq_lib::group_seq_properties;
    }
    assert forall|v: int| 0 <= v < count implies #[trigger] s.indeg[v] == pending(fwd, s.queue.take(s.head).to_set(), v, count) by {
        lemma_pending_insert(fwd, done, u, v, count);
    }
    assert forall|v: int| 0 <= v < count && d0[v] == 0 implies #[trigger] s.rank[v] == 0 by {
        lemma_pending_insert(fwd, done, u, v, count);
        assert(0 <= u < count);
        assert(st.indeg[v] == pending(fwd, done, v, count));
        assert(st.indeg[v] <= d0[v]);
        assert(occ(targets, v) == 0);
        assert(occ(targets.take(n), v) == 0);
    }
    assert forall|i: int, j: int|
        0 <= i < s.head && 0 <= j < fwd[s.queue[i]].len() implies #[trigger] s.rank[fwd[s.queue[i]][j]]
            >= s.rank[s.queue[i]] + 1 by {
        assert(s.queue[i] == st.queue[i]) by {
            assert(s.queue.take(st.queue.len() as int)[i] == st.queue[i]);
        }
        let q = st.queue[i];
        lemma_pending_insert(fwd, done, u, q, count);
        assert(st.indeg[q] == 0);
        assert(s.rank[q] == st.rank[q]);
        if i < st.head {
            assert(st.rank[fwd[q][j]] >= st.rank[q] + 1);
        }
    }
}

/// The invariant holds where the ranking stops, which is when the queue is
/// exhausted; the queue only ever grows.
proof fn lemma_kahn(fwd: Seq<Seq<int>>, count: int, d0: Seq<int>, st: KahnV)
    requires
        kahn_inv(fwd, count, d0, st),
    ensures
        kahn_inv(fwd, count, d0, kahn(fwd, st)),
        kahn(fwd, st).head == kahn(fwd, st).queue.len(),
        st.queue.len() <= kahn(fwd, st).queue.len(),
        kahn(fwd, st).queue.take(st.queue.len() as int) == st.queue,
    decreases kahn_measure(st),
{
    if st.head < st.queue.len() {
        let u = st.queue[st.head];
        lemma_kahn_step(fwd, count, d0, st);
        let s = relax(fwd[u], fwd[u].len() as int, u, KahnV { head: st.head + 1, ..st });
        lemma_kahn(fwd, count, d0, s);
        let r = kahn(fwd, s);
        assert(r.queue.take(st.queue.len() as int) =~= r.queue.take(s.queue.len() as int).take(st.queue.len() as int));
    } else {
        assert(st.queue.take(st.queue.len() as int) =~= st.queue);
    }
}

proof fn lemma_sources_shape(d: Seq<int>, k: int)
    requires
        0 <= k <= d.len(),
    ensures
        sources_prefix(d, k).no_duplicates(),
        forall|i: int| 0 <= i < sources_prefix(d, k).len() ==> 0 <= #[trigger] sources_prefix(d, k)[i] < k,
        forall|i: int| 0 <= i < sources_prefix(d, k).len() ==> d[#[trigger] sources_prefix(d, k)[i]] == 0,
        forall|v: int| 0 <= v < k && d[v] == 0 ==> #[trigger] sources_prefix(d, k).contains(v),
    decreases k,
{
    if k > 0 {
        lemma_sources_shape(d, k - 1);
        let p = sources_prefix(d, k - 1);
        assert forall|v: int| 0 <= v < k - 1 && d[v] == 0 implies p.contains(v) by {
            assert(sources_prefix(d, k - 1).contains(v));
        }
        if d[k - 1] == 0 {
            assert(sources_prefix(d, k) == p.push(k - 1));
            assert forall|v: int| 0 <= v < k && d[v] == 0 implies #[trigger] sources_prefix(d, k).contains(v) by {
                if v < k - 1 {
                    let i = choose|i: int| 0 <= i < p.len() && p[i] == v;
                    assert(sources_prefix(d, k)[i] == v);
                } else {
                    assert(sources_prefix(d, k)[p.len() as int] == v);
                }
            }
        }
    }
}

/// The invariant holds where the ranking starts.
proof fn lemma_kahn_start(count: int, e: Seq<(int, int)>)
    requires
        0 <= count <= usize::MAX,
        edges_in(count, e),
    ensures
        kahn_inv(
            forward_targets(count, e),
            count,
            forward_indeg(count, e),
            KahnV {
                queue: sources_prefix(forward_indeg(count, e), count),
                head: 0,
                rank: Seq::new(count as nat, |i: int| 0int),
                indeg: forward_indeg(count, e),
            },
        ),
{
    let back = back_edges_of(count, e);
    let fwd = forward_targets(count, e);
    let d = forward_indeg(count, e);
    let q = sources_prefix(d, count);
    lemma_fwd_len(count, e, back, e.len() as int);
    assert forall|u: int, j: int| 0 <= u < count && 0 <= j < fwd[u].len() implies 0 <= #[trigger] fwd[u][j] < count by {
        lemma_fwd_in(count, e, back, e.len() as int, u, j);
    }
    assert forall|v: int| 0 <= v < count implies #[trigger] d[v] == pending(fwd, q.take(0).to_set(), v, count) by {
        lemma_indeg_pending(count, e, back, e.len() as int, v);
        assert(q.take(0).to_set() =~= Set::<int>::empty());
    }
    lemma_indeg_len(count, e, back, e.len() as int);
    lemma_sources_shape(d, count);
}

/// Ranks are longest-path layers over the forward edges (the edges that
/// are not back edges of the depth-first search): a node without incoming
/// forward edges sits in layer 0, no rank reaches the number of nodes, and
/// every forward edge leads at least one layer further.
pub proof fn lemma_ranks_layered(count: int, e: Seq<(int, int)>)
    requires
        0 <= count <= usize::MAX,
        edges_in(count, e),
    ensures
        spec_ranks(count, e).len() == count,
        forall|v: int| 0 <= v < count ==> 0 <= #[trigger] spec_ranks(count, e)[v] < count,
        forall|v: int| 0 <= v < count && forward_indeg(count, e)[v] == 0 ==> #[trigger] spec_ranks(count, e)[v] == 0,
        forall|u: int, j: int|
            0 <= u < count && 0 <= j < forward_targets(count, e)[u].len() ==> #[trigger] spec_ranks(
                count,
                e,
            )[forward_targets(count, e)[u][j]] >= spec_ranks(count, e)[u] + 1,
{
    let fwd = forward_targets(count, e);
    let d = forward_indeg(count, e);
    let init = KahnV { queue: sources_prefix(d, count), head: 0, rank: Seq::new(count as nat, |i: int| 0int), indeg: d };
    lemma_kahn_start(count, e);
    lemma_kahn(fwd, count, d, init);
    lemma_all_settled(count, e);
    let r = kahn_run(count, e);
    assert(r == kahn(fwd, init));
    assert(spec_ranks(count, e) == r.rank);
    assert forall|u: int, j: int| 0 <= u < count && 0 <= j < fwd[u].len() implies #[trigger] spec_ranks(count, e)[fwd[u][j]] >= spec_ranks(count, e)[u] + 1 by {
        assert(settled(count, e).contains(u));
        let i = choose|i: int| 0 <= i < r.queue.len() && r.queue[i] == u;
        assert(0 <= j < fwd[r.queue[i]].len());
        assert(r.rank[fwd[r.queue[i]][j]] >= r.rank[r.queue[i]] + 1);
    }
}

// ---------------------------------------------------------------------------
// Every node is settled
// ---------------------------------------------------------------------------

/// A forward edge is an edge of the graph that is not a back edge.
proof fn lemma_fwd_from_adj(count: int, e: Seq<(int, int)>, back: Seq<(int, int)>, k: int, u: int, j: int)
    requires
        0 <= count,
        edges_in(count, e),
        0 <= k <= e.len(),
        0 <= u < count,
        0 <= j < fwd_prefix(count, e, back, k)[u].len(),
    ensures
        exists|i: int|
            0 <= i < adj_prefix(count, e, k)[u].len() && #[trigger] adj_prefix(count, e, k)[u][i] == fwd_prefix(
                count,
                e,
                back,
                k,
            )[u][j],
        !back.contains((u, fwd_prefix(count, e, back, k)[u][j])),
    decreases k,
{
    lemma_fwd_len(count, e, back, k);
    lemma_adj_len(count, e, k);
    if k > 0 {
        lemma_fwd_len(count, e, back, k - 1);
        lemma_adj_len(count, e, k - 1);
        let (a, b) = e[k - 1];
        assert(0 <= e[k - 1].0 < count && 0 <= e[k - 1].1 < count);
        let f0 = fwd_prefix(count, e, back, k - 1);
        let a0 = adj_prefix(count, e, k - 1);
        let f = fwd_prefix(count, e, back, k);
        let ad = adj_prefix(count, e, k);
        if u == a && !back.contains((a, b)) && j == f0[u].len() {
            assert(f[u][j] == b);
            assert(ad[u][a0[u].len() as int] == b);
        } else {
            assert(j < f0[u].len());
            assert(f[u][j] == f0[u][j]);
            lemma_fwd_from_adj(count, e, back, k - 1, u, j);
            let i = choose|i: int| 0 <= i < a0[u].len() && #[trigger] a0[u][i] == f0[u][j];
            assert(ad[u][i] == a0[u][i]);
        }
    }
}

/// Every forward edge leads to a node the search finished earlier.
proof fn lemma_forward_finished(count: int, e: Seq<(int, int)>, u: int, j: int)
    requires
        0 <= count,
        edges_in(count, e),
        0 <= u < count,
        0 <= j < forward_targets(count, e)[u].len(),
    ensures
        finished_before(finish_order(count, e), forward_targets(count, e)[u][j], u),
{
    let back = back_edges_of(count, e);
    lemma_fwd_from_adj(count, e, back, e.len() as int, u, j);
    lemma_finish_order(count, e);
    let adj = adj_of(count, e);
    let x = forward_targets(count, e)[u][j];
    let i = choose|i: int| 0 <= i < adj[u].len() && #[trigger] adj[u][i] == x;
    assert(back.contains((u, adj[u][i])) || finished_before(finish_order(count, e), adj[u][i], u));
}

/// A node with unprocessed incoming forward edges has a source among the
/// nodes not yet done.
proof fn lemma_pending_witness(fwd: Seq<Seq<int>>, done: Set<int>, v: int, n: int)
    requires
        pending(fwd, done, v, n) > 0,
    ensures
        exists|u: int| 0 <= u < n && !done.contains(u) && #[trigger] occ(fwd[u], v) > 0,
    decreases n,
{
    if n > 0 {
        if pending(fwd, done, v, n - 1) > 0 {
            lemma_pending_witness(fwd, done, v, n - 1);
            let u = choose|u: int| 0 <= u < n - 1 && !done.contains(u) && #[trigger] occ(fwd[u], v) > 0;
            assert(0 <= u < n && !done.contains(u) && occ(fwd[u], v) > 0);
        } else {
            assert(!done.contains(n - 1) && occ(fwd[n - 1], v) > 0);
        }
    }
}

proof fn lemma_occ_pos(s: Seq<int>, v: int)
    requires
        occ(s, v) > 0,
    ensures
        exists|j: int| 0 <= j < s.len() && #[trigger] s[j] == v,
    decreases s.len(),
{
    if s.last() != v {
        lemma_occ_pos(s.drop_last(), v);
        let j = choose|j: int| 0 <= j < s.drop_last().len() && #[trigger] s.drop_last()[j] == v;
        assert(s[j] == v);
    } else {
        assert(s[s.len() - 1] == v);
    }
}

/// Nodes whose count of unprocessed incoming forward edges is zero are
/// queued.
pub open spec fn zeros_queued(count: int, st: KahnV) -> bool {
    forall|w: int| 0 <= w < count && #[trigger] st.indeg[w] == 0 ==> st.queue.contains(w)
}

proof fn lemma_relax_zeros(fwd: Seq<Seq<int>>, count: int, d0: Seq<int>, st: KahnV, k: int)
    requires
        kahn_inv(fwd, count, d0, st),
        st.head < st.queue.len(),
        0 <= k <= fwd[st.queue[st.head]].len(),
        zeros_queued(count, st),
    ensures
        zeros_queued(
            count,
            relax(fwd[st.queue[st.head]], k, st.queue[st.head], KahnV { head: st.head + 1, ..st }),
        ),
    decreases k,
{
    let u = st.queue[st.head];
    let targets = fwd[u];
    let st0 = KahnV { head: st.head + 1, ..st };
    if k > 0 {
        lemma_relax_zeros(fwd, count, d0, st, k - 1);
        lemma_relax(fwd, count, d0, st, k - 1);
        lemma_relax(fwd, count, d0, st, k);
        let s1 = relax(targets, k - 1, u, st0);
        let s = relax(targets, k, u, st0);
        let v = targets[k - 1];
        assert(0 <= v < count);
        assert(0 <= u < count);
        assert forall|w: int| 0 <= w < count && #[trigger] s.indeg[w] == 0 implies s.queue.contains(w) by {
            lemma_occ_take(targets, k, w);
            if w != v {
                assert(s.indeg[w] == s1.indeg[w]);
                assert(s1.queue.contains(w));
                let i = choose|i: int| 0 <= i < s1.queue.len() && s1.queue[i] == w;
                if s.queue != s1.queue {
                    assert(s.queue == s1.queue.push(v));
                    assert(s.queue[i] == w);
                }
            } else {
                assert(s1.indeg[v] == 1);
                assert(s.queue == s1.queue.push(v));
                assert(s.queue[s1.queue.len() as int] == v);
            }
        }
    }
}

proof fn lemma_kahn_zeros(fwd: Seq<Seq<int>>, count: int, d0: Seq<int>, st: KahnV)
    requires
        kahn_inv(fwd, count, d0, st),
        zeros_queued(count, st),
    ensures
        zeros_queued(count, kahn(fwd, st)),
    decreases kahn_measure(st),
{
    if st.head < st.queue.len() {
        let u = st.queue[st.head];
        lemma_kahn_step(fwd, count, d0, st);
        lemma_relax_zeros(fwd, count, d0, st, fwd[u].len() as int);
        let s = relax(fwd[u], fwd[u].len() as int, u, KahnV { head: st.head + 1, ..st });
        lemma_kahn_zeros(fwd, count, d0, s);
    }
}

/// Where the ranking stops, the nodes the search finished at positions
/// `p` and later are settled.
proof fn lemma_settled_from(count: int, e: Seq<(int, int)>, p: int)
    requires
        0 <= count <= usize::MAX,
        edges_in(count, e),
        0 <= p <= finish_order(count, e).len(),
    ensures
        forall|q: int| p <= q < finish_order(count, e).len() ==> #[trigger] settled(count, e).contains(
            finish_order(count, e)[q],
        ),
    decreases finish_order(count, e).len() - p,
{
    let done = finish_order(count, e);
    if p < done.len() {
        lemma_settled_from(count, e, p + 1);
        let fwd = forward_targets(count, e);
        let d = forward_indeg(count, e);
        let init = KahnV { queue: sources_prefix(d, count), head: 0, rank: Seq::new(count as nat, |i: int| 0int), indeg: d };
        lemma_kahn_start(count, e);
        lemma_kahn(fwd, count, d, init);
        lemma_sources_shape(d, count);
        lemma_kahn_zeros(fwd, count, d, init);
        lemma_finish_order(count, e);
        let r = kahn(fwd, init);
        assert(r == kahn_run(count, e));
        let x = done[p];
        assert(0 <= x < count);
        if !r.queue.contains(x) {
            assert(r.indeg[x] != 0);
            assert(r.queue.take(r.head) =~= r.queue);
            let qs = r.queue.to_set();
            assert(r.indeg[x] == pending(fwd, qs, x, count));
            lemma_pending_witness(fwd, qs, x, count);
            let u = choose|u: int| 0 <= u < count && !qs.contains(u) && #[trigger] occ(fwd[u], x) > 0;
            lemma_occ_pos(fwd[u], x);
            let j = choose|j: int| 0 <= j < fwd[u].len() && #[trigger] fwd[u][j] == x;
            lemma_forward_finished(count, e, u, j);
            let (a, b) = choose|a: int, b: int| 0 <= a < b < done.len() && done[a] == x && done[b] == u;
            assert(a == p) by {
                if a != p {
                    assert(done[a] != done[p]);
                }
            }
            assert(settled(count, e).contains(done[b]));
            assert(r.queue.contains(u));
            assert(false);
        }
    }
}

/// Every node is settled: the forward edges form no cycle, so the ranking
/// reaches every node.
pub proof fn lemma_all_settled(count: int, e: Seq<(int, int)>)
    requires
        0 <= count <= usize::MAX,
        edges_in(count, e),
    ensures
        forall|x: int| 0 <= x < count ==> #[trigger] settled(count, e).contains(x),
{
    lemma_settled_from(count, e, 0);
    lemma_finish_order(count, e);
    let done = finish_order(count, e);
    assert forall|x: int| 0 <= x < count implies #[trigger] settled(count, e).contains(x) by {
        assert(done.contains(x));
        let q = choose|q: int| 0 <= q < done.len() && done[q] == x;
        assert(settled(count, e).contains(done[q]));
    }
}

// ---------------------------------------------------------------------------
// Ranks are exactly the longest paths
// ---------------------------------------------------------------------------

/// Every node with a positive rank got it from an already taken node one
/// forward edge before it.
pub open spec fn ranks_tight(fwd: Seq<Seq<int>>, count: int, st: KahnV) -> bool {
    forall|v: int|
        0 <= v < count && #[trigger] st.rank[v] > 0 ==> exists|i: int, j: int|
            0 <= i < st.head && 0 <= j < fwd[st.queue[i]].len() && #[trigger] fwd[st.queue[i]][j] == v
                && st.rank[v] == st.rank[st.queue[i]] + 1
}

proof fn lemma_relax_tight(fwd: Seq<Seq<int>>, count: int, d0: Seq<int>, st: KahnV, k: int)
    requires
        kahn_inv(fwd, count, d0, st),
        st.head < st.queue.len(),
        0 <= k <= fwd[st.queue[st.head]].len(),
        ranks_tight(fwd, count, st),
    ensures
        ranks_tight(
            fwd,
            count,
            relax(fwd[st.queue[st.head]], k, st.queue[st.head], KahnV { head: st.head + 1, ..st }),
        ),
    decreases k,
{
    let u = st.queue[st.head];
    let targets = fwd[u];
    let st0 = KahnV { head: st.head + 1, ..st };
    let done = st.queue.take(st.head).to_set();
    if k == 0 {
        assert forall|v: int| 0 <= v < count && #[trigger] st0.rank[v] > 0 implies exists|i: int, j: int|
            0 <= i < st0.head && 0 <= j < fwd[st0.queue[i]].len() && #[trigger] fwd[st0.queue[i]][j] == v
                && st0.rank[v] == st0.rank[st0.queue[i]] + 1 by {
            let (i, j) = choose|i: int, j: int|
                0 <= i < st.head && 0 <= j < fwd[st.queue[i]].len() && #[trigger] fwd[st.queue[i]][j] == v
                    && st.rank[v] == st.rank[st.queue[i]] + 1;
            assert(fwd[st0.queue[i]][j] == v);
        }
    } else {
        lemma_relax_tight(fwd, count, d0, st, k - 1);
        lemma_relax(fwd, count, d0, st, k - 1);
        lemma_relax(fwd, count, d0, st, k);
        let s1 = relax(targets, k - 1, u, st0);
        let s = relax(targets, k, u, st0);
        let v = targets[k - 1];
        assert(0 <= v < count);
        assert(0 <= u < count);
        lemma_pending_insert(fwd, done, u, u, count);
        lemma_occ_take_le(targets, k - 1, u);
        assert(st.indeg[u] == 0);
        assert(s1.rank[u] == st.rank[u]);
        assert(s1.indeg[v] >= 1) by {
            assert(!done.contains(u)) by {
                if done.contains(u) {
                    let i = choose|i: int| 0 <= i < st.queue.take(st.head).len() && st.queue.take(st.head)[i] == u;
                    assert(st.queue[i] == st.queue[st.head]);
                }
            }
            lemma_pending_insert(fwd, done, u, v, count);
            lemma_occ_take(targets, k, v);
            lemma_occ_take_le(targets, k, v);
        }
        let up = st.rank[u] + 1;
        assert(s.rank == s1.rank.update(v, if s1.rank[v] >= up { s1.rank[v] } else { up }));
        assert(s.queue.take(s1.queue.len() as int) =~= s1.queue) by {
            if s.queue != s1.queue {
                assert(s.queue == s1.queue.push(v));
            }
        }
        assert forall|w: int| 0 <= w < count && #[trigger] s.rank[w] > 0 implies exists|i: int, j: int|
            0 <= i < s.head && 0 <= j < fwd[s.queue[i]].len() && #[trigger] fwd[s.queue[i]][j] == w
                && s.rank[w] == s.rank[s.queue[i]] + 1 by {
            if w == v && s1.rank[v] < up {
                assert(s.queue[st.head] == s.queue.take(s1.queue.len() as int)[st.head]);
                assert(s.queue[st.head] == u);
                assert(fwd[s.queue[st.head]][k - 1] == w);
                assert(s.rank[u] == st.rank[u]);
            } else {
                assert(s.rank[w] == s1.rank[w]);
                let (i, j) = choose|i: int, j: int|
                    0 <= i < s1.head && 0 <= j < fwd[s1.queue[i]].len() && #[trigger] fwd[s1.queue[i]][j] == w
                        && s1.rank[w] == s1.rank[s1.queue[i]] + 1;
                let q = s1.queue[i];
                assert(s.queue[i] == s.queue.take(s1.queue.len() as int)[i]);
                assert(s.queue[i] == q);
                assert(s1.indeg[q] == 0);
                assert(q != v);
                assert(s.rank[q] == s1.rank[q]);
                assert(fwd[s.queue[i]][j] == w);
            }
        }
    }
}

proof fn lemma_kahn_tight(fwd: Seq<Seq<int>>, count: int, d0: Seq<int>, st: KahnV)
    requires
        kahn_inv(fwd, count, d0, st),
        ranks_tight(fwd, count, st),
    ensures
        ranks_tight(fwd, count, kahn(fwd, st)),
    decreases kahn_measure(st),
{
    if st.head < st.queue.len() {
        let u = st.queue[st.head];
        lemma_kahn_step(fwd, count, d0, st);
        lemma_relax_tight(fwd, count, d0, st, fwd[u].len() as int);
        let s = relax(fwd[u], fwd[u].len() as int, u, KahnV { head: st.head + 1, ..st });
        lemma_kahn_tight(fwd, count, d0, s);
    }
}

/// Ranks are exactly longest-path lengths: a node with a positive rank has
/// a forward predecessor exactly one layer above it, and (by
/// [`lemma_ranks_layered`]) none further down, so its rank is one more
/// than the largest rank among its forward predecessors.
pub proof fn lemma_ranks_tight(count: int, e: Seq<(int, int)>)
    requires
        0 <= count <= usize::MAX,
        edges_in(count, e),
    ensures
        forall|v: int|
            0 <= v < count && #[trigger] spec_ranks(count, e)[v] > 0 ==> exists|u: int, j: int|
                0 <= u < count && 0 <= j < forward_targets(count, e)[u].len() && #[trigger] forward_targets(
                    count,
                    e,
                )[u][j] == v && spec_ranks(count, e)[v] == spec_ranks(count, e)[u] + 1,
{
    let fwd = forward_targets(count, e);
    let d = forward_indeg(count, e);
    let init = KahnV { queue: sources_prefix(d, count), head: 0, rank: Seq::new(count as nat, |i: int| 0int), indeg: d };
    lemma_kahn_start(count, e);
    lemma_kahn(fwd, count, d, init);
    lemma_kahn_tight(fwd, count, d, init);
    let r = kahn_run(count, e);
    assert(r == kahn(fwd, init));
    assert forall|v: int| 0 <= v < count && #[trigger] spec_ranks(count, e)[v] > 0 implies exists|u: int, j: int|
        0 <= u < count && 0 <= j < fwd[u].len() && #[trigger] fwd[u][j] == v && spec_ranks(count, e)[v]
            == spec_ranks(count, e)[u] + 1 by {
        let (i, j) = choose|i: int, j: int|
            0 <= i < r.head && 0 <= j < fwd[r.queue[i]].len() && #[trigger] fwd[r.queue[i]][j] == v
                && r.rank[v] == r.rank[r.queue[i]] + 1;
        let u = r.queue[i];
        assert(0 <= u < count);
        assert(fwd[u][j] == v);
    }
}

} // verus!
