//! Flowchart ranks: the layer each node is drawn in.
//!
//! Back edges found by a depth-first search (cycles such as a
//! Debug→diamond loop) are set aside; the remaining forward edges are
//! ranked by longest path from the sources, breadth first.

use vstd::prelude::*;
use super::FEdge;

pub mod finish;
pub mod laws;

verus! {

// ---------------------------------------------------------------------------
// Graph shape
// ---------------------------------------------------------------------------

/// The `(from, to)` pairs of the edges.
pub open spec fn pairs_of(edges: Seq<FEdge>) -> Seq<(int, int)> {
    Seq::new(edges.len(), |i: int| (edges[i].from as int, edges[i].to as int))
}

/// Every edge joins two of the `count` nodes.
pub open spec fn edges_in(count: int, e: Seq<(int, int)>) -> bool {
    forall|i: int| 0 <= i < e.len() ==> 0 <= #[trigger] e[i].0 < count && 0 <= e[i].1 < count
}

/// Targets of the first `k` edges, listed per source node in edge order.
pub open spec fn adj_prefix(count: int, e: Seq<(int, int)>, k: int) -> Seq<Seq<int>>
    decreases k,
{
    if k <= 0 || k > e.len() {
        Seq::new(count as nat, |u: int| Seq::<int>::empty())
    } else {
        let a = adj_prefix(count, e, k - 1);
        let (u, v) = e[k - 1];
        if 0 <= u < a.len() {
            a.update(u, a[u].push(v))
        } else {
            a
        }
    }
}

pub open spec fn adj_of(count: int, e: Seq<(int, int)>) -> Seq<Seq<int>> {
    adj_prefix(count, e, e.len() as int)
}

// ---------------------------------------------------------------------------
// Depth-first search for back edges
// ---------------------------------------------------------------------------

/// Search state: a color per node (0 unvisited, 1 on the stack, 2 done)
/// and the back edges found, in order.
pub struct DfsV {
    pub color: Seq<u8>,
    pub back: Seq<(int, int)>,
}

/// Number of unvisited nodes.
pub open spec fn whites(c: Seq<u8>) -> nat
    decreases c.len(),
{
    if c.len() == 0 {
        0
    } else {
        whites(c.drop_last()) + if c.last() == 0 {
            1nat
        } else {
            0nat
        }
    }
}

pub proof fn lemma_whites_update(c: Seq<u8>, i: int, x: u8)
    requires
        0 <= i < c.len(),
        x != 0,
    ensures
        c[i] == 0 ==> whites(c.update(i, x)) + 1 == whites(c),
        c[i] != 0 ==> whites(c.update(i, x)) == whites(c),
    decreases c.len(),
{
    if i < c.len() - 1 {
        lemma_whites_update(c.drop_last(), i, x);
        assert(c.update(i, x).drop_last() =~= c.drop_last().update(i, x));
    } else {
        assert(c.update(i, x).drop_last() =~= c.drop_last());
    }
}

/// Visit `u`: mark it on the stack, search its out-edges, mark it done.
pub open spec fn dfs(adj: Seq<Seq<int>>, u: int, st: DfsV) -> DfsV
    decreases whites(st.color), 0int, 0int,
{
    if 0 <= u < st.color.len() && st.color[u] == 0 && u < adj.len() {
        let st1 = DfsV { color: st.color.update(u, 1), ..st };
        proof {
            lemma_whites_update(st.color, u, 1);
        }
        let st2 = dfs_edges(adj, u, 0, st1);
        if 0 <= u < st2.color.len() {
            DfsV { color: st2.color.update(u, 2), ..st2 }
        } else {
            st2
        }
    } else {
        st
    }
}

/// Search the out-edges `adj[u][k..]` of `u`.
pub open spec fn dfs_edges(adj: Seq<Seq<int>>, u: int, k: int, st: DfsV) -> DfsV
    decreases whites(st.color), 1int, adj[u].len() - k,
{
    if 0 <= u < adj.len() && 0 <= k < adj[u].len() {
        let v = adj[u][k];
        if 0 <= v < st.color.len() && st.color[v] == 0 {
            let st1 = dfs(adj, v, st);
            if whites(st1.color) <= whites(st.color) {
                dfs_edges(adj, u, k + 1, st1)
            } else {
                st1
            }
        } else if 0 <= v < st.color.len() && st.color[v] == 1 {
            dfs_edges(adj, u, k + 1, DfsV { back: st.back.push((u, v)), ..st })
        } else {
            dfs_edges(adj, u, k + 1, st)
        }
    } else {
        st
    }
}

/// Searches from every node still unvisited, in index order, from `i`.
pub open spec fn dfs_all(adj: Seq<Seq<int>>, i: int, st: DfsV) -> DfsV
    decreases adj.len() - i,
{
    if 0 <= i < adj.len() {
        if i < st.color.len() && st.color[i] == 0 {
            dfs_all(adj, i + 1, dfs(adj, i, st))
        } else {
            dfs_all(adj, i + 1, st)
        }
    } else {
        st
    }
}

/// The back edges of a depth-first search of the graph.
pub open spec fn back_edges_of(count: int, e: Seq<(int, int)>) -> Seq<(int, int)> {
    dfs_all(
        adj_of(count, e),
        0,
        DfsV { color: Seq::new(count as nat, |i: int| 0u8), back: Seq::empty() },
    ).back
}

proof fn lemma_dfs_whites(adj: Seq<Seq<int>>, u: int, st: DfsV)
    ensures
        whites(dfs(adj, u, st).color) <= whites(st.color),
        dfs(adj, u, st).color.len() == st.color.len(),
    decreases whites(st.color), 0int, 0int,
{
    if 0 <= u < st.color.len() && st.color[u] == 0 && u < adj.len() {
        let st1 = DfsV { color: st.color.update(u, 1), ..st };
        lemma_whites_update(st.color, u, 1);
        lemma_dfs_edges_whites(adj, u, 0, st1);
        let st2 = dfs_edges(adj, u, 0, st1);
        lemma_whites_update(st2.color, u, 2);
    }
}

proof fn lemma_dfs_edges_whites(adj: Seq<Seq<int>>, u: int, k: int, st: DfsV)
    ensures
        whites(dfs_edges(adj, u, k, st).color) <= whites(st.color),
        dfs_edges(adj, u, k, st).color.len() == st.color.len(),
    decreases whites(st.color), 1int, adj[u].len() - k,
{
    if 0 <= u < adj.len() && 0 <= k < adj[u].len() {
        let v = adj[u][k];
        if 0 <= v < st.color.len() && st.color[v] == 0 {
            lemma_dfs_whites(adj, v, st);
            let st1 = dfs(adj, v, st);
            lemma_dfs_edges_whites(adj, u, k + 1, st1);
        } else if 0 <= v < st.color.len() && st.color[v] == 1 {
            lemma_dfs_edges_whites(adj, u, k + 1, DfsV { back: st.back.push((u, v)), ..st });
        } else {
            lemma_dfs_edges_whites(adj, u, k + 1, st);
        }
    }
}

// ---------------------------------------------------------------------------
// Longest-path ranks over the forward edges
// ---------------------------------------------------------------------------

/// Forward targets (edges that are not back edges) of the first `k` edges,
/// per source node in edge order.
pub open spec fn fwd_prefix(count: int, e: Seq<(int, int)>, back: Seq<(int, int)>, k: int) -> Seq<Seq<int>>
    decreases k,
{
    if k <= 0 || k > e.len() {
        Seq::new(count as nat, |u: int| Seq::<int>::empty())
    } else {
        let a = fwd_prefix(count, e, back, k - 1);
        let (u, v) = e[k - 1];
        if back.contains((u, v)) || !(0 <= u < a.len()) {
            a
        } else {
            a.update(u, a[u].push(v))
        }
    }
}

/// Number of forward edges into each node among the first `k` edges.
pub open spec fn indeg_prefix(count: int, e: Seq<(int, int)>, back: Seq<(int, int)>, k: int) -> Seq<int>
    decreases k,
{
    if k <= 0 || k > e.len() {
        Seq::new(count as nat, |u: int| 0int)
    } else {
        let d = indeg_prefix(count, e, back, k - 1);
        let (u, v) = e[k - 1];
        if back.contains((u, v)) || !(0 <= v < d.len()) {
            d
        } else {
            d.update(v, d[v] + 1)
        }
    }
}

/// The nodes among the first `k` with no incoming forward edge, in order.
pub open spec fn sources_prefix(indeg: Seq<int>, k: int) -> Seq<int>
    decreases k,
{
    if k <= 0 || k > indeg.len() {
        Seq::empty()
    } else if indeg[k - 1] == 0 {
        sources_prefix(indeg, k - 1).push(k - 1)
    } else {
        sources_prefix(indeg, k - 1)
    }
}

/// Breadth-first ranking state: the queue and how far it has been taken,
/// each node's rank, and each node's unprocessed incoming forward edges.
pub struct KahnV {
    pub queue: Seq<int>,
    pub head: int,
    pub rank: Seq<int>,
    pub indeg: Seq<int>,
}

/// Number of nodes with unprocessed incoming edges.
pub open spec fn positives(d: Seq<int>) -> nat
    decreases d.len(),
{
    if d.len() == 0 {
        0
    } else {
        positives(d.drop_last()) + if d.last() > 0 {
            1nat
        } else {
            0nat
        }
    }
}

pub proof fn lemma_positives_update(d: Seq<int>, i: int, x: int)
    requires
        0 <= i < d.len(),
    ensures
        d[i] > 0 && x > 0 ==> positives(d.update(i, x)) == positives(d),
        d[i] > 0 && x <= 0 ==> positives(d.update(i, x)) + 1 == positives(d),
        d[i] <= 0 && x <= 0 ==> positives(d.update(i, x)) == positives(d),
    decreases d.len(),
{
    if i < d.len() - 1 {
        lemma_positives_update(d.drop_last(), i, x);
        assert(d.update(i, x).drop_last() =~= d.drop_last().update(i, x));
    } else {
        assert(d.update(i, x).drop_last() =~= d.drop_last());
    }
}

/// Relax the first `k` forward edges `u -> targets[..k]`: each target's
/// rank becomes at least one more than `u`'s (saturating at `usize::MAX`),
/// and a target whose last incoming edge this was joins the queue.
pub open spec fn relax(targets: Seq<int>, k: int, u: int, st: KahnV) -> KahnV
    decreases k,
{
    if k <= 0 || k > targets.len() {
        st
    } else {
        let s = relax(targets, k - 1, u, st);
        let v = targets[k - 1];
        if 0 <= v < s.rank.len() && 0 <= u < s.rank.len() && v < s.indeg.len() {
            let up = if s.rank[u] < usize::MAX {
                s.rank[u] + 1
            } else {
                s.rank[u]
            };
            let r = if s.rank[v] >= up {
                s.rank[v]
            } else {
                up
            };
            if s.indeg[v] > 0 {
                KahnV {
                    rank: s.rank.update(v, r),
                    indeg: s.indeg.update(v, s.indeg[v] - 1),
                    queue: if s.indeg[v] == 1 {
                        s.queue.push(v)
                    } else {
                        s.queue
                    },
                    ..s
                }
            } else {
                KahnV { rank: s.rank.update(v, r), ..s }
            }
        } else {
            s
        }
    }
}

/// What is left to do: nodes still waiting plus queued nodes not taken.
pub open spec fn kahn_measure(st: KahnV) -> int {
    positives(st.indeg) + st.queue.len() - st.head
}

/// Take queued nodes in order until the queue is exhausted.
pub open spec fn kahn(fwd: Seq<Seq<int>>, st: KahnV) -> KahnV
    decreases kahn_measure(st),
{
    if 0 <= st.head < st.queue.len() && kahn_measure(st) >= 0 {
        let u = st.queue[st.head];
        let targets = if 0 <= u < fwd.len() {
            fwd[u]
        } else {
            Seq::empty()
        };
        let st1 = relax(targets, targets.len() as int, u, KahnV { head: st.head + 1, ..st });
        if 0 <= kahn_measure(st1) < kahn_measure(st) {
            kahn(fwd, st1)
        } else {
            st1
        }
    } else {
        st
    }
}

/// The rank of every node: longest path from a source over forward edges,
/// back edges of a depth-first search set aside.
pub open spec fn spec_ranks(count: int, e: Seq<(int, int)>) -> Seq<int> {
    let back = back_edges_of(count, e);
    let fwd = fwd_prefix(count, e, back, e.len() as int);
    let indeg = indeg_prefix(count, e, back, e.len() as int);
    kahn(
        fwd,
        KahnV {
            queue: sources_prefix(indeg, count),
            head: 0,
            rank: Seq::new(count as nat, |i: int| 0int),
            indeg,
        },
    ).rank
}

// ---------------------------------------------------------------------------
// Executable ranking
// ---------------------------------------------------------------------------

/// Rows of node indices as integers.
pub open spec fn rows_v(a: Seq<Vec<usize>>) -> Seq<Seq<int>> {
    Seq::new(a.len(), |u: int| Seq::new(a[u]@.len(), |j: int| a[u]@[j] as int))
}

/// Appends `v` to row `u`.
fn push_to_row(a: &mut Vec<Vec<usize>>, u: usize, v: usize)
    requires
        u < old(a).len(),
    ensures
        rows_v(final(a)@) == rows_v(old(a)@).update(u as int, rows_v(old(a)@)[u as int].push(v as int)),
        final(a)@.len() == old(a)@.len(),
{
    let ghost before = rows_v(a@);
    let mut row = a[u].clone();
    assert(row@ == a@[u as int]@);
    row.push(v);
    a.set(u, row);
    assert(rows_v(a@)[u as int] =~= before[u as int].push(v as int));
    assert(rows_v(a@) =~= before.update(u as int, before[u as int].push(v as int)));
}

/// `count` empty rows.
fn empty_rows(count: usize) -> (a: Vec<Vec<usize>>)
    ensures
        rows_v(a@) == Seq::new(count as nat, |u: int| Seq::<int>::empty()),
        a@.len() == count,
{
    let mut a: Vec<Vec<usize>> = Vec::new();
    let mut i: usize = 0;
    while i < count
        invariant
            i <= count,
            a@.len() == i,
            forall|u: int| 0 <= u < i ==> (#[trigger] a@[u])@.len() == 0,
        decreases count - i,
    {
        a.push(Vec::new());
        i += 1;
    }
    assert forall|u: int| 0 <= u < count implies #[trigger] rows_v(a@)[u] =~= Seq::<int>::empty() by {}
    assert(rows_v(a@) =~= Seq::new(count as nat, |u: int| Seq::<int>::empty()));
    a
}

/// Out-edge targets per node, in edge order.
fn adjacency(count: usize, edges: &[FEdge]) -> (a: Vec<Vec<usize>>)
    requires
        edges_in(count as int, pairs_of(edges@)),
    ensures
        rows_v(a@) == adj_of(count as int, pairs_of(edges@)),
        a@.len() == count,
{
    let ghost e = pairs_of(edges@);
    let mut a = empty_rows(count);
    let mut k: usize = 0;
    while k < edges.len()
        invariant
            k <= edges.len(),
            e == pairs_of(edges@),
            edges_in(count as int, e),
            a@.len() == count,
            rows_v(a@) == adj_prefix(count as int, e, k as int),
        decreases edges.len() - k,
    {
        assert(e[k as int] == (edges@[k as int].from as int, edges@[k as int].to as int));
        assert(0 <= e[k as int].0 < count && 0 <= e[k as int].1 < count);
        push_to_row(&mut a, edges[k].from, edges[k].to);
        k += 1;
    }
    a
}

/// Every row entry names one of the rows.
pub open spec fn rows_in(a: Seq<Vec<usize>>) -> bool {
    forall|u: int, j: int| 0 <= u < a.len() && 0 <= j < a[u]@.len() ==> #[trigger] a[u]@[j] < a.len()
}

pub open spec fn back_v(b: Seq<(usize, usize)>) -> Seq<(int, int)> {
    Seq::new(b.len(), |i: int| (b[i].0 as int, b[i].1 as int))
}

/// Depth-first visit of `u` (see [`dfs`]).
fn dfs_visit(adj: &Vec<Vec<usize>>, u: usize, color: &mut Vec<u8>, back: &mut Vec<(usize, usize)>)
    requires
        u < old(color)@.len(),
        old(color)@[u as int] == 0,
        adj@.len() == old(color)@.len(),
        rows_in(adj@),
    ensures
        (DfsV { color: final(color)@, back: back_v(final(back)@) }) == dfs(
            rows_v(adj@),
            u as int,
            DfsV { color: old(color)@, back: back_v(old(back)@) },
        ),
    decreases whites(old(color)@),
{
    let ghost a = rows_v(adj@);
    let ghost st0 = DfsV { color: color@, back: back_v(back@) };
    color.set(u, 1);
    let ghost st1 = DfsV { color: color@, back: back_v(back@) };
    proof {
        lemma_whites_update(st0.color, u as int, 1);
        assert(st1 == DfsV { color: st0.color.update(u as int, 1), ..st0 });
    }
    let n = adj[u].len();
    let mut k: usize = 0;
    while k < n
        invariant
            k <= n,
            n == adj@[u as int]@.len(),
            u < color@.len(),
            a == rows_v(adj@),
            adj@.len() == color@.len(),
            rows_in(adj@),
            whites(color@) < whites(st0.color),
            st0.color == old(color)@,
            dfs_edges(a, u as int, 0, st1) == dfs_edges(a, u as int, k as int, DfsV { color: color@, back: back_v(back@) }),
        decreases n - k,
    {
        let v = adj[u][k];
        assert(a[u as int][k as int] == v as int);
        let ghost cur = DfsV { color: color@, back: back_v(back@) };
        if color[v] == 0 {
            dfs_visit(adj, v, color, back);
            proof {
                lemma_dfs_whites(a, v as int, cur);
            }
        } else if color[v] == 1 {
            let ghost b = back@;
            back.push((u, v));
            assert(back_v(back@) =~= back_v(b).push((u as int, v as int)));
        }
        k += 1;
    }
    proof {
        lemma_dfs_edges_whites(a, u as int, 0, st1);
    }
    color.set(u, 2);
}

/// The back edges of a depth-first search from every node in order.
fn back_edges(adj: &Vec<Vec<usize>>) -> (back: Vec<(usize, usize)>)
    requires
        rows_in(adj@),
    ensures
        back_v(back@) == dfs_all(
            rows_v(adj@),
            0,
            DfsV { color: Seq::new(adj@.len() as nat, |i: int| 0u8), back: Seq::empty() },
        ).back,
{
    let ghost a = rows_v(adj@);
    let mut color: Vec<u8> = Vec::new();
    let mut i: usize = 0;
    while i < adj.len()
        invariant
            i <= adj.len(),
            color@ == Seq::new(i as nat, |j: int| 0u8),
        decreases adj.len() - i,
    {
        color.push(0);
        assert(color@ =~= Seq::new((i + 1) as nat, |j: int| 0u8));
        i += 1;
    }
    let mut back: Vec<(usize, usize)> = Vec::new();
    assert(back_v(back@) =~= Seq::<(int, int)>::empty());
    let ghost init = DfsV { color: color@, back: back_v(back@) };
    let mut i: usize = 0;
    while i < adj.len()
        invariant
            i <= adj.len(),
            a == rows_v(adj@),
            rows_in(adj@),
            color@.len() == adj@.len(),
            dfs_all(a, 0, init) == dfs_all(a, i as int, DfsV { color: color@, back: back_v(back@) }),
        decreases adj.len() - i,
    {
        if color[i] == 0 {
            let ghost cur = DfsV { color: color@, back: back_v(back@) };
            dfs_visit(adj, i, &mut color, &mut back);
            proof {
                lemma_dfs_whites(a, i as int, cur);
            }
        }
        i += 1;
    }
    back
}

pub open spec fn ints(d: Seq<usize>) -> Seq<int> {
    Seq::new(d.len(), |i: int| d[i] as int)
}

/// Whether `(u, v)` is among the back edges.
fn is_back(back: &Vec<(usize, usize)>, u: usize, v: usize) -> (b: bool)
    ensures
        b == back_v(back@).contains((u as int, v as int)),
{
    let mut i: usize = 0;
    while i < back.len()
        invariant
            i <= back.len(),
            forall|j: int| 0 <= j < i ==> back_v(back@)[j] != (u as int, v as int),
        decreases back.len() - i,
    {
        if back[i].0 == u && back[i].1 == v {
            assert(back_v(back@)[i as int] == (u as int, v as int));
            return true;
        }
        i += 1;
    }
    false
}

/// `count` zeros.
fn zeros(count: usize) -> (d: Vec<usize>)
    ensures
        ints(d@) == Seq::new(count as nat, |i: int| 0int),
        d@.len() == count,
{
    let mut d: Vec<usize> = Vec::new();
    let mut i: usize = 0;
    while i < count
        invariant
            i <= count,
            d@.len() == i,
            forall|j: int| 0 <= j < i ==> d@[j] == 0,
        decreases count - i,
    {
        d.push(0);
        i += 1;
    }
    assert(ints(d@) =~= Seq::new(count as nat, |i: int| 0int));
    d
}

proof fn lemma_sources(d: Seq<int>, k: int)
    requires
        0 <= k <= d.len(),
        forall|i: int| 0 <= i < d.len() ==> d[i] >= 0,
    ensures
        sources_prefix(d, k).len() + positives(d.subrange(0, k)) == k,
        forall|j: int| 0 <= j < sources_prefix(d, k).len() ==> 0 <= #[trigger] sources_prefix(d, k)[j] < k,
    decreases k,
{
    if k > 0 {
        lemma_sources(d, k - 1);
        assert(d.subrange(0, k).drop_last() =~= d.subrange(0, k - 1));
    }
}

/// Longest-path rank of every node over the forward edges (see
/// [`spec_ranks`]).
pub fn flow_ranks(count: usize, edges: &[FEdge]) -> (rank: Vec<usize>)
    requires
        edges_in(count as int, pairs_of(edges@)),
    ensures
        ints(rank@) == spec_ranks(count as int, pairs_of(edges@)),
        rank@.len() == count,
{
    let ghost e = pairs_of(edges@);
    let adj = adjacency(count, edges);
    proof {
        assert forall|u: int, j: int| 0 <= u < adj@.len() && 0 <= j < adj@[u]@.len() implies #[trigger] adj@[u]@[j] < adj@.len() by {
            lemma_adj_in(count as int, e, e.len() as int, u, j);
            assert(rows_v(adj@)[u][j] == adj@[u]@[j] as int);
        }
    }
    let back = back_edges(&adj);
    let ghost bk = back_edges_of(count as int, e);
    assert(back_v(back@) == bk);
    let mut fwd = empty_rows(count);
    let mut indeg = zeros(count);
    assert forall|v: int| 0 <= v < count implies #[trigger] indeg@[v] <= 0 by {
        assert(ints(indeg@)[v] == 0);
    }
    let mut k: usize = 0;
    while k < edges.len()
        invariant
            k <= edges.len(),
            e == pairs_of(edges@),
            edges_in(count as int, e),
            back_v(back@) == bk,
            fwd@.len() == count,
            indeg@.len() == count,
            rows_v(fwd@) == fwd_prefix(count as int, e, bk, k as int),
            ints(indeg@) == indeg_prefix(count as int, e, bk, k as int),
            forall|v: int| 0 <= v < count ==> #[trigger] indeg@[v] <= k,
        decreases edges.len() - k,
    {
        let u = edges[k].from;
        let v = edges[k].to;
        assert(e[k as int] == (u as int, v as int));
        assert(0 <= e[k as int].0 < count && 0 <= e[k as int].1 < count);
        if !is_back(&back, u, v) {
            push_to_row(&mut fwd, u, v);
            let ghost d = indeg@;
            let x = indeg[v] + 1;
            indeg.set(v, x);
            assert(ints(indeg@) =~= ints(d).update(v as int, ints(d)[v as int] + 1));
        }
        k += 1;
    }
    proof {
        assert forall|u: int, j: int| 0 <= u < fwd@.len() && 0 <= j < fwd@[u]@.len() implies #[trigger] fwd@[u]@[j] < fwd@.len() by {
            lemma_fwd_in(count as int, e, bk, e.len() as int, u, j);
            assert(rows_v(fwd@)[u][j] == fwd@[u]@[j] as int);
        }
    }
    let ghost fv = rows_v(fwd@);
    let ghost d0 = ints(indeg@);
    let mut queue: Vec<usize> = Vec::new();
    let mut i: usize = 0;
    while i < count
        invariant
            i <= count,
            indeg@.len() == count,
            d0 == ints(indeg@),
            ints(queue@) == sources_prefix(d0, i as int),
        decreases count - i,
    {
        if indeg[i] == 0 {
            let ghost q = queue@;
            queue.push(i);
            assert(ints(queue@) =~= ints(q).push(i as int));
        }
        i += 1;
    }
    proof {
        lemma_sources(d0, count as int);
        assert(d0.subrange(0, count as int) =~= d0);
        assert forall|j: int| 0 <= j < queue@.len() implies #[trigger] queue@[j] < count by {
            assert(ints(queue@)[j] == queue@[j] as int);
        }
    }
    let mut rank = zeros(count);
    let ghost init = KahnV { queue: ints(queue@), head: 0, rank: ints(rank@), indeg: d0 };
    let mut i: usize = 0;
    while i < queue.len()
        invariant
            i <= queue.len(),
            fv == rows_v(fwd@),
            rows_in(fwd@),
            fwd@.len() == count,
            rank@.len() == count,
            indeg@.len() == count,
            queue.len() + positives(ints(indeg@)) == count,
            forall|j: int| 0 <= j < queue@.len() ==> #[trigger] queue@[j] < count,
            kahn(fv, init) == kahn(fv, KahnV { queue: ints(queue@), head: i as int, rank: ints(rank@), indeg: ints(indeg@) }),
        decreases positives(ints(indeg@)) + queue.len() - i,
    {
        let u = queue[i];
        i += 1;
        let ghost st_a = KahnV { queue: ints(queue@), head: i as int, rank: ints(rank@), indeg: ints(indeg@) };
        let ghost st_b = KahnV { head: i - 1, ..st_a };
        proof {
            assert(st_b.queue[st_b.head] == u as int);
        }
        let n = fwd[u].len();
        let mut k: usize = 0;
        while k < n
            invariant
                k <= n,
                n == fwd@[u as int]@.len(),
                u < count,
                fv == rows_v(fwd@),
                rows_in(fwd@),
                fwd@.len() == count,
                rank@.len() == count,
                indeg@.len() == count,
                1 <= i <= queue.len(),
                queue.len() + positives(ints(indeg@)) == count,
                forall|j: int| 0 <= j < queue@.len() ==> #[trigger] queue@[j] < count,
                relax(fv[u as int], k as int, u as int, st_a) == (KahnV {
                    queue: ints(queue@),
                    head: i as int,
                    rank: ints(rank@),
                    indeg: ints(indeg@),
                }),
            decreases n - k,
        {
            let v = fwd[u][k];
            assert(fv[u as int][k as int] == v as int);
            let up = if rank[u] < usize::MAX {
                rank[u] + 1
            } else {
                rank[u]
            };
            let r = if rank[v] >= up {
                rank[v]
            } else {
                up
            };
            let ghost rk = rank@;
            rank.set(v, r);
            assert(ints(rank@) =~= ints(rk).update(v as int, r as int));
            if indeg[v] > 0 {
                let ghost d = indeg@;
                let was = indeg[v];
                indeg.set(v, was - 1);
                assert(ints(indeg@) =~= ints(d).update(v as int, was - 1));
                proof {
                    lemma_positives_update(ints(d), v as int, was - 1);
                }
                if was == 1 {
                    let ghost q = queue@;
                    queue.push(v);
                    assert(ints(queue@) =~= ints(q).push(v as int));
                }
            }
            k += 1;
        }
        proof {
            assert(fv[u as int].len() == n);
        }
    }
    proof {
        let end = KahnV { queue: ints(queue@), head: i as int, rank: ints(rank@), indeg: ints(indeg@) };
        assert(kahn(fv, end) == end);
    }
    rank
}

proof fn lemma_adj_in(count: int, e: Seq<(int, int)>, k: int, u: int, j: int)
    requires
        edges_in(count, e),
        0 <= k <= e.len(),
        0 <= u < adj_prefix(count, e, k).len(),
        0 <= j < adj_prefix(count, e, k)[u].len(),
        count >= 0,
    ensures
        0 <= adj_prefix(count, e, k)[u][j] < count,
        adj_prefix(count, e, k).len() == count,
    decreases k,
{
    if k > 0 {
        let (a, b) = e[k - 1];
        assert(0 <= e[k - 1].0 < count && 0 <= e[k - 1].1 < count);
        lemma_adj_len(count, e, k - 1);
        let prev = adj_prefix(count, e, k - 1);
        if u == a && j == prev[u].len() {
        } else {
            lemma_adj_in(count, e, k - 1, u, j);
        }
    }
}

proof fn lemma_adj_len(count: int, e: Seq<(int, int)>, k: int)
    requires
        count >= 0,
    ensures
        adj_prefix(count, e, k).len() == count,
    decreases k,
{
    if 0 < k <= e.len() {
        lemma_adj_len(count, e, k - 1);
    }
}

proof fn lemma_fwd_in(count: int, e: Seq<(int, int)>, back: Seq<(int, int)>, k: int, u: int, j: int)
    requires
        edges_in(count, e),
        0 <= k <= e.len(),
        0 <= u < fwd_prefix(count, e, back, k).len(),
        0 <= j < fwd_prefix(count, e, back, k)[u].len(),
        count >= 0,
    ensures
        0 <= fwd_prefix(count, e, back, k)[u][j] < count,
    decreases k,
{
    if k > 0 {
        assert(0 <= e[k - 1].0 < count && 0 <= e[k - 1].1 < count);
        lemma_fwd_len(count, e, back, k - 1);
        let prev = fwd_prefix(count, e, back, k - 1);
        let (a, b) = e[k - 1];
        if !back.contains((a, b)) && u == a && j == prev[u].len() {
        } else {
            lemma_fwd_in(count, e, back, k - 1, u, j);
        }
    }
}

proof fn lemma_fwd_len(count: int, e: Seq<(int, int)>, back: Seq<(int, int)>, k: int)
    requires
        count >= 0,
    ensures
        fwd_prefix(count, e, back, k).len() == count,
    decreases k,
{
    if 0 < k <= e.len() {
        lemma_fwd_len(count, e, back, k - 1);
    }
}

// ---------------------------------------------------------------------------
// Layers
// ---------------------------------------------------------------------------

/// The largest of the first `n` ranks, or 0 when there are none.
pub open spec fn max_rank(rank: Seq<int>, n: int) -> int
    decreases n,
{
    if n <= 0 {
        0
    } else {
        let m = max_rank(rank, n - 1);
        if rank[n - 1] > m {
            rank[n - 1]
        } else {
            m
        }
    }
}

/// The nodes among the first `n` whose rank is `d`, in index order.
pub open spec fn layer_of(rank: Seq<int>, d: int, n: int) -> Seq<int>
    decreases n,
{
    if n <= 0 {
        Seq::empty()
    } else if rank[n - 1] == d {
        layer_of(rank, d, n - 1).push(n - 1)
    } else {
        layer_of(rank, d, n - 1)
    }
}

proof fn lemma_max_rank(rank: Seq<int>, n: int, i: int)
    requires
        0 <= i < n <= rank.len(),
    ensures
        rank[i] <= max_rank(rank, n),
    decreases n,
{
    if i < n - 1 {
        lemma_max_rank(rank, n - 1, i);
    }
}

/// The layers a flowchart is drawn in: for each rank from 0 to the largest,
/// the nodes of that rank in index order.
pub fn rank_rows(rank: &Vec<usize>) -> (rows: Vec<Vec<usize>>)
    requires
        forall|i: int| 0 <= i < rank@.len() ==> #[trigger] rank@[i] < usize::MAX,
    ensures
        rows@.len() == max_rank(ints(rank@), rank@.len() as int) + 1,
        forall|d: int| 0 <= d < rows@.len() ==> #[trigger] rows_v(rows@)[d] == layer_of(ints(rank@), d, rank@.len() as int),
{
    let ghost r = ints(rank@);
    let mut depth: usize = 0;
    let mut i: usize = 0;
    while i < rank.len()
        invariant
            i <= rank.len(),
            r == ints(rank@),
            depth == max_rank(r, i as int),
            depth < usize::MAX,
            forall|k: int| 0 <= k < rank@.len() ==> #[trigger] rank@[k] < usize::MAX,
        decreases rank.len() - i,
    {
        if rank[i] > depth {
            depth = rank[i];
        }
        i += 1;
    }
    let mut rows = empty_rows(depth + 1);
    let mut i: usize = 0;
    while i < rank.len()
        invariant
            i <= rank.len(),
            r == ints(rank@),
            depth == max_rank(r, rank@.len() as int),
            rows@.len() == depth + 1,
            forall|d: int| 0 <= d < rows@.len() ==> #[trigger] rows_v(rows@)[d] == layer_of(r, d, i as int),
        decreases rank.len() - i,
    {
        proof {
            lemma_max_rank(r, rank@.len() as int, i as int);
        }
        let ghost before = rows_v(rows@);
        push_to_row(&mut rows, rank[i], i);
        assert forall|d: int| 0 <= d < rows@.len() implies #[trigger] rows_v(rows@)[d] == layer_of(r, d, i + 1) by {
            assert(before[d] == layer_of(r, d, i as int));
        }
        i += 1;
    }
    rows
}

} // verus!
