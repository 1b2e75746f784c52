//! The order a depth-first search finishes nodes in: every edge that is not
//! a back edge leads to a node finished earlier, so the forward edges form
//! no cycle.

use vstd::prelude::*;
use super::{
    adj_of, adj_prefix, back_edges_of, dfs, dfs_all, dfs_edges, edges_in, lemma_adj_in, lemma_adj_len, lemma_dfs_whites,
    lemma_whites_update, whites, DfsV,
};

verus! {

/// A search state that also records the order nodes were finished in.
pub struct DfsT {
    pub color: Seq<u8>,
    pub back: Seq<(int, int)>,
    pub done: Seq<int>,
}

pub open spec fn proj(t: DfsT) -> DfsV {
    DfsV { color: t.color, back: t.back }
}

/// [`dfs`], recording each node as it finishes.
pub open spec fn dfs_t(adj: Seq<Seq<int>>, u: int, st: DfsT) -> DfsT
    decreases whites(st.color), 0int, 0int,
{
    if 0 <= u < st.color.len() && st.color[u] == 0 && u < adj.len() {
        let st1 = DfsT { color: st.color.update(u, 1), ..st };
        proof {
            lemma_whites_update(st.color, u, 1);
        }
        let st2 = dfs_edges_t(adj, u, 0, st1);
        if 0 <= u < st2.color.len() {
            DfsT { color: st2.color.update(u, 2), done: st2.done.push(u), ..st2 }
        } else {
            st2
        }
    } else {
        st
    }
}

/// [`dfs_edges`], recording each node as it finishes.
pub open spec fn dfs_edges_t(adj: Seq<Seq<int>>, u: int, k: int, st: DfsT) -> DfsT
    decreases whites(st.color), 1int, adj[u].len() - k,
{
    if 0 <= u < adj.len() && 0 <= k < adj[u].len() {
        let v = adj[u][k];
        if 0 <= v < st.color.len() && st.color[v] == 0 {
            let st1 = dfs_t(adj, v, st);
            if whites(st1.color) <= whites(st.color) {
                dfs_edges_t(adj, u, k + 1, st1)
            } else {
                st1
            }
        } else if 0 <= v < st.color.len() && st.color[v] == 1 {
            dfs_edges_t(adj, u, k + 1, DfsT { back: st.back.push((u, v)), ..st })
        } else {
            dfs_edges_t(adj, u, k + 1, st)
        }
    } else {
        st
    }
}

/// [`dfs_all`], recording each node as it finishes.
pub open spec fn dfs_all_t(adj: Seq<Seq<int>>, i: int, st: DfsT) -> DfsT
    decreases adj.len() - i,
{
    if 0 <= i < adj.len() {
        if i < st.color.len() && st.color[i] == 0 {
            dfs_all_t(adj, i + 1, dfs_t(adj, i, st))
        } else {
            dfs_all_t(adj, i + 1, st)
        }
    } else {
        st
    }
}

proof fn lemma_proj(adj: Seq<Seq<int>>, u: int, st: DfsT)
    ensures
        proj(dfs_t(adj, u, st)) == dfs(adj, u, proj(st)),
    decreases whites(st.color), 0int, 0int,
{
    if 0 <= u < st.color.len() && st.color[u] == 0 && u < adj.len() {
        let st1 = DfsT { color: st.color.update(u, 1), ..st };
        lemma_whites_update(st.color, u, 1);
        lemma_proj_edges(adj, u, 0, st1);
        assert(proj(st1) == DfsV { color: proj(st).color.update(u, 1), ..proj(st) });
    }
}

proof fn lemma_proj_edges(adj: Seq<Seq<int>>, u: int, k: int, st: DfsT)
    ensures
        proj(dfs_edges_t(adj, u, k, st)) == dfs_edges(adj, u, k, proj(st)),
    decreases whites(st.color), 1int, adj[u].len() - k,
{
    if 0 <= u < adj.len() && 0 <= k < adj[u].len() {
        let v = adj[u][k];
        if 0 <= v < st.color.len() && st.color[v] == 0 {
            lemma_proj(adj, v, st);
            let st1 = dfs_t(adj, v, st);
            lemma_dfs_whites(adj, v, proj(st));
            lemma_proj_edges(adj, u, k + 1, st1);
        } else if 0 <= v < st.color.len() && st.color[v] == 1 {
            let st1 = DfsT { back: st.back.push((u, v)), ..st };
            lemma_proj_edges(adj, u, k + 1, st1);
            assert(proj(st1) == DfsV { back: proj(st).back.push((u, v)), ..proj(st) });
        } else {
            lemma_proj_edges(adj, u, k + 1, st);
        }
    }
}

proof fn lemma_proj_all(adj: Seq<Seq<int>>, i: int, st: DfsT)
    ensures
        proj(dfs_all_t(adj, i, st)) == dfs_all(adj, i, proj(st)),
    decreases adj.len() - i,
{
    if 0 <= i < adj.len() {
        if i < st.color.len() && st.color[i] == 0 {
            lemma_proj(adj, i, st);
            lemma_proj_all(adj, i + 1, dfs_t(adj, i, st));
        } else {
            lemma_proj_all(adj, i + 1, st);
        }
    }
}

/// `v` finished before `x`.
pub open spec fn finished_before(done: Seq<int>, v: int, x: int) -> bool {
    exists|i: int, j: int| 0 <= i < j < done.len() && done[i] == v && done[j] == x
}

/// Every edge out of a finished node is a back edge or leads to a node
/// finished before it.
pub open spec fn dfs_ok(adj: Seq<Seq<int>>, t: DfsT) -> bool {
    let n = t.color.len();
    &&& adj.len() == n
    &&& forall|x: int, j: int| 0 <= x < n && 0 <= j < adj[x].len() ==> 0 <= #[trigger] adj[x][j] < n
    &&& forall|x: int| 0 <= x < n ==> #[trigger] t.color[x] <= 2
    &&& forall|x: int| 0 <= x < n ==> (t.color[x] == 2 <==> #[trigger] t.done.contains(x))
    &&& t.done.no_duplicates()
    &&& forall|i: int| 0 <= i < t.done.len() ==> 0 <= #[trigger] t.done[i] < n
    &&& forall|x: int, j: int|
        0 <= x < n && t.color[x] == 2 && 0 <= j < adj[x].len() ==> t.back.contains((x, #[trigger] adj[x][j]))
            || finished_before(t.done, adj[x][j], x)
}

/// `r` grew from `t`: finished nodes stay finished in the same order, back
/// edges stay, nodes on the stack stay there, and none is added to it.
pub open spec fn grew(t: DfsT, r: DfsT) -> bool {
    &&& r.color.len() == t.color.len()
    &&& t.done.len() <= r.done.len()
    &&& r.done.take(t.done.len() as int) == t.done
    &&& t.back.len() <= r.back.len()
    &&& r.back.take(t.back.len() as int) == t.back
    &&& forall|x: int| 0 <= x < t.color.len() && t.color[x] == 1 ==> #[trigger] r.color[x] == 1
    &&& forall|x: int| 0 <= x < t.color.len() && r.color[x] == 1 ==> #[trigger] t.color[x] == 1
    &&& forall|x: int| 0 <= x < t.color.len() && t.color[x] == 2 ==> #[trigger] r.color[x] == 2
}

proof fn lemma_grew_trans(a: DfsT, b: DfsT, c: DfsT)
    requires
        grew(a, b),
        grew(b, c),
    ensures
        grew(a, c),
{
    assert(c.done.take(a.done.len() as int) =~= c.done.take(b.done.len() as int).take(a.done.len() as int));
    assert(c.back.take(a.back.len() as int) =~= c.back.take(b.back.len() as int).take(a.back.len() as int));
}

proof fn lemma_grew_keeps(adj: Seq<Seq<int>>, t: DfsT, r: DfsT, x: int, v: int)
    requires
        grew(t, r),
        t.back.contains((x, v)) || finished_before(t.done, v, x),
    ensures
        r.back.contains((x, v)) || finished_before(r.done, v, x),
{
    if t.back.contains((x, v)) {
        let i = choose|i: int| 0 <= i < t.back.len() && t.back[i] == (x, v);
        assert(r.back.take(t.back.len() as int)[i] == (x, v));
        assert(r.back[i] == (x, v));
    } else {
        let (i, j) = choose|i: int, j: int| 0 <= i < j < t.done.len() && t.done[i] == v && t.done[j] == x;
        assert(r.done.take(t.done.len() as int)[i] == v);
        assert(r.done.take(t.done.len() as int)[j] == x);
        assert(r.done[i] == v && r.done[j] == x);
    }
}

/// Edges `adj[u][..k]` of `u` are back edges or lead to finished nodes.
pub open spec fn edges_seen(adj: Seq<Seq<int>>, u: int, k: int, t: DfsT) -> bool {
    forall|j: int| 0 <= j < k ==> t.back.contains((u, #[trigger] adj[u][j])) || t.done.contains(adj[u][j])
}

proof fn lemma_seen_grew(adj: Seq<Seq<int>>, u: int, k: int, t: DfsT, r: DfsT)
    requires
        edges_seen(adj, u, k, t),
        grew(t, r),
    ensures
        edges_seen(adj, u, k, r),
{
    assert forall|j: int| 0 <= j < k implies r.back.contains((u, #[trigger] adj[u][j])) || r.done.contains(adj[u][j]) by {
        let v = adj[u][j];
        if t.back.contains((u, v)) {
            let i = choose|i: int| 0 <= i < t.back.len() && t.back[i] == (u, v);
            assert(r.back.take(t.back.len() as int)[i] == (u, v));
        } else {
            let i = choose|i: int| 0 <= i < t.done.len() && t.done[i] == v;
            assert(r.done.take(t.done.len() as int)[i] == v);
        }
    }
}

proof fn lemma_grew_refl(t: DfsT)
    ensures
        grew(t, t),
{
    assert(t.done.take(t.done.len() as int) =~= t.done);
    assert(t.back.take(t.back.len() as int) =~= t.back);
}

proof fn lemma_ok_more_back(adj: Seq<Seq<int>>, t: DfsT, p: (int, int))
    requires
        dfs_ok(adj, t),
    ensures
        dfs_ok(adj, DfsT { back: t.back.push(p), ..t }),
        grew(t, DfsT { back: t.back.push(p), ..t }),
{
    let t1 = DfsT { back: t.back.push(p), ..t };
    assert(t1.back.take(t.back.len() as int) =~= t.back);
    assert(t1.done.take(t.done.len() as int) =~= t.done);
    assert forall|x: int, j: int|
        0 <= x < t1.color.len() && t1.color[x] == 2 && 0 <= j < adj[x].len() implies t1.back.contains(
        (x, #[trigger] adj[x][j]),
    ) || finished_before(t1.done, adj[x][j], x) by {
        lemma_grew_keeps(adj, t, t1, x, adj[x][j]);
    }
}

/// Visiting an unvisited node finishes it and keeps the search sound.
proof fn lemma_dfs_t(adj: Seq<Seq<int>>, u: int, t: DfsT)
    requires
        dfs_ok(adj, t),
        0 <= u < t.color.len(),
        t.color[u] == 0,
    ensures
        dfs_ok(adj, dfs_t(adj, u, t)),
        grew(t, dfs_t(adj, u, t)),
        dfs_t(adj, u, t).color[u] == 2,
    decreases whites(t.color), 0int, 0int,
{
    let n = t.color.len();
    let st1 = DfsT { color: t.color.update(u, 1), ..t };
    lemma_whites_update(t.color, u, 1);
    assert(!t.done.contains(u));
    assert(dfs_ok(adj, st1)) by {
        assert forall|x: int, j: int|
            0 <= x < n && st1.color[x] == 2 && 0 <= j < adj[x].len() implies st1.back.contains(
            (x, #[trigger] adj[x][j]),
        ) || finished_before(st1.done, adj[x][j], x) by {
            assert(t.color[x] == 2);
        }
    }
    assert(edges_seen(adj, u, 0, st1));
    lemma_dfs_edges_t(adj, u, 0, st1);
    let st2 = dfs_edges_t(adj, u, 0, st1);
    let r = DfsT { color: st2.color.update(u, 2), done: st2.done.push(u), ..st2 };
    assert(dfs_t(adj, u, t) == r);
    assert(!st2.done.contains(u));
    assert(r.done.take(st2.done.len() as int) =~= st2.done);
    assert(r.back.take(st2.back.len() as int) =~= st2.back);
    assert forall|i: int, j: int| 0 <= i < j < r.done.len() implies r.done[i] != r.done[j] by {
        if j < st2.done.len() {
            assert(st2.done[i] != st2.done[j]);
        } else {
            assert(st2.done[i] != u);
        }
    }
    assert forall|x: int| 0 <= x < n implies (r.color[x] == 2 <==> #[trigger] r.done.contains(x)) by {
        if x != u {
            if r.done.contains(x) {
                let i = choose|i: int| 0 <= i < r.done.len() && r.done[i] == x;
                assert(i < st2.done.len());
                assert(st2.done.contains(x));
            }
            if st2.done.contains(x) {
                let i = choose|i: int| 0 <= i < st2.done.len() && st2.done[i] == x;
                assert(r.done[i] == x);
            }
        } else {
            assert(r.done[st2.done.len() as int] == u);
        }
    }
    assert forall|x: int, j: int|
        0 <= x < n && r.color[x] == 2 && 0 <= j < adj[x].len() implies r.back.contains((x, #[trigger] adj[x][j]))
            || finished_before(r.done, adj[x][j], x) by {
        let v = adj[x][j];
        if x == u {
            if !st2.back.contains((u, v)) {
                assert(st2.done.contains(v));
                let i = choose|i: int| 0 <= i < st2.done.len() && st2.done[i] == v;
                assert(r.done[i] == v && r.done[st2.done.len() as int] == u);
            }
        } else {
            assert(st2.color[x] == 2);
            if st2.back.contains((x, v)) {
                let i = choose|i: int| 0 <= i < st2.back.len() && st2.back[i] == (x, v);
                assert(r.back[i] == (x, v));
            } else {
                let (i, k) = choose|i: int, k: int| 0 <= i < k < st2.done.len() && st2.done[i] == v && st2.done[k] == x;
                assert(r.done[i] == v && r.done[k] == x);
            }
        }
    }
    assert(r.done.take(t.done.len() as int) =~= t.done) by {
        assert(st2.done.take(st1.done.len() as int) == st1.done);
        assert forall|i: int| 0 <= i < t.done.len() implies r.done[i] == t.done[i] by {
            assert(st2.done.take(st1.done.len() as int)[i] == t.done[i]);
        }
    }
    assert(r.back.take(t.back.len() as int) =~= t.back) by {
        assert forall|i: int| 0 <= i < t.back.len() implies r.back[i] == t.back[i] by {
            assert(st2.back.take(st1.back.len() as int)[i] == t.back[i]);
        }
    }
    assert forall|x: int| 0 <= x < n && t.color[x] == 1 implies #[trigger] r.color[x] == 1 by {
        assert(st1.color[x] == 1);
    }
    assert forall|x: int| 0 <= x < n && r.color[x] == 1 implies #[trigger] t.color[x] == 1 by {
        assert(st2.color[x] == 1);
        assert(st1.color[x] == 1);
    }
    assert forall|x: int| 0 <= x < n && t.color[x] == 2 implies #[trigger] r.color[x] == 2 by {
        assert(st1.color[x] == 2);
    }
}

/// Searching the out-edges of a node on the stack keeps the search sound
/// and leaves every out-edge a back edge or one to a finished node.
proof fn lemma_dfs_edges_t(adj: Seq<Seq<int>>, u: int, k: int, t: DfsT)
    requires
        dfs_ok(adj, t),
        0 <= u < t.color.len(),
        t.color[u] == 1,
        0 <= k <= adj[u].len(),
        edges_seen(adj, u, k, t),
    ensures
        dfs_ok(adj, dfs_edges_t(adj, u, k, t)),
        grew(t, dfs_edges_t(adj, u, k, t)),
        dfs_edges_t(adj, u, k, t).color[u] == 1,
        edges_seen(adj, u, adj[u].len() as int, dfs_edges_t(adj, u, k, t)),
    decreases whites(t.color), 1int, adj[u].len() - k,
{
    if k < adj[u].len() {
        let v = adj[u][k];
        assert(0 <= v < t.color.len());
        if t.color[v] == 0 {
            lemma_dfs_t(adj, v, t);
            let t1 = dfs_t(adj, v, t);
            lemma_proj(adj, v, t);
            lemma_dfs_whites(adj, v, proj(t));
            lemma_seen_grew(adj, u, k, t, t1);
            assert(t1.done.contains(v));
            assert(edges_seen(adj, u, k + 1, t1));
            lemma_dfs_edges_t(adj, u, k + 1, t1);
            lemma_grew_trans(t, t1, dfs_edges_t(adj, u, k + 1, t1));
        } else if t.color[v] == 1 {
            let t1 = DfsT { back: t.back.push((u, v)), ..t };
            lemma_ok_more_back(adj, t, (u, v));
            lemma_seen_grew(adj, u, k, t, t1);
            assert(t1.back[t.back.len() as int] == (u, v));
            assert(edges_seen(adj, u, k + 1, t1));
            lemma_dfs_edges_t(adj, u, k + 1, t1);
            lemma_grew_trans(t, t1, dfs_edges_t(adj, u, k + 1, t1));
        } else {
            assert(t.done.contains(v));
            assert(edges_seen(adj, u, k + 1, t));
            lemma_dfs_edges_t(adj, u, k + 1, t);
        }
    } else {
        lemma_grew_refl(t);
    }
}

/// Searching from every unvisited node, in index order, finishes them all.
proof fn lemma_dfs_all_t(adj: Seq<Seq<int>>, i: int, t: DfsT)
    requires
        dfs_ok(adj, t),
        0 <= i <= adj.len(),
        forall|x: int| 0 <= x < t.color.len() ==> #[trigger] t.color[x] != 1,
        forall|x: int| 0 <= x < i ==> #[trigger] t.color[x] == 2,
    ensures
        dfs_ok(adj, dfs_all_t(adj, i, t)),
        forall|x: int| 0 <= x < t.color.len() ==> #[trigger] dfs_all_t(adj, i, t).color[x] == 2,
    decreases adj.len() - i,
{
    if i < adj.len() {
        if t.color[i] == 0 {
            lemma_dfs_t(adj, i, t);
            let t1 = dfs_t(adj, i, t);
            assert forall|x: int| 0 <= x < t1.color.len() implies #[trigger] t1.color[x] != 1 by {
                if t1.color[x] == 1 {
                    assert(t.color[x] == 1);
                }
            }
            assert forall|x: int| 0 <= x < i + 1 implies #[trigger] t1.color[x] == 2 by {
                if x < i {
                    assert(t.color[x] == 2);
                }
            }
            lemma_dfs_all_t(adj, i + 1, t1);
        } else {
            assert(t.color[i] <= 2);
            lemma_dfs_all_t(adj, i + 1, t);
        }
    }
}

/// The order the depth-first search of the edges finishes the nodes in.
pub open spec fn finish_order(count: int, e: Seq<(int, int)>) -> Seq<int> {
    dfs_all_t(
        adj_of(count, e),
        0,
        DfsT { color: Seq::new(count as nat, |i: int| 0u8), back: Seq::empty(), done: Seq::empty() },
    ).done
}

/// Every node is finished exactly once, and every edge that is not a back
/// edge leads to a node finished before its source.
pub proof fn lemma_finish_order(count: int, e: Seq<(int, int)>)
    requires
        0 <= count,
        edges_in(count, e),
    ensures
        finish_order(count, e).no_duplicates(),
        forall|i: int| 0 <= i < finish_order(count, e).len() ==> 0 <= #[trigger] finish_order(count, e)[i] < count,
        forall|x: int| 0 <= x < count ==> #[trigger] finish_order(count, e).contains(x),
        forall|x: int, j: int|
            0 <= x < count && 0 <= j < adj_of(count, e)[x].len() ==> back_edges_of(count, e).contains(
                (x, #[trigger] adj_of(count, e)[x][j]),
            ) || finished_before(finish_order(count, e), adj_of(count, e)[x][j], x),
{
    let adj = adj_of(count, e);
    let init = DfsT { color: Seq::new(count as nat, |i: int| 0u8), back: Seq::empty(), done: Seq::empty() };
    lemma_adj_len(count, e, e.len() as int);
    assert forall|x: int, j: int| 0 <= x < count && 0 <= j < adj[x].len() implies 0 <= #[trigger] adj[x][j] < count by {
        lemma_adj_in(count, e, e.len() as int, x, j);
    }
    assert(dfs_ok(adj, init));
    lemma_dfs_all_t(adj, 0, init);
    lemma_proj_all(adj, 0, init);
    let r = dfs_all_t(adj, 0, init);
    assert(proj(init) == DfsV { color: Seq::new(count as nat, |i: int| 0u8), back: Seq::empty() });
    assert(r.back == back_edges_of(count, e));
}

} // verus!
