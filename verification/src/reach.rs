//! Reachability in a directed graph given by adjacency lists.
use vstd::prelude::*;

verus! {

/// `p` follows edges of `edge` from its first node to its last.
pub open spec fn is_path(edge: spec_fn(int, int) -> bool, p: Seq<int>) -> bool {
    &&& p.len() > 0
    &&& forall|k: int| 0 <= k < p.len() - 1 ==> #[trigger] edge(p[k], p[k + 1])
}

/// `v` can be reached from one of `starts` along edges of `edge`.
pub open spec fn reaches(edge: spec_fn(int, int) -> bool, starts: Seq<int>, v: int) -> bool {
    exists|p: Seq<int>| #[trigger] is_path(edge, p) && starts.contains(p[0]) && p.last() == v
}

/// The positions `s` holds, as integers.
pub open spec fn positions(s: Seq<usize>) -> Seq<int> {
    s.map_values(|x: usize| x as int)
}

pub open spec fn adj_view(adj: Seq<Vec<usize>>) -> Seq<Seq<usize>> {
    adj.map_values(|v: Vec<usize>| v@)
}

/// The edges of adjacency lists: from `u` to each node on its list.
pub open spec fn adj_edges(adj: Seq<Seq<usize>>) -> spec_fn(int, int) -> bool {
    |u: int, v: int| 0 <= u < adj.len() && exists|k: int| 0 <= k < adj[u].len() && #[trigger] adj[u][k] as int == v
}

/// Every node on the lists is a node of the graph.
pub open spec fn adj_closed(adj: Seq<Seq<usize>>) -> bool {
    forall|u: int, k: int| 0 <= u < adj.len() && 0 <= k < adj[u].len() ==> (#[trigger] adj[u][k]) < adj.len()
}

pub open spec fn count_set(s: Seq<bool>) -> nat
    decreases s.len(),
{
    if s.len() == 0 {
        0
    } else {
        count_set(s.drop_last()) + if s.last() { 1nat } else { 0nat }
    }
}

pub proof fn lemma_count_set_bound(s: Seq<bool>)
    ensures
        count_set(s) <= s.len(),
    decreases s.len(),
{
    if s.len() > 0 {
        lemma_count_set_bound(s.drop_last());
    }
}

pub proof fn lemma_count_set_mark(s: Seq<bool>, i: int)
    requires
        0 <= i < s.len(),
        !s[i],
    ensures
        count_set(s.update(i, true)) == count_set(s) + 1,
    decreases s.len(),
{
    let t = s.update(i, true);
    if i == s.len() - 1 {
        assert(t.drop_last() =~= s.drop_last());
    } else {
        assert(t.drop_last() =~= s.drop_last().update(i, true));
        lemma_count_set_mark(s.drop_last(), i);
    }
}

pub proof fn lemma_path_push(edge: spec_fn(int, int) -> bool, p: Seq<int>, w: int)
    requires
        is_path(edge, p),
        edge(p.last(), w),
    ensures
        is_path(edge, p.push(w)),
        p.push(w)[0] == p[0],
        p.push(w).last() == w,
{
    let q = p.push(w);
    assert forall|k: int| 0 <= k < q.len() - 1 implies #[trigger] edge(q[k], q[k + 1]) by {
        if k < p.len() - 1 {
            assert(q[k] == p[k] && q[k + 1] == p[k + 1]);
        }
    }
}

/// A set of nodes that holds the starts and is closed under edges holds
/// every node reached from them.
pub(crate) proof fn lemma_closed_set_holds(edge: spec_fn(int, int) -> bool, vis: Seq<bool>, starts: Seq<int>, p: Seq<int>)
    requires
        is_path(edge, p),
        starts.contains(p[0]),
        forall|j: int| 0 <= j < starts.len() ==> 0 <= #[trigger] starts[j] < vis.len() && vis[starts[j]],
        forall|v: int, w: int| 0 <= v < vis.len() && vis[v] && #[trigger] edge(v, w) ==> 0 <= w < vis.len() && vis[w],
    ensures
        0 <= p.last() < vis.len() && vis[p.last()],
    decreases p.len(),
{
    if p.len() == 1 {
        let j = choose|j: int| 0 <= j < starts.len() && starts[j] == p[0];
        assert(vis[starts[j]]);
    } else {
        let q = p.drop_last();
        assert forall|k: int| 0 <= k < q.len() - 1 implies #[trigger] edge(q[k], q[k + 1]) by {
            assert(q[k] == p[k] && q[k + 1] == p[k + 1]);
        }
        lemma_closed_set_holds(edge, vis, starts, q);
        let k = p.len() - 2;
        assert(edge(p[k], p[k + 1]));
    }
}

pub(crate) fn all_false(n: usize) -> (v: Vec<bool>)
    ensures
        v@.len() == n,
        forall|i: int| 0 <= i < n ==> !v@[i],
        count_set(v@) == 0,
{
    let mut v: Vec<bool> = Vec::new();
    while v.len() < n
        invariant
            v@.len() <= n,
            forall|i: int| 0 <= i < v@.len() ==> !v@[i],
            count_set(v@) == 0,
        decreases n - v@.len(),
    {
        let ghost old_v = v@;
        v.push(false);
        assert(v@.drop_last() =~= old_v);
    }
    v
}

/// The nodes reached from `starts`: `r[v]` tells whether `v` is.
pub fn reach_from(adj: &Vec<Vec<usize>>, starts: &[usize]) -> (r: Vec<bool>)
    requires
        forall|j: int| 0 <= j < starts@.len() ==> starts@[j] < adj@.len(),
        adj_closed(adj_view(adj@)),
    ensures
        r@.len() == adj@.len(),
        forall|v: int| 0 <= v < r@.len() ==> (r@[v] <==> reaches(adj_edges(adj_view(adj@)), positions(starts@), v)),
{
    let ghost a = adj_view(adj@);
    let ghost edge = adj_edges(a);
    let ghost sp = positions(starts@);
    let n: usize = adj.len();
    let mut visited = all_false(n);
    let mut expanded = all_false(n);
    let mut i: usize = 0;
    while i < starts.len()
        invariant
            sp == positions(starts@),
            edge == adj_edges(a),
            n == adj@.len(),
            0 <= i <= starts@.len(),
            forall|j: int| 0 <= j < starts@.len() ==> starts@[j] < n,
            visited@.len() == n,
            expanded@.len() == n,
            count_set(expanded@) == 0,
            forall|v: int| 0 <= v < n ==> !expanded@[v],
            forall|j: int| 0 <= j < i ==> visited@[#[trigger] sp[j]],
            forall|v: int| 0 <= v < n && visited@[v] ==> reaches(edge, sp, v),
        decreases starts@.len() - i,
    {
        let s = starts[i];
        proof {
            let p = seq![s as int];
            assert(sp[i as int] == s as int);
            assert(is_path(edge, p));
            assert(sp.contains(p[0]));
        }
        visited.set(s, true);
        i += 1;
    }
    loop
        invariant
            a == adj_view(adj@),
            edge == adj_edges(a),
            adj_closed(a),
            sp == positions(starts@),
            n == adj@.len(),
            visited@.len() == n,
            expanded@.len() == n,
            forall|j: int| 0 <= j < sp.len() ==> 0 <= #[trigger] sp[j] < n && visited@[sp[j]],
            forall|v: int| 0 <= v < n && visited@[v] ==> reaches(edge, sp, v),
            forall|v: int| 0 <= v < n && expanded@[v] ==> visited@[v],
            forall|v: int, w: int| 0 <= v < n && expanded@[v] && #[trigger] edge(v, w) ==> 0 <= w < n && visited@[w],
        ensures
            forall|x: int, w: int| 0 <= x < n && visited@[x] && #[trigger] edge(x, w) ==> 0 <= w < n && visited@[w],
        decreases n - count_set(expanded@),
    {
        let mut changed = false;
        let ghost vis0 = visited@;
        let ghost exp0 = expanded@;
        let mut v: usize = 0;
        proof {
            lemma_count_set_bound(expanded@);
        }
        while v < n
            invariant
                a == adj_view(adj@),
                edge == adj_edges(a),
                adj_closed(a),
                sp == positions(starts@),
                n == adj@.len(),
                0 <= v <= n,
                visited@.len() == n,
                expanded@.len() == n,
                vis0.len() == n,
                forall|j: int| 0 <= j < sp.len() ==> 0 <= #[trigger] sp[j] < n && visited@[sp[j]],
                forall|v: int| 0 <= v < n && visited@[v] ==> reaches(edge, sp, v),
                forall|v: int| 0 <= v < n && expanded@[v] ==> visited@[v],
                forall|v: int, w: int| 0 <= v < n && expanded@[v] && #[trigger] edge(v, w) ==> 0 <= w < n && visited@[w],
                !changed ==> visited@ == vis0 && expanded@ == exp0,
                !changed ==> forall|x: int| 0 <= x < v && vis0[x] ==> exp0[x],
                changed ==> count_set(expanded@) > count_set(exp0),
                count_set(expanded@) >= count_set(exp0),
                count_set(expanded@) <= n,
            decreases n - v,
        {
            if visited[v] && !expanded[v] {
                proof {
                    lemma_count_set_mark(expanded@, v as int);
                    lemma_count_set_bound(expanded@.update(v as int, true));
                }
                let ghost exp_old = expanded@;
                let ghost before = visited@;
                expanded.set(v, true);
                changed = true;
                let targets = &adj[v];
                let ghost tv = targets@;
                assert(a[v as int] == tv);
                let mut k: usize = 0;
                while k < targets.len()
                    invariant
                        a == adj_view(adj@),
                        edge == adj_edges(a),
                        adj_closed(a),
                        n == adj@.len(),
                        sp == positions(starts@),
                        v < n,
                        tv == targets@,
                        a[v as int] == tv,
                        0 <= k <= tv.len(),
                        visited@.len() == n,
                        visited@[v as int],
                        forall|x: int| 0 <= x < n && before[x] ==> visited@[x],
                        forall|x: int| 0 <= x < n && visited@[x] ==> reaches(edge, sp, x),
                        forall|j: int| 0 <= j < k ==> visited@[#[trigger] tv[j] as int],
                    decreases tv.len() - k,
                {
                    let w = targets[k];
                    assert(w < n);
                    proof {
                        assert(reaches(edge, sp, v as int));
                        assert(a[v as int][k as int] as int == w as int);
                        assert(edge(v as int, w as int));
                        let p = choose|p: Seq<int>| #[trigger] is_path(edge, p) && sp.contains(p[0]) && p.last() == v as int;
                        lemma_path_push(edge, p, w as int);
                        assert(is_path(edge, p.push(w as int)));
                    }
                    visited.set(w, true);
                    k += 1;
                }
                assert forall|w: int| #[trigger] edge(v as int, w) implies 0 <= w < n && visited@[w] by {
                    let j = choose|j: int| 0 <= j < a[v as int].len() && #[trigger] a[v as int][j] as int == w;
                    assert(visited@[tv[j] as int]);
                }
                assert forall|x: int, w: int| 0 <= x < n && expanded@[x] && #[trigger] edge(x, w) implies 0 <= w < n
                    && visited@[w] by {
                    if x != v {
                        assert(exp_old[x]);
                        assert(before[w]);
                        assert(visited@[w]);
                    } else {
                        assert(edge(v as int, w));
                        assert(visited@[w]);
                    }
                }
            }
            v += 1;
        }
        if !changed {
            proof {
                assert forall|x: int, w: int| 0 <= x < n && visited@[x] && #[trigger] edge(x, w) implies 0 <= w < n
                    && visited@[w] by {
                    assert(exp0[x]);
                }
            }
            break;
        }
    }
    assert forall|v: int| 0 <= v < visited@.len() implies (visited@[v] <==> reaches(edge, sp, v)) by {
        if reaches(edge, sp, v) {
            let p = choose|p: Seq<int>| #[trigger] is_path(edge, p) && sp.contains(p[0]) && p.last() == v;
            lemma_closed_set_holds(edge, visited@, sp, p);
        }
    }
    visited
}

} // verus!
