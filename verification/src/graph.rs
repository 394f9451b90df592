//! The include graph over the file index: which files the compilation
//! units reach, and which file has to be read next.
use vstd::prelude::*;
use crate::deps::{resolutions_view, Index, IndexEntry, Resolution, ResolutionModel, Source};
use crate::reach::{
    adj_closed, adj_edges, adj_view, all_false, count_set, is_path, lemma_closed_set_holds, lemma_count_set_bound,
    lemma_count_set_mark, positions, reach_from, reaches,
};

verus! {

/// The real file that entry `i` stands for, following generated files to
/// their sources at most `fuel` times.
pub open spec fn real_within(e: Seq<IndexEntry>, i: int, fuel: nat) -> Option<int>
    decreases fuel,
{
    if !(0 <= i < e.len()) {
        None
    } else {
        match e[i].info.source {
            Source::Real(_) => Some(i),
            Source::Generated { from } => if fuel == 0 {
                None
            } else {
                real_within(e, from as int, (fuel - 1) as nat)
            },
        }
    }
}

/// The real file whose includes entry `i` has: itself, or the source of a
/// generated file. `None` for generated files whose sources go round in a
/// cycle, which never ends.
pub open spec fn real_source(e: Seq<IndexEntry>, i: int) -> Option<int> {
    real_within(e, i, e.len())
}

/// The resolved includes of entry `i`, once its real file has been read.
pub open spec fn resolved_of(e: Seq<IndexEntry>, i: int) -> Option<Seq<ResolutionModel>> {
    match real_source(e, i) {
        Some(r) => match e[r].info.resolved {
            Some(v) => Some(resolutions_view(v@)),
            None => None,
        },
        None => None,
    }
}

/// Entry `u` includes entry `v`.
pub open spec fn edge(e: Seq<IndexEntry>, u: int, v: int) -> bool {
    resolved_of(e, u) matches Some(rs) && rs.contains(ResolutionModel::File(v))
}

/// The include edges of the index.
pub open spec fn index_edges(e: Seq<IndexEntry>) -> spec_fn(int, int) -> bool {
    |u: int, v: int| edge(e, u, v)
}

/// Entry `v` is reached from one of `starts` through includes.
pub open spec fn reachable(e: Seq<IndexEntry>, starts: Seq<int>, v: int) -> bool {
    reaches(index_edges(e), starts, v)
}

/// A real file found by following generated files is an entry of the
/// index, and real.
pub proof fn lemma_real_within(e: Seq<IndexEntry>, i: int, fuel: nat)
    ensures
        real_within(e, i, fuel) matches Some(r) ==> 0 <= r < e.len() && e[r].info.source is Real,
    decreases fuel,
{
    if 0 <= i < e.len() {
        if let Source::Generated { from } = e[i].info.source {
            if fuel > 0 {
                lemma_real_within(e, from as int, (fuel - 1) as nat);
            }
        }
    }
}

/// The real file of entry `i`, as `real_source` gives it.
pub fn real_source_of(index: &Index, i: usize) -> (r: Option<usize>)
    requires
        index.wf(),
        i < index.entries@.len(),
    ensures
        match r {
            Some(x) => real_source(index.entries@, i as int) == Some(x as int),
            None => real_source(index.entries@, i as int) is None,
        },
{
    let ghost e = index.entries@;
    let mut cur: usize = i;
    let mut fuel: usize = index.entries.len();
    loop
        invariant
            e == index.entries@,
            index.wf(),
            cur < e.len(),
            fuel <= e.len(),
            real_source(e, i as int) == real_within(e, cur as int, fuel as nat),
        decreases fuel,
    {
        assert(index.entries@[cur as int] == e[cur as int]);
        match index.entries[cur].info.source {
            Source::Real(_) => return Some(cur),
            Source::Generated { from } => {
                if fuel == 0 {
                    return None;
                }
                cur = from;
                fuel -= 1;
            },
        }
    }
}

/// The resolved includes of entry `i`, as `resolved_of` gives them.
pub fn resolved_at(index: &Index, i: usize) -> (r: Option<&Vec<Resolution>>)
    requires
        index.wf(),
        i < index.entries@.len(),
    ensures
        match r {
            Some(v) => resolved_of(index.entries@, i as int) == Some(resolutions_view(v@)),
            None => resolved_of(index.entries@, i as int) is None,
        },
{
    proof {
        lemma_real_within(index.entries@, i as int, index.entries@.len());
    }
    match real_source_of(index, i) {
        Some(x) => match &index.entries[x].info.resolved {
            Some(v) => Some(v),
            None => None,
        },
        None => None,
    }
}

/// The entries that entry `u` includes, in order.
#[verifier::rlimit(40)]
fn targets_at(index: &Index, u: usize) -> (r: Vec<usize>)
    requires
        index.wf(),
        u < index.entries@.len(),
    ensures
        forall|j: int| 0 <= j < r@.len() ==> (#[trigger] r@[j]) < index.entries@.len(),
        forall|v: int|
            (exists|j: int| 0 <= j < r@.len() && #[trigger] r@[j] as int == v) <==> #[trigger] edge(
                index.entries@,
                u as int,
                v,
            ),
{
    let ghost e = index.entries@;
    let mut r: Vec<usize> = Vec::new();
    proof {
        lemma_real_within(e, u as int, e.len());
    }
    let rs = match resolved_at(index, u) {
        Some(rs) => rs,
        None => return r,
    };
    let ghost rv = resolutions_view(rs@);
    proof {
        let x = real_source(e, u as int)->0;
        let v0 = e[x].info.resolved->0;
        assert(crate::deps::targets_in(e[x].info.resolved, e.len()));
        assert(resolutions_view(v0@) == rv);
        assert forall|k: int| 0 <= k < rv.len() implies (#[trigger] rv[k] matches ResolutionModel::File(t) ==> 0 <= t
            < e.len()) by {
            assert(rv[k] == v0@[k]@);
        }
    }
    let mut k: usize = 0;
    while k < rs.len()
        invariant
            e == index.entries@,
            rv == resolutions_view(rs@),
            resolved_of(e, u as int) == Some(rv),
            forall|m: int| 0 <= m < rv.len() ==> (#[trigger] rv[m] matches ResolutionModel::File(t) ==> 0 <= t < e.len()),
            0 <= k <= rv.len(),
            forall|j: int| 0 <= j < r@.len() ==> (#[trigger] r@[j]) < e.len(),
            forall|j: int| #![trigger r@[j]] 0 <= j < r@.len() ==> exists|m: int| 0 <= m < k && rv[m] == ResolutionModel::File(r@[j] as int),
            forall|m: int| #![trigger rv[m]] 0 <= m < k ==> (rv[m] matches ResolutionModel::File(t) ==> exists|j: int|
                0 <= j < r@.len() && r@[j] as int == t),
        decreases rv.len() - k,
    {
        match &rs[k] {
            Resolution::File(t) => {
                let t = *t;
                assert(rv[k as int] == ResolutionModel::File(t as int));
                let ghost old_r = r@;
                r.push(t);
                assert(r@[old_r.len() as int] == t);
                assert forall|j: int| #![trigger r@[j]] 0 <= j < r@.len() implies exists|m: int| 0 <= m < k + 1 && rv[m]
                    == ResolutionModel::File(r@[j] as int) by {
                    if j < old_r.len() {
                        assert(r@[j] == old_r[j]);
                    }
                }
                assert forall|m: int| #![trigger rv[m]] 0 <= m < k + 1 implies (rv[m] matches ResolutionModel::File(t2)
                    ==> exists|j: int| 0 <= j < r@.len() && r@[j] as int == t2) by {
                    if m < k {
                        if let ResolutionModel::File(t2) = rv[m] {
                            let j = choose|j: int| 0 <= j < old_r.len() && old_r[j] as int == t2;
                            assert(r@[j] == old_r[j]);
                        }
                    }
                }
            },
            Resolution::External(_) => {
                assert(rv[k as int] matches ResolutionModel::External(_));
            },
        }
        k += 1;
    }
    assert forall|v: int|
        (exists|j: int| 0 <= j < r@.len() && #[trigger] r@[j] as int == v) <==> #[trigger] edge(e, u as int, v) by {
        if exists|j: int| 0 <= j < r@.len() && #[trigger] r@[j] as int == v {
            let j = choose|j: int| 0 <= j < r@.len() && #[trigger] r@[j] as int == v;
            let m = choose|m: int| 0 <= m < k && rv[m] == ResolutionModel::File(r@[j] as int);
            assert(rv.contains(ResolutionModel::File(v)));
        }
        if edge(e, u as int, v) {
            let m = choose|m: int| 0 <= m < rv.len() && rv[m] == ResolutionModel::File(v);
            assert(rv[m] matches ResolutionModel::File(t) && t == v);
        }
    }
    r
}

/// The include graph of the files read so far, as adjacency lists.
fn index_graph(index: &Index) -> (r: Vec<Vec<usize>>)
    requires
        index.wf(),
    ensures
        r@.len() == index.entries@.len(),
        adj_closed(adj_view(r@)),
        adj_edges(adj_view(r@)) == index_edges(index.entries@),
{
    let ghost e = index.entries@;
    let mut adj: Vec<Vec<usize>> = Vec::new();
    let mut u: usize = 0;
    while u < index.entries.len()
        invariant
            e == index.entries@,
            index.wf(),
            0 <= u <= e.len(),
            adj@.len() == u,
            forall|x: int, j: int| 0 <= x < u && 0 <= j < adj@[x]@.len() ==> (#[trigger] adj@[x]@[j]) < e.len(),
            forall|x: int, v: int| 0 <= x < u ==> ((exists|j: int| 0 <= j < adj@[x]@.len() && #[trigger] adj@[x]@[j] as int
                == v) <==> #[trigger] edge(e, x, v)),
        decreases e.len() - u,
    {
        let t = targets_at(index, u);
        let ghost tv = t@;
        let ghost old_adj = adj@;
        adj.push(t);
        assert forall|x: int, v: int| 0 <= x < u + 1 implies ((exists|j: int| 0 <= j < adj@[x]@.len() && #[trigger] adj@[x]@[j]
            as int == v) <==> #[trigger] edge(e, x, v)) by {
            if x < u {
                assert(adj@[x] == old_adj[x]);
            } else {
                assert(adj@[x]@ == tv);
                if edge(e, x, v) {
                    let j = choose|j: int| 0 <= j < tv.len() && #[trigger] tv[j] as int == v;
                    assert(adj@[x]@[j] as int == v);
                }
            }
        }
        u += 1;
    }
    let ghost a = adj_view(adj@);
    assert forall|x: int, v: int| #[trigger] adj_edges(a)(x, v) == index_edges(e)(x, v) by {
        if 0 <= x < a.len() {
            assert(a[x] == adj@[x]@);
            if adj_edges(a)(x, v) {
                let k = choose|k: int| 0 <= k < a[x].len() && #[trigger] a[x][k] as int == v;
                assert(adj@[x]@[k] as int == v);
            }
            if edge(e, x, v) {
                let j = choose|j: int| 0 <= j < adj@[x]@.len() && #[trigger] adj@[x]@[j] as int == v;
                assert(a[x][j] as int == v);
            }
        } else {
            assert(!edge(e, x, v));
        }
    }
    assert(adj_edges(a) =~= index_edges(e));
    assert forall|x: int, k: int| 0 <= x < a.len() && 0 <= k < a[x].len() implies (#[trigger] a[x][k]) < a.len() by {
        assert(a[x] == adj@[x]@);
    }
    adj
}

/// The entries reached from `starts` through the includes of the files
/// read so far: `r[v]` tells whether entry `v` is reached.
pub fn closure(index: &Index, starts: &[usize]) -> (r: Vec<bool>)
    requires
        index.wf(),
        forall|j: int| 0 <= j < starts@.len() ==> starts@[j] < index.entries@.len(),
    ensures
        r@.len() == index.entries@.len(),
        forall|v: int| 0 <= v < r@.len() ==> (r@[v] <==> reachable(index.entries@, positions(starts@), v)),
{
    let adj = index_graph(index);
    reach_from(&adj, starts)
}

/// What to do next before the units' dependencies can be collected.
#[derive(Debug)]
pub enum ReadStep {
    /// Read this real file and `supply` its contents.
    Read(usize),
    /// This reached entry is a generated file whose sources go round in a
    /// cycle: following them never ends.
    Cycle(usize),
    /// Every file the units reach has been read.
    Done,
}

/// The stack `stack` after pushing the files that `rs` resolves to, the
/// last first, so that the first one is on top.
pub open spec fn push_targets(stack: Seq<int>, rs: Seq<ResolutionModel>) -> Seq<int>
    decreases rs.len(),
{
    if rs.len() == 0 {
        stack
    } else {
        let s2 = match rs.last() {
            ResolutionModel::File(w) => stack.push(w),
            ResolutionModel::External(_) => stack,
        };
        push_targets(s2, rs.drop_last())
    }
}

/// The depth-first walk of the include graph from the entries on `stack`
/// (its top last), `seen` marking the entries already entered: the first
/// entry it enters whose includes are not known yet. An entry is entered
/// once; after it, the files it includes are walked in include order.
pub open spec fn dfs_next(e: Seq<IndexEntry>, stack: Seq<int>, seen: Seq<bool>) -> Option<int>
    decreases seen.len() - count_set(seen), stack.len(),
{
    if stack.len() == 0 {
        None
    } else {
        let u = stack.last();
        let rest = stack.drop_last();
        if !(0 <= u < seen.len()) || seen[u] {
            dfs_next(e, rest, seen)
        } else {
            match resolved_of(e, u) {
                None => Some(u),
                Some(rs) => {
                    proof {
                        lemma_count_set_mark(seen, u);
                        lemma_count_set_bound(seen.update(u, true));
                    }
                    dfs_next(e, push_targets(rest, rs), seen.update(u, true))
                },
            }
        }
    }
}

/// No entry entered yet.
pub open spec fn none_seen(n: nat) -> Seq<bool> {
    Seq::new(n, |i: int| false)
}

/// The walk of the units in order, each from scratch: the first entry
/// whose includes are not known yet, in the order in which the walks
/// enter the entries.
pub open spec fn walk_units(e: Seq<IndexEntry>, units: Seq<int>) -> Option<int>
    decreases units.len(),
{
    if units.len() == 0 {
        None
    } else {
        match dfs_next(e, seq![units[0]], none_seen(e.len())) {
            Some(v) => Some(v),
            None => walk_units(e, units.drop_first()),
        }
    }
}

/// The entries entered once the walk from `stack` has ended, where it
/// ends without meeting an entry whose includes are unknown.
spec fn dfs_seen(e: Seq<IndexEntry>, stack: Seq<int>, seen: Seq<bool>) -> Seq<bool>
    decreases seen.len() - count_set(seen), stack.len(),
{
    if stack.len() == 0 {
        seen
    } else {
        let u = stack.last();
        let rest = stack.drop_last();
        if !(0 <= u < seen.len()) || seen[u] {
            dfs_seen(e, rest, seen)
        } else {
            match resolved_of(e, u) {
                None => seen,
                Some(rs) => {
                    proof {
                        lemma_count_set_mark(seen, u);
                        lemma_count_set_bound(seen.update(u, true));
                    }
                    dfs_seen(e, push_targets(rest, rs), seen.update(u, true))
                },
            }
        }
    }
}

/// Every included entry is an entry of the index.
proof fn lemma_edge_in_range(index: &Index, u: int, w: int)
    requires
        index.wf(),
        edge(index.entries@, u, w),
    ensures
        0 <= w < index.entries@.len(),
{
    let e = index.entries@;
    lemma_real_within(e, u, e.len());
    let x = real_source(e, u)->0;
    let v0 = e[x].info.resolved->0;
    assert(crate::deps::targets_in(e[x].info.resolved, e.len()));
    let rs = resolutions_view(v0@);
    let m = choose|m: int| 0 <= m < rs.len() && rs[m] == ResolutionModel::File(w);
    assert(rs[m] == v0@[m]@);
}

proof fn lemma_push_targets(stack: Seq<int>, rs: Seq<ResolutionModel>)
    ensures
        forall|x: int| stack.contains(x) ==> push_targets(stack, rs).contains(x),
        forall|w: int| rs.contains(ResolutionModel::File(w)) ==> push_targets(stack, rs).contains(w),
    decreases rs.len(),
{
    if rs.len() > 0 {
        let s2 = match rs.last() {
            ResolutionModel::File(w) => stack.push(w),
            ResolutionModel::External(_) => stack,
        };
        lemma_push_targets(s2, rs.drop_last());
        assert(push_targets(stack, rs) == push_targets(s2, rs.drop_last()));
        assert forall|x: int| stack.contains(x) implies s2.contains(x) by {
            if let ResolutionModel::File(w) = rs.last() {
                let k = choose|k: int| 0 <= k < stack.len() && stack[k] == x;
                assert(s2[k] == x);
            }
        }
        assert forall|w: int| rs.contains(ResolutionModel::File(w)) implies push_targets(stack, rs).contains(w) by {
            let m = choose|m: int| 0 <= m < rs.len() && rs[m] == ResolutionModel::File(w);
            if m == rs.len() - 1 {
                assert(s2[s2.len() - 1] == w);
                assert(s2.contains(w));
            } else {
                assert(rs.drop_last()[m] == rs[m]);
                assert(rs.drop_last().contains(ResolutionModel::File(w)));
            }
        }
    }
}

/// The entries entered by a walk that meets no unread entry: they hold the
/// entries entered before and those that were on the stack, and, where
/// everything entered before had its includes entered or on the stack,
/// every entry they hold has known includes, all entered too.
proof fn lemma_dfs_closed(index: &Index, stack: Seq<int>, seen: Seq<bool>)
    requires
        index.wf(),
        seen.len() == index.entries@.len(),
        dfs_next(index.entries@, stack, seen) is None,
        forall|j: int| 0 <= j < stack.len() ==> 0 <= #[trigger] stack[j] < seen.len(),
        forall|u: int| 0 <= u < seen.len() && #[trigger] seen[u] ==> resolved_of(index.entries@, u) is Some,
        forall|u: int, w: int| 0 <= u < seen.len() && seen[u] && #[trigger] edge(index.entries@, u, w) ==> seen[w]
            || stack.contains(w),
    ensures
        dfs_seen(index.entries@, stack, seen).len() == seen.len(),
        forall|u: int| 0 <= u < seen.len() && seen[u] ==> #[trigger] dfs_seen(index.entries@, stack, seen)[u],
        forall|j: int| 0 <= j < stack.len() ==> dfs_seen(index.entries@, stack, seen)[#[trigger] stack[j]],
        forall|u: int| 0 <= u < seen.len() && #[trigger] dfs_seen(index.entries@, stack, seen)[u] ==> resolved_of(
            index.entries@,
            u,
        ) is Some,
        forall|u: int, w: int|
            0 <= u < seen.len() && dfs_seen(index.entries@, stack, seen)[u] && #[trigger] edge(index.entries@, u, w)
                ==> dfs_seen(index.entries@, stack, seen)[w],
    decreases seen.len() - count_set(seen), stack.len(),
{
    let e = index.entries@;
    if stack.len() > 0 {
        let u = stack.last();
        let rest = stack.drop_last();
        assert(stack[stack.len() - 1] == u);
        if seen[u] {
            assert forall|x: int, w: int| 0 <= x < seen.len() && seen[x] && #[trigger] edge(e, x, w) implies seen[w]
                || rest.contains(w) by {
                if !seen[w] {
                    let k = choose|k: int| 0 <= k < stack.len() && stack[k] == w;
                    assert(k != stack.len() - 1);
                    assert(rest[k] == w);
                }
            }
            lemma_dfs_closed(index, rest, seen);
            let f = dfs_seen(e, rest, seen);
            assert forall|j: int| 0 <= j < stack.len() implies f[#[trigger] stack[j]] by {
                if j < stack.len() - 1 {
                    assert(rest[j] == stack[j]);
                }
            }
        } else {
            let rs = resolved_of(e, u)->0;
            let seen2 = seen.update(u, true);
            let stack2 = push_targets(rest, rs);
            lemma_count_set_mark(seen, u);
            lemma_count_set_bound(seen2);
            lemma_push_targets(rest, rs);
            assert forall|j: int| 0 <= j < stack2.len() implies 0 <= #[trigger] stack2[j] < seen.len() by {
                lemma_push_targets_in_range(index, rest, rs, u, j);
            }
            assert forall|x: int, w: int| 0 <= x < seen2.len() && seen2[x] && #[trigger] edge(e, x, w) implies seen2[w]
                || stack2.contains(w) by {
                lemma_edge_in_range(index, x, w);
                if x == u {
                    assert(rs.contains(ResolutionModel::File(w)));
                } else if !seen[w] && w != u {
                    let k = choose|k: int| 0 <= k < stack.len() && stack[k] == w;
                    assert(k != stack.len() - 1);
                    assert(rest[k] == w);
                    assert(rest.contains(w));
                }
            }
            lemma_dfs_closed(index, stack2, seen2);
            let f = dfs_seen(e, stack2, seen2);
            assert forall|j: int| 0 <= j < stack.len() implies f[#[trigger] stack[j]] by {
                if j < stack.len() - 1 {
                    assert(rest[j] == stack[j]);
                    assert(rest.contains(stack[j]));
                    let k = choose|k: int| 0 <= k < stack2.len() && stack2[k] == stack[j];
                }
            }
        }
    }
}

proof fn lemma_push_targets_in_range(index: &Index, rest: Seq<int>, rs: Seq<ResolutionModel>, u: int, j: int)
    requires
        index.wf(),
        resolved_of(index.entries@, u) == Some(rs),
        forall|k: int| 0 <= k < rest.len() ==> 0 <= #[trigger] rest[k] < index.entries@.len(),
        0 <= j < push_targets(rest, rs).len(),
    ensures
        0 <= push_targets(rest, rs)[j] < index.entries@.len(),
{
    lemma_push_targets_range(index, rest, rs, u, rs.len() as int);
    assert(rs.take(rs.len() as int) =~= rs);
}

proof fn lemma_push_targets_range(index: &Index, s: Seq<int>, rs: Seq<ResolutionModel>, u: int, k: int)
    requires
        index.wf(),
        resolved_of(index.entries@, u) == Some(rs),
        0 <= k <= rs.len(),
        forall|i: int| 0 <= i < s.len() ==> 0 <= #[trigger] s[i] < index.entries@.len(),
    ensures
        forall|i: int| 0 <= i < push_targets(s, rs.take(k)).len() ==> 0 <= #[trigger] push_targets(s, rs.take(k))[i]
            < index.entries@.len(),
    decreases k,
{
    if k > 0 {
        let t = rs.take(k);
        assert(t.drop_last() =~= rs.take(k - 1));
        assert(t.last() == rs[k - 1]);
        let s2 = match t.last() {
            ResolutionModel::File(w) => s.push(w),
            ResolutionModel::External(_) => s,
        };
        if let ResolutionModel::File(w) = t.last() {
            assert(rs.contains(ResolutionModel::File(w)));
            assert(edge(index.entries@, u, w));
            lemma_edge_in_range(index, u, w);
        }
        assert forall|i: int| 0 <= i < s2.len() implies 0 <= #[trigger] s2[i] < index.entries@.len() by {
            if i < s.len() {
                assert(s2[i] == s[i]);
            }
        }
        lemma_push_targets_range(index, s2, rs, u, k - 1);
        assert(push_targets(s, t) == push_targets(s2, t.drop_last()));
    } else {
        assert(rs.take(0) =~= Seq::<ResolutionModel>::empty());
    }
}

/// Where the walks of all units meet no unread entry, every entry that the
/// units reach has known includes.
proof fn lemma_walk_complete(index: &Index, units: Seq<int>)
    requires
        index.wf(),
        forall|j: int| 0 <= j < units.len() ==> 0 <= #[trigger] units[j] < index.entries@.len(),
        walk_units(index.entries@, units) is None,
    ensures
        forall|v: int| 0 <= v < index.entries@.len() && reachable(index.entries@, units, v) ==> #[trigger] resolved_of(
            index.entries@,
            v,
        ) is Some,
    decreases units.len(),
{
    let e = index.entries@;
    if units.len() > 0 {
        let rest = units.drop_first();
        assert forall|j: int| 0 <= j < rest.len() implies 0 <= #[trigger] rest[j] < e.len() by {
            assert(rest[j] == units[j + 1]);
        }
        lemma_walk_complete(index, rest);
        let st = seq![units[0]];
        let z = none_seen(e.len());
        assert(units[0] < e.len());
        lemma_dfs_closed(index, st, z);
        let f = dfs_seen(e, st, z);
        assert(f[st[0]]);
        assert forall|v: int| 0 <= v < e.len() && reachable(e, units, v) implies #[trigger] resolved_of(e, v) is Some by {
            let p = choose|p: Seq<int>| #[trigger] is_path(index_edges(e), p) && units.contains(p[0]) && p.last() == v;
            let j = choose|j: int| 0 <= j < units.len() && units[j] == p[0];
            if j == 0 {
                assert forall|a: int, b: int| 0 <= a < f.len() && f[a] && #[trigger] index_edges(e)(a, b) implies 0 <= b
                    < f.len() && f[b] by {
                    assert(edge(e, a, b));
                    lemma_edge_in_range(index, a, b);
                }
                assert(st.contains(p[0])) by {
                    assert(st[0] == p[0]);
                }
                lemma_closed_set_holds(index_edges(e), f, st, p);
            } else {
                assert(rest[j - 1] == p[0]);
                assert(rest.contains(p[0]));
                assert(reachable(e, rest, v));
            }
        }
    }
}

/// The first entry that the walk from `start` enters whose includes are
/// not known yet.
fn dfs_from(index: &Index, start: usize) -> (r: Option<usize>)
    requires
        index.wf(),
        start < index.entries@.len(),
    ensures
        match r {
            Some(v) => dfs_next(index.entries@, seq![start as int], none_seen(index.entries@.len())) == Some(v as int),
            None => dfs_next(index.entries@, seq![start as int], none_seen(index.entries@.len())) is None,
        },
{
    let ghost e = index.entries@;
    let n = index.entries.len();
    let mut seen = all_false(n);
    let mut stack: Vec<usize> = Vec::new();
    stack.push(start);
    let ghost goal = dfs_next(e, seq![start as int], none_seen(e.len()));
    assert(seen@ =~= none_seen(e.len()));
    assert(positions(stack@) =~= seq![start as int]);
    loop
        invariant
            e == index.entries@,
            index.wf(),
            n == e.len(),
            seen@.len() == n,
            forall|j: int| 0 <= j < stack@.len() ==> #[trigger] stack@[j] < n,
            dfs_next(e, positions(stack@), seen@) == goal,
            goal == dfs_next(e, seq![start as int], none_seen(e.len())),
        decreases n - count_set(seen@), stack@.len(),
    {
        let ghost st = positions(stack@);
        proof {
            lemma_count_set_bound(seen@);
        }
        match stack.pop() {
            None => {
                assert(st.len() == 0);
                assert(dfs_next(e, st, seen@) is None);
                return None;
            },
            Some(u) => {
                assert(st.last() == u as int);
                assert(positions(stack@) =~= st.drop_last());
                if seen[u] {
                } else {
                    match resolved_at(index, u) {
                        None => {
                            assert(dfs_next(e, st, seen@) == Some(u as int));
                            return Some(u);
                        },
                        Some(rs) => {
                            let ghost rv = resolutions_view(rs@);
                            let ghost rest = positions(stack@);
                            proof {
                                lemma_count_set_mark(seen@, u as int);
                                lemma_count_set_bound(seen@.update(u as int, true));
                                assert(rv.take(rv.len() as int) =~= rv);
                            }
                            seen.set(u, true);
                            let mut k: usize = rs.len();
                            while k > 0
                                invariant
                                    e == index.entries@,
                                    index.wf(),
                                    n == e.len(),
                                    k <= rs@.len(),
                                    rv == resolutions_view(rs@),
                                    resolved_of(e, u as int) == Some(rv),
                                    forall|j: int| 0 <= j < stack@.len() ==> #[trigger] stack@[j] < n,
                                    push_targets(positions(stack@), rv.take(k as int)) == push_targets(rest, rv),
                                decreases k,
                            {
                                k -= 1;
                                let ghost before = positions(stack@);
                                let ghost t = rv.take(k + 1);
                                assert(t.drop_last() =~= rv.take(k as int));
                                assert(t.last() == rv[k as int]);
                                assert(rv[k as int] == rs@[k as int]@);
                                match &rs[k] {
                                    Resolution::File(w) => {
                                        proof {
                                            assert(rv.contains(ResolutionModel::File(*w as int)));
                                            assert(edge(e, u as int, *w as int));
                                            lemma_edge_in_range(index, u as int, *w as int);
                                        }
                                        stack.push(*w);
                                        assert(positions(stack@) =~= before.push(*w as int));
                                    },
                                    Resolution::External(_) => {},
                                }
                            }
                            assert(rv.take(0) =~= Seq::<ResolutionModel>::empty());
                        },
                    }
                }
            },
        }
    }
}

/// The next file to read, as the walk of the units reads them: each unit
/// in turn, depth first, the files it includes in include order, a file
/// being read when the walk first enters it. Only files that some unit
/// needs are ever asked for, and `Done` comes once every file that the
/// units reach has been read.
pub fn next_to_read(index: &Index, units: &[usize]) -> (r: ReadStep)
    requires
        index.wf(),
        forall|j: int| 0 <= j < units@.len() ==> units@[j] < index.entries@.len(),
    ensures
        match r {
            ReadStep::Read(x) => walk_units(index.entries@, positions(units@)) matches Some(v) && real_source(
                index.entries@,
                v,
            ) == Some(x as int) && 0 <= x < index.entries@.len() && index.entries@[x as int].info.resolved is None,
            ReadStep::Cycle(v) => walk_units(index.entries@, positions(units@)) == Some(v as int) && real_source(
                index.entries@,
                v as int,
            ) is None,
            ReadStep::Done => walk_units(index.entries@, positions(units@)) is None && forall|v: int|
                0 <= v < index.entries@.len() && reachable(index.entries@, positions(units@), v)
                    ==> #[trigger] resolved_of(index.entries@, v) is Some,
        },
{
    let ghost e = index.entries@;
    let ghost sp = positions(units@);
    let mut j: usize = 0;
    assert(sp.subrange(0, sp.len() as int) =~= sp);
    while j < units.len()
        invariant
            e == index.entries@,
            index.wf(),
            sp == positions(units@),
            0 <= j <= units@.len(),
            forall|i: int| 0 <= i < units@.len() ==> units@[i] < e.len(),
            walk_units(e, sp) == walk_units(e, sp.subrange(j as int, sp.len() as int)),
        decreases units@.len() - j,
    {
        let ghost tail = sp.subrange(j as int, sp.len() as int);
        assert(tail[0] == units@[j as int] as int);
        assert(tail.drop_first() =~= sp.subrange(j + 1, sp.len() as int));
        match dfs_from(index, units[j]) {
            Some(v) => {
                proof {
                    lemma_dfs_found(e, seq![units@[j as int] as int], none_seen(e.len()));
                    lemma_real_within(e, v as int, e.len());
                }
                return match real_source_of(index, v) {
                    None => ReadStep::Cycle(v),
                    Some(x) => ReadStep::Read(x),
                };
            },
            None => {},
        }
        j += 1;
    }
    proof {
        assert(sp.subrange(j as int, sp.len() as int).len() == 0);
        lemma_walk_complete(index, sp);
    }
    ReadStep::Done
}

/// What the walk finds is an entry whose includes are unknown.
proof fn lemma_dfs_found(e: Seq<IndexEntry>, stack: Seq<int>, seen: Seq<bool>)
    ensures
        dfs_next(e, stack, seen) matches Some(v) ==> 0 <= v < seen.len() && resolved_of(e, v) is None,
    decreases seen.len() - count_set(seen), stack.len(),
{
    if stack.len() > 0 {
        let u = stack.last();
        let rest = stack.drop_last();
        if !(0 <= u < seen.len()) || seen[u] {
            lemma_dfs_found(e, rest, seen);
        } else if let Some(rs) = resolved_of(e, u) {
            lemma_count_set_mark(seen, u);
            lemma_count_set_bound(seen.update(u, true));
            lemma_dfs_found(e, push_targets(rest, rs), seen.update(u, true));
        }
    }
}

} // verus!
