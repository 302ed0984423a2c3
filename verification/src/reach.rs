//! Reachability in a directed graph whose nodes are the indices `0..n` and
//! whose edges are adjacency lists.

use vstd::prelude::*;

verus! {

/// The adjacency lists of `adj` as a mathematical value.
pub open spec fn edges_of(adj: &Vec<Vec<usize>>) -> Seq<Seq<usize>> {
    Seq::new(adj@.len(), |u: int| adj@[u]@)
}

/// Every edge ends at a node of the graph.
pub open spec fn edges_wf(edges: Seq<Seq<usize>>) -> bool {
    forall|u: int, k: int|
        0 <= u < edges.len() && 0 <= k < edges[u].len() ==> (#[trigger] edges[u][k]) < edges.len()
}

/// There is an edge from `u` to `v`.
pub open spec fn has_edge(edges: Seq<Seq<usize>>, u: int, v: int) -> bool {
    0 <= u < edges.len() && exists|k: int| 0 <= k < edges[u].len() && #[trigger] edges[u][k] == v
}

/// `path` is a non-empty walk along edges of the graph.
pub open spec fn is_path(edges: Seq<Seq<usize>>, path: Seq<int>) -> bool {
    &&& path.len() > 0
    &&& forall|i: int| 0 <= i < path.len() ==> 0 <= #[trigger] path[i] < edges.len()
    &&& forall|i: int| 0 <= i < path.len() - 1 ==> has_edge(edges, #[trigger] path[i], path[i + 1])
}

/// `path` leads from `u` to `v`.
pub open spec fn path_between(edges: Seq<Seq<usize>>, path: Seq<int>, u: int, v: int) -> bool {
    is_path(edges, path) && path[0] == u && path.last() == v
}

/// `v` can be reached from `u` in zero or more steps.
pub open spec fn reaches(edges: Seq<Seq<usize>>, u: int, v: int) -> bool {
    exists|path: Seq<int>| path_between(edges, path, u, v)
}

/// `v` can be reached from some node marked in `sources`.
pub open spec fn reachable_from(edges: Seq<Seq<usize>>, sources: Seq<bool>, v: int) -> bool {
    exists|u: int| 0 <= u < sources.len() && sources[u] && #[trigger] reaches(edges, u, v)
}

/// `marks` holds every source and is closed under the edges.
pub open spec fn closed_marks(
    edges: Seq<Seq<usize>>,
    sources: Seq<bool>,
    marks: Seq<bool>,
) -> bool {
    &&& marks.len() == edges.len()
    &&& forall|u: int| 0 <= u < sources.len() && u < marks.len() && sources[u] ==> #[trigger] marks[u]
    &&& forall|u: int, k: int|
        0 <= u < edges.len() && marks[u] && 0 <= k < edges[u].len() ==> marks[(
        #[trigger] edges[u][k]) as int]
}

/// Every node reaches itself.
pub proof fn lemma_reaches_self(edges: Seq<Seq<usize>>, u: int)
    requires
        0 <= u < edges.len(),
    ensures
        reaches(edges, u, u),
{
    assert(path_between(edges, seq![u], u, u));
}

/// A walk can be extended by one edge.
pub proof fn lemma_reaches_step(edges: Seq<Seq<usize>>, u: int, v: int, w: int)
    requires
        reaches(edges, u, v),
        has_edge(edges, v, w),
        0 <= w < edges.len(),
    ensures
        reaches(edges, u, w),
{
    let p = choose|p: Seq<int>| path_between(edges, p, u, v);
    let q = p.push(w);
    assert forall|i: int| 0 <= i < q.len() - 1 implies has_edge(edges, #[trigger] q[i], q[i + 1]) by {
        if i < p.len() - 1 {
            assert(q[i] == p[i] && q[i + 1] == p[i + 1]);
        }
    }
    assert(path_between(edges, q, u, w));
}

/// Walks compose.
pub proof fn lemma_reaches_trans(edges: Seq<Seq<usize>>, u: int, v: int, w: int)
    requires
        reaches(edges, u, v),
        reaches(edges, v, w),
    ensures
        reaches(edges, u, w),
{
    let p = choose|p: Seq<int>| path_between(edges, p, u, v);
    let q = choose|q: Seq<int>| path_between(edges, q, v, w);
    let r = p + q.subrange(1, q.len() as int);
    assert forall|i: int| 0 <= i < r.len() - 1 implies has_edge(edges, #[trigger] r[i], r[i + 1]) by {
        if i < p.len() - 1 {
            assert(r[i] == p[i] && r[i + 1] == p[i + 1]);
        } else {
            assert(r[i + 1] == q[i + 1 - p.len() + 1]);
            if i == p.len() - 1 {
                assert(r[i] == p[i] && p[i] == q[0]);
            } else {
                assert(r[i] == q[i - p.len() + 1]);
            }
            assert(has_edge(edges, q[i - p.len() + 1], q[i - p.len() + 1 + 1]));
        }
    }
    assert(r.last() == w) by {
        if q.len() == 1 {
            assert(r =~= p);
        }
    }
    assert(path_between(edges, r, u, w));
}

/// The first `len` nodes of a walk that starts inside a closed marking are
/// marked.
proof fn lemma_closed_holds_prefix(
    edges: Seq<Seq<usize>>,
    sources: Seq<bool>,
    marks: Seq<bool>,
    path: Seq<int>,
    len: int,
)
    requires
        closed_marks(edges, sources, marks),
        is_path(edges, path),
        marks[path[0]],
        1 <= len <= path.len(),
    ensures
        marks[path[len - 1]],
    decreases len,
{
    if len > 1 {
        lemma_closed_holds_prefix(edges, sources, marks, path, len - 1);
        let a = path[len - 2];
        let b = path[len - 1];
        assert(has_edge(edges, a, path[len - 2 + 1]));
        let k = choose|k: int| 0 <= k < edges[a].len() && #[trigger] edges[a][k] == b;
        assert(marks[edges[a][k] as int]);
    }
}

/// A closed marking holds every node that can be reached from a source.
pub proof fn lemma_closed_holds_reachable(
    edges: Seq<Seq<usize>>,
    sources: Seq<bool>,
    marks: Seq<bool>,
    v: int,
)
    requires
        closed_marks(edges, sources, marks),
        sources.len() == edges.len(),
        reachable_from(edges, sources, v),
    ensures
        0 <= v < marks.len(),
        marks[v],
{
    let u = choose|u: int| 0 <= u < sources.len() && sources[u] && #[trigger] reaches(edges, u, v);
    let p = choose|p: Seq<int>| path_between(edges, p, u, v);
    lemma_closed_holds_prefix(edges, sources, marks, p, p.len() as int);
}

/// The number of marked entries.
pub open spec fn count_marked(marks: Seq<bool>) -> nat
    decreases marks.len(),
{
    if marks.len() == 0 {
        0
    } else {
        count_marked(marks.drop_last()) + if marks.last() {
            1nat
        } else {
            0nat
        }
    }
}

proof fn lemma_count_bound(marks: Seq<bool>)
    ensures
        count_marked(marks) <= marks.len(),
    decreases marks.len(),
{
    if marks.len() > 0 {
        lemma_count_bound(marks.drop_last());
    }
}

proof fn lemma_count_mark(marks: Seq<bool>, i: int)
    requires
        0 <= i < marks.len(),
        !marks[i],
    ensures
        count_marked(marks.update(i, true)) == count_marked(marks) + 1,
    decreases marks.len(),
{
    let after = marks.update(i, true);
    if i == marks.len() - 1 {
        assert(after.drop_last() =~= marks.drop_last());
    } else {
        lemma_count_mark(marks.drop_last(), i);
        assert(after.drop_last() =~= marks.drop_last().update(i, true));
    }
}

/// A vector of `n` entries, none of them marked.
pub fn unmarked(n: usize) -> (marks: Vec<bool>)
    ensures
        marks@.len() == n,
        forall|i: int| 0 <= i < n ==> !marks@[i],
{
    let mut marks: Vec<bool> = Vec::new();
    let mut i: usize = 0;
    while i < n
        invariant
            i <= n,
            marks@.len() == i,
            forall|j: int| 0 <= j < i ==> !marks@[j],
        decreases n - i,
    {
        marks.push(false);
        i += 1;
    }
    marks
}

/// Marks exactly the nodes that can be reached from a node marked in
/// `sources`.
pub fn reach_from(adj: &Vec<Vec<usize>>, sources: &Vec<bool>) -> (marks: Vec<bool>)
    requires
        edges_wf(edges_of(adj)),
        sources@.len() == adj@.len(),
    ensures
        marks@.len() == adj@.len(),
        forall|v: int|
            0 <= v < adj@.len() ==> marks@[v] == reachable_from(edges_of(adj), sources@, v),
        forall|v: int| reachable_from(edges_of(adj), sources@, v) ==> 0 <= v < adj@.len(),
{
    let n = adj.len();
    let ghost edges = edges_of(adj);
    let mut marks = unmarked(n);
    let mut stack: Vec<usize> = Vec::new();
    let mut s: usize = 0;
    while s < n
        invariant
            s <= n,
            n == adj@.len(),
            sources@.len() == n,
            marks@.len() == n,
            edges == edges_of(adj),
            forall|v: int| 0 <= v < n && marks@[v] ==> reachable_from(edges, sources@, v),
            forall|u: int| 0 <= u < s && sources@[u] ==> marks@[u],
            forall|u: int| 0 <= u < n && marks@[u] ==> stack@.contains(u as usize),
            forall|i: int| 0 <= i < stack@.len() ==> stack@[i] < n && marks@[stack@[i] as int],
        decreases n - s,
    {
        if sources[s] {
            proof {
                lemma_reaches_self(edges, s as int);
            }
            let ghost old_stack = stack@;
            marks.set(s, true);
            stack.push(s);
            proof {
                assert forall|u: int| 0 <= u < n && marks@[u] implies stack@.contains(
                    u as usize,
                ) by {
                    if u == s {
                        assert(stack@[old_stack.len() as int] == s);
                    } else {
                        let i = choose|i: int| 0 <= i < old_stack.len() && old_stack[i] == u as usize;
                        assert(stack@[i] == u as usize);
                    }
                }
            }
        }
        s += 1;
    }
    proof {
        lemma_count_bound(marks@);
    }
    while stack.len() > 0
        invariant
            n == adj@.len(),
            sources@.len() == n,
            marks@.len() == n,
            edges == edges_of(adj),
            edges_wf(edges),
            forall|v: int| 0 <= v < n && #[trigger] marks@[v] ==> reachable_from(edges, sources@, v),
            forall|u: int| 0 <= u < n && #[trigger] sources@[u] ==> marks@[u],
            forall|i: int|
                0 <= i < stack@.len() ==> (#[trigger] stack@[i]) < n && marks@[stack@[i] as int],
            forall|u: int, k: int|
                0 <= u < n && marks@[u] && !stack@.contains(u as usize) && 0 <= k < edges[u].len()
                    ==> marks@[(#[trigger] edges[u][k]) as int],
            count_marked(marks@) <= n,
        decreases 2 * (n - count_marked(marks@)) + stack@.len(),
    {
        let ghost before = stack@;
        let u = stack.pop().unwrap();
        let ghost popped = stack@;
        let ghost marks_before = marks@;
        assert(before =~= popped.push(u));
        assert(before[popped.len() as int] == u);
        let row = &adj[u];
        let mut k: usize = 0;
        while k < row.len()
            invariant
                k <= row@.len(),
                u < n,
                n == adj@.len(),
                sources@.len() == n,
                marks@.len() == n,
                marks_before.len() == n,
                edges == edges_of(adj),
                edges_wf(edges),
                row@ == edges[u as int],
                marks@[u as int],
                forall|v: int|
                    0 <= v < n && #[trigger] marks@[v] ==> reachable_from(edges, sources@, v),
                forall|v: int| 0 <= v < n && #[trigger] marks_before[v] ==> marks@[v],
                forall|v: int|
                    0 <= v < n && #[trigger] marks@[v] && !marks_before[v] ==> stack@.contains(
                        v as usize,
                    ),
                stack@.len() >= popped.len(),
                stack@.subrange(0, popped.len() as int) =~= popped,
                forall|i: int|
                    0 <= i < stack@.len() ==> (#[trigger] stack@[i]) < n && marks@[stack@[i] as int],
                forall|j: int| 0 <= j < k ==> marks@[(#[trigger] row@[j]) as int],
                count_marked(marks@) <= n,
                2 * (n - count_marked(marks@)) + stack@.len() <= 2 * (n - count_marked(
                    marks_before,
                )) + popped.len(),
            decreases row@.len() - k,
        {
            let v = row[k];
            assert(edges[u as int][k as int] == v);
            if !marks[v] {
                proof {
                    let src = choose|src: int|
                        0 <= src < sources@.len() && sources@[src] && #[trigger] reaches(
                            edges,
                            src,
                            u as int,
                        );
                    assert(has_edge(edges, u as int, v as int));
                    lemma_reaches_step(edges, src, u as int, v as int);
                    lemma_count_mark(marks@, v as int);
                    lemma_count_bound(marks@.update(v as int, true));
                }
                let ghost stack_before = stack@;
                marks.set(v, true);
                stack.push(v);
                proof {
                    assert(stack@.subrange(0, popped.len() as int) =~= stack_before.subrange(
                        0,
                        popped.len() as int,
                    ));
                    assert forall|x: int|
                        0 <= x < n && #[trigger] marks@[x] && !marks_before[x] implies stack@.contains(
                        x as usize,
                    ) by {
                        if x == v {
                            assert(stack@[stack_before.len() as int] == v);
                        } else {
                            assert(stack_before.contains(x as usize));
                            let i = choose|i: int|
                                0 <= i < stack_before.len() && stack_before[i] == x as usize;
                            assert(stack@[i] == x as usize);
                        }
                    }
                }
            }
            k += 1;
        }
        proof {
            assert forall|x: int, j: int|
                0 <= x < n && marks@[x] && !stack@.contains(x as usize) && 0 <= j
                    < edges[x].len() implies marks@[(#[trigger] edges[x][j]) as int] by {
                if x == u {
                    assert(marks@[row@[j] as int]);
                } else {
                    if !marks_before[x] {
                        assert(stack@.contains(x as usize));
                    }
                    if before.contains(x as usize) {
                        let i = choose|i: int| 0 <= i < before.len() && before[i] == x as usize;
                        assert(i < popped.len());
                        assert(stack@.subrange(0, popped.len() as int)[i] == popped[i]);
                        assert(stack@[i] == x as usize);
                    }
                    assert(marks_before[(edges[x][j]) as int]);
                }
            }
        }
    }
    proof {
        assert(closed_marks(edges, sources@, marks@)) by {
            assert forall|x: int, j: int|
                0 <= x < edges.len() && marks@[x] && 0 <= j < edges[x].len() implies marks@[(
            #[trigger] edges[x][j]) as int] by {
                assert(!stack@.contains(x as usize));
            }
        }
        assert forall|v: int| reachable_from(edges, sources@, v) implies 0 <= v < n && marks@[v] by {
            lemma_closed_holds_reachable(edges, sources@, marks@, v);
        }
    }
    marks
}

} // verus!
