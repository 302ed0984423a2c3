//! Filtering twice is filtering once.

use crate::filter::{FilterModel, QueryModel};
use crate::graph::{all_deps, graph_wf, NodeModel};
use crate::graph_filter::{
    alive, deps_in_range, eval_query, filtered, keeps, kept, kept_edges, kept_members,
    lemma_eval_all, lemma_eval_any, lemma_kinds_in_range, lemma_marked_subset, lemma_rank_bound,
    lemma_select_index, lemma_select_len, lemma_select_origin, lemma_select_wf, lemma_wf_in_range,
    marked_deps, passes, rank, select, select_deps, select_node,
};
use crate::reach::{
    closed_marks, edges_wf, has_edge, is_path, lemma_closed_holds_reachable, lemma_reaches_self,
    lemma_reaches_step, path_between, reachable_from, reaches,
};
use vstd::prelude::*;

verus! {

/// Two nodes agree in everything but their dependencies.
pub open spec fn same_properties(a: NodeModel, b: NodeModel) -> bool {
    &&& a.name == b.name
    &&& a.version == b.version
    &&& a.is_third_party == b.is_third_party
    &&& a.is_workspace_member == b.is_workspace_member
    &&& a.is_root == b.is_root
    &&& a.is_dev_only == b.is_dev_only
}

/// A query does not look at dependencies.
pub proof fn lemma_query_same(query: QueryModel, a: NodeModel, b: NodeModel)
    requires
        same_properties(a, b),
    ensures
        eval_query(query, a) == eval_query(query, b),
    decreases query,
{
    match query {
        QueryModel::Any(queries) => {
            assert forall|i: int| 0 <= i < queries.len() implies eval_query(
                #[trigger] queries[i],
                a,
            ) == eval_query(queries[i], b) by {
                lemma_query_same(queries[i], a, b);
            }
            lemma_eval_any(queries, a);
            lemma_eval_any(queries, b);
        },
        QueryModel::All(queries) => {
            assert forall|i: int| 0 <= i < queries.len() implies eval_query(
                #[trigger] queries[i],
                a,
            ) == eval_query(queries[i], b) by {
                lemma_query_same(queries[i], a, b);
            }
            lemma_eval_all(queries, a);
            lemma_eval_all(queries, b);
        },
        QueryModel::Not(inner) => {
            lemma_query_same(*inner, a, b);
        },
        QueryModel::Prop(property) => {},
    }
}

/// Filters do not look at dependencies.
pub proof fn lemma_passes_same(filters: Seq<FilterModel>, a: NodeModel, b: NodeModel)
    requires
        same_properties(a, b),
    ensures
        passes(filters, a) == passes(filters, b),
{
    assert forall|i: int| 0 <= i < filters.len() implies keeps(#[trigger] filters[i], a) == keeps(
        filters[i],
        b,
    ) by {
        match filters[i] {
            FilterModel::Include(query) => {
                lemma_query_same(query, a, b);
            },
            FilterModel::Exclude(query) => {
                lemma_query_same(query, a, b);
            },
        }
    }
}

/// The edges between kept nodes lead to kept nodes of the graph.
proof fn lemma_kept_edges_wf(graph: Seq<NodeModel>, keep: Seq<bool>)
    requires
        deps_in_range(graph),
        keep.len() == graph.len(),
    ensures
        edges_wf(kept_edges(graph, keep)),
        forall|u: int, k: int|
            0 <= u < graph.len() && 0 <= k < kept_edges(graph, keep)[u].len() ==> keep[(
            #[trigger] kept_edges(graph, keep)[u][k]) as int],
{
    let edges = kept_edges(graph, keep);
    assert forall|u: int, k: int| 0 <= u < edges.len() && 0 <= k < edges[u].len() implies (
    #[trigger] edges[u][k]) < edges.len() && keep[edges[u][k] as int] by {
        if keep[u] {
            lemma_marked_subset(all_deps(graph[u]), keep, k);
            let d = edges[u][k];
            let w = choose|w: int| 0 <= w < all_deps(graph[u]).len() && all_deps(graph[u])[w] == d;
            assert(all_deps(graph[u])[w] < graph.len());
        }
    }
}

/// A node that is alive is kept.
pub proof fn lemma_alive_kept(graph: Seq<NodeModel>, keep: Seq<bool>, i: int)
    requires
        deps_in_range(graph),
        keep.len() == graph.len(),
        0 <= i < graph.len(),
        alive(graph, keep)[i],
    ensures
        keep[i],
{
    let edges = kept_edges(graph, keep);
    let sources = kept_members(graph, keep);
    lemma_kept_edges_wf(graph, keep);
    assert(closed_marks(edges, sources, keep));
    lemma_closed_holds_reachable(edges, sources, keep, i);
}

/// Where every node is marked, a node's rank is its place.
proof fn lemma_rank_all(marks: Seq<bool>, i: int)
    requires
        0 <= i <= marks.len(),
        forall|j: int| 0 <= j < marks.len() ==> marks[j],
    ensures
        rank(marks, i) == i,
    decreases i,
{
    if i > 0 {
        lemma_rank_all(marks, i - 1);
    }
}

/// Where every node is marked, nothing is taken from dependencies in range.
proof fn lemma_marked_all_kept(deps: Seq<usize>, marks: Seq<bool>)
    requires
        forall|j: int| 0 <= j < marks.len() ==> marks[j],
        forall|k: int| 0 <= k < deps.len() ==> (#[trigger] deps[k]) < marks.len(),
    ensures
        marked_deps(deps, marks) == deps,
        select_deps(deps, marks) == deps,
    decreases deps.len(),
{
    let pred = |d: usize| marks[d as int];
    reveal(Seq::filter);
    if deps.len() > 0 {
        let shorter = deps.drop_last();
        assert forall|k: int| 0 <= k < shorter.len() implies (#[trigger] shorter[k]) < marks.len() by {
            assert(shorter[k] == deps[k]);
        }
        lemma_marked_all_kept(shorter, marks);
        assert(deps.last() == deps[deps.len() - 1]);
        assert(pred(deps.last()));
        assert(deps.filter(pred) == shorter.filter(pred).push(deps.last()));
        assert(shorter.push(deps.last()) =~= deps);
    } else {
        assert(deps.filter(pred) =~= deps);
    }
    assert forall|k: int| 0 <= k < deps.len() implies select_deps(deps, marks)[k] == deps[k] by {
        lemma_rank_all(marks, deps[k] as int);
    }
    assert(select_deps(deps, marks) =~= deps);
}

/// Selecting every node of a graph gives the graph.
pub proof fn lemma_select_everything(graph: Seq<NodeModel>, marks: Seq<bool>, upto: int)
    requires
        deps_in_range(graph),
        marks.len() == graph.len(),
        forall|j: int| 0 <= j < marks.len() ==> marks[j],
        0 <= upto <= graph.len(),
    ensures
        select(graph, marks, upto) == graph.subrange(0, upto),
    decreases upto,
{
    if upto > 0 {
        lemma_select_everything(graph, marks, upto - 1);
        let node = graph[upto - 1];
        lemma_kinds_in_range(graph, upto - 1);
        lemma_marked_all_kept(node.normal_deps, marks);
        lemma_marked_all_kept(node.dev_deps, marks);
        lemma_marked_all_kept(node.build_deps, marks);
        assert(select_node(node, marks) == node);
        assert(graph.subrange(0, upto - 1).push(node) =~= graph.subrange(0, upto));
    } else {
        assert(graph.subrange(0, 0) =~= Seq::<NodeModel>::empty());
    }
}

/// A marked dependency of a node is, by its rank, a dependency of the
/// selected node.
proof fn lemma_selected_dep(deps: Seq<usize>, marks: Seq<bool>, k: int) -> (t: int)
    requires
        0 <= k < deps.len(),
        marks[deps[k] as int],
    ensures
        0 <= t < select_deps(deps, marks).len(),
        select_deps(deps, marks)[t] == rank(marks, deps[k] as int) as usize,
{
    let pred = |d: usize| marks[d as int];
    deps.filter_lemma(pred);
    assert(pred(deps[k]));
    assert(marked_deps(deps, marks).contains(deps[k]));
    let t = choose|t: int|
        0 <= t < marked_deps(deps, marks).len() && marked_deps(deps, marks)[t] == deps[k];
    t
}

/// An edge between kept nodes that are alive is, by their ranks, an edge of
/// the selected graph, in which every node is kept.
proof fn lemma_edge_selected(
    graph: Seq<NodeModel>,
    keep: Seq<bool>,
    every: Seq<bool>,
    u: int,
    v: int,
)
    requires
        deps_in_range(graph),
        keep.len() == graph.len(),
        graph.len() <= usize::MAX,
        0 <= u < graph.len(),
        0 <= v < graph.len(),
        alive(graph, keep)[u],
        alive(graph, keep)[v],
        has_edge(kept_edges(graph, keep), u, v),
        every.len() == select(graph, alive(graph, keep), graph.len() as int).len(),
        forall|j: int| 0 <= j < every.len() ==> every[j],
        deps_in_range(select(graph, alive(graph, keep), graph.len() as int)),
    ensures
        has_edge(
            kept_edges(select(graph, alive(graph, keep), graph.len() as int), every),
            rank(alive(graph, keep), u) as int,
            rank(alive(graph, keep), v) as int,
        ),
{
    let live = alive(graph, keep);
    let out = select(graph, live, graph.len() as int);
    let edges = kept_edges(graph, keep);
    let k = choose|k: int| 0 <= k < edges[u].len() && #[trigger] edges[u][k] == v;
    lemma_alive_kept(graph, keep, u);
    lemma_marked_subset(all_deps(graph[u]), keep, k);
    let node = graph[u];
    let all = all_deps(node);
    let w = choose|w: int| 0 <= w < all.len() && all[w] == v as usize;
    lemma_select_index(graph, live, graph.len() as int, u);
    lemma_rank_bound(live, u);
    lemma_rank_bound(live, v);
    let r = rank(live, u) as int;
    let target = rank(live, v) as usize;
    assert(out[r] == select_node(node, live));
    let a = select_deps(node.normal_deps, live);
    let b = select_deps(node.dev_deps, live);
    let c = select_deps(node.build_deps, live);
    assert(all_deps(out[r]) == a + b + c);
    let place = if w < node.normal_deps.len() {
        assert(all[w] == node.normal_deps[w]);
        lemma_selected_dep(node.normal_deps, live, w)
    } else if w < node.normal_deps.len() + node.dev_deps.len() {
        assert(all[w] == node.dev_deps[w - node.normal_deps.len()]);
        lemma_selected_dep(node.dev_deps, live, w - node.normal_deps.len()) + a.len()
    } else {
        assert(all[w] == node.build_deps[w - node.normal_deps.len() - node.dev_deps.len()]);
        lemma_selected_dep(
            node.build_deps,
            live,
            w - node.normal_deps.len() - node.dev_deps.len(),
        ) + a.len() + b.len()
    };
    assert(all_deps(out[r])[place] == target);
    assert forall|j: int| 0 <= j < all_deps(out[r]).len() implies (#[trigger] all_deps(out[r])[j])
        < every.len() by {}
    lemma_marked_all_kept(all_deps(out[r]), every);
    assert(kept_edges(out, every)[r] == all_deps(out[r]));
    assert(kept_edges(out, every)[r][place] == target);
}

/// The first `len` nodes of a walk from a source are alive, and the last of
/// them is, by its rank, reached from a source of the selected graph.
proof fn lemma_walk_selected(
    graph: Seq<NodeModel>,
    keep: Seq<bool>,
    every: Seq<bool>,
    path: Seq<int>,
    len: int,
)
    requires
        deps_in_range(graph),
        keep.len() == graph.len(),
        graph.len() <= usize::MAX,
        is_path(kept_edges(graph, keep), path),
        kept_members(graph, keep)[path[0]],
        1 <= len <= path.len(),
        every.len() == select(graph, alive(graph, keep), graph.len() as int).len(),
        forall|j: int| 0 <= j < every.len() ==> every[j],
        deps_in_range(select(graph, alive(graph, keep), graph.len() as int)),
    ensures
        alive(graph, keep)[path[len - 1]],
        reachable_from(
            kept_edges(select(graph, alive(graph, keep), graph.len() as int), every),
            kept_members(select(graph, alive(graph, keep), graph.len() as int), every),
            rank(alive(graph, keep), path[len - 1]) as int,
        ),
    decreases len,
{
    let live = alive(graph, keep);
    let out = select(graph, live, graph.len() as int);
    let edges = kept_edges(graph, keep);
    let sources = kept_members(graph, keep);
    let new_edges = kept_edges(out, every);
    let new_sources = kept_members(out, every);
    let first = path[0];
    assert(0 <= first < graph.len());
    if len == 1 {
        lemma_reaches_self(edges, first);
        assert(reachable_from(edges, sources, first));
        lemma_select_index(graph, live, graph.len() as int, first);
        let r = rank(live, first) as int;
        assert(out[r] == select_node(graph[first], live));
        assert(new_sources[r]);
        lemma_reaches_self(new_edges, r);
    } else {
        lemma_walk_selected(graph, keep, every, path, len - 1);
        let u = path[len - 2];
        let v = path[len - 1];
        assert(0 <= u < graph.len());
        assert(0 <= v < graph.len());
        assert(has_edge(edges, u, path[len - 2 + 1]));
        let s = choose|s: int|
            0 <= s < sources.len() && sources[s] && #[trigger] reaches(edges, s, u);
        lemma_reaches_step(edges, s, u, v);
        assert(reachable_from(edges, sources, v));
        lemma_edge_selected(graph, keep, every, u, v);
        lemma_select_index(graph, live, graph.len() as int, v);
        let ru = rank(live, u) as int;
        let rv = rank(live, v) as int;
        let t = choose|t: int|
            0 <= t < new_sources.len() && new_sources[t] && #[trigger] reaches(new_edges, t, ru);
        lemma_reaches_step(new_edges, t, ru, rv);
    }
}

/// Every node of the graph is a workspace member, or a workspace member
/// reaches it through the graph's edges.
pub open spec fn rooted(graph: Seq<NodeModel>) -> bool {
    let every = Seq::new(graph.len(), |j: int| true);
    forall|i: int| 0 <= i < graph.len() ==> #[trigger] alive(graph, every)[i]
}

/// In a filtered graph every node is a workspace member, or a workspace
/// member reaches it: what the filters cut off from the workspace is gone.
pub proof fn lemma_filtered_rooted(graph: Seq<NodeModel>, filters: Seq<FilterModel>)
    requires
        graph_wf(graph),
        graph.len() <= usize::MAX,
    ensures
        rooted(filtered(graph, filters)),
{
    let keep = kept(graph, filters);
    let live = alive(graph, keep);
    let out = filtered(graph, filters);
    let n = graph.len() as int;
    lemma_wf_in_range(graph);
    lemma_select_wf(graph, live);
    lemma_wf_in_range(out);
    lemma_select_len(graph, live, n);
    let every = Seq::new(out.len(), |j: int| true);
    let live2 = alive(out, every);
    assert forall|r: int| 0 <= r < out.len() implies #[trigger] live2[r] by {
        let i = lemma_select_origin(graph, live, n, r);
        let edges = kept_edges(graph, keep);
        let sources = kept_members(graph, keep);
        assert(reachable_from(edges, sources, i));
        let s = choose|s: int| 0 <= s < sources.len() && sources[s] && #[trigger] reaches(edges, s, i);
        let path = choose|path: Seq<int>| path_between(edges, path, s, i);
        lemma_walk_selected(graph, keep, every, path, path.len() as int);
    }
}

/// Filtering a filtered graph changes nothing: the filters keep every node
/// that they left, and every node that they left is still reached from the
/// workspace.
pub proof fn lemma_filter_stable(graph: Seq<NodeModel>, filters: Seq<FilterModel>)
    requires
        graph_wf(graph),
        graph.len() <= usize::MAX,
    ensures
        filtered(filtered(graph, filters), filters) == filtered(graph, filters),
{
    let keep = kept(graph, filters);
    let live = alive(graph, keep);
    let out = filtered(graph, filters);
    let n = graph.len() as int;
    lemma_wf_in_range(graph);
    lemma_select_wf(graph, live);
    lemma_wf_in_range(out);
    lemma_select_len(graph, live, n);
    let keep2 = kept(out, filters);
    let every = Seq::new(out.len(), |j: int| true);
    assert forall|r: int| 0 <= r < out.len() implies #[trigger] keep2[r] by {
        let i = lemma_select_origin(graph, live, n, r);
        lemma_alive_kept(graph, keep, i);
        lemma_passes_same(filters, graph[i], out[r]);
    }
    assert(keep2 =~= every);
    let live2 = alive(out, keep2);
    lemma_filtered_rooted(graph, filters);
    assert forall|r: int| 0 <= r < out.len() implies #[trigger] live2[r] by {
        assert(alive(out, every)[r]);
    }
    assert(live2 =~= every);
    lemma_select_everything(out, every, out.len() as int);
    assert(out.subrange(0, out.len() as int) =~= out);
}

} // verus!
