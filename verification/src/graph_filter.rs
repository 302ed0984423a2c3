//! Filtering a dependency graph: which nodes a list of filters keeps, and
//! the graph that is left of them.

use crate::filter_laws::{lemma_filtered_rooted, rooted};
use crate::filter::{
    lemma_all_model, lemma_any_model, query_views, FilterModel, GraphFilter, GraphFilterProperty,
    GraphFilterQuery, PropertyModel, QueryModel,
};
use crate::graph::{
    all_deps, all_edges, arranged, deps_known, graph_wf, no_graph, unique_nodes,
    unique_packages, DepGraph, GraphError, Metadata, NodeModel, PackageNode,
};
use crate::reach::{edges_of, edges_wf, reach_from, reachable_from};
use crate::text::str_eq;
use crate::topo::sortable;
use vstd::prelude::*;

verus! {

/// Whether a node has a property.
pub open spec fn eval_property(property: PropertyModel, node: NodeModel) -> bool {
    match property {
        PropertyModel::Name(name) => node.name == name,
        PropertyModel::Version(version) => node.version == version,
        PropertyModel::IsRoot(flag) => node.is_root == flag,
        PropertyModel::IsWorkspaceMember(flag) => node.is_workspace_member == flag,
        PropertyModel::IsThirdParty(flag) => node.is_third_party == flag,
        PropertyModel::IsDevOnly(flag) => node.is_dev_only == flag,
    }
}

/// Whether a node matches a query.
pub open spec fn eval_query(query: QueryModel, node: NodeModel) -> bool
    decreases query,
{
    match query {
        QueryModel::Any(queries) => exists|i: int|
            0 <= i < queries.len() && eval_query(#[trigger] queries[i], node),
        QueryModel::All(queries) => forall|i: int|
            0 <= i < queries.len() ==> eval_query(#[trigger] queries[i], node),
        QueryModel::Not(inner) => !eval_query(*inner, node),
        QueryModel::Prop(property) => eval_property(property, node),
    }
}

/// Whether a filter keeps a node.
pub open spec fn keeps(filter: FilterModel, node: NodeModel) -> bool {
    match filter {
        FilterModel::Include(query) => eval_query(query, node),
        FilterModel::Exclude(query) => !eval_query(query, node),
    }
}

/// Whether every filter keeps a node.
pub open spec fn passes(filters: Seq<FilterModel>, node: NodeModel) -> bool {
    forall|i: int| 0 <= i < filters.len() ==> keeps(#[trigger] filters[i], node)
}

/// The filters of a list as mathematical values.
pub open spec fn filter_views(filters: Seq<GraphFilter>) -> Seq<FilterModel> {
    Seq::new(filters.len(), |i: int| filters[i]@)
}

/// For each node, whether every filter keeps it.
pub open spec fn kept(graph: Seq<NodeModel>, filters: Seq<FilterModel>) -> Seq<bool> {
    Seq::new(graph.len(), |i: int| passes(filters, graph[i]))
}

/// Those of `deps` that are marked in `keep`.
pub open spec fn marked_deps(deps: Seq<usize>, keep: Seq<bool>) -> Seq<usize> {
    deps.filter(|d: usize| keep[d as int])
}

/// The edges between kept nodes.
pub open spec fn kept_edges(graph: Seq<NodeModel>, keep: Seq<bool>) -> Seq<Seq<usize>> {
    Seq::new(
        graph.len(),
        |i: int|
            if keep[i] {
                marked_deps(all_deps(graph[i]), keep)
            } else {
                Seq::empty()
            },
    )
}

/// The kept workspace members: where the filtered graph starts.
pub open spec fn kept_members(graph: Seq<NodeModel>, keep: Seq<bool>) -> Seq<bool> {
    Seq::new(graph.len(), |i: int| keep[i] && graph[i].is_workspace_member)
}

/// For each node, whether it is kept and a kept workspace member reaches it
/// through kept nodes.
pub open spec fn alive(graph: Seq<NodeModel>, keep: Seq<bool>) -> Seq<bool> {
    Seq::new(
        graph.len(),
        |i: int| reachable_from(kept_edges(graph, keep), kept_members(graph, keep), i),
    )
}

/// The number of marked nodes before node `i`: the place of node `i` among
/// the marked nodes.
pub open spec fn rank(marks: Seq<bool>, i: int) -> nat
    decreases i,
{
    if i <= 0 {
        0
    } else {
        rank(marks, i - 1) + if marks[i - 1] {
            1nat
        } else {
            0nat
        }
    }
}

/// The marked ones of `deps`, each by its place among the marked nodes.
pub open spec fn select_deps(deps: Seq<usize>, marks: Seq<bool>) -> Seq<usize> {
    marked_deps(deps, marks).map_values(|d: usize| rank(marks, d as int) as usize)
}

/// A node with the dependencies that are left of its own.
pub open spec fn select_node(node: NodeModel, marks: Seq<bool>) -> NodeModel {
    NodeModel {
        name: node.name,
        version: node.version,
        is_third_party: node.is_third_party,
        is_workspace_member: node.is_workspace_member,
        is_root: node.is_root,
        is_dev_only: node.is_dev_only,
        normal_deps: select_deps(node.normal_deps, marks),
        dev_deps: select_deps(node.dev_deps, marks),
        build_deps: select_deps(node.build_deps, marks),
    }
}

/// The marked nodes among the first `upto`, in their order.
pub open spec fn select(graph: Seq<NodeModel>, marks: Seq<bool>, upto: int) -> Seq<NodeModel>
    decreases upto,
{
    if upto <= 0 {
        Seq::empty()
    } else if marks[upto - 1] {
        select(graph, marks, upto - 1).push(select_node(graph[upto - 1], marks))
    } else {
        select(graph, marks, upto - 1)
    }
}

/// The filters that are given; none where there is no list.
pub open spec fn given_filters(filter_graph: Option<&Vec<GraphFilter>>) -> Seq<FilterModel> {
    match filter_graph {
        Some(filters) => filter_views(filters@),
        None => Seq::empty(),
    }
}

/// The graph that the filters leave: the kept nodes that a kept workspace
/// member reaches through kept nodes, in their old order, with the edges
/// between them.
pub open spec fn filtered(graph: Seq<NodeModel>, filters: Seq<FilterModel>) -> Seq<NodeModel> {
    select(graph, alive(graph, kept(graph, filters)), graph.len() as int)
}

/// A node matches `any(..)` where it matches one of the queries.
pub proof fn lemma_eval_any(queries: Seq<QueryModel>, node: NodeModel)
    ensures
        eval_query(QueryModel::Any(queries), node) == (exists|i: int|
            0 <= i < queries.len() && eval_query(#[trigger] queries[i], node)),
{
    let query = QueryModel::Any(queries);
    assert(query->Any_0 == queries);
}

/// A node matches `all(..)` where it matches each of the queries.
pub proof fn lemma_eval_all(queries: Seq<QueryModel>, node: NodeModel)
    ensures
        eval_query(QueryModel::All(queries), node) == (forall|i: int|
            0 <= i < queries.len() ==> eval_query(#[trigger] queries[i], node)),
{
    let query = QueryModel::All(queries);
    assert(query->All_0 == queries);
}

fn property_holds(property: &GraphFilterProperty, node: &PackageNode) -> (holds: bool)
    ensures
        holds == eval_property(property@, node@),
{
    match property {
        GraphFilterProperty::Name(name) => str_eq(node.name.as_str(), name.as_str()),
        GraphFilterProperty::Version(version) => node.version.same(version),
        GraphFilterProperty::IsRoot(flag) => node.is_root == *flag,
        GraphFilterProperty::IsWorkspaceMember(flag) => node.is_workspace_member == *flag,
        GraphFilterProperty::IsThirdParty(flag) => node.is_third_party == *flag,
        GraphFilterProperty::IsDevOnly(flag) => node.is_dev_only == *flag,
    }
}

fn query_holds(query: &GraphFilterQuery, node: &PackageNode) -> (holds: bool)
    ensures
        holds == eval_query(query@, node@),
    decreases query,
{
    match query {
        GraphFilterQuery::Any(queries) => {
            proof {
                lemma_any_model(*queries);
            }
            let mut i: usize = 0;
            while i < queries.len()
                invariant
                    i <= queries@.len(),
                    *query == GraphFilterQuery::Any(*queries),
                    query@ == QueryModel::Any(query_views(queries@)),
                    forall|j: int|
                        0 <= j < i ==> !eval_query(#[trigger] query_views(queries@)[j], node@),
                decreases queries@.len() - i,
            {
                assert(query_views(queries@)[i as int] == queries@[i as int]@);
                assert(decreases_to!(*queries => queries[i as int]));
                if query_holds(&queries[i], node) {
                    proof {
                        lemma_eval_any(query_views(queries@), node@);
                        assert(eval_query(query_views(queries@)[i as int], node@));
                    }
                    return true;
                }
                i += 1;
            }
            proof {
                lemma_eval_any(query_views(queries@), node@);
            }
            false
        },
        GraphFilterQuery::All(queries) => {
            proof {
                lemma_all_model(*queries);
            }
            let mut i: usize = 0;
            while i < queries.len()
                invariant
                    i <= queries@.len(),
                    *query == GraphFilterQuery::All(*queries),
                    query@ == QueryModel::All(query_views(queries@)),
                    forall|j: int|
                        0 <= j < i ==> eval_query(#[trigger] query_views(queries@)[j], node@),
                decreases queries@.len() - i,
            {
                assert(query_views(queries@)[i as int] == queries@[i as int]@);
                assert(decreases_to!(*queries => queries[i as int]));
                if !query_holds(&queries[i], node) {
                    proof {
                        lemma_eval_all(query_views(queries@), node@);
                        assert(!eval_query(query_views(queries@)[i as int], node@));
                    }
                    return false;
                }
                i += 1;
            }
            proof {
                lemma_eval_all(query_views(queries@), node@);
            }
            true
        },
        GraphFilterQuery::Not(inner) => !query_holds(inner, node),
        GraphFilterQuery::Prop(property) => property_holds(property, node),
    }
}

/// Whether every filter keeps the node.
pub fn node_passes(filters: &Vec<GraphFilter>, node: &PackageNode) -> (ok: bool)
    ensures
        ok == passes(filter_views(filters@), node@),
{
    let mut i: usize = 0;
    while i < filters.len()
        invariant
            i <= filters@.len(),
            forall|j: int| 0 <= j < i ==> keeps(#[trigger] filter_views(filters@)[j], node@),
        decreases filters@.len() - i,
    {
        assert(filter_views(filters@)[i as int] == filters@[i as int]@);
        let keep = match &filters[i] {
            GraphFilter::Include(query) => query_holds(query, node),
            GraphFilter::Exclude(query) => !query_holds(query, node),
        };
        if !keep {
            return false;
        }
        i += 1;
    }
    true
}

/// Appends to `row` those of `deps` that are marked in `keep`.
fn push_marked(row: &mut Vec<usize>, deps: &Vec<usize>, keep: &Vec<bool>)
    requires
        forall|k: int| 0 <= k < deps@.len() ==> (#[trigger] deps@[k]) < keep@.len(),
    ensures
        final(row)@ == old(row)@ + marked_deps(deps@, keep@),
{
    let ghost start = row@;
    let ghost pred = |d: usize| keep@[d as int];
    let mut k: usize = 0;
    assert(deps@.subrange(0, 0).filter(pred) =~= Seq::<usize>::empty()) by {
        reveal(Seq::filter);
    }
    while k < deps.len()
        invariant
            k <= deps@.len(),
            pred == |d: usize| keep@[d as int],
            forall|j: int| 0 <= j < deps@.len() ==> (#[trigger] deps@[j]) < keep@.len(),
            row@ == start + deps@.subrange(0, k as int).filter(pred),
        decreases deps@.len() - k,
    {
        proof {
            let prefix = deps@.subrange(0, k as int);
            let next = deps@.subrange(0, k + 1);
            assert(next =~= prefix.push(deps@[k as int]));
            assert(next.drop_last() =~= prefix);
            reveal(Seq::filter);
            assert(next.filter(pred) == if pred(deps@[k as int]) {
                prefix.filter(pred).push(deps@[k as int])
            } else {
                prefix.filter(pred)
            });
        }
        let d = deps[k];
        if keep[d] {
            let ghost before = row@;
            row.push(d);
            assert(row@ =~= start + deps@.subrange(0, k as int).filter(pred).push(d));
        }
        k += 1;
    }
    assert(deps@.subrange(0, k as int) =~= deps@);
}

/// The marked ones of `deps`, each by its rank.
fn select_list(deps: &Vec<usize>, marks: &Vec<bool>, ranks: &Vec<usize>) -> (out: Vec<usize>)
    requires
        ranks@.len() == marks@.len(),
        forall|k: int| 0 <= k < deps@.len() ==> (#[trigger] deps@[k]) < marks@.len(),
        forall|i: int| 0 <= i < marks@.len() ==> (#[trigger] ranks@[i]) == rank(marks@, i),
    ensures
        out@ == select_deps(deps@, marks@),
{
    let mut chosen: Vec<usize> = Vec::new();
    push_marked(&mut chosen, deps, marks);
    assert(chosen@ =~= marked_deps(deps@, marks@));
    let ghost pred = |d: usize| marks@[d as int];
    let mut out: Vec<usize> = Vec::new();
    let mut k: usize = 0;
    while k < chosen.len()
        invariant
            k <= chosen@.len(),
            out@.len() == k,
            ranks@.len() == marks@.len(),
            chosen@ == marked_deps(deps@, marks@),
            forall|j: int| 0 <= j < deps@.len() ==> (#[trigger] deps@[j]) < marks@.len(),
            forall|i: int| 0 <= i < marks@.len() ==> (#[trigger] ranks@[i]) == rank(marks@, i),
            forall|j: int| 0 <= j < k ==> (#[trigger] out@[j]) == rank(marks@, chosen@[j] as int),
        decreases chosen@.len() - k,
    {
        proof {
            let d = chosen@[k as int];
            assert(marked_deps(deps@, marks@).contains(d));
            deps@.lemma_filter_contains_rev(|d: usize| marks@[d as int], d);
            let w = choose|w: int| 0 <= w < deps@.len() && deps@[w] == d;
            assert(deps@[w] < marks@.len());
        }
        out.push(ranks[chosen[k]]);
        k += 1;
    }
    assert(out@ =~= select_deps(deps@, marks@));
    out
}

/// Every dependency of every node is a node.
pub open spec fn deps_in_range(graph: Seq<NodeModel>) -> bool {
    forall|i: int, k: int|
        0 <= i < graph.len() && 0 <= k < all_deps(graph[i]).len() ==> (#[trigger] all_deps(
            graph[i],
        )[k]) < graph.len()
}

/// The number of marked entries before `i` is at most `i`.
pub proof fn lemma_rank_bound(marks: Seq<bool>, i: int)
    requires
        0 <= i,
    ensures
        rank(marks, i) <= i,
    decreases i,
{
    if i > 0 {
        lemma_rank_bound(marks, i - 1);
    }
}

/// As many nodes are selected among the first `upto` as are marked there.
pub proof fn lemma_select_len(graph: Seq<NodeModel>, marks: Seq<bool>, upto: int)
    ensures
        select(graph, marks, upto).len() == rank(marks, upto),
    decreases upto,
{
    if upto > 0 {
        lemma_select_len(graph, marks, upto - 1);
    }
}

/// The marked ones of a node's dependencies are those of its normal, of its
/// development and of its build dependencies.
pub proof fn lemma_marked_all(node: NodeModel, keep: Seq<bool>)
    ensures
        marked_deps(all_deps(node), keep) == marked_deps(node.normal_deps, keep) + marked_deps(
            node.dev_deps,
            keep,
        ) + marked_deps(node.build_deps, keep),
{
    let pred = |d: usize| keep[d as int];
    Seq::filter_distributes_over_add(node.normal_deps + node.dev_deps, node.build_deps, pred);
    Seq::filter_distributes_over_add(node.normal_deps, node.dev_deps, pred);
}

/// What is marked in `deps` is in `deps`.
pub proof fn lemma_marked_subset(deps: Seq<usize>, keep: Seq<bool>, k: int)
    requires
        0 <= k < marked_deps(deps, keep).len(),
    ensures
        deps.contains(marked_deps(deps, keep)[k]),
        keep[marked_deps(deps, keep)[k] as int],
{
    let pred = |d: usize| keep[d as int];
    let d = marked_deps(deps, keep)[k];
    assert(marked_deps(deps, keep).contains(d));
    deps.lemma_filter_contains_rev(pred, d);
    deps.filter_lemma(pred);
}

/// A marked node has a smaller rank than every node behind it.
pub proof fn lemma_rank_increases(marks: Seq<bool>, d: int, i: int)
    requires
        0 <= d < i,
        marks[d],
    ensures
        rank(marks, d) < rank(marks, i),
    decreases i,
{
    if i - 1 > d {
        lemma_rank_increases(marks, d, i - 1);
    }
}

/// The dependencies of a selected node are ranks below `bound`, where the
/// dependencies of the node are below `i` and `i` has at most rank `bound`.
proof fn lemma_select_deps_below(deps: Seq<usize>, marks: Seq<bool>, i: int, k: int)
    requires
        0 <= k < select_deps(deps, marks).len(),
        forall|j: int| 0 <= j < deps.len() ==> (#[trigger] deps[j]) < i,
    ensures
        select_deps(deps, marks)[k] < rank(marks, i),
        select_deps(deps, marks)[k] == rank(marks, marked_deps(deps, marks)[k] as int),
{
    lemma_marked_subset(deps, marks, k);
    let d = marked_deps(deps, marks)[k];
    let w = choose|w: int| 0 <= w < deps.len() && deps[w] == d;
    assert(deps[w] < i);
    lemma_rank_increases(marks, d as int, i);
    lemma_rank_bound(marks, i);
    lemma_rank_bound(marks, d as int);
}

/// The node with rank `rank(marks, i)` among the selected is the marked
/// node `i`.
pub proof fn lemma_select_index(graph: Seq<NodeModel>, marks: Seq<bool>, upto: int, i: int)
    requires
        0 <= i < upto,
        marks[i],
    ensures
        rank(marks, i) < select(graph, marks, upto).len(),
        select(graph, marks, upto)[rank(marks, i) as int] == select_node(graph[i], marks),
    decreases upto,
{
    lemma_select_len(graph, marks, upto);
    lemma_select_len(graph, marks, upto - 1);
    if i < upto - 1 {
        lemma_select_index(graph, marks, upto - 1, i);
    }
}

/// Every selected node is a marked node of the graph, at the place of its
/// rank.
pub proof fn lemma_select_origin(graph: Seq<NodeModel>, marks: Seq<bool>, upto: int, r: int) -> (i:
    int)
    requires
        0 <= r < select(graph, marks, upto).len(),
    ensures
        0 <= i < upto,
        marks[i],
        rank(marks, i) == r,
        select(graph, marks, upto)[r] == select_node(graph[i], marks),
    decreases upto,
{
    lemma_select_len(graph, marks, upto);
    lemma_select_len(graph, marks, upto - 1);
    if upto <= 0 {
        0
    } else if marks[upto - 1] && r == rank(marks, upto - 1) {
        upto - 1
    } else {
        lemma_select_origin(graph, marks, upto - 1, r)
    }
}

/// In what is selected from a graph in which no two nodes have the same
/// name and version, no two nodes have.
pub proof fn lemma_select_unique(graph: Seq<NodeModel>, marks: Seq<bool>)
    requires
        unique_nodes(graph),
    ensures
        unique_nodes(select(graph, marks, graph.len() as int)),
{
    let out = select(graph, marks, graph.len() as int);
    assert forall|r: int, s: int| 0 <= r < s < out.len() implies !((#[trigger] out[r]).name == (
    #[trigger] out[s]).name && out[r].version == out[s].version) by {
        let i = lemma_select_origin(graph, marks, graph.len() as int, r);
        let j = lemma_select_origin(graph, marks, graph.len() as int, s);
        if i < j {
            assert(!(graph[i].name == graph[j].name && graph[i].version == graph[j].version));
        } else if j < i {
            assert(!(graph[j].name == graph[i].name && graph[j].version == graph[i].version));
        }
    }
}

/// In what is selected from a graph whose dependencies stand before their
/// nodes, dependencies stand before their nodes.
pub proof fn lemma_select_wf(graph: Seq<NodeModel>, marks: Seq<bool>)
    requires
        graph_wf(graph),
    ensures
        graph_wf(select(graph, marks, graph.len() as int)),
{
    let out = select(graph, marks, graph.len() as int);
    assert forall|r: int, k: int|
        0 <= r < out.len() && 0 <= k < all_deps(out[r]).len() implies (#[trigger] all_deps(
        out[r],
    )[k]) < r by {
        let i = lemma_select_origin(graph, marks, graph.len() as int, r);
        let node = graph[i];
        let a = select_deps(node.normal_deps, marks);
        let b = select_deps(node.dev_deps, marks);
        let c = select_deps(node.build_deps, marks);
        assert(all_deps(out[r]) == a + b + c);
        assert forall|j: int| 0 <= j < node.normal_deps.len() implies (
        #[trigger] node.normal_deps[j]) < i by {
            assert(all_deps(node)[j] == node.normal_deps[j]);
        }
        assert forall|j: int| 0 <= j < node.dev_deps.len() implies (#[trigger] node.dev_deps[j])
            < i by {
            assert(all_deps(node)[j + node.normal_deps.len()] == node.dev_deps[j]);
        }
        assert forall|j: int| 0 <= j < node.build_deps.len() implies (
        #[trigger] node.build_deps[j]) < i by {
            assert(all_deps(node)[j + node.normal_deps.len() + node.dev_deps.len()]
                == node.build_deps[j]);
        }
        if k < a.len() {
            lemma_select_deps_below(node.normal_deps, marks, i, k);
        } else if k < a.len() + b.len() {
            lemma_select_deps_below(node.dev_deps, marks, i, k - a.len());
        } else {
            lemma_select_deps_below(node.build_deps, marks, i, k - a.len() - b.len());
        }
    }
}

/// In a graph whose dependencies stand before their nodes, every dependency
/// is a node.
pub proof fn lemma_wf_in_range(graph: Seq<NodeModel>)
    requires
        graph_wf(graph),
    ensures
        deps_in_range(graph),
{
}

/// The dependencies of a node of a graph in range are in range, kind by
/// kind.
pub proof fn lemma_kinds_in_range(graph: Seq<NodeModel>, i: int)
    requires
        deps_in_range(graph),
        0 <= i < graph.len(),
    ensures
        forall|j: int|
            0 <= j < graph[i].normal_deps.len() ==> (#[trigger] graph[i].normal_deps[j])
                < graph.len(),
        forall|j: int|
            0 <= j < graph[i].dev_deps.len() ==> (#[trigger] graph[i].dev_deps[j]) < graph.len(),
        forall|j: int|
            0 <= j < graph[i].build_deps.len() ==> (#[trigger] graph[i].build_deps[j])
                < graph.len(),
{
    let node = graph[i];
    assert forall|j: int| 0 <= j < node.normal_deps.len() implies (#[trigger] node.normal_deps[j])
        < graph.len() by {
        assert(all_deps(node)[j] == node.normal_deps[j]);
    }
    assert forall|j: int| 0 <= j < node.dev_deps.len() implies (#[trigger] node.dev_deps[j])
        < graph.len() by {
        assert(all_deps(node)[j + node.normal_deps.len()] == node.dev_deps[j]);
    }
    assert forall|j: int| 0 <= j < node.build_deps.len() implies (#[trigger] node.build_deps[j])
        < graph.len() by {
        assert(all_deps(node)[j + node.normal_deps.len() + node.dev_deps.len()]
            == node.build_deps[j]);
    }
}

/// For each node, whether every filter keeps it.
fn keep_marks(graph: &DepGraph, filters: &Vec<GraphFilter>) -> (keep: Vec<bool>)
    ensures
        keep@ == kept(graph@, filter_views(filters@)),
{
    let mut keep: Vec<bool> = Vec::new();
    let mut i: usize = 0;
    while i < graph.nodes.len()
        invariant
            i <= graph.nodes@.len(),
            keep@.len() == i,
            forall|j: int|
                0 <= j < i ==> #[trigger] keep@[j] == passes(filter_views(filters@), graph@[j]),
        decreases graph.nodes@.len() - i,
    {
        keep.push(node_passes(filters, &graph.nodes[i]));
        i += 1;
    }
    assert(keep@ =~= kept(graph@, filter_views(filters@)));
    keep
}

/// The edges between kept nodes, and the kept workspace members.
fn kept_graph(graph: &DepGraph, keep: &Vec<bool>) -> (out: (Vec<Vec<usize>>, Vec<bool>))
    requires
        deps_in_range(graph@),
        keep@.len() == graph@.len(),
    ensures
        edges_of(&out.0) == kept_edges(graph@, keep@),
        edges_wf(edges_of(&out.0)),
        out.0@.len() == graph@.len(),
        out.1@ == kept_members(graph@, keep@),
{
    let n = graph.nodes.len();
    let mut adj: Vec<Vec<usize>> = Vec::new();
    let mut members: Vec<bool> = Vec::new();
    let mut i: usize = 0;
    while i < n
        invariant
            i <= n,
            n == graph.nodes@.len(),
            keep@.len() == n,
            deps_in_range(graph@),
            adj@.len() == i,
            members@.len() == i,
            forall|j: int| 0 <= j < i ==> (#[trigger] adj@[j])@ == kept_edges(graph@, keep@)[j],
            forall|j: int, k: int|
                0 <= j < i && 0 <= k < adj@[j]@.len() ==> (#[trigger] adj@[j]@[k]) < n,
            forall|j: int|
                0 <= j < i ==> #[trigger] members@[j] == (keep@[j] && graph@[j].is_workspace_member),
        decreases n - i,
    {
        let node = &graph.nodes[i];
        let mut row: Vec<usize> = Vec::new();
        proof {
            lemma_kinds_in_range(graph@, i as int);
            lemma_marked_all(graph@[i as int], keep@);
        }
        if keep[i] {
            push_marked(&mut row, &node.normal_deps, keep);
            push_marked(&mut row, &node.dev_deps, keep);
            push_marked(&mut row, &node.build_deps, keep);
            assert(row@ =~= marked_deps(all_deps(graph@[i as int]), keep@));
        }
        proof {
            assert forall|k: int| 0 <= k < row@.len() implies (#[trigger] row@[k]) < n by {
                lemma_marked_subset(all_deps(graph@[i as int]), keep@, k);
                let d = row@[k];
                let w = choose|w: int|
                    0 <= w < all_deps(graph@[i as int]).len() && all_deps(graph@[i as int])[w]
                        == d;
                assert(all_deps(graph@[i as int])[w] < n);
            }
        }
        adj.push(row);
        members.push(keep[i] && node.is_workspace_member);
        i += 1;
    }
    assert(edges_of(&adj) =~= kept_edges(graph@, keep@));
    assert(members@ =~= kept_members(graph@, keep@));
    (adj, members)
}

/// For each node, the number of marked nodes before it.
fn rank_all(marks: &Vec<bool>) -> (ranks: Vec<usize>)
    ensures
        ranks@.len() == marks@.len(),
        forall|i: int| 0 <= i < marks@.len() ==> (#[trigger] ranks@[i]) == rank(marks@, i),
{
    let mut ranks: Vec<usize> = Vec::new();
    let mut count: usize = 0;
    let mut i: usize = 0;
    while i < marks.len()
        invariant
            i <= marks@.len(),
            ranks@.len() == i,
            count == rank(marks@, i as int),
            count <= i,
            forall|j: int| 0 <= j < i ==> (#[trigger] ranks@[j]) == rank(marks@, j),
        decreases marks@.len() - i,
    {
        ranks.push(count);
        if marks[i] {
            count += 1;
        }
        i += 1;
    }
    ranks
}

impl DepGraph {
    /// The graph that `filters` leave of this one: the nodes that every
    /// filter keeps and that a kept workspace member reaches through kept
    /// nodes, in their old order. A package that the filters cut off from
    /// the workspace is dropped even where every filter keeps it.
    pub fn filter(&self, filters: &Vec<GraphFilter>) -> (out: DepGraph)
        requires
            deps_in_range(self@),
        ensures
            out@ == filtered(self@, filter_views(filters@)),
            graph_wf(self@) ==> graph_wf(out@) && rooted(out@),
            unique_nodes(self@) ==> unique_nodes(out@),
    {
        let n = self.nodes.len();
        let keep = keep_marks(self, filters);
        let (adj, members) = kept_graph(self, &keep);
        let live = reach_from(&adj, &members);
        assert(live@ =~= alive(self@, keep@));
        let ranks = rank_all(&live);
        let mut nodes: Vec<PackageNode> = Vec::new();
        let ghost graph = self@;
        let mut i: usize = 0;
        while i < n
            invariant
                i <= n,
                n == self.nodes@.len(),
                graph == self@,
                deps_in_range(graph),
                live@.len() == n,
                ranks@.len() == n,
                forall|j: int| 0 <= j < n ==> (#[trigger] ranks@[j]) == rank(live@, j),
                Seq::new(nodes@.len(), |j: int| nodes@[j]@) == select(graph, live@, i as int),
            decreases n - i,
        {
            let ghost before = Seq::new(nodes@.len(), |j: int| nodes@[j]@);
            if live[i] {
                let node = &self.nodes[i];
                proof {
                    lemma_kinds_in_range(graph, i as int);
                    assert(graph[i as int] == node@);
                    assert(node.normal_deps@ == graph[i as int].normal_deps);
                    assert(node.dev_deps@ == graph[i as int].dev_deps);
                    assert(node.build_deps@ == graph[i as int].build_deps);
                }
                let selected = PackageNode {
                    name: node.name.clone(),
                    version: node.version.clone(),
                    is_third_party: node.is_third_party,
                    is_workspace_member: node.is_workspace_member,
                    is_root: node.is_root,
                    is_dev_only: node.is_dev_only,
                    normal_deps: select_list(&node.normal_deps, &live, &ranks),
                    dev_deps: select_list(&node.dev_deps, &live, &ranks),
                    build_deps: select_list(&node.build_deps, &live, &ranks),
                };
                assert(selected@ == select_node(graph[i as int], live@));
                nodes.push(selected);
                assert(Seq::new(nodes@.len(), |j: int| nodes@[j]@) =~= before.push(selected@));
            }
            i += 1;
        }
        let out = DepGraph { nodes };
        proof {
            assert(out@ =~= select(graph, live@, n as int));
            if graph_wf(graph) {
                lemma_select_wf(graph, live@);
                lemma_filtered_rooted(graph, filter_views(filters@));
            }
            if unique_nodes(graph) {
                lemma_select_unique(graph, live@);
            }
        }
        out
    }

    /// The graph of `metadata`, cut down by the filters that are given.
    /// With or without filters, what no workspace member reaches is
    /// dropped: every dependency of a node stands before the node, every
    /// node is a workspace member or reached from one, and no two nodes
    /// have the same name and version.
    pub fn new(metadata: &Metadata, filter_graph: Option<&Vec<GraphFilter>>) -> (made: Result<
        DepGraph,
        GraphError,
    >)
        ensures
            match made {
                Ok(graph) => deps_known(metadata.packages@) && sortable(
                    all_edges(metadata.packages@),
                ) && unique_packages(metadata.packages@) && graph_wf(graph@) && rooted(graph@)
                    && unique_nodes(graph@) && exists|
                    order: Seq<usize>,
                    position: Seq<usize>,
                    whole: Seq<NodeModel>,
                |
                    arranged(metadata.packages@, order, position, whole) && graph@ == filtered(
                        whole,
                        given_filters(filter_graph),
                    ),
                Err(error) => no_graph(metadata.packages@, error),
            },
    {
        let whole = match DepGraph::build(metadata) {
            Ok(graph) => graph,
            Err(e) => {
                return Err(e);
            },
        };
        proof {
            lemma_wf_in_range(whole@);
        }
        match filter_graph {
            Some(filters) => Ok(whole.filter(filters)),
            None => {
                let none: Vec<GraphFilter> = Vec::new();
                assert(filter_views(none@) =~= Seq::<FilterModel>::empty());
                Ok(whole.filter(&none))
            },
        }
    }
}

} // verus!
