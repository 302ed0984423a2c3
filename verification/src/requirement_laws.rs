//! Laws of what is required of the nodes of a graph, for stores whose
//! audits and exemptions ask nothing of single dependencies.

use crate::claims::{dependency_sets, set_of, ClaimModel};
use crate::coverage::{
    covers, eligible, feasible, lookup_set, meets, need_of, strong_deps, violated,
};
use crate::criteria::{
    close, lemma_close_empty, lemma_close_idempotent, lemma_close_monotone, lemma_close_union,
    CriteriaMapper, Criterion,
};
use crate::graph::{graph_wf, NodeModel};
use crate::resolver::{
    all_failures, base_required, carried, demand, dev_passed_on, effective_all, effective_upto,
    fails, failures_upto, incoming, lemma_effective_prefix, lemma_effective_stable,
    lemma_strong_before, member_dependency_sets, node_claims, node_violations, passed_on,
    required_at,
};
use crate::resolver_laws::lemma_start_covers;
use crate::storage::Store;
use vstd::prelude::*;

verus! {

/// No claim asks anything of a single dependency.
pub open spec fn plain_claims(claims: Seq<ClaimModel>) -> bool {
    forall|k: int| 0 <= k < claims.len() ==> (#[trigger] claims[k]).dependency_criteria.len() == 0
}

/// No audit and no exemption of a package of the graph asks anything of a
/// single dependency.
pub open spec fn plain_store(graph: Seq<NodeModel>, mapper: &CriteriaMapper, store: &Store) -> bool {
    forall|i: int|
        0 <= i < graph.len() && (#[trigger] graph[i]).is_third_party ==> plain_claims(
            node_claims(mapper, store, graph[i]),
        )
}

/// The set holds everything that its members imply, and nothing else.
pub open spec fn closed_set(edges: Seq<Seq<usize>>, set: Set<int>) -> bool {
    close(edges, set) == set
}

/// The union of closed sets is closed.
pub proof fn lemma_union_closed(edges: Seq<Seq<usize>>, a: Set<int>, b: Set<int>)
    requires
        closed_set(edges, a),
        closed_set(edges, b),
    ensures
        closed_set(edges, a.union(b)),
{
    lemma_close_union(edges, a, b);
}

/// A set that names stand for is closed.
pub proof fn lemma_set_of_closed(all: Seq<Criterion>, edges: Seq<Seq<usize>>, names: Seq<Seq<char>>)
    ensures
        closed_set(edges, set_of(all, edges, names)),
{
    lemma_close_idempotent(edges, crate::criteria::named(all, names));
}

/// What a closed set holds is a criterion, and it holds what that implies.
pub proof fn lemma_closed_holds(edges: Seq<Seq<usize>>, set: Set<int>, c: int)
    requires
        closed_set(edges, set),
        set.contains(c),
    ensures
        0 <= c < edges.len(),
        close(edges, set![c]).subset_of(set),
{
    assert(close(edges, set).contains(c));
    let i = choose|i: int| set.contains(i) && #[trigger] crate::reach::reaches(edges, i, c);
    crate::criteria::lemma_reaches_in_range(edges, i, c);
    assert(set![c].subset_of(set));
    lemma_close_monotone(edges, set![c], set);
}

/// A set that is asked of a dependency by name is closed.
proof fn lemma_lookup_closed(
    all: Seq<Criterion>,
    edges: Seq<Seq<usize>>,
    list: Seq<(Seq<char>, Seq<Seq<char>>)>,
    dep: Seq<char>,
    from: int,
)
    requires
        0 <= from,
    ensures
        lookup_set(dependency_sets(all, edges, list), dep, from) is Some ==> closed_set(
            edges,
            lookup_set(dependency_sets(all, edges, list), dep, from)->0,
        ),
    decreases list.len() - from,
{
    let sets = dependency_sets(all, edges, list);
    if from < sets.len() {
        if sets[from].0 == dep {
            lemma_set_of_closed(all, edges, list[from].1);
        } else {
            lemma_lookup_closed(all, edges, list, dep, from + 1);
        }
    }
}

/// What the policy of a workspace member asks of a dependency is closed.
proof fn lemma_member_lookup_closed(
    mapper: &CriteriaMapper,
    store: &Store,
    node: NodeModel,
    dep: Seq<char>,
)
    ensures
        lookup_set(member_dependency_sets(mapper, store, node), dep, 0) is Some ==> closed_set(
            mapper.edges(),
            lookup_set(member_dependency_sets(mapper, store, node), dep, 0)->0,
        ),
{
    if node.is_workspace_member && crate::table::has_key(store.config.policy@, node.name) {
        lemma_lookup_closed(
            mapper.model(),
            mapper.edges(),
            crate::format::dependency_criteria_view(
                store.config.policy@[crate::table::key_index(
                    store.config.policy@,
                    node.name,
                )].1.dependency_criteria@,
            ),
            dep,
            0,
        );
    }
}

/// Plain claims carry nothing for any dependency.
pub proof fn lemma_plain_carries_nothing(
    claims: Seq<ClaimModel>,
    version: crate::version::VersionModel,
    dep: Seq<char>,
    from: int,
)
    requires
        plain_claims(claims),
        0 <= from,
    ensures
        carried(claims, version, dep, from) is None,
    decreases claims.len() - from,
{
    if from < claims.len() {
        assert(claims[from].dependency_criteria.len() == 0);
        lemma_plain_carries_nothing(claims, version, dep, from + 1);
    }
}

/// What a node that is not from the registry carries for a dependency is
/// what its policy asks of it.
pub proof fn lemma_first_party_carries(
    mapper: &CriteriaMapper,
    store: &Store,
    node: NodeModel,
    dep: Seq<char>,
)
    requires
        !node.is_third_party,
    ensures
        carried(node_claims(mapper, store, node), node.version, dep, 0) == lookup_set(
            member_dependency_sets(mapper, store, node),
            dep,
            0,
        ),
{
    let claims = node_claims(mapper, store, node);
    assert(claims[0].to == node.version);
    assert(carried(claims, node.version, dep, 1) is None);
}

/// What a node asks of a dependency of its build is closed where what is
/// required of the node is closed.
proof fn lemma_passed_on_closed(
    graph: Seq<NodeModel>,
    mapper: &CriteriaMapper,
    store: &Store,
    guess_deeper: bool,
    i: int,
    required: Set<int>,
    j: int,
)
    requires
        plain_store(graph, mapper, store),
        0 <= i < graph.len(),
        closed_set(mapper.edges(), required),
    ensures
        closed_set(mapper.edges(), passed_on(graph, mapper, store, guess_deeper, i, required, j)),
{
    let dep = graph[j].name;
    if graph[i].is_third_party {
        lemma_plain_carries_nothing(node_claims(mapper, store, graph[i]), graph[i].version, dep, 0);
    } else {
        lemma_first_party_carries(mapper, store, graph[i], dep);
        lemma_member_lookup_closed(mapper, store, graph[i], dep);
    }
    lemma_close_empty(mapper.edges());
}

/// What a node asks of a dependency is closed where what is required of
/// the node is closed.
proof fn lemma_demand_closed(
    graph: Seq<NodeModel>,
    mapper: &CriteriaMapper,
    store: &Store,
    guess_deeper: bool,
    i: int,
    required: Set<int>,
    j: int,
)
    requires
        plain_store(graph, mapper, store),
        0 <= i < graph.len(),
        closed_set(mapper.edges(), required),
    ensures
        closed_set(mapper.edges(), demand(graph, mapper, store, guess_deeper, i, required, j)),
{
    let edges = mapper.edges();
    lemma_passed_on_closed(graph, mapper, store, guess_deeper, i, required, j);
    lemma_close_empty(edges);
    lemma_member_lookup_closed(mapper, store, graph[i], graph[j].name);
    lemma_set_of_closed(
        mapper.model(),
        edges,
        match crate::resolver::policy_names(store, graph[i].name, true) {
            Some(names) => names,
            None => seq![crate::format::DEFAULT_POLICY_DEV_CRITERIA@],
        },
    );
    let strong = if strong_deps(graph[i]).contains(j as usize) {
        passed_on(graph, mapper, store, guess_deeper, i, required, j)
    } else {
        Set::empty()
    };
    let dev = if graph[i].dev_deps.contains(j as usize) {
        dev_passed_on(graph, mapper, store, i, j)
    } else {
        Set::empty()
    };
    lemma_union_closed(edges, strong, dev);
}

/// What is required of a node is closed.
pub proof fn lemma_required_closed(
    graph: Seq<NodeModel>,
    mapper: &CriteriaMapper,
    store: &Store,
    guess_deeper: bool,
    j: int,
)
    requires
        plain_store(graph, mapper, store),
    ensures
        closed_set(mapper.edges(), required_at(graph, mapper, store, guess_deeper, j)),
    decreases graph.len() - j, graph.len() + 1,
{
    let edges = mapper.edges();
    lemma_close_empty(edges);
    if 0 <= j < graph.len() {
        lemma_set_of_closed(
            mapper.model(),
            edges,
            match crate::resolver::policy_names(store, graph[j].name, false) {
                Some(names) => names,
                None => seq![crate::format::DEFAULT_POLICY_CRITERIA@],
            },
        );
        lemma_incoming_closed(graph, mapper, store, guess_deeper, j, graph.len() as int);
        lemma_union_closed(
            edges,
            base_required(graph, mapper, store, j),
            incoming(graph, mapper, store, guess_deeper, j, graph.len() as int),
        );
    }
}

/// What the nodes behind a node ask of it is closed.
proof fn lemma_incoming_closed(
    graph: Seq<NodeModel>,
    mapper: &CriteriaMapper,
    store: &Store,
    guess_deeper: bool,
    j: int,
    upto: int,
)
    requires
        plain_store(graph, mapper, store),
    ensures
        closed_set(mapper.edges(), incoming(graph, mapper, store, guess_deeper, j, upto)),
    decreases graph.len() - j, upto,
{
    let edges = mapper.edges();
    lemma_close_empty(edges);
    if !(j < 0 || upto <= j + 1 || upto > graph.len()) {
        lemma_incoming_closed(graph, mapper, store, guess_deeper, j, upto - 1);
        lemma_required_closed(graph, mapper, store, guess_deeper, upto - 1);
        lemma_demand_closed(
            graph,
            mapper,
            store,
            guess_deeper,
            upto - 1,
            required_at(graph, mapper, store, guess_deeper, upto - 1),
            j,
        );
        lemma_union_closed(
            edges,
            incoming(graph, mapper, store, guess_deeper, j, upto - 1),
            demand(
                graph,
                mapper,
                store,
                guess_deeper,
                upto - 1,
                required_at(graph, mapper, store, guess_deeper, upto - 1),
                j,
            ),
        );
    }
}

/// What node `i` asks of node `j` is required of node `j`.
pub proof fn lemma_demand_required(
    graph: Seq<NodeModel>,
    mapper: &CriteriaMapper,
    store: &Store,
    guess_deeper: bool,
    i: int,
    j: int,
)
    requires
        0 <= j < i < graph.len(),
    ensures
        demand(
            graph,
            mapper,
            store,
            guess_deeper,
            i,
            required_at(graph, mapper, store, guess_deeper, i),
            j,
        ).subset_of(required_at(graph, mapper, store, guess_deeper, j)),
{
    lemma_demand_incoming(graph, mapper, store, guess_deeper, i, j, graph.len() as int);
}

proof fn lemma_demand_incoming(
    graph: Seq<NodeModel>,
    mapper: &CriteriaMapper,
    store: &Store,
    guess_deeper: bool,
    i: int,
    j: int,
    upto: int,
)
    requires
        0 <= j < i < upto <= graph.len(),
    ensures
        demand(
            graph,
            mapper,
            store,
            guess_deeper,
            i,
            required_at(graph, mapper, store, guess_deeper, i),
            j,
        ).subset_of(incoming(graph, mapper, store, guess_deeper, j, upto)),
    decreases upto,
{
    if i < upto - 1 {
        lemma_demand_incoming(graph, mapper, store, guess_deeper, i, j, upto - 1);
    }
}

/// Guessing deeper requires at least what is required without guessing.
pub proof fn lemma_guess_requires_more(
    graph: Seq<NodeModel>,
    mapper: &CriteriaMapper,
    store: &Store,
    j: int,
)
    ensures
        required_at(graph, mapper, store, false, j).subset_of(
            required_at(graph, mapper, store, true, j),
        ),
    decreases graph.len() - j, graph.len() + 1,
{
    if 0 <= j < graph.len() {
        lemma_guess_asks_more(graph, mapper, store, j, graph.len() as int);
    }
}

proof fn lemma_guess_asks_more(
    graph: Seq<NodeModel>,
    mapper: &CriteriaMapper,
    store: &Store,
    j: int,
    upto: int,
)
    ensures
        incoming(graph, mapper, store, false, j, upto).subset_of(
            incoming(graph, mapper, store, true, j, upto),
        ),
    decreases graph.len() - j, upto,
{
    if !(j < 0 || upto <= j + 1 || upto > graph.len()) {
        lemma_guess_asks_more(graph, mapper, store, j, upto - 1);
        lemma_guess_requires_more(graph, mapper, store, upto - 1);
    }
}

/// Two stores with the same policy whose audits and exemptions ask nothing
/// of single dependencies require the same of every node, where guesses
/// are made.
pub proof fn lemma_required_same(
    graph: Seq<NodeModel>,
    mapper: &CriteriaMapper,
    a: &Store,
    b: &Store,
    j: int,
)
    requires
        a.config.policy == b.config.policy,
        plain_store(graph, mapper, a),
        plain_store(graph, mapper, b),
    ensures
        required_at(graph, mapper, a, true, j) == required_at(graph, mapper, b, true, j),
    decreases graph.len() - j, graph.len() + 1,
{
    if 0 <= j < graph.len() {
        lemma_incoming_same(graph, mapper, a, b, j, graph.len() as int);
    }
}

proof fn lemma_incoming_same(
    graph: Seq<NodeModel>,
    mapper: &CriteriaMapper,
    a: &Store,
    b: &Store,
    j: int,
    upto: int,
)
    requires
        a.config.policy == b.config.policy,
        plain_store(graph, mapper, a),
        plain_store(graph, mapper, b),
    ensures
        incoming(graph, mapper, a, true, j, upto) == incoming(graph, mapper, b, true, j, upto),
    decreases graph.len() - j, upto,
{
    if !(j < 0 || upto <= j + 1 || upto > graph.len()) {
        let i = upto - 1;
        lemma_incoming_same(graph, mapper, a, b, j, upto - 1);
        lemma_required_same(graph, mapper, a, b, i);
        let dep = graph[j].name;
        if graph[i].is_third_party {
            lemma_plain_carries_nothing(node_claims(mapper, a, graph[i]), graph[i].version, dep, 0);
            lemma_plain_carries_nothing(node_claims(mapper, b, graph[i]), graph[i].version, dep, 0);
        } else {
            assert(node_claims(mapper, a, graph[i]) == node_claims(mapper, b, graph[i]));
        }
    }
}

/// Every package from the registry has, among its own claims, a chain for
/// each criterion that is required of it where guesses are made, and no
/// violation stands against it.
pub open spec fn own_covered(graph: Seq<NodeModel>, mapper: &CriteriaMapper, store: &Store) -> bool {
    forall|i: int, c: int|
        0 <= i < graph.len() && graph[i].is_third_party && required_at(
            graph,
            mapper,
            store,
            true,
            i,
        ).contains(c) ==> covers(
            node_claims(mapper, store, graph[i]),
            #[trigger] meets(node_claims(mapper, store, graph[i]), c),
            graph[i].version,
        ) && !violated(node_violations(mapper, store, graph[i]), graph[i].version, c)
}

/// Where every package has chains of its own for what is required of it,
/// every node meets what is required of it: no claim is held back by a
/// dependency.
pub proof fn lemma_meets_required(
    graph: Seq<NodeModel>,
    mapper: &CriteriaMapper,
    store: &Store,
    i: int,
)
    requires
        graph_wf(graph),
        mapper.wf(),
        plain_store(graph, mapper, store),
        own_covered(graph, mapper, store),
        0 <= i < graph.len(),
    ensures
        required_at(graph, mapper, store, true, i).subset_of(
            effective_all(graph, mapper, store)[i],
        ),
    decreases i,
{
    let n = graph.len() as int;
    let edges = mapper.edges();
    let node = graph[i];
    let required = required_at(graph, mapper, store, true, i);
    let before = effective_upto(graph, mapper, store, i);
    let all = effective_all(graph, mapper, store);
    let claims = node_claims(mapper, store, node);
    lemma_effective_stable(graph, mapper, store, n, i);
    lemma_effective_prefix(graph, mapper, store, n, i);
    lemma_required_closed(graph, mapper, store, true, i);
    assert forall|c: int| required.contains(c) implies all[i].contains(c) by {
        lemma_closed_holds(edges, required, c);
        assert forall|k: int| 0 <= k < claims.len() && claims[k].criteria.contains(c) implies feasible(
            graph,
            before,
            node,
            #[trigger] claims[k],
            edges,
            c,
        ) by {
            assert forall|t: int| 0 <= t < strong_deps(node).len() implies need_of(
                claims[k].dependency_criteria,
                edges,
                c,
                graph[(#[trigger] strong_deps(node)[t]) as int].name,
            ).subset_of(before[strong_deps(node)[t] as int]) by {
                let d = strong_deps(node)[t] as int;
                let dep = graph[d].name;
                lemma_strong_before(graph, i, t);
                lemma_meets_required(graph, mapper, store, d);
                assert(before[d] == all.subrange(0, i)[d]);
                lemma_demand_required(graph, mapper, store, true, i, d);
                assert(strong_deps(node).contains(d as usize));
                let passed = passed_on(graph, mapper, store, true, i, required, d);
                assert(passed.subset_of(required_at(graph, mapper, store, true, d)));
                if node.is_third_party {
                    lemma_plain_carries_nothing(claims, node.version, dep, 0);
                    assert(claims[k].dependency_criteria.len() == 0);
                } else {
                    lemma_first_party_carries(mapper, store, node, dep);
                }
            }
        }
        let usable = eligible(graph, before, node, claims, edges, c);
        assert(usable =~= meets(claims, c));
        if node.is_third_party {
            assert(covers(claims, meets(claims, c), node.version));
        } else {
            assert(claims[0].criteria.contains(c));
            lemma_start_covers(claims, usable, 0);
        }
    }
}

/// No node fails where every node meets what is required of it.
proof fn lemma_none_fails(
    graph: Seq<NodeModel>,
    mapper: &CriteriaMapper,
    store: &Store,
    guess_deeper: bool,
    upto: int,
)
    requires
        0 <= upto <= graph.len(),
        forall|i: int| 0 <= i < graph.len() ==> !fails(graph, mapper, store, guess_deeper, i),
    ensures
        failures_upto(graph, mapper, store, guess_deeper, upto).len() == 0,
    decreases upto,
{
    if upto > 0 {
        lemma_none_fails(graph, mapper, store, guess_deeper, upto - 1);
    }
}

/// In a store whose audits and exemptions ask nothing of single
/// dependencies, resolution succeeds where every package from the registry
/// has chains of its own for what is required of it and no violation
/// stands against it, whether guesses are made or not.
pub proof fn lemma_own_coverage_suffices(
    graph: Seq<NodeModel>,
    mapper: &CriteriaMapper,
    store: &Store,
    guess_deeper: bool,
)
    requires
        graph_wf(graph),
        mapper.wf(),
        plain_store(graph, mapper, store),
        own_covered(graph, mapper, store),
    ensures
        all_failures(graph, mapper, store, guess_deeper).len() == 0,
{
    assert forall|i: int| 0 <= i < graph.len() implies !fails(
        graph,
        mapper,
        store,
        guess_deeper,
        i,
    ) by {
        lemma_meets_required(graph, mapper, store, i);
        lemma_guess_requires_more(graph, mapper, store, i);
    }
    lemma_none_fails(graph, mapper, store, guess_deeper, graph.len() as int);
}

} // verus!
