//! Whether the claims about a package cover one of its versions for a
//! criterion: a search through the versions along full audits, exemptions
//! and delta audits.

use crate::claims::{
    claim_views, violation_views, Claim, ClaimModel, ClaimOrigin, ViolationClaim, ViolationModel,
};
use crate::criteria::{close, CriteriaMapper};
use crate::criteria_set::CriteriaSet;
use crate::format::PackageName;
use crate::graph::{DepGraph, NodeModel};
use crate::reach::{edges_of, edges_wf, reach_from, reachable_from, reaches, unmarked};
use crate::text::str_eq;
use crate::version::{semver_matches, Version, VersionModel};
use vstd::prelude::*;

verus! {

/// The sets of a list as mathematical values.
pub open spec fn set_views(sets: Seq<CriteriaSet>) -> Seq<Set<int>> {
    Seq::new(sets.len(), |i: int| sets[i]@)
}

/// The dependencies that every build of a node needs.
pub open spec fn strong_deps(node: NodeModel) -> Seq<usize> {
    node.normal_deps + node.build_deps
}

/// The set that the first pair of `list` at or after `from` gives for the
/// dependency called `dep`.
pub open spec fn lookup_set(list: Seq<(Seq<char>, Set<int>)>, dep: Seq<char>, from: int) -> Option<
    Set<int>,
>
    decreases list.len() - from,
{
    if from < 0 || from >= list.len() {
        None
    } else if list[from].0 == dep {
        Some(list[from].1)
    } else {
        lookup_set(list, dep, from + 1)
    }
}

/// What a claim asks of the dependency called `dep` for the claim to count
/// for criterion `c`: what the claim names for that dependency, or else `c`
/// and everything it implies.
pub open spec fn need_of(
    dependency_criteria: Seq<(Seq<char>, Set<int>)>,
    edges: Seq<Seq<usize>>,
    c: int,
    dep: Seq<char>,
) -> Set<int> {
    match lookup_set(dependency_criteria, dep, 0) {
        Some(set) => set,
        None => close(edges, set![c]),
    }
}

/// Every dependency that the node's build needs has what the claim asks of
/// it. `effective` holds, for each node before this one, the criteria it is
/// known to meet.
pub open spec fn feasible(
    graph: Seq<NodeModel>,
    effective: Seq<Set<int>>,
    node: NodeModel,
    claim: ClaimModel,
    edges: Seq<Seq<usize>>,
    c: int,
) -> bool {
    forall|k: int|
        0 <= k < strong_deps(node).len() ==> need_of(
            claim.dependency_criteria,
            edges,
            c,
            graph[(#[trigger] strong_deps(node)[k]) as int].name,
        ).subset_of(effective[strong_deps(node)[k] as int])
}

/// For each claim, whether it is made for criterion `c`.
pub open spec fn meets(claims: Seq<ClaimModel>, c: int) -> Seq<bool> {
    Seq::new(claims.len(), |k: int| claims[k].criteria.contains(c))
}

/// For each claim, whether it is made for criterion `c` and the node's
/// dependencies have what it asks of them.
pub open spec fn eligible(
    graph: Seq<NodeModel>,
    effective: Seq<Set<int>>,
    node: NodeModel,
    claims: Seq<ClaimModel>,
    edges: Seq<Seq<usize>>,
    c: int,
) -> Seq<bool> {
    Seq::new(
        claims.len(),
        |k: int|
            claims[k].criteria.contains(c) && feasible(graph, effective, node, claims[k], edges, c),
    )
}

/// Claim `k` continues claim `j`: it starts at the version that `j` leads
/// to, and both may be used.
pub open spec fn follows(claims: Seq<ClaimModel>, usable: Seq<bool>, j: int, k: int) -> bool {
    usable[j] && usable[k] && claims[k].from == Some(claims[j].to)
}

/// The claims that continue each claim.
pub open spec fn step_edges(claims: Seq<ClaimModel>, usable: Seq<bool>) -> Seq<Seq<usize>> {
    Seq::new(
        claims.len(),
        |j: int|
            Seq::new(claims.len(), |k: int| k as usize).filter(
                |k: usize| follows(claims, usable, j, k as int),
            ),
    )
}

/// The claims that start from nothing: usable full audits and exemptions.
pub open spec fn starts(claims: Seq<ClaimModel>, usable: Seq<bool>) -> Seq<bool> {
    Seq::new(claims.len(), |k: int| usable[k] && claims[k].from is None)
}

/// A chain of usable claims leads from nothing to `target`: a full audit or
/// an exemption, then delta audits each from the version that the last one
/// reached.
pub open spec fn covers(claims: Seq<ClaimModel>, usable: Seq<bool>, target: VersionModel) -> bool {
    exists|k: int|
        0 <= k < claims.len() && (#[trigger] claims[k]).to == target && reachable_from(
            step_edges(claims, usable),
            starts(claims, usable),
            k,
        )
}

/// A violation that matches `version` names criterion `c`.
pub open spec fn violated(violations: Seq<ViolationModel>, version: VersionModel, c: int) -> bool {
    exists|k: int|
        0 <= k < violations.len() && semver_matches(
            (#[trigger] violations[k]).versions,
            version,
        ) == Some(true) && violations[k].criteria.contains(c)
}

/// The criteria that a node meets: those for which eligible claims cover
/// its version and which no matching violation names.
pub open spec fn effective_set(
    graph: Seq<NodeModel>,
    effective: Seq<Set<int>>,
    node: NodeModel,
    claims: Seq<ClaimModel>,
    violations: Seq<ViolationModel>,
    edges: Seq<Seq<usize>>,
) -> Set<int> {
    Set::new(
        |c: int|
            0 <= c < edges.len() && covers(
                claims,
                eligible(graph, effective, node, claims, edges, c),
                node.version,
            ) && !violated(violations, node.version, c),
    )
}

/// The criteria for which the node's own claims would cover its version,
/// whatever its dependencies meet.
pub open spec fn own_set(node: NodeModel, claims: Seq<ClaimModel>, count: int) -> Set<int> {
    Set::new(|c: int| 0 <= c < count && covers(claims, meets(claims, c), node.version))
}

/// Where a matching violation names criterion `c`, the node does not meet
/// `c`, whatever audits and exemptions there are: a node that is required
/// to meet `c` then fails.
pub proof fn lemma_violation_dominates(
    graph: Seq<NodeModel>,
    effective: Seq<Set<int>>,
    node: NodeModel,
    claims: Seq<ClaimModel>,
    violations: Seq<ViolationModel>,
    edges: Seq<Seq<usize>>,
    required: Set<int>,
    c: int,
)
    requires
        violated(violations, node.version, c),
        required.contains(c),
    ensures
        !effective_set(graph, effective, node, claims, violations, edges).contains(c),
        !required.subset_of(effective_set(graph, effective, node, claims, violations, edges)),
{
}

/// What the first pair of `list` gives for the dependency called `dep`.
pub fn lookup_dep(list: &Vec<(PackageName, CriteriaSet)>, dep: &str) -> (found: Option<CriteriaSet>)
    ensures
        match found {
            Some(set) => lookup_set(crate::claims::dependency_sets_view(list@), dep@, 0) == Some(
                set@,
            ),
            None => lookup_set(crate::claims::dependency_sets_view(list@), dep@, 0) is None,
        },
{
    let ghost view = crate::claims::dependency_sets_view(list@);
    let mut i: usize = 0;
    while i < list.len()
        invariant
            i <= list@.len(),
            view == crate::claims::dependency_sets_view(list@),
            lookup_set(view, dep@, 0) == lookup_set(view, dep@, i as int),
        decreases list@.len() - i,
    {
        assert(view[i as int] == (list@[i as int].0@, list@[i as int].1@));
        if str_eq(list[i].0.as_str(), dep) {
            return Some(list[i].1);
        }
        i += 1;
    }
    None
}

/// What a claim asks of the dependency called `dep` for criterion `c`.
fn need(
    dependency_criteria: &Vec<(PackageName, CriteriaSet)>,
    mapper: &CriteriaMapper,
    c: usize,
    dep: &str,
) -> (set: CriteriaSet)
    requires
        mapper.wf(),
        c < mapper.count(),
    ensures
        set@ == need_of(
            crate::claims::dependency_sets_view(dependency_criteria@),
            mapper.edges(),
            c as int,
            dep@,
        ),
{
    match lookup_dep(dependency_criteria, dep) {
        Some(set) => set,
        None => mapper.implied_criteria[c],
    }
}

/// Whether every dependency that the node's build needs has what the
/// dependency criteria ask of it.
pub fn deps_satisfy(
    graph: &DepGraph,
    effective: &Vec<CriteriaSet>,
    node: usize,
    dependency_criteria: &Vec<(PackageName, CriteriaSet)>,
    mapper: &CriteriaMapper,
    c: usize,
) -> (ok: bool)
    requires
        mapper.wf(),
        c < mapper.count(),
        node < graph@.len(),
        effective@.len() == node,
        crate::graph::graph_wf(graph@),
    ensures
        ok == forall|k: int|
            0 <= k < strong_deps(graph@[node as int]).len() ==> need_of(
                crate::claims::dependency_sets_view(dependency_criteria@),
                mapper.edges(),
                c as int,
                graph@[(#[trigger] strong_deps(graph@[node as int])[k]) as int].name,
            ).subset_of(set_views(effective@)[strong_deps(graph@[node as int])[k] as int]),
{
    let this = &graph.nodes[node];
    let ghost model = graph@[node as int];
    let ghost deps = strong_deps(model);
    let ghost asked = crate::claims::dependency_sets_view(dependency_criteria@);
    assert(model == this@);
    let normal = list_satisfies(
        graph,
        effective,
        node,
        &this.normal_deps,
        dependency_criteria,
        mapper,
        c,
        Ghost(0),
    );
    if !normal {
        proof {
            let k = choose|k: int|
                0 <= k < this.normal_deps@.len() && !need_of(
                    asked,
                    mapper.edges(),
                    c as int,
                    graph@[this.normal_deps@[k] as int].name,
                ).subset_of(set_views(effective@)[this.normal_deps@[k] as int]);
            assert(deps[k] == this.normal_deps@[k]);
        }
        return false;
    }
    let build = list_satisfies(
        graph,
        effective,
        node,
        &this.build_deps,
        dependency_criteria,
        mapper,
        c,
        Ghost((this.normal_deps@.len() + this.dev_deps@.len()) as int),
    );
    proof {
        if build {
            assert forall|k: int| 0 <= k < deps.len() implies need_of(
                asked,
                mapper.edges(),
                c as int,
                graph@[(#[trigger] deps[k]) as int].name,
            ).subset_of(set_views(effective@)[deps[k] as int]) by {
                if k < this.normal_deps@.len() {
                    assert(deps[k] == this.normal_deps@[k]);
                } else {
                    assert(deps[k] == this.build_deps@[k - this.normal_deps@.len()]);
                }
            }
        } else {
            let k = choose|k: int|
                0 <= k < this.build_deps@.len() && !need_of(
                    asked,
                    mapper.edges(),
                    c as int,
                    graph@[this.build_deps@[k] as int].name,
                ).subset_of(set_views(effective@)[this.build_deps@[k] as int]);
            assert(deps[k + this.normal_deps@.len()] == this.build_deps@[k]);
        }
    }
    build
}

/// Whether each dependency of `deps`, a part of the node's dependencies
/// that starts at place `offset` of all of them, has what is asked of it.
fn list_satisfies(
    graph: &DepGraph,
    effective: &Vec<CriteriaSet>,
    node: usize,
    deps: &Vec<usize>,
    dependency_criteria: &Vec<(PackageName, CriteriaSet)>,
    mapper: &CriteriaMapper,
    c: usize,
    Ghost(offset): Ghost<int>,
) -> (ok: bool)
    requires
        mapper.wf(),
        c < mapper.count(),
        node < graph@.len(),
        effective@.len() == node,
        crate::graph::graph_wf(graph@),
        0 <= offset,
        offset + deps@.len() <= crate::graph::all_deps(graph@[node as int]).len(),
        forall|k: int|
            0 <= k < deps@.len() ==> (#[trigger] deps@[k]) == crate::graph::all_deps(
                graph@[node as int],
            )[offset + k],
    ensures
        ok == forall|k: int|
            0 <= k < deps@.len() ==> need_of(
                crate::claims::dependency_sets_view(dependency_criteria@),
                mapper.edges(),
                c as int,
                graph@[(#[trigger] deps@[k]) as int].name,
            ).subset_of(set_views(effective@)[deps@[k] as int]),
{
    let mut k: usize = 0;
    while k < deps.len()
        invariant
            k <= deps@.len(),
            mapper.wf(),
            c < mapper.count(),
            node < graph@.len(),
            effective@.len() == node,
            crate::graph::graph_wf(graph@),
            0 <= offset,
            offset + deps@.len() <= crate::graph::all_deps(graph@[node as int]).len(),
            forall|j: int|
                0 <= j < deps@.len() ==> (#[trigger] deps@[j]) == crate::graph::all_deps(
                    graph@[node as int],
                )[offset + j],
            forall|j: int|
                0 <= j < k ==> need_of(
                    crate::claims::dependency_sets_view(dependency_criteria@),
                    mapper.edges(),
                    c as int,
                    graph@[(#[trigger] deps@[j]) as int].name,
                ).subset_of(set_views(effective@)[deps@[j] as int]),
        decreases deps@.len() - k,
    {
        let d = deps[k];
        assert(crate::graph::all_deps(graph@[node as int])[offset + k] < node);
        assert(graph@[d as int] == graph.nodes@[d as int]@);
        let asked = need(dependency_criteria, mapper, c, graph.nodes[d].name.as_str());
        assert(set_views(effective@)[d as int] == effective@[d as int]@);
        if !effective[d].contains(&asked) {
            return false;
        }
        k += 1;
    }
    true
}

/// For each claim, whether it is made for criterion `c`.
fn meeting_marks(claims: &Vec<Claim>, c: usize) -> (marks: Vec<bool>)
    ensures
        marks@ == meets(claim_views(claims@), c as int),
{
    let mut marks: Vec<bool> = Vec::new();
    let mut k: usize = 0;
    while k < claims.len()
        invariant
            k <= claims@.len(),
            marks@.len() == k,
            forall|j: int|
                0 <= j < k ==> #[trigger] marks@[j] == claim_views(claims@)[j].criteria.contains(
                    c as int,
                ),
        decreases claims@.len() - k,
    {
        assert(claim_views(claims@)[k as int] == claims@[k as int]@);
        marks.push(claims[k].criteria.has_criteria(c));
        k += 1;
    }
    assert(marks@ =~= meets(claim_views(claims@), c as int));
    marks
}

/// For each claim, whether it is made for criterion `c` and the node's
/// dependencies have what it asks of them.
pub fn eligible_marks(
    graph: &DepGraph,
    effective: &Vec<CriteriaSet>,
    node: usize,
    claims: &Vec<Claim>,
    mapper: &CriteriaMapper,
    c: usize,
) -> (marks: Vec<bool>)
    requires
        mapper.wf(),
        c < mapper.count(),
        node < graph@.len(),
        effective@.len() == node,
        crate::graph::graph_wf(graph@),
    ensures
        marks@ == eligible(
            graph@,
            set_views(effective@),
            graph@[node as int],
            claim_views(claims@),
            mapper.edges(),
            c as int,
        ),
{
    let mut marks: Vec<bool> = Vec::new();
    let mut k: usize = 0;
    while k < claims.len()
        invariant
            k <= claims@.len(),
            marks@.len() == k,
            mapper.wf(),
            c < mapper.count(),
            node < graph@.len(),
            effective@.len() == node,
            crate::graph::graph_wf(graph@),
            forall|j: int|
                0 <= j < k ==> #[trigger] marks@[j] == (claim_views(
                    claims@,
                )[j].criteria.contains(c as int) && feasible(
                    graph@,
                    set_views(effective@),
                    graph@[node as int],
                    claim_views(claims@)[j],
                    mapper.edges(),
                    c as int,
                )),
        decreases claims@.len() - k,
    {
        assert(claim_views(claims@)[k as int] == claims@[k as int]@);
        let claim = &claims[k];
        let mark = claim.criteria.has_criteria(c) && deps_satisfy(
            graph,
            effective,
            node,
            &claim.dependency_criteria,
            mapper,
            c,
        );
        marks.push(mark);
        k += 1;
    }
    assert(marks@ =~= eligible(
        graph@,
        set_views(effective@),
        graph@[node as int],
        claim_views(claims@),
        mapper.edges(),
        c as int,
    ));
    marks
}

/// The claims that continue claim `j`.
fn followers(claims: &Vec<Claim>, usable: &Vec<bool>, j: usize) -> (row: Vec<usize>)
    requires
        usable@.len() == claims@.len(),
        j < claims@.len(),
    ensures
        row@ == step_edges(claim_views(claims@), usable@)[j as int],
        forall|t: int| 0 <= t < row@.len() ==> (#[trigger] row@[t]) < claims@.len(),
{
    let n = claims.len();
    let ghost models = claim_views(claims@);
    let ghost every = Seq::new(models.len(), |k: int| k as usize);
    let ghost pred = |k: usize| follows(models, usable@, j as int, k as int);
    let mut row: Vec<usize> = Vec::new();
    let mut k: usize = 0;
    assert(every.subrange(0, 0).filter(pred) =~= Seq::<usize>::empty()) by {
        reveal(Seq::filter);
    }
    while k < n
        invariant
            k <= n,
            n == claims@.len(),
            j < n,
            usable@.len() == n,
            models == claim_views(claims@),
            every == Seq::new(models.len(), |k: int| k as usize),
            pred == |k: usize| follows(models, usable@, j as int, k as int),
            row@ == every.subrange(0, k as int).filter(pred),
            forall|t: int| 0 <= t < row@.len() ==> (#[trigger] row@[t]) < n,
        decreases n - k,
    {
        proof {
            let prefix = every.subrange(0, k as int);
            let next = every.subrange(0, k + 1);
            assert(next =~= prefix.push(k));
            assert(next.drop_last() =~= prefix);
            reveal(Seq::filter);
            assert(next.filter(pred) == if pred(k) {
                prefix.filter(pred).push(k)
            } else {
                prefix.filter(pred)
            });
            assert(models[k as int] == claims@[k as int]@);
            assert(models[j as int] == claims@[j as int]@);
        }
        let continues = usable[j] && usable[k] && match &claims[k].from {
            Some(from) => from.same(&claims[j].to),
            None => false,
        };
        if continues {
            row.push(k);
        }
        k += 1;
    }
    assert(every.subrange(0, n as int) =~= every);
    row
}

/// The graph of the usable claims and the claims that start from nothing.
fn step_graph(claims: &Vec<Claim>, usable: &Vec<bool>) -> (out: (Vec<Vec<usize>>, Vec<bool>))
    requires
        usable@.len() == claims@.len(),
    ensures
        out.0@.len() == claims@.len(),
        edges_of(&out.0) == step_edges(claim_views(claims@), usable@),
        edges_wf(edges_of(&out.0)),
        out.1@ == starts(claim_views(claims@), usable@),
{
    let n = claims.len();
    let mut adj: Vec<Vec<usize>> = Vec::new();
    let mut first: Vec<bool> = Vec::new();
    let mut j: usize = 0;
    while j < n
        invariant
            j <= n,
            n == claims@.len(),
            usable@.len() == n,
            adj@.len() == j,
            first@.len() == j,
            forall|i: int|
                0 <= i < j ==> (#[trigger] adj@[i])@ == step_edges(claim_views(claims@), usable@)[i],
            forall|i: int, t: int| 0 <= i < j && 0 <= t < adj@[i]@.len() ==> (#[trigger] adj@[i]@[t]) < n,
            forall|i: int|
                0 <= i < j ==> #[trigger] first@[i] == (usable@[i] && claim_views(
                    claims@,
                )[i].from is None),
        decreases n - j,
    {
        assert(claim_views(claims@)[j as int] == claims@[j as int]@);
        adj.push(followers(claims, usable, j));
        first.push(usable[j] && claims[j].from.is_none());
        j += 1;
    }
    assert(edges_of(&adj) =~= step_edges(claim_views(claims@), usable@));
    assert(first@ =~= starts(claim_views(claims@), usable@));
    (adj, first)
}

/// Whether a chain of usable claims leads from nothing to `target`.
pub fn covered(claims: &Vec<Claim>, usable: &Vec<bool>, target: &Version) -> (ok: bool)
    requires
        usable@.len() == claims@.len(),
    ensures
        ok == covers(claim_views(claims@), usable@, target@),
{
    let (adj, first) = step_graph(claims, usable);
    let reached = reach_from(&adj, &first);
    let ghost models = claim_views(claims@);
    let mut k: usize = 0;
    while k < claims.len()
        invariant
            k <= claims@.len(),
            models == claim_views(claims@),
            reached@.len() == claims@.len(),
            forall|v: int|
                0 <= v < claims@.len() ==> reached@[v] == reachable_from(
                    step_edges(models, usable@),
                    starts(models, usable@),
                    v,
                ),
            forall|j: int|
                0 <= j < k ==> !((#[trigger] models[j]).to == target@ && reachable_from(
                    step_edges(models, usable@),
                    starts(models, usable@),
                    j,
                )),
        decreases claims@.len() - k,
    {
        assert(models[k as int] == claims@[k as int]@);
        if reached[k] && claims[k].to.same(target) {
            return true;
        }
        k += 1;
    }
    false
}

/// Whether a violation that matches `version` names criterion `c`.
pub fn is_violated(violations: &Vec<ViolationClaim>, version: &Version, c: usize) -> (found: bool)
    ensures
        found == violated(violation_views(violations@), version@, c as int),
{
    let ghost models = violation_views(violations@);
    let mut k: usize = 0;
    while k < violations.len()
        invariant
            k <= violations@.len(),
            models == violation_views(violations@),
            forall|j: int|
                0 <= j < k ==> !(semver_matches((#[trigger] models[j]).versions, version@) == Some(
                    true,
                ) && models[j].criteria.contains(c as int)),
        decreases violations@.len() - k,
    {
        assert(models[k as int] == violations@[k as int]@);
        if violations[k].criteria.has_criteria(c) && violations[k].versions.matches(version) {
            return true;
        }
        k += 1;
    }
    false
}

/// What is known of one node: the criteria it meets, and those its own
/// claims would cover whatever its dependencies meet.
#[derive(Clone, Copy, Debug)]
pub struct NodeFacts {
    pub effective: CriteriaSet,
    pub own: CriteriaSet,
}

/// The criteria that node `node` meets, given those that the nodes before
/// it meet, and the criteria that its own claims would cover.
pub fn node_facts(
    graph: &DepGraph,
    effective: &Vec<CriteriaSet>,
    node: usize,
    claims: &Vec<Claim>,
    violations: &Vec<ViolationClaim>,
    mapper: &CriteriaMapper,
) -> (facts: NodeFacts)
    requires
        mapper.wf(),
        node < graph@.len(),
        effective@.len() == node,
        crate::graph::graph_wf(graph@),
    ensures
        facts.effective@ == effective_set(
            graph@,
            set_views(effective@),
            graph@[node as int],
            claim_views(claims@),
            violation_views(violations@),
            mapper.edges(),
        ),
        facts.own@ == own_set(graph@[node as int], claim_views(claims@), mapper.count()),
{
    let count = mapper.len();
    let version = &graph.nodes[node].version;
    let ghost this = graph@[node as int];
    let ghost models = claim_views(claims@);
    let ghost bans = violation_views(violations@);
    let ghost edges = mapper.edges();
    let ghost known = set_views(effective@);
    assert(this == graph.nodes@[node as int]@);
    assert(edges.len() == count);
    let mut met = CriteriaSet::none();
    let mut own = CriteriaSet::none();
    let mut c: usize = 0;
    assert(met@ =~= Set::new(
        |x: int|
            0 <= x < 0 && covers(models, eligible(graph@, known, this, models, edges, x), this.version)
                && !violated(bans, this.version, x),
    ));
    assert(own@ =~= Set::new(|x: int| 0 <= x < 0 && covers(models, meets(models, x), this.version)));
    while c < count
        invariant
            c <= count,
            count == mapper.count(),
            count <= crate::criteria_set::MAX_CRITERIA,
            mapper.wf(),
            node < graph@.len(),
            effective@.len() == node,
            crate::graph::graph_wf(graph@),
            this == graph@[node as int],
            version@ == this.version,
            models == claim_views(claims@),
            bans == violation_views(violations@),
            edges == mapper.edges(),
            known == set_views(effective@),
            met@ == Set::new(
                |x: int|
                    0 <= x < c && covers(
                        models,
                        eligible(graph@, known, this, models, edges, x),
                        this.version,
                    ) && !violated(bans, this.version, x),
            ),
            own@ == Set::new(|x: int| 0 <= x < c && covers(models, meets(models, x), this.version)),
        decreases count - c,
    {
        let meeting = meeting_marks(claims, c);
        let in_own = covered(claims, &meeting, version);
        let usable = eligible_marks(graph, effective, node, claims, mapper, c);
        let in_met = covered(claims, &usable, version) && !is_violated(violations, version, c);
        let ghost met_before = met@;
        let ghost own_before = own@;
        if in_met {
            met.set_criteria(c);
        }
        if in_own {
            own.set_criteria(c);
        }
        assert(met@ =~= Set::new(
            |x: int|
                0 <= x < c + 1 && covers(
                    models,
                    eligible(graph@, known, this, models, edges, x),
                    this.version,
                ) && !violated(bans, this.version, x),
        ));
        assert(own@ =~= Set::new(
            |x: int| 0 <= x < c + 1 && covers(models, meets(models, x), this.version),
        ));
        c += 1;
    }
    assert(met@ =~= effective_set(graph@, known, this, models, bans, edges));
    assert(own@ =~= own_set(this, models, count as int));
    NodeFacts { effective: met, own }
}

/// Claim `k` lies on a chain of usable claims that leads from nothing to
/// `target`: it is reached from a claim that starts from nothing, and it
/// reaches a claim that leads to `target`.
pub open spec fn on_chain(
    claims: Seq<ClaimModel>,
    usable: Seq<bool>,
    target: VersionModel,
    k: int,
) -> bool {
    reachable_from(step_edges(claims, usable), starts(claims, usable), k) && exists|t: int|
        0 <= t < claims.len() && (#[trigger] claims[t]).to == target && reaches(
            step_edges(claims, usable),
            k,
            t,
        )
}

/// Claim `k` lies on a chain that covers the node's version for one of the
/// required criteria.
pub open spec fn used_claim(
    graph: Seq<NodeModel>,
    effective: Seq<Set<int>>,
    node: NodeModel,
    claims: Seq<ClaimModel>,
    edges: Seq<Seq<usize>>,
    required: Set<int>,
    k: int,
) -> bool {
    exists|c: int|
        0 <= c < edges.len() && required.contains(c) && on_chain(
            claims,
            #[trigger] eligible(graph, effective, node, claims, edges, c),
            node.version,
            k,
        )
}

/// The entries of the store that are used to cover the node's version for
/// what is required of it, in the order of the claims.
pub open spec fn used_origins(
    graph: Seq<NodeModel>,
    effective: Seq<Set<int>>,
    node: NodeModel,
    claims: Seq<ClaimModel>,
    edges: Seq<Seq<usize>>,
    required: Set<int>,
) -> Seq<ClaimOrigin> {
    Seq::new(claims.len(), |k: int| k).filter(
        |k: int| used_claim(graph, effective, node, claims, edges, required, k),
    ).map_values(|k: int| claims[k].origin)
}

/// Whether claim `k` reaches a claim that leads to `target`.
fn leads_to(claims: &Vec<Claim>, adj: &Vec<Vec<usize>>, target: &Version, k: usize) -> (ok: bool)
    requires
        adj@.len() == claims@.len(),
        edges_wf(edges_of(adj)),
        k < claims@.len(),
    ensures
        ok == exists|t: int|
            0 <= t < claims@.len() && (#[trigger] claim_views(claims@)[t]).to == target@ && reaches(
                edges_of(adj),
                k as int,
                t,
            ),
{
    let n = claims.len();
    let ghost edges = edges_of(adj);
    let ghost models = claim_views(claims@);
    let mut single = unmarked(n);
    single.set(k, true);
    let from_k = reach_from(adj, &single);
    proof {
        assert forall|t: int| 0 <= t < n implies from_k@[t] == reaches(edges, k as int, t) by {
            if reachable_from(edges, single@, t) {
                let u = choose|u: int|
                    0 <= u < single@.len() && single@[u] && #[trigger] reaches(edges, u, t);
                assert(u == k);
            }
            if reaches(edges, k as int, t) {
                assert(single@[k as int]);
                assert(reachable_from(edges, single@, t));
            }
        }
    }
    let mut t: usize = 0;
    while t < n
        invariant
            t <= n,
            n == claims@.len(),
            from_k@.len() == n,
            models == claim_views(claims@),
            edges == edges_of(adj),
            forall|x: int| 0 <= x < n ==> from_k@[x] == reaches(edges, k as int, x),
            forall|x: int|
                0 <= x < t ==> !((#[trigger] models[x]).to == target@ && reaches(
                    edges,
                    k as int,
                    x,
                )),
        decreases n - t,
    {
        assert(models[t as int] == claims@[t as int]@);
        if from_k[t] && claims[t].to.same(target) {
            return true;
        }
        t += 1;
    }
    false
}

/// For each claim, whether it lies on a chain of usable claims to `target`.
fn chain_marks(claims: &Vec<Claim>, usable: &Vec<bool>, target: &Version) -> (marks: Vec<bool>)
    requires
        usable@.len() == claims@.len(),
    ensures
        marks@.len() == claims@.len(),
        forall|k: int|
            0 <= k < claims@.len() ==> #[trigger] marks@[k] == on_chain(
                claim_views(claims@),
                usable@,
                target@,
                k,
            ),
{
    let n = claims.len();
    let (adj, first) = step_graph(claims, usable);
    let reached = reach_from(&adj, &first);
    let ghost models = claim_views(claims@);
    let mut marks: Vec<bool> = Vec::new();
    let mut k: usize = 0;
    while k < n
        invariant
            k <= n,
            n == claims@.len(),
            adj@.len() == n,
            reached@.len() == n,
            usable@.len() == n,
            marks@.len() == k,
            models == claim_views(claims@),
            edges_of(&adj) == step_edges(models, usable@),
            edges_wf(edges_of(&adj)),
            first@ == starts(models, usable@),
            forall|v: int|
                0 <= v < n ==> reached@[v] == reachable_from(edges_of(&adj), first@, v),
            forall|j: int|
                0 <= j < k ==> #[trigger] marks@[j] == on_chain(models, usable@, target@, j),
        decreases n - k,
    {
        let mark = reached[k] && leads_to(claims, &adj, target, k);
        marks.push(mark);
        k += 1;
    }
    marks
}

/// The entries that are used to cover the version of node `node` for what
/// is required of it.
pub fn used_claims(
    graph: &DepGraph,
    effective: &Vec<CriteriaSet>,
    node: usize,
    claims: &Vec<Claim>,
    mapper: &CriteriaMapper,
    required: &CriteriaSet,
) -> (used: Vec<ClaimOrigin>)
    requires
        mapper.wf(),
        node < graph@.len(),
        effective@.len() == node,
        crate::graph::graph_wf(graph@),
    ensures
        used@ == used_origins(
            graph@,
            set_views(effective@),
            graph@[node as int],
            claim_views(claims@),
            mapper.edges(),
            required@,
        ),
{
    let n = claims.len();
    let count = mapper.len();
    let version = &graph.nodes[node].version;
    let ghost this = graph@[node as int];
    let ghost models = claim_views(claims@);
    let ghost edges = mapper.edges();
    let ghost known = set_views(effective@);
    assert(this == graph.nodes@[node as int]@);
    assert(edges.len() == count);
    let mut marks = unmarked(n);
    let mut c: usize = 0;
    while c < count
        invariant
            c <= count,
            count == mapper.count(),
            n == claims@.len(),
            marks@.len() == n,
            mapper.wf(),
            node < graph@.len(),
            effective@.len() == node,
            crate::graph::graph_wf(graph@),
            this == graph@[node as int],
            version@ == this.version,
            models == claim_views(claims@),
            edges == mapper.edges(),
            known == set_views(effective@),
            forall|k: int|
                0 <= k < n ==> #[trigger] marks@[k] == exists|x: int|
                    0 <= x < c && required@.contains(x) && on_chain(
                        models,
                        #[trigger] eligible(graph@, known, this, models, edges, x),
                        this.version,
                        k,
                    ),
        decreases count - c,
    {
        if required.has_criteria(c) {
            let usable = eligible_marks(graph, effective, node, claims, mapper, c);
            let chain = chain_marks(claims, &usable, version);
            let ghost before = marks@;
            let mut k: usize = 0;
            while k < n
                invariant
                    k <= n,
                    n == claims@.len(),
                    marks@.len() == n,
                    chain@.len() == n,
                    before.len() == n,
                    forall|j: int| 0 <= j < k ==> #[trigger] marks@[j] == (before[j] || chain@[j]),
                    forall|j: int| k <= j < n ==> #[trigger] marks@[j] == before[j],
                decreases n - k,
            {
                if chain[k] {
                    marks.set(k, true);
                }
                k += 1;
            }
            proof {
                assert forall|k: int| 0 <= k < n implies #[trigger] marks@[k] == exists|x: int|
                    0 <= x < c + 1 && required@.contains(x) && on_chain(
                        models,
                        #[trigger] eligible(graph@, known, this, models, edges, x),
                        this.version,
                        k,
                    ) by {
                    assert(chain@[k] == on_chain(
                        models,
                        eligible(graph@, known, this, models, edges, c as int),
                        this.version,
                        k,
                    ));
                }
            }
        }
        c += 1;
    }
    let ghost every = Seq::new(models.len(), |k: int| k);
    let ghost pred = |k: int| used_claim(graph@, known, this, models, edges, required@, k);
    let ghost origin_of = |k: int| models[k].origin;
    let mut used: Vec<ClaimOrigin> = Vec::new();
    let mut k: usize = 0;
    assert(every.subrange(0, 0).filter(pred) =~= Seq::<int>::empty()) by {
        reveal(Seq::filter);
    }
    assert(used@ =~= every.subrange(0, 0).filter(pred).map_values(origin_of));
    while k < n
        invariant
            k <= n,
            n == claims@.len(),
            marks@.len() == n,
            models == claim_views(claims@),
            every == Seq::new(models.len(), |k: int| k),
            pred == |k: int| used_claim(graph@, known, this, models, edges, required@, k),
            origin_of == |k: int| models[k].origin,
            forall|j: int| 0 <= j < n ==> #[trigger] marks@[j] == pred(j),
            used@ == every.subrange(0, k as int).filter(pred).map_values(origin_of),
        decreases n - k,
    {
        proof {
            let prefix = every.subrange(0, k as int);
            let next = every.subrange(0, k + 1);
            assert(next =~= prefix.push(k as int));
            assert(next.drop_last() =~= prefix);
            reveal(Seq::filter);
            assert(next.filter(pred) == if pred(k as int) {
                prefix.filter(pred).push(k as int)
            } else {
                prefix.filter(pred)
            });
            assert(models[k as int] == claims@[k as int]@);
        }
        if marks[k] {
            used.push(claims[k].origin);
            assert(used@ =~= every.subrange(0, k as int).filter(pred).push(k as int).map_values(
                origin_of,
            ));
        }
        k += 1;
    }
    assert(every.subrange(0, n as int) =~= every);
    used
}

/// The first `n` sets of a list.
pub fn first_sets(sets: &Vec<CriteriaSet>, n: usize) -> (head: Vec<CriteriaSet>)
    requires
        n <= sets@.len(),
    ensures
        head@ == sets@.subrange(0, n as int),
{
    let mut head: Vec<CriteriaSet> = Vec::new();
    let mut k: usize = 0;
    while k < n
        invariant
            k <= n,
            n <= sets@.len(),
            head@ == sets@.subrange(0, k as int),
        decreases n - k,
    {
        head.push(sets[k]);
        assert(head@ =~= sets@.subrange(0, k + 1));
        k += 1;
    }
    head
}

} // verus!
