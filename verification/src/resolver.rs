//! The resolver: what every node of the graph meets, what is required of
//! it, and where the two fall apart.

use crate::claims::{
    claim_views, dependency_sets, dependency_sets_view, gather_claims, package_claims,
    package_violations, resolve_dependency_criteria, set_of, violation_views, Claim, ClaimModel,
    ClaimOrigin, ViolationClaim, ViolationModel,
};
use crate::coverage::{
    effective_set, first_sets, lemma_violation_dominates, lookup_dep, lookup_set, need_of,
    node_facts, own_set, set_views, strong_deps, used_claims, used_origins, violated,
};
use crate::criteria::{
    clone_table, lemma_refused_invalid, refused, universe,
    valid_universe, CriteriaError, CriteriaMapper,
};
use crate::criteria_set::{lemma_set_extensional, CriteriaSet};
use crate::filter::GraphFilter;
use crate::format::{
    dependency_criteria_view, PackageName, DEFAULT_POLICY_CRITERIA, DEFAULT_POLICY_DEV_CRITERIA,
};
use crate::filter_laws::rooted;
use crate::graph::{
    all_edges, arranged, deps_known, graph_wf, no_graph, unique_nodes, unique_packages,
    DepGraph, GraphError, Metadata, NodeIdx, NodeModel, PackageNode,
};
use crate::graph_filter::{filtered, given_filters};
use crate::storage::Store;
use crate::table::{find_key, has_key, key_index};
use crate::text::views;
use crate::topo::sortable;
use crate::version::{semver_matches, Version, VersionModel};
use vstd::prelude::*;

verus! {

/// What the policy of the package called `name` asks of single
/// dependencies; nothing where the package has no policy.
pub open spec fn policy_dependency_sets(
    mapper: &CriteriaMapper,
    store: &Store,
    name: Seq<char>,
) -> Seq<
    (Seq<char>, Set<int>),
> {
    if has_key(store.config.policy@, name) {
        dependency_sets(
            mapper.model(),
            mapper.edges(),
            dependency_criteria_view(
                store.config.policy@[key_index(store.config.policy@, name)].1.dependency_criteria@,
            ),
        )
    } else {
        Seq::empty()
    }
}

/// What a workspace member asks of single dependencies by its policy; a
/// package outside the workspace has no policy.
pub open spec fn member_dependency_sets(
    mapper: &CriteriaMapper,
    store: &Store,
    node: NodeModel,
) -> Seq<
    (Seq<char>, Set<int>),
> {
    if node.is_workspace_member {
        policy_dependency_sets(mapper, store, node.name)
    } else {
        Seq::empty()
    }
}

/// Every criterion of the store.
pub open spec fn every_criterion(count: int) -> Set<int> {
    Set::new(|c: int| 0 <= c < count)
}

/// The claims about a node. A package from the registry has the claims
/// that the store makes of it. Any other package needs no audit: it has one
/// claim, for its own version and every criterion, which asks of its
/// dependencies what its policy names.
pub open spec fn node_claims(mapper: &CriteriaMapper, store: &Store, node: NodeModel) -> Seq<
    ClaimModel,
> {
    if node.is_third_party {
        package_claims(mapper.model(), mapper.edges(), store, node.name)
    } else {
        seq![
            ClaimModel {
                from: None,
                to: node.version,
                criteria: every_criterion(mapper.count()),
                dependency_criteria: member_dependency_sets(mapper, store, node),
                origin: ClaimOrigin::FirstParty,
            },
        ]
    }
}

/// The violations recorded for a node; none for a package that is not from
/// the registry.
pub open spec fn node_violations(mapper: &CriteriaMapper, store: &Store, node: NodeModel) -> Seq<
    ViolationModel,
> {
    if node.is_third_party {
        package_violations(mapper.model(), mapper.edges(), store, node.name)
    } else {
        Seq::empty()
    }
}

/// The criteria that node `i` meets, given those that the nodes before it
/// meet.
pub open spec fn node_effective(
    graph: Seq<NodeModel>,
    mapper: &CriteriaMapper,
    store: &Store,
    i: int,
    before: Seq<Set<int>>,
) -> Set<int> {
    effective_set(
        graph,
        before,
        graph[i],
        node_claims(mapper, store, graph[i]),
        node_violations(mapper, store, graph[i]),
        mapper.edges(),
    )
}

/// The criteria that each of the first `upto` nodes meets: dependencies
/// come first, so each node is judged by what its dependencies meet.
pub open spec fn effective_upto(
    graph: Seq<NodeModel>,
    mapper: &CriteriaMapper,
    store: &Store,
    upto: int,
) -> Seq<Set<int>>
    decreases upto,
{
    if upto <= 0 {
        Seq::empty()
    } else {
        let before = effective_upto(graph, mapper, store, upto - 1);
        before.push(node_effective(graph, mapper, store, upto - 1, before))
    }
}

/// The criteria that the claims about node `i` would cover, whatever its
/// dependencies meet.
pub open spec fn node_own(
    graph: Seq<NodeModel>,
    mapper: &CriteriaMapper,
    store: &Store,
    i: int,
) -> Set<
    int,
> {
    own_set(graph[i], node_claims(mapper, store, graph[i]), mapper.count())
}

/// There is one entry for each node judged.
pub proof fn lemma_effective_len(
    graph: Seq<NodeModel>,
    mapper: &CriteriaMapper,
    store: &Store,
    upto: int,
)
    requires
        0 <= upto,
    ensures
        effective_upto(graph, mapper, store, upto).len() == upto,
    decreases upto,
{
    if upto > 0 {
        lemma_effective_len(graph, mapper, store, upto - 1);
    }
}

/// A node's entry does not change as further nodes are judged.
pub proof fn lemma_effective_stable(
    graph: Seq<NodeModel>,
    mapper: &CriteriaMapper,
    store: &Store,
    upto: int,
    i: int,
)
    requires
        0 <= i < upto,
    ensures
        effective_upto(graph, mapper, store, upto).len() == upto,
        effective_upto(graph, mapper, store, upto)[i] == node_effective(
            graph,
            mapper,
            store,
            i,
            effective_upto(graph, mapper, store, i),
        ),
    decreases upto,
{
    lemma_effective_len(graph, mapper, store, upto);
    lemma_effective_len(graph, mapper, store, upto - 1);
    if i < upto - 1 {
        lemma_effective_stable(graph, mapper, store, upto - 1, i);
    }
}

/// The set of every criterion of the mapper.
fn all_criteria(mapper: &CriteriaMapper) -> (set: CriteriaSet)
    requires
        mapper.wf(),
    ensures
        set@ == every_criterion(mapper.count()),
{
    let count = mapper.len();
    let mut set = CriteriaSet::none();
    let mut c: usize = 0;
    assert(set@ =~= every_criterion(0));
    while c < count
        invariant
            c <= count,
            count == mapper.count(),
            count <= crate::criteria_set::MAX_CRITERIA,
            set@ == every_criterion(c as int),
        decreases count - c,
    {
        set.set_criteria(c);
        assert(set@ =~= every_criterion(c + 1));
        c += 1;
    }
    set
}

/// What the policy of the package called `name` asks of single
/// dependencies.
fn policy_sets(mapper: &CriteriaMapper, store: &Store, name: &str) -> (sets: Vec<
    (PackageName, CriteriaSet),
>)
    requires
        mapper.wf(),
    ensures
        dependency_sets_view(sets@) == policy_dependency_sets(mapper, store, name@),
{
    match find_key(&store.config.policy, name) {
        Some(at) => resolve_dependency_criteria(mapper, &store.config.policy[at].1.dependency_criteria),
        None => {
            let sets: Vec<(PackageName, CriteriaSet)> = Vec::new();
            assert(dependency_sets_view(sets@) =~= Seq::<(Seq<char>, Set<int>)>::empty());
            sets
        },
    }
}

/// The claims and the violations of node `i`.
pub fn claims_of_node(
    graph: &DepGraph,
    mapper: &CriteriaMapper,
    store: &Store,
    i: usize,
) -> (found: (
    Vec<Claim>,
    Vec<ViolationClaim>,
))
    requires
        mapper.wf(),
        i < graph@.len(),
    ensures
        claim_views(found.0@) == node_claims(mapper, store, graph@[i as int]),
        violation_views(found.1@) == node_violations(mapper, store, graph@[i as int]),
{
    let node = &graph.nodes[i];
    assert(graph@[i as int] == node@);
    if node.is_third_party {
        gather_claims(store, mapper, node.name.as_str())
    } else {
        let dependency_criteria = if node.is_workspace_member {
            policy_sets(mapper, store, node.name.as_str())
        } else {
            let sets: Vec<(PackageName, CriteriaSet)> = Vec::new();
            assert(dependency_sets_view(sets@) =~= Seq::<(Seq<char>, Set<int>)>::empty());
            sets
        };
        let claim = Claim {
            from: None,
            to: node.version.clone(),
            criteria: all_criteria(mapper),
            dependency_criteria,
            origin: ClaimOrigin::FirstParty,
        };
        let mut claims: Vec<Claim> = Vec::new();
        claims.push(claim);
        let violations: Vec<ViolationClaim> = Vec::new();
        assert(claim_views(claims@) =~= node_claims(mapper, store, graph@[i as int]));
        assert(violation_views(violations@) =~= node_violations(mapper, store, graph@[i as int]));
        (claims, violations)
    }
}

/// What the resolver has found of every node before anything is required:
/// the claims about it, the criteria it meets and those its own claims
/// would cover.
pub struct Findings {
    pub claims: Vec<Vec<Claim>>,
    pub violations: Vec<Vec<ViolationClaim>>,
    pub effective: Vec<CriteriaSet>,
    pub own: Vec<CriteriaSet>,
}

impl Findings {
    /// The findings are those of the first `upto` nodes of the graph.
    pub open spec fn matches(
        &self,
        graph: Seq<NodeModel>,
        mapper: &CriteriaMapper,
        store: &Store,
        upto: int,
    ) -> bool {
        &&& self.claims@.len() == upto
        &&& self.violations@.len() == upto
        &&& self.effective@.len() == upto
        &&& self.own@.len() == upto
        &&& set_views(self.effective@) == effective_upto(graph, mapper, store, upto)
        &&& forall|i: int|
            0 <= i < upto ==> claim_views((#[trigger] self.claims@[i])@) == node_claims(
                mapper,
                store,
                graph[i],
            )
        &&& forall|i: int|
            0 <= i < upto ==> violation_views((#[trigger] self.violations@[i])@) == node_violations(
                mapper,
                store,
                graph[i],
            )
        &&& forall|i: int|
            0 <= i < upto ==> (#[trigger] self.own@[i])@ == node_own(graph, mapper, store, i)
    }
}

/// Judges every node, dependencies first.
pub fn find_effective(graph: &DepGraph, mapper: &CriteriaMapper, store: &Store) -> (found: Findings)
    requires
        mapper.wf(),
        graph_wf(graph@),
    ensures
        found.matches(graph@, mapper, store, graph@.len() as int),
{
    let n = graph.nodes.len();
    let mut found = Findings {
        claims: Vec::new(),
        violations: Vec::new(),
        effective: Vec::new(),
        own: Vec::new(),
    };
    let mut i: usize = 0;
    assert(set_views(found.effective@) =~= effective_upto(graph@, mapper, store, 0));
    while i < n
        invariant
            i <= n,
            n == graph@.len(),
            mapper.wf(),
            graph_wf(graph@),
            found.matches(graph@, mapper, store, i as int),
        decreases n - i,
    {
        let (claims, violations) = claims_of_node(graph, mapper, store, i);
        let facts = node_facts(graph, &found.effective, i, &claims, &violations, mapper);
        let ghost before = set_views(found.effective@);
        found.claims.push(claims);
        found.violations.push(violations);
        found.effective.push(facts.effective);
        found.own.push(facts.own);
        assert(set_views(found.effective@) =~= before.push(facts.effective@));
        i += 1;
    }
    found
}

/// The criteria that the policy of the package called `name` names for its
/// build, or for its tests where `dev` holds; nothing where the policy does
/// not say.
pub open spec fn policy_names(store: &Store, name: Seq<char>, dev: bool) -> Option<Seq<Seq<char>>> {
    if has_key(store.config.policy@, name) {
        let policy = store.config.policy@[key_index(store.config.policy@, name)].1;
        let list = if dev {
            policy.dev_criteria
        } else {
            policy.criteria
        };
        match list {
            Some(names) => Some(views(names@)),
            None => None,
        }
    } else {
        None
    }
}

/// What a root asks of the dependencies of its build: what its policy
/// names, or else `safe-to-deploy`.
pub open spec fn root_criteria(
    mapper: &CriteriaMapper,
    store: &Store,
    name: Seq<char>,
) -> Set<int> {
    set_of(
        mapper.model(),
        mapper.edges(),
        match policy_names(store, name, false) {
            Some(names) => names,
            None => seq![DEFAULT_POLICY_CRITERIA@],
        },
    )
}

/// What a root asks of the dependencies of its tests: what its policy
/// names, or else `safe-to-run`.
pub open spec fn dev_criteria(mapper: &CriteriaMapper, store: &Store, name: Seq<char>) -> Set<int> {
    set_of(
        mapper.model(),
        mapper.edges(),
        match policy_names(store, name, true) {
            Some(names) => names,
            None => seq![DEFAULT_POLICY_DEV_CRITERIA@],
        },
    )
}

/// What is required of node `j` by itself: a root must meet what it asks of
/// its build.
pub open spec fn base_required(
    graph: Seq<NodeModel>,
    mapper: &CriteriaMapper,
    store: &Store,
    j: int,
) -> Set<int> {
    if graph[j].is_root {
        root_criteria(mapper, store, graph[j].name)
    } else {
        Set::empty()
    }
}

/// What the first claim for `version`, at or after place `from`, that names
/// the dependency `dep` asks of it.
pub open spec fn carried(
    claims: Seq<ClaimModel>,
    version: crate::version::VersionModel,
    dep: Seq<char>,
    from: int,
) -> Option<Set<int>>
    decreases claims.len() - from,
{
    if from < 0 || from >= claims.len() {
        None
    } else if claims[from].to == version && lookup_set(claims[from].dependency_criteria, dep, 0)
        is Some {
        lookup_set(claims[from].dependency_criteria, dep, 0)
    } else {
        carried(claims, version, dep, from + 1)
    }
}

/// What node `i`, of which `required` is required, asks of node `j`, a
/// dependency of its build. Where a claim for the version of `i` names
/// `j`, that claim decides; for a workspace member this is its policy.
/// Otherwise `j` must meet what `i` must meet. A package from the registry
/// whose own claims do not cover what is required of it asks nothing,
/// unless guesses are wanted: what its missing audits would ask is not
/// known.
pub open spec fn passed_on(
    graph: Seq<NodeModel>,
    mapper: &CriteriaMapper,
    store: &Store,
    guess_deeper: bool,
    i: int,
    required: Set<int>,
    j: int,
) -> Set<int> {
    match carried(node_claims(mapper, store, graph[i]), graph[i].version, graph[j].name, 0) {
        Some(set) => set,
        None => if !graph[i].is_third_party || guess_deeper || required.subset_of(
            node_own(graph, mapper, store, i),
        ) {
            required
        } else {
            Set::empty()
        },
    }
}

/// What node `i` asks of node `j`, a dependency of its tests: a root asks
/// what its policy names for `j`, or else its criteria for tests; any other
/// node asks nothing.
pub open spec fn dev_passed_on(
    graph: Seq<NodeModel>,
    mapper: &CriteriaMapper,
    store: &Store,
    i: int,
    j: int,
) -> Set<int> {
    if graph[i].is_root {
        match lookup_set(member_dependency_sets(mapper, store, graph[i]), graph[j].name, 0) {
            Some(set) => set,
            None => dev_criteria(mapper, store, graph[i].name),
        }
    } else {
        Set::empty()
    }
}

/// What node `i` asks of node `j` through all its edges to `j`.
pub open spec fn demand(
    graph: Seq<NodeModel>,
    mapper: &CriteriaMapper,
    store: &Store,
    guess_deeper: bool,
    i: int,
    required: Set<int>,
    j: int,
) -> Set<int> {
    (if strong_deps(graph[i]).contains(j as usize) {
        passed_on(graph, mapper, store, guess_deeper, i, required, j)
    } else {
        Set::empty()
    }).union(
        if graph[i].dev_deps.contains(j as usize) {
            dev_passed_on(graph, mapper, store, i, j)
        } else {
            Set::empty()
        },
    )
}

/// What is required of node `j`: what it requires of itself, and what every
/// node that depends on it asks of it.
pub open spec fn required_at(
    graph: Seq<NodeModel>,
    mapper: &CriteriaMapper,
    store: &Store,
    guess_deeper: bool,
    j: int,
) -> Set<int>
    decreases graph.len() - j, graph.len() + 1,
{
    if j < 0 || j >= graph.len() {
        Set::empty()
    } else {
        base_required(graph, mapper, store, j).union(
            incoming(graph, mapper, store, guess_deeper, j, graph.len() as int),
        )
    }
}

/// What the nodes behind `j` and before `upto` ask of node `j`.
pub open spec fn incoming(
    graph: Seq<NodeModel>,
    mapper: &CriteriaMapper,
    store: &Store,
    guess_deeper: bool,
    j: int,
    upto: int,
) -> Set<int>
    decreases graph.len() - j, upto,
{
    if j < 0 || upto <= j + 1 || upto > graph.len() {
        Set::empty()
    } else {
        incoming(graph, mapper, store, guess_deeper, j, upto - 1).union(
            demand(
                graph,
                mapper,
                store,
                guess_deeper,
                upto - 1,
                required_at(graph, mapper, store, guess_deeper, upto - 1),
                j,
            ),
        )
    }
}

/// The criteria that the policy of the package called `name` names, or else
/// `fallback`, with everything they imply.
fn policy_set(
    mapper: &CriteriaMapper,
    store: &Store,
    name: &str,
    dev: bool,
    fallback: &str,
) -> (set:
    CriteriaSet)
    requires
        mapper.wf(),
    ensures
        set@ == set_of(
            mapper.model(),
            mapper.edges(),
            match policy_names(store, name@, dev) {
                Some(names) => names,
                None => seq![fallback@],
            },
        ),
{
    match find_key(&store.config.policy, name) {
        Some(at) => {
            let policy = &store.config.policy[at].1;
            let list = if dev {
                &policy.dev_criteria
            } else {
                &policy.criteria
            };
            match list {
                Some(names) => mapper.criteria_from_list(names),
                None => mapper.criteria_from_name(fallback),
            }
        },
        None => mapper.criteria_from_name(fallback),
    }
}

/// Whether `value` is in `list`.
fn list_contains(list: &Vec<usize>, value: usize) -> (found: bool)
    ensures
        found == list@.contains(value),
{
    let mut k: usize = 0;
    while k < list.len()
        invariant
            k <= list@.len(),
            forall|t: int| 0 <= t < k ==> list@[t] != value,
        decreases list@.len() - k,
    {
        if list[k] == value {
            return true;
        }
        k += 1;
    }
    false
}

fn carried_by(claims: &Vec<Claim>, version: &crate::version::Version, dep: &str) -> (found: Option<
    CriteriaSet,
>)
    ensures
        match found {
            Some(set) => carried(claim_views(claims@), version@, dep@, 0) == Some(set@),
            None => carried(claim_views(claims@), version@, dep@, 0) is None,
        },
{
    let ghost models = claim_views(claims@);
    let mut k: usize = 0;
    while k < claims.len()
        invariant
            k <= claims@.len(),
            models == claim_views(claims@),
            carried(models, version@, dep@, 0) == carried(models, version@, dep@, k as int),
        decreases claims@.len() - k,
    {
        assert(models[k as int] == claims@[k as int]@);
        if claims[k].to.same(version) {
            match lookup_dep(&claims[k].dependency_criteria, dep) {
                Some(set) => {
                    return Some(set);
                },
                None => {},
            }
        }
        k += 1;
    }
    None
}

/// What node `i` asks of node `j` through all its edges to `j`.
fn demand_of(
    graph: &DepGraph,
    mapper: &CriteriaMapper,
    store: &Store,
    found: &Findings,
    guess_deeper: bool,
    i: usize,
    required: &CriteriaSet,
    j: usize,
) -> (set: CriteriaSet)
    requires
        mapper.wf(),
        graph_wf(graph@),
        found.matches(graph@, mapper, store, graph@.len() as int),
        j < i < graph@.len(),
    ensures
        set@ == demand(graph@, mapper, store, guess_deeper, i as int, required@, j as int),
{
    let node = &graph.nodes[i];
    let dep = &graph.nodes[j];
    assert(graph@[i as int] == node@);
    assert(graph@[j as int] == dep@);
    let mut set = CriteriaSet::none();
    let strong = list_contains(&node.normal_deps, j) || list_contains(&node.build_deps, j);
    proof {
        let all = strong_deps(node@);
        if all.contains(j) {
            let t = choose|t: int| 0 <= t < all.len() && all[t] == j;
            if t < node.normal_deps@.len() {
                assert(node.normal_deps@[t] == j);
            } else {
                assert(node.build_deps@[t - node.normal_deps@.len()] == j);
            }
        }
        if node.normal_deps@.contains(j) {
            let t = choose|t: int| 0 <= t < node.normal_deps@.len() && node.normal_deps@[t] == j;
            assert(all[t] == j);
        }
        if node.build_deps@.contains(j) {
            let t = choose|t: int| 0 <= t < node.build_deps@.len() && node.build_deps@[t] == j;
            assert(all[t + node.normal_deps@.len()] == j);
        }
    }
    if strong {
        let claims = &found.claims[i];
        assert(claim_views(claims@) == node_claims(mapper, store, graph@[i as int]));
        assert(found.own@[i as int]@ == node_own(graph@, mapper, store, i as int));
        match carried_by(claims, &node.version, dep.name.as_str()) {
            Some(asked) => {
                set.unioned_with(&asked);
            },
            None => {
                if !node.is_third_party || guess_deeper || found.own[i].contains(required) {
                    set.unioned_with(required);
                }
            },
        }
    }
    let ghost after_strong = set@;
    assert(after_strong =~= if strong_deps(graph@[i as int]).contains(j) {
        passed_on(graph@, mapper, store, guess_deeper, i as int, required@, j as int)
    } else {
        Set::empty()
    });
    if node.is_root && list_contains(&node.dev_deps, j) {
        let asked = if node.is_workspace_member {
            let sets = policy_sets(mapper, store, node.name.as_str());
            lookup_dep(&sets, dep.name.as_str())
        } else {
            let sets: Vec<(PackageName, CriteriaSet)> = Vec::new();
            assert(dependency_sets_view(sets@) =~= Seq::<(Seq<char>, Set<int>)>::empty());
            lookup_dep(&sets, dep.name.as_str())
        };
        match asked {
            Some(asked) => {
                set.unioned_with(&asked);
            },
            None => {
                let fallback = policy_set(
                    mapper,
                    store,
                    node.name.as_str(),
                    true,
                    DEFAULT_POLICY_DEV_CRITERIA,
                );
                set.unioned_with(&fallback);
            },
        }
    }
    assert(set@ =~= demand(graph@, mapper, store, guess_deeper, i as int, required@, j as int));
    set
}

/// What is required of every node: the roots first, then what each node
/// asks of its dependencies.
pub fn find_required(
    graph: &DepGraph,
    mapper: &CriteriaMapper,
    store: &Store,
    found: &Findings,
    guess_deeper: bool,
) -> (required: Vec<CriteriaSet>)
    requires
        mapper.wf(),
        graph_wf(graph@),
        found.matches(graph@, mapper, store, graph@.len() as int),
    ensures
        required@.len() == graph@.len(),
        forall|j: int|
            0 <= j < graph@.len() ==> (#[trigger] required@[j])@ == required_at(
                graph@,
                mapper,
                store,
                guess_deeper,
                j,
            ),
{
    let n = graph.nodes.len();
    let mut required: Vec<CriteriaSet> = Vec::new();
    let mut t: usize = 0;
    while t < n
        invariant
            t <= n,
            required@.len() == t,
        decreases n - t,
    {
        required.push(CriteriaSet::none());
        t += 1;
    }
    let mut j = n;
    while j > 0
        invariant
            j <= n,
            n == graph@.len(),
            required@.len() == n,
            mapper.wf(),
            graph_wf(graph@),
            found.matches(graph@, mapper, store, graph@.len() as int),
            forall|t: int|
                j <= t < n ==> (#[trigger] required@[t])@ == required_at(
                    graph@,
                    mapper,
                    store,
                    guess_deeper,
                    t,
                ),
        decreases j,
    {
        j -= 1;
        let node = &graph.nodes[j];
        assert(graph@[j as int] == node@);
        let mut set = if node.is_root {
            policy_set(mapper, store, node.name.as_str(), false, DEFAULT_POLICY_CRITERIA)
        } else {
            CriteriaSet::none()
        };
        let ghost base = set@;
        assert(base == base_required(graph@, mapper, store, j as int));
        let mut i = j + 1;
        assert(set@ =~= base.union(incoming(graph@, mapper, store, guess_deeper, j as int, i as int)));
        while i < n
            invariant
                j < i <= n,
                n == graph@.len(),
                required@.len() == n,
                mapper.wf(),
                graph_wf(graph@),
                found.matches(graph@, mapper, store, graph@.len() as int),
                forall|t: int|
                    j < t < n ==> (#[trigger] required@[t])@ == required_at(
                        graph@,
                        mapper,
                        store,
                        guess_deeper,
                        t,
                    ),
                set@ == base.union(
                    incoming(graph@, mapper, store, guess_deeper, j as int, i as int),
                ),
            decreases n - i,
        {
            let asked = demand_of(graph, mapper, store, found, guess_deeper, i, &required[i], j);
            let ghost before = set@;
            set.unioned_with(&asked);
            assert(set@ =~= base.union(
                incoming(graph@, mapper, store, guess_deeper, j as int, i + 1),
            ));
            i += 1;
        }
        required.set(j, set);
    }
    required
}

/// Why a node does not meet what is required of it.
#[derive(Clone, Copy, Debug, PartialEq, Eq, Structural)]
pub enum FailureReason {
    /// No chain of audits leads to the node's version.
    Unreachable,
    /// A violation names the node's version and a required criterion.
    Violation { origin: ClaimOrigin },
    /// The node's own audits would do, but a dependency lacks what they
    /// ask of it.
    DepFailed { dep: NodeIdx },
}

/// One node that does not meet what is required of it.
#[derive(Clone, Copy, Debug)]
pub struct Failure {
    pub node: NodeIdx,
    pub required: CriteriaSet,
    /// The criteria that the node does meet.
    pub reached: CriteriaSet,
    pub reason: FailureReason,
}

/// A failure as a mathematical value.
pub struct FailureModel {
    pub node: NodeIdx,
    pub required: Set<int>,
    pub reached: Set<int>,
    pub reason: FailureReason,
}

impl View for Failure {
    type V = FailureModel;

    open spec fn view(&self) -> FailureModel {
        FailureModel {
            node: self.node,
            required: self.required@,
            reached: self.reached@,
            reason: self.reason,
        }
    }
}

/// The failures of a list as mathematical values.
pub open spec fn failure_views(failures: Seq<Failure>) -> Seq<FailureModel> {
    Seq::new(failures.len(), |i: int| failures[i]@)
}

/// How a check of the whole graph ended.
#[derive(Clone, Copy, Debug, PartialEq, Eq, Structural)]
pub enum Conclusion {
    /// Every package from the registry meets what is required of it.
    Success,
    /// Some package does not.
    FailVet,
    /// The store's audits could not be used at all.
    FailAudit,
}

/// The criteria that every node of the graph meets.
pub open spec fn effective_all(
    graph: Seq<NodeModel>,
    mapper: &CriteriaMapper,
    store: &Store,
) -> Seq<
    Set<int>,
> {
    effective_upto(graph, mapper, store, graph.len() as int)
}

/// Node `i` is a package from the registry that does not meet what is
/// required of it.
pub open spec fn fails(
    graph: Seq<NodeModel>,
    mapper: &CriteriaMapper,
    store: &Store,
    guess_deeper: bool,
    i: int,
) -> bool {
    graph[i].is_third_party && !required_at(graph, mapper, store, guess_deeper, i).subset_of(
        effective_all(graph, mapper, store)[i],
    )
}

/// The first violation at or after place `from` that matches `version` and
/// names a required criterion.
pub open spec fn banned_by(
    violations: Seq<ViolationModel>,
    version: VersionModel,
    required: Set<int>,
    from: int,
) -> Option<ClaimOrigin>
    decreases violations.len() - from,
{
    if from < 0 || from >= violations.len() {
        None
    } else if semver_matches(violations[from].versions, version) == Some(true)
        && !violations[from].criteria.disjoint(required) {
        Some(violations[from].origin)
    } else {
        banned_by(violations, version, required, from + 1)
    }
}

/// A claim is made for a missing criterion, and the dependency lacks what
/// the claim asks of it for that criterion.
pub open spec fn claim_blocked(
    claim: ClaimModel,
    edges: Seq<Seq<usize>>,
    missing: Set<int>,
    dep: Seq<char>,
    dep_effective: Set<int>,
) -> bool {
    exists|c: int|
        0 <= c < edges.len() && missing.contains(c) && claim.criteria.contains(c) && !(
        #[trigger] need_of(claim.dependency_criteria, edges, c, dep)).subset_of(dep_effective)
}

/// One of the claims is blocked by the dependency.
pub open spec fn blocked(
    claims: Seq<ClaimModel>,
    edges: Seq<Seq<usize>>,
    missing: Set<int>,
    dep: Seq<char>,
    dep_effective: Set<int>,
) -> bool {
    exists|k: int|
        0 <= k < claims.len() && claim_blocked(
            #[trigger] claims[k],
            edges,
            missing,
            dep,
            dep_effective,
        )
}

/// The first of `deps`, at or after place `from`, that blocks a claim.
pub open spec fn blocking_dep(
    graph: Seq<NodeModel>,
    effective: Seq<Set<int>>,
    deps: Seq<usize>,
    claims: Seq<ClaimModel>,
    edges: Seq<Seq<usize>>,
    missing: Set<int>,
    from: int,
) -> Option<usize>
    decreases deps.len() - from,
{
    if from < 0 || from >= deps.len() {
        None
    } else if blocked(
        claims,
        edges,
        missing,
        graph[deps[from] as int].name,
        effective[deps[from] as int],
    ) {
        Some(deps[from])
    } else {
        blocking_dep(graph, effective, deps, claims, edges, missing, from + 1)
    }
}

/// Why node `i` fails: a violation, if one matches; else, where the node's
/// own claims would do, the first dependency that blocks one of them; else
/// the want of audits.
pub open spec fn reason_of(
    graph: Seq<NodeModel>,
    mapper: &CriteriaMapper,
    store: &Store,
    guess_deeper: bool,
    i: int,
) -> FailureReason {
    let required = required_at(graph, mapper, store, guess_deeper, i);
    let effective = effective_all(graph, mapper, store);
    match banned_by(node_violations(mapper, store, graph[i]), graph[i].version, required, 0) {
        Some(origin) => FailureReason::Violation { origin },
        None => if required.subset_of(node_own(graph, mapper, store, i)) {
            match blocking_dep(
                graph,
                effective,
                strong_deps(graph[i]),
                node_claims(mapper, store, graph[i]),
                mapper.edges(),
                required.difference(effective[i]),
                0,
            ) {
                Some(dep) => FailureReason::DepFailed { dep },
                None => FailureReason::Unreachable,
            }
        } else {
            FailureReason::Unreachable
        },
    }
}

/// The failure of node `i`.
pub open spec fn failure_of(
    graph: Seq<NodeModel>,
    mapper: &CriteriaMapper,
    store: &Store,
    guess_deeper: bool,
    i: int,
) -> FailureModel {
    FailureModel {
        node: i as usize,
        required: required_at(graph, mapper, store, guess_deeper, i),
        reached: effective_all(graph, mapper, store)[i],
        reason: reason_of(graph, mapper, store, guess_deeper, i),
    }
}

/// The failures among the first `upto` nodes, in the order of the nodes.
pub open spec fn failures_upto(
    graph: Seq<NodeModel>,
    mapper: &CriteriaMapper,
    store: &Store,
    guess_deeper: bool,
    upto: int,
) -> Seq<FailureModel>
    decreases upto,
{
    if upto <= 0 {
        Seq::empty()
    } else if fails(graph, mapper, store, guess_deeper, upto - 1) {
        failures_upto(graph, mapper, store, guess_deeper, upto - 1).push(
            failure_of(graph, mapper, store, guess_deeper, upto - 1),
        )
    } else {
        failures_upto(graph, mapper, store, guess_deeper, upto - 1)
    }
}

/// Every failure of the graph.
pub open spec fn all_failures(
    graph: Seq<NodeModel>,
    mapper: &CriteriaMapper,
    store: &Store,
    guess_deeper: bool,
) -> Seq<FailureModel> {
    failures_upto(graph, mapper, store, guess_deeper, graph.len() as int)
}

/// The entries of the store that cover node `i` for what is required of
/// it: every audit and exemption on a chain that leads to its version.
/// A package that is not from the registry uses none.
pub open spec fn used_at(
    graph: Seq<NodeModel>,
    mapper: &CriteriaMapper,
    store: &Store,
    guess_deeper: bool,
    i: int,
) -> Seq<ClaimOrigin> {
    if graph[i].is_third_party {
        used_origins(
            graph,
            effective_upto(graph, mapper, store, i),
            graph[i],
            node_claims(mapper, store, graph[i]),
            mapper.edges(),
            required_at(graph, mapper, store, guess_deeper, i),
        )
    } else {
        Seq::empty()
    }
}

/// What the resolver found.
pub struct Report {
    pub conclusion: Conclusion,
    /// The nodes that fail, in the order of the graph.
    pub failures: Vec<Failure>,
    /// What is required of each node.
    pub required: Vec<CriteriaSet>,
    /// For each node, the entries of the store that cover it.
    pub used_audits: Vec<Vec<ClaimOrigin>>,
    /// What each node meets, and the claims about it.
    pub findings: Findings,
}

impl Report {
    /// The report is the one that the graph, the criteria and the store
    /// determine.
    pub open spec fn describes(
        &self,
        graph: Seq<NodeModel>,
        mapper: &CriteriaMapper,
        store: &Store,
        guess_deeper: bool,
    ) -> bool {
        &&& self.findings.matches(graph, mapper, store, graph.len() as int)
        &&& self.required@.len() == graph.len()
        &&& forall|j: int|
            0 <= j < graph.len() ==> (#[trigger] self.required@[j])@ == required_at(
                graph,
                mapper,
                store,
                guess_deeper,
                j,
            )
        &&& failure_views(self.failures@) == all_failures(graph, mapper, store, guess_deeper)
        &&& self.used_audits@.len() == graph.len()
        &&& forall|j: int|
            0 <= j < graph.len() ==> (#[trigger] self.used_audits@[j])@ == used_at(
                graph,
                mapper,
                store,
                guess_deeper,
                j,
            )
        &&& self.conclusion == if all_failures(graph, mapper, store, guess_deeper).len() == 0 {
            Conclusion::Success
        } else {
            Conclusion::FailVet
        }
    }

    /// Whether some node fails.
    pub fn has_errors(&self) -> (errors: bool)
        ensures
            errors == (self.conclusion != Conclusion::Success),
    {
        match self.conclusion {
            Conclusion::Success => false,
            _ => true,
        }
    }
}

fn banned(violations: &Vec<ViolationClaim>, version: &Version, required: &CriteriaSet) -> (found:
    Option<ClaimOrigin>)
    ensures
        found == banned_by(violation_views(violations@), version@, required@, 0),
{
    let ghost models = violation_views(violations@);
    let mut k: usize = 0;
    while k < violations.len()
        invariant
            k <= violations@.len(),
            models == violation_views(violations@),
            banned_by(models, version@, required@, 0) == banned_by(
                models,
                version@,
                required@,
                k as int,
            ),
        decreases violations@.len() - k,
    {
        assert(models[k as int] == violations@[k as int]@);
        if violations[k].criteria.intersects(required) && violations[k].versions.matches(version) {
            return Some(violations[k].origin);
        }
        k += 1;
    }
    None
}

fn is_claim_blocked(
    claim: &Claim,
    mapper: &CriteriaMapper,
    missing: &CriteriaSet,
    dep: &str,
    dep_effective: &CriteriaSet,
) -> (found: bool)
    requires
        mapper.wf(),
    ensures
        found == claim_blocked(claim@, mapper.edges(), missing@, dep@, dep_effective@),
{
    let count = mapper.len();
    let ghost edges = mapper.edges();
    assert(edges.len() == count);
    let mut c: usize = 0;
    while c < count
        invariant
            c <= count,
            count == mapper.count(),
            mapper.wf(),
            edges == mapper.edges(),
            forall|x: int|
                0 <= x < c ==> !(missing@.contains(x) && claim@.criteria.contains(x) && !(
                #[trigger] need_of(claim@.dependency_criteria, edges, x, dep@)).subset_of(
                    dep_effective@,
                )),
        decreases count - c,
    {
        if missing.has_criteria(c) && claim.criteria.has_criteria(c) {
            let asked = match lookup_dep(&claim.dependency_criteria, dep) {
                Some(set) => set,
                None => mapper.implied_criteria[c],
            };
            assert(asked@ == need_of(claim@.dependency_criteria, edges, c as int, dep@));
            if !dep_effective.contains(&asked) {
                return true;
            }
        }
        c += 1;
    }
    false
}

fn is_blocked(
    claims: &Vec<Claim>,
    mapper: &CriteriaMapper,
    missing: &CriteriaSet,
    dep: &str,
    dep_effective: &CriteriaSet,
) -> (found: bool)
    requires
        mapper.wf(),
    ensures
        found == blocked(claim_views(claims@), mapper.edges(), missing@, dep@, dep_effective@),
{
    let ghost models = claim_views(claims@);
    let mut k: usize = 0;
    while k < claims.len()
        invariant
            k <= claims@.len(),
            mapper.wf(),
            models == claim_views(claims@),
            forall|j: int|
                0 <= j < k ==> !claim_blocked(
                    #[trigger] models[j],
                    mapper.edges(),
                    missing@,
                    dep@,
                    dep_effective@,
                ),
        decreases claims@.len() - k,
    {
        assert(models[k as int] == claims@[k as int]@);
        if is_claim_blocked(&claims[k], mapper, missing, dep, dep_effective) {
            return true;
        }
        k += 1;
    }
    false
}

/// The dependencies that the build of a node needs.
fn strong_list(node: &PackageNode) -> (deps: Vec<usize>)
    ensures
        deps@ == strong_deps(node@),
{
    let mut deps: Vec<usize> = Vec::new();
    let mut k: usize = 0;
    while k < node.normal_deps.len()
        invariant
            k <= node.normal_deps@.len(),
            deps@ == node.normal_deps@.subrange(0, k as int),
        decreases node.normal_deps@.len() - k,
    {
        deps.push(node.normal_deps[k]);
        assert(deps@ =~= node.normal_deps@.subrange(0, k + 1));
        k += 1;
    }
    assert(node.normal_deps@.subrange(0, k as int) =~= node.normal_deps@);
    let mut k: usize = 0;
    while k < node.build_deps.len()
        invariant
            k <= node.build_deps@.len(),
            deps@ == node.normal_deps@ + node.build_deps@.subrange(0, k as int),
        decreases node.build_deps@.len() - k,
    {
        deps.push(node.build_deps[k]);
        assert(deps@ =~= node.normal_deps@ + node.build_deps@.subrange(0, k + 1));
        k += 1;
    }
    assert(node.build_deps@.subrange(0, k as int) =~= node.build_deps@);
    deps
}

/// The dependencies of a node's build stand before the node.
pub proof fn lemma_strong_before(graph: Seq<NodeModel>, i: int, k: int)
    requires
        graph_wf(graph),
        0 <= i < graph.len(),
        0 <= k < strong_deps(graph[i]).len(),
    ensures
        strong_deps(graph[i])[k] < i,
{
    let node = graph[i];
    let all = crate::graph::all_deps(node);
    if k < node.normal_deps.len() {
        assert(all[k] == node.normal_deps[k]);
    } else {
        assert(all[k + node.dev_deps.len()] == node.build_deps[k - node.normal_deps.len()]);
    }
}

fn reason_for(
    graph: &DepGraph,
    mapper: &CriteriaMapper,
    store: &Store,
    found: &Findings,
    required: &Vec<CriteriaSet>,
    guess_deeper: bool,
    i: usize,
) -> (reason: FailureReason)
    requires
        mapper.wf(),
        graph_wf(graph@),
        i < graph@.len(),
        found.matches(graph@, mapper, store, graph@.len() as int),
        required@.len() == graph@.len(),
        forall|j: int|
            0 <= j < graph@.len() ==> (#[trigger] required@[j])@ == required_at(
                graph@,
                mapper,
                store,
                guess_deeper,
                j,
            ),
    ensures
        reason == reason_of(graph@, mapper, store, guess_deeper, i as int),
{
    let node = &graph.nodes[i];
    assert(graph@[i as int] == node@);
    let ghost effective = effective_all(graph@, mapper, store);
    assert(effective == set_views(found.effective@));
    assert(effective[i as int] == found.effective@[i as int]@);
    assert(claim_views(found.claims@[i as int]@) == node_claims(mapper, store, graph@[i as int]));
    assert(violation_views(found.violations@[i as int]@) == node_violations(
        mapper,
        store,
        graph@[i as int],
    ));
    assert(found.own@[i as int]@ == node_own(graph@, mapper, store, i as int));
    assert(required@[i as int]@ == required_at(graph@, mapper, store, guess_deeper, i as int));
    match banned(&found.violations[i], &node.version, &required[i]) {
        Some(origin) => {
            return FailureReason::Violation { origin };
        },
        None => {},
    }
    if !found.own[i].contains(&required[i]) {
        return FailureReason::Unreachable;
    }
    let mut missing = required[i];
    missing.clear_criteria(&found.effective[i]);
    let deps = strong_list(node);
    let claims = &found.claims[i];
    let ghost models = claim_views(claims@);
    let ghost edges = mapper.edges();
    let mut k: usize = 0;
    while k < deps.len()
        invariant
            k <= deps@.len(),
            mapper.wf(),
            graph_wf(graph@),
            i < graph@.len(),
            deps@ == strong_deps(graph@[i as int]),
            found.effective@.len() == graph@.len(),
            effective == set_views(found.effective@),
            effective == effective_all(graph@, mapper, store),
            models == claim_views(claims@),
            models == node_claims(mapper, store, graph@[i as int]),
            edges == mapper.edges(),
            banned_by(
                node_violations(mapper, store, graph@[i as int]),
                graph@[i as int].version,
                required_at(graph@, mapper, store, guess_deeper, i as int),
                0,
            ) is None,
            required_at(graph@, mapper, store, guess_deeper, i as int).subset_of(
                node_own(graph@, mapper, store, i as int),
            ),
            missing@ == required_at(graph@, mapper, store, guess_deeper, i as int).difference(
                effective[i as int],
            ),
            blocking_dep(graph@, effective, deps@, models, edges, missing@, 0) == blocking_dep(
                graph@,
                effective,
                deps@,
                models,
                edges,
                missing@,
                k as int,
            ),
        decreases deps@.len() - k,
    {
        let d = deps[k];
        proof {
            lemma_strong_before(graph@, i as int, k as int);
        }
        assert(graph@[d as int] == graph.nodes@[d as int]@);
        assert(effective[d as int] == found.effective@[d as int]@);
        if is_blocked(claims, mapper, &missing, graph.nodes[d].name.as_str(), &found.effective[d]) {
            return FailureReason::DepFailed { dep: d };
        }
        k += 1;
    }
    FailureReason::Unreachable
}

/// The failure of node `i`, where it fails.
fn failure_at(
    graph: &DepGraph,
    mapper: &CriteriaMapper,
    store: &Store,
    found: &Findings,
    required: &Vec<CriteriaSet>,
    guess_deeper: bool,
    i: usize,
) -> (failure: Option<Failure>)
    requires
        mapper.wf(),
        graph_wf(graph@),
        i < graph@.len(),
        found.matches(graph@, mapper, store, graph@.len() as int),
        required@.len() == graph@.len(),
        forall|j: int|
            0 <= j < graph@.len() ==> (#[trigger] required@[j])@ == required_at(
                graph@,
                mapper,
                store,
                guess_deeper,
                j,
            ),
    ensures
        failure is Some == fails(graph@, mapper, store, guess_deeper, i as int),
        failure is Some ==> failure->0@ == failure_of(graph@, mapper, store, guess_deeper, i as int),
{
    let node = &graph.nodes[i];
    assert(graph@[i as int] == node@);
    assert(effective_all(graph@, mapper, store)[i as int] == found.effective@[i as int]@) by {
        assert(set_views(found.effective@)[i as int] == found.effective@[i as int]@);
    }
    assert(required@[i as int]@ == required_at(graph@, mapper, store, guess_deeper, i as int));
    if node.is_third_party && !found.effective[i].contains(&required[i]) {
        Some(
            Failure {
                node: i,
                required: required[i],
                reached: found.effective[i],
                reason: reason_for(graph, mapper, store, found, required, guess_deeper, i),
            },
        )
    } else {
        None
    }
}

/// Resolves the graph against the store: finds what every node meets and
/// what is required of it, and lists the packages from the registry that
/// fall short. With `guess_deeper`, a package whose own audits are missing
/// still passes what is required of it on to its dependencies.
pub fn resolve_graph(
    graph: &DepGraph,
    mapper: &CriteriaMapper,
    store: &Store,
    guess_deeper: bool,
) -> (report:
    Report)
    requires
        mapper.wf(),
        graph_wf(graph@),
    ensures
        report.describes(graph@, mapper, store, guess_deeper),
{
    let n = graph.nodes.len();
    let findings = find_effective(graph, mapper, store);
    let required = find_required(graph, mapper, store, &findings, guess_deeper);
    let mut failures: Vec<Failure> = Vec::new();
    let mut i: usize = 0;
    assert(failure_views(failures@) =~= failures_upto(graph@, mapper, store, guess_deeper, 0));
    while i < n
        invariant
            i <= n,
            n == graph@.len(),
            mapper.wf(),
            graph_wf(graph@),
            findings.matches(graph@, mapper, store, graph@.len() as int),
            required@.len() == graph@.len(),
            forall|j: int|
                0 <= j < graph@.len() ==> (#[trigger] required@[j])@ == required_at(
                    graph@,
                    mapper,
                    store,
                    guess_deeper,
                    j,
                ),
            failure_views(failures@) == failures_upto(graph@, mapper, store, guess_deeper, i as int),
        decreases n - i,
    {
        let ghost before = failure_views(failures@);
        match failure_at(graph, mapper, store, &findings, &required, guess_deeper, i) {
            Some(failure) => {
                failures.push(failure);
                assert(failure_views(failures@) =~= before.push(failure@));
            },
            None => {},
        }
        i += 1;
    }
    let conclusion = if failures.len() == 0 {
        Conclusion::Success
    } else {
        Conclusion::FailVet
    };
    let used_audits = find_used(graph, mapper, store, &findings, &required, guess_deeper);
    Report { conclusion, failures, required, used_audits, findings }
}

/// For each node, the entries of the store that cover it.
fn find_used(
    graph: &DepGraph,
    mapper: &CriteriaMapper,
    store: &Store,
    found: &Findings,
    required: &Vec<CriteriaSet>,
    guess_deeper: bool,
) -> (used: Vec<Vec<ClaimOrigin>>)
    requires
        mapper.wf(),
        graph_wf(graph@),
        found.matches(graph@, mapper, store, graph@.len() as int),
        required@.len() == graph@.len(),
        forall|j: int|
            0 <= j < graph@.len() ==> (#[trigger] required@[j])@ == required_at(
                graph@,
                mapper,
                store,
                guess_deeper,
                j,
            ),
    ensures
        used@.len() == graph@.len(),
        forall|j: int|
            0 <= j < graph@.len() ==> (#[trigger] used@[j])@ == used_at(
                graph@,
                mapper,
                store,
                guess_deeper,
                j,
            ),
{
    let n = graph.nodes.len();
    let mut used: Vec<Vec<ClaimOrigin>> = Vec::new();
    let mut i: usize = 0;
    while i < n
        invariant
            i <= n,
            n == graph@.len(),
            used@.len() == i,
            mapper.wf(),
            graph_wf(graph@),
            found.matches(graph@, mapper, store, graph@.len() as int),
            required@.len() == graph@.len(),
            forall|j: int|
                0 <= j < graph@.len() ==> (#[trigger] required@[j])@ == required_at(
                    graph@,
                    mapper,
                    store,
                    guess_deeper,
                    j,
                ),
            forall|j: int|
                0 <= j < i ==> (#[trigger] used@[j])@ == used_at(
                    graph@,
                    mapper,
                    store,
                    guess_deeper,
                    j,
                ),
        decreases n - i,
    {
        let node = &graph.nodes[i];
        assert(graph@[i as int] == node@);
        let list = if node.is_third_party {
            let before = first_sets(&found.effective, i);
            proof {
                lemma_effective_prefix(graph@, mapper, store, graph@.len() as int, i as int);
                assert(set_views(before@) =~= effective_upto(graph@, mapper, store, i as int));
                assert(claim_views(found.claims@[i as int]@) == node_claims(
                    mapper,
                    store,
                    graph@[i as int],
                ));
                assert(required@[i as int]@ == required_at(
                    graph@,
                    mapper,
                    store,
                    guess_deeper,
                    i as int,
                ));
            }
            used_claims(graph, &before, i, &found.claims[i], mapper, &required[i])
        } else {
            Vec::new()
        };
        used.push(list);
        i += 1;
    }
    used
}

/// What the first nodes meet does not change as further nodes are judged.
pub proof fn lemma_effective_prefix(
    graph: Seq<NodeModel>,
    mapper: &CriteriaMapper,
    store: &Store,
    upto: int,
    i: int,
)
    requires
        0 <= i <= upto,
    ensures
        effective_upto(graph, mapper, store, upto).subrange(0, i) == effective_upto(
            graph,
            mapper,
            store,
            i,
        ),
    decreases upto - i,
{
    lemma_effective_len(graph, mapper, store, upto);
    lemma_effective_len(graph, mapper, store, i);
    if i < upto {
        lemma_effective_prefix(graph, mapper, store, upto, i + 1);
        let longer = effective_upto(graph, mapper, store, i + 1);
        assert(effective_upto(graph, mapper, store, upto).subrange(0, i) =~= longer.subrange(0, i));
        assert(longer.subrange(0, i) =~= effective_upto(graph, mapper, store, i));
    } else {
        assert(effective_upto(graph, mapper, store, upto).subrange(0, i) =~= effective_upto(
            graph,
            mapper,
            store,
            upto,
        ));
    }
}

/// Where a violation that matches the version of a package from the
/// registry names a criterion that is required of it, the package fails,
/// whatever audits, imports and exemptions the store holds.
pub proof fn lemma_violation_fails(
    graph: Seq<NodeModel>,
    mapper: &CriteriaMapper,
    store: &Store,
    guess_deeper: bool,
    i: int,
    c: int,
)
    requires
        0 <= i < graph.len(),
        graph[i].is_third_party,
        violated(node_violations(mapper, store, graph[i]), graph[i].version, c),
        required_at(graph, mapper, store, guess_deeper, i).contains(c),
    ensures
        fails(graph, mapper, store, guess_deeper, i),
        !effective_all(graph, mapper, store)[i].contains(c),
        reason_of(graph, mapper, store, guess_deeper, i) is Violation,
{
    let required = required_at(graph, mapper, store, guess_deeper, i);
    let violations = node_violations(mapper, store, graph[i]);
    lemma_effective_stable(graph, mapper, store, graph.len() as int, i);
    lemma_violation_dominates(
        graph,
        effective_upto(graph, mapper, store, i),
        graph[i],
        node_claims(mapper, store, graph[i]),
        violations,
        mapper.edges(),
        required,
        c,
    );
    let k = choose|k: int|
        0 <= k < violations.len() && semver_matches((#[trigger] violations[k]).versions, graph[i].version)
            == Some(true) && violations[k].criteria.contains(c);
    lemma_banned_found(violations, graph[i].version, required, 0, k, c);
}

/// A matching violation that names a required criterion is found by the
/// search for one.
proof fn lemma_banned_found(
    violations: Seq<ViolationModel>,
    version: VersionModel,
    required: Set<int>,
    from: int,
    k: int,
    c: int,
)
    requires
        0 <= from <= k < violations.len(),
        semver_matches(violations[k].versions, version) == Some(true),
        violations[k].criteria.contains(c),
        required.contains(c),
    ensures
        banned_by(violations, version, required, from) is Some,
    decreases k - from,
{
    if from < k {
        if semver_matches(violations[from].versions, version) == Some(true)
            && !violations[from].criteria.disjoint(required) {
        } else {
            lemma_banned_found(violations, version, required, from + 1, k, c);
        }
    }
}

/// The report is determined by the graph, the criteria and the store: two
/// reports of the same inputs agree in every part.
pub proof fn lemma_resolve_deterministic(
    first: &Report,
    second: &Report,
    graph: Seq<NodeModel>,
    mapper: &CriteriaMapper,
    store: &Store,
    guess_deeper: bool,
)
    requires
        first.describes(graph, mapper, store, guess_deeper),
        second.describes(graph, mapper, store, guess_deeper),
    ensures
        first.conclusion == second.conclusion,
        failure_views(first.failures@) == failure_views(second.failures@),
        first.required@ == second.required@,
        first.findings.effective@ == second.findings.effective@,
        first.findings.own@ == second.findings.own@,
        forall|j: int|
            0 <= j < graph.len() ==> (#[trigger] first.used_audits@[j])@ == second.used_audits@[j]@,
{
    assert forall|j: int| 0 <= j < graph.len() implies first.required@[j] == second.required@[j] by {
        lemma_set_extensional(first.required@[j], second.required@[j]);
    }
    assert(first.required@ =~= second.required@);
    assert forall|j: int| 0 <= j < graph.len() implies first.findings.effective@[j]
        == second.findings.effective@[j] by {
        assert(set_views(first.findings.effective@)[j] == first.findings.effective@[j]@);
        assert(set_views(second.findings.effective@)[j] == second.findings.effective@[j]@);
        lemma_set_extensional(first.findings.effective@[j], second.findings.effective@[j]);
    }
    assert(first.findings.effective@ =~= second.findings.effective@);
    assert forall|j: int| 0 <= j < graph.len() implies first.findings.own@[j]
        == second.findings.own@[j] by {
        lemma_set_extensional(first.findings.own@[j], second.findings.own@[j]);
    }
    assert(first.findings.own@ =~= second.findings.own@);
}

/// Why there is nothing to resolve.
#[derive(Clone, Copy, Debug, PartialEq, Eq, Structural)]
pub enum ResolveError {
    /// The store's criteria are refused.
    Criteria(CriteriaError),
    /// The package metadata is no graph.
    Graph(GraphError),
}

/// A graph, the criteria of a store, and what the resolver found of them.
pub struct Resolution {
    pub graph: DepGraph,
    pub criteria_mapper: CriteriaMapper,
    pub report: Report,
}

/// Builds the graph of `metadata`, cut down by `filter_graph` and to what
/// the workspace reaches, indexes the criteria of the store, and resolves
/// the one against the other.
pub fn resolve(
    metadata: &Metadata,
    filter_graph: Option<&Vec<GraphFilter>>,
    store: &Store,
    guess_deeper: bool,
) -> (resolved: Result<Resolution, ResolveError>)
    ensures
        match resolved {
            Ok(found) => valid_universe(universe(store.audits.criteria@))
                && found.criteria_mapper.wf() && found.criteria_mapper.model() == universe(
                store.audits.criteria@,
            ) && deps_known(metadata.packages@) && sortable(all_edges(metadata.packages@))
                && unique_packages(metadata.packages@) && graph_wf(found.graph@) && rooted(
                found.graph@,
            ) && unique_nodes(found.graph@) && (exists|
                order: Seq<usize>,
                position: Seq<usize>,
                whole: Seq<NodeModel>,
            |
                arranged(metadata.packages@, order, position, whole) && found.graph@ == filtered(
                    whole,
                    given_filters(filter_graph),
                )) && found.report.describes(
                found.graph@,
                &found.criteria_mapper,
                store,
                guess_deeper,
            ),
            Err(ResolveError::Criteria(error)) => refused(
                universe(store.audits.criteria@),
                error,
            ) && !valid_universe(universe(store.audits.criteria@)),
            Err(ResolveError::Graph(error)) => valid_universe(universe(store.audits.criteria@))
                && no_graph(metadata.packages@, error),
        },
{
    let table = clone_table(&store.audits.criteria);
    let ghost all = universe(store.audits.criteria@);
    assert(universe(table@) == all);
    let criteria_mapper = match CriteriaMapper::new(table) {
        Ok(mapper) => mapper,
        Err(e) => {
            proof {
                lemma_refused_invalid(all, e);
            }
            return Err(ResolveError::Criteria(e));
        },
    };
    let graph = match DepGraph::new(metadata, filter_graph) {
        Ok(graph) => graph,
        Err(e) => {
            return Err(ResolveError::Graph(e));
        },
    };
    let report = resolve_graph(&graph, &criteria_mapper, store, guess_deeper);
    Ok(Resolution { graph, criteria_mapper, report })
}

} // verus!
