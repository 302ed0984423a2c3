//! The dependency graph: the packages of a build, leaves first, with their
//! normal, build and development dependencies.

use crate::format::PackageName;
use crate::reach::{edges_of, edges_wf, has_edge, reach_from, reachable_from, unmarked};
use crate::text::str_eq;
use crate::topo::{is_order, least_first, lemma_order_unique, sortable, topo_order};
use crate::version::{Version, VersionModel};
use vstd::prelude::*;

verus! {

/// The place of a node in its graph.
pub type NodeIdx = usize;

/// The source of the packages that come from the public registry.
pub const CRATES_IO: &'static str = "registry+https://github.com/rust-lang/crates.io-index";

/// One package as the package metadata describes it. Dependencies are given
/// by the ids of the packages depended on.
pub struct Package {
    /// The id that tells this package from every other.
    pub id: String,
    pub name: PackageName,
    pub version: Version,
    /// Where the package comes from; nothing for a package on disk.
    pub source: Option<String>,
    pub is_workspace_member: bool,
    pub dependencies: Vec<String>,
    pub dev_dependencies: Vec<String>,
    pub build_dependencies: Vec<String>,
}

/// The packages of a build.
pub struct Metadata {
    pub packages: Vec<Package>,
}

/// What the audit engine asks of a package beyond its metadata.
pub trait PackageExt {
    /// The package comes from the public registry.
    spec fn third_party(&self) -> bool;

    /// Whether the package comes from the public registry, so that it needs
    /// audits.
    fn is_third_party(&self) -> (third: bool)
        ensures
            third == self.third_party(),
    ;
}

impl PackageExt for Package {
    open spec fn third_party(&self) -> bool {
        self.source is Some && self.source->0@ == CRATES_IO@
    }

    fn is_third_party(&self) -> (third: bool) {
        match &self.source {
            Some(source) => str_eq(source.as_str(), CRATES_IO),
            None => false,
        }
    }
}

/// A node of the graph.
#[derive(Debug)]
pub struct PackageNode {
    pub name: PackageName,
    pub version: Version,
    /// The package comes from the public registry.
    pub is_third_party: bool,
    pub is_workspace_member: bool,
    /// A workspace member that no package depends on, development
    /// dependencies aside.
    pub is_root: bool,
    /// Every way from a root to the package leads through a development
    /// dependency.
    pub is_dev_only: bool,
    pub normal_deps: Vec<NodeIdx>,
    pub dev_deps: Vec<NodeIdx>,
    pub build_deps: Vec<NodeIdx>,
}

/// A node as a mathematical value.
pub struct NodeModel {
    pub name: Seq<char>,
    pub version: VersionModel,
    pub is_third_party: bool,
    pub is_workspace_member: bool,
    pub is_root: bool,
    pub is_dev_only: bool,
    pub normal_deps: Seq<usize>,
    pub dev_deps: Seq<usize>,
    pub build_deps: Seq<usize>,
}

impl View for PackageNode {
    type V = NodeModel;

    open spec fn view(&self) -> NodeModel {
        NodeModel {
            name: self.name@,
            version: self.version@,
            is_third_party: self.is_third_party,
            is_workspace_member: self.is_workspace_member,
            is_root: self.is_root,
            is_dev_only: self.is_dev_only,
            normal_deps: self.normal_deps@,
            dev_deps: self.dev_deps@,
            build_deps: self.build_deps@,
        }
    }
}

/// The packages of a build, each after the packages it depends on.
#[derive(Debug)]
pub struct DepGraph {
    pub nodes: Vec<PackageNode>,
}

impl View for DepGraph {
    type V = Seq<NodeModel>;

    open spec fn view(&self) -> Seq<NodeModel> {
        Seq::new(self.nodes@.len(), |i: int| self.nodes@[i]@)
    }
}

/// All dependencies of a node: normal, development, build.
pub open spec fn all_deps(node: NodeModel) -> Seq<usize> {
    node.normal_deps + node.dev_deps + node.build_deps
}

/// Every dependency of a node stands before the node.
pub open spec fn graph_wf(graph: Seq<NodeModel>) -> bool {
    forall|i: int, k: int|
        0 <= i < graph.len() && 0 <= k < all_deps(graph[i]).len() ==> (#[trigger] all_deps(
            graph[i],
        )[k]) < i
}

/// Why package metadata is no dependency graph.
#[derive(Clone, Copy, Debug, PartialEq, Eq, Structural)]
pub enum GraphError {
    /// The package at `package` depends on an id that no package has.
    UnknownDependency { package: usize },
    /// The packages depend on each other in a circle.
    Cycle,
    /// The packages at `first` and `second` have the same name and the
    /// same version.
    DuplicatePackage { first: usize, second: usize },
}

/// Two packages have the same name and the same version.
pub open spec fn same_package(a: Package, b: Package) -> bool {
    a.name@ == b.name@ && a.version@ == b.version@
}

/// No two packages have the same name and the same version.
pub open spec fn unique_packages(packages: Seq<Package>) -> bool {
    forall|i: int, j: int|
        0 <= i < j < packages.len() ==> !same_package(#[trigger] packages[i], #[trigger] packages[j])
}

/// `second` is the first package that shares its name and version with an
/// earlier one, and `first` is the first that it shares them with.
pub open spec fn first_duplicate(packages: Seq<Package>, first: int, second: int) -> bool {
    &&& 0 <= first < second < packages.len()
    &&& same_package(packages[first], packages[second])
    &&& forall|i: int| 0 <= i < first ==> !same_package(#[trigger] packages[i], packages[second])
    &&& forall|i: int, j: int|
        0 <= i < j < second ==> !same_package(#[trigger] packages[i], #[trigger] packages[j])
}

/// Why packages have no graph: `package` is the first with a dependency
/// that no package is; or else the packages depend on each other in a
/// circle; or else `second` is the first package with the name and version
/// of an earlier one, of which `first` is the first.
pub open spec fn no_graph(packages: Seq<Package>, error: GraphError) -> bool {
    match error {
        GraphError::UnknownDependency { package } => package < packages.len() && !deps_known_at(
            packages,
            package as int,
        ) && forall|j: int| 0 <= j < package ==> deps_known_at(packages, j),
        GraphError::Cycle => deps_known(packages) && !sortable(all_edges(packages)),
        GraphError::DuplicatePackage { first, second } => deps_known(packages) && sortable(
            all_edges(packages),
        ) && first_duplicate(packages, first as int, second as int),
    }
}

/// No two nodes have the same name and the same version.
pub open spec fn unique_nodes(graph: Seq<NodeModel>) -> bool {
    forall|i: int, j: int|
        0 <= i < j < graph.len() ==> !((#[trigger] graph[i]).name == (#[trigger] graph[j]).name
            && graph[i].version == graph[j].version)
}

/// Some package has the id `id`.
pub open spec fn id_known(packages: Seq<Package>, id: Seq<char>) -> bool {
    exists|i: int| 0 <= i < packages.len() && (#[trigger] packages[i]).id@ == id
}

/// The place of the first package with the id `id`.
pub open spec fn id_index(packages: Seq<Package>, id: Seq<char>) -> int {
    choose|i: int|
        0 <= i < packages.len() && (#[trigger] packages[i]).id@ == id && forall|j: int|
            0 <= j < i ==> (#[trigger] packages[j]).id@ != id
}

/// Every id of `ids` is the id of a package.
pub open spec fn ids_known(packages: Seq<Package>, ids: Seq<String>) -> bool {
    forall|k: int| 0 <= k < ids.len() ==> id_known(packages, (#[trigger] ids[k])@)
}

/// The places of the packages that `ids` names.
pub open spec fn resolve_ids(packages: Seq<Package>, ids: Seq<String>) -> Seq<usize> {
    Seq::new(ids.len(), |k: int| id_index(packages, ids[k]@) as usize)
}

/// Every dependency of package `i` is a package.
pub open spec fn deps_known_at(packages: Seq<Package>, i: int) -> bool {
    &&& ids_known(packages, packages[i].dependencies@)
    &&& ids_known(packages, packages[i].dev_dependencies@)
    &&& ids_known(packages, packages[i].build_dependencies@)
}

/// Every dependency of every package is a package.
pub open spec fn deps_known(packages: Seq<Package>) -> bool {
    forall|i: int| 0 <= i < packages.len() ==> deps_known_at(packages, i)
}

/// For each package, the places of its normal dependencies.
pub open spec fn normal_edges(packages: Seq<Package>) -> Seq<Seq<usize>> {
    Seq::new(packages.len(), |i: int| resolve_ids(packages, packages[i].dependencies@))
}

/// For each package, the places of its development dependencies.
pub open spec fn dev_edges(packages: Seq<Package>) -> Seq<Seq<usize>> {
    Seq::new(packages.len(), |i: int| resolve_ids(packages, packages[i].dev_dependencies@))
}

/// For each package, the places of its build dependencies.
pub open spec fn build_edges(packages: Seq<Package>) -> Seq<Seq<usize>> {
    Seq::new(packages.len(), |i: int| resolve_ids(packages, packages[i].build_dependencies@))
}

/// The dependencies that every build of a package needs: normal and build
/// dependencies.
pub open spec fn strong_edges(packages: Seq<Package>) -> Seq<Seq<usize>> {
    Seq::new(
        packages.len(),
        |i: int| normal_edges(packages)[i] + build_edges(packages)[i],
    )
}

/// All dependencies: normal, development, build.
pub open spec fn all_edges(packages: Seq<Package>) -> Seq<Seq<usize>> {
    Seq::new(
        packages.len(),
        |i: int| normal_edges(packages)[i] + dev_edges(packages)[i] + build_edges(packages)[i],
    )
}

/// Package `i` is a workspace member that no package needs for its build.
pub open spec fn root_package(packages: Seq<Package>, i: int) -> bool {
    packages[i].is_workspace_member && forall|j: int| !has_edge(strong_edges(packages), j, i)
}

/// For each package, whether it is a root.
pub open spec fn root_packages(packages: Seq<Package>) -> Seq<bool> {
    Seq::new(packages.len(), |i: int| root_package(packages, i))
}

/// Package `i` is only reached from the roots through a development
/// dependency, or not at all.
pub open spec fn dev_only_package(packages: Seq<Package>, i: int) -> bool {
    !reachable_from(strong_edges(packages), root_packages(packages), i)
}

/// The new places of the packages at the old places `deps`.
pub open spec fn moved(position: Seq<usize>, deps: Seq<usize>) -> Seq<usize> {
    Seq::new(deps.len(), |t: int| position[deps[t] as int])
}

/// The node that stands for package `i` once every package has the place
/// that `position` gives it.
pub open spec fn node_of(packages: Seq<Package>, position: Seq<usize>, i: int) -> NodeModel {
    NodeModel {
        name: packages[i].name@,
        version: packages[i].version@,
        is_third_party: packages[i].third_party(),
        is_workspace_member: packages[i].is_workspace_member,
        is_root: root_package(packages, i),
        is_dev_only: dev_only_package(packages, i),
        normal_deps: moved(position, normal_edges(packages)[i]),
        dev_deps: moved(position, dev_edges(packages)[i]),
        build_deps: moved(position, build_edges(packages)[i]),
    }
}

/// `graph` holds the packages in the order `order`: every dependency
/// before the package that has it, and at each place the first package of
/// the metadata whose dependencies all stand before that place.
pub open spec fn arranged(
    packages: Seq<Package>,
    order: Seq<usize>,
    position: Seq<usize>,
    graph: Seq<NodeModel>,
) -> bool {
    &&& edges_wf(all_edges(packages))
    &&& is_order(all_edges(packages), order, position)
    &&& least_first(all_edges(packages), order, position)
    &&& graph.len() == packages.len()
    &&& forall|k: int|
        0 <= k < graph.len() ==> #[trigger] graph[k] == node_of(packages, position, order[k] as int)
}

fn find_package(packages: &Vec<Package>, id: &str) -> (found: Option<usize>)
    ensures
        found is Some == id_known(packages@, id@),
        found is Some ==> found->0 == id_index(packages@, id@) && found->0 < packages@.len(),
{
    let mut i: usize = 0;
    while i < packages.len()
        invariant
            i <= packages@.len(),
            forall|j: int| 0 <= j < i ==> (#[trigger] packages@[j]).id@ != id@,
        decreases packages@.len() - i,
    {
        if str_eq(packages[i].id.as_str(), id) {
            proof {
                let k = id_index(packages@, id@);
                assert(packages@[i as int].id@ == id@);
                if k < i {
                    assert(packages@[k].id@ != id@);
                }
                if i < k {
                    assert(packages@[i as int].id@ != id@);
                }
            }
            return Some(i);
        }
        i += 1;
    }
    None
}

fn resolve_list(packages: &Vec<Package>, ids: &Vec<String>) -> (resolved: Option<Vec<usize>>)
    ensures
        match resolved {
            Some(places) => ids_known(packages@, ids@) && places@ == resolve_ids(packages@, ids@)
                && forall|k: int| 0 <= k < places@.len() ==> (#[trigger] places@[k])
                < packages@.len(),
            None => !ids_known(packages@, ids@),
        },
{
    let mut places: Vec<usize> = Vec::new();
    let mut k: usize = 0;
    while k < ids.len()
        invariant
            k <= ids@.len(),
            places@.len() == k,
            forall|j: int| 0 <= j < k ==> id_known(packages@, (#[trigger] ids@[j])@),
            forall|j: int|
                0 <= j < k ==> (#[trigger] places@[j]) == id_index(packages@, ids@[j]@) as usize
                    && places@[j] < packages@.len(),
        decreases ids@.len() - k,
    {
        match find_package(packages, ids[k].as_str()) {
            Some(place) => {
                places.push(place);
            },
            None => {
                assert(!id_known(packages@, ids@[k as int]@));
                return None;
            },
        }
        k += 1;
    }
    assert(places@ =~= resolve_ids(packages@, ids@));
    Some(places)
}

/// The three kinds of edges of every package, or the first package that
/// depends on an unknown id.
fn resolve_all(packages: &Vec<Package>) -> (resolved: Result<
    (Vec<Vec<usize>>, Vec<Vec<usize>>, Vec<Vec<usize>>),
    usize,
>)
    ensures
        match resolved {
            Ok((normal, dev, build)) => deps_known(packages@) && normal@.len() == packages@.len()
                && dev@.len() == packages@.len() && build@.len() == packages@.len() && edges_of(
                &normal,
            ) == normal_edges(packages@) && edges_of(&dev) == dev_edges(packages@) && edges_of(&build) == build_edges(
                packages@,
            ) && edges_wf(edges_of(&normal)) && edges_wf(edges_of(&dev)) && edges_wf(
                edges_of(&build),
            ),
            Err(i) => i < packages@.len() && !deps_known_at(packages@, i as int) && forall|j: int|
                0 <= j < i ==> deps_known_at(packages@, j),
        },
{
    let mut normal: Vec<Vec<usize>> = Vec::new();
    let mut dev: Vec<Vec<usize>> = Vec::new();
    let mut build: Vec<Vec<usize>> = Vec::new();
    let n = packages.len();
    let mut i: usize = 0;
    while i < n
        invariant
            i <= n,
            n == packages@.len(),
            normal@.len() == i,
            dev@.len() == i,
            build@.len() == i,
            forall|j: int| 0 <= j < i ==> deps_known_at(packages@, j),
            forall|j: int|
                0 <= j < i ==> (#[trigger] normal@[j])@ == resolve_ids(
                    packages@,
                    packages@[j].dependencies@,
                ),
            forall|j: int|
                0 <= j < i ==> (#[trigger] dev@[j])@ == resolve_ids(
                    packages@,
                    packages@[j].dev_dependencies@,
                ),
            forall|j: int|
                0 <= j < i ==> (#[trigger] build@[j])@ == resolve_ids(
                    packages@,
                    packages@[j].build_dependencies@,
                ),
            forall|j: int, k: int|
                0 <= j < i && 0 <= k < normal@[j]@.len() ==> (#[trigger] normal@[j]@[k]) < n,
            forall|j: int, k: int| 0 <= j < i && 0 <= k < dev@[j]@.len() ==> (#[trigger] dev@[j]@[k]) < n,
            forall|j: int, k: int|
                0 <= j < i && 0 <= k < build@[j]@.len() ==> (#[trigger] build@[j]@[k]) < n,
        decreases n - i,
    {
        let package = &packages[i];
        let a = resolve_list(packages, &package.dependencies);
        let b = resolve_list(packages, &package.dev_dependencies);
        let c = resolve_list(packages, &package.build_dependencies);
        match (a, b, c) {
            (Some(a), Some(b), Some(c)) => {
                normal.push(a);
                dev.push(b);
                build.push(c);
            },
            _ => {
                return Err(i);
            },
        }
        i += 1;
    }
    assert(edges_of(&normal) =~= normal_edges(packages@));
    assert(edges_of(&dev) =~= dev_edges(packages@));
    assert(edges_of(&build) =~= build_edges(packages@));
    Ok((normal, dev, build))
}

/// The rows of `a` and `b` joined, row by row.
fn join_rows(a: &Vec<Vec<usize>>, b: &Vec<Vec<usize>>) -> (joined: Vec<Vec<usize>>)
    requires
        a@.len() == b@.len(),
    ensures
        joined@.len() == a@.len(),
        forall|i: int| 0 <= i < a@.len() ==> (#[trigger] joined@[i])@ == a@[i]@ + b@[i]@,
        edges_wf(edges_of(a)) && edges_wf(edges_of(b)) ==> edges_wf(edges_of(&joined)),
{
    let n = a.len();
    let mut joined: Vec<Vec<usize>> = Vec::new();
    let mut i: usize = 0;
    while i < n
        invariant
            i <= n,
            n == a@.len(),
            n == b@.len(),
            joined@.len() == i,
            forall|j: int| 0 <= j < i ==> (#[trigger] joined@[j])@ == a@[j]@ + b@[j]@,
        decreases n - i,
    {
        let mut row: Vec<usize> = Vec::new();
        let left = &a[i];
        let right = &b[i];
        let mut k: usize = 0;
        while k < left.len()
            invariant
                k <= left@.len(),
                row@ == left@.subrange(0, k as int),
            decreases left@.len() - k,
        {
            row.push(left[k]);
            assert(row@ =~= left@.subrange(0, k + 1));
            k += 1;
        }
        assert(left@.subrange(0, k as int) =~= left@);
        let mut k: usize = 0;
        while k < right.len()
            invariant
                k <= right@.len(),
                row@ == left@ + right@.subrange(0, k as int),
            decreases right@.len() - k,
        {
            row.push(right[k]);
            assert(row@ =~= left@ + right@.subrange(0, k + 1));
            k += 1;
        }
        assert(right@.subrange(0, k as int) =~= right@);
        joined.push(row);
        i += 1;
    }
    proof {
        if edges_wf(edges_of(a)) && edges_wf(edges_of(b)) {
            assert forall|u: int, k: int|
                0 <= u < edges_of(&joined).len() && 0 <= k < edges_of(
                    &joined,
                )[u].len() implies (#[trigger] edges_of(&joined)[u][k]) < edges_of(
                &joined,
            ).len() by {
                assert(joined@[u]@ == a@[u]@ + b@[u]@);
                if k < a@[u]@.len() {
                    assert(edges_of(a)[u][k] < n);
                } else {
                    assert(edges_of(b)[u][k - a@[u]@.len()] < n);
                }
            }
        }
    }
    joined
}

/// For each node, whether an edge leads to it.
fn targets(adj: &Vec<Vec<usize>>) -> (hit: Vec<bool>)
    requires
        edges_wf(edges_of(adj)),
    ensures
        hit@.len() == adj@.len(),
        forall|v: int|
            0 <= v < adj@.len() ==> #[trigger] hit@[v] == exists|j: int|
                has_edge(edges_of(adj), j, v),
{
    let n = adj.len();
    let ghost edges = edges_of(adj);
    let mut hit = unmarked(n);
    let mut i: usize = 0;
    while i < n
        invariant
            i <= n,
            n == adj@.len(),
            edges == edges_of(adj),
            edges_wf(edges),
            hit@.len() == n,
            forall|v: int| 0 <= v < n && #[trigger] hit@[v] ==> exists|j: int| has_edge(edges, j, v),
            forall|j: int, k: int|
                0 <= j < i && 0 <= k < edges[j].len() ==> hit@[(#[trigger] edges[j][k]) as int],
        decreases n - i,
    {
        let row = &adj[i];
        let mut k: usize = 0;
        while k < row.len()
            invariant
                k <= row@.len(),
                i < n,
                n == adj@.len(),
                row@ == edges[i as int],
                edges == edges_of(adj),
                edges_wf(edges),
                hit@.len() == n,
                forall|v: int|
                    0 <= v < n && #[trigger] hit@[v] ==> exists|j: int| has_edge(edges, j, v),
                forall|j: int, t: int|
                    0 <= j < i && 0 <= t < edges[j].len() ==> hit@[(#[trigger] edges[j][t]) as int],
                forall|t: int| 0 <= t < k ==> hit@[(#[trigger] edges[i as int][t]) as int],
            decreases row@.len() - k,
        {
            let target = row[k];
            assert(edges[i as int][k as int] == target);
            assert(has_edge(edges, i as int, target as int));
            hit.set(target, true);
            k += 1;
        }
        i += 1;
    }
    proof {
        assert forall|v: int| 0 <= v < n implies #[trigger] hit@[v] == exists|j: int|
            has_edge(edges, j, v) by {
            if exists|j: int| has_edge(edges, j, v) {
                let j = choose|j: int| has_edge(edges, j, v);
                let k = choose|k: int| 0 <= k < edges[j].len() && #[trigger] edges[j][k] == v;
                assert(hit@[edges[j][k] as int]);
            }
        }
    }
    hit
}

/// The new places of the nodes at the old places `deps`.
fn move_deps(position: &Vec<usize>, deps: &Vec<usize>) -> (places: Vec<usize>)
    requires
        forall|t: int| 0 <= t < deps@.len() ==> (#[trigger] deps@[t]) < position@.len(),
    ensures
        places@ == moved(position@, deps@),
{
    let mut places: Vec<usize> = Vec::new();
    let mut t: usize = 0;
    while t < deps.len()
        invariant
            t <= deps@.len(),
            places@.len() == t,
            forall|j: int| 0 <= j < deps@.len() ==> (#[trigger] deps@[j]) < position@.len(),
            forall|j: int| 0 <= j < t ==> (#[trigger] places@[j]) == position@[deps@[j] as int],
        decreases deps@.len() - t,
    {
        places.push(position[deps[t]]);
        t += 1;
    }
    assert(places@ =~= moved(position@, deps@));
    places
}

/// For each package, whether it is a root.
fn find_roots(packages: &Vec<Package>, strong: &Vec<Vec<usize>>) -> (roots: Vec<bool>)
    requires
        edges_wf(edges_of(strong)),
        strong@.len() == packages@.len(),
        edges_of(strong) == strong_edges(packages@),
    ensures
        roots@ == root_packages(packages@),
{
    let n = packages.len();
    let needed = targets(strong);
    let mut roots: Vec<bool> = Vec::new();
    let mut i: usize = 0;
    while i < n
        invariant
            i <= n,
            n == packages@.len(),
            needed@.len() == n,
            roots@.len() == i,
            edges_of(strong) == strong_edges(packages@),
            forall|v: int|
                0 <= v < n ==> #[trigger] needed@[v] == exists|j: int|
                    has_edge(edges_of(strong), j, v),
            forall|v: int| 0 <= v < i ==> #[trigger] roots@[v] == root_package(packages@, v),
        decreases n - i,
    {
        roots.push(packages[i].is_workspace_member && !needed[i]);
        i += 1;
    }
    assert(roots@ =~= root_packages(packages@));
    roots
}

/// The nodes of the packages in the order `order`.
fn assemble(
    packages: &Vec<Package>,
    normal: &Vec<Vec<usize>>,
    dev: &Vec<Vec<usize>>,
    build: &Vec<Vec<usize>>,
    order: &Vec<usize>,
    position: &Vec<usize>,
    roots: &Vec<bool>,
    built_in: &Vec<bool>,
) -> (nodes: Vec<PackageNode>)
    requires
        normal@.len() == packages@.len(),
        dev@.len() == packages@.len(),
        build@.len() == packages@.len(),
        built_in@.len() == packages@.len(),
        edges_of(normal) == normal_edges(packages@),
        edges_of(dev) == dev_edges(packages@),
        edges_of(build) == build_edges(packages@),
        edges_wf(edges_of(normal)),
        edges_wf(edges_of(dev)),
        edges_wf(edges_of(build)),
        is_order(all_edges(packages@), order@, position@),
        roots@ == root_packages(packages@),
        forall|v: int|
            0 <= v < packages@.len() ==> #[trigger] built_in@[v] == !dev_only_package(packages@, v),
    ensures
        nodes@.len() == packages@.len(),
        forall|j: int|
            0 <= j < nodes@.len() ==> (#[trigger] nodes@[j])@ == node_of(
                packages@,
                position@,
                order@[j] as int,
            ),
{
    let n = packages.len();
    let mut nodes: Vec<PackageNode> = Vec::new();
    let mut k: usize = 0;
    while k < n
        invariant
            k <= n,
            n == packages@.len(),
            nodes@.len() == k,
            built_in@.len() == n,
            roots@ == root_packages(packages@),
            edges_of(normal) == normal_edges(packages@),
            edges_of(dev) == dev_edges(packages@),
            edges_of(build) == build_edges(packages@),
            edges_wf(edges_of(normal)),
            edges_wf(edges_of(dev)),
            edges_wf(edges_of(build)),
            normal@.len() == n,
            dev@.len() == n,
            build@.len() == n,
            is_order(all_edges(packages@), order@, position@),
            forall|v: int|
                0 <= v < n ==> #[trigger] built_in@[v] == !dev_only_package(packages@, v),
            forall|j: int|
                0 <= j < k ==> (#[trigger] nodes@[j])@ == node_of(
                    packages@,
                    position@,
                    order@[j] as int,
                ),
        decreases n - k,
    {
        let i = order[k];
        let package = &packages[i];
        proof {
            assert(edges_of(normal)[i as int] == normal@[i as int]@);
            assert(edges_of(dev)[i as int] == dev@[i as int]@);
            assert(edges_of(build)[i as int] == build@[i as int]@);
            assert forall|t: int| 0 <= t < normal@[i as int]@.len() implies (
            #[trigger] normal@[i as int]@[t]) < position@.len() by {
                assert(edges_of(normal)[i as int][t] < n);
            }
            assert forall|t: int| 0 <= t < dev@[i as int]@.len() implies (
            #[trigger] dev@[i as int]@[t]) < position@.len() by {
                assert(edges_of(dev)[i as int][t] < n);
            }
            assert forall|t: int| 0 <= t < build@[i as int]@.len() implies (
            #[trigger] build@[i as int]@[t]) < position@.len() by {
                assert(edges_of(build)[i as int][t] < n);
            }
            assert(roots@[i as int] == root_package(packages@, i as int));
        }
        let node = PackageNode {
            name: package.name.clone(),
            version: package.version.clone(),
            is_third_party: package.is_third_party(),
            is_workspace_member: package.is_workspace_member,
            is_root: roots[i],
            is_dev_only: !built_in[i],
            normal_deps: move_deps(position, &normal[i]),
            dev_deps: move_deps(position, &dev[i]),
            build_deps: move_deps(position, &build[i]),
        };
        assert(node@ == node_of(packages@, position@, i as int));
        nodes.push(node);
        k += 1;
    }
    nodes
}

/// The first two packages with the same name and the same version.
fn find_duplicate(packages: &Vec<Package>) -> (found: Option<(usize, usize)>)
    ensures
        match found {
            Some((first, second)) => first_duplicate(packages@, first as int, second as int),
            None => unique_packages(packages@),
        },
{
    let mut j: usize = 0;
    while j < packages.len()
        invariant
            j <= packages@.len(),
            forall|a: int, b: int|
                0 <= a < b < j ==> !same_package(#[trigger] packages@[a], #[trigger] packages@[b]),
        decreases packages@.len() - j,
    {
        let mut i: usize = 0;
        while i < j
            invariant
                i <= j < packages@.len(),
                forall|a: int, b: int|
                    0 <= a < b < j ==> !same_package(
                        #[trigger] packages@[a],
                        #[trigger] packages@[b],
                    ),
                forall|a: int| 0 <= a < i ==> !same_package(#[trigger] packages@[a], packages@[j as int]),
            decreases j - i,
        {
            if str_eq(packages[i].name.as_str(), packages[j].name.as_str())
                && packages[i].version.same(&packages[j].version) {
                return Some((i, j));
            }
            i += 1;
        }
        j += 1;
    }
    None
}

/// In an arrangement of packages of which no two have the same name and
/// version, no two nodes have.
pub proof fn lemma_arranged_unique(
    packages: Seq<Package>,
    order: Seq<usize>,
    position: Seq<usize>,
    graph: Seq<NodeModel>,
)
    requires
        arranged(packages, order, position, graph),
        unique_packages(packages),
    ensures
        unique_nodes(graph),
{
    assert forall|i: int, j: int| 0 <= i < j < graph.len() implies !((#[trigger] graph[i]).name == (
    #[trigger] graph[j]).name && graph[i].version == graph[j].version) by {
        let a = order[i] as int;
        let b = order[j] as int;
        assert(graph[i] == node_of(packages, position, a));
        assert(graph[j] == node_of(packages, position, b));
        assert(position[order[i] as int] == i);
        assert(position[order[j] as int] == j);
        if a < b {
            assert(!same_package(packages[a], packages[b]));
        } else {
            assert(!same_package(packages[b], packages[a]));
        }
    }
}

impl DepGraph {
    /// The graph of all packages of `metadata`, each after its dependencies
    /// and otherwise in the order of the metadata: every place holds the
    /// first package whose dependencies all stand before it.
    /// Metadata in which a package depends on an unknown id, in which
    /// packages depend on each other in a circle, or in which two packages
    /// have the same name and version, has no graph.
    pub fn build(metadata: &Metadata) -> (built: Result<DepGraph, GraphError>)
        ensures
            match built {
                Ok(graph) => deps_known(metadata.packages@) && sortable(
                    all_edges(metadata.packages@),
                ) && unique_packages(metadata.packages@) && graph_wf(graph@) && unique_nodes(
                    graph@,
                ) && exists|order: Seq<usize>, position: Seq<usize>|
                    arranged(metadata.packages@, order, position, graph@),
                Err(error) => no_graph(metadata.packages@, error),
            },
    {
        let packages = &metadata.packages;
        let (normal, dev, build) = match resolve_all(packages) {
            Ok(edges) => edges,
            Err(package) => {
                return Err(GraphError::UnknownDependency { package });
            },
        };
        let strong = join_rows(&normal, &build);
        let with_dev = join_rows(&normal, &dev);
        let all = join_rows(&with_dev, &build);
        proof {
            assert(edges_of(&strong) =~= strong_edges(packages@));
            assert(edges_of(&all) =~= all_edges(packages@));
        }
        let (order, position) = match topo_order(&all) {
            Some(sorted) => sorted,
            None => {
                return Err(GraphError::Cycle);
            },
        };
        match find_duplicate(packages) {
            Some((first, second)) => {
                return Err(GraphError::DuplicatePackage { first, second });
            },
            None => {},
        }
        let roots = find_roots(packages, &strong);
        let built_in = reach_from(&strong, &roots);
        let nodes = assemble(packages, &normal, &dev, &build, &order, &position, &roots, &built_in);
        let graph = DepGraph { nodes };
        proof {
            assert(graph@.len() == packages@.len());
            assert(arranged(packages@, order@, position@, graph@));
            lemma_arranged_wf(packages@, order@, position@, graph@);
            lemma_arranged_unique(packages@, order@, position@, graph@);
        }
        Ok(graph)
    }
}

/// The packages can be arranged in one way only: the graph of given
/// packages is one graph.
pub proof fn lemma_arranged_same(
    packages: Seq<Package>,
    order: Seq<usize>,
    position: Seq<usize>,
    graph: Seq<NodeModel>,
    other_order: Seq<usize>,
    other_position: Seq<usize>,
    other: Seq<NodeModel>,
)
    requires
        arranged(packages, order, position, graph),
        arranged(packages, other_order, other_position, other),
    ensures
        order == other_order,
        position == other_position,
        graph == other,
{
    lemma_order_unique(all_edges(packages), order, position, other_order, other_position);
    assert forall|k: int| 0 <= k < graph.len() implies graph[k] == other[k] by {
        assert(graph[k] == node_of(packages, position, order[k] as int));
        assert(other[k] == node_of(packages, other_position, other_order[k] as int));
    }
    assert(graph =~= other);
}

/// In an arrangement every dependency of a node stands before the node.
pub proof fn lemma_arranged_wf(
    packages: Seq<Package>,
    order: Seq<usize>,
    position: Seq<usize>,
    graph: Seq<NodeModel>,
)
    requires
        arranged(packages, order, position, graph),
    ensures
        graph_wf(graph),
{
    let edges = all_edges(packages);
    assert forall|i: int, k: int|
        0 <= i < graph.len() && 0 <= k < all_deps(graph[i]).len() implies (#[trigger] all_deps(
        graph[i],
    )[k]) < i by {
        let p = order[i] as int;
        let node = graph[i];
        assert(node == node_of(packages, position, p));
        let a = normal_edges(packages)[p];
        let b = dev_edges(packages)[p];
        let c = build_edges(packages)[p];
        assert(edges[p] == a + b + c);
        assert(position[order[i] as int] == i);
        if k < a.len() {
            assert(edges[p][k] == a[k]);
            assert(all_deps(node)[k] == position[a[k] as int]);
        } else if k < a.len() + b.len() {
            assert(edges[p][k] == b[k - a.len()]);
            assert(all_deps(node)[k] == position[b[k - a.len()] as int]);
        } else {
            assert(edges[p][k] == c[k - a.len() - b.len()]);
            assert(all_deps(node)[k] == position[c[k - a.len() - b.len()] as int]);
        }
        assert(position[edges[p][k] as int] < position[p]);
    }
}

} // verus!
