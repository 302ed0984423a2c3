use cargo_vet::filter::GraphFilter;
use cargo_vet::graph::{DepGraph, GraphError, Metadata, Package, PackageExt, CRATES_IO};
use cargo_vet::version::Version;

fn pkg(
    name: &str,
    version: &str,
    third_party: bool,
    member: bool,
    deps: &[&str],
    dev: &[&str],
    build: &[&str],
) -> Package {
    let ids = |list: &[&str]| list.iter().map(|s| s.to_string()).collect::<Vec<_>>();
    Package {
        id: name.to_string(),
        name: name.to_string(),
        version: Version::parse(version).unwrap(),
        source: if third_party {
            Some(CRATES_IO.to_string())
        } else {
            None
        },
        is_workspace_member: member,
        dependencies: ids(deps),
        dev_dependencies: ids(dev),
        build_dependencies: ids(build),
    }
}

fn sample() -> Metadata {
    Metadata {
        packages: vec![
            pkg("root", "0.1.0", false, true, &["lib", "helper"], &["tester"], &["builder"]),
            pkg("lib", "1.0.0", true, false, &["leaf"], &[], &[]),
            pkg("tester", "1.0.0", true, false, &["leaf", "test-only"], &[], &[]),
            pkg("leaf", "2.0.0", true, false, &[], &[], &[]),
            pkg("test-only", "0.3.0", true, false, &[], &[], &[]),
            pkg("builder", "0.9.0", true, false, &[], &[], &[]),
            pkg("helper", "0.1.0", false, true, &[], &[], &[]),
        ],
    }
}

fn index(graph: &DepGraph, name: &str) -> usize {
    graph.nodes.iter().position(|n| n.name == name).unwrap()
}

fn names(graph: &DepGraph) -> Vec<String> {
    graph.nodes.iter().map(|n| n.name.clone()).collect()
}

#[test]
fn third_party_is_read_from_the_source() {
    let a = pkg("a", "1.0.0", true, false, &[], &[], &[]);
    assert!(a.is_third_party());
    let b = pkg("b", "1.0.0", false, false, &[], &[], &[]);
    assert!(!b.is_third_party());
    let mut c = pkg("c", "1.0.0", true, false, &[], &[], &[]);
    c.source = Some("git+https://example.com/c".to_string());
    assert!(!c.is_third_party());
}

#[test]
fn dependencies_come_before_dependents() {
    let graph = DepGraph::build(&sample()).unwrap();
    assert_eq!(graph.nodes.len(), 7);
    for (i, node) in graph.nodes.iter().enumerate() {
        for d in node
            .normal_deps
            .iter()
            .chain(&node.dev_deps)
            .chain(&node.build_deps)
        {
            assert!(*d < i);
        }
    }
    let root = &graph.nodes[index(&graph, "root")];
    assert_eq!(
        root.normal_deps,
        vec![index(&graph, "lib"), index(&graph, "helper")]
    );
    assert_eq!(root.dev_deps, vec![index(&graph, "tester")]);
    assert_eq!(root.build_deps, vec![index(&graph, "builder")]);
}

#[test]
fn roots_and_dev_only() {
    let graph = DepGraph::build(&sample()).unwrap();
    let flag = |name: &str| {
        let n = &graph.nodes[index(&graph, name)];
        (n.is_root, n.is_dev_only, n.is_workspace_member, n.is_third_party)
    };
    assert_eq!(flag("root"), (true, false, true, false));
    assert_eq!(flag("helper"), (false, false, true, false));
    assert_eq!(flag("lib"), (false, false, false, true));
    assert_eq!(flag("leaf"), (false, false, false, true));
    assert_eq!(flag("builder"), (false, false, false, true));
    assert_eq!(flag("tester"), (false, true, false, true));
    assert_eq!(flag("test-only"), (false, true, false, true));
}

#[test]
fn cycle_is_an_error() {
    let metadata = Metadata {
        packages: vec![
            pkg("a", "1.0.0", false, true, &["b"], &[], &[]),
            pkg("b", "1.0.0", true, false, &["c"], &[], &[]),
            pkg("c", "1.0.0", true, false, &["b"], &[], &[]),
        ],
    };
    assert_eq!(DepGraph::build(&metadata).err(), Some(GraphError::Cycle));
}

#[test]
fn unknown_dependency_is_an_error() {
    let metadata = Metadata {
        packages: vec![
            pkg("a", "1.0.0", false, true, &[], &[], &[]),
            pkg("b", "1.0.0", true, false, &["nowhere"], &[], &[]),
        ],
    };
    assert_eq!(
        DepGraph::new(&metadata, None).err(),
        Some(GraphError::UnknownDependency { package: 1 })
    );
}

#[test]
fn exclude_drops_the_node_and_its_orphans() {
    let filters = vec![GraphFilter::from_str("exclude(name(tester))").unwrap()];
    let graph = DepGraph::new(&sample(), Some(&filters)).unwrap();
    let mut left = names(&graph);
    left.sort();
    assert_eq!(left, vec!["builder", "helper", "leaf", "lib", "root"]);
    let root = &graph.nodes[index(&graph, "root")];
    assert!(root.dev_deps.is_empty());
    assert_eq!(
        root.normal_deps,
        vec![index(&graph, "lib"), index(&graph, "helper")]
    );
    assert_eq!(
        graph.nodes[index(&graph, "lib")].normal_deps,
        vec![index(&graph, "leaf")]
    );
}

#[test]
fn include_keeps_only_what_matches_and_is_reached() {
    let filters =
        vec![GraphFilter::from_str("include(any(is_workspace_member(true),name(leaf)))").unwrap()];
    let graph = DepGraph::new(&sample(), Some(&filters)).unwrap();
    let mut left = names(&graph);
    left.sort();
    assert_eq!(left, vec!["helper", "root"]);
}

#[test]
fn filters_keep_the_flags_of_the_whole_graph() {
    let filters = vec![GraphFilter::from_str("exclude(is_dev_only(true))").unwrap()];
    let graph = DepGraph::new(&sample(), Some(&filters)).unwrap();
    let mut left = names(&graph);
    left.sort();
    assert_eq!(left, vec!["builder", "helper", "leaf", "lib", "root"]);
}

#[test]
fn filtering_twice_is_filtering_once() {
    let whole = DepGraph::build(&sample()).unwrap();
    for text in [
        "exclude(name(tester))",
        "include(not(version(2.0.0)))",
        "exclude(all(is_third_party(true),is_dev_only(false)))",
        "include(is_root(false))",
    ] {
        let filters = vec![GraphFilter::from_str(text).unwrap()];
        let once = whole.filter(&filters);
        let twice = once.filter(&filters);
        assert_eq!(format!("{:?}", once), format!("{:?}", twice), "{text}");
    }
}

#[test]
fn no_filter_keeps_everything() {
    let whole = DepGraph::build(&sample()).unwrap();
    let same = whole.filter(&vec![]);
    assert_eq!(format!("{:?}", whole), format!("{:?}", same));
}

#[test]
fn what_the_workspace_does_not_reach_is_dropped_without_filters() {
    let mut metadata = sample();
    metadata.packages.push(pkg("stray", "1.0.0", true, false, &["leaf"], &[], &[]));
    let whole = DepGraph::build(&metadata).unwrap();
    assert_eq!(whole.nodes.len(), 8);
    let graph = DepGraph::new(&metadata, None).unwrap();
    assert_eq!(graph.nodes.len(), 7);
    assert!(!names(&graph).contains(&"stray".to_string()));
    let empty: Vec<GraphFilter> = vec![];
    let same = DepGraph::new(&metadata, Some(&empty)).unwrap();
    assert_eq!(format!("{:?}", graph), format!("{:?}", same));
    for (i, node) in graph.nodes.iter().enumerate() {
        for dep in node.normal_deps.iter().chain(&node.dev_deps).chain(&node.build_deps) {
            assert!(*dep < i);
        }
    }
}

#[test]
fn two_packages_of_one_name_and_version_are_an_error() {
    let mut metadata = sample();
    let mut twin = pkg("leaf", "2.0.0", true, false, &[], &[], &[]);
    twin.id = "leaf 2.0.0 (elsewhere)".to_string();
    metadata.packages.push(twin);
    assert_eq!(
        DepGraph::build(&metadata).err(),
        Some(GraphError::DuplicatePackage { first: 3, second: 7 })
    );
    assert_eq!(
        DepGraph::new(&metadata, None).err(),
        Some(GraphError::DuplicatePackage { first: 3, second: 7 })
    );
    let mut other = sample();
    let mut newer = pkg("leaf", "2.0.1", true, false, &[], &[], &[]);
    newer.id = "leaf 2.0.1".to_string();
    other.packages.push(newer);
    assert!(DepGraph::build(&other).is_ok());
}

#[test]
fn every_place_holds_the_first_package_that_is_free() {
    let graph = DepGraph::build(&sample()).unwrap();
    assert_eq!(
        names(&graph),
        vec!["leaf", "lib", "test-only", "tester", "builder", "helper", "root"]
    );
    let mut turned = sample();
    turned.packages.reverse();
    let graph = DepGraph::build(&turned).unwrap();
    assert_eq!(
        names(&graph),
        vec!["helper", "builder", "test-only", "leaf", "tester", "lib", "root"]
    );
}
