use cargo_vet::claims::ClaimOrigin;
use cargo_vet::format::{
    AuditEntry, AuditKind, AuditsFile, ConfigFile, CriteriaEntry, Delta, ImportsFile, PolicyEntry,
    UnauditedDependency,
};
use cargo_vet::graph::{Metadata, Package, CRATES_IO};
use cargo_vet::resolver::{resolve, Conclusion, FailureReason, Resolution, ResolveError};
use cargo_vet::storage::Store;
use cargo_vet::version::{Version, VersionReq};

fn v(text: &str) -> Version {
    Version::parse(text).unwrap()
}

fn pkg(name: &str, version: &str, third_party: bool, deps: &[&str], dev: &[&str]) -> Package {
    let ids = |list: &[&str]| list.iter().map(|s| s.to_string()).collect::<Vec<_>>();
    Package {
        id: format!("{name} {version}"),
        name: name.to_string(),
        version: v(version),
        source: if third_party {
            Some(CRATES_IO.to_string())
        } else {
            None
        },
        is_workspace_member: !third_party,
        dependencies: ids(deps),
        dev_dependencies: ids(dev),
        build_dependencies: vec![],
    }
}

fn full(version: &str, criteria: &str) -> AuditEntry {
    AuditEntry {
        who: None,
        notes: None,
        criteria: criteria.to_string(),
        kind: AuditKind::Full {
            version: v(version),
            dependency_criteria: vec![],
        },
    }
}

fn delta(from: &str, to: &str, criteria: &str) -> AuditEntry {
    AuditEntry {
        who: None,
        notes: None,
        criteria: criteria.to_string(),
        kind: AuditKind::Delta {
            delta: Delta {
                from: v(from),
                to: v(to),
            },
            dependency_criteria: vec![],
        },
    }
}

fn violation(versions: &str, criteria: &str) -> AuditEntry {
    AuditEntry {
        who: None,
        notes: None,
        criteria: criteria.to_string(),
        kind: AuditKind::Violation {
            violation: VersionReq {
                text: versions.to_string(),
            },
        },
    }
}

fn exemption(version: &str, criteria: &str) -> UnauditedDependency {
    UnauditedDependency {
        version: v(version),
        criteria: criteria.to_string(),
        dependency_criteria: vec![],
        notes: None,
        suggest: true,
    }
}

fn store(audits: Vec<(&str, Vec<AuditEntry>)>) -> Store {
    Store {
        config: ConfigFile {
            default_criteria: "safe-to-deploy".to_string(),
            imports: vec![],
            unaudited: vec![],
            policy: vec![],
        },
        audits: AuditsFile {
            criteria: vec![],
            audits: audits
                .into_iter()
                .map(|(name, list)| (name.to_string(), list))
                .collect(),
        },
        imports: ImportsFile { audits: vec![] },
    }
}

fn node(found: &Resolution, name: &str) -> usize {
    found.graph.nodes.iter().position(|n| n.name == name).unwrap()
}

fn one_dep(version: &str) -> Metadata {
    Metadata {
        packages: vec![
            pkg("A", "1.0.0", false, &[&format!("B {version}")], &[]),
            pkg("B", version, true, &[], &[]),
        ],
    }
}

#[test]
fn trivial_success() {
    let store = store(vec![("B", vec![full("1.0.0", "safe-to-deploy")])]);
    let found = resolve(&one_dep("1.0.0"), None, &store, false).unwrap();
    assert_eq!(found.report.conclusion, Conclusion::Success);
    assert!(found.report.failures.is_empty());
    assert!(!found.report.has_errors());
    let b = node(&found, "B");
    assert_eq!(found.report.required[b].indices(), vec![0, 1]);
    assert_eq!(found.report.findings.effective[b].indices(), vec![0, 1]);
    assert_eq!(
        found.report.used_audits[b],
        vec![ClaimOrigin::Audit { index: 0 }]
    );
}

#[test]
fn nothing_audited_fails() {
    let store = store(vec![]);
    let found = resolve(&one_dep("1.0.0"), None, &store, false).unwrap();
    assert_eq!(found.report.conclusion, Conclusion::FailVet);
    assert!(found.report.has_errors());
    assert_eq!(found.report.failures.len(), 1);
    let failure = found.report.failures[0];
    assert_eq!(failure.node, node(&found, "B"));
    assert_eq!(failure.reason, FailureReason::Unreachable);
    assert_eq!(failure.required.indices(), vec![0, 1]);
    assert!(failure.reached.is_empty());
}

#[test]
fn delta_chain() {
    let store = store(vec![(
        "B",
        vec![
            full("1.0.0", "safe-to-deploy"),
            delta("1.0.0", "1.1.0", "safe-to-deploy"),
            delta("1.1.0", "1.2.0", "safe-to-deploy"),
        ],
    )]);
    let found = resolve(&one_dep("1.2.0"), None, &store, false).unwrap();
    assert_eq!(found.report.conclusion, Conclusion::Success);
    assert_eq!(
        found.report.used_audits[node(&found, "B")],
        vec![
            ClaimOrigin::Audit { index: 0 },
            ClaimOrigin::Audit { index: 1 },
            ClaimOrigin::Audit { index: 2 },
        ]
    );
}

#[test]
fn delta_chain_out_of_order_and_unused_audits() {
    let store = store(vec![(
        "B",
        vec![
            delta("1.1.0", "1.2.0", "safe-to-deploy"),
            full("0.5.0", "safe-to-deploy"),
            delta("1.0.0", "1.1.0", "safe-to-deploy"),
            full("1.0.0", "safe-to-deploy"),
            delta("1.2.0", "1.3.0", "safe-to-deploy"),
        ],
    )]);
    let found = resolve(&one_dep("1.2.0"), None, &store, false).unwrap();
    assert_eq!(found.report.conclusion, Conclusion::Success);
    assert_eq!(
        found.report.used_audits[node(&found, "B")],
        vec![
            ClaimOrigin::Audit { index: 0 },
            ClaimOrigin::Audit { index: 2 },
            ClaimOrigin::Audit { index: 3 },
        ]
    );
}

#[test]
fn missing_gap() {
    let store = store(vec![(
        "B",
        vec![
            full("1.0.0", "safe-to-deploy"),
            delta("1.0.0", "1.1.0", "safe-to-deploy"),
        ],
    )]);
    let found = resolve(&one_dep("1.2.0"), None, &store, false).unwrap();
    assert_eq!(found.report.conclusion, Conclusion::FailVet);
    assert_eq!(found.report.failures.len(), 1);
    assert_eq!(found.report.failures[0].reason, FailureReason::Unreachable);
    assert!(found.report.used_audits[node(&found, "B")].is_empty());
}

#[test]
fn delta_that_is_weaker_breaks_the_chain() {
    let store = store(vec![(
        "B",
        vec![
            full("1.0.0", "safe-to-deploy"),
            delta("1.0.0", "1.1.0", "safe-to-run"),
        ],
    )]);
    let found = resolve(&one_dep("1.1.0"), None, &store, false).unwrap();
    assert_eq!(found.report.conclusion, Conclusion::FailVet);
    let failure = found.report.failures[0];
    assert_eq!(failure.required.indices(), vec![0, 1]);
    assert_eq!(failure.reached.indices(), vec![0]);
}

#[test]
fn violation_conflict() {
    let metadata = Metadata {
        packages: vec![
            pkg("A", "1.0.0", false, &["C 2.0.0"], &[]),
            pkg("C", "2.0.0", true, &[], &[]),
        ],
    };
    let store = store(vec![(
        "C",
        vec![
            full("2.0.0", "safe-to-deploy"),
            violation(">=2.0.0", "safe-to-deploy"),
        ],
    )]);
    let found = resolve(&metadata, None, &store, false).unwrap();
    assert_eq!(found.report.conclusion, Conclusion::FailVet);
    assert_eq!(found.report.failures.len(), 1);
    assert_eq!(
        found.report.failures[0].reason,
        FailureReason::Violation {
            origin: ClaimOrigin::Audit { index: 1 }
        }
    );
    assert!(found.report.failures[0].reached.is_empty());
}

#[test]
fn violation_of_other_versions_does_not_count() {
    let metadata = Metadata {
        packages: vec![
            pkg("A", "1.0.0", false, &["C 2.0.0"], &[]),
            pkg("C", "2.0.0", true, &[], &[]),
        ],
    };
    let store = store(vec![(
        "C",
        vec![
            full("2.0.0", "safe-to-deploy"),
            violation("<2.0.0", "safe-to-deploy"),
        ],
    )]);
    let found = resolve(&metadata, None, &store, false).unwrap();
    assert_eq!(found.report.conclusion, Conclusion::Success);
}

fn dev_split() -> Metadata {
    Metadata {
        packages: vec![
            pkg("W", "0.1.0", false, &["L 1.0.0"], &["T 1.0.0"]),
            pkg("L", "1.0.0", true, &[], &[]),
            pkg("T", "1.0.0", true, &[], &[]),
        ],
    }
}

#[test]
fn dev_dependencies_need_only_safe_to_run() {
    let both = store(vec![
        ("L", vec![full("1.0.0", "safe-to-deploy")]),
        ("T", vec![full("1.0.0", "safe-to-run")]),
    ]);
    let found = resolve(&dev_split(), None, &both, false).unwrap();
    assert_eq!(found.report.conclusion, Conclusion::Success);
    let t = node(&found, "T");
    assert!(found.graph.nodes[t].is_dev_only);
    assert_eq!(found.report.required[t].indices(), vec![0]);
    let l = node(&found, "L");
    assert_eq!(found.report.required[l].indices(), vec![0, 1]);
}

#[test]
fn normal_dependencies_need_safe_to_deploy() {
    let weak = store(vec![
        ("L", vec![full("1.0.0", "safe-to-run")]),
        ("T", vec![full("1.0.0", "safe-to-run")]),
    ]);
    let found = resolve(&dev_split(), None, &weak, false).unwrap();
    assert_eq!(found.report.conclusion, Conclusion::FailVet);
    assert_eq!(found.report.failures.len(), 1);
    assert_eq!(found.report.failures[0].node, node(&found, "L"));
}

#[test]
fn deploy_audit_satisfies_run_requirement() {
    let metadata = Metadata {
        packages: vec![
            pkg("W", "0.1.0", false, &[], &["D 1.0.0"]),
            pkg("D", "1.0.0", true, &[], &[]),
        ],
    };
    let store = store(vec![("D", vec![full("1.0.0", "safe-to-deploy")])]);
    let found = resolve(&metadata, None, &store, false).unwrap();
    assert_eq!(found.report.conclusion, Conclusion::Success);
    assert_eq!(found.report.required[node(&found, "D")].indices(), vec![0]);
}

#[test]
fn exemption_counts_as_full_audit() {
    let mut store = store(vec![("B", vec![delta("1.0.0", "1.1.0", "safe-to-deploy")])]);
    store.config.unaudited = vec![("B".to_string(), vec![exemption("1.0.0", "safe-to-deploy")])];
    let found = resolve(&one_dep("1.1.0"), None, &store, false).unwrap();
    assert_eq!(found.report.conclusion, Conclusion::Success);
    assert_eq!(
        found.report.used_audits[node(&found, "B")],
        vec![
            ClaimOrigin::Audit { index: 0 },
            ClaimOrigin::Exemption { index: 0 },
        ]
    );
}

#[test]
fn imported_audits_are_used() {
    let mut store = store(vec![]);
    store.imports.audits = vec![(
        "peer".to_string(),
        AuditsFile {
            criteria: vec![],
            audits: vec![("B".to_string(), vec![full("1.0.0", "safe-to-deploy")])],
        },
    )];
    let found = resolve(&one_dep("1.0.0"), None, &store, false).unwrap();
    assert_eq!(found.report.conclusion, Conclusion::Success);
    assert_eq!(
        found.report.used_audits[node(&found, "B")],
        vec![ClaimOrigin::Import { peer: 0, index: 0 }]
    );
}

#[test]
fn imported_audit_for_unknown_criteria_is_ignored() {
    let mut store = store(vec![]);
    store.imports.audits = vec![(
        "peer".to_string(),
        AuditsFile {
            criteria: vec![],
            audits: vec![("B".to_string(), vec![full("1.0.0", "peer-reviewed")])],
        },
    )];
    let found = resolve(&one_dep("1.0.0"), None, &store, false).unwrap();
    assert_eq!(found.report.conclusion, Conclusion::FailVet);
}

fn chain() -> Metadata {
    Metadata {
        packages: vec![
            pkg("A", "1.0.0", false, &["B 1.0.0"], &[]),
            pkg("B", "1.0.0", true, &["C 1.0.0"], &[]),
            pkg("C", "1.0.0", true, &[], &[]),
        ],
    }
}

#[test]
fn dependency_must_meet_what_the_audit_needs() {
    let store = store(vec![
        ("B", vec![full("1.0.0", "safe-to-deploy")]),
        ("C", vec![full("1.0.0", "safe-to-run")]),
    ]);
    let found = resolve(&chain(), None, &store, false).unwrap();
    assert_eq!(found.report.conclusion, Conclusion::FailVet);
    let b = node(&found, "B");
    let c = node(&found, "C");
    let nodes: Vec<usize> = found.report.failures.iter().map(|f| f.node).collect();
    assert_eq!(nodes, vec![c, b]);
    assert_eq!(found.report.failures[0].reason, FailureReason::Unreachable);
    assert_eq!(
        found.report.failures[1].reason,
        FailureReason::DepFailed { dep: c }
    );
    assert_eq!(found.report.findings.own[b].indices(), vec![0, 1]);
    assert_eq!(found.report.findings.effective[b].indices(), vec![0]);
}

#[test]
fn dependency_criteria_of_an_audit_lower_the_need() {
    let mut audit = full("1.0.0", "safe-to-deploy");
    audit.kind = AuditKind::Full {
        version: v("1.0.0"),
        dependency_criteria: vec![("C".to_string(), vec!["safe-to-run".to_string()])],
    };
    let store = store(vec![
        ("B", vec![audit]),
        ("C", vec![full("1.0.0", "safe-to-run")]),
    ]);
    let found = resolve(&chain(), None, &store, false).unwrap();
    assert_eq!(found.report.conclusion, Conclusion::Success);
    assert_eq!(found.report.required[node(&found, "C")].indices(), vec![0]);
}

#[test]
fn guessing_deeper_passes_requirements_through_unaudited_packages() {
    let store = store(vec![]);
    let shallow = resolve(&chain(), None, &store, false).unwrap();
    let nodes: Vec<usize> = shallow.report.failures.iter().map(|f| f.node).collect();
    assert_eq!(nodes, vec![node(&shallow, "B")]);
    assert!(shallow.report.required[node(&shallow, "C")].is_empty());
    let deep = resolve(&chain(), None, &store, true).unwrap();
    let nodes: Vec<usize> = deep.report.failures.iter().map(|f| f.node).collect();
    assert_eq!(nodes, vec![node(&deep, "C"), node(&deep, "B")]);
    assert_eq!(deep.report.required[node(&deep, "C")].indices(), vec![0, 1]);
}

#[test]
fn policy_sets_the_criteria_of_a_root() {
    let mut store = store(vec![("B", vec![full("1.0.0", "safe-to-run")])]);
    store.config.policy = vec![(
        "A".to_string(),
        PolicyEntry {
            criteria: Some(vec!["safe-to-run".to_string()]),
            dev_criteria: None,
            dependency_criteria: vec![],
        },
    )];
    let found = resolve(&one_dep("1.0.0"), None, &store, false).unwrap();
    assert_eq!(found.report.conclusion, Conclusion::Success);
}

#[test]
fn policy_dependency_criteria_override_the_root_criteria() {
    let mut store = store(vec![("B", vec![full("1.0.0", "safe-to-run")])]);
    store.config.policy = vec![(
        "A".to_string(),
        PolicyEntry {
            criteria: None,
            dev_criteria: None,
            dependency_criteria: vec![("B".to_string(), vec!["safe-to-run".to_string()])],
        },
    )];
    let found = resolve(&one_dep("1.0.0"), None, &store, false).unwrap();
    assert_eq!(found.report.conclusion, Conclusion::Success);
    assert_eq!(found.report.required[node(&found, "B")].indices(), vec![0]);
}

#[test]
fn custom_criteria_and_implications() {
    let mut store = store(vec![("B", vec![full("1.0.0", "reviewed")])]);
    store.audits.criteria = vec![(
        "reviewed".to_string(),
        CriteriaEntry {
            description: Some("read it all".to_string()),
            description_url: None,
            implies: vec!["safe-to-deploy".to_string()],
        },
    )];
    let found = resolve(&one_dep("1.0.0"), None, &store, false).unwrap();
    assert_eq!(found.report.conclusion, Conclusion::Success);
    assert_eq!(
        found.report.findings.effective[node(&found, "B")].indices(),
        vec![0, 1, 2]
    );
}

#[test]
fn bad_criteria_table_is_refused() {
    let mut store = store(vec![]);
    store.audits.criteria = vec![(
        "reviewed".to_string(),
        CriteriaEntry {
            description: None,
            description_url: None,
            implies: vec!["nothing".to_string()],
        },
    )];
    match resolve(&one_dep("1.0.0"), None, &store, false) {
        Err(ResolveError::Criteria(_)) => {}
        _ => panic!("accepted"),
    }
}

#[test]
fn resolve_is_deterministic() {
    let store = store(vec![
        ("B", vec![full("1.0.0", "safe-to-deploy")]),
        ("C", vec![full("1.0.0", "safe-to-run")]),
    ]);
    let first = resolve(&chain(), None, &store, true).unwrap();
    let second = resolve(&chain(), None, &store, true).unwrap();
    assert_eq!(first.report.conclusion, second.report.conclusion);
    assert_eq!(
        format!("{:?}", first.report.failures),
        format!("{:?}", second.report.failures)
    );
    assert_eq!(
        format!("{:?}", first.report.required),
        format!("{:?}", second.report.required)
    );
    assert_eq!(first.report.used_audits, second.report.used_audits);
}

#[test]
fn dependencies_of_dev_dependencies_need_only_safe_to_run() {
    let metadata = Metadata {
        packages: vec![
            pkg("W", "0.1.0", false, &[], &["T 1.0.0"]),
            pkg("T", "1.0.0", true, &["U 1.0.0"], &[]),
            pkg("U", "1.0.0", true, &[], &[]),
        ],
    };
    let store = store(vec![
        ("T", vec![full("1.0.0", "safe-to-run")]),
        ("U", vec![full("1.0.0", "safe-to-run")]),
    ]);
    let found = resolve(&metadata, None, &store, false).unwrap();
    assert_eq!(found.report.conclusion, Conclusion::Success);
    assert_eq!(found.report.required[node(&found, "U")].indices(), vec![0]);
}

#[test]
fn dev_criteria_of_the_policy_are_asked_of_dev_dependencies() {
    let mut store = store(vec![("T", vec![full("1.0.0", "safe-to-run")])]);
    store.config.policy = vec![(
        "W".to_string(),
        PolicyEntry {
            criteria: None,
            dev_criteria: Some(vec!["safe-to-deploy".to_string()]),
            dependency_criteria: vec![],
        },
    )];
    let metadata = Metadata {
        packages: vec![
            pkg("W", "0.1.0", false, &[], &["T 1.0.0"]),
            pkg("T", "1.0.0", true, &[], &[]),
        ],
    };
    let found = resolve(&metadata, None, &store, false).unwrap();
    assert_eq!(found.report.conclusion, Conclusion::FailVet);
    assert_eq!(found.report.required[node(&found, "T")].indices(), vec![0, 1]);
}

#[test]
fn build_dependencies_count_like_normal_ones() {
    let mut root = pkg("W", "0.1.0", false, &[], &[]);
    root.build_dependencies = vec!["B 1.0.0".to_string()];
    let metadata = Metadata {
        packages: vec![root, pkg("B", "1.0.0", true, &[], &[])],
    };
    let weak = store(vec![("B", vec![full("1.0.0", "safe-to-run")])]);
    let found = resolve(&metadata, None, &weak, false).unwrap();
    assert_eq!(found.report.conclusion, Conclusion::FailVet);
    assert!(!found.graph.nodes[node(&found, "B")].is_dev_only);
}

#[test]
fn requirements_pass_through_workspace_members() {
    let metadata = Metadata {
        packages: vec![
            pkg("W", "0.1.0", false, &["M 0.1.0"], &[]),
            pkg("M", "0.1.0", false, &["B 1.0.0"], &[]),
            pkg("B", "1.0.0", true, &[], &[]),
        ],
    };
    let weak = store(vec![("B", vec![full("1.0.0", "safe-to-run")])]);
    let found = resolve(&metadata, None, &weak, false).unwrap();
    assert_eq!(found.report.conclusion, Conclusion::FailVet);
    assert_eq!(found.report.failures.len(), 1);
    assert_eq!(found.report.failures[0].node, node(&found, "B"));
    let m = node(&found, "M");
    assert!(!found.graph.nodes[m].is_root);
    assert_eq!(found.report.required[m].indices(), vec![0, 1]);
    assert_eq!(found.report.findings.effective[m].indices(), vec![0]);
    let strong = store(vec![("B", vec![full("1.0.0", "safe-to-deploy")])]);
    let found = resolve(&metadata, None, &strong, false).unwrap();
    assert_eq!(found.report.conclusion, Conclusion::Success);
}

#[test]
fn two_versions_of_one_package_are_judged_apart() {
    let metadata = Metadata {
        packages: vec![
            pkg("W", "0.1.0", false, &["B 1.0.0", "B 2.0.0"], &[]),
            pkg("B", "1.0.0", true, &[], &[]),
            pkg("B", "2.0.0", true, &[], &[]),
        ],
    };
    let store = store(vec![("B", vec![full("1.0.0", "safe-to-deploy")])]);
    let found = resolve(&metadata, None, &store, false).unwrap();
    assert_eq!(found.report.failures.len(), 1);
    let failed = &found.graph.nodes[found.report.failures[0].node];
    assert_eq!((failed.name.as_str(), failed.version.major), ("B", 2));
}

#[test]
fn filters_cut_the_graph_before_it_is_resolved() {
    let filters = vec![cargo_vet::filter::GraphFilter::from_str("exclude(name(T))").unwrap()];
    let store = store(vec![("L", vec![full("1.0.0", "safe-to-deploy")])]);
    let found = resolve(&dev_split(), Some(&filters), &store, false).unwrap();
    assert_eq!(found.report.conclusion, Conclusion::Success);
    assert_eq!(found.graph.nodes.len(), 2);
    let found = resolve(&dev_split(), None, &store, false).unwrap();
    assert_eq!(found.report.conclusion, Conclusion::FailVet);
}

#[test]
fn guessing_deeper_changes_what_fails_but_not_whether() {
    let stores = vec![
        store(vec![]),
        store(vec![("B", vec![full("1.0.0", "safe-to-deploy")])]),
        store(vec![("C", vec![full("1.0.0", "safe-to-deploy")])]),
        store(vec![
            ("B", vec![full("1.0.0", "safe-to-deploy")]),
            ("C", vec![full("1.0.0", "safe-to-run")]),
        ]),
        store(vec![
            ("B", vec![full("1.0.0", "safe-to-deploy")]),
            ("C", vec![full("1.0.0", "safe-to-deploy")]),
        ]),
    ];
    let expected = [true, true, true, true, false];
    for (store, fails) in stores.iter().zip(expected) {
        let shallow = resolve(&chain(), None, store, false).unwrap();
        let deep = resolve(&chain(), None, store, true).unwrap();
        assert_eq!(shallow.report.has_errors(), fails);
        assert_eq!(deep.report.has_errors(), fails);
    }
}
