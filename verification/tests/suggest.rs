use cargo_vet::commands::{minimize_unaudited, MinimizeError};
use cargo_vet::criteria::CriteriaMapper;
use cargo_vet::criteria_set::CriteriaSet;
use cargo_vet::format::{
    AuditEntry, AuditKind, AuditsFile, ConfigFile, Delta, DiffStat, ImportsFile,
    UnauditedDependency,
};
use cargo_vet::graph::{Metadata, Package, CRATES_IO};
use cargo_vet::minimize::regenerate;
use cargo_vet::resolver::{resolve, Conclusion};
use cargo_vet::storage::Store;
use cargo_vet::suggest::{
    candidates_for, compute_suggest, make_suggestion, pick_candidate, DiffProvider,
    DiffRecommendation, FetchProvider, SuggestCandidate, SuggestItem,
};
use cargo_vet::version::{Version, VersionReq};

fn v(text: &str) -> Version {
    Version::parse(text).unwrap()
}

fn pkg(name: &str, version: &str, third_party: bool, deps: &[&str]) -> Package {
    Package {
        id: format!("{name} {version}"),
        name: name.to_string(),
        version: v(version),
        source: if third_party {
            Some(CRATES_IO.to_string())
        } else {
            None
        },
        is_workspace_member: !third_party,
        dependencies: deps.iter().map(|s| s.to_string()).collect(),
        dev_dependencies: vec![],
        build_dependencies: vec![],
    }
}

fn audit(kind: AuditKind, criteria: &str) -> AuditEntry {
    AuditEntry {
        who: None,
        notes: None,
        criteria: criteria.to_string(),
        kind,
    }
}

fn full(version: &str, criteria: &str) -> AuditEntry {
    audit(
        AuditKind::Full {
            version: v(version),
            dependency_criteria: vec![],
        },
        criteria,
    )
}

fn delta(from: &str, to: &str, criteria: &str) -> AuditEntry {
    audit(
        AuditKind::Delta {
            delta: Delta {
                from: v(from),
                to: v(to),
            },
            dependency_criteria: vec![],
        },
        criteria,
    )
}

fn exemption(version: &str, criteria: &str, notes: Option<&str>, suggest: bool) -> UnauditedDependency {
    UnauditedDependency {
        version: v(version),
        criteria: criteria.to_string(),
        dependency_criteria: vec![],
        notes: notes.map(|s| s.to_string()),
        suggest,
    }
}

fn store(audits: Vec<(&str, Vec<AuditEntry>)>) -> Store {
    Store {
        config: ConfigFile {
            default_criteria: "safe-to-deploy".to_string(),
            imports: vec![],
            unaudited: vec![],
            policy: vec![],
        },
        audits: AuditsFile {
            criteria: vec![],
            audits: audits
                .into_iter()
                .map(|(name, list)| (name.to_string(), list))
                .collect(),
        },
        imports: ImportsFile { audits: vec![] },
    }
}

fn one_dep(version: &str) -> Metadata {
    Metadata {
        packages: vec![
            pkg("A", "1.0.0", false, &[&format!("B {version}")]),
            pkg("B", version, true, &[]),
        ],
    }
}

/// Source trees are named by package and version; the size of a diff is
/// looked up in a table, and a whole version costs `whole`.
struct Fake {
    whole: Option<u64>,
    deltas: Vec<(&'static str, &'static str, u64)>,
}

impl FetchProvider for Fake {
    fn fetch(&self, package: &str, version: &Version) -> Option<String> {
        Some(format!(
            "{package}-{}.{}.{}",
            version.major, version.minor, version.patch
        ))
    }
}

impl DiffProvider for Fake {
    fn diffstat(&self, from: Option<&str>, to: &str) -> Option<DiffStat> {
        let count = match from {
            None => self.whole?,
            Some(from) => {
                self.deltas
                    .iter()
                    .find(|(a, b, _)| *a == from && *b == to)?
                    .2
            }
        };
        Some(DiffStat {
            raw: format!("{count} lines"),
            count,
        })
    }
}

fn candidate(from: Option<&str>, to: &str) -> SuggestCandidate {
    SuggestCandidate {
        from: from.map(v),
        to: v(to),
    }
}

#[test]
fn smallest_candidate_is_picked() {
    let candidates = vec![
        candidate(None, "1.2.0"),
        candidate(Some("1.0.0"), "1.2.0"),
        candidate(Some("1.1.0"), "1.2.0"),
    ];
    assert_eq!(
        pick_candidate(&vec![Some(500), Some(80), Some(20)], &candidates),
        Some(2)
    );
    assert_eq!(
        pick_candidate(&vec![Some(10), Some(80), Some(20)], &candidates),
        Some(0)
    );
}

#[test]
fn delta_wins_a_tie_against_full_and_the_earlier_version_among_deltas() {
    let candidates = vec![
        candidate(None, "1.2.0"),
        candidate(Some("1.0.0"), "1.2.0"),
        candidate(Some("1.1.0"), "1.2.0"),
    ];
    assert_eq!(
        pick_candidate(&vec![Some(20), Some(20), Some(20)], &candidates),
        Some(1)
    );
    assert_eq!(
        pick_candidate(&vec![Some(20), Some(30), Some(30)], &candidates),
        Some(0)
    );
    let turned = vec![
        candidate(None, "1.2.0"),
        candidate(Some("1.1.0"), "1.2.0"),
        candidate(Some("1.0.0"), "1.2.0"),
        candidate(Some("1.0.0-rc.1"), "1.2.0"),
        candidate(Some("0.10.0"), "1.2.0"),
    ];
    assert_eq!(
        pick_candidate(&vec![Some(20), Some(20), Some(20), Some(20), Some(21)], &turned),
        Some(2)
    );
    assert_eq!(
        pick_candidate(&vec![Some(20), Some(20), Some(20), Some(20), Some(20)], &turned),
        Some(4)
    );
    assert_eq!(
        pick_candidate(&vec![Some(20), Some(20), Some(21), Some(20), Some(21)], &turned),
        Some(3)
    );
    let twice = vec![candidate(Some("1.0.0"), "1.2.0"), candidate(Some("1.0.0"), "1.2.0")];
    assert_eq!(pick_candidate(&vec![Some(5), Some(5)], &twice), Some(0));
}

#[test]
fn versions_are_listed_by_numbers_then_tags() {
    let order = ["0.10.0", "0.10.1", "1.0.0", "1.0.0+b", "1.0.0-a", "1.0.0-a+1", "1.0.0-ab", "2.0.0"];
    for (i, a) in order.iter().enumerate() {
        for (j, b) in order.iter().enumerate() {
            assert_eq!(v(a).before(&v(b)), i < j, "{} {}", a, b);
        }
    }
}

#[test]
fn unknown_size_ranks_last() {
    let candidates = vec![candidate(None, "1.2.0"), candidate(Some("1.0.0"), "1.2.0")];
    assert_eq!(
        pick_candidate(&vec![None, Some(u64::MAX)], &candidates),
        Some(1)
    );
    assert_eq!(pick_candidate(&vec![None, None], &candidates), Some(1));
    assert_eq!(pick_candidate(&vec![Some(1), None], &candidates), Some(0));
    assert_eq!(pick_candidate(&vec![], &vec![]), None);
}

#[test]
fn suggestion_carries_the_pick() {
    let candidates = vec![candidate(None, "1.2.0"), candidate(Some("1.1.0"), "1.2.0")];
    let stats = vec![
        Some(DiffStat {
            raw: "big".to_string(),
            count: 900,
        }),
        Some(DiffStat {
            raw: "small".to_string(),
            count: 9,
        }),
    ];
    let mut missing = CriteriaSet::none();
    missing.set_criteria(1);
    let item = make_suggestion(4, missing, &candidates, &stats).unwrap();
    assert_eq!(item.package, 4);
    assert_eq!(item.suggested_criteria.indices(), vec![1]);
    assert!(item.suggested_diff.from.unwrap().same(&v("1.1.0")));
    assert!(item.suggested_diff.to.same(&v("1.2.0")));
    let stat = item.suggested_diff.diffstat.unwrap();
    assert_eq!((stat.raw.as_str(), stat.count), ("small", 9));
    assert!(make_suggestion(4, missing, &vec![], &vec![]).is_none());
}

fn gap_store() -> Store {
    store(vec![(
        "B",
        vec![
            full("1.0.0", "safe-to-deploy"),
            delta("1.0.0", "1.1.0", "safe-to-deploy"),
        ],
    )])
}

#[test]
fn candidates_are_the_full_audit_and_deltas_from_covered_versions() {
    let store = gap_store();
    let found = resolve(&one_dep("1.2.0"), None, &store, false).unwrap();
    let b = found.graph.nodes.iter().position(|n| n.name == "B").unwrap();
    let candidates = candidates_for(
        &found.graph,
        &found.criteria_mapper,
        &store,
        &found.report,
        false,
        b,
    );
    let shown: Vec<String> = candidates
        .iter()
        .map(|c| match &c.from {
            Some(from) => format!("{}.{}.{}", from.major, from.minor, from.patch),
            None => "-".to_string(),
        })
        .collect();
    assert_eq!(shown, vec!["-", "1.0.0", "1.1.0"]);
    assert!(candidates.iter().all(|c| c.to.same(&v("1.2.0"))));
}

#[test]
fn missing_gap_suggests_the_smallest_diff() {
    let store = gap_store();
    let found = resolve(&one_dep("1.2.0"), None, &store, false).unwrap();
    assert_eq!(found.report.conclusion, Conclusion::FailVet);
    let fake = Fake {
        whole: Some(1000),
        deltas: vec![("B-1.0.0", "B-1.2.0", 300), ("B-1.1.0", "B-1.2.0", 40)],
    };
    let items = compute_suggest(
        &found.graph,
        &found.criteria_mapper,
        &store,
        &found.report,
        false,
        &fake,
        &fake,
    );
    assert_eq!(items.len(), 1);
    let item = &items[0];
    assert_eq!(found.graph.nodes[item.package].name, "B");
    assert!(item.suggested_diff.from.as_ref().unwrap().same(&v("1.1.0")));
    assert!(item.suggested_diff.to.same(&v("1.2.0")));
    assert_eq!(item.suggested_diff.diffstat.as_ref().unwrap().count, 40);
    assert_eq!(
        found.criteria_mapper.criteria_names(&item.suggested_criteria),
        vec!["safe-to-deploy".to_string()]
    );
}

#[test]
fn missing_gap_suggests_inspect_where_that_is_smaller() {
    let store = gap_store();
    let found = resolve(&one_dep("1.2.0"), None, &store, false).unwrap();
    let fake = Fake {
        whole: Some(30),
        deltas: vec![("B-1.0.0", "B-1.2.0", 300), ("B-1.1.0", "B-1.2.0", 40)],
    };
    let items = compute_suggest(
        &found.graph,
        &found.criteria_mapper,
        &store,
        &found.report,
        false,
        &fake,
        &fake,
    );
    assert_eq!(items.len(), 1);
    assert!(items[0].suggested_diff.from.is_none());
    assert_eq!(items[0].suggested_diff.diffstat.as_ref().unwrap().count, 30);
}

#[test]
fn provider_failure_still_suggests() {
    let store = gap_store();
    let found = resolve(&one_dep("1.2.0"), None, &store, false).unwrap();
    let fake = Fake {
        whole: None,
        deltas: vec![],
    };
    let items = compute_suggest(
        &found.graph,
        &found.criteria_mapper,
        &store,
        &found.report,
        false,
        &fake,
        &fake,
    );
    assert_eq!(items.len(), 1);
    assert!(items[0].suggested_diff.diffstat.is_none());
    assert!(items[0].suggested_diff.from.as_ref().unwrap().same(&v("1.0.0")));
}

#[test]
fn no_suggestion_for_a_violation_or_on_success() {
    let metadata = Metadata {
        packages: vec![
            pkg("A", "1.0.0", false, &["C 2.0.0"]),
            pkg("C", "2.0.0", true, &[]),
        ],
    };
    let fake = Fake {
        whole: Some(1),
        deltas: vec![],
    };
    let mut banned = store(vec![("C", vec![full("2.0.0", "safe-to-deploy")])]);
    banned.audits.audits[0].1.push(audit(
        AuditKind::Violation {
            violation: VersionReq {
                text: ">=2.0.0".to_string(),
            },
        },
        "safe-to-deploy",
    ));
    let found = resolve(&metadata, None, &banned, false).unwrap();
    assert_eq!(found.report.conclusion, Conclusion::FailVet);
    let items = compute_suggest(
        &found.graph,
        &found.criteria_mapper,
        &banned,
        &found.report,
        false,
        &fake,
        &fake,
    );
    assert!(items.is_empty());

    let fine = store(vec![("C", vec![full("2.0.0", "safe-to-deploy")])]);
    let found = resolve(&metadata, None, &fine, false).unwrap();
    let items = compute_suggest(
        &found.graph,
        &found.criteria_mapper,
        &fine,
        &found.report,
        false,
        &fake,
        &fake,
    );
    assert!(items.is_empty());
}

fn item(package: usize, to: &str, criteria: &[usize]) -> SuggestItem {
    let mut set = CriteriaSet::none();
    for c in criteria {
        set.set_criteria(*c);
    }
    SuggestItem {
        package,
        suggested_criteria: set,
        suggested_diff: DiffRecommendation {
            from: None,
            to: v(to),
            diffstat: None,
        },
    }
}

fn shown(table: &Vec<(String, Vec<UnauditedDependency>)>) -> Vec<String> {
    table
        .iter()
        .map(|(name, list)| {
            let entries: Vec<String> = list
                .iter()
                .map(|e| {
                    format!(
                        "{}.{}.{} {} {:?} {}",
                        e.version.major, e.version.minor, e.version.patch, e.criteria, e.notes, e.suggest
                    )
                })
                .collect();
            format!("{name}: {}", entries.join("; "))
        })
        .collect()
}

#[test]
fn regenerate_keeps_old_entries_that_still_serve() {
    let found = resolve(&one_dep("1.0.0"), None, &store(vec![]), true).unwrap();
    let b = found.graph.nodes.iter().position(|n| n.name == "B").unwrap();
    let mapper = CriteriaMapper::new(vec![]).unwrap();
    let old = vec![
        (
            "gone".to_string(),
            vec![exemption("3.0.0", "safe-to-deploy", None, true)],
        ),
        (
            "B".to_string(),
            vec![
                exemption("0.9.0", "safe-to-deploy", None, true),
                exemption("1.0.0", "safe-to-run", Some("weak"), true),
                exemption("1.0.0", "safe-to-deploy", Some("kept"), false),
                exemption("1.0.0", "safe-to-deploy", Some("again"), true),
            ],
        ),
    ];
    let table = regenerate(&found.graph, &mapper, &old, &vec![item(b, "1.0.0", &[0, 1])]);
    assert_eq!(
        shown(&table),
        vec!["B: 1.0.0 safe-to-deploy Some(\"kept\") false"]
    );
}

#[test]
fn regenerate_adds_what_is_left_pending() {
    let found = resolve(&one_dep("1.0.0"), None, &store(vec![]), true).unwrap();
    let b = found.graph.nodes.iter().position(|n| n.name == "B").unwrap();
    let mapper = CriteriaMapper::new(vec![]).unwrap();
    let old = vec![(
        "B".to_string(),
        vec![exemption("0.9.0", "safe-to-deploy", None, true)],
    )];
    let table = regenerate(&found.graph, &mapper, &old, &vec![item(b, "1.0.0", &[0, 1])]);
    assert_eq!(shown(&table), vec!["B: 1.0.0 safe-to-deploy None true"]);
    let table = regenerate(&found.graph, &mapper, &vec![], &vec![item(b, "1.0.0", &[0])]);
    assert_eq!(shown(&table), vec!["B: 1.0.0 safe-to-run None true"]);
    let table = regenerate(&found.graph, &mapper, &old, &vec![]);
    assert!(table.is_empty());
}

#[test]
fn minimize_makes_resolution_succeed_with_the_fewest_exemptions() {
    let metadata = Metadata {
        packages: vec![
            pkg("A", "1.0.0", false, &["B 1.0.0", "D 1.0.0"]),
            pkg("B", "1.0.0", true, &["C 1.0.0"]),
            pkg("C", "1.0.0", true, &[]),
            pkg("D", "1.0.0", true, &[]),
        ],
    };
    let mut store = store(vec![("D", vec![full("1.0.0", "safe-to-deploy")])]);
    store.config.unaudited = vec![
        (
            "D".to_string(),
            vec![exemption("1.0.0", "safe-to-deploy", None, true)],
        ),
        (
            "B".to_string(),
            vec![exemption("1.0.0", "safe-to-deploy", Some("mine"), false)],
        ),
    ];
    let fake = Fake {
        whole: Some(10),
        deltas: vec![],
    };
    assert_eq!(minimize_unaudited(&metadata, None, &mut store, &fake, &fake), Ok(()));
    assert_eq!(
        shown(&store.config.unaudited),
        vec![
            "B: 1.0.0 safe-to-deploy Some(\"mine\") false",
            "C: 1.0.0 safe-to-deploy None true",
        ]
    );
    let found = resolve(&metadata, None, &store, false).unwrap();
    assert_eq!(found.report.conclusion, Conclusion::Success);
    for r in 0..store.config.unaudited.len() {
        let mut fewer = Store {
            config: ConfigFile {
                default_criteria: "safe-to-deploy".to_string(),
                imports: vec![],
                unaudited: store.config.unaudited.clone(),
                policy: vec![],
            },
            audits: AuditsFile {
                criteria: vec![],
                audits: vec![("D".to_string(), vec![full("1.0.0", "safe-to-deploy")])],
            },
            imports: ImportsFile { audits: vec![] },
        };
        fewer.config.unaudited.remove(r);
        let found = resolve(&metadata, None, &fewer, false).unwrap();
        assert_eq!(found.report.conclusion, Conclusion::FailVet);
    }
}

#[test]
fn minimize_leaves_the_store_alone_on_a_violation() {
    let metadata = one_dep("1.0.0");
    let mut store = store(vec![(
        "B",
        vec![audit(
            AuditKind::Violation {
                violation: VersionReq {
                    text: "*".to_string(),
                },
            },
            "safe-to-run",
        )],
    )]);
    store.config.unaudited = vec![(
        "B".to_string(),
        vec![exemption("1.0.0", "safe-to-deploy", None, true)],
    )];
    let fake = Fake {
        whole: Some(10),
        deltas: vec![],
    };
    assert_eq!(
        minimize_unaudited(&metadata, None, &mut store, &fake, &fake),
        Err(MinimizeError::Violation)
    );
    assert_eq!(
        shown(&store.config.unaudited),
        vec!["B: 1.0.0 safe-to-deploy None true"]
    );
}

/// Fetches every version but one.
struct Gappy {
    missing: Version,
    sizes: Fake,
}

impl FetchProvider for Gappy {
    fn fetch(&self, package: &str, version: &Version) -> Option<String> {
        if version.same(&self.missing) {
            None
        } else {
            self.sizes.fetch(package, version)
        }
    }
}

#[test]
fn candidate_whose_base_cannot_be_fetched_has_no_size() {
    let store = gap_store();
    let found = resolve(&one_dep("1.2.0"), None, &store, false).unwrap();
    let sizes = Fake {
        whole: Some(1000),
        deltas: vec![("B-1.0.0", "B-1.2.0", 300), ("B-1.1.0", "B-1.2.0", 40)],
    };
    let fetcher = Gappy {
        missing: v("1.1.0"),
        sizes: Fake {
            whole: None,
            deltas: vec![],
        },
    };
    let items = compute_suggest(
        &found.graph,
        &found.criteria_mapper,
        &store,
        &found.report,
        false,
        &fetcher,
        &sizes,
    );
    assert_eq!(items.len(), 1);
    assert!(items[0].suggested_diff.from.as_ref().unwrap().same(&v("1.0.0")));
    assert_eq!(items[0].suggested_diff.diffstat.as_ref().unwrap().count, 300);
}

#[test]
fn nothing_is_measured_where_the_target_cannot_be_fetched() {
    let store = gap_store();
    let found = resolve(&one_dep("1.2.0"), None, &store, false).unwrap();
    let sizes = Fake {
        whole: Some(1),
        deltas: vec![("B-1.0.0", "B-1.2.0", 300), ("B-1.1.0", "B-1.2.0", 40)],
    };
    let fetcher = Gappy {
        missing: v("1.2.0"),
        sizes: Fake {
            whole: None,
            deltas: vec![],
        },
    };
    let items = compute_suggest(
        &found.graph,
        &found.criteria_mapper,
        &store,
        &found.report,
        false,
        &fetcher,
        &sizes,
    );
    assert_eq!(items.len(), 1);
    assert!(items[0].suggested_diff.diffstat.is_none());
    assert!(items[0].suggested_diff.from.as_ref().unwrap().same(&v("1.0.0")));
}

#[test]
fn minimize_leaves_no_exemption_where_audits_cover_everything() {
    let metadata = one_dep("1.0.0");
    let mut store = store(vec![("B", vec![full("1.0.0", "safe-to-deploy")])]);
    store.config.unaudited = vec![
        (
            "B".to_string(),
            vec![exemption("1.0.0", "safe-to-deploy", Some("old"), false)],
        ),
        (
            "gone".to_string(),
            vec![exemption("0.1.0", "safe-to-run", None, true)],
        ),
    ];
    let fake = Fake {
        whole: Some(10),
        deltas: vec![],
    };
    assert_eq!(minimize_unaudited(&metadata, None, &mut store, &fake, &fake), Ok(()));
    assert!(store.config.unaudited.is_empty());
    assert_eq!(store.validate().err(), None);
}

#[test]
fn minimize_keeps_one_record_for_each_package() {
    let metadata = Metadata {
        packages: vec![
            pkg("A", "1.0.0", false, &["B 1.0.0", "B 2.0.0"]),
            pkg("B", "1.0.0", true, &[]),
            pkg("B", "2.0.0", true, &[]),
        ],
    };
    let mut store = store(vec![]);
    store.config.unaudited = vec![
        ("B".to_string(), vec![exemption("2.0.0", "safe-to-deploy", None, false)]),
        ("B".to_string(), vec![exemption("1.0.0", "safe-to-deploy", None, false)]),
    ];
    assert!(store.validate().is_err());
    let fake = Fake {
        whole: Some(10),
        deltas: vec![],
    };
    assert_eq!(minimize_unaudited(&metadata, None, &mut store, &fake, &fake), Ok(()));
    assert_eq!(store.config.unaudited.len(), 1);
    assert_eq!(store.config.unaudited[0].0, "B");
    assert_eq!(store.config.unaudited[0].1.len(), 2);
    assert_eq!(store.validate().err(), None);
    let found = resolve(&metadata, None, &store, false).unwrap();
    assert_eq!(found.report.conclusion, Conclusion::Success);
}
