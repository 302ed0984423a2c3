use cargo_vet::certify::{
    certify, criteria_prompt_step, eula_for_criteria, exempted_versions, normalize_criteria,
    package_to_certify, plan_certify, suggestions_about, who_line, CertifyError, CommandHistory,
    EulaSource, PromptStep, SuggestRecord,
};
use cargo_vet::cli::{
    cargo_metadata_options, check_store_state, AddUnauditedArgs, CertifyArgs, Cli, Commands,
    DependencyCriteriaArg, Features, InitArgs, InspectArgs, OutputFormat, RecordViolationArgs,
    StoreStateError, SuggestArgs, Verbose,
};
use cargo_vet::commands::{
    add_unaudited, foreign_packages, group_dependency_criteria, init_files, is_foreign_package,
    record_violation, strip_suggestible, CommandError,
};
use cargo_vet::criteria::{CriteriaError, CriteriaMapper};
use cargo_vet::diffstat::{parse_diffstat, DiffStatError};
use cargo_vet::filter::GraphFilter;
use cargo_vet::format::{
    get_default_criteria, layer_config, AuditEntry, AuditKind, AuditsFile, ConfigFile,
    CriteriaEntry, Delta, FetchCommand, ImportsFile, MetaConfig, MetaConfigError,
    MetaConfigInstance, PolicyEntry, StoreInfo, UnauditedDependency,
};
use cargo_vet::graph::{Metadata, Package, CRATES_IO};
use cargo_vet::help_md::{render_help_header, render_help_line, render_help_section, HelpState};
use cargo_vet::storage::{is_empty_delta, Store, StoreError};
use cargo_vet::version::{Version, VersionReq};

fn v(text: &str) -> Version {
    Version::parse(text).unwrap()
}

fn pkg(name: &str, version: &str, third_party: bool, deps: &[&str], dev: &[&str]) -> Package {
    let ids = |list: &[&str]| list.iter().map(|s| s.to_string()).collect::<Vec<_>>();
    Package {
        id: name.to_string(),
        name: name.to_string(),
        version: v(version),
        source: if third_party {
            Some(CRATES_IO.to_string())
        } else {
            None
        },
        is_workspace_member: !third_party,
        dependencies: ids(deps),
        dev_dependencies: ids(dev),
        build_dependencies: vec![],
    }
}

fn metadata() -> Metadata {
    Metadata {
        packages: vec![
            pkg("app", "0.1.0", false, &["serde", "local"], &["quickcheck"]),
            pkg("serde", "1.0.0", true, &[], &[]),
            pkg("quickcheck", "0.9.0", true, &["serde"], &[]),
            pkg("local", "0.1.0", false, &[], &[]),
        ],
    }
}

fn empty_store() -> Store {
    Store {
        config: ConfigFile {
            default_criteria: "safe-to-deploy".to_string(),
            imports: vec![],
            unaudited: vec![],
            policy: vec![],
        },
        audits: AuditsFile {
            criteria: vec![],
            audits: vec![],
        },
        imports: ImportsFile { audits: vec![] },
    }
}

fn exemption(version: &str, criteria: &str, suggest: bool) -> UnauditedDependency {
    UnauditedDependency {
        version: v(version),
        criteria: criteria.to_string(),
        dependency_criteria: vec![],
        notes: None,
        suggest,
    }
}

fn strings(list: &[&str]) -> Vec<String> {
    list.iter().map(|s| s.to_string()).collect()
}

#[test]
fn init_exempts_every_third_party_package() {
    let (config, audits, imports) = init_files(&metadata(), None).unwrap();
    assert_eq!(config.default_criteria, "safe-to-deploy");
    assert!(config.imports.is_empty() && config.policy.is_empty());
    assert!(audits.criteria.is_empty() && audits.audits.is_empty());
    assert!(imports.audits.is_empty());
    let mut shown: Vec<String> = config
        .unaudited
        .iter()
        .map(|(name, list)| {
            assert_eq!(list.len(), 1);
            let e = &list[0];
            assert!(e.suggest && e.notes.is_none() && e.dependency_criteria.is_empty());
            format!("{name} {}.{}.{} {}", e.version.major, e.version.minor, e.version.patch, e.criteria)
        })
        .collect();
    shown.sort();
    assert_eq!(
        shown,
        vec!["quickcheck 0.9.0 safe-to-run", "serde 1.0.0 safe-to-deploy"]
    );
}

#[test]
fn init_groups_versions_of_one_package() {
    let mut metadata = metadata();
    let mut other = pkg("serde", "0.9.0", true, &[], &[]);
    other.id = "serde-old".to_string();
    metadata.packages.push(other);
    metadata.packages[0].dependencies.push("serde-old".to_string());
    let (config, _, _) = init_files(&metadata, None).unwrap();
    let serde = config.unaudited.iter().find(|(n, _)| n == "serde").unwrap();
    assert_eq!(serde.1.len(), 2);
}

#[test]
fn init_follows_the_filters() {
    let filters = vec![GraphFilter::from_str("exclude(is_dev_only(true))").unwrap()];
    let (config, _, _) = init_files(&metadata(), Some(&filters)).unwrap();
    let names: Vec<&str> = config.unaudited.iter().map(|(n, _)| n.as_str()).collect();
    assert_eq!(names, vec!["serde"]);
}

#[test]
fn foreign_packages_are_those_from_the_registry() {
    let metadata = metadata();
    assert_eq!(foreign_packages(&metadata), vec![1, 2]);
    assert!(is_foreign_package(&metadata, "serde"));
    assert!(!is_foreign_package(&metadata, "local"));
    assert!(!is_foreign_package(&metadata, "nothing"));
}

#[test]
fn violation_is_recorded_with_the_default_criteria() {
    let mut store = empty_store();
    let args = RecordViolationArgs {
        package: "serde".to_string(),
        versions: VersionReq {
            text: "<1.0.0".to_string(),
        },
        criteria: vec![],
        who: None,
        notes: Some("broken".to_string()),
    };
    assert_eq!(
        record_violation(&mut store, &metadata(), &args, Some("me <me@example.com>".to_string())),
        Ok(())
    );
    assert_eq!(store.audits.audits.len(), 1);
    let (name, list) = &store.audits.audits[0];
    assert_eq!(name, "serde");
    assert_eq!(list.len(), 1);
    assert_eq!(list[0].criteria, "safe-to-deploy");
    assert_eq!(list[0].who.as_deref(), Some("me <me@example.com>"));
    assert_eq!(list[0].notes.as_deref(), Some("broken"));
    match &list[0].kind {
        AuditKind::Violation { violation } => assert_eq!(violation.text, "<1.0.0"),
        _ => panic!("other kind"),
    }
}

#[test]
fn violation_of_a_local_package_is_refused() {
    let mut store = empty_store();
    let args = RecordViolationArgs {
        package: "local".to_string(),
        versions: VersionReq {
            text: "*".to_string(),
        },
        criteria: strings(&["safe-to-run"]),
        who: None,
        notes: None,
    };
    assert_eq!(
        record_violation(&mut store, &metadata(), &args, None),
        Err(CommandError::NotForeign)
    );
    assert!(store.audits.audits.is_empty());
}

#[test]
fn exemption_is_added_to_the_package() {
    let mut store = empty_store();
    store.config.unaudited = vec![
        ("other".to_string(), vec![]),
        ("serde".to_string(), vec![exemption("0.9.0", "safe-to-run", true)]),
    ];
    let args = AddUnauditedArgs {
        package: "serde".to_string(),
        version: v("1.0.0"),
        criteria: strings(&["safe-to-run"]),
        dependency_criteria: vec![
            DependencyCriteriaArg::from_str("a:safe-to-run").unwrap(),
            DependencyCriteriaArg::from_str("b:safe-to-deploy").unwrap(),
            DependencyCriteriaArg::from_str("a:reviewed").unwrap(),
        ],
        notes: None,
        no_suggest: true,
    };
    assert_eq!(add_unaudited(&mut store, &metadata(), &args), Ok(()));
    assert_eq!(store.config.unaudited.len(), 2);
    let list = &store.config.unaudited[1].1;
    assert_eq!(list.len(), 2);
    assert!(list[1].version.same(&v("1.0.0")));
    assert_eq!(list[1].criteria, "safe-to-run");
    assert!(!list[1].suggest);
    assert_eq!(
        list[1].dependency_criteria,
        vec![
            ("a".to_string(), strings(&["safe-to-run", "reviewed"])),
            ("b".to_string(), strings(&["safe-to-deploy"])),
        ]
    );
    let mut local = AddUnauditedArgs {
        package: "app".to_string(),
        version: v("0.1.0"),
        criteria: vec![],
        dependency_criteria: vec![],
        notes: None,
        no_suggest: false,
    };
    assert_eq!(
        add_unaudited(&mut store, &metadata(), &local),
        Err(CommandError::NotForeign)
    );
    local.package = "quickcheck".to_string();
    assert_eq!(add_unaudited(&mut store, &metadata(), &local), Ok(()));
    assert_eq!(store.config.unaudited[2].0, "quickcheck");
    assert_eq!(store.config.unaudited[2].1[0].criteria, "safe-to-deploy");
    assert!(store.config.unaudited[2].1[0].suggest);
}

#[test]
fn dependency_criteria_are_grouped_in_order() {
    let args = vec![
        DependencyCriteriaArg::from_str("x:one").unwrap(),
        DependencyCriteriaArg::from_str("y:two").unwrap(),
        DependencyCriteriaArg::from_str("x:three").unwrap(),
    ];
    assert_eq!(
        group_dependency_criteria(&args),
        vec![
            ("x".to_string(), strings(&["one", "three"])),
            ("y".to_string(), strings(&["two"])),
        ]
    );
    assert!(group_dependency_criteria(&vec![]).is_empty());
}

#[test]
fn suggestible_exemptions_are_stripped() {
    let mut store = empty_store();
    store.config.unaudited = vec![
        (
            "a".to_string(),
            vec![
                exemption("1.0.0", "safe-to-run", true),
                exemption("2.0.0", "safe-to-run", false),
                exemption("3.0.0", "safe-to-run", true),
            ],
        ),
        ("b".to_string(), vec![exemption("1.0.0", "safe-to-run", true)]),
    ];
    strip_suggestible(&mut store);
    assert_eq!(store.config.unaudited.len(), 2);
    assert_eq!(store.config.unaudited[0].1.len(), 1);
    assert!(store.config.unaudited[0].1[0].version.same(&v("2.0.0")));
    assert!(store.config.unaudited[1].1.is_empty());
}

fn certify_args() -> CertifyArgs {
    CertifyArgs {
        package: None,
        version1: None,
        version2: None,
        criteria: vec![],
        dependency_criteria: vec![],
        who: None,
        notes: None,
        accept_all: false,
    }
}

fn no_history() -> CommandHistory {
    CommandHistory {
        last_fetch: None,
        last_suggest: vec![],
    }
}

fn version_of(kind: &AuditKind) -> String {
    let show = |v: &Version| format!("{}.{}.{}", v.major, v.minor, v.patch);
    match kind {
        AuditKind::Full { version, .. } => show(version),
        AuditKind::Delta { delta, .. } => format!("{}->{}", show(&delta.from), show(&delta.to)),
        AuditKind::Violation { violation } => violation.text.clone(),
    }
}

#[test]
fn plan_needs_a_package() {
    let plan = plan_certify(&certify_args(), &no_history(), &empty_store(), &metadata());
    assert_eq!(plan.err(), Some(CertifyError::NoPackage));
    let mut args = certify_args();
    args.package = Some("local".to_string());
    args.version1 = Some(v("0.1.0"));
    let plan = plan_certify(&args, &no_history(), &empty_store(), &metadata());
    assert_eq!(plan.err(), Some(CertifyError::NotForeign));
    args.package = Some("serde".to_string());
    args.version1 = None;
    let plan = plan_certify(&args, &no_history(), &empty_store(), &metadata());
    assert_eq!(plan.err(), Some(CertifyError::NoVersion));
}

#[test]
fn plan_from_named_versions() {
    let mut args = certify_args();
    args.package = Some("serde".to_string());
    args.version1 = Some(v("1.0.0"));
    args.dependency_criteria = vec![DependencyCriteriaArg::from_str("dep:safe-to-run").unwrap()];
    let plan = plan_certify(&args, &no_history(), &empty_store(), &metadata()).unwrap();
    assert_eq!(plan.package, "serde");
    assert_eq!(version_of(&plan.kind), "1.0.0");
    assert!(plan.criteria_guess.is_none());
    match &plan.kind {
        AuditKind::Full {
            dependency_criteria,
            ..
        } => assert_eq!(
            dependency_criteria,
            &vec![("dep".to_string(), strings(&["safe-to-run"]))]
        ),
        _ => panic!("other kind"),
    }
    args.version2 = Some(v("1.1.0"));
    let plan = plan_certify(&args, &no_history(), &empty_store(), &metadata()).unwrap();
    assert_eq!(version_of(&plan.kind), "1.0.0->1.1.0");
}

#[test]
fn plan_from_the_last_fetch() {
    let history = CommandHistory {
        last_fetch: Some(FetchCommand::Diff {
            package: "serde".to_string(),
            version1: v("0.9.0"),
            version2: v("1.0.0"),
        }),
        last_suggest: vec![
            SuggestRecord {
                command: FetchCommand::Inspect {
                    package: "serde".to_string(),
                    version: v("1.0.0"),
                },
                criteria: strings(&["safe-to-run"]),
            },
            SuggestRecord {
                command: FetchCommand::Diff {
                    package: "serde".to_string(),
                    version1: v("0.9.0"),
                    version2: v("1.0.0"),
                },
                criteria: strings(&["safe-to-deploy"]),
            },
        ],
    };
    let plan = plan_certify(&certify_args(), &history, &empty_store(), &metadata()).unwrap();
    assert_eq!(plan.package, "serde");
    assert_eq!(version_of(&plan.kind), "0.9.0->1.0.0");
    assert_eq!(plan.criteria_guess, Some(strings(&["safe-to-deploy"])));
    let mut args = certify_args();
    args.package = Some("quickcheck".to_string());
    let plan = plan_certify(&args, &history, &empty_store(), &metadata());
    assert_eq!(plan.err(), Some(CertifyError::NoVersion));
}

#[test]
fn plan_from_the_exemptions() {
    let mut store = empty_store();
    store.config.unaudited = vec![("serde".to_string(), vec![exemption("1.0.0", "safe-to-run", true)])];
    let mut args = certify_args();
    args.package = Some("serde".to_string());
    let plan = plan_certify(&args, &no_history(), &store, &metadata()).unwrap();
    assert_eq!(version_of(&plan.kind), "1.0.0");
    assert_eq!(plan.criteria_guess, Some(strings(&["safe-to-run"])));
    store.config.unaudited[0]
        .1
        .push(exemption("1.1.0", "safe-to-run", true));
    let plan = plan_certify(&args, &no_history(), &store, &metadata());
    assert_eq!(plan.err(), Some(CertifyError::MultipleUnaudited));
}

#[test]
fn plan_from_the_suggestions() {
    let record = |package: &str, version: &str| SuggestRecord {
        command: FetchCommand::Inspect {
            package: package.to_string(),
            version: v(version),
        },
        criteria: strings(&["safe-to-deploy"]),
    };
    let mut history = CommandHistory {
        last_fetch: None,
        last_suggest: vec![record("quickcheck", "0.9.0"), record("serde", "1.0.0")],
    };
    let mut args = certify_args();
    args.package = Some("serde".to_string());
    let plan = plan_certify(&args, &history, &empty_store(), &metadata()).unwrap();
    assert_eq!(version_of(&plan.kind), "1.0.0");
    assert_eq!(plan.criteria_guess, Some(strings(&["safe-to-deploy"])));
    history.last_suggest.push(record("serde", "1.1.0"));
    let plan = plan_certify(&args, &history, &empty_store(), &metadata());
    assert_eq!(plan.err(), Some(CertifyError::MultipleSuggestions));
}

#[test]
fn prompt_steps() {
    let mapper = CriteriaMapper::new(vec![(
        "reviewed".to_string(),
        CriteriaEntry {
            description: None,
            description_url: None,
            implies: vec![],
        },
    )])
    .unwrap();
    let mut chosen: Vec<String> = vec![];
    assert_eq!(criteria_prompt_step(&mut chosen, &mapper, "  \n"), PromptStep::Abort);
    assert_eq!(criteria_prompt_step(&mut chosen, &mapper, "x"), PromptStep::NotInteger);
    assert_eq!(criteria_prompt_step(&mut chosen, &mapper, "-1"), PromptStep::NotInteger);
    assert_eq!(criteria_prompt_step(&mut chosen, &mapper, "1 2"), PromptStep::NotInteger);
    assert_eq!(
        criteria_prompt_step(&mut chosen, &mapper, "99999999999999999999999"),
        PromptStep::NotInteger
    );
    assert_eq!(criteria_prompt_step(&mut chosen, &mapper, "4"), PromptStep::NotCriteria);
    assert!(chosen.is_empty());
    assert_eq!(criteria_prompt_step(&mut chosen, &mapper, " 2\n"), PromptStep::Added);
    assert_eq!(criteria_prompt_step(&mut chosen, &mapper, "+3"), PromptStep::Added);
    assert_eq!(chosen, strings(&["safe-to-deploy", "reviewed"]));
    assert_eq!(criteria_prompt_step(&mut chosen, &mapper, ""), PromptStep::Accept);
    assert_eq!(chosen.len(), 2);
    assert_eq!(criteria_prompt_step(&mut chosen, &mapper, "0"), PromptStep::Cleared);
    assert!(chosen.is_empty());
    assert_eq!(criteria_prompt_step(&mut chosen, &mapper, "1"), PromptStep::Added);
    assert_eq!(chosen, strings(&["safe-to-run"]));
}

#[test]
fn criteria_are_normalized() {
    let mapper = CriteriaMapper::new(vec![]).unwrap();
    assert_eq!(
        normalize_criteria(&mapper, &strings(&["safe-to-run", "safe-to-deploy", "unknown"])),
        strings(&["safe-to-deploy"])
    );
    assert_eq!(
        normalize_criteria(&mapper, &strings(&["safe-to-run", "safe-to-run"])),
        strings(&["safe-to-run"])
    );
    assert!(normalize_criteria(&mapper, &vec![]).is_empty());
}

#[test]
fn certify_adds_audits_and_drops_superseded_exemptions() {
    let mapper = CriteriaMapper::new(vec![]).unwrap();
    let mut store = empty_store();
    store.config.unaudited = vec![
        (
            "serde".to_string(),
            vec![
                exemption("1.0.0", "safe-to-run", true),
                exemption("1.0.0", "safe-to-deploy", true),
                exemption("0.9.0", "safe-to-run", true),
            ],
        ),
        ("quickcheck".to_string(), vec![exemption("0.9.0", "safe-to-run", true)]),
    ];
    let kind = AuditKind::Full {
        version: v("1.0.0"),
        dependency_criteria: vec![],
    };
    assert_eq!(
        certify(
            &mut store,
            &mapper,
            "serde",
            &kind,
            &strings(&["safe-to-run"]),
            &Some("me".to_string()),
            &None,
        ),
        Ok(())
    );
    assert_eq!(store.audits.audits.len(), 1);
    assert_eq!(store.audits.audits[0].1.len(), 1);
    assert_eq!(store.audits.audits[0].1[0].criteria, "safe-to-run");
    assert_eq!(store.audits.audits[0].1[0].who.as_deref(), Some("me"));
    let left: Vec<String> = store.config.unaudited[0]
        .1
        .iter()
        .map(|e| format!("{} {}", version_of(&AuditKind::Full { version: e.version.clone(), dependency_criteria: vec![] }), e.criteria))
        .collect();
    assert_eq!(left, vec!["1.0.0 safe-to-deploy", "0.9.0 safe-to-run"]);
    assert_eq!(
        certify(
            &mut store,
            &mapper,
            "quickcheck",
            &AuditKind::Full {
                version: v("0.9.0"),
                dependency_criteria: vec![],
            },
            &strings(&["safe-to-deploy"]),
            &None,
            &Some("fine".to_string()),
        ),
        Ok(())
    );
    assert_eq!(store.config.unaudited.len(), 1);
    assert_eq!(store.config.unaudited[0].0, "serde");
    assert_eq!(store.audits.audits[1].0, "quickcheck");
    assert_eq!(store.audits.audits[1].1[0].notes.as_deref(), Some("fine"));
}

#[test]
fn delta_audit_drops_no_exemption() {
    let mapper = CriteriaMapper::new(vec![]).unwrap();
    let mut store = empty_store();
    store.config.unaudited = vec![("serde".to_string(), vec![exemption("1.0.0", "safe-to-run", true)])];
    let kind = AuditKind::Delta {
        delta: Delta {
            from: v("0.9.0"),
            to: v("1.0.0"),
        },
        dependency_criteria: vec![],
    };
    assert_eq!(
        certify(
            &mut store,
            &mapper,
            "serde",
            &kind,
            &strings(&["safe-to-deploy", "safe-to-run"]),
            &None,
            &None,
        ),
        Ok(())
    );
    assert_eq!(store.audits.audits[0].1.len(), 2);
    assert_eq!(store.config.unaudited[0].1.len(), 1);
}

#[test]
fn eula_sources() {
    let audits = AuditsFile {
        criteria: vec![
            (
                "described".to_string(),
                CriteriaEntry {
                    description: Some("text".to_string()),
                    description_url: Some("https://example.com".to_string()),
                    implies: vec![],
                },
            ),
            (
                "linked".to_string(),
                CriteriaEntry {
                    description: None,
                    description_url: Some("https://example.com/c".to_string()),
                    implies: vec![],
                },
            ),
            (
                "bare".to_string(),
                CriteriaEntry {
                    description: None,
                    description_url: None,
                    implies: vec![],
                },
            ),
        ],
        audits: vec![],
    };
    assert!(matches!(
        eula_for_criteria(&audits, "safe-to-deploy"),
        EulaSource::SafeToDeploy
    ));
    assert!(matches!(
        eula_for_criteria(&audits, "safe-to-run"),
        EulaSource::SafeToRun
    ));
    match eula_for_criteria(&audits, "described") {
        EulaSource::Description(text) => assert_eq!(text, "text"),
        _ => panic!("other source"),
    }
    match eula_for_criteria(&audits, "linked") {
        EulaSource::Url(url) => assert_eq!(url, "https://example.com/c"),
        _ => panic!("other source"),
    }
    assert!(matches!(eula_for_criteria(&audits, "bare"), EulaSource::Unknown));
    assert!(matches!(eula_for_criteria(&audits, "none"), EulaSource::Unknown));
}

#[test]
fn who_line_trims_both_parts() {
    assert_eq!(
        who_line("Jane Doe\n", "  jane@example.com \r\n"),
        "Jane Doe <jane@example.com>"
    );
    assert_eq!(who_line("", ""), " <>");
}

#[test]
fn diffstat_counts_added_and_removed_lines() {
    let stat = parse_diffstat(" 3 files changed, 9 insertions(+), 3 deletions(-)\n".to_string()).unwrap();
    assert_eq!(stat.count, 12);
    assert_eq!(stat.raw, " 3 files changed, 9 insertions(+), 3 deletions(-)\n");
    assert_eq!(parse_diffstat(String::new()).unwrap().count, 0);
    assert_eq!(
        parse_diffstat(" 1 file changed, 7 deletions(-)\n".to_string()).unwrap().count,
        7
    );
    assert_eq!(parse_diffstat(" 1 file changed\n".to_string()).unwrap().count, 0);
    assert_eq!(
        parse_diffstat("x, many insertions(+), 4 deletions(-)".to_string()).unwrap().count,
        4
    );
    assert_eq!(parse_diffstat("x,5,6 y".to_string()).unwrap().count, 6);
}

#[test]
fn diffstat_errors() {
    assert_eq!(
        parse_diffstat("a, 1 b, 2 c, 3 d".to_string()).err(),
        Some(DiffStatError::TooManyParts)
    );
    assert_eq!(
        parse_diffstat("a, 18446744073709551615 b, 1 c".to_string()).err(),
        Some(DiffStatError::Overflow)
    );
    assert_eq!(
        parse_diffstat("a, 18446744073709551615 b, 0 c".to_string()).unwrap().count,
        u64::MAX
    );
    assert_eq!(
        parse_diffstat("a, 18446744073709551616 b, 2 c".to_string()).unwrap().count,
        2
    );
}

#[test]
fn store_validation() {
    let entry = |implies: &[&str]| CriteriaEntry {
        description: None,
        description_url: None,
        implies: strings(implies),
    };
    let full = |criteria: &str| AuditEntry {
        who: None,
        notes: None,
        criteria: criteria.to_string(),
        kind: AuditKind::Full {
            version: v("1.0.0"),
            dependency_criteria: vec![("dep".to_string(), strings(&["safe-to-run"]))],
        },
    };
    let mut store = empty_store();
    store.audits.criteria = vec![("reviewed".to_string(), entry(&["safe-to-run"]))];
    store.audits.audits = vec![("a".to_string(), vec![full("reviewed")])];
    store.config.policy = vec![(
        "app".to_string(),
        PolicyEntry {
            criteria: Some(strings(&["reviewed"])),
            dev_criteria: None,
            dependency_criteria: vec![],
        },
    )];
    let mapper = store.validate().unwrap();
    assert_eq!(mapper.len(), 3);
    assert!(mapper.implied_criteria[2].has_criteria(0));
    assert!(!mapper.implied_criteria[2].has_criteria(1));

    store.audits.audits.push(("a".to_string(), vec![]));
    assert_eq!(store.validate().err(), Some(StoreError::DuplicateKey));
    store.audits.audits.pop();

    store.audits.audits[0].1.push(full("unheard-of"));
    assert_eq!(store.validate().err(), Some(StoreError::UnknownCriteria));
    store.audits.audits[0].1.pop();

    store.config.policy[0].1.dev_criteria = Some(strings(&["nothing"]));
    assert_eq!(store.validate().err(), Some(StoreError::UnknownCriteria));
    store.config.policy[0].1.dev_criteria = None;

    store.config.unaudited = vec![("b".to_string(), vec![exemption("1.0.0", "huh", true)])];
    assert_eq!(store.validate().err(), Some(StoreError::UnknownCriteria));
    store.config.unaudited.clear();

    store.config.default_criteria = "gone".to_string();
    assert_eq!(store.validate().err(), Some(StoreError::UnknownCriteria));
    store.config.default_criteria = get_default_criteria();

    store.audits.audits[0].1.push(AuditEntry {
        who: None,
        notes: None,
        criteria: "reviewed".to_string(),
        kind: AuditKind::Delta {
            delta: Delta {
                from: v("1.0.0"),
                to: v("1.0.0"),
            },
            dependency_criteria: vec![],
        },
    });
    assert_eq!(store.validate().err(), Some(StoreError::EmptyDelta));
    store.audits.audits[0].1.pop();

    store.audits.criteria.push(("loop".to_string(), entry(&["loop"])));
    assert_eq!(
        store.validate().err(),
        Some(StoreError::Criteria(CriteriaError::Cyclic { index: 3 }))
    );
    store.audits.criteria.pop();
    assert!(store.validate().is_ok());
}

#[test]
fn help_lines_become_markdown() {
    let mut state = HelpState {
        in_subcommands_listing: false,
        in_usage: false,
    };
    let section = "cargo vet certify ";
    assert_eq!(render_help_line(&mut state, section, "USAGE:"), "### cargo vet certify USAGE\n");
    assert!(state.in_usage && !state.in_subcommands_listing);
    assert_eq!(
        render_help_line(&mut state, section, "    cargo vet certify [OPTIONS]"),
        "```\ncargo vet certify [OPTIONS]\n```\n"
    );
    assert_eq!(render_help_line(&mut state, section, "OPTIONS:"), "### cargo vet certify OPTIONS\n");
    assert!(!state.in_usage);
    assert_eq!(
        render_help_line(&mut state, section, "        --criteria <CRITERIA>"),
        "#### `--criteria <CRITERIA>`\n"
    );
    assert_eq!(render_help_line(&mut state, section, "    <PACKAGE>"), "#### `<PACKAGE>`\n");
    assert_eq!(
        render_help_line(&mut state, section, "            [default: warn]"),
        "\\[default: warn]  \n"
    );
    assert_eq!(
        render_help_line(&mut state, section, "            The criteria to certify"),
        "The criteria to certify\n"
    );
    assert_eq!(render_help_line(&mut state, section, ""), "\n");
    assert_eq!(render_help_line(&mut state, section, "Possible filters:"), "### Possible filters\n");
    assert_eq!(render_help_line(&mut state, section, "  indented:"), "indented:\n");
    assert_eq!(
        render_help_line(&mut state, section, "SUBCOMMANDS:"),
        "### cargo vet certify SUBCOMMANDS\n"
    );
    assert!(state.in_subcommands_listing);
    assert_eq!(
        render_help_line(&mut state, section, "    certify"),
        "* [certify](#cargo-vet-certify): "
    );
    assert_eq!(
        render_help_line(&mut state, section, "            Mark a package as reviewed"),
        "Mark a package as reviewed\n"
    );
}

#[test]
fn help_headers() {
    assert_eq!(render_help_section(true, "vet"), "");
    assert_eq!(render_help_section(false, "diff"), "cargo vet diff ");
    assert_eq!(
        render_help_header(true, "cargo-vet 0.1.0", "vet"),
        "Version: `cargo-vet 0.1.0`\n\n"
    );
    assert_eq!(
        render_help_header(false, "ignored", "diff"),
        "<br><br><br>\n## cargo vet diff \n"
    );
}

#[test]
fn metadata_options() {
    let mut cli = Cli::mock();
    assert_eq!(cargo_metadata_options(&cli), strings(&["--locked"]));
    cli.frozen = true;
    cli.workspace.all = true;
    cli.workspace.package = strings(&["a", "b"]);
    cli.workspace.exclude = strings(&["c"]);
    assert_eq!(
        cargo_metadata_options(&cli),
        strings(&["--workspace", "--package", "a", "--package", "b", "--exclude", "c", "--frozen"])
    );
}

#[test]
fn mock_cli_is_quiet() {
    let cli = Cli::mock();
    assert!(cli.command.is_none());
    assert_eq!(cli.verbose, Verbose::Off);
    assert_eq!(cli.output_format, OutputFormat::Human);
    assert!(!cli.locked && !cli.frozen);
    assert!(cli.filter_graph.is_none());
    let features = Features::default();
    assert!(!features.no_all_features && !features.no_default_features);
    assert!(features.features.is_empty());
    assert_eq!(format!("{:?}", features), format!("{:?}", cli.features));
}

#[test]
fn store_state_against_command() {
    let init = Some(Commands::Init(InitArgs {}));
    let suggest = Some(Commands::Suggest(SuggestArgs { guess_deeper: false }));
    assert_eq!(check_store_state(&init, false), Ok(()));
    assert_eq!(check_store_state(&init, true), Err(StoreStateError::AlreadyInitialized));
    assert_eq!(check_store_state(&suggest, true), Ok(()));
    assert_eq!(check_store_state(&suggest, false), Err(StoreStateError::NotInitialized));
    assert_eq!(check_store_state(&None, false), Err(StoreStateError::NotInitialized));
    assert_eq!(check_store_state(&None, true), Ok(()));
    assert!(!init.unwrap().is_freestanding());
    assert!(Commands::Inspect(InspectArgs {
        package: "a".to_string(),
        version: v("1.0.0")
    })
    .is_freestanding());
}

#[test]
fn later_layers_of_configuration_win() {
    let layer = |version: Option<u64>, path: Option<&str>| MetaConfigInstance {
        version,
        store: path.map(|p| StoreInfo {
            path: Some(p.to_string()),
        }),
    };
    let config = layer_config(layer(Some(1), Some("supply-chain")), Some(layer(None, Some("audits"))), None).unwrap();
    assert_eq!(config.version(), Some(1));
    assert_eq!(config.store_path(), Some("audits"));
    let config = layer_config(layer(Some(1), Some("supply-chain")), None, Some(layer(Some(2), None))).unwrap();
    assert_eq!(config.version(), Some(2));
    assert_eq!(config.store_path(), Some("supply-chain"));
    assert_eq!(
        layer_config(layer(None, None), Some(layer(None, None)), Some(layer(None, None))).err(),
        Some(MetaConfigError::WorkspaceAndPackage)
    );
    assert_eq!(MetaConfig(vec![]).version(), None);
    assert_eq!(MetaConfig(vec![]).store_path(), None);
}

#[test]
fn violation_is_recorded_for_each_criterion_in_order() {
    let mut store = empty_store();
    store.audits.audits = vec![("quickcheck".to_string(), vec![])];
    let args = RecordViolationArgs {
        package: "serde".to_string(),
        versions: VersionReq {
            text: ">=2.0.0".to_string(),
        },
        criteria: strings(&["safe-to-run", "safe-to-deploy"]),
        who: None,
        notes: None,
    };
    assert_eq!(
        record_violation(&mut store, &metadata(), &args, Some("me".to_string())),
        Ok(())
    );
    assert_eq!(store.audits.audits.len(), 2);
    assert_eq!(store.audits.audits[0].0, "quickcheck");
    let (name, list) = &store.audits.audits[1];
    assert_eq!(name, "serde");
    assert_eq!(list.len(), 2);
    assert_eq!(list[0].criteria, "safe-to-run");
    assert_eq!(list[1].criteria, "safe-to-deploy");
    for entry in list {
        assert_eq!(entry.who.as_deref(), Some("me"));
        match &entry.kind {
            AuditKind::Violation { violation } => assert_eq!(violation.text, ">=2.0.0"),
            _ => panic!("other kind"),
        }
    }
    assert_eq!(store.validate().err(), None);
}

#[test]
fn exemption_is_added_for_each_criterion_in_order() {
    let mut store = empty_store();
    let args = AddUnauditedArgs {
        package: "quickcheck".to_string(),
        version: v("0.9.0"),
        criteria: strings(&["safe-to-deploy", "safe-to-run"]),
        dependency_criteria: vec![DependencyCriteriaArg::from_str("serde:safe-to-run").unwrap()],
        notes: Some("for now".to_string()),
        no_suggest: false,
    };
    assert_eq!(add_unaudited(&mut store, &metadata(), &args), Ok(()));
    assert_eq!(add_unaudited(&mut store, &metadata(), &args), Ok(()));
    assert_eq!(store.config.unaudited.len(), 1);
    let (name, list) = &store.config.unaudited[0];
    assert_eq!(name, "quickcheck");
    let criteria: Vec<&str> = list.iter().map(|e| e.criteria.as_str()).collect();
    assert_eq!(
        criteria,
        vec!["safe-to-deploy", "safe-to-run", "safe-to-deploy", "safe-to-run"]
    );
    for entry in list {
        assert!(entry.version.same(&v("0.9.0")));
        assert_eq!(entry.notes.as_deref(), Some("for now"));
        assert!(entry.suggest);
        assert_eq!(
            entry.dependency_criteria,
            vec![("serde".to_string(), strings(&["safe-to-run"]))]
        );
    }
    assert_eq!(store.validate().err(), None);
}

fn same_to_same() -> AuditKind {
    AuditKind::Delta {
        delta: Delta {
            from: v("1.0.0"),
            to: v("1.0.0"),
        },
        dependency_criteria: vec![],
    }
}

#[test]
fn certify_refuses_a_delta_from_a_version_to_itself() {
    let mapper = CriteriaMapper::new(vec![]).unwrap();
    let mut store = empty_store();
    store.config.unaudited = vec![("serde".to_string(), vec![exemption("1.0.0", "safe-to-run", true)])];
    assert!(is_empty_delta(&same_to_same()));
    assert_eq!(
        certify(
            &mut store,
            &mapper,
            "serde",
            &same_to_same(),
            &strings(&["safe-to-run"]),
            &None,
            &None,
        ),
        Err(CertifyError::EmptyDelta)
    );
    assert!(store.audits.audits.is_empty());
    assert_eq!(store.config.unaudited[0].1.len(), 1);
    assert_eq!(store.validate().err(), None);
}

#[test]
fn plan_refuses_a_delta_from_a_version_to_itself() {
    let mut args = certify_args();
    args.package = Some("serde".to_string());
    args.version1 = Some(v("1.0.0"));
    args.version2 = Some(v("1.0.0"));
    assert_eq!(
        plan_certify(&args, &no_history(), &empty_store(), &metadata()).err(),
        Some(CertifyError::EmptyDelta)
    );
    args.version2 = Some(v("1.0.1"));
    assert!(plan_certify(&args, &no_history(), &empty_store(), &metadata()).is_ok());

    let fetched = FetchCommand::Diff {
        package: "serde".to_string(),
        version1: v("0.9.0"),
        version2: v("0.9.0"),
    };
    let history = CommandHistory {
        last_fetch: Some(fetched),
        last_suggest: vec![],
    };
    assert_eq!(
        plan_certify(&certify_args(), &history, &empty_store(), &metadata()).err(),
        Some(CertifyError::EmptyDelta)
    );

    let suggested = CommandHistory {
        last_fetch: None,
        last_suggest: vec![SuggestRecord {
            command: FetchCommand::Diff {
                package: "serde".to_string(),
                version1: v("1.0.0"),
                version2: v("1.0.0"),
            },
            criteria: strings(&["safe-to-run"]),
        }],
    };
    let mut named = certify_args();
    named.package = Some("serde".to_string());
    assert_eq!(
        plan_certify(&named, &suggested, &empty_store(), &metadata()).err(),
        Some(CertifyError::EmptyDelta)
    );
}

#[test]
fn certified_store_stays_valid() {
    let mapper = CriteriaMapper::new(vec![]).unwrap();
    let mut store = empty_store();
    store.config.unaudited = vec![
        ("serde".to_string(), vec![exemption("1.0.0", "safe-to-run", true)]),
        ("quickcheck".to_string(), vec![exemption("0.9.0", "safe-to-run", true)]),
    ];
    let kind = AuditKind::Full {
        version: v("1.0.0"),
        dependency_criteria: vec![],
    };
    for _ in 0..2 {
        assert_eq!(
            certify(
                &mut store,
                &mapper,
                "serde",
                &kind,
                &strings(&["safe-to-deploy", "safe-to-run"]),
                &None,
                &None,
            ),
            Ok(())
        );
    }
    assert_eq!(store.audits.audits.len(), 1);
    assert_eq!(store.audits.audits[0].1.len(), 4);
    let names: Vec<&str> = store.config.unaudited.iter().map(|(n, _)| n.as_str()).collect();
    assert_eq!(names, vec!["quickcheck"]);
    assert_eq!(store.validate().err(), None);
}

#[test]
fn package_to_certify_is_named_or_fetched_last() {
    let mut args = certify_args();
    assert_eq!(package_to_certify(&args, &no_history()), None);
    let history = CommandHistory {
        last_fetch: Some(FetchCommand::Inspect {
            package: "quickcheck".to_string(),
            version: v("0.9.0"),
        }),
        last_suggest: vec![],
    };
    assert_eq!(
        package_to_certify(&args, &history),
        Some("quickcheck".to_string())
    );
    args.package = Some("serde".to_string());
    assert_eq!(package_to_certify(&args, &history), Some("serde".to_string()));
}

#[test]
fn choices_of_an_open_version_are_listed() {
    let mut store = empty_store();
    store.config.unaudited = vec![
        ("other".to_string(), vec![exemption("3.0.0", "safe-to-run", true)]),
        (
            "serde".to_string(),
            vec![
                exemption("1.0.0", "safe-to-run", true),
                exemption("0.9.0", "safe-to-deploy", false),
            ],
        ),
    ];
    let versions = exempted_versions(&store, "serde");
    assert_eq!(versions.len(), 2);
    assert!(versions[0].same(&v("1.0.0")));
    assert!(versions[1].same(&v("0.9.0")));
    assert!(exempted_versions(&store, "quickcheck").is_empty());

    let record = |package: &str, version: &str| SuggestRecord {
        command: FetchCommand::Inspect {
            package: package.to_string(),
            version: v(version),
        },
        criteria: strings(&["safe-to-run"]),
    };
    let history = CommandHistory {
        last_fetch: None,
        last_suggest: vec![
            record("serde", "1.0.0"),
            record("quickcheck", "0.9.0"),
            record("serde", "1.1.0"),
        ],
    };
    assert_eq!(suggestions_about(&history, "serde"), vec![0, 2]);
    assert_eq!(suggestions_about(&history, "quickcheck"), vec![1]);
    assert!(suggestions_about(&history, "other").is_empty());
}

#[test]
fn who_line_trims_every_kind_of_white_space() {
    assert_eq!(
        who_line("\u{a0}\u{2003}Jo Doe\u{3000}\n", "\u{85}jo@example.com\u{2028}\u{205f}"),
        "Jo Doe <jo@example.com>"
    );
    assert_eq!(who_line("\u{200b}x", "y"), "\u{200b}x <y>");
}

#[test]
fn diffstat_numbers_may_stand_behind_any_white_space() {
    assert_eq!(
        parse_diffstat("1 file changed,\u{a0}4 insertions(+),\u{2009}\u{3000}5 deletions(-)".to_string())
            .unwrap()
            .count,
        9
    );
}
