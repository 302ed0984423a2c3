use cargo_vet::cli::{ArgParseError, DependencyCriteriaArg};
use cargo_vet::filter::{
    FilterErrorKind, FilterParseError, GraphFilter, GraphFilterProperty, GraphFilterQuery,
};

fn fails(text: &str, offset: usize, kind: FilterErrorKind) {
    assert_eq!(
        GraphFilter::from_str(text).err(),
        Some(FilterParseError { offset, kind }),
        "{text}"
    );
}

#[test]
fn parses_name_property() {
    match GraphFilter::from_str("include(name(serde))").unwrap() {
        GraphFilter::Include(GraphFilterQuery::Prop(GraphFilterProperty::Name(name))) => {
            assert_eq!(name, "serde")
        }
        _ => panic!("other filter"),
    }
}

#[test]
fn parses_version_property() {
    match GraphFilter::from_str("exclude(version(1.2.0))").unwrap() {
        GraphFilter::Exclude(GraphFilterQuery::Prop(GraphFilterProperty::Version(v))) => {
            assert_eq!((v.major, v.minor, v.patch), (1, 2, 0));
            assert_eq!(v.pre, "");
        }
        _ => panic!("other filter"),
    }
}

#[test]
fn parses_flags() {
    for (text, which) in [
        ("include(is_root(true))", 0),
        ("include(is_workspace_member(false))", 1),
        ("include(is_third_party(true))", 2),
        ("include(is_dev_only(false))", 3),
    ] {
        match GraphFilter::from_str(text).unwrap() {
            GraphFilter::Include(GraphFilterQuery::Prop(p)) => match (which, p) {
                (0, GraphFilterProperty::IsRoot(true)) => {}
                (1, GraphFilterProperty::IsWorkspaceMember(false)) => {}
                (2, GraphFilterProperty::IsThirdParty(true)) => {}
                (3, GraphFilterProperty::IsDevOnly(false)) => {}
                _ => panic!("wrong property for {text}"),
            },
            _ => panic!("other filter"),
        }
    }
}

#[test]
fn parses_nested_queries() {
    let filter =
        GraphFilter::from_str("exclude(any(is_dev_only(true),not(name(serde_derive))))").unwrap();
    match filter {
        GraphFilter::Exclude(GraphFilterQuery::Any(list)) => {
            assert_eq!(list.len(), 2);
            assert!(matches!(
                list[0],
                GraphFilterQuery::Prop(GraphFilterProperty::IsDevOnly(true))
            ));
            match &list[1] {
                GraphFilterQuery::Not(inner) => match &**inner {
                    GraphFilterQuery::Prop(GraphFilterProperty::Name(n)) => {
                        assert_eq!(n, "serde_derive")
                    }
                    _ => panic!("other inner"),
                },
                _ => panic!("other query"),
            }
        }
        _ => panic!("other filter"),
    }
}

#[test]
fn parses_all_of_three() {
    match GraphFilter::from_str("include(all(is_root(true),name(a),version(0.1.0)))").unwrap() {
        GraphFilter::Include(GraphFilterQuery::All(list)) => assert_eq!(list.len(), 3),
        _ => panic!("other filter"),
    }
}

#[test]
fn spaces_between_tokens_do_not_count() {
    let filter = GraphFilter::from_str(
        "  include( \t any( name( a ) ,\n is_root( true ) ) )\r\n",
    )
    .unwrap();
    match filter {
        GraphFilter::Include(GraphFilterQuery::Any(list)) => {
            assert_eq!(list.len(), 2);
            match &list[0] {
                GraphFilterQuery::Prop(GraphFilterProperty::Name(n)) => assert_eq!(n, "a"),
                _ => panic!("other query"),
            }
        }
        _ => panic!("other filter"),
    }
}

#[test]
fn filter_errors_give_the_offset() {
    fails("", 0, FilterErrorKind::ExpectedFilter);
    fails("keep(name(a))", 0, FilterErrorKind::ExpectedFilter);
    fails("  include (name(a))", 2, FilterErrorKind::ExpectedFilter);
    fails("include(foo)", 8, FilterErrorKind::ExpectedQuery);
    fails("include(name())", 13, FilterErrorKind::ExpectedValue);
    fails("include(name(a)", 15, FilterErrorKind::ExpectedClose);
    fails("include(name(a b))", 15, FilterErrorKind::ExpectedClose);
    fails("include(is_root(yes))", 16, FilterErrorKind::ExpectedBool);
    fails("include(version(1.2))", 16, FilterErrorKind::BadVersion);
    fails("include(name(a)) x", 17, FilterErrorKind::TrailingInput);
    fails("include(any(name(a)))", 19, FilterErrorKind::ExpectedComma);
    fails("include(all(name(a),))", 20, FilterErrorKind::ExpectedQuery);
    fails("include(not(name(a),name(b)))", 19, FilterErrorKind::ExpectedClose);
}

#[test]
fn dependency_criteria_argument() {
    let arg = DependencyCriteriaArg::from_str("serde:safe-to-run").unwrap();
    assert_eq!(arg.dependency, "serde");
    assert_eq!(arg.criteria, "safe-to-run");
}

#[test]
fn dependency_criteria_argument_errors() {
    let err = |text: &str| DependencyCriteriaArg::from_str(text).err();
    assert_eq!(err(""), Some(ArgParseError { offset: 0 }));
    assert_eq!(err(":x"), Some(ArgParseError { offset: 0 }));
    assert_eq!(err("serde"), Some(ArgParseError { offset: 5 }));
    assert_eq!(err("serde:"), Some(ArgParseError { offset: 6 }));
    assert_eq!(err("a::b"), Some(ArgParseError { offset: 2 }));
    assert_eq!(err("a:b:c"), Some(ArgParseError { offset: 3 }));
}
