use cargo_vet::criteria::{CriteriaError, CriteriaMapper};
use cargo_vet::criteria_set::CriteriaSet;
use cargo_vet::format::CriteriaEntry;

fn entry(implies: &[&str]) -> CriteriaEntry {
    CriteriaEntry {
        description: None,
        description_url: None,
        implies: implies.iter().map(|s| s.to_string()).collect(),
    }
}

#[test]
fn builtins_come_first() {
    let mapper = CriteriaMapper::new(vec![]).unwrap();
    assert_eq!(mapper.len(), 2);
    assert_eq!(mapper.index("safe-to-run"), Some(0));
    assert_eq!(mapper.index("safe-to-deploy"), Some(1));
    assert_eq!(mapper.index("reviewed"), None);
}

#[test]
fn deploy_implies_run() {
    let mapper = CriteriaMapper::new(vec![]).unwrap();
    let set = mapper.criteria_from_list(&vec!["safe-to-deploy".to_string()]);
    assert!(set.has_criteria(0));
    assert!(set.has_criteria(1));
    assert_eq!(mapper.criteria_names(&set), vec!["safe-to-deploy".to_string()]);
}

#[test]
fn cycle_is_refused() {
    let table = vec![
        ("a".to_string(), entry(&["b"])),
        ("b".to_string(), entry(&["a"])),
    ];
    assert_eq!(
        CriteriaMapper::new(table).err(),
        Some(CriteriaError::Cyclic { index: 2 })
    );
}

#[test]
fn set_operations() {
    let mut a = CriteriaSet::none();
    assert!(a.is_empty());
    a.set_criteria(3);
    a.set_criteria(63);
    a.set_criteria(64);
    assert_eq!(a.indices(), vec![3, 63]);
    let mut b = CriteriaSet::none();
    b.set_criteria(3);
    assert!(a.contains(&b));
    assert!(!b.contains(&a));
    assert!(a.intersects(&b));
    a.clear_criteria(&b);
    assert_eq!(a.indices(), vec![63]);
}

fn diamond() -> CriteriaMapper {
    CriteriaMapper::new(vec![
        ("top".to_string(), entry(&["left", "right"])),
        ("left".to_string(), entry(&["bottom"])),
        ("right".to_string(), entry(&["bottom", "safe-to-run"])),
        ("bottom".to_string(), entry(&[])),
    ])
    .unwrap()
}

fn set_of(indices: &[usize]) -> CriteriaSet {
    let mut set = CriteriaSet::none();
    for i in indices {
        set.set_criteria(*i);
    }
    set
}

#[test]
fn closure_follows_every_implication() {
    let mapper = diamond();
    assert_eq!(mapper.closure(&set_of(&[2])).indices(), vec![0, 2, 3, 4, 5]);
    assert_eq!(mapper.closure(&set_of(&[3])).indices(), vec![3, 5]);
    assert_eq!(mapper.closure(&set_of(&[4])).indices(), vec![0, 4, 5]);
    assert_eq!(mapper.closure(&set_of(&[1, 5])).indices(), vec![0, 1, 5]);
    assert!(mapper.closure(&CriteriaSet::none()).is_empty());
    assert!(mapper.closure(&set_of(&[17, 63])).is_empty());
}

#[test]
fn closure_is_idempotent() {
    let mapper = diamond();
    for bits in 0..64u64 {
        let set = CriteriaSet { bits };
        let once = mapper.closure(&set);
        assert_eq!(mapper.closure(&once), once);
    }
}

#[test]
fn closure_is_monotone() {
    let mapper = diamond();
    for a in 0..64u64 {
        for b in 0..64u64 {
            let small = CriteriaSet { bits: a & b };
            let large = CriteriaSet { bits: b };
            assert!(mapper.closure(&large).contains(&mapper.closure(&small)));
        }
    }
}

#[test]
fn names_are_the_minimal_ones() {
    let mapper = diamond();
    let names = |indices: &[usize]| mapper.criteria_names(&set_of(indices));
    assert_eq!(names(&[0, 2, 3, 4, 5]), vec!["top".to_string()]);
    assert_eq!(names(&[0, 3, 4, 5]), vec!["left".to_string(), "right".to_string()]);
    assert_eq!(names(&[0, 1, 5]), vec!["safe-to-deploy".to_string(), "bottom".to_string()]);
    assert!(names(&[]).is_empty());
    assert!(mapper.is_minimal(&set_of(&[3, 5]), 3));
    assert!(!mapper.is_minimal(&set_of(&[3, 5]), 5));
    assert!(!mapper.is_minimal(&set_of(&[3]), 5));
}

#[test]
fn from_list_ignores_unknown_names() {
    let mapper = diamond();
    let list = vec!["left".to_string(), "who-knows".to_string(), "safe-to-deploy".to_string()];
    assert_eq!(mapper.criteria_from_list(&list).indices(), vec![0, 1, 3, 5]);
    assert_eq!(mapper.criteria_from_name("right").indices(), vec![0, 4, 5]);
    assert!(mapper.criteria_from_name("who-knows").is_empty());
}

#[test]
fn clearing_takes_the_implied_along() {
    let mapper = diamond();
    let mut set = set_of(&[0, 1, 2, 3, 4, 5]);
    mapper.clear_criteria(&mut set, "left");
    assert_eq!(set.indices(), vec![0, 1, 2, 4]);
    mapper.clear_criteria(&mut set, "who-knows");
    assert_eq!(set.indices(), vec![0, 1, 2, 4]);
    mapper.clear_criteria(&mut set, "safe-to-deploy");
    assert_eq!(set.indices(), vec![2, 4]);
}

#[test]
fn table_errors() {
    let many: Vec<(String, CriteriaEntry)> =
        (0..63).map(|i| (format!("c{i}"), entry(&[]))).collect();
    assert_eq!(CriteriaMapper::new(many).err(), Some(CriteriaError::TooMany));
    let full: Vec<(String, CriteriaEntry)> =
        (0..62).map(|i| (format!("c{i}"), entry(&[]))).collect();
    assert_eq!(CriteriaMapper::new(full).unwrap().len(), 64);
    assert_eq!(
        CriteriaMapper::new(vec![
            ("a".to_string(), entry(&[])),
            ("b".to_string(), entry(&[])),
            ("a".to_string(), entry(&[])),
        ])
        .err(),
        Some(CriteriaError::Duplicate { index: 4 })
    );
    assert_eq!(
        CriteriaMapper::new(vec![("safe-to-run".to_string(), entry(&[]))]).err(),
        Some(CriteriaError::Duplicate { index: 2 })
    );
    assert_eq!(
        CriteriaMapper::new(vec![
            ("a".to_string(), entry(&["safe-to-run"])),
            ("b".to_string(), entry(&["a", "c"])),
        ])
        .err(),
        Some(CriteriaError::Unknown { index: 3, implied: 1 })
    );
    assert_eq!(
        CriteriaMapper::new(vec![("a".to_string(), entry(&["a"]))]).err(),
        Some(CriteriaError::Cyclic { index: 2 })
    );
}

#[test]
fn set_union_and_intersection() {
    let mut a = set_of(&[1, 2]);
    let b = set_of(&[2, 3]);
    assert_eq!(a.intersected_with(&b).indices(), vec![2]);
    assert!(!set_of(&[1]).intersects(&set_of(&[2])));
    a.unioned_with(&b);
    assert_eq!(a.indices(), vec![1, 2, 3]);
    assert!(!a.has_criteria(64));
    assert!(!a.has_criteria(usize::MAX));
}
