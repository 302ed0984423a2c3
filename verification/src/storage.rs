//! The audit store in memory: configuration, audits and imported audits,
//! and what makes a store valid.

use crate::criteria::{
    clone_table, known_name, lemma_refused_invalid, refused, universe, valid_universe,
    CriteriaError, CriteriaMapper, Criterion,
};
use crate::format::{
    AuditEntry, AuditKind, AuditKindModel, AuditsFile, ConfigFile, CriteriaName, ImportsFile,
    PackageName, PolicyEntry, UnauditedDependency,
};
use crate::table::{distinct_keys, find_key};
use vstd::prelude::*;

verus! {

/// Everything the store holds.
#[derive(Debug)]
pub struct Store {
    pub config: ConfigFile,
    pub audits: AuditsFile,
    pub imports: ImportsFile,
}

/// Why a store is refused.
#[derive(Clone, Copy, Debug, PartialEq, Eq, Structural)]
pub enum StoreError {
    /// The criteria table is refused.
    Criteria(CriteriaError),
    /// A table has two records for one key.
    DuplicateKey,
    /// An entry names a criterion that the store does not have.
    UnknownCriteria,
    /// A delta audit leads from a version to the same version.
    EmptyDelta,
}

/// Every name is that of a criterion.
pub open spec fn names_known(all: Seq<Criterion>, names: Seq<CriteriaName>) -> bool {
    forall|k: int| 0 <= k < names.len() ==> known_name(all, (#[trigger] names[k])@)
}

/// Every criterion asked of a dependency is known.
pub open spec fn dependency_criteria_known(
    all: Seq<Criterion>,
    list: Seq<(PackageName, Vec<CriteriaName>)>,
) -> bool {
    forall|i: int| 0 <= i < list.len() ==> names_known(all, (#[trigger] list[i]).1@)
}

/// Every criterion that an audit names is known.
pub open spec fn audit_known(all: Seq<Criterion>, audit: AuditEntry) -> bool {
    known_name(all, audit.criteria@) && match audit.kind {
        AuditKind::Full { dependency_criteria, .. } => dependency_criteria_known(
            all,
            dependency_criteria@,
        ),
        AuditKind::Delta { dependency_criteria, .. } => dependency_criteria_known(
            all,
            dependency_criteria@,
        ),
        AuditKind::Violation { .. } => true,
    }
}

/// Every criterion that the audits of a list name is known.
pub open spec fn audit_list_known(all: Seq<Criterion>, audits: Seq<AuditEntry>) -> bool {
    forall|j: int| 0 <= j < audits.len() ==> audit_known(all, #[trigger] audits[j])
}

/// Every criterion that an exemption names is known.
pub open spec fn exemption_known(all: Seq<Criterion>, exemption: UnauditedDependency) -> bool {
    known_name(all, exemption.criteria@) && dependency_criteria_known(
        all,
        exemption.dependency_criteria@,
    )
}

/// Every criterion that the exemptions of a list name is known.
pub open spec fn exemption_list_known(all: Seq<Criterion>, list: Seq<UnauditedDependency>) -> bool {
    forall|j: int| 0 <= j < list.len() ==> exemption_known(all, #[trigger] list[j])
}

/// Every criterion that a policy names is known.
pub open spec fn policy_known(all: Seq<Criterion>, policy: PolicyEntry) -> bool {
    &&& policy.criteria is Some ==> names_known(all, policy.criteria->0@)
    &&& policy.dev_criteria is Some ==> names_known(all, policy.dev_criteria->0@)
    &&& dependency_criteria_known(all, policy.dependency_criteria@)
}

/// Every criterion that the store's own entries name is known: the default,
/// and those of the audits, the exemptions and the policies.
pub open spec fn criteria_known(all: Seq<Criterion>, store: &Store) -> bool {
    &&& known_name(all, store.config.default_criteria@)
    &&& forall|i: int|
        0 <= i < store.audits.audits@.len() ==> audit_list_known(
            all,
            (#[trigger] store.audits.audits@[i]).1@,
        )
    &&& forall|i: int|
        0 <= i < store.config.unaudited@.len() ==> exemption_list_known(
            all,
            (#[trigger] store.config.unaudited@[i]).1@,
        )
    &&& forall|i: int|
        0 <= i < store.config.policy@.len() ==> policy_known(
            all,
            (#[trigger] store.config.policy@[i]).1,
        )
}

/// No table of the store has two records for one key.
pub open spec fn keys_distinct(store: &Store) -> bool {
    &&& distinct_keys(store.audits.audits@)
    &&& distinct_keys(store.config.unaudited@)
    &&& distinct_keys(store.config.policy@)
    &&& distinct_keys(store.config.imports@)
    &&& distinct_keys(store.imports.audits@)
}

/// The audit is of the changes from a version to the same version: there
/// is nothing to audit.
pub open spec fn empty_delta(kind: AuditKindModel) -> bool {
    match kind {
        AuditKindModel::Delta { from, to, .. } => from == to,
        _ => false,
    }
}

/// Whether the audit is of the changes from a version to the same version.
pub fn is_empty_delta(kind: &AuditKind) -> (empty: bool)
    ensures
        empty == empty_delta(kind@),
{
    match kind {
        AuditKind::Delta { delta, .. } => delta.from.same(&delta.to),
        _ => false,
    }
}

/// Every delta audit of a list leads from one version to another.
pub open spec fn delta_list_differs(audits: Seq<AuditEntry>) -> bool {
    forall|j: int|
        0 <= j < audits.len() ==> match (#[trigger] audits[j]).kind {
            AuditKind::Delta { delta, .. } => delta.from@ != delta.to@,
            _ => true,
        }
}

/// Every delta audit of a table leads from one version to another.
pub open spec fn table_deltas_differ(table: Seq<(PackageName, Vec<AuditEntry>)>) -> bool {
    forall|i: int| 0 <= i < table.len() ==> delta_list_differs((#[trigger] table[i]).1@)
}

/// Every delta audit of the store leads from one version to another.
pub open spec fn deltas_differ(store: &Store) -> bool {
    table_deltas_differ(store.audits.audits@)
}

/// What a store must satisfy to be used.
pub open spec fn valid_store(store: &Store) -> bool {
    &&& valid_universe(universe(store.audits.criteria@))
    &&& keys_distinct(store)
    &&& criteria_known(universe(store.audits.criteria@), store)
    &&& deltas_differ(store)
}

fn keys_are_distinct<V>(table: &Vec<(String, V)>) -> (ok: bool)
    ensures
        ok == distinct_keys(table@),
{
    let mut j: usize = 0;
    while j < table.len()
        invariant
            j <= table@.len(),
            forall|a: int, b: int|
                0 <= a < b < j ==> (#[trigger] table@[a]).0@ != (#[trigger] table@[b]).0@,
        decreases table@.len() - j,
    {
        match find_key(table, table[j].0.as_str()) {
            Some(first) => {
                if first < j {
                    assert(table@[first as int].0@ == table@[j as int].0@);
                    return false;
                }
                proof {
                    assert forall|a: int| 0 <= a < j implies (#[trigger] table@[a]).0@
                        != table@[j as int].0@ by {
                        if table@[a].0@ == table@[j as int].0@ {
                            crate::table::lemma_key_index(table@, table@[j as int].0@, first as int);
                        }
                    }
                }
            },
            None => {
                assert(table@[j as int].0@ == table@[j as int].0@);
            },
        }
        j += 1;
    }
    true
}

fn names_are_known(mapper: &CriteriaMapper, names: &Vec<CriteriaName>) -> (ok: bool)
    requires
        mapper.wf(),
    ensures
        ok == names_known(mapper.model(), names@),
{
    let mut k: usize = 0;
    while k < names.len()
        invariant
            k <= names@.len(),
            mapper.wf(),
            forall|j: int| 0 <= j < k ==> known_name(mapper.model(), (#[trigger] names@[j])@),
        decreases names@.len() - k,
    {
        if mapper.index(names[k].as_str()).is_none() {
            return false;
        }
        k += 1;
    }
    true
}

fn dependency_criteria_are_known(
    mapper: &CriteriaMapper,
    list: &Vec<(PackageName, Vec<CriteriaName>)>,
) -> (ok: bool)
    requires
        mapper.wf(),
    ensures
        ok == dependency_criteria_known(mapper.model(), list@),
{
    let mut i: usize = 0;
    while i < list.len()
        invariant
            i <= list@.len(),
            mapper.wf(),
            forall|j: int| 0 <= j < i ==> names_known(mapper.model(), (#[trigger] list@[j]).1@),
        decreases list@.len() - i,
    {
        if !names_are_known(mapper, &list[i].1) {
            return false;
        }
        i += 1;
    }
    true
}

fn audits_are_known(mapper: &CriteriaMapper, audits: &Vec<AuditEntry>) -> (ok: bool)
    requires
        mapper.wf(),
    ensures
        ok == audit_list_known(mapper.model(), audits@),
{
    let mut j: usize = 0;
    while j < audits.len()
        invariant
            j <= audits@.len(),
            mapper.wf(),
            forall|t: int| 0 <= t < j ==> audit_known(mapper.model(), #[trigger] audits@[t]),
        decreases audits@.len() - j,
    {
        let audit = &audits[j];
        let known = mapper.index(audit.criteria.as_str()).is_some() && match &audit.kind {
            AuditKind::Full { dependency_criteria, .. } => dependency_criteria_are_known(
                mapper,
                dependency_criteria,
            ),
            AuditKind::Delta { dependency_criteria, .. } => dependency_criteria_are_known(
                mapper,
                dependency_criteria,
            ),
            AuditKind::Violation { .. } => true,
        };
        if !known {
            return false;
        }
        j += 1;
    }
    true
}

fn exemptions_are_known(mapper: &CriteriaMapper, list: &Vec<UnauditedDependency>) -> (ok: bool)
    requires
        mapper.wf(),
    ensures
        ok == exemption_list_known(mapper.model(), list@),
{
    let mut j: usize = 0;
    while j < list.len()
        invariant
            j <= list@.len(),
            mapper.wf(),
            forall|t: int| 0 <= t < j ==> exemption_known(mapper.model(), #[trigger] list@[t]),
        decreases list@.len() - j,
    {
        let exemption = &list[j];
        if mapper.index(exemption.criteria.as_str()).is_none() || !dependency_criteria_are_known(
            mapper,
            &exemption.dependency_criteria,
        ) {
            return false;
        }
        j += 1;
    }
    true
}

fn policy_is_known(mapper: &CriteriaMapper, policy: &PolicyEntry) -> (ok: bool)
    requires
        mapper.wf(),
    ensures
        ok == policy_known(mapper.model(), *policy),
{
    let build = match &policy.criteria {
        Some(names) => names_are_known(mapper, names),
        None => true,
    };
    let dev = match &policy.dev_criteria {
        Some(names) => names_are_known(mapper, names),
        None => true,
    };
    build && dev && dependency_criteria_are_known(mapper, &policy.dependency_criteria)
}

fn all_criteria_known(mapper: &CriteriaMapper, store: &Store) -> (ok: bool)
    requires
        mapper.wf(),
    ensures
        ok == criteria_known(mapper.model(), store),
{
    if mapper.index(store.config.default_criteria.as_str()).is_none() {
        return false;
    }
    let mut i: usize = 0;
    while i < store.audits.audits.len()
        invariant
            i <= store.audits.audits@.len(),
            mapper.wf(),
            forall|t: int|
                0 <= t < i ==> audit_list_known(
                    mapper.model(),
                    (#[trigger] store.audits.audits@[t]).1@,
                ),
        decreases store.audits.audits@.len() - i,
    {
        if !audits_are_known(mapper, &store.audits.audits[i].1) {
            return false;
        }
        i += 1;
    }
    let mut i: usize = 0;
    while i < store.config.unaudited.len()
        invariant
            i <= store.config.unaudited@.len(),
            mapper.wf(),
            forall|t: int|
                0 <= t < i ==> exemption_list_known(
                    mapper.model(),
                    (#[trigger] store.config.unaudited@[t]).1@,
                ),
        decreases store.config.unaudited@.len() - i,
    {
        if !exemptions_are_known(mapper, &store.config.unaudited[i].1) {
            return false;
        }
        i += 1;
    }
    let mut i: usize = 0;
    while i < store.config.policy.len()
        invariant
            i <= store.config.policy@.len(),
            mapper.wf(),
            forall|t: int|
                0 <= t < i ==> policy_known(mapper.model(), (#[trigger] store.config.policy@[t]).1),
        decreases store.config.policy@.len() - i,
    {
        if !policy_is_known(mapper, &store.config.policy[i].1) {
            return false;
        }
        i += 1;
    }
    true
}

fn delta_list_ok(audits: &Vec<AuditEntry>) -> (ok: bool)
    ensures
        ok == delta_list_differs(audits@),
{
    let mut j: usize = 0;
    while j < audits.len()
        invariant
            j <= audits@.len(),
            forall|t: int|
                0 <= t < j ==> match (#[trigger] audits@[t]).kind {
                    AuditKind::Delta { delta, .. } => delta.from@ != delta.to@,
                    _ => true,
                },
        decreases audits@.len() - j,
    {
        match &audits[j].kind {
            AuditKind::Delta { delta, .. } => {
                if delta.from.same(&delta.to) {
                    return false;
                }
            },
            _ => {},
        }
        j += 1;
    }
    true
}

fn deltas_ok(store: &Store) -> (ok: bool)
    ensures
        ok == deltas_differ(store),
{
    let mut i: usize = 0;
    while i < store.audits.audits.len()
        invariant
            i <= store.audits.audits@.len(),
            forall|t: int|
                0 <= t < i ==> delta_list_differs((#[trigger] store.audits.audits@[t]).1@),
        decreases store.audits.audits@.len() - i,
    {
        if !delta_list_ok(&store.audits.audits[i].1) {
            return false;
        }
        i += 1;
    }
    true
}

impl Store {
    /// Checks the store as it is loaded, and indexes its criteria: the
    /// criteria table must be valid, no table may have two records for one
    /// key, every criterion named must be known and every delta audit must
    /// lead from one version to another.
    pub fn validate(&self) -> (checked: Result<CriteriaMapper, StoreError>)
        ensures
            match checked {
                Ok(mapper) => valid_store(self) && mapper.wf() && mapper.model() == universe(
                    self.audits.criteria@,
                ),
                Err(StoreError::Criteria(error)) => refused(
                    universe(self.audits.criteria@),
                    error,
                ) && !valid_universe(universe(self.audits.criteria@)),
                Err(StoreError::DuplicateKey) => valid_universe(universe(self.audits.criteria@))
                    && !keys_distinct(self),
                Err(StoreError::UnknownCriteria) => valid_universe(
                    universe(self.audits.criteria@),
                ) && keys_distinct(self) && !criteria_known(
                    universe(self.audits.criteria@),
                    self,
                ),
                Err(StoreError::EmptyDelta) => valid_universe(universe(self.audits.criteria@))
                    && keys_distinct(self) && criteria_known(
                    universe(self.audits.criteria@),
                    self,
                ) && !deltas_differ(self),
            },
    {
        let table = clone_table(&self.audits.criteria);
        let ghost all = universe(self.audits.criteria@);
        assert(universe(table@) == all);
        let mapper = match CriteriaMapper::new(table) {
            Ok(mapper) => mapper,
            Err(e) => {
                proof {
                    lemma_refused_invalid(all, e);
                }
                return Err(StoreError::Criteria(e));
            },
        };
        let distinct = keys_are_distinct(&self.audits.audits) && keys_are_distinct(
            &self.config.unaudited,
        ) && keys_are_distinct(&self.config.policy) && keys_are_distinct(&self.config.imports)
            && keys_are_distinct(&self.imports.audits);
        if !distinct {
            return Err(StoreError::DuplicateKey);
        }
        if !all_criteria_known(&mapper, self) {
            return Err(StoreError::UnknownCriteria);
        }
        if !deltas_ok(self) {
            return Err(StoreError::EmptyDelta);
        }
        Ok(mapper)
    }
}

} // verus!
