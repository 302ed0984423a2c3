//! The commands keep a store in order: what they add names known criteria
//! where their arguments do.

use crate::certify::{after_certified, superseded};
use crate::cli::DependencyCriteriaArg;
use crate::commands::{audits_view, grouped, with_audits, with_exemptions, without_suggestible};
use crate::criteria::{known_name, lemma_named_minimal, minimal_names, Criterion};
use crate::format::{
    dependency_criteria_view, AuditEntry, AuditKind, AuditKindModel, AuditModel, CriteriaName,
    ExemptionModel, PackageName, UnauditedDependency,
};
use crate::minimize::{
    after_entries, after_records, fresh_exemption, lemma_record_found, record_of, regenerated,
    served, table_view, with_copies, with_entry, with_fresh, with_pending, with_record,
    ExemptionTable, Pending,
};
use crate::storage::{
    audit_known, audit_list_known, dependency_criteria_known, exemption_known,
    exemption_list_known, names_known,
};
use crate::table::{lemma_model_search, model_add, model_index};
use crate::text::views;
use crate::version::VersionModel;
use vstd::prelude::*;

verus! {

/// Every name of the list is that of a criterion.
pub open spec fn known_names(all: Seq<Criterion>, names: Seq<Seq<char>>) -> bool {
    forall|k: int| 0 <= k < names.len() ==> known_name(all, #[trigger] names[k])
}

/// Every criterion asked of a dependency is known.
pub open spec fn known_dependency_criteria(
    all: Seq<Criterion>,
    list: Seq<(Seq<char>, Seq<Seq<char>>)>,
) -> bool {
    forall|i: int| 0 <= i < list.len() ==> known_names(all, (#[trigger] list[i]).1)
}

/// Every criterion that the audit asks of a dependency is known.
pub open spec fn known_kind(all: Seq<Criterion>, kind: AuditKindModel) -> bool {
    match kind {
        AuditKindModel::Full { dependency_criteria, .. } => known_dependency_criteria(
            all,
            dependency_criteria,
        ),
        AuditKindModel::Delta { dependency_criteria, .. } => known_dependency_criteria(
            all,
            dependency_criteria,
        ),
        AuditKindModel::Violation { .. } => true,
    }
}

/// Every criterion that the audit names is known.
pub open spec fn known_audit(all: Seq<Criterion>, audit: AuditModel) -> bool {
    known_name(all, audit.criteria) && known_kind(all, audit.kind)
}

/// Every criterion that the exemption names is known.
pub open spec fn known_exemption(all: Seq<Criterion>, exemption: ExemptionModel) -> bool {
    known_name(all, exemption.criteria) && known_dependency_criteria(
        all,
        exemption.dependency_criteria,
    )
}

/// Every audit of the table names known criteria only.
pub open spec fn known_audits(all: Seq<Criterion>, table: Seq<(Seq<char>, Seq<AuditModel>)>) -> bool {
    forall|r: int, k: int|
        0 <= r < table.len() && 0 <= k < table[r].1.len() ==> known_audit(
            all,
            #[trigger] table[r].1[k],
        )
}

/// Every exemption of the table names known criteria only.
pub open spec fn known_exemptions(all: Seq<Criterion>, table: ExemptionTable) -> bool {
    forall|r: int, k: int|
        0 <= r < table.len() && 0 <= k < table[r].1.len() ==> known_exemption(
            all,
            #[trigger] table[r].1[k],
        )
}

/// Names are known where their contents are.
pub proof fn lemma_names_view(all: Seq<Criterion>, names: Seq<CriteriaName>)
    ensures
        names_known(all, names) == known_names(all, views(names)),
{
    let list = views(names);
    if names_known(all, names) {
        assert forall|k: int| 0 <= k < list.len() implies known_name(all, #[trigger] list[k]) by {
            assert(known_name(all, names[k]@));
        }
    }
    if known_names(all, list) {
        assert forall|k: int| 0 <= k < names.len() implies known_name(
            all,
            (#[trigger] names[k])@,
        ) by {
            assert(known_name(all, list[k]));
        }
    }
}

/// Dependency criteria are known where their contents are.
pub proof fn lemma_dependency_view(all: Seq<Criterion>, list: Seq<(PackageName, Vec<CriteriaName>)>)
    ensures
        dependency_criteria_known(all, list) == known_dependency_criteria(
            all,
            dependency_criteria_view(list),
        ),
{
    let view = dependency_criteria_view(list);
    assert forall|i: int| 0 <= i < list.len() implies names_known(all, list[i].1@) == known_names(
        all,
        view[i].1,
    ) by {
        lemma_names_view(all, list[i].1@);
    }
    if dependency_criteria_known(all, list) {
        assert forall|i: int| 0 <= i < view.len() implies known_names(
            all,
            (#[trigger] view[i]).1,
        ) by {
            assert(names_known(all, list[i].1@));
        }
    }
    if known_dependency_criteria(all, view) {
        assert forall|i: int| 0 <= i < list.len() implies names_known(
            all,
            (#[trigger] list[i]).1@,
        ) by {
            assert(known_names(all, view[i].1));
        }
    }
}

/// An audit names known criteria where its contents do.
pub proof fn lemma_audit_view(all: Seq<Criterion>, audit: AuditEntry)
    ensures
        audit_known(all, audit) == known_audit(all, audit@),
{
    match audit.kind {
        AuditKind::Full { dependency_criteria, .. } => {
            lemma_dependency_view(all, dependency_criteria@);
        },
        AuditKind::Delta { dependency_criteria, .. } => {
            lemma_dependency_view(all, dependency_criteria@);
        },
        AuditKind::Violation { .. } => {},
    }
}

/// An exemption names known criteria where its contents do.
pub proof fn lemma_exemption_view(all: Seq<Criterion>, exemption: UnauditedDependency)
    ensures
        exemption_known(all, exemption) == known_exemption(all, exemption@),
{
    lemma_dependency_view(all, exemption.dependency_criteria@);
}

/// The audits of a table name known criteria where their contents do.
pub proof fn lemma_audits_view(all: Seq<Criterion>, table: Seq<(PackageName, Vec<AuditEntry>)>)
    ensures
        (forall|i: int| 0 <= i < table.len() ==> audit_list_known(all, (#[trigger] table[i]).1@))
            == known_audits(all, audits_view(table)),
{
    let view = audits_view(table);
    assert forall|r: int, k: int| 0 <= r < table.len() && 0 <= k < table[r].1@.len() implies view[r].1[k]
        == table[r].1@[k]@ && audit_known(all, table[r].1@[k]) == known_audit(
        all,
        table[r].1@[k]@,
    ) by {
        lemma_audit_view(all, table[r].1@[k]);
    }
    if forall|i: int| 0 <= i < table.len() ==> audit_list_known(all, (#[trigger] table[i]).1@) {
        assert forall|r: int, k: int| 0 <= r < view.len() && 0 <= k < view[r].1.len() implies known_audit(
            all,
            #[trigger] view[r].1[k],
        ) by {
            assert(audit_list_known(all, table[r].1@));
            assert(audit_known(all, table[r].1@[k]));
        }
    }
    if known_audits(all, view) {
        assert forall|i: int| 0 <= i < table.len() implies audit_list_known(
            all,
            (#[trigger] table[i]).1@,
        ) by {
            assert forall|j: int| 0 <= j < table[i].1@.len() implies audit_known(
                all,
                #[trigger] table[i].1@[j],
            ) by {
                assert(known_audit(all, view[i].1[j]));
            }
        }
    }
}

/// The exemptions of a table name known criteria where their contents do.
pub proof fn lemma_exemptions_view(
    all: Seq<Criterion>,
    table: Seq<(PackageName, Vec<UnauditedDependency>)>,
)
    ensures
        (forall|i: int|
            0 <= i < table.len() ==> exemption_list_known(all, (#[trigger] table[i]).1@))
            == known_exemptions(all, table_view(table)),
{
    let view = table_view(table);
    assert forall|r: int, k: int| 0 <= r < table.len() && 0 <= k < table[r].1@.len() implies view[r].1[k]
        == table[r].1@[k]@ && exemption_known(all, table[r].1@[k]) == known_exemption(
        all,
        table[r].1@[k]@,
    ) by {
        lemma_exemption_view(all, table[r].1@[k]);
    }
    if forall|i: int| 0 <= i < table.len() ==> exemption_list_known(all, (#[trigger] table[i]).1@) {
        assert forall|r: int, k: int| 0 <= r < view.len() && 0 <= k < view[r].1.len() implies known_exemption(
            all,
            #[trigger] view[r].1[k],
        ) by {
            assert(exemption_list_known(all, table[r].1@));
            assert(exemption_known(all, table[r].1@[k]));
        }
    }
    if known_exemptions(all, view) {
        assert forall|i: int| 0 <= i < table.len() implies exemption_list_known(
            all,
            (#[trigger] table[i]).1@,
        ) by {
            assert forall|j: int| 0 <= j < table[i].1@.len() implies exemption_known(
                all,
                #[trigger] table[i].1@[j],
            ) by {
                assert(known_exemption(all, view[i].1[j]));
            }
        }
    }
}

/// Audits that name known criteria, added to a table of such audits, leave
/// a table of such audits.
pub proof fn lemma_audits_stay_known(
    all: Seq<Criterion>,
    table: Seq<(Seq<char>, Seq<AuditModel>)>,
    package: Seq<char>,
    kind: AuditKindModel,
    who: Option<Seq<char>>,
    notes: Option<Seq<char>>,
    criteria: Seq<Seq<char>>,
    upto: int,
)
    requires
        known_audits(all, table),
        known_names(all, criteria),
        known_kind(all, kind),
        upto <= criteria.len(),
    ensures
        known_audits(all, with_audits(table, package, kind, who, notes, criteria, upto)),
    decreases upto,
{
    if upto > 0 {
        lemma_audits_stay_known(all, table, package, kind, who, notes, criteria, upto - 1);
        let before = with_audits(table, package, kind, who, notes, criteria, upto - 1);
        let audit = AuditModel { who, notes, criteria: criteria[upto - 1], kind };
        let after = model_add(before, package, audit);
        lemma_model_search(before, package, 0);
        let at = model_index(before, package, 0);
        assert forall|r: int, k: int| 0 <= r < after.len() && 0 <= k < after[r].1.len() implies known_audit(
            all,
            #[trigger] after[r].1[k],
        ) by {
            if at < before.len() {
                if r == at {
                    if k < before[r].1.len() {
                        assert(after[r].1[k] == before[r].1[k]);
                    }
                } else {
                    assert(after[r].1[k] == before[r].1[k]);
                }
            } else if r < before.len() {
                assert(after[r].1[k] == before[r].1[k]);
            }
        }
    }
}

/// An exemption that names known criteria, added to a table of such
/// exemptions, leaves a table of such exemptions.
pub proof fn lemma_exemption_stays_known(
    all: Seq<Criterion>,
    table: ExemptionTable,
    package: Seq<char>,
    entry: ExemptionModel,
)
    requires
        known_exemptions(all, table),
        known_exemption(all, entry),
    ensures
        known_exemptions(all, with_entry(table, package, entry)),
{
    let after = with_entry(table, package, entry);
    let at = record_of(table, package, 0);
    if at < table.len() {
        lemma_record_found(table, package, 0);
    }
    assert forall|r: int, k: int| 0 <= r < after.len() && 0 <= k < after[r].1.len() implies known_exemption(
        all,
        #[trigger] after[r].1[k],
    ) by {
        if at < table.len() {
            if r == at {
                if k < table[r].1.len() {
                    assert(after[r].1[k] == table[r].1[k]);
                }
            } else {
                assert(after[r].1[k] == table[r].1[k]);
            }
        } else if r < table.len() {
            assert(after[r].1[k] == table[r].1[k]);
        }
    }
}

/// Exemptions that name known criteria, added to a table of such
/// exemptions, leave a table of such exemptions.
pub proof fn lemma_exemptions_stay_known(
    all: Seq<Criterion>,
    table: ExemptionTable,
    package: Seq<char>,
    version: VersionModel,
    dependency_criteria: Seq<(Seq<char>, Seq<Seq<char>>)>,
    notes: Option<Seq<char>>,
    suggest: bool,
    criteria: Seq<Seq<char>>,
    upto: int,
)
    requires
        known_exemptions(all, table),
        known_names(all, criteria),
        known_dependency_criteria(all, dependency_criteria),
        upto <= criteria.len(),
    ensures
        known_exemptions(
            all,
            with_exemptions(
                table,
                package,
                version,
                dependency_criteria,
                notes,
                suggest,
                criteria,
                upto,
            ),
        ),
    decreases upto,
{
    if upto > 0 {
        lemma_exemptions_stay_known(
            all,
            table,
            package,
            version,
            dependency_criteria,
            notes,
            suggest,
            criteria,
            upto - 1,
        );
        lemma_exemption_stays_known(
            all,
            with_exemptions(
                table,
                package,
                version,
                dependency_criteria,
                notes,
                suggest,
                criteria,
                upto - 1,
            ),
            package,
            ExemptionModel {
                version,
                criteria: criteria[upto - 1],
                dependency_criteria,
                notes,
                suggest,
            },
        );
    }
}

/// Taking away what an audit supersedes leaves exemptions that name known
/// criteria only, where the table held no others.
pub proof fn lemma_certified_stays_known(
    all: Seq<Criterion>,
    known: Seq<Criterion>,
    edges: Seq<Seq<usize>>,
    table: ExemptionTable,
    package: Seq<char>,
    kind: AuditKindModel,
    criteria: Seq<Seq<char>>,
)
    requires
        known_exemptions(known, table),
    ensures
        known_exemptions(known, after_certified(all, edges, table, package, kind, criteria)),
{
    let after = after_certified(all, edges, table, package, kind, criteria);
    match kind {
        AuditKindModel::Full { version, .. } => {
            let at = record_of(table, package, 0);
            if criteria.len() != 0 && at < table.len() {
                lemma_record_found(table, package, 0);
                let pred = |e: ExemptionModel| !superseded(all, edges, criteria, version, e);
                let kept = table[at].1.filter(pred);
                table[at].1.filter_lemma(pred);
                assert forall|r: int, k: int|
                    0 <= r < after.len() && 0 <= k < after[r].1.len() implies known_exemption(
                    known,
                    #[trigger] after[r].1[k],
                ) by {
                    if kept.len() == 0 {
                        let old_r = if r < at {
                            r
                        } else {
                            r + 1
                        };
                        assert(after[r] == table[old_r]);
                        assert(after[r].1[k] == table[old_r].1[k]);
                    } else if r == at {
                        assert(after[r].1 == kept);
                        assert(kept.contains(kept[k]));
                        table[at].1.lemma_filter_contains_rev(pred, kept[k]);
                        assert(table[at].1.contains(kept[k]));
                        let j = choose|j: int| 0 <= j < table[at].1.len() && table[at].1[j] == kept[k];
                        assert(known_exemption(known, table[at].1[j]));
                    } else {
                        assert(after[r].1[k] == table[r].1[k]);
                    }
                }
            }
        },
        _ => {},
    }
}

/// The dependency criteria that arguments give name known criteria where
/// the arguments do.
pub proof fn lemma_grouped_known(all: Seq<Criterion>, args: Seq<DependencyCriteriaArg>, upto: int)
    requires
        upto <= args.len(),
        forall|i: int| 0 <= i < args.len() ==> known_name(all, (#[trigger] args[i]).criteria@),
    ensures
        known_dependency_criteria(all, grouped(args, upto)),
    decreases upto,
{
    if upto > 0 {
        lemma_grouped_known(all, args, upto - 1);
        let before = grouped(args, upto - 1);
        let name = args[upto - 1].dependency@;
        let item = args[upto - 1].criteria@;
        let after = with_entry(before, name, item);
        let at = record_of(before, name, 0);
        if at < before.len() {
            lemma_record_found(before, name, 0);
        }
        assert(known_name(all, item));
        assert forall|i: int| 0 <= i < after.len() implies known_names(
            all,
            (#[trigger] after[i]).1,
        ) by {
            if i < before.len() {
                assert(known_names(all, before[i].1));
            }
            assert forall|k: int| 0 <= k < after[i].1.len() implies known_name(
                all,
                #[trigger] after[i].1[k],
            ) by {
                if at < before.len() {
                    if i == at {
                        if k < before[i].1.len() {
                            assert(after[i].1[k] == before[i].1[k]);
                        }
                    } else {
                        assert(after[i].1[k] == before[i].1[k]);
                    }
                } else if i < before.len() {
                    assert(after[i].1[k] == before[i].1[k]);
                }
            }
        }
    }
}

proof fn lemma_record_stays_known(all: Seq<Criterion>, table: ExemptionTable, record: Seq<char>)
    requires
        known_exemptions(all, table),
    ensures
        known_exemptions(all, with_record(table, record)),
{
    let after = with_record(table, record);
    assert forall|r: int, k: int| 0 <= r < after.len() && 0 <= k < after[r].1.len() implies known_exemption(
        all,
        #[trigger] after[r].1[k],
    ) by {
        if r < table.len() {
            assert(after[r].1[k] == table[r].1[k]);
        }
    }
}

proof fn lemma_copies_stay_known(
    all: Seq<Criterion>,
    table: ExemptionTable,
    record: Seq<char>,
    entry: ExemptionModel,
    count: nat,
)
    requires
        known_exemptions(all, table),
        known_exemption(all, entry),
    ensures
        known_exemptions(all, with_copies(table, record, entry, count)),
    decreases count,
{
    if count > 0 {
        lemma_copies_stay_known(all, table, record, entry, (count - 1) as nat);
        lemma_exemption_stays_known(
            all,
            with_copies(table, record, entry, (count - 1) as nat),
            record,
            entry,
        );
    }
}

proof fn lemma_entries_stay_known(
    all: Seq<Criterion>,
    edges: Seq<Seq<usize>>,
    table: ExemptionTable,
    pending: Seq<Pending>,
    record: Seq<char>,
    entries: Seq<ExemptionModel>,
    upto: int,
)
    requires
        known_exemptions(all, table),
        upto <= entries.len(),
        forall|k: int| 0 <= k < entries.len() ==> known_exemption(all, #[trigger] entries[k]),
    ensures
        known_exemptions(
            all,
            after_entries(all, edges, table, pending, record, entries, upto).0,
        ),
    decreases upto,
{
    if upto > 0 {
        lemma_entries_stay_known(all, edges, table, pending, record, entries, upto - 1);
        let (t, p) = after_entries(all, edges, table, pending, record, entries, upto - 1);
        let entry = entries[upto - 1];
        let count = served(all, edges, p, record, entry, p.len() as int);
        lemma_copies_stay_known(all, t, record, entry, count);
        lemma_record_stays_known(all, with_copies(t, record, entry, count), record);
    }
}

proof fn lemma_records_stay_known(
    all: Seq<Criterion>,
    edges: Seq<Seq<usize>>,
    old_table: ExemptionTable,
    pending: Seq<Pending>,
    upto: int,
)
    requires
        known_exemptions(all, old_table),
        upto <= old_table.len(),
    ensures
        known_exemptions(all, after_records(all, edges, old_table, pending, upto).0),
    decreases upto,
{
    if upto > 0 {
        lemma_records_stay_known(all, edges, old_table, pending, upto - 1);
        let (t, p) = after_records(all, edges, old_table, pending, upto - 1);
        let entries = old_table[upto - 1].1;
        assert forall|k: int| 0 <= k < entries.len() implies known_exemption(
            all,
            #[trigger] entries[k],
        ) by {
            assert(known_exemption(all, old_table[upto - 1].1[k]));
        }
        lemma_entries_stay_known(
            all,
            edges,
            t,
            p,
            old_table[upto - 1].0,
            entries,
            entries.len() as int,
        );
    }
}

proof fn lemma_fresh_stay_known(
    all: Seq<Criterion>,
    edges: Seq<Seq<usize>>,
    table: ExemptionTable,
    name: Seq<char>,
    version: VersionModel,
    set: Set<int>,
    upto: int,
)
    requires
        known_exemptions(all, table),
        upto <= minimal_names(all, edges, set).len(),
    ensures
        known_exemptions(
            all,
            with_fresh(table, name, version, minimal_names(all, edges, set), upto),
        ),
    decreases upto,
{
    if upto > 0 {
        let names = minimal_names(all, edges, set);
        lemma_fresh_stay_known(all, edges, table, name, version, set, upto - 1);
        lemma_named_minimal(all, edges, set, upto - 1);
        let entry = fresh_exemption(version, names[upto - 1]);
        assert(known_name(all, entry.criteria));
        lemma_exemption_stays_known(
            all,
            with_fresh(table, name, version, names, upto - 1),
            name,
            entry,
        );
    }
}

proof fn lemma_pending_stay_known(
    all: Seq<Criterion>,
    edges: Seq<Seq<usize>>,
    table: ExemptionTable,
    pending: Seq<Pending>,
    upto: int,
)
    requires
        known_exemptions(all, table),
        upto <= pending.len(),
    ensures
        known_exemptions(all, with_pending(all, edges, table, pending, upto)),
    decreases upto,
{
    if upto > 0 {
        lemma_pending_stay_known(all, edges, table, pending, upto - 1);
        let names = minimal_names(all, edges, pending[upto - 1].criteria);
        lemma_fresh_stay_known(
            all,
            edges,
            with_pending(all, edges, table, pending, upto - 1),
            pending[upto - 1].name,
            pending[upto - 1].version,
            pending[upto - 1].criteria,
            names.len() as int,
        );
    }
}

/// The regenerated exemptions name known criteria only, where the old
/// exemptions did.
pub proof fn lemma_regenerated_known(
    all: Seq<Criterion>,
    edges: Seq<Seq<usize>>,
    old_table: ExemptionTable,
    pending: Seq<Pending>,
)
    requires
        known_exemptions(all, old_table),
    ensures
        known_exemptions(all, regenerated(all, edges, old_table, pending)),
{
    lemma_records_stay_known(all, edges, old_table, pending, old_table.len() as int);
    let (table, left) = after_records(all, edges, old_table, pending, old_table.len() as int);
    lemma_pending_stay_known(all, edges, table, left, left.len() as int);
}

/// The exemptions that are not open to suggestions name known criteria
/// only, where all exemptions did.
pub proof fn lemma_fixed_known(all: Seq<Criterion>, table: ExemptionTable)
    requires
        known_exemptions(all, table),
    ensures
        known_exemptions(all, without_suggestible(table)),
{
    let after = without_suggestible(table);
    assert forall|r: int, k: int| 0 <= r < after.len() && 0 <= k < after[r].1.len() implies known_exemption(
        all,
        #[trigger] after[r].1[k],
    ) by {
        let pred = |e: ExemptionModel| !e.suggest;
        let kept = table[r].1.filter(pred);
        assert(after[r].1 == kept);
        assert(kept.contains(kept[k]));
        table[r].1.lemma_filter_contains_rev(pred, kept[k]);
        let j = choose|j: int| 0 <= j < table[r].1.len() && table[r].1[j] == kept[k];
        assert(known_exemption(all, table[r].1[j]));
    }
}

} // verus!
