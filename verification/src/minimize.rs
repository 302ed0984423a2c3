//! Regenerating the exemptions: the exemptions that the suggestions call
//! for, with the old entries kept where they still serve.

use crate::claims::exemption_views;
use crate::criteria::{cleared, minimal_names, CriteriaMapper, Criterion};
use crate::criteria_set::CriteriaSet;
use crate::format::{ExemptionModel, PackageName, UnauditedDependency};
use crate::graph::{DepGraph, NodeModel};
use crate::suggest::SuggestItem;
use crate::table::{distinct_keys, single_records};
use crate::text::{str_eq, views};
use crate::version::{Version, VersionModel};
use vstd::prelude::*;

verus! {

/// A table of exemptions as a mathematical value: for each package its
/// exemptions, the packages in the order in which they were entered.
pub type ExemptionTable = Seq<(Seq<char>, Seq<ExemptionModel>)>;

/// A table of exemptions as a mathematical value.
pub open spec fn table_view(table: Seq<(PackageName, Vec<UnauditedDependency>)>) -> ExemptionTable {
    Seq::new(table.len(), |i: int| (table[i].0@, exemption_views(table[i].1@)))
}

/// The place of the first record of `name`, or the length of the table.
pub open spec fn record_of<T>(table: Seq<(Seq<char>, Seq<T>)>, name: Seq<char>, from: int) -> int
    decreases table.len() - from,
{
    if from < 0 || from >= table.len() {
        table.len() as int
    } else if table[from].0 == name {
        from
    } else {
        record_of(table, name, from + 1)
    }
}

/// The table with a record for `name`, empty where it is new.
pub open spec fn with_record<T>(table: Seq<(Seq<char>, Seq<T>)>, name: Seq<char>) -> Seq<
    (Seq<char>, Seq<T>),
> {
    if record_of(table, name, 0) < table.len() {
        table
    } else {
        table.push((name, Seq::empty()))
    }
}

/// The table with `entry` added to the record of `name`.
pub open spec fn with_entry<T>(table: Seq<(Seq<char>, Seq<T>)>, name: Seq<char>, entry: T) -> Seq<
    (Seq<char>, Seq<T>),
> {
    let at = record_of(table, name, 0);
    if at < table.len() {
        table.update(at, (name, table[at].1.push(entry)))
    } else {
        table.push((name, seq![entry]))
    }
}

/// The table with `entry` added `count` times to the record of `name`.
pub open spec fn with_copies(
    table: ExemptionTable,
    name: Seq<char>,
    entry: ExemptionModel,
    count: nat,
) -> ExemptionTable
    decreases count,
{
    if count == 0 {
        table
    } else {
        with_entry(with_copies(table, name, entry, (count - 1) as nat), name, entry)
    }
}

/// What is left to suggest for one package version.
pub struct Pending {
    pub name: Seq<char>,
    pub version: VersionModel,
    pub criteria: Set<int>,
}

/// An old exemption of the package `record` still serves a pending
/// suggestion: it is for the same package and version, and its criterion is
/// one of those that stand for what is pending.
pub open spec fn serves(
    all: Seq<Criterion>,
    edges: Seq<Seq<usize>>,
    pending: Pending,
    record: Seq<char>,
    entry: ExemptionModel,
) -> bool {
    pending.name == record && pending.version == entry.version && minimal_names(
        all,
        edges,
        pending.criteria,
    ).contains(entry.criteria)
}

/// What is pending once an old exemption has been looked at: where it
/// serves a suggestion, its criterion and what that implies are no longer
/// pending there.
pub open spec fn after_entry(
    all: Seq<Criterion>,
    edges: Seq<Seq<usize>>,
    pending: Seq<Pending>,
    record: Seq<char>,
    entry: ExemptionModel,
) -> Seq<Pending> {
    Seq::new(
        pending.len(),
        |s: int|
            if serves(all, edges, pending[s], record, entry) {
                Pending {
                    name: pending[s].name,
                    version: pending[s].version,
                    criteria: cleared(all, edges, pending[s].criteria, entry.criteria),
                }
            } else {
                pending[s]
            },
    )
}

/// The number of the first `upto` suggestions that an old exemption serves.
pub open spec fn served(
    all: Seq<Criterion>,
    edges: Seq<Seq<usize>>,
    pending: Seq<Pending>,
    record: Seq<char>,
    entry: ExemptionModel,
    upto: int,
) -> nat
    decreases upto,
{
    if upto <= 0 {
        0
    } else {
        served(all, edges, pending, record, entry, upto - 1) + if serves(
            all,
            edges,
            pending[upto - 1],
            record,
            entry,
        ) {
            1nat
        } else {
            0nat
        }
    }
}

/// Something is still pending for the package `record`.
pub open spec fn still_pending(pending: Seq<Pending>, record: Seq<char>) -> bool {
    exists|s: int|
        0 <= s < pending.len() && (#[trigger] pending[s]).name == record && pending[s].criteria
            != Set::<int>::empty()
}

/// The new table once an old exemption has been looked at: the exemption is
/// kept once for each suggestion it serves, and the package keeps its place
/// in the table while something is pending for it.
pub open spec fn table_after_entry(
    all: Seq<Criterion>,
    edges: Seq<Seq<usize>>,
    table: ExemptionTable,
    pending: Seq<Pending>,
    record: Seq<char>,
    entry: ExemptionModel,
) -> ExemptionTable {
    let kept = with_copies(
        table,
        record,
        entry,
        served(all, edges, pending, record, entry, pending.len() as int),
    );
    if still_pending(after_entry(all, edges, pending, record, entry), record) {
        with_record(kept, record)
    } else {
        kept
    }
}

/// The table and what is pending once the first `upto` old exemptions of a
/// package have been looked at, in their order.
pub open spec fn after_entries(
    all: Seq<Criterion>,
    edges: Seq<Seq<usize>>,
    table: ExemptionTable,
    pending: Seq<Pending>,
    record: Seq<char>,
    entries: Seq<ExemptionModel>,
    upto: int,
) -> (ExemptionTable, Seq<Pending>)
    decreases upto,
{
    if upto <= 0 {
        (table, pending)
    } else {
        let (t, p) = after_entries(all, edges, table, pending, record, entries, upto - 1);
        (
            table_after_entry(all, edges, t, p, record, entries[upto - 1]),
            after_entry(all, edges, p, record, entries[upto - 1]),
        )
    }
}

/// The table and what is pending once the first `upto` packages of the old
/// table have been looked at.
pub open spec fn after_records(
    all: Seq<Criterion>,
    edges: Seq<Seq<usize>>,
    old_table: ExemptionTable,
    pending: Seq<Pending>,
    upto: int,
) -> (ExemptionTable, Seq<Pending>)
    decreases upto,
{
    if upto <= 0 {
        (Seq::empty(), pending)
    } else {
        let (t, p) = after_records(all, edges, old_table, pending, upto - 1);
        after_entries(
            all,
            edges,
            t,
            p,
            old_table[upto - 1].0,
            old_table[upto - 1].1,
            old_table[upto - 1].1.len() as int,
        )
    }
}

/// A new exemption: for one version and one criterion, open to being
/// replaced by a suggestion again.
pub open spec fn fresh_exemption(version: VersionModel, criteria: Seq<char>) -> ExemptionModel {
    ExemptionModel {
        version,
        criteria,
        dependency_criteria: Seq::empty(),
        notes: None,
        suggest: true,
    }
}

/// The table with a new exemption of `version` for each of the first `upto`
/// names.
pub open spec fn with_fresh(
    table: ExemptionTable,
    name: Seq<char>,
    version: VersionModel,
    criteria: Seq<Seq<char>>,
    upto: int,
) -> ExemptionTable
    decreases upto,
{
    if upto <= 0 {
        table
    } else {
        with_entry(
            with_fresh(table, name, version, criteria, upto - 1),
            name,
            fresh_exemption(version, criteria[upto - 1]),
        )
    }
}

/// The table with new exemptions for what is pending in the first `upto`
/// suggestions: one for each name that stands for what is pending.
pub open spec fn with_pending(
    all: Seq<Criterion>,
    edges: Seq<Seq<usize>>,
    table: ExemptionTable,
    pending: Seq<Pending>,
    upto: int,
) -> ExemptionTable
    decreases upto,
{
    if upto <= 0 {
        table
    } else {
        let names = minimal_names(all, edges, pending[upto - 1].criteria);
        with_fresh(
            with_pending(all, edges, table, pending, upto - 1),
            pending[upto - 1].name,
            pending[upto - 1].version,
            names,
            names.len() as int,
        )
    }
}

/// The regenerated exemptions: the old exemptions that still serve a
/// suggestion, in their old order, then new exemptions for what they leave
/// pending.
pub open spec fn regenerated(
    all: Seq<Criterion>,
    edges: Seq<Seq<usize>>,
    old_table: ExemptionTable,
    pending: Seq<Pending>,
) -> ExemptionTable {
    let (table, left) = after_records(all, edges, old_table, pending, old_table.len() as int);
    with_pending(all, edges, table, left, left.len() as int)
}

/// What is pending of the suggestions: for each, its package and version,
/// and the criteria that are left of it.
pub open spec fn pending_with(
    graph: Seq<NodeModel>,
    items: Seq<SuggestItem>,
    left: Seq<CriteriaSet>,
) -> Seq<Pending> {
    Seq::new(
        items.len(),
        |s: int|
            Pending {
                name: graph[items[s].package as int].name,
                version: items[s].suggested_diff.to@,
                criteria: left[s]@,
            },
    )
}

/// The criteria of the suggestions.
pub open spec fn suggested(items: Seq<SuggestItem>) -> Seq<CriteriaSet> {
    Seq::new(items.len(), |s: int| items[s].suggested_criteria)
}

/// What the suggestions leave pending at the start.
pub open spec fn pending_of(graph: Seq<NodeModel>, items: Seq<SuggestItem>) -> Seq<Pending> {
    pending_with(graph, items, suggested(items))
}

/// Every suggestion is for a node of the graph.
pub open spec fn items_in_graph(graph: Seq<NodeModel>, items: Seq<SuggestItem>) -> bool {
    forall|s: int| 0 <= s < items.len() ==> (#[trigger] items[s]).package < graph.len()
}

/// The place of the first record of `name`, or the length of the table.
pub fn find_record(table: &Vec<(PackageName, Vec<UnauditedDependency>)>, name: &str) -> (at: usize)
    ensures
        at == record_of(table_view(table@), name@, 0),
        at <= table@.len(),
{
    let ghost view = table_view(table@);
    let mut i: usize = 0;
    while i < table.len()
        invariant
            i <= table@.len(),
            view == table_view(table@),
            record_of(view, name@, 0) == record_of(view, name@, i as int),
        decreases table@.len() - i,
    {
        assert(view[i as int].0 == table@[i as int].0@);
        if str_eq(table[i].0.as_str(), name) {
            return i;
        }
        i += 1;
    }
    i
}

/// Makes sure that the table has a record for `name`.
fn ensure_record(table: &mut Vec<(PackageName, Vec<UnauditedDependency>)>, name: &str)
    ensures
        table_view(final(table)@) == with_record(table_view(old(table)@), name@),
{
    let at = find_record(table, name);
    if at == table.len() {
        let ghost before = table_view(table@);
        let entries: Vec<UnauditedDependency> = Vec::new();
        assert(exemption_views(entries@) =~= Seq::<ExemptionModel>::empty());
        table.push((name.to_owned(), entries));
        assert(table_view(table@) =~= before.push((name@, Seq::empty())));
    }
}

/// A table has two records for a package where its value has two for a
/// name.
pub proof fn lemma_table_single(table: Seq<(PackageName, Vec<UnauditedDependency>)>)
    ensures
        distinct_keys(table) == single_records(table_view(table)),
{
    let view = table_view(table);
    if distinct_keys(table) {
        assert forall|i: int, j: int| 0 <= i < j < view.len() implies (#[trigger] view[i]).0 != (
        #[trigger] view[j]).0 by {
            assert(table[i].0@ != table[j].0@);
        }
    }
    if single_records(view) {
        assert forall|i: int, j: int| 0 <= i < j < table.len() implies (#[trigger] table[i]).0@
            != (#[trigger] table[j]).0@ by {
            assert(view[i].0 != view[j].0);
        }
    }
}

/// Where the search for a record ends at the end of the table, no record
/// from `from` on is of the name.
pub proof fn lemma_record_missing<T>(table: Seq<(Seq<char>, Seq<T>)>, name: Seq<char>, from: int)
    requires
        0 <= from,
        record_of(table, name, from) >= table.len(),
    ensures
        forall|j: int| from <= j < table.len() ==> (#[trigger] table[j]).0 != name,
    decreases table.len() - from,
{
    if from < table.len() {
        lemma_record_missing(table, name, from + 1);
    }
}

/// A record added for a name gives no name a second record.
pub proof fn lemma_with_record_single<T>(table: Seq<(Seq<char>, Seq<T>)>, name: Seq<char>)
    requires
        single_records(table),
    ensures
        single_records(with_record(table, name)),
{
    let after = with_record(table, name);
    if record_of(table, name, 0) >= table.len() {
        lemma_record_missing(table, name, 0);
        assert forall|i: int, j: int| 0 <= i < j < after.len() implies (#[trigger] after[i]).0 != (
        #[trigger] after[j]).0 by {
            if j < table.len() {
                assert(table[i].0 != table[j].0);
            } else {
                assert(table[i].0 != name);
            }
        }
    }
}

/// An entry added for a name gives no name a second record.
pub proof fn lemma_with_entry_single<T>(table: Seq<(Seq<char>, Seq<T>)>, name: Seq<char>, entry: T)
    requires
        single_records(table),
    ensures
        single_records(with_entry(table, name, entry)),
{
    let after = with_entry(table, name, entry);
    let at = record_of(table, name, 0);
    if at < table.len() {
        lemma_record_found(table, name, 0);
        assert forall|i: int, j: int| 0 <= i < j < after.len() implies (#[trigger] after[i]).0 != (
        #[trigger] after[j]).0 by {
            assert(after[i].0 == table[i].0);
            assert(after[j].0 == table[j].0);
        }
    } else {
        lemma_record_missing(table, name, 0);
        assert forall|i: int, j: int| 0 <= i < j < after.len() implies (#[trigger] after[i]).0 != (
        #[trigger] after[j]).0 by {
            if j < table.len() {
                assert(table[i].0 != table[j].0);
            } else {
                assert(table[i].0 != name);
            }
        }
    }
}

proof fn lemma_copies_single(
    table: ExemptionTable,
    name: Seq<char>,
    entry: ExemptionModel,
    count: nat,
)
    requires
        single_records(table),
    ensures
        single_records(with_copies(table, name, entry, count)),
    decreases count,
{
    if count > 0 {
        lemma_copies_single(table, name, entry, (count - 1) as nat);
        lemma_with_entry_single(
            with_copies(table, name, entry, (count - 1) as nat),
            name,
            entry,
        );
    }
}

proof fn lemma_entries_single(
    all: Seq<Criterion>,
    edges: Seq<Seq<usize>>,
    table: ExemptionTable,
    pending: Seq<Pending>,
    record: Seq<char>,
    entries: Seq<ExemptionModel>,
    upto: int,
)
    requires
        single_records(table),
    ensures
        single_records(after_entries(all, edges, table, pending, record, entries, upto).0),
    decreases upto,
{
    if upto > 0 {
        lemma_entries_single(all, edges, table, pending, record, entries, upto - 1);
        let (t, p) = after_entries(all, edges, table, pending, record, entries, upto - 1);
        let entry = entries[upto - 1];
        let count = served(all, edges, p, record, entry, p.len() as int);
        lemma_copies_single(t, record, entry, count);
        lemma_with_record_single(with_copies(t, record, entry, count), record);
    }
}

proof fn lemma_records_single(
    all: Seq<Criterion>,
    edges: Seq<Seq<usize>>,
    old_table: ExemptionTable,
    pending: Seq<Pending>,
    upto: int,
)
    ensures
        single_records(after_records(all, edges, old_table, pending, upto).0),
    decreases upto,
{
    if upto > 0 {
        lemma_records_single(all, edges, old_table, pending, upto - 1);
        let (t, p) = after_records(all, edges, old_table, pending, upto - 1);
        lemma_entries_single(
            all,
            edges,
            t,
            p,
            old_table[upto - 1].0,
            old_table[upto - 1].1,
            old_table[upto - 1].1.len() as int,
        );
    }
}

proof fn lemma_fresh_single(
    table: ExemptionTable,
    name: Seq<char>,
    version: VersionModel,
    criteria: Seq<Seq<char>>,
    upto: int,
)
    requires
        single_records(table),
    ensures
        single_records(with_fresh(table, name, version, criteria, upto)),
    decreases upto,
{
    if upto > 0 {
        lemma_fresh_single(table, name, version, criteria, upto - 1);
        lemma_with_entry_single(
            with_fresh(table, name, version, criteria, upto - 1),
            name,
            fresh_exemption(version, criteria[upto - 1]),
        );
    }
}

proof fn lemma_pending_single(
    all: Seq<Criterion>,
    edges: Seq<Seq<usize>>,
    table: ExemptionTable,
    pending: Seq<Pending>,
    upto: int,
)
    requires
        single_records(table),
    ensures
        single_records(with_pending(all, edges, table, pending, upto)),
    decreases upto,
{
    if upto > 0 {
        lemma_pending_single(all, edges, table, pending, upto - 1);
        let names = minimal_names(all, edges, pending[upto - 1].criteria);
        lemma_fresh_single(
            with_pending(all, edges, table, pending, upto - 1),
            pending[upto - 1].name,
            pending[upto - 1].version,
            names,
            names.len() as int,
        );
    }
}

/// In the regenerated exemptions no package has two records, whatever the
/// old table held.
pub proof fn lemma_regenerated_single(
    all: Seq<Criterion>,
    edges: Seq<Seq<usize>>,
    old_table: ExemptionTable,
    pending: Seq<Pending>,
)
    ensures
        single_records(regenerated(all, edges, old_table, pending)),
{
    lemma_records_single(all, edges, old_table, pending, old_table.len() as int);
    let (table, left) = after_records(all, edges, old_table, pending, old_table.len() as int);
    lemma_pending_single(all, edges, table, left, left.len() as int);
}

/// Adds `entry` to the record of `name`. No package gets a second record.
pub fn push_entry(
    table: &mut Vec<(PackageName, Vec<UnauditedDependency>)>,
    name: &str,
    entry: UnauditedDependency,
)
    ensures
        table_view(final(table)@) == with_entry(table_view(old(table)@), name@, entry@),
        distinct_keys(old(table)@) ==> distinct_keys(final(table)@),
{
    proof {
        lemma_table_single(table@);
        if distinct_keys(table@) {
            lemma_with_entry_single(table_view(table@), name@, entry@);
        }
    }
    let at = find_record(table, name);
    let ghost before = table_view(table@);
    if at == table.len() {
        let mut entries: Vec<UnauditedDependency> = Vec::new();
        entries.push(entry);
        assert(exemption_views(entries@) =~= seq![entry@]);
        table.push((name.to_owned(), entries));
        assert(table_view(table@) =~= before.push((name@, seq![entry@])));
    } else {
        proof {
            lemma_record_found(before, name@, 0);
        }
        let ghost old_table = table@;
        let mut record = table.remove(at);
        let ghost old_entries = exemption_views(record.1@);
        assert(before[at as int] == (record.0@, old_entries));
        record.1.push(entry);
        assert(exemption_views(record.1@) =~= old_entries.push(entry@));
        table.insert(at, record);
        assert(table@ =~= old_table.update(at as int, record));
        assert(table_view(table@) =~= before.update(at as int, (name@, old_entries.push(entry@))));
    }
    proof {
        lemma_table_single(table@);
    }
}

/// Where the search for a record ends inside the table, it ends at a record
/// of the name.
pub proof fn lemma_record_found<T>(table: Seq<(Seq<char>, Seq<T>)>, name: Seq<char>, from: int)
    requires
        0 <= from,
        record_of(table, name, from) < table.len(),
    ensures
        from <= record_of(table, name, from),
        table[record_of(table, name, from)].0 == name,
    decreases table.len() - from,
{
    if from < table.len() && table[from].0 != name {
        lemma_record_found(table, name, from + 1);
    }
}

/// Whether `name` is one of `names`.
fn name_listed(names: &Vec<String>, name: &str) -> (found: bool)
    ensures
        found == views(names@).contains(name@),
{
    let mut k: usize = 0;
    while k < names.len()
        invariant
            k <= names@.len(),
            forall|j: int| 0 <= j < k ==> views(names@)[j] != name@,
        decreases names@.len() - k,
    {
        if str_eq(names[k].as_str(), name) {
            assert(views(names@)[k as int] == name@);
            return true;
        }
        k += 1;
    }
    false
}

/// Whether something is still pending for the package `record`.
fn something_pending(
    graph: &DepGraph,
    items: &Vec<SuggestItem>,
    left: &Vec<CriteriaSet>,
    record: &str,
) -> (found: bool)
    requires
        items_in_graph(graph@, items@),
        left@.len() == items@.len(),
    ensures
        found == still_pending(pending_with(graph@, items@, left@), record@),
{
    let ghost pending = pending_with(graph@, items@, left@);
    let mut s: usize = 0;
    while s < items.len()
        invariant
            s <= items@.len(),
            items_in_graph(graph@, items@),
            left@.len() == items@.len(),
            pending == pending_with(graph@, items@, left@),
            forall|x: int|
                0 <= x < s ==> !((#[trigger] pending[x]).name == record@ && pending[x].criteria
                    != Set::<int>::empty()),
        decreases items@.len() - s,
    {
        let node = items[s].package;
        assert(graph@[node as int] == graph.nodes@[node as int]@);
        if str_eq(graph.nodes[node].name.as_str(), record) && !left[s].is_empty() {
            assert(pending[s as int].name == record@);
            return true;
        }
        s += 1;
    }
    false
}

/// Looks at one old exemption of the package `record`: keeps it once for
/// each suggestion it serves, and takes its criterion out of what is
/// pending there.
fn look_at_entry(
    graph: &DepGraph,
    mapper: &CriteriaMapper,
    items: &Vec<SuggestItem>,
    table: &mut Vec<(PackageName, Vec<UnauditedDependency>)>,
    left: &mut Vec<CriteriaSet>,
    record: &str,
    entry: &UnauditedDependency,
)
    requires
        mapper.wf(),
        items_in_graph(graph@, items@),
        old(left)@.len() == items@.len(),
    ensures
        final(left)@.len() == items@.len(),
        table_view(final(table)@) == table_after_entry(
            mapper.model(),
            mapper.edges(),
            table_view(old(table)@),
            pending_with(graph@, items@, old(left)@),
            record@,
            entry@,
        ),
        pending_with(graph@, items@, final(left)@) == after_entry(
            mapper.model(),
            mapper.edges(),
            pending_with(graph@, items@, old(left)@),
            record@,
            entry@,
        ),
{
    let ghost all = mapper.model();
    let ghost edges = mapper.edges();
    let ghost table0 = table_view(table@);
    let ghost pending0 = pending_with(graph@, items@, left@);
    let ghost target = after_entry(all, edges, pending0, record@, entry@);
    let mut s: usize = 0;
    while s < items.len()
        invariant
            s <= items@.len(),
            mapper.wf(),
            all == mapper.model(),
            edges == mapper.edges(),
            items_in_graph(graph@, items@),
            left@.len() == items@.len(),
            pending0.len() == items@.len(),
            target == after_entry(all, edges, pending0, record@, entry@),
            table_view(table@) == with_copies(
                table0,
                record@,
                entry@,
                served(all, edges, pending0, record@, entry@, s as int),
            ),
            forall|x: int|
                0 <= x < items@.len() ==> (#[trigger] pending_with(graph@, items@, left@)[x]) == (
                if x < s {
                    target[x]
                } else {
                    pending0[x]
                }),
        decreases items@.len() - s,
    {
        let node = items[s].package;
        assert(graph@[node as int] == graph.nodes@[node as int]@);
        let ghost now = pending_with(graph@, items@, left@);
        assert(now[s as int] == pending0[s as int]);
        let mut set = left[s];
        let serving = str_eq(graph.nodes[node].name.as_str(), record)
            && items[s].suggested_diff.to.same(&entry.version) && name_listed(
            &mapper.criteria_names(&set),
            entry.criteria.as_str(),
        );
        assert(serving == serves(all, edges, pending0[s as int], record@, entry@));
        if serving {
            mapper.clear_criteria(&mut set, entry.criteria.as_str());
            left.set(s, set);
            push_entry(table, record, entry.clone());
        }
        proof {
            assert forall|x: int| 0 <= x < items@.len() implies (#[trigger] pending_with(
                graph@,
                items@,
                left@,
            )[x]) == (if x < s + 1 {
                target[x]
            } else {
                pending0[x]
            }) by {
                if x != s {
                    assert(pending_with(graph@, items@, left@)[x] == now[x]);
                }
            }
        }
        s += 1;
    }
    assert(pending_with(graph@, items@, left@) =~= target);
    if something_pending(graph, items, left, record) {
        ensure_record(table, record);
    }
}

/// Looks at the old exemptions of the package `record`, in their order.
fn look_at_record(
    graph: &DepGraph,
    mapper: &CriteriaMapper,
    items: &Vec<SuggestItem>,
    table: &mut Vec<(PackageName, Vec<UnauditedDependency>)>,
    left: &mut Vec<CriteriaSet>,
    record: &str,
    entries: &Vec<UnauditedDependency>,
)
    requires
        mapper.wf(),
        items_in_graph(graph@, items@),
        old(left)@.len() == items@.len(),
    ensures
        final(left)@.len() == items@.len(),
        (table_view(final(table)@), pending_with(graph@, items@, final(left)@)) == after_entries(
            mapper.model(),
            mapper.edges(),
            table_view(old(table)@),
            pending_with(graph@, items@, old(left)@),
            record@,
            exemption_views(entries@),
            entries@.len() as int,
        ),
{
    let ghost all = mapper.model();
    let ghost edges = mapper.edges();
    let ghost table0 = table_view(table@);
    let ghost pending0 = pending_with(graph@, items@, left@);
    let ghost models = exemption_views(entries@);
    let mut t: usize = 0;
    while t < entries.len()
        invariant
            t <= entries@.len(),
            mapper.wf(),
            all == mapper.model(),
            edges == mapper.edges(),
            items_in_graph(graph@, items@),
            left@.len() == items@.len(),
            models == exemption_views(entries@),
            (table_view(table@), pending_with(graph@, items@, left@)) == after_entries(
                all,
                edges,
                table0,
                pending0,
                record@,
                models,
                t as int,
            ),
        decreases entries@.len() - t,
    {
        assert(models[t as int] == entries@[t as int]@);
        look_at_entry(graph, mapper, items, table, left, record, &entries[t]);
        t += 1;
    }
}

/// Adds a new exemption of `version` for each of `names`.
fn push_fresh(
    table: &mut Vec<(PackageName, Vec<UnauditedDependency>)>,
    name: &str,
    version: &Version,
    names: &Vec<String>,
)
    ensures
        table_view(final(table)@) == with_fresh(
            table_view(old(table)@),
            name@,
            version@,
            views(names@),
            names@.len() as int,
        ),
{
    let ghost table0 = table_view(table@);
    let mut k: usize = 0;
    while k < names.len()
        invariant
            k <= names@.len(),
            table_view(table@) == with_fresh(table0, name@, version@, views(names@), k as int),
        decreases names@.len() - k,
    {
        let dependency_criteria: Vec<(PackageName, Vec<String>)> = Vec::new();
        let entry = UnauditedDependency {
            version: version.clone(),
            criteria: names[k].clone(),
            dependency_criteria,
            notes: None,
            suggest: true,
        };
        assert(entry@.dependency_criteria =~= Seq::empty());
        assert(views(names@)[k as int] == names@[k as int]@);
        assert(entry@ == fresh_exemption(version@, views(names@)[k as int]));
        push_entry(table, name, entry);
        k += 1;
    }
}

/// The regenerated exemptions: the old exemptions that still serve a
/// suggestion, each kept in its place, then new exemptions for what they
/// leave pending of the suggestions. No package has two records in them.
pub fn regenerate(
    graph: &DepGraph,
    mapper: &CriteriaMapper,
    old_table: &Vec<(PackageName, Vec<UnauditedDependency>)>,
    items: &Vec<SuggestItem>,
) -> (table: Vec<(PackageName, Vec<UnauditedDependency>)>)
    requires
        mapper.wf(),
        items_in_graph(graph@, items@),
    ensures
        table_view(table@) == regenerated(
            mapper.model(),
            mapper.edges(),
            table_view(old_table@),
            pending_of(graph@, items@),
        ),
        distinct_keys(table@),
{
    let ghost all = mapper.model();
    let ghost edges = mapper.edges();
    let ghost old_view = table_view(old_table@);
    let ghost pending0 = pending_of(graph@, items@);
    let mut left: Vec<CriteriaSet> = Vec::new();
    let mut s: usize = 0;
    while s < items.len()
        invariant
            s <= items@.len(),
            left@.len() == s,
            forall|x: int| 0 <= x < s ==> (#[trigger] left@[x]) == items@[x].suggested_criteria,
        decreases items@.len() - s,
    {
        left.push(items[s].suggested_criteria);
        s += 1;
    }
    assert(left@ =~= suggested(items@));
    let mut table: Vec<(PackageName, Vec<UnauditedDependency>)> = Vec::new();
    assert(table_view(table@) =~= Seq::empty());
    let mut r: usize = 0;
    while r < old_table.len()
        invariant
            r <= old_table@.len(),
            mapper.wf(),
            all == mapper.model(),
            edges == mapper.edges(),
            items_in_graph(graph@, items@),
            left@.len() == items@.len(),
            old_view == table_view(old_table@),
            (table_view(table@), pending_with(graph@, items@, left@)) == after_records(
                all,
                edges,
                old_view,
                pending0,
                r as int,
            ),
        decreases old_table@.len() - r,
    {
        assert(old_view[r as int] == (old_table@[r as int].0@, exemption_views(old_table@[r as int].1@)));
        look_at_record(
            graph,
            mapper,
            items,
            &mut table,
            &mut left,
            old_table[r].0.as_str(),
            &old_table[r].1,
        );
        r += 1;
    }
    let ghost kept = table_view(table@);
    let ghost pending = pending_with(graph@, items@, left@);
    let mut s: usize = 0;
    while s < items.len()
        invariant
            s <= items@.len(),
            mapper.wf(),
            all == mapper.model(),
            edges == mapper.edges(),
            items_in_graph(graph@, items@),
            left@.len() == items@.len(),
            pending == pending_with(graph@, items@, left@),
            table_view(table@) == with_pending(all, edges, kept, pending, s as int),
        decreases items@.len() - s,
    {
        let node = items[s].package;
        assert(graph@[node as int] == graph.nodes@[node as int]@);
        let names = mapper.criteria_names(&left[s]);
        push_fresh(&mut table, graph.nodes[node].name.as_str(), &items[s].suggested_diff.to, &names);
        s += 1;
    }
    proof {
        lemma_regenerated_single(all, edges, old_view, pending0);
        lemma_table_single(table@);
    }
    table
}

} // verus!
