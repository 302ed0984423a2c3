//! Laws of the regeneration of exemptions.

use crate::claims::{
    audit_claims, exemption_claim, exemption_claims, exemption_views, import_claims,
    import_violations, own_audits, own_exemptions, package_claims, package_violations, peer_audits,
    set_of, ClaimModel,
};
use crate::commands::{
    audits_suffice, graph_is, graph_of, has_violation, minimize_outcome, minimized,
    without_exemptions, MinimizeError,
};
use crate::coverage::{covers, eligible, meets, violated};
use crate::criteria::{
    acyclic, close, distinct_names, known_name, lemma_minimal_above, lemma_minimal_named,
    lemma_name_index_unique, lemma_named_minimal, lemma_named_single, minimal_in, minimal_names,
    universe, valid_universe, CriteriaMapper, Criterion,
};
use crate::filter::GraphFilter;
use crate::format::{ExemptionModel, PackageName, UnauditedDependency};
use crate::graph::{graph_wf, Metadata, NodeModel};
use crate::minimize::{
    after_entries, after_entry, after_records, fresh_exemption, lemma_record_found, pending_of,
    record_of, regenerated, served, serves, still_pending, table_after_entry, table_view,
    with_copies, with_entry, with_fresh, with_pending, with_record, ExemptionTable, Pending,
};
use crate::requirement_laws::{
    lemma_closed_holds, lemma_own_coverage_suffices, lemma_required_closed, lemma_required_same,
    own_covered, plain_claims, plain_store,
};
use crate::resolver::{
    all_failures, effective_all, effective_upto, fails, failure_of, failures_upto,
    lemma_effective_stable, lemma_violation_fails, node_claims, node_own, node_violations,
    required_at, FailureModel, ResolveError,
};
use crate::resolver_laws::{extends, lemma_covers_extends, lemma_start_covers};
use crate::storage::Store;
use crate::suggest::{answers, mendable, DiffProvider, FetchProvider, SuggestItem};
use crate::table::{has_key, key_index, lemma_key_index};
use crate::version::VersionModel;
use vstd::prelude::*;

verus! {

/// The table holds, for the package called `name`, an exemption of
/// `version` for a criterion that implies criterion `c`.
pub open spec fn exempted(
    all: Seq<Criterion>,
    edges: Seq<Seq<usize>>,
    table: ExemptionTable,
    name: Seq<char>,
    version: VersionModel,
    c: int,
) -> bool {
    let at = record_of(table, name, 0);
    at < table.len() && exists|k: int|
        0 <= k < table[at].1.len() && (#[trigger] table[at].1[k]).version == version && set_of(
            all,
            edges,
            seq![table[at].1[k].criteria],
        ).contains(c)
}

/// No exemption of the table asks anything of a single dependency.
pub open spec fn plain_table(table: ExemptionTable) -> bool {
    forall|r: int, k: int|
        0 <= r < table.len() && 0 <= k < table[r].1.len() ==> (
        #[trigger] table[r].1[k]).dependency_criteria.len() == 0
}

/// The search for a record ends at or behind its start, and no further
/// than the end of the table.
proof fn lemma_record_bounds(table: ExemptionTable, name: Seq<char>, from: int)
    requires
        0 <= from <= table.len(),
    ensures
        from <= record_of(table, name, from) <= table.len(),
    decreases table.len() - from,
{
    if from < table.len() && table[from].0 != name {
        lemma_record_bounds(table, name, from + 1);
    }
}

/// New entries at a record move no record.
proof fn lemma_record_after_update(
    table: ExemptionTable,
    at: int,
    entries: Seq<ExemptionModel>,
    name: Seq<char>,
    from: int,
)
    requires
        0 <= at < table.len(),
        0 <= from,
    ensures
        record_of(table.update(at, (table[at].0, entries)), name, from) == record_of(
            table,
            name,
            from,
        ),
    decreases table.len() - from,
{
    let after = table.update(at, (table[at].0, entries));
    if from < table.len() {
        assert(after[from].0 == table[from].0);
        if table[from].0 != name {
            lemma_record_after_update(table, at, entries, name, from + 1);
        }
    }
}

/// A record at the end is found by its name where no earlier record has
/// that name, and moves no record.
proof fn lemma_record_after_push(
    table: ExemptionTable,
    key: Seq<char>,
    entries: Seq<ExemptionModel>,
    name: Seq<char>,
    from: int,
)
    requires
        0 <= from <= table.len(),
    ensures
        record_of(table.push((key, entries)), name, from) == if record_of(table, name, from)
            < table.len() {
            record_of(table, name, from)
        } else if key == name {
            table.len() as int
        } else {
            (table.len() + 1) as int
        },
    decreases table.len() - from,
{
    let after = table.push((key, entries));
    lemma_record_bounds(table, name, from);
    if from < table.len() {
        assert(after[from] == table[from]);
        if table[from].0 != name {
            lemma_record_after_push(table, key, entries, name, from + 1);
        }
    } else {
        assert(after[from].0 == key);
        if key != name {
            assert(record_of(after, name, from + 1) == after.len());
        }
    }
}

/// An entry that is added leaves what the table held.
proof fn lemma_entry_keeps(
    all: Seq<Criterion>,
    edges: Seq<Seq<usize>>,
    table: ExemptionTable,
    record: Seq<char>,
    entry: ExemptionModel,
    name: Seq<char>,
    version: VersionModel,
    c: int,
)
    requires
        exempted(all, edges, table, name, version, c),
    ensures
        exempted(all, edges, with_entry(table, record, entry), name, version, c),
{
    let at = record_of(table, name, 0);
    let k = choose|k: int|
        0 <= k < table[at].1.len() && (#[trigger] table[at].1[k]).version == version && set_of(
            all,
            edges,
            seq![table[at].1[k].criteria],
        ).contains(c);
    let to = record_of(table, record, 0);
    let after = with_entry(table, record, entry);
    lemma_record_bounds(table, record, 0);
    lemma_record_bounds(table, name, 0);
    if to < table.len() {
        lemma_record_found(table, record, 0);
        lemma_record_after_update(table, to, table[to].1.push(entry), name, 0);
        assert(after[at].1[k] == table[at].1[k]);
    } else {
        lemma_record_after_push(table, record, seq![entry], name, 0);
        assert(after[at] == table[at]);
        assert(after[at].1[k] == table[at].1[k]);
    }
}

/// An entry that is added is held by the table.
proof fn lemma_entry_adds(
    all: Seq<Criterion>,
    edges: Seq<Seq<usize>>,
    table: ExemptionTable,
    record: Seq<char>,
    entry: ExemptionModel,
    c: int,
)
    requires
        set_of(all, edges, seq![entry.criteria]).contains(c),
    ensures
        exempted(all, edges, with_entry(table, record, entry), record, entry.version, c),
{
    let to = record_of(table, record, 0);
    let after = with_entry(table, record, entry);
    lemma_record_bounds(table, record, 0);
    if to < table.len() {
        lemma_record_found(table, record, 0);
        lemma_record_after_update(table, to, table[to].1.push(entry), record, 0);
        assert(after[to].1[table[to].1.len() as int] == entry);
    } else {
        lemma_record_after_push(table, record, seq![entry], record, 0);
        assert(after[to].1[0] == entry);
    }
}

/// An entry without dependency criteria leaves the table plain.
proof fn lemma_entry_plain(table: ExemptionTable, record: Seq<char>, entry: ExemptionModel)
    requires
        plain_table(table),
        entry.dependency_criteria.len() == 0,
    ensures
        plain_table(with_entry(table, record, entry)),
{
    let to = record_of(table, record, 0);
    let after = with_entry(table, record, entry);
    lemma_record_bounds(table, record, 0);
    assert forall|r: int, k: int| 0 <= r < after.len() && 0 <= k < after[r].1.len() implies (
    #[trigger] after[r].1[k]).dependency_criteria.len() == 0 by {
        if to < table.len() {
            if r == to && k == table[to].1.len() {
            } else {
                assert(after[r].1[k] == table[r].1[k]);
            }
        } else {
            if r < table.len() {
                assert(after[r].1[k] == table[r].1[k]);
            }
        }
    }
}

/// A record that is made sure of leaves what the table held, and leaves it
/// plain.
proof fn lemma_record_keeps(
    all: Seq<Criterion>,
    edges: Seq<Seq<usize>>,
    table: ExemptionTable,
    record: Seq<char>,
    name: Seq<char>,
    version: VersionModel,
    c: int,
)
    requires
        exempted(all, edges, table, name, version, c),
    ensures
        exempted(all, edges, with_record(table, record), name, version, c),
{
    let at = record_of(table, name, 0);
    let k = choose|k: int|
        0 <= k < table[at].1.len() && (#[trigger] table[at].1[k]).version == version && set_of(
            all,
            edges,
            seq![table[at].1[k].criteria],
        ).contains(c);
    lemma_record_bounds(table, record, 0);
    lemma_record_bounds(table, name, 0);
    if record_of(table, record, 0) >= table.len() {
        lemma_record_after_push(table, record, Seq::empty(), name, 0);
        let after = with_record(table, record);
        assert(after[at] == table[at]);
        assert(after[at].1[k] == table[at].1[k]);
    }
}

proof fn lemma_record_plain(table: ExemptionTable, record: Seq<char>)
    requires
        plain_table(table),
    ensures
        plain_table(with_record(table, record)),
{
    let after = with_record(table, record);
    assert forall|r: int, k: int| 0 <= r < after.len() && 0 <= k < after[r].1.len() implies (
    #[trigger] after[r].1[k]).dependency_criteria.len() == 0 by {
        if r < table.len() {
            assert(after[r].1[k] == table[r].1[k]);
        }
    }
}

/// Copies that are added leave what the table held.
proof fn lemma_copies_keep(
    all: Seq<Criterion>,
    edges: Seq<Seq<usize>>,
    table: ExemptionTable,
    record: Seq<char>,
    entry: ExemptionModel,
    count: nat,
    name: Seq<char>,
    version: VersionModel,
    c: int,
)
    requires
        exempted(all, edges, table, name, version, c),
    ensures
        exempted(all, edges, with_copies(table, record, entry, count), name, version, c),
    decreases count,
{
    if count > 0 {
        lemma_copies_keep(all, edges, table, record, entry, (count - 1) as nat, name, version, c);
        lemma_entry_keeps(
            all,
            edges,
            with_copies(table, record, entry, (count - 1) as nat),
            record,
            entry,
            name,
            version,
            c,
        );
    }
}

/// One copy or more is held by the table.
proof fn lemma_copies_add(
    all: Seq<Criterion>,
    edges: Seq<Seq<usize>>,
    table: ExemptionTable,
    record: Seq<char>,
    entry: ExemptionModel,
    count: nat,
    c: int,
)
    requires
        count >= 1,
        set_of(all, edges, seq![entry.criteria]).contains(c),
    ensures
        exempted(all, edges, with_copies(table, record, entry, count), record, entry.version, c),
{
    lemma_entry_adds(
        all,
        edges,
        with_copies(table, record, entry, (count - 1) as nat),
        record,
        entry,
        c,
    );
}

proof fn lemma_copies_plain(
    table: ExemptionTable,
    record: Seq<char>,
    entry: ExemptionModel,
    count: nat,
)
    requires
        plain_table(table),
        entry.dependency_criteria.len() == 0,
    ensures
        plain_table(with_copies(table, record, entry, count)),
    decreases count,
{
    if count > 0 {
        lemma_copies_plain(table, record, entry, (count - 1) as nat);
        lemma_entry_plain(with_copies(table, record, entry, (count - 1) as nat), record, entry);
    }
}

/// An exemption that serves one of the first `upto` suggestions is counted.
proof fn lemma_served_counts(
    all: Seq<Criterion>,
    edges: Seq<Seq<usize>>,
    pending: Seq<Pending>,
    record: Seq<char>,
    entry: ExemptionModel,
    upto: int,
    s: int,
)
    requires
        0 <= s < upto,
        serves(all, edges, pending[s], record, entry),
    ensures
        served(all, edges, pending, record, entry, upto) >= 1,
    decreases upto,
{
    if s < upto - 1 {
        lemma_served_counts(all, edges, pending, record, entry, upto - 1, s);
    }
}

/// How far the regeneration has come: of what the suggestions asked at
/// first, everything is still pending or held by the table.
pub open spec fn progress(
    all: Seq<Criterion>,
    edges: Seq<Seq<usize>>,
    initial: Seq<Pending>,
    now: Seq<Pending>,
    table: ExemptionTable,
) -> bool {
    &&& now.len() == initial.len()
    &&& forall|s: int|
        0 <= s < initial.len() ==> (#[trigger] now[s]).name == initial[s].name && now[s].version
            == initial[s].version
    &&& forall|s: int, c: int|
        0 <= s < initial.len() && #[trigger] initial[s].criteria.contains(c)
            ==> now[s].criteria.contains(c) || exempted(
            all,
            edges,
            table,
            initial[s].name,
            initial[s].version,
            c,
        )
}

/// Looking at an old exemption loses nothing: what it takes out of the
/// pending criteria, it holds itself.
proof fn lemma_entry_progress(
    all: Seq<Criterion>,
    edges: Seq<Seq<usize>>,
    initial: Seq<Pending>,
    now: Seq<Pending>,
    table: ExemptionTable,
    record: Seq<char>,
    entry: ExemptionModel,
)
    requires
        distinct_names(all),
        progress(all, edges, initial, now, table),
    ensures
        progress(
            all,
            edges,
            initial,
            after_entry(all, edges, now, record, entry),
            table_after_entry(all, edges, table, now, record, entry),
        ),
{
    let next = after_entry(all, edges, now, record, entry);
    let count = served(all, edges, now, record, entry, now.len() as int);
    let kept = with_copies(table, record, entry, count);
    let after = table_after_entry(all, edges, table, now, record, entry);
    assert forall|s: int, c: int|
        0 <= s < initial.len() && #[trigger] initial[s].criteria.contains(c) implies next[s].criteria.contains(
        c,
    ) || exempted(all, edges, after, initial[s].name, initial[s].version, c) by {
        if !next[s].criteria.contains(c) {
            if now[s].criteria.contains(c) {
                assert(serves(all, edges, now[s], record, entry));
                let names = minimal_names(all, edges, now[s].criteria);
                let t = choose|t: int| 0 <= t < names.len() && names[t] == entry.criteria;
                lemma_named_minimal(all, edges, now[s].criteria, t);
                let m = choose|m: int|
                    0 <= m < all.len() && minimal_in(edges, now[s].criteria, m) && names[t] == (
                    #[trigger] all[m]).name;
                lemma_name_index_unique(all, m);
                lemma_named_single(all, m);
                assert(known_name(all, entry.criteria));
                assert(close(edges, set![m]).contains(c));
                lemma_served_counts(all, edges, now, record, entry, now.len() as int, s);
                lemma_copies_add(all, edges, table, record, entry, count, c);
            } else {
                lemma_copies_keep(
                    all,
                    edges,
                    table,
                    record,
                    entry,
                    count,
                    initial[s].name,
                    initial[s].version,
                    c,
                );
            }
            if still_pending(next, record) {
                lemma_record_keeps(
                    all,
                    edges,
                    kept,
                    record,
                    initial[s].name,
                    initial[s].version,
                    c,
                );
            }
        }
    }
}

proof fn lemma_entry_stays_plain(
    all: Seq<Criterion>,
    edges: Seq<Seq<usize>>,
    now: Seq<Pending>,
    table: ExemptionTable,
    record: Seq<char>,
    entry: ExemptionModel,
)
    requires
        plain_table(table),
        entry.dependency_criteria.len() == 0,
    ensures
        plain_table(table_after_entry(all, edges, table, now, record, entry)),
{
    let count = served(all, edges, now, record, entry, now.len() as int);
    lemma_copies_plain(table, record, entry, count);
    lemma_record_plain(with_copies(table, record, entry, count), record);
}

/// Looking at the old exemptions of a package loses nothing.
proof fn lemma_entries_progress(
    all: Seq<Criterion>,
    edges: Seq<Seq<usize>>,
    initial: Seq<Pending>,
    now: Seq<Pending>,
    table: ExemptionTable,
    record: Seq<char>,
    entries: Seq<ExemptionModel>,
    upto: int,
)
    requires
        distinct_names(all),
        progress(all, edges, initial, now, table),
        0 <= upto <= entries.len(),
    ensures
        progress(
            all,
            edges,
            initial,
            after_entries(all, edges, table, now, record, entries, upto).1,
            after_entries(all, edges, table, now, record, entries, upto).0,
        ),
        plain_table(table) && (forall|k: int|
            0 <= k < entries.len() ==> (#[trigger] entries[k]).dependency_criteria.len() == 0)
            ==> plain_table(after_entries(all, edges, table, now, record, entries, upto).0),
    decreases upto,
{
    if upto > 0 {
        lemma_entries_progress(all, edges, initial, now, table, record, entries, upto - 1);
        let (t, p) = after_entries(all, edges, table, now, record, entries, upto - 1);
        lemma_entry_progress(all, edges, initial, p, t, record, entries[upto - 1]);
        if plain_table(table) && (forall|k: int|
            0 <= k < entries.len() ==> (#[trigger] entries[k]).dependency_criteria.len() == 0) {
            lemma_entry_stays_plain(all, edges, p, t, record, entries[upto - 1]);
        }
    }
}

/// Looking at the old table loses nothing.
proof fn lemma_records_progress(
    all: Seq<Criterion>,
    edges: Seq<Seq<usize>>,
    old_table: ExemptionTable,
    pending: Seq<Pending>,
    upto: int,
)
    requires
        distinct_names(all),
        0 <= upto <= old_table.len(),
    ensures
        progress(
            all,
            edges,
            pending,
            after_records(all, edges, old_table, pending, upto).1,
            after_records(all, edges, old_table, pending, upto).0,
        ),
        plain_table(old_table) ==> plain_table(
            after_records(all, edges, old_table, pending, upto).0,
        ),
    decreases upto,
{
    if upto > 0 {
        lemma_records_progress(all, edges, old_table, pending, upto - 1);
        let (t, p) = after_records(all, edges, old_table, pending, upto - 1);
        let record = old_table[upto - 1];
        if plain_table(old_table) {
            assert forall|k: int| 0 <= k < record.1.len() implies (
            #[trigger] record.1[k]).dependency_criteria.len() == 0 by {
                assert(old_table[upto - 1].1[k].dependency_criteria.len() == 0);
            }
        }
        lemma_entries_progress(all, edges, pending, p, t, record.0, record.1, record.1.len() as int);
    }
}

/// New exemptions that are added leave what the table held, and leave it
/// plain.
proof fn lemma_fresh_keeps(
    all: Seq<Criterion>,
    edges: Seq<Seq<usize>>,
    table: ExemptionTable,
    record: Seq<char>,
    at: VersionModel,
    criteria: Seq<Seq<char>>,
    upto: int,
    name: Seq<char>,
    version: VersionModel,
    c: int,
)
    requires
        exempted(all, edges, table, name, version, c),
    ensures
        exempted(
            all,
            edges,
            with_fresh(table, record, at, criteria, upto),
            name,
            version,
            c,
        ),
    decreases upto,
{
    if upto > 0 {
        lemma_fresh_keeps(all, edges, table, record, at, criteria, upto - 1, name, version, c);
        lemma_entry_keeps(
            all,
            edges,
            with_fresh(table, record, at, criteria, upto - 1),
            record,
            fresh_exemption(at, criteria[upto - 1]),
            name,
            version,
            c,
        );
    }
}

proof fn lemma_fresh_plain(
    table: ExemptionTable,
    record: Seq<char>,
    at: VersionModel,
    criteria: Seq<Seq<char>>,
    upto: int,
)
    requires
        plain_table(table),
    ensures
        plain_table(with_fresh(table, record, at, criteria, upto)),
    decreases upto,
{
    if upto > 0 {
        lemma_fresh_plain(table, record, at, criteria, upto - 1);
        lemma_entry_plain(
            with_fresh(table, record, at, criteria, upto - 1),
            record,
            fresh_exemption(at, criteria[upto - 1]),
        );
    }
}

/// A new exemption for one of the names is held by the table.
proof fn lemma_fresh_adds(
    all: Seq<Criterion>,
    edges: Seq<Seq<usize>>,
    table: ExemptionTable,
    record: Seq<char>,
    at: VersionModel,
    criteria: Seq<Seq<char>>,
    upto: int,
    t: int,
    c: int,
)
    requires
        0 <= t < upto,
        set_of(all, edges, seq![criteria[t]]).contains(c),
    ensures
        exempted(all, edges, with_fresh(table, record, at, criteria, upto), record, at, c),
    decreases upto,
{
    let before = with_fresh(table, record, at, criteria, upto - 1);
    let entry = fresh_exemption(at, criteria[upto - 1]);
    if t == upto - 1 {
        lemma_entry_adds(all, edges, before, record, entry, c);
    } else {
        lemma_fresh_adds(all, edges, table, record, at, criteria, upto - 1, t, c);
        lemma_entry_keeps(all, edges, before, record, entry, record, at, c);
    }
}

/// The new exemptions for what is pending leave what the table held.
proof fn lemma_pending_keeps(
    all: Seq<Criterion>,
    edges: Seq<Seq<usize>>,
    table: ExemptionTable,
    pending: Seq<Pending>,
    upto: int,
    name: Seq<char>,
    version: VersionModel,
    c: int,
)
    requires
        exempted(all, edges, table, name, version, c),
    ensures
        exempted(all, edges, with_pending(all, edges, table, pending, upto), name, version, c),
    decreases upto,
{
    if upto > 0 {
        lemma_pending_keeps(all, edges, table, pending, upto - 1, name, version, c);
        let names = minimal_names(all, edges, pending[upto - 1].criteria);
        lemma_fresh_keeps(
            all,
            edges,
            with_pending(all, edges, table, pending, upto - 1),
            pending[upto - 1].name,
            pending[upto - 1].version,
            names,
            names.len() as int,
            name,
            version,
            c,
        );
    }
}

proof fn lemma_pending_plain(
    all: Seq<Criterion>,
    edges: Seq<Seq<usize>>,
    table: ExemptionTable,
    pending: Seq<Pending>,
    upto: int,
)
    requires
        plain_table(table),
    ensures
        plain_table(with_pending(all, edges, table, pending, upto)),
    decreases upto,
{
    if upto > 0 {
        lemma_pending_plain(all, edges, table, pending, upto - 1);
        let names = minimal_names(all, edges, pending[upto - 1].criteria);
        lemma_fresh_plain(
            with_pending(all, edges, table, pending, upto - 1),
            pending[upto - 1].name,
            pending[upto - 1].version,
            names,
            names.len() as int,
        );
    }
}

/// The new exemptions hold what was pending.
proof fn lemma_pending_adds(
    all: Seq<Criterion>,
    edges: Seq<Seq<usize>>,
    table: ExemptionTable,
    pending: Seq<Pending>,
    upto: int,
    s: int,
    c: int,
)
    requires
        distinct_names(all),
        acyclic(edges),
        all.len() == edges.len(),
        0 <= s < upto,
        pending[s].criteria.contains(c),
        0 <= c < edges.len(),
    ensures
        exempted(
            all,
            edges,
            with_pending(all, edges, table, pending, upto),
            pending[s].name,
            pending[s].version,
            c,
        ),
    decreases upto,
{
    let before = with_pending(all, edges, table, pending, upto - 1);
    let last = pending[upto - 1];
    let names = minimal_names(all, edges, last.criteria);
    if s == upto - 1 {
        lemma_minimal_above(edges, last.criteria, c);
        let m = choose|m: int| minimal_in(edges, last.criteria, m) && #[trigger] crate::reach::reaches(edges, m, c);
        crate::criteria::lemma_reaches_in_range(edges, m, c);
        lemma_minimal_named(all, edges, last.criteria, m);
        let t = choose|t: int| 0 <= t < names.len() && names[t] == all[m].name;
        lemma_named_single(all, m);
        assert(set![m].contains(m));
        assert(close(edges, set![m]).contains(c));
        lemma_fresh_adds(all, edges, before, last.name, last.version, names, names.len() as int, t, c);
    } else {
        lemma_pending_adds(all, edges, table, pending, upto - 1, s, c);
        lemma_fresh_keeps(
            all,
            edges,
            before,
            last.name,
            last.version,
            names,
            names.len() as int,
            pending[s].name,
            pending[s].version,
            c,
        );
    }
}

/// The regenerated table holds, for every suggestion, an exemption of its
/// version for each criterion that it asks for.
pub proof fn lemma_regenerated_covers(
    all: Seq<Criterion>,
    edges: Seq<Seq<usize>>,
    old_table: ExemptionTable,
    pending: Seq<Pending>,
    s: int,
    c: int,
)
    requires
        distinct_names(all),
        acyclic(edges),
        all.len() == edges.len(),
        0 <= s < pending.len(),
        pending[s].criteria.contains(c),
        0 <= c < edges.len(),
    ensures
        exempted(
            all,
            edges,
            regenerated(all, edges, old_table, pending),
            pending[s].name,
            pending[s].version,
            c,
        ),
{
    lemma_records_progress(all, edges, old_table, pending, old_table.len() as int);
    let (table, left) = after_records(all, edges, old_table, pending, old_table.len() as int);
    assert(left[s].name == pending[s].name && left[s].version == pending[s].version);
    if left[s].criteria.contains(c) {
        lemma_pending_adds(all, edges, table, left, left.len() as int, s, c);
    } else {
        lemma_pending_keeps(
            all,
            edges,
            table,
            left,
            left.len() as int,
            pending[s].name,
            pending[s].version,
            c,
        );
    }
}

/// The regenerated table is plain where the old table is.
pub proof fn lemma_regenerated_plain(
    all: Seq<Criterion>,
    edges: Seq<Seq<usize>>,
    old_table: ExemptionTable,
    pending: Seq<Pending>,
)
    requires
        distinct_names(all),
        plain_table(old_table),
    ensures
        plain_table(regenerated(all, edges, old_table, pending)),
{
    lemma_records_progress(all, edges, old_table, pending, old_table.len() as int);
    let (table, left) = after_records(all, edges, old_table, pending, old_table.len() as int);
    lemma_pending_plain(all, edges, table, left, left.len() as int);
}

/// The search for a record in a table's value ends where the first record
/// for the key stands, or at the end where there is none.
proof fn lemma_view_record(
    table: Seq<(PackageName, Vec<UnauditedDependency>)>,
    key: Seq<char>,
    from: int,
)
    requires
        0 <= from <= table.len(),
        forall|j: int| 0 <= j < from ==> (#[trigger] table[j]).0@ != key,
    ensures
        has_key(table, key) ==> record_of(table_view(table), key, from) == key_index(table, key)
            && 0 <= key_index(table, key) < table.len(),
        !has_key(table, key) ==> record_of(table_view(table), key, from) == table.len(),
    decreases table.len() - from,
{
    let view = table_view(table);
    if from < table.len() {
        assert(view[from].0 == table[from].0@);
        if table[from].0@ == key {
            lemma_key_index(table, key, from);
        } else {
            lemma_view_record(table, key, from + 1);
        }
    } else {
        if has_key(table, key) {
            let i = choose|i: int| 0 <= i < table.len() && (#[trigger] table[i]).0@ == key;
            assert(table[i].0@ != key);
        }
    }
}

/// The exemptions of a package are the entries of its record in the
/// table's value.
pub proof fn lemma_own_exemptions(store: &Store, name: Seq<char>)
    ensures
        own_exemptions(store, name) == ({
            let table = table_view(store.config.unaudited@);
            let at = record_of(table, name, 0);
            if at < table.len() {
                table[at].1
            } else {
                Seq::empty()
            }
        }),
{
    let raw = store.config.unaudited@;
    lemma_view_record(raw, name, 0);
    if has_key(raw, name) {
        assert(table_view(raw)[key_index(raw, name)].1 == exemption_views(
            raw[key_index(raw, name)].1@,
        ));
    } else {
        assert(exemption_views(Seq::<UnauditedDependency>::empty()) =~= Seq::<ExemptionModel>::empty());
    }
}

/// Stores with the same imports have the same claims and violations from
/// them.
proof fn lemma_imports_same(
    all: Seq<Criterion>,
    edges: Seq<Seq<usize>>,
    a: &Store,
    b: &Store,
    name: Seq<char>,
    upto: int,
)
    requires
        a.imports == b.imports,
    ensures
        import_claims(all, edges, a, name, upto) == import_claims(all, edges, b, name, upto),
        import_violations(all, edges, a, name, upto) == import_violations(
            all,
            edges,
            b,
            name,
            upto,
        ),
    decreases upto,
{
    if upto > 0 {
        lemma_imports_same(all, edges, a, b, name, upto - 1);
        assert(peer_audits(a, upto - 1, name) == peer_audits(b, upto - 1, name));
    }
}

/// The claims of a store are those of the store without its exemptions,
/// then those of its exemptions; the violations are the same.
pub proof fn lemma_claims_with_exemptions(
    all: Seq<Criterion>,
    edges: Seq<Seq<usize>>,
    store: &Store,
    bare: &Store,
    name: Seq<char>,
)
    requires
        without_exemptions(store, bare),
    ensures
        package_claims(all, edges, store, name) == package_claims(all, edges, bare, name)
            + exemption_claims(all, edges, own_exemptions(store, name)),
        package_violations(all, edges, store, name) == package_violations(
            all,
            edges,
            bare,
            name,
        ),
{
    lemma_imports_same(all, edges, store, bare, name, store.imports.audits@.len() as int);
    lemma_own_exemptions(bare, name);
    assert(own_audits(store, name) == own_audits(bare, name));
    let none = exemption_claims(all, edges, own_exemptions(bare, name));
    assert(none =~= Seq::<ClaimModel>::empty());
    let audits = audit_claims(
        all,
        edges,
        own_audits(bare, name),
        None,
        own_audits(bare, name).len() as int,
    );
    let imports = import_claims(all, edges, bare, name, bare.imports.audits@.len() as int);
    assert(package_claims(all, edges, bare, name) =~= audits + imports);
    assert(package_claims(all, edges, store, name) =~= (audits + imports) + exemption_claims(
        all,
        edges,
        own_exemptions(store, name),
    ));
}

/// The failure of a node that fails is among the failures.
pub proof fn lemma_failure_listed(
    graph: Seq<NodeModel>,
    mapper: &CriteriaMapper,
    store: &Store,
    guess_deeper: bool,
    upto: int,
    i: int,
)
    requires
        0 <= i < upto,
        fails(graph, mapper, store, guess_deeper, i),
    ensures
        failures_upto(graph, mapper, store, guess_deeper, upto).contains(
            failure_of(graph, mapper, store, guess_deeper, i),
        ),
    decreases upto,
{
    let list = failures_upto(graph, mapper, store, guess_deeper, upto);
    let before = failures_upto(graph, mapper, store, guess_deeper, upto - 1);
    if i == upto - 1 {
        assert(list[before.len() as int] == failure_of(graph, mapper, store, guess_deeper, i));
    } else {
        lemma_failure_listed(graph, mapper, store, guess_deeper, upto - 1, i);
        let t = choose|t: int|
            0 <= t < before.len() && before[t] == failure_of(
                graph,
                mapper,
                store,
                guess_deeper,
                i,
            );
        assert(list[t] == before[t]);
    }
}

/// What eligible claims cover, the claims for the criterion cover.
pub proof fn lemma_effective_is_own(
    graph: Seq<NodeModel>,
    mapper: &CriteriaMapper,
    store: &Store,
    i: int,
    c: int,
)
    requires
        0 <= i < graph.len(),
        effective_all(graph, mapper, store)[i].contains(c),
    ensures
        covers(
            node_claims(mapper, store, graph[i]),
            meets(node_claims(mapper, store, graph[i]), c),
            graph[i].version,
        ),
{
    let claims = node_claims(mapper, store, graph[i]);
    let before = effective_upto(graph, mapper, store, i);
    lemma_effective_stable(graph, mapper, store, graph.len() as int, i);
    let usable = eligible(graph, before, graph[i], claims, mapper.edges(), c);
    assert(extends(claims, usable, claims, meets(claims, c)));
    lemma_covers_extends(claims, usable, claims, meets(claims, c), graph[i].version);
}

/// After the exemptions have been regenerated for a store whose audits and
/// old exemptions ask nothing of single dependencies, every package from
/// the registry has chains of its own for what is required of it.
proof fn lemma_minimized_own_covered(
    before: &Store,
    after: &Store,
    metadata: &Metadata,
    filter_graph: Option<&Vec<GraphFilter>>,
    bare: &Store,
    graph: Seq<NodeModel>,
    mapper: &CriteriaMapper,
    items: Seq<SuggestItem>,
    i: int,
    c: int,
)
    requires
        minimized(before, after, metadata, filter_graph, bare, graph, mapper, items),
        graph_wf(graph),
        graph.len() <= usize::MAX,
        plain_store(graph, mapper, bare),
        0 <= i < graph.len(),
        graph[i].is_third_party,
        required_at(graph, mapper, bare, true, i).contains(c),
    ensures
        covers(
            node_claims(mapper, after, graph[i]),
            meets(node_claims(mapper, after, graph[i]), c),
            graph[i].version,
        ),
        !violated(node_violations(mapper, after, graph[i]), graph[i].version, c),
{
    let all = mapper.model();
    let edges = mapper.edges();
    let node = graph[i];
    let n = graph.len() as int;
    let failures = all_failures(graph, mapper, bare, true);
    let thin = node_claims(mapper, bare, node);
    let full = node_claims(mapper, after, node);
    let extra = exemption_claims(all, edges, own_exemptions(after, node.name));
    lemma_claims_with_exemptions(all, edges, after, bare, node.name);
    assert(full == thin + extra);
    if violated(node_violations(mapper, bare, node), node.version, c) {
        lemma_violation_fails(graph, mapper, bare, true, i, c);
        lemma_failure_listed(graph, mapper, bare, true, n, i);
        let t = choose|t: int|
            0 <= t < failures.len() && failures[t] == failure_of(graph, mapper, bare, true, i);
        assert(failures[t].reason is Violation);
    }
    if covers(thin, meets(thin, c), node.version) {
        assert(extends(thin, meets(thin, c), full, meets(full, c)));
        lemma_covers_extends(thin, meets(thin, c), full, meets(full, c), node.version);
    } else {
        if effective_all(graph, mapper, bare)[i].contains(c) {
            lemma_effective_is_own(graph, mapper, bare, i, c);
        }
        lemma_required_closed(graph, mapper, bare, true, i);
        lemma_closed_holds(edges, required_at(graph, mapper, bare, true, i), c);
        assert(!node_own(graph, mapper, bare, i).contains(c));
        assert(fails(graph, mapper, bare, true, i));
        let failure = failure_of(graph, mapper, bare, true, i);
        lemma_failure_listed(graph, mapper, bare, true, n, i);
        let w = choose|w: int| 0 <= w < failures.len() && failures[w] == failure;
        assert(!(failures[w].reason is Violation));
        assert(failure.reason is Unreachable);
        let pred = |f: FailureModel| f.reason is Unreachable;
        failures.filter_lemma(pred);
        assert(pred(failures[w]));
        assert(mendable(failures).contains(failures[w]));
        let t = choose|t: int| 0 <= t < mendable(failures).len() && mendable(failures)[t] == failure;
        assert(answers(graph, mapper, bare, true, items[t], mendable(failures)[t]));
        let pending = pending_of(graph, items);
        assert(failure.node == i as usize);
        assert(items[t].package as int == i);
        assert(pending[t].name == node.name);
        assert(pending[t].version == node.version);
        assert(pending[t].criteria.contains(c));
        lemma_regenerated_covers(all, edges, table_view(before.config.unaudited@), pending, t, c);
        lemma_own_exemptions(after, node.name);
        let table = table_view(after.config.unaudited@);
        let at = record_of(table, node.name, 0);
        let k = choose|k: int|
            0 <= k < table[at].1.len() && (#[trigger] table[at].1[k]).version == node.version
                && set_of(all, edges, seq![table[at].1[k].criteria]).contains(c);
        assert(extra[k] == exemption_claim(all, edges, table[at].1[k], k));
        let place = thin.len() + k;
        assert(full[place] == extra[k]);
        lemma_start_covers(full, meets(full, c), place);
    }
}

/// A store is plain where it is plain without its exemptions and its
/// exemptions are plain.
pub proof fn lemma_store_plain(
    store: &Store,
    bare: &Store,
    graph: Seq<NodeModel>,
    mapper: &CriteriaMapper,
)
    requires
        without_exemptions(store, bare),
        plain_store(graph, mapper, bare),
        plain_table(table_view(store.config.unaudited@)),
    ensures
        plain_store(graph, mapper, store),
{
    let all = mapper.model();
    let edges = mapper.edges();
    let table = table_view(store.config.unaudited@);
    assert forall|i: int| 0 <= i < graph.len() && (#[trigger] graph[i]).is_third_party implies plain_claims(
        node_claims(mapper, store, graph[i]),
    ) by {
        let name = graph[i].name;
        let thin = node_claims(mapper, bare, graph[i]);
        let full = node_claims(mapper, store, graph[i]);
        let entries = own_exemptions(store, name);
        let extra = exemption_claims(all, edges, entries);
        lemma_claims_with_exemptions(all, edges, store, bare, name);
        lemma_own_exemptions(store, name);
        assert forall|k: int| 0 <= k < full.len() implies (
        #[trigger] full[k]).dependency_criteria.len() == 0 by {
            if k < thin.len() {
                assert(full[k] == thin[k]);
            } else {
                let e = k - thin.len();
                assert(full[k] == extra[e]);
                assert(extra.len() == entries.len());
                let at = record_of(table, name, 0);
                lemma_record_bounds(table, name, 0);
                assert(0 <= at < table.len());
                assert(entries == table[at].1);
                assert(0 <= e < table[at].1.len());
                assert(table[at].1[e].dependency_criteria.len() == 0);
                assert(extra[e] == exemption_claim(all, edges, entries[e], e));
            }
        }
    }
}

/// After the exemptions have been regenerated, every package from the
/// registry has chains of its own for what is required of it.
proof fn lemma_minimized_covered(
    before: &Store,
    after: &Store,
    metadata: &Metadata,
    filter_graph: Option<&Vec<GraphFilter>>,
    bare: &Store,
    graph: Seq<NodeModel>,
    mapper: &CriteriaMapper,
    items: Seq<SuggestItem>,
)
    requires
        minimized(before, after, metadata, filter_graph, bare, graph, mapper, items),
        graph_wf(graph),
        graph.len() <= usize::MAX,
        plain_store(graph, mapper, bare),
        plain_store(graph, mapper, after),
    ensures
        own_covered(graph, mapper, after),
{
    assert forall|i: int, c: int|
        0 <= i < graph.len() && graph[i].is_third_party && required_at(
            graph,
            mapper,
            after,
            true,
            i,
        ).contains(c) implies covers(
        node_claims(mapper, after, graph[i]),
        #[trigger] meets(node_claims(mapper, after, graph[i]), c),
        graph[i].version,
    ) && !violated(node_violations(mapper, after, graph[i]), graph[i].version, c) by {
        lemma_required_same(graph, mapper, bare, after, i);
        lemma_minimized_own_covered(
            before,
            after,
            metadata,
            filter_graph,
            bare,
            graph,
            mapper,
            items,
            i,
            c,
        );
    }
}

/// Regenerating the exemptions makes resolution succeed: for a store whose
/// audits and old exemptions ask nothing of single dependencies, and
/// against which no violation stands, the store with the regenerated
/// exemptions resolves without a failure, whether guesses are made or not.
pub proof fn lemma_minimized_resolves(
    before: &Store,
    after: &Store,
    metadata: &Metadata,
    filter_graph: Option<&Vec<GraphFilter>>,
    bare: &Store,
    graph: Seq<NodeModel>,
    mapper: &CriteriaMapper,
    items: Seq<SuggestItem>,
    guess_deeper: bool,
)
    requires
        minimized(before, after, metadata, filter_graph, bare, graph, mapper, items),
        graph_wf(graph),
        graph.len() <= usize::MAX,
        plain_store(graph, mapper, bare),
        plain_table(table_view(before.config.unaudited@)),
    ensures
        all_failures(graph, mapper, after, guess_deeper).len() == 0,
{
    lemma_regenerated_plain(
        mapper.model(),
        mapper.edges(),
        table_view(before.config.unaudited@),
        pending_of(graph, items),
    );
    lemma_store_plain(after, bare, graph, mapper);
    lemma_minimized_covered(before, after, metadata, filter_graph, bare, graph, mapper, items);
    lemma_own_coverage_suffices(graph, mapper, after, guess_deeper);
}

proof fn lemma_entries_nothing(
    all: Seq<Criterion>,
    edges: Seq<Seq<usize>>,
    table: ExemptionTable,
    pending: Seq<Pending>,
    record: Seq<char>,
    entries: Seq<ExemptionModel>,
    upto: int,
)
    requires
        pending.len() == 0,
    ensures
        after_entries(all, edges, table, pending, record, entries, upto) == (table, pending),
    decreases upto,
{
    if upto > 0 {
        lemma_entries_nothing(all, edges, table, pending, record, entries, upto - 1);
        let entry = entries[upto - 1];
        assert(after_entry(all, edges, pending, record, entry) =~= pending);
        assert(served(all, edges, pending, record, entry, 0) == 0);
        assert(with_copies(table, record, entry, 0) == table);
        assert(!still_pending(pending, record));
    }
}

proof fn lemma_records_nothing(
    all: Seq<Criterion>,
    edges: Seq<Seq<usize>>,
    old_table: ExemptionTable,
    pending: Seq<Pending>,
    upto: int,
)
    requires
        pending.len() == 0,
    ensures
        after_records(all, edges, old_table, pending, upto) == (
            Seq::<(Seq<char>, Seq<ExemptionModel>)>::empty(),
            pending,
        ),
    decreases upto,
{
    if upto > 0 {
        lemma_records_nothing(all, edges, old_table, pending, upto - 1);
        lemma_entries_nothing(
            all,
            edges,
            Seq::empty(),
            pending,
            old_table[upto - 1].0,
            old_table[upto - 1].1,
            old_table[upto - 1].1.len() as int,
        );
    }
}

/// With nothing to suggest, no exemption is regenerated, whatever the old
/// table held.
pub proof fn lemma_regenerated_nothing(
    all: Seq<Criterion>,
    edges: Seq<Seq<usize>>,
    old_table: ExemptionTable,
    pending: Seq<Pending>,
)
    requires
        pending.len() == 0,
    ensures
        regenerated(all, edges, old_table, pending).len() == 0,
{
    lemma_records_nothing(all, edges, old_table, pending, old_table.len() as int);
}

/// Where audits alone cover every package, and the criteria and the
/// metadata are in order, regenerating the exemptions succeeds and leaves
/// no exemption.
pub proof fn lemma_nothing_to_exempt<F: FetchProvider, D: DiffProvider>(
    metadata: &Metadata,
    filter_graph: Option<&Vec<GraphFilter>>,
    before: &Store,
    after: &Store,
    fetcher: &F,
    differ: &D,
    done: Result<(), MinimizeError>,
)
    requires
        minimize_outcome(metadata, filter_graph, before, after, fetcher, differ, done),
        valid_universe(universe(before.audits.criteria@)),
        exists|graph: Seq<NodeModel>| graph_is(metadata, filter_graph, graph),
        audits_suffice(metadata, filter_graph, before),
    ensures
        done is Ok,
        after.config.unaudited@.len() == 0,
{
    match done {
        Ok(()) => {
            let (bare, graph, mapper, items) = choose|
                bare: Store,
                graph: Seq<NodeModel>,
                mapper: CriteriaMapper,
                items: Seq<SuggestItem>,
            |
                minimized(before, after, metadata, filter_graph, &bare, graph, &mapper, items);
            let failures = all_failures(graph, &mapper, &bare, true);
            assert(failures.len() == 0);
            assert(mendable(failures) =~= Seq::<FailureModel>::empty()) by {
                reveal(Seq::filter);
            }
            assert(pending_of(graph, items).len() == 0);
            lemma_regenerated_nothing(
                mapper.model(),
                mapper.edges(),
                table_view(before.config.unaudited@),
                pending_of(graph, items),
            );
            assert(table_view(after.config.unaudited@).len() == 0);
        },
        Err(MinimizeError::Resolve(ResolveError::Criteria(_))) => {},
        Err(MinimizeError::Resolve(ResolveError::Graph(_))) => {},
        Err(MinimizeError::Violation) => {
            let (bare, graph, mapper) = choose|
                bare: Store,
                graph: Seq<NodeModel>,
                mapper: CriteriaMapper,
            |
                without_exemptions(before, &bare) && mapper.wf() && mapper.model() == universe(
                    before.audits.criteria@,
                ) && graph_of(metadata, filter_graph, graph) && has_violation(
                    all_failures(graph, &mapper, &bare, true),
                );
            assert(all_failures(graph, &mapper, &bare, true).len() == 0);
        },
    }
}

} // verus!
